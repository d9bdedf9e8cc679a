//! The tools that audio and image work needs, and the reading of what
//! `ffprobe` reports.

use vstd::prelude::*;

use crate::text::{chars_of, decimal, decimal_chars, digits, law_decimal_reads_back, push_all, parse_u32, parse_u32_spec, split_lines, split_lines_chars, string_of, trim, trim_chars};
use crate::youtube::{exe_file_name, has, none_before, some_dir_holds, tool_available, SearchPath, ToolError};

verus! {

/// Succeeds when `ffmpeg` is on the search path.
pub fn require_ffmpeg(search: &SearchPath) -> (r: Result<(), ToolError>)
    ensures
        r is Err ==> r == Err::<(), ToolError>(ToolError::FfmpegMissing),
        search.dirs@.len() == 0 ==> r is Err,
        r is Ok ==> some_dir_holds(search.dirs@, exe_file_name("ffmpeg"@, search.exe_suffix@)),
        r is Err ==> none_before(
            search.dirs@,
            exe_file_name("ffmpeg"@, search.exe_suffix@),
            search.dirs@.len() as int,
        ),
{
    tool_available(has("ffmpeg", search), ToolError::FfmpegMissing)
}

/// Succeeds when `ffprobe` is on the search path.
pub fn require_ffprobe(search: &SearchPath) -> (r: Result<(), ToolError>)
    ensures
        r is Err ==> r == Err::<(), ToolError>(ToolError::FfprobeMissing),
        search.dirs@.len() == 0 ==> r is Err,
        r is Ok ==> some_dir_holds(search.dirs@, exe_file_name("ffprobe"@, search.exe_suffix@)),
        r is Err ==> none_before(
            search.dirs@,
            exe_file_name("ffprobe"@, search.exe_suffix@),
            search.dirs@.len() as int,
        ),
{
    tool_available(has("ffprobe", search), ToolError::FfprobeMissing)
}

/// The number on line `i` of a probe's output (trimmed), or `default` when
/// there is no such line or it is not a `u32`.
pub open spec fn probe_field(ls: Seq<Seq<char>>, i: int, default: u32) -> u32 {
    if 0 <= i < ls.len() {
        match parse_u32_spec(trim(ls[i])) {
            Some(v) => v,
            None => default,
        }
    } else {
        default
    }
}

fn probe_field_exec(ls: &Vec<Vec<char>>, i: usize, default: u32) -> (r: u32)
    ensures
        r == probe_field(Seq::new(ls@.len(), |j: int| ls@[j]@), i as int, default),
{
    if i < ls.len() {
        let t = string_of(&trim_chars(&ls[i]));
        match parse_u32(t.as_str()) {
            Some(v) => v,
            None => default,
        }
    } else {
        default
    }
}

/// The image size in `ffprobe -show_entries stream=width,height` output: the
/// width on the first line and the height on the second (0 when missing or
/// unreadable), when both are positive.
pub open spec fn dimensions_spec(text: Seq<char>) -> Option<(u32, u32)> {
    let ls = split_lines(text);
    let w = probe_field(ls, 0, 0);
    let h = probe_field(ls, 1, 0);
    if w > 0 && h > 0 {
        Some((w, h))
    } else {
        None
    }
}

/// Reads an image's `(width, height)` from the probe's output.
pub fn dimensions_from_probe(text: &str) -> (r: Option<(u32, u32)>)
    ensures
        r == dimensions_spec(text@),
{
    let t = chars_of(text);
    let ls = split_lines_chars(&t);
    assert(Seq::new(ls@.len(), |j: int| ls@[j]@) =~= split_lines(t@));
    let w = probe_field_exec(&ls, 0, 0);
    let h = probe_field_exec(&ls, 1, 0);
    if w > 0 && h > 0 {
        Some((w, h))
    } else {
        None
    }
}

/// The sample rate in `ffprobe -show_entries stream=sample_rate,duration`
/// output: the number on its first line, or 48000 when it is missing or
/// unreadable.
pub fn sample_rate_from_probe(text: &str) -> (r: u32)
    ensures
        r == probe_field(split_lines(text@), 0, 48000),
{
    let t = chars_of(text);
    let ls = split_lines_chars(&t);
    assert(Seq::new(ls@.len(), |j: int| ls@[j]@) =~= split_lines(t@));
    probe_field_exec(&ls, 0, 48000)
}

/// The audio filter that bakes `pad_ms` milliseconds of leading silence into
/// the song: `adelay=delays=<pad_ms>:all=1`, or the pass-through `anull`
/// when there is no padding.
pub open spec fn audio_filter_spec(pad_ms: i64) -> Seq<char> {
    if pad_ms > 0 {
        "adelay=delays="@ + decimal(pad_ms as nat) + ":all=1"@
    } else {
        "anull"@
    }
}

/// The audio filter for the given padding.
pub fn audio_filter(pad_ms: i64) -> (r: String)
    ensures
        r@ == audio_filter_spec(pad_ms),
{
    if pad_ms > 0 {
        let mut v = chars_of("adelay=delays=");
        let digits = decimal_chars(pad_ms as u64);
        push_all(&mut v, &digits);
        let tail = chars_of(":all=1");
        push_all(&mut v, &tail);
        string_of(&v)
    } else {
        "anull".to_owned()
    }
}

/// With padding, the filter delays the song by exactly that many
/// milliseconds: it is `adelay=delays=`, then decimal digits whose value is
/// the padding, then `:all=1`. Without padding it passes the audio through.
pub proof fn law_audio_filter_delay(pad_ms: i64)
    ensures
        pad_ms > 0 ==> exists|d: Seq<char>|
            #![trigger digits(d)]
            audio_filter_spec(pad_ms) == "adelay=delays="@ + d + ":all=1"@ && digits(d) == Some(
                pad_ms as int,
            ),
        pad_ms <= 0 ==> audio_filter_spec(pad_ms) == "anull"@,
{
    if pad_ms > 0 {
        let d = decimal(pad_ms as nat);
        law_decimal_reads_back(pad_ms as nat);
        assert(digits(d) == Some(pad_ms as int));
    }
}

} // verus!
