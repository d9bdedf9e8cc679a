//! YouTube URI handling and the song metadata read from `yt-dlp --dump-json`.

use vstd::prelude::*;
use vstd::utf8::encode_utf8;

use crate::text::{
    before_any, before_any_chars, char_is_alphanumeric, chars_of, contains, find, find_chars,
    is_alphanumeric, is_ascii_alnum, lemma_find, lemma_index_of_any, lemma_trim_fixed, matches_at, matches_at_exec, push_all, string_of, subvec, trim, trim_chars,
};

verus! {

// ---------------------------------------------------------------------------
// URIs
// ---------------------------------------------------------------------------

/// The URI names a YouTube Music page.
pub open spec fn is_youtube_music_spec(uri: Seq<char>) -> bool {
    contains(uri, "music.youtube.com"@) || contains(uri, "music.aa.youtube.com"@)
}

/// Whether the given URI points at YouTube Music (rather than vanilla
/// YouTube). YouTube Music pages present a different "now-playing" cover,
/// typically the square album art.
pub fn is_youtube_music(uri: &str) -> (r: bool)
    ensures
        r == is_youtube_music_spec(uri@),
{
    let u = chars_of(uri);
    let music = chars_of("music.youtube.com");
    if find_chars(&u, &music).is_some() {
        return true;
    }
    let music_aa = chars_of("music.aa.youtube.com");
    find_chars(&u, &music_aa).is_some()
}

/// The id that follows the first `pat` in `uri`, up to the first of `stops`,
/// when `pat` occurs and that id is not empty.
pub open spec fn id_after(uri: Seq<char>, pat: Seq<char>, stops: Seq<char>) -> Option<Seq<char>> {
    match find(uri, pat) {
        Some(i) => {
            let id = before_any(uri.subrange(i + pat.len(), uri.len() as int), stops);
            if id.len() > 0 {
                Some(id)
            } else {
                None
            }
        },
        None => None,
    }
}

/// A character that a bare video id may hold.
pub open spec fn is_id_char(c: char) -> bool {
    is_alphanumeric(c) || c == '-' || c == '_'
}

/// The trimmed URI, when it is itself a video id: eleven bytes of UTF-8, each
/// character alphanumeric, `-` or `_`.
pub open spec fn bare_id(uri: Seq<char>) -> Option<Seq<char>> {
    let t = trim(uri);
    if encode_utf8(t).len() == 11 && forall|i: int| 0 <= i < t.len() ==> is_id_char(#[trigger] t[i]) {
        Some(t)
    } else {
        None
    }
}

/// The characters that end an id found after a path separator.
pub open spec fn path_id_stops() -> Seq<char> {
    seq!['?', '&', '/']
}

/// The video id of a URI: the `v=` query parameter, else the segment after
/// `youtu.be/`, `/shorts/`, `/embed/` or `/live/` (tried in that order), else
/// the whole trimmed URI when it is a bare id.
pub open spec fn extract_id_spec(uri: Seq<char>) -> Option<Seq<char>> {
    if id_after(uri, "v="@, seq!['&']) is Some {
        id_after(uri, "v="@, seq!['&'])
    } else if id_after(uri, "youtu.be/"@, path_id_stops()) is Some {
        id_after(uri, "youtu.be/"@, path_id_stops())
    } else if id_after(uri, "/shorts/"@, path_id_stops()) is Some {
        id_after(uri, "/shorts/"@, path_id_stops())
    } else if id_after(uri, "/embed/"@, path_id_stops()) is Some {
        id_after(uri, "/embed/"@, path_id_stops())
    } else if id_after(uri, "/live/"@, path_id_stops()) is Some {
        id_after(uri, "/live/"@, path_id_stops())
    } else {
        bare_id(uri)
    }
}

/// Why no video id could be read from a URI.
#[derive(Debug)]
pub enum IdError {
    /// The URI (given back) holds no video id.
    NoVideoId(String),
}

/// The id after the first `pat` in `u`, up to the first of `stops`.
fn id_after_exec(u: &Vec<char>, pat: &str, stops: &Vec<char>) -> (r: Option<Vec<char>>)
    ensures
        r matches Some(id) ==> id_after(u@, pat@, stops@) == Some(id@),
        r is None ==> id_after(u@, pat@, stops@) is None,
{
    let p = chars_of(pat);
    match find_chars(u, &p) {
        Some(i) => {
            proof {
                lemma_find(u@, p@);
                assert(matches_at(u@, p@, i as int));
            }
            let ulen = u.len();
            proof {
                assert(i + p@.len() <= ulen);
            }
            let rest = subvec(u, i + p.len(), u.len());
            let id = before_any_chars(&rest, stops);
            if id.len() > 0 {
                Some(id)
            } else {
                None
            }
        },
        None => None,
    }
}

/// Each character takes one to four bytes of UTF-8.
proof fn lemma_encode_utf8_len(t: Seq<char>)
    ensures
        t.len() <= encode_utf8(t).len() <= 4 * t.len(),
    decreases t.len(),
{
    if t.len() > 0 {
        lemma_encode_utf8_len(t.drop_first());
    }
}

/// Whether the UTF-8 encoding of `t` is `n` bytes long (`str::len`).
fn utf8_len_is(t: &Vec<char>, n: usize) -> (r: bool)
    requires
        n <= 11,
    ensures
        r == (encode_utf8(t@).len() == n),
{
    proof {
        lemma_encode_utf8_len(t@);
    }
    if t.len() > n {
        return false;
    }
    let s = string_of(t);
    s.as_str().len() == n
}

/// Whether every character of `t` may stand in a bare video id.
fn all_id_chars(t: &Vec<char>) -> (r: bool)
    ensures
        r == forall|i: int| 0 <= i < t@.len() ==> is_id_char(#[trigger] t@[i]),
{
    let mut i: usize = 0;
    while i < t.len()
        invariant
            i <= t@.len(),
            forall|k: int| 0 <= k < i ==> is_id_char(#[trigger] t@[k]),
        decreases t@.len() - i,
    {
        let c = t[i];
        if !(char_is_alphanumeric(c) || c == '-' || c == '_') {
            assert(!is_id_char(t@[i as int]));
            return false;
        }
        i = i + 1;
    }
    true
}

/// Extract the YouTube video id from any common URI form: `watch?v=ID`,
/// `youtu.be/ID`, `/shorts/ID`, `/embed/ID`, `/live/ID`, or a bare id.
pub fn extract_id(uri: &str) -> (r: Result<String, IdError>)
    ensures
        r matches Ok(id) ==> extract_id_spec(uri@) == Some(id@),
        r matches Err(IdError::NoVideoId(u)) ==> extract_id_spec(uri@) is None && u@ == uri@,
{
    let u = chars_of(uri);
    let amp: Vec<char> = vec!['&'];
    let path_stops: Vec<char> = vec!['?', '&', '/'];
    assert(amp@ =~= seq!['&']);
    assert(path_stops@ =~= path_id_stops());
    if let Some(id) = id_after_exec(&u, "v=", &amp) {
        return Ok(string_of(&id));
    }
    if let Some(id) = id_after_exec(&u, "youtu.be/", &path_stops) {
        return Ok(string_of(&id));
    }
    if let Some(id) = id_after_exec(&u, "/shorts/", &path_stops) {
        return Ok(string_of(&id));
    }
    if let Some(id) = id_after_exec(&u, "/embed/", &path_stops) {
        return Ok(string_of(&id));
    }
    if let Some(id) = id_after_exec(&u, "/live/", &path_stops) {
        return Ok(string_of(&id));
    }
    let t = trim_chars(&u);
    if utf8_len_is(&t, 11) && all_id_chars(&t) {
        return Ok(string_of(&t));
    }
    Err(IdError::NoVideoId(uri.to_owned()))
}

// ---------------------------------------------------------------------------
// Song metadata
// ---------------------------------------------------------------------------

/// Whether `text` is one JSON document (what `serde_json::from_slice` into a
/// `serde_json::Value` accepts).
pub uninterp spec fn json_document_parses(text: Seq<u8>) -> bool;

/// The string that the top-level JSON object in `text` holds under `key`, if
/// `text` parses, is an object, and that member is a JSON string.
pub uninterp spec fn json_string_member(text: Seq<u8>, key: Seq<char>) -> Option<Seq<char>>;

/// `serde_json::from_slice::<serde_json::Value>(bytes).is_ok()`: whether the
/// bytes are a JSON document. The result is given the name
/// `json_document_parses`; JSON's grammar is not restated here.
#[verifier::external_body]
fn json_parses(bytes: &[u8]) -> (ok: bool)
    ensures
        ok == json_document_parses(bytes@),
{
    serde_json::from_slice::<serde_json::Value>(bytes).is_ok()
}

/// `serde_json::from_slice::<serde_json::Value>` followed by `Value::get(key)`
/// and a match on the `Value::String` variant (what `Value::as_str` does): the
/// string member `key` of the JSON object in `bytes`. The result is given the
/// name `json_string_member`; a member can only be found in a document that
/// parses.
#[verifier::external_body]
fn json_string_field(bytes: &[u8], key: &str) -> (r: Option<String>)
    ensures
        r matches Some(v) ==> json_string_member(bytes@, key@) == Some(v@) && json_document_parses(
            bytes@,
        ),
        r is None ==> json_string_member(bytes@, key@) is None,
{
    match serde_json::from_slice::<serde_json::Value>(bytes) {
        Ok(v) => match v.get(key) {
            Some(serde_json::Value::String(s)) => Some(s.clone()),
            _ => None,
        },
        Err(_) => None,
    }
}

/// The view of an optional string.
pub open spec fn opt_view(o: Option<String>) -> Option<Seq<char>> {
    match o {
        Some(s) => Some(s@),
        None => None,
    }
}

/// `o` when it holds a non-empty string.
pub open spec fn non_empty(o: Option<Seq<char>>) -> Option<Seq<char>> {
    match o {
        Some(s) => if s.len() > 0 {
            Some(s)
        } else {
            None
        },
        None => None,
    }
}

/// `a`, or `b` when `a` is `None`.
pub open spec fn or_else(a: Option<Seq<char>>, b: Option<Seq<char>>) -> Option<Seq<char>> {
    if a is Some {
        a
    } else {
        b
    }
}

/// The string in `o`, or the empty string.
pub open spec fn or_empty(o: Option<Seq<char>>) -> Seq<char> {
    match o {
        Some(s) => s,
        None => Seq::empty(),
    }
}

/// The song title: the track field when it is not empty, else the video title.
pub open spec fn song_title(track: Option<Seq<char>>, title: Option<Seq<char>>) -> Seq<char> {
    or_empty(or_else(non_empty(track), title))
}

/// The song author: the artist field when it is not empty, else the
/// uploader, else the channel.
pub open spec fn song_uploader(
    artist: Option<Seq<char>>,
    uploader: Option<Seq<char>>,
    channel: Option<Seq<char>>,
) -> Seq<char> {
    or_empty(or_else(or_else(non_empty(artist), uploader), channel))
}

/// The string members of `yt-dlp --dump-json` that the metadata is built from.
pub struct MetadataFields {
    pub title: Option<String>,
    pub uploader: Option<String>,
    pub channel: Option<String>,
    pub track: Option<String>,
    pub artist: Option<String>,
    pub id: Option<String>,
}

/// Metadata pulled from yt-dlp's JSON that is useful for scaffolding a map.
/// (The video's duration, a floating-point number, is read by the program
/// around the library.)
pub struct YoutubeInfo {
    /// Best-effort song title.
    pub title: String,
    /// Best-effort artist/uploader.
    pub uploader: String,
    /// Track title if the uploader/upload provides one.
    pub track: Option<String>,
    /// Track artist if provided.
    pub artist: Option<String>,
    /// Video id (used to derive a stable folder name when the title is empty).
    pub id: String,
}

/// Why the metadata could not be read.
#[derive(Debug)]
pub enum MetadataError {
    /// yt-dlp returned non-JSON metadata.
    NotJson,
}

/// The optional string `o`, or the empty string.
fn string_or_empty(o: Option<String>) -> (s: String)
    ensures
        s@ == or_empty(opt_view(o)),
{
    match o {
        Some(s) => s,
        None => String::new(),
    }
}

/// `o` when it holds a non-empty string.
fn keep_non_empty(o: Option<String>) -> (r: Option<String>)
    ensures
        opt_view(r) == non_empty(opt_view(o)),
{
    match o {
        Some(s) => if s.as_str().is_empty() {
            None
        } else {
            Some(s)
        },
        None => None,
    }
}

/// A copy of an optional string.
pub(crate) fn clone_opt(o: &Option<String>) -> (r: Option<String>)
    ensures
        opt_view(r) == opt_view(*o),
{
    match o {
        Some(s) => Some(s.clone()),
        None => None,
    }
}

/// `a`, or `b` when `a` is `None`.
pub(crate) fn or_else_exec(a: Option<String>, b: Option<String>) -> (r: Option<String>)
    ensures
        opt_view(r) == or_else(opt_view(a), opt_view(b)),
{
    match a {
        Some(s) => Some(s),
        None => b,
    }
}

impl YoutubeInfo {
    /// The metadata of a song from the string members of its JSON dump:
    /// explicit track fields are preferred, with the title and the
    /// uploader/channel as fallbacks.
    pub fn from_metadata(f: MetadataFields) -> (info: YoutubeInfo)
        ensures
            info.title@ == song_title(opt_view(f.track), opt_view(f.title)),
            info.uploader@ == song_uploader(
                opt_view(f.artist),
                opt_view(f.uploader),
                opt_view(f.channel),
            ),
            info.id@ == or_empty(opt_view(f.id)),
            opt_view(info.track) == non_empty(opt_view(f.track)),
            opt_view(info.artist) == non_empty(opt_view(f.artist)),
    {
        let track = keep_non_empty(f.track);
        let artist = keep_non_empty(f.artist);
        let title = string_or_empty(or_else_exec(clone_opt(&track), f.title));
        let uploader = string_or_empty(
            or_else_exec(or_else_exec(clone_opt(&artist), f.uploader), f.channel),
        );
        let id = string_or_empty(f.id);
        YoutubeInfo { title, uploader, track, artist, id }
    }
}

/// The song metadata in the output of `yt-dlp --dump-json`: an error when
/// the output is not JSON, else the metadata built from its string members.
pub fn info_from_dump_json(json: &[u8]) -> (r: Result<YoutubeInfo, MetadataError>)
    ensures
        r is Ok <==> json_document_parses(json@),
        r matches Ok(info) ==> {
            &&& info.title@ == song_title(
                json_string_member(json@, "track"@),
                json_string_member(json@, "title"@),
            )
            &&& info.uploader@ == song_uploader(
                json_string_member(json@, "artist"@),
                json_string_member(json@, "uploader"@),
                json_string_member(json@, "channel"@),
            )
            &&& info.id@ == or_empty(json_string_member(json@, "id"@))
            &&& opt_view(info.track) == non_empty(json_string_member(json@, "track"@))
            &&& opt_view(info.artist) == non_empty(json_string_member(json@, "artist"@))
        },
{
    if !json_parses(json) {
        return Err(MetadataError::NotJson);
    }
    let fields = MetadataFields {
        title: json_string_field(json, "title"),
        uploader: json_string_field(json, "uploader"),
        channel: json_string_field(json, "channel"),
        track: json_string_field(json, "track"),
        artist: json_string_field(json, "artist"),
        id: json_string_field(json, "id"),
    };
    Ok(YoutubeInfo::from_metadata(fields))
}

// ---------------------------------------------------------------------------
// Executables on the search path
// ---------------------------------------------------------------------------

/// Where executables are looked for: the directories of the `PATH`
/// environment variable, in order, and the platform's executable suffix
/// (`".exe"` on Windows, empty elsewhere).
pub struct SearchPath {
    pub dirs: Vec<String>,
    pub exe_suffix: String,
}

/// A plain relative file name: not empty, not `.` or `..`, and without a
/// path separator (`/` or `\`) or a drive colon, so that joining it to a
/// directory can only append it.
pub open spec fn plain_file_name(name: Seq<char>) -> bool {
    &&& name.len() > 0
    &&& name != seq!['.']
    &&& name != seq!['.', '.']
    &&& !name.contains('/')
    &&& !name.contains('\\')
    &&& !name.contains(':')
}

/// `s` ends with `t`.
pub open spec fn ends_with(s: Seq<char>, t: Seq<char>) -> bool {
    t.len() <= s.len() && s.subrange(s.len() - t.len(), s.len() as int) == t
}

/// `p` is `name` adjoined to `dir`: directly, or after one path separator
/// (`/` or `\`).
pub open spec fn adjoined(dir: Seq<char>, name: Seq<char>, p: Seq<char>) -> bool {
    ||| p == dir + name
    ||| p == dir + seq!['/'] + name
    ||| p == dir + seq!['\\'] + name
}

/// `Path::join` followed by `to_string_lossy`: the path of `file_name` inside
/// `dir`. Its documentation: the file name is adjoined to the directory,
/// with the platform's separator where one is needed (an absolute name, or
/// on Windows one with a root or a prefix, would replace the directory
/// instead, and a verbatim `\\?\` directory is normalized). So a plain
/// relative file name joined to a directory without `?` gives the directory,
/// perhaps a separator, and the name. Whether a separator is put in, and
/// which, depends on the platform and on how `dir` ends, and is not stated.
#[verifier::external_body]
fn join_path(dir: &str, file_name: &str) -> (p: String)
    ensures
        plain_file_name(file_name@) && !dir@.contains('?') ==> adjoined(dir@, file_name@, p@),
        plain_file_name(file_name@) ==> ends_with(p@, file_name@),
{
    std::path::Path::new(dir).join(file_name).to_string_lossy().into_owned()
}

/// `Path::is_file`: whether a regular file exists at `path`. The answer comes
/// from the file system, so nothing is stated of it.
#[verifier::external_body]
fn is_file(path: String) -> (b: bool) {
    std::path::Path::new(&path).is_file()
}

/// Asks the file system about `path`; the answer is recorded as one that
/// `is_file` gave for that path.
fn ask_is_file(path: String) -> (b: bool)
    ensures
        call_ensures(is_file, (path,), b),
{
    let probe = is_file;
    probe(path)
}

/// Where executable `name` is looked for in directory `dir`: a path that
/// ends with the name and, when `dir` holds no `?`, is `dir` with the name
/// adjoined (for a plain file name; of another name nothing is fixed).
pub open spec fn probe_path(dir: Seq<char>, name: Seq<char>, p: Seq<char>) -> bool {
    plain_file_name(name) ==> ends_with(p, name) && (!dir.contains('?') ==> adjoined(dir, name, p))
}

/// The file system was asked whether executable `name` is a regular file in
/// directory `dir`, and answered `b`: `is_file` gave `b` for the path at
/// which `name` is looked for in `dir`.
pub closed spec fn answered(dir: Seq<char>, name: Seq<char>, b: bool) -> bool {
    exists|p: String| #[trigger] call_ensures(is_file, (p,), b) && probe_path(dir, name, p@)
}

/// Every one of the first `n` search directories answered that it does not
/// hold executable `name`.
pub open spec fn none_before(dirs: Seq<String>, name: Seq<char>, n: int) -> bool {
    forall|j: int| 0 <= j < n ==> #[trigger] answered(dirs[j]@, name, false)
}

/// Some search directory answered that it holds executable `name`.
pub open spec fn some_dir_holds(dirs: Seq<String>, name: Seq<char>) -> bool {
    exists|i: int| 0 <= i < dirs.len() && #[trigger] answered(dirs[i]@, name, true)
}

/// The file name of executable `bin`: its name followed by the platform's
/// executable suffix.
pub open spec fn exe_file_name(bin: Seq<char>, suffix: Seq<char>) -> Seq<char> {
    bin + suffix
}

/// The file name of executable `bin` on this platform.
fn exe_file_name_exec(bin: &str, suffix: &str) -> (name: String)
    ensures
        name@ == exe_file_name(bin@, suffix@),
{
    let mut v = chars_of(bin);
    let sv = chars_of(suffix);
    push_all(&mut v, &sv);
    string_of(&v)
}

/// The path at which executable `bin` would be found in each search
/// directory, in the order of the directories.
fn candidate_paths(bin: &str, search: &SearchPath) -> (c: Vec<String>)
    ensures
        c@.len() == search.dirs@.len(),
        plain_file_name(exe_file_name(bin@, search.exe_suffix@)) ==> forall|i: int|
            0 <= i < c@.len() ==> ends_with(
                (#[trigger] c@[i])@,
                exe_file_name(bin@, search.exe_suffix@),
            ),
        plain_file_name(exe_file_name(bin@, search.exe_suffix@)) ==> forall|i: int|
            0 <= i < c@.len() && !search.dirs@[i]@.contains('?') ==> adjoined(
                search.dirs@[i]@,
                exe_file_name(bin@, search.exe_suffix@),
                (#[trigger] c@[i])@,
            ),
{
    let name = exe_file_name_exec(bin, search.exe_suffix.as_str());
    let mut c: Vec<String> = Vec::new();
    let mut i: usize = 0;
    while i < search.dirs.len()
        invariant
            i <= search.dirs@.len(),
            c@.len() == i,
            name@ == exe_file_name(bin@, search.exe_suffix@),
            plain_file_name(name@) ==> forall|j: int|
                0 <= j < i ==> ends_with((#[trigger] c@[j])@, name@),
            plain_file_name(name@) ==> forall|j: int|
                0 <= j < i && !search.dirs@[j]@.contains('?') ==> adjoined(
                    search.dirs@[j]@,
                    name@,
                    (#[trigger] c@[j])@,
                ),
        decreases search.dirs@.len() - i,
    {
        c.push(join_path(search.dirs[i].as_str(), name.as_str()));
        i = i + 1;
    }
    c
}

/// The index of the first `true` answer, if any.
pub fn first_hit(hits: &Vec<bool>) -> (r: Option<usize>)
    ensures
        r matches Some(i) ==> i < hits@.len() && hits@[i as int] && forall|j: int|
            0 <= j < i ==> !hits@[j],
        r is None ==> !hits@.contains(true),
{
    let mut i: usize = 0;
    while i < hits.len()
        invariant
            i <= hits@.len(),
            forall|j: int| 0 <= j < i ==> !hits@[j],
        decreases hits@.len() - i,
    {
        if hits[i] {
            return Some(i);
        }
        i = i + 1;
    }
    proof {
        if hits@.contains(true) {
            let k = choose|k: int| 0 <= k < hits@.len() && hits@[k] == true;
            assert(!hits@[k]);
        }
    }
    None
}

/// Cheap `which`: asks the file system about each search directory in turn,
/// stopping at the first that holds `bin` as a regular file, and returns the
/// index of that directory, if any.
fn which(bin: &str, search: &SearchPath) -> (r: Option<usize>)
    ensures
        r matches Some(i) ==> i < search.dirs@.len() && answered(
            search.dirs@[i as int]@,
            exe_file_name(bin@, search.exe_suffix@),
            true,
        ) && none_before(search.dirs@, exe_file_name(bin@, search.exe_suffix@), i as int),
        r is None ==> none_before(
            search.dirs@,
            exe_file_name(bin@, search.exe_suffix@),
            search.dirs@.len() as int,
        ),
{
    let ghost name = exe_file_name(bin@, search.exe_suffix@);
    let candidates = candidate_paths(bin, search);
    let mut hits: Vec<bool> = Vec::new();
    let mut i: usize = 0;
    while i < candidates.len()
        invariant_except_break
            i <= candidates@.len(),
            hits@.len() == i,
        invariant
            candidates@.len() == search.dirs@.len(),
            hits@.len() <= candidates@.len(),
            forall|j: int|
                0 <= j < hits@.len() ==> answered(search.dirs@[j]@, name, #[trigger] hits@[j]),
            forall|j: int|
                0 <= j < candidates@.len() ==> probe_path(
                    search.dirs@[j]@,
                    name,
                    (#[trigger] candidates@[j])@,
                ),
        ensures
            hits@.len() == candidates@.len() || (hits@.len() > 0 && hits@.last()),
        decreases candidates@.len() - i,
    {
        let path = candidates[i].clone();
        let found = ask_is_file(path);
        assert(probe_path(search.dirs@[i as int]@, name, path@));
        assert(answered(search.dirs@[i as int]@, name, found));
        hits.push(found);
        if found {
            break;
        }
        i = i + 1;
    }
    let r = first_hit(&hits);
    proof {
        match r {
            Some(k) => {
                assert(answered(search.dirs@[k as int]@, name, hits@[k as int]));
                assert forall|j: int| 0 <= j < k implies #[trigger] answered(
                    search.dirs@[j]@,
                    name,
                    false,
                ) by {
                    assert(answered(search.dirs@[j]@, name, hits@[j]));
                }
            },
            None => {
                if hits@.len() != candidates@.len() {
                    assert(hits@.contains(true)) by {
                        assert(hits@[hits@.len() - 1]);
                    }
                }
                assert forall|j: int| 0 <= j < search.dirs@.len() implies #[trigger] answered(
                    search.dirs@[j]@,
                    name,
                    false,
                ) by {
                    assert(answered(search.dirs@[j]@, name, hits@[j]));
                    if hits@[j] {
                        assert(hits@.contains(true));
                    }
                }
            },
        }
    }
    r
}

/// Whether a given executable is on the search path: whether some search
/// directory holds it as a regular file, by the file system's answers. It is
/// found only when some directory answered yes, and not found only when
/// every directory answered no; with no directory to search, it never is.
pub fn has(bin: &str, search: &SearchPath) -> (found: bool)
    ensures
        found ==> search.dirs@.len() > 0,
        found ==> some_dir_holds(search.dirs@, exe_file_name(bin@, search.exe_suffix@)),
        !found ==> none_before(
            search.dirs@,
            exe_file_name(bin@, search.exe_suffix@),
            search.dirs@.len() as int,
        ),
{
    let r = which(bin, search);
    proof {
        if let Some(i) = r {
            assert(answered(search.dirs@[i as int]@, exe_file_name(bin@, search.exe_suffix@), true));
        }
    }
    r.is_some()
}

/// An external tool that the program needs and did not find.
#[derive(Debug)]
pub enum ToolError {
    /// `yt-dlp` is not on the search path.
    YtDlpMissing,
    /// `ffmpeg` is not on the search path.
    FfmpegMissing,
    /// `ffprobe` is not on the search path.
    FfprobeMissing,
}

/// The outcome of looking for a tool: success when it was found, else the
/// error that names it.
pub fn tool_available(found: bool, missing: ToolError) -> (r: Result<(), ToolError>)
    ensures
        found ==> r is Ok,
        !found ==> r == Err::<(), ToolError>(missing),
{
    if found {
        Ok(())
    } else {
        Err(missing)
    }
}

/// Succeeds when `yt-dlp` is on the search path.
pub fn require_yt_dlp(search: &SearchPath) -> (r: Result<(), ToolError>)
    ensures
        r is Err ==> r == Err::<(), ToolError>(ToolError::YtDlpMissing),
        search.dirs@.len() == 0 ==> r is Err,
        r is Ok ==> some_dir_holds(search.dirs@, exe_file_name("yt-dlp"@, search.exe_suffix@)),
        r is Err ==> none_before(
            search.dirs@,
            exe_file_name("yt-dlp"@, search.exe_suffix@),
            search.dirs@.len() as int,
        ),
{
    tool_available(has("yt-dlp", search), ToolError::YtDlpMissing)
}

// ---------------------------------------------------------------------------
// Thumbnail files
// ---------------------------------------------------------------------------

/// A file found next to the requested cover path: whether it is that path
/// itself, and its file name when that is valid Unicode.
pub struct DirEntryName {
    pub is_target: bool,
    pub name: Option<String>,
}

/// Which file holds the downloaded thumbnail.
#[derive(Debug, PartialEq, Eq)]
pub enum ThumbnailSource {
    /// The `<stem>.jpg` that yt-dlp's conversion writes.
    Converted,
    /// The directory entry at this index.
    Found(usize),
}

/// The entry is not the target and its name starts with `prefix`.
pub open spec fn entry_matches(e: DirEntryName, prefix: Seq<char>) -> bool {
    !e.is_target && match e.name {
        Some(n) => matches_at(n@, prefix, 0),
        None => false,
    }
}

/// No entry before index `n` matches `prefix`.
pub open spec fn no_match_before(entries: Seq<DirEntryName>, prefix: Seq<char>, n: int) -> bool {
    forall|j: int| 0 <= j < n ==> !entry_matches(#[trigger] entries[j], prefix)
}

/// The entry at index `i` is the first to match `prefix`.
pub open spec fn first_match(entries: Seq<DirEntryName>, prefix: Seq<char>, i: int) -> bool {
    0 <= i < entries.len() && entry_matches(entries[i], prefix) && no_match_before(entries, prefix, i)
}

/// The thumbnail to use: the converted `<stem>.jpg` when it exists, else the
/// first other entry named `<stem>.<something>`, else none.
pub open spec fn thumbnail_choice(
    converted_exists: bool,
    entries: Seq<DirEntryName>,
    stem: Seq<char>,
    r: Option<ThumbnailSource>,
) -> bool {
    let prefix = stem + seq!['.'];
    if converted_exists {
        r == Some(ThumbnailSource::Converted)
    } else {
        match r {
            Some(ThumbnailSource::Found(i)) => first_match(entries, prefix, i as int),
            Some(ThumbnailSource::Converted) => false,
            None => no_match_before(entries, prefix, entries.len() as int),
        }
    }
}

/// Picks the file that yt-dlp wrote the thumbnail to.
pub fn choose_thumbnail(converted_exists: bool, entries: &Vec<DirEntryName>, stem: &str) -> (r: Option<
    ThumbnailSource,
>)
    ensures
        thumbnail_choice(converted_exists, entries@, stem@, r),
{
    if converted_exists {
        return Some(ThumbnailSource::Converted);
    }
    let mut prefix = chars_of(stem);
    prefix.push('.');
    let mut i: usize = 0;
    while i < entries.len()
        invariant
            i <= entries@.len(),
            !converted_exists,
            prefix@ == stem@ + seq!['.'],
            forall|j: int| 0 <= j < i ==> !entry_matches(#[trigger] entries@[j], prefix@),
        decreases entries@.len() - i,
    {
        let e = &entries[i];
        if !e.is_target {
            if let Some(n) = &e.name {
                let nc = chars_of(n.as_str());
                if matches_at_exec(&nc, &prefix, 0) {
                    assert(entries@[i as int].name == Some(*n));
                    assert(entry_matches(entries@[i as int], stem@ + seq!['.']));
                    return Some(ThumbnailSource::Found(i));
                }
            }
        }
        i = i + 1;
    }
    None
}

// ---------------------------------------------------------------------------
// Laws
// ---------------------------------------------------------------------------

/// An id that `extract_id` finds is never empty.
pub proof fn law_extracted_id_not_empty(uri: Seq<char>)
    ensures
        extract_id_spec(uri) matches Some(id) ==> id.len() > 0,
{
    let t = trim(uri);
    if extract_id_spec(uri) == bare_id(uri) && bare_id(uri) is Some {
        if t.len() == 0 {
            assert(encode_utf8(t) =~= Seq::<u8>::empty());
        }
    }
}

/// A character of a plain ASCII video id: a letter, a digit, `-` or `_`.
pub open spec fn is_ascii_id_char(c: char) -> bool {
    is_ascii_alnum(c) || c == '-' || c == '_'
}

proof fn lemma_no_match_without(s: Seq<char>, p: Seq<char>, c: char, k: int)
    requires
        0 <= k < p.len(),
        p[k] == c,
        !s.contains(c),
    ensures
        find(s, p) is None,
{
    lemma_find(s, p);
    if let Some(i) = find(s, p) {
        assert(s.subrange(i, i + p.len())[k] == s[i + k]);
    }
}

/// A bare video id of eleven ASCII letters, digits, `-` and `_` is its own id.
pub proof fn law_bare_id_is_kept(id: Seq<char>)
    requires
        id.len() == 11,
        forall|i: int| 0 <= i < id.len() ==> is_ascii_id_char(#[trigger] id[i]),
    ensures
        extract_id_spec(id) == Some(id),
{
    reveal_strlit("v=");
    reveal_strlit("youtu.be/");
    reveal_strlit("/shorts/");
    reveal_strlit("/embed/");
    reveal_strlit("/live/");
    assert(!id.contains('=')) by {
        if id.contains('=') {
            let k = choose|k: int| 0 <= k < id.len() && id[k] == '=';
            assert(is_ascii_id_char(id[k]));
        }
    }
    assert(!id.contains('/')) by {
        if id.contains('/') {
            let k = choose|k: int| 0 <= k < id.len() && id[k] == '/';
            assert(is_ascii_id_char(id[k]));
        }
    }
    lemma_no_match_without(id, "v="@, '=', 1);
    lemma_no_match_without(id, "youtu.be/"@, '/', 8);
    lemma_no_match_without(id, "/shorts/"@, '/', 0);
    lemma_no_match_without(id, "/embed/"@, '/', 0);
    lemma_no_match_without(id, "/live/"@, '/', 0);
    assert(is_ascii_id_char(id[0]) && is_ascii_id_char(id[10]));
    lemma_trim_fixed(id);
    assert forall|i: int| 0 <= i < id.len() implies is_id_char(#[trigger] id[i]) by {
        assert(is_ascii_id_char(id[i]));
    }
    assert(vstd::utf8::is_ascii_chars(id)) by {
        assert forall|i: int| 0 <= i < id.len() implies '\0' <= #[trigger] id[i] <= '\u{7f}' by {
            assert(is_ascii_id_char(id[i]));
        }
    }
    vstd::utf8::is_ascii_chars_encode_utf8(id);
}

/// An id never holds `&`, which ends a query parameter; and when the URI has
/// no `v=` parameter, the id found holds none of `?`, `&` and `/`, which end
/// an id found after `youtu.be/`, `/shorts/`, `/embed/` or `/live/`.
pub proof fn law_id_stops_at_separators(uri: Seq<char>)
    ensures
        extract_id_spec(uri) matches Some(id) ==> !id.contains('&'),
        !contains(uri, "v="@) ==> (extract_id_spec(uri) matches Some(id) ==> !id.contains('?')
            && !id.contains('&') && !id.contains('/')),
{
    if let Some(id) = extract_id_spec(uri) {
        if id_after(uri, "v="@, seq!['&']) is Some {
            assert(seq!['&'][0] == '&');
            lemma_id_after_avoids(uri, "v="@, seq!['&'], '&');
        } else if id_after(uri, "youtu.be/"@, path_id_stops()) is Some {
            lemma_path_id_avoids(uri, "youtu.be/"@);
        } else if id_after(uri, "/shorts/"@, path_id_stops()) is Some {
            lemma_path_id_avoids(uri, "/shorts/"@);
        } else if id_after(uri, "/embed/"@, path_id_stops()) is Some {
            lemma_path_id_avoids(uri, "/embed/"@);
        } else if id_after(uri, "/live/"@, path_id_stops()) is Some {
            lemma_path_id_avoids(uri, "/live/"@);
        } else {
            let t = trim(uri);
            assert(id == t);
            assert forall|c: char| c == '?' || c == '&' || c == '/' implies !id.contains(c) by {
                if id.contains(c) {
                    let k = choose|k: int| 0 <= k < id.len() && id[k] == c;
                    assert(is_id_char(id[k]));
                }
            }
        }
        if !contains(uri, "v="@) {
            assert(id_after(uri, "v="@, seq!['&']) is None);
        }
    }
}

/// An id found after `pat`, up to the first of `stops`, holds no `c` of
/// `stops`.
proof fn lemma_id_after_avoids(uri: Seq<char>, pat: Seq<char>, stops: Seq<char>, c: char)
    requires
        stops.contains(c),
    ensures
        id_after(uri, pat, stops) matches Some(id) ==> !id.contains(c),
{
    if let Some(i) = find(uri, pat) {
        let rest = uri.subrange(i + pat.len(), uri.len() as int);
        lemma_find(uri, pat);
        lemma_index_of_any(rest, stops);
        let id = before_any(rest, stops);
        if id.contains(c) {
            let k = choose|k: int| 0 <= k < id.len() && id[k] == c;
            assert(id[k] == rest[k]);
        }
    }
}

/// An id found after a path separator holds none of `?`, `&` and `/`.
proof fn lemma_path_id_avoids(uri: Seq<char>, pat: Seq<char>)
    ensures
        id_after(uri, pat, path_id_stops()) matches Some(id) ==> !id.contains('?') && !id.contains(
            '&',
        ) && !id.contains('/'),
{
    assert(path_id_stops()[0] == '?' && path_id_stops()[1] == '&' && path_id_stops()[2] == '/');
    lemma_id_after_avoids(uri, pat, path_id_stops(), '?');
    lemma_id_after_avoids(uri, pat, path_id_stops(), '&');
    lemma_id_after_avoids(uri, pat, path_id_stops(), '/');
}

} // verus!
