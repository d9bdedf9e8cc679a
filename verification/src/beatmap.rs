//! The file names of a generated map.

use vstd::prelude::*;

use crate::text::{chars_of, push_all, string_of};

verus! {

/// The name of a difficulty's beatmap file: the difficulty followed by
/// `Standard.dat`.
pub open spec fn beatmap_file_name_spec(difficulty: Seq<char>) -> Seq<char> {
    difficulty + "Standard.dat"@
}

/// The name of the beatmap file of a difficulty (e.g. `ExpertPlusStandard.dat`).
pub fn beatmap_file_name(difficulty: &str) -> (r: String)
    ensures
        r@ == beatmap_file_name_spec(difficulty@),
{
    let mut v = chars_of(difficulty);
    let suffix = chars_of("Standard.dat");
    push_all(&mut v, &suffix);
    string_of(&v)
}

/// `text` with each line feed preceded by a carriage return.
pub open spec fn crlf_spec(text: Seq<char>) -> Seq<char>
    decreases text.len(),
{
    if text.len() == 0 {
        Seq::empty()
    } else {
        crlf_spec(text.drop_last()) + if text.last() == '\n' {
            seq!['\r', '\n']
        } else {
            seq![text.last()]
        }
    }
}

/// Converts line endings to CRLF, the convention of the map editor's files.
pub fn crlf_line_endings(text: &str) -> (r: String)
    ensures
        r@ == crlf_spec(text@),
{
    let t = chars_of(text);
    let mut out: Vec<char> = Vec::new();
    let mut i: usize = 0;
    while i < t.len()
        invariant
            i <= t@.len(),
            out@ == crlf_spec(t@.subrange(0, i as int)),
        decreases t@.len() - i,
    {
        if t[i] == '\n' {
            out.push('\r');
            out.push('\n');
        } else {
            out.push(t[i]);
        }
        assert(t@.subrange(0, i + 1).drop_last() =~= t@.subrange(0, i as int));
        i = i + 1;
        assert(out@ =~= crlf_spec(t@.subrange(0, i as int)));
    }
    assert(t@.subrange(0, t@.len() as int) =~= t@);
    string_of(&out)
}

} // verus!
