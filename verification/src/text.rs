//! Character-level text handling shared by the parsers of the library.
//!
//! Text is processed as a vector of `char`s, whose view is the same
//! `Seq<char>` that vstd gives a `str` or a `String`.

use vstd::prelude::*;

verus! {

// ---------------------------------------------------------------------------
// Character classes
// ---------------------------------------------------------------------------

/// The code points with the Unicode `White_Space` property.
pub open spec fn is_white_space(c: char) -> bool {
    let u = c as int;
    ||| (0x09 <= u && u <= 0x0d)
    ||| u == 0x20
    ||| u == 0x85
    ||| u == 0xa0
    ||| u == 0x1680
    ||| (0x2000 <= u && u <= 0x200a)
    ||| u == 0x2028
    ||| u == 0x2029
    ||| u == 0x202f
    ||| u == 0x205f
    ||| u == 0x3000
}

/// ASCII letters and digits.
pub open spec fn is_ascii_alnum(c: char) -> bool {
    let u = c as int;
    ||| (0x30 <= u && u <= 0x39)
    ||| (0x41 <= u && u <= 0x5a)
    ||| (0x61 <= u && u <= 0x7a)
}

/// Whether a non-ASCII code point that is not white space is alphabetic or
/// numeric in the Unicode tables that `char::is_alphanumeric` consults.
pub uninterp spec fn non_ascii_alphanumeric(c: char) -> bool;

/// `char::is_alphanumeric` as a predicate: exact on ASCII; beyond it, never
/// true of white space, and named otherwise.
pub open spec fn is_alphanumeric(c: char) -> bool {
    if (c as int) < 0x80 {
        is_ascii_alnum(c)
    } else {
        !is_white_space(c) && non_ascii_alphanumeric(c)
    }
}

/// `char::is_whitespace`: its documentation defines it as the Unicode
/// `White_Space` property, whose code points `is_white_space` lists.
pub(crate) fn char_is_whitespace(c: char) -> (b: bool)
    ensures
        b == is_white_space(c),
{
    let u = c as u32;
    (0x09 <= u && u <= 0x0d) || u == 0x20 || u == 0x85 || u == 0xa0 || u == 0x1680 || (0x2000 <= u
        && u <= 0x200a) || u == 0x2028 || u == 0x2029 || u == 0x202f || u == 0x205f || u == 0x3000
}

/// `char::is_alphanumeric`: its documentation makes it the Unicode
/// `Alphabetic` property or the numeric categories (`Nd`, `Nl`, `No`). On
/// ASCII that is exactly the letters and digits, which is stated. The
/// `White_Space` code points are all separators or controls (categories
/// `Zs`, `Zl`, `Zp`, `Cc`), none of them alphabetic or numeric, which is
/// stated too; on the other code points the result is given the name
/// `non_ascii_alphanumeric` (it comes from the Unicode tables).
#[verifier::external_body]
pub(crate) fn char_is_alphanumeric(c: char) -> (b: bool)
    ensures
        (c as int) < 0x80 ==> (b == is_ascii_alnum(c)),
        (c as int) >= 0x80 ==> (b == (!is_white_space(c) && non_ascii_alphanumeric(c))),
{
    c.is_alphanumeric()
}

// ---------------------------------------------------------------------------
// Conversions between strings and character vectors
// ---------------------------------------------------------------------------

/// The characters of `s`, in order.
pub fn chars_of(s: &str) -> (v: Vec<char>)
    ensures
        v@ == s@,
{
    broadcast use vstd::string::group_string_axioms;
    let mut v: Vec<char> = Vec::new();
    for c in it: s.chars()
        invariant
            v@ == it.seq().take(it.index()),
            it.seq() == s@,
    {
        v.push(c);
    }
    v
}

/// A `String` holding exactly the given characters (collected by `FromIterator`).
#[verifier::external_body]
pub(crate) fn string_of(v: &Vec<char>) -> (s: String)
    ensures
        s@ == v@,
{
    v.iter().collect()
}

/// The characters `s[a..b]` as a new vector.
pub fn subvec(s: &Vec<char>, a: usize, b: usize) -> (t: Vec<char>)
    requires
        a <= b <= s@.len(),
    ensures
        t@ == s@.subrange(a as int, b as int),
{
    let mut t: Vec<char> = Vec::new();
    let mut i: usize = a;
    while i < b
        invariant
            a <= i <= b <= s@.len(),
            t@ == s@.subrange(a as int, i as int),
        decreases b - i,
    {
        t.push(s[i]);
        i = i + 1;
        assert(t@ =~= s@.subrange(a as int, i as int));
    }
    t
}

/// Appends the characters of `src` to `dst`.
pub fn push_all(dst: &mut Vec<char>, src: &Vec<char>)
    ensures
        final(dst)@ == old(dst)@ + src@,
{
    let mut i: usize = 0;
    while i < src.len()
        invariant
            i <= src@.len(),
            dst@ == old(dst)@ + src@.subrange(0, i as int),
        decreases src@.len() - i,
    {
        dst.push(src[i]);
        i = i + 1;
        assert(dst@ =~= old(dst)@ + src@.subrange(0, i as int));
    }
    assert(src@.subrange(0, src@.len() as int) =~= src@);
}

/// Whether two character vectors hold the same characters.
pub fn chars_eq(a: &Vec<char>, b: &Vec<char>) -> (r: bool)
    ensures
        r == (a@ == b@),
{
    if a.len() != b.len() {
        return false;
    }
    let mut i: usize = 0;
    while i < a.len()
        invariant
            a@.len() == b@.len(),
            i <= a@.len(),
            forall|j: int| 0 <= j < i ==> a@[j] == b@[j],
        decreases a@.len() - i,
    {
        if a[i] != b[i] {
            return false;
        }
        i = i + 1;
    }
    assert(a@ =~= b@);
    true
}

// ---------------------------------------------------------------------------
// Trimming (`str::trim`)
// ---------------------------------------------------------------------------

/// `s` without its leading white space.
pub open spec fn trim_start(s: Seq<char>) -> Seq<char>
    decreases s.len(),
{
    if s.len() > 0 && is_white_space(s[0]) {
        trim_start(s.drop_first())
    } else {
        s
    }
}

/// `s` without its trailing white space.
pub open spec fn trim_end(s: Seq<char>) -> Seq<char>
    decreases s.len(),
{
    if s.len() > 0 && is_white_space(s.last()) {
        trim_end(s.drop_last())
    } else {
        s
    }
}

/// `s` without leading and trailing white space, as `str::trim` gives it.
pub open spec fn trim(s: Seq<char>) -> Seq<char> {
    trim_end(trim_start(s))
}

/// A sequence whose ends are not white space is its own trim.
pub proof fn lemma_trim_fixed(s: Seq<char>)
    requires
        s.len() > 0 ==> !is_white_space(s[0]) && !is_white_space(s.last()),
    ensures
        trim(s) == s,
{
}

/// Trims `s` (`str::trim`).
pub fn trim_chars(s: &Vec<char>) -> (t: Vec<char>)
    ensures
        t@ == trim(s@),
{
    let n = s.len();
    let mut a: usize = 0;
    assert(s@.subrange(0, n as int) =~= s@);
    loop
        invariant
            n == s@.len(),
            a <= n,
            trim_start(s@) == trim_start(s@.subrange(a as int, n as int)),
        ensures
            a <= n,
            trim_start(s@) == s@.subrange(a as int, n as int),
        decreases n - a,
    {
        if a == n {
            assert(s@.subrange(a as int, n as int).len() == 0);
            break;
        }
        if !char_is_whitespace(s[a]) {
            break;
        }
        assert(s@.subrange(a as int, n as int).drop_first() =~= s@.subrange(a + 1, n as int));
        a = a + 1;
    }
    let mut b: usize = n;
    loop
        invariant
            n == s@.len(),
            a <= b <= n,
            trim_start(s@) == s@.subrange(a as int, n as int),
            trim_end(s@.subrange(a as int, n as int)) == trim_end(s@.subrange(a as int, b as int)),
        ensures
            a <= b <= n,
            trim(s@) == s@.subrange(a as int, b as int),
        decreases b - a,
    {
        if b == a {
            assert(s@.subrange(a as int, b as int).len() == 0);
            break;
        }
        if !char_is_whitespace(s[b - 1]) {
            break;
        }
        assert(s@.subrange(a as int, b as int).drop_last() =~= s@.subrange(a as int, b - 1));
        b = b - 1;
    }
    subvec(s, a, b)
}

// ---------------------------------------------------------------------------
// Searching
// ---------------------------------------------------------------------------

/// `p` occurs in `s` at index `i`.
pub open spec fn matches_at(s: Seq<char>, p: Seq<char>, i: int) -> bool {
    0 <= i && i + p.len() <= s.len() && s.subrange(i, i + p.len()) == p
}

/// The first index at or after `i` where `p` occurs in `s`.
pub open spec fn find_from(s: Seq<char>, p: Seq<char>, i: int) -> Option<int>
    decreases s.len() + 1 - i,
{
    if i < 0 || i + p.len() > s.len() {
        None
    } else if matches_at(s, p, i) {
        Some(i)
    } else {
        find_from(s, p, i + 1)
    }
}

/// The first index where `p` occurs in `s` (`str::find` with a string pattern).
pub open spec fn find(s: Seq<char>, p: Seq<char>) -> Option<int> {
    find_from(s, p, 0)
}

/// `s` contains `p` (`str::contains` with a string pattern).
pub open spec fn contains(s: Seq<char>, p: Seq<char>) -> bool {
    find(s, p) is Some
}

/// What `find_from` returns is the first occurrence at or after `i`.
pub proof fn lemma_find_from(s: Seq<char>, p: Seq<char>, i: int)
    requires
        0 <= i,
    ensures
        find_from(s, p, i) matches Some(j) ==> i <= j && matches_at(s, p, j) && forall|k: int|
            i <= k < j ==> !matches_at(s, p, k),
        find_from(s, p, i) is None ==> forall|k: int| i <= k ==> !matches_at(s, p, k),
    decreases s.len() + 1 - i,
{
    if i + p.len() > s.len() {
    } else if matches_at(s, p, i) {
    } else {
        lemma_find_from(s, p, i + 1);
    }
}

/// What `find` returns is the first occurrence of `p` in `s`.
pub proof fn lemma_find(s: Seq<char>, p: Seq<char>)
    ensures
        find(s, p) matches Some(j) ==> 0 <= j && matches_at(s, p, j) && forall|k: int|
            0 <= k < j ==> !matches_at(s, p, k),
        find(s, p) is None ==> forall|k: int| !matches_at(s, p, k),
{
    lemma_find_from(s, p, 0);
}

/// Whether `p` occurs in `s` at index `i`.
pub fn matches_at_exec(s: &Vec<char>, p: &Vec<char>, i: usize) -> (r: bool)
    ensures
        r == matches_at(s@, p@, i as int),
{
    if i > s.len() || p.len() > s.len() - i {
        return false;
    }
    let mut j: usize = 0;
    while j < p.len()
        invariant
            i + p@.len() <= s@.len(),
            j <= p@.len(),
            forall|k: int| 0 <= k < j ==> s@[i + k] == p@[k],
        decreases p@.len() - j,
    {
        assert(i + j < s.len());
        if s[i + j] != p[j] {
            assert(s@.subrange(i as int, i + p@.len())[j as int] != p@[j as int]);
            return false;
        }
        j = j + 1;
    }
    assert(s@.subrange(i as int, i + p@.len()) =~= p@);
    true
}

/// The first index where `p` occurs in `s`.
pub fn find_chars(s: &Vec<char>, p: &Vec<char>) -> (r: Option<usize>)
    ensures
        r matches Some(i) ==> find(s@, p@) == Some(i as int),
        r is None ==> find(s@, p@) is None,
{
    let mut i: usize = 0;
    loop
        invariant
            i <= s@.len(),
            find(s@, p@) == find_from(s@, p@, i as int),
        decreases s@.len() - i,
    {
        if p.len() > s.len() - i {
            return None;
        }
        if i == s.len() {
            assert(s@.subrange(i as int, i as int) =~= p@);
            return Some(i);
        }
        if matches_at_exec(s, p, i) {
            return Some(i);
        }
        i = i + 1;
    }
}

/// The index of the first character of `s` that is one of `stops`, or the
/// length of `s` when there is none.
pub open spec fn index_of_any(s: Seq<char>, stops: Seq<char>) -> int
    decreases s.len(),
{
    if s.len() == 0 {
        0
    } else if stops.contains(s[0]) {
        0
    } else {
        1 + index_of_any(s.drop_first(), stops)
    }
}

/// The part of `s` before its first character that is one of `stops`
/// (what `str::split(stops).next()` yields).
pub open spec fn before_any(s: Seq<char>, stops: Seq<char>) -> Seq<char> {
    s.subrange(0, index_of_any(s, stops))
}

/// `index_of_any` is an index into `s` (or its length), and no earlier
/// character is one of `stops`.
pub proof fn lemma_index_of_any(s: Seq<char>, stops: Seq<char>)
    ensures
        0 <= index_of_any(s, stops) <= s.len(),
        index_of_any(s, stops) < s.len() ==> stops.contains(s[index_of_any(s, stops)]),
        forall|k: int| 0 <= k < index_of_any(s, stops) ==> !stops.contains(#[trigger] s[k]),
    decreases s.len(),
{
    if s.len() > 0 && !stops.contains(s[0]) {
        lemma_index_of_any(s.drop_first(), stops);
        assert forall|k: int| 0 <= k < index_of_any(s, stops) implies !stops.contains(
            #[trigger] s[k],
        ) by {
            if k > 0 {
                assert(s[k] == s.drop_first()[k - 1]);
            }
        }
    }
}

/// Whether `c` is one of `cs`.
pub fn char_in(c: char, cs: &Vec<char>) -> (r: bool)
    ensures
        r == cs@.contains(c),
{
    let mut i: usize = 0;
    while i < cs.len()
        invariant
            i <= cs@.len(),
            forall|k: int| 0 <= k < i ==> cs@[k] != c,
        decreases cs@.len() - i,
    {
        if cs[i] == c {
            return true;
        }
        i = i + 1;
    }
    false
}

/// The part of `s` before its first character that is one of `stops`.
pub fn before_any_chars(s: &Vec<char>, stops: &Vec<char>) -> (t: Vec<char>)
    ensures
        t@ == before_any(s@, stops@),
{
    let mut i: usize = 0;
    assert(s@.subrange(0, s@.len() as int) =~= s@);
    loop
        invariant
            i <= s@.len(),
            index_of_any(s@, stops@) == i + index_of_any(s@.subrange(i as int, s@.len() as int), stops@),
        ensures
            i <= s@.len(),
            index_of_any(s@, stops@) == i,
        decreases s@.len() - i,
    {
        if i == s.len() {
            assert(s@.subrange(i as int, s@.len() as int).len() == 0);
            break;
        }
        if char_in(s[i], stops) {
            assert(s@.subrange(i as int, s@.len() as int)[0] == s@[i as int]);
            break;
        }
        assert(s@.subrange(i as int, s@.len() as int).drop_first() =~= s@.subrange(i + 1, s@.len() as int));
        i = i + 1;
    }
    subvec(s, 0, i)
}

// ---------------------------------------------------------------------------
// Lines (`str::lines`)
// ---------------------------------------------------------------------------

/// A line ended by `"\r\n"` loses its `'\r'`.
pub open spec fn strip_cr(l: Seq<char>) -> Seq<char> {
    if l.len() > 0 && l.last() == '\r' {
        l.drop_last()
    } else {
        l
    }
}

/// The lines of `s[start..]`, scanning from `cur`, where `s[start..cur]` holds
/// no line feed.
pub open spec fn lines_from(s: Seq<char>, start: int, cur: int) -> Seq<Seq<char>>
    decreases s.len() - cur,
{
    if cur < 0 || cur >= s.len() {
        if 0 <= start < s.len() {
            seq![s.subrange(start, s.len() as int)]
        } else {
            seq![]
        }
    } else if s[cur] == '\n' {
        seq![strip_cr(s.subrange(start, cur))] + lines_from(s, cur + 1, cur + 1)
    } else {
        lines_from(s, start, cur + 1)
    }
}

/// The lines of `s` as `str::lines` yields them: split at each `'\n'`, a
/// `'\r'` right before a `'\n'` dropped, and no empty line after a final
/// line feed.
pub open spec fn split_lines(s: Seq<char>) -> Seq<Seq<char>> {
    lines_from(s, 0, 0)
}

/// Splits `s` into lines.
pub fn split_lines_chars(s: &Vec<char>) -> (ls: Vec<Vec<char>>)
    ensures
        ls@.len() == split_lines(s@).len(),
        forall|i: int| 0 <= i < ls@.len() ==> (#[trigger] ls@[i])@ == split_lines(s@)[i],
{
    let ghost whole = split_lines(s@);
    let mut ls: Vec<Vec<char>> = Vec::new();
    let mut start: usize = 0;
    let mut cur: usize = 0;
    while cur < s.len()
        invariant
            start <= cur <= s@.len(),
            whole == split_lines(s@),
            whole == Seq::new(ls@.len(), |i: int| ls@[i]@) + lines_from(s@, start as int, cur as int),
        decreases s@.len() - cur,
    {
        if s[cur] == '\n' {
            let mut line = subvec(s, start, cur);
            if line.len() > 0 && line[line.len() - 1] == '\r' {
                line.pop();
            }
            assert(line@ == strip_cr(s@.subrange(start as int, cur as int)));
            let ghost before = Seq::new(ls@.len(), |i: int| ls@[i]@);
            ls.push(line);
            assert(Seq::new(ls@.len(), |i: int| ls@[i]@) =~= before.push(
                strip_cr(s@.subrange(start as int, cur as int)),
            ));
            cur = cur + 1;
            start = cur;
            assert(whole =~= Seq::new(ls@.len(), |i: int| ls@[i]@) + lines_from(
                s@,
                start as int,
                cur as int,
            ));
        } else {
            cur = cur + 1;
        }
    }
    if start < s.len() {
        let line = subvec(s, start, s.len());
        let ghost before = Seq::new(ls@.len(), |i: int| ls@[i]@);
        ls.push(line);
        assert(Seq::new(ls@.len(), |i: int| ls@[i]@) =~= before.push(
            s@.subrange(start as int, s@.len() as int),
        ));
    }
    assert(whole =~= Seq::new(ls@.len(), |i: int| ls@[i]@));
    ls
}

// ---------------------------------------------------------------------------
// Decimal integers (`str::parse` for integer types)
// ---------------------------------------------------------------------------

/// An ASCII decimal digit.
pub open spec fn is_digit(c: char) -> bool {
    '0' <= c && c <= '9'
}

/// The value of the decimal digits `d`.
pub open spec fn digits_value(d: Seq<char>) -> int
    decreases d.len(),
{
    if d.len() == 0 {
        0
    } else {
        digits_value(d.drop_last()) * 10 + (d.last() as int - '0' as int)
    }
}

/// The value of one or more decimal digits, or `None`.
pub open spec fn digits(d: Seq<char>) -> Option<int> {
    if d.len() > 0 && forall|i: int| 0 <= i < d.len() ==> is_digit(#[trigger] d[i]) {
        Some(digits_value(d))
    } else {
        None
    }
}

/// The integer written in `s`: an optional `+` (or `-`, for signed types)
/// followed by one or more ASCII digits, and nothing else.
pub open spec fn decimal_value(s: Seq<char>, signed: bool) -> Option<int> {
    if s.len() > 0 && s[0] == '+' {
        digits(s.drop_first())
    } else if s.len() > 0 && s[0] == '-' && signed {
        match digits(s.drop_first()) {
            Some(v) => Some(-v),
            None => None,
        }
    } else {
        digits(s)
    }
}

/// What `str::parse::<i64>` gives: the value when it is written as above and
/// fits in an `i64`.
pub open spec fn parse_i64_spec(s: Seq<char>) -> Option<i64> {
    match decimal_value(s, true) {
        Some(v) => if i64::MIN <= v <= i64::MAX {
            Some(v as i64)
        } else {
            None
        },
        None => None,
    }
}

/// What `str::parse::<u32>` gives: the value when it is written as above
/// (without a `-`) and fits in a `u32`.
pub open spec fn parse_u32_spec(s: Seq<char>) -> Option<u32> {
    match decimal_value(s, false) {
        Some(v) => if 0 <= v <= u32::MAX {
            Some(v as u32)
        } else {
            None
        },
        None => None,
    }
}

/// Decimal digits have a value of at least zero, and a longer run of digits
/// is worth at least as much as its prefix.
proof fn lemma_digits_grow(d: Seq<char>, k: int)
    requires
        0 <= k <= d.len(),
        forall|i: int| 0 <= i < d.len() ==> is_digit(#[trigger] d[i]),
    ensures
        0 <= digits_value(d.subrange(0, k)) <= digits_value(d),
    decreases d.len(),
{
    if d.len() > 0 {
        let init = d.drop_last();
        assert forall|i: int| 0 <= i < init.len() implies is_digit(#[trigger] init[i]) by {
            assert(init[i] == d[i]);
        }
        assert(is_digit(d[d.len() - 1]));
        if k == d.len() {
            assert(d.subrange(0, k) =~= d);
            lemma_digits_grow(init, init.len() as int);
            assert(init.subrange(0, init.len() as int) =~= init);
        } else {
            lemma_digits_grow(init, k);
            assert(init.subrange(0, k) =~= d.subrange(0, k));
            lemma_digits_grow(init, init.len() as int);
            assert(init.subrange(0, init.len() as int) =~= init);
        }
    } else {
        assert(d.subrange(0, k) =~= d);
    }
}

/// The value of the digits `d[start..]` when they are one or more ASCII
/// digits worth at most `limit`.
fn digits_up_to(d: &Vec<char>, start: usize, limit: u64) -> (r: Option<u64>)
    requires
        start <= d@.len(),
    ensures
        r matches Some(x) ==> x <= limit && digits(d@.subrange(start as int, d@.len() as int))
            == Some(x as int),
        r is None ==> !(digits(d@.subrange(start as int, d@.len() as int)) matches Some(v) && v
            <= limit),
{
    let n = d.len();
    let ghost t = d@.subrange(start as int, n as int);
    if start == n {
        return None;
    }
    let mut acc: u64 = 0;
    let mut i: usize = start;
    assert(t.subrange(0, 0) =~= Seq::<char>::empty());
    while i < n
        invariant
            n == d@.len(),
            start <= i <= n,
            t == d@.subrange(start as int, n as int),
            acc as int == digits_value(t.subrange(0, i - start)),
            acc <= limit,
            forall|j: int| 0 <= j < i - start ==> is_digit(#[trigger] t[j]),
        decreases n - i,
    {
        let c = d[i];
        assert(t[i - start] == c);
        if !('0' <= c && c <= '9') {
            assert(!is_digit(t[i - start]));
            return None;
        }
        let dg: u64 = (c as u32 - '0' as u32) as u64;
        let ghost next = t.subrange(0, i - start + 1);
        assert(next.drop_last() =~= t.subrange(0, i - start));
        assert(next.last() == c);
        assert(digits_value(next) == acc * 10 + dg);
        let fits = match acc.checked_mul(10) {
            Some(m) => match m.checked_add(dg) {
                Some(v) => if v <= limit {
                    acc = v;
                    true
                } else {
                    false
                },
                None => false,
            },
            None => false,
        };
        if !fits {
            proof {
                if forall|j: int| 0 <= j < t.len() ==> is_digit(#[trigger] t[j]) {
                    lemma_digits_grow(t, i - start + 1);
                }
            }
            return None;
        }
        i = i + 1;
    }
    assert(t.subrange(0, n - start) =~= t);
    Some(acc)
}

/// `str::parse::<i64>` (`FromStr for i64`): an optional `+` or `-` sign
/// followed by ASCII digits only; an empty text, any other character, or a
/// value outside the type's range is an error.
pub(crate) fn parse_i64(s: &str) -> (r: Option<i64>)
    ensures
        r == parse_i64_spec(s@),
{
    let v = chars_of(s);
    let n = v.len();
    if n > 0 && v[0] == '+' {
        assert(s@.drop_first() =~= v@.subrange(1, n as int));
        match digits_up_to(&v, 1, 0x7fff_ffff_ffff_ffff) {
            Some(x) => Some(x as i64),
            None => None,
        }
    } else if n > 0 && v[0] == '-' {
        assert(s@.drop_first() =~= v@.subrange(1, n as int));
        match digits_up_to(&v, 1, 0x8000_0000_0000_0000) {
            Some(x) => if x == 0x8000_0000_0000_0000 {
                Some(i64::MIN)
            } else {
                Some(-(x as i64))
            },
            None => None,
        }
    } else {
        assert(s@ =~= v@.subrange(0, n as int));
        match digits_up_to(&v, 0, 0x7fff_ffff_ffff_ffff) {
            Some(x) => Some(x as i64),
            None => None,
        }
    }
}

/// `str::parse::<u32>` (`FromStr for u32`): an optional `+` sign followed by
/// ASCII digits only; an empty text, any other character (a `-` too), or a
/// value outside the type's range is an error.
pub(crate) fn parse_u32(s: &str) -> (r: Option<u32>)
    ensures
        r == parse_u32_spec(s@),
{
    let v = chars_of(s);
    let n = v.len();
    let d = if n > 0 && v[0] == '+' {
        assert(s@.drop_first() =~= v@.subrange(1, n as int));
        digits_up_to(&v, 1, 0xffff_ffff)
    } else {
        assert(s@ =~= v@.subrange(0, n as int));
        digits_up_to(&v, 0, 0xffff_ffff)
    };
    match d {
        Some(x) => Some(x as u32),
        None => None,
    }
}

// ---------------------------------------------------------------------------
// Decimal rendering (`Display` for unsigned integers)
// ---------------------------------------------------------------------------

/// The ASCII digit of `d` (below ten).
pub open spec fn digit_char(d: int) -> char {
    if d == 0 {
        '0'
    } else if d == 1 {
        '1'
    } else if d == 2 {
        '2'
    } else if d == 3 {
        '3'
    } else if d == 4 {
        '4'
    } else if d == 5 {
        '5'
    } else if d == 6 {
        '6'
    } else if d == 7 {
        '7'
    } else if d == 8 {
        '8'
    } else {
        '9'
    }
}

/// The decimal digits of `n`, without leading zeros.
pub open spec fn decimal(n: nat) -> Seq<char>
    decreases n,
{
    if n < 10 {
        seq![digit_char(n as int)]
    } else {
        decimal(n / 10) + seq![digit_char((n % 10) as int)]
    }
}

fn digit_char_exec(d: u64) -> (c: char)
    requires
        d < 10,
    ensures
        c == digit_char(d as int),
{
    if d == 0 {
        '0'
    } else if d == 1 {
        '1'
    } else if d == 2 {
        '2'
    } else if d == 3 {
        '3'
    } else if d == 4 {
        '4'
    } else if d == 5 {
        '5'
    } else if d == 6 {
        '6'
    } else if d == 7 {
        '7'
    } else if d == 8 {
        '8'
    } else {
        '9'
    }
}

/// The decimal digits of `n`.
pub fn decimal_chars(n: u64) -> (v: Vec<char>)
    ensures
        v@ == decimal(n as nat),
    decreases n,
{
    if n < 10 {
        vec![digit_char_exec(n)]
    } else {
        let mut v = decimal_chars(n / 10);
        v.push(digit_char_exec(n % 10));
        v
    }
}

/// The decimal text of every number reads back as that number: it is one or
/// more ASCII digits, worth exactly `n`, with no leading zero.
pub proof fn law_decimal_reads_back(n: nat)
    ensures
        forall|i: int| 0 <= i < decimal(n).len() ==> is_digit(#[trigger] decimal(n)[i]),
        decimal(n).len() > 0,
        digits_value(decimal(n)) == n,
        digits(decimal(n)) == Some(n as int),
        decimal(n).len() > 1 ==> decimal(n)[0] != '0',
        n >= 10 ==> decimal(n).len() > 1,
    decreases n,
{
    let d = decimal(n);
    if n < 10 {
        assert(d.drop_last() =~= Seq::<char>::empty());
        assert(digits_value(Seq::<char>::empty()) == 0);
        assert(d.last() == digit_char(n as int));
        assert(digit_char(n as int) as int - '0' as int == n);
        assert(digits_value(d) == digits_value(d.drop_last()) * 10 + (d.last() as int - '0' as int));
        assert(is_digit(d[0]));
    } else {
        law_decimal_reads_back(n / 10);
        let h = decimal(n / 10);
        let c = digit_char((n % 10) as int);
        assert(d == h + seq![c]);
        assert(d.drop_last() =~= h);
        assert(d.last() == c);
        assert(c as int - '0' as int == n % 10);
        assert(digits_value(d) == digits_value(h) * 10 + (n % 10));
        assert((n / 10) * 10 + n % 10 == n);
        assert forall|i: int| 0 <= i < d.len() implies is_digit(#[trigger] d[i]) by {
            if i < h.len() {
                assert(d[i] == h[i]);
            }
        }
        assert(d[0] == h[0]);
        if n / 10 < 10 {
            assert(h == seq![digit_char((n / 10) as int)]);
            assert(n / 10 >= 1);
        }
    }
}

} // verus!
