//! What the configuration file gives back of what was written to it.

use vstd::prelude::*;

use crate::config::{
    config_header, entry_line, escape, escape_char, full_key, read_value, unescape, initial_state, is_header,
    lemma_map_of, lemma_section_names, lemma_seq_lt_irreflexive, lemma_sorted_entries_unique, map_of, name_of, parse_doc_spec, parse_line, parse_lines,
    quote_spec, render_sections, render_spec, section_block, section_body, section_names,
    section_of, sorted_keys, strip_quotes_spec, ConfigDoc, Entry, ParseState,
};
use crate::settings::{dot_count, is_key_char, is_known_key, key_check, known_key_names};
use crate::text::{
    find, is_white_space, lemma_find, lines_from, matches_at, split_lines, strip_cr, trim,
    trim_end, trim_start,
};

verus! {

// ---------------------------------------------------------------------------
// What can be stored
// ---------------------------------------------------------------------------

/// No white space at either end of `s`.
pub open spec fn trimmed(s: Seq<char>) -> bool {
    s.len() > 0 ==> !is_white_space(s[0]) && !is_white_space(s.last())
}

/// A key and value that survive being written to the configuration file and
/// read back: no line feed in either (the file is read line by line); a
/// section before the first `.` that is not empty and has no white space at
/// its ends; a name after it without `=`, without white space at its ends,
/// and not starting with `#`.
pub open spec fn storable(key: Seq<char>, value: Seq<char>) -> bool {
    storable_key(key) && storable_value(value)
}

/// A value that survives the file: no line feed.
pub open spec fn storable_value(value: Seq<char>) -> bool {
    !value.contains('\n')
}

/// A key that survives the file (see `storable`).
pub open spec fn storable_key(key: Seq<char>) -> bool {
    &&& !key.contains('\n')
    &&& (find(key, seq!['.']) is Some ==> section_of(key).len() > 0)
    &&& trimmed(section_of(key))
    &&& trimmed(name_of(key))
    &&& !name_of(key).contains('=')
    &&& (name_of(key).len() > 0 ==> name_of(key)[0] != '#')
}

/// Every key of the map can be stored with its value.
pub open spec fn storable_map(m: Map<Seq<char>, Seq<char>>) -> bool {
    forall|k: Seq<char>| #[trigger] m.dom().contains(k) ==> storable(k, m[k])
}

// ---------------------------------------------------------------------------
// Lines
// ---------------------------------------------------------------------------

/// The lines, each followed by a line feed.
pub open spec fn join_lines(ls: Seq<Seq<char>>) -> Seq<char>
    decreases ls.len(),
{
    if ls.len() == 0 {
        Seq::empty()
    } else {
        ls[0] + seq!['\n'] + join_lines(ls.drop_first())
    }
}

/// A line that `str::lines` gives back unchanged after a line feed.
pub open spec fn plain_line(l: Seq<char>) -> bool {
    !l.contains('\n') && !(l.len() > 0 && l.last() == '\r')
}

proof fn lemma_join_concat(a: Seq<Seq<char>>, b: Seq<Seq<char>>)
    ensures
        join_lines(a + b) == join_lines(a) + join_lines(b),
    decreases a.len(),
{
    if a.len() == 0 {
        assert(a + b =~= b);
    } else {
        assert((a + b).drop_first() =~= a.drop_first() + b);
        lemma_join_concat(a.drop_first(), b);
        assert(join_lines(a + b) =~= join_lines(a) + join_lines(b));
    }
}

proof fn lemma_join_one(l: Seq<char>)
    ensures
        join_lines(seq![l]) == l + seq!['\n'],
{
    assert(seq![l].drop_first() =~= Seq::<Seq<char>>::empty());
    assert(join_lines(Seq::<Seq<char>>::empty()) == Seq::<char>::empty());
    assert(join_lines(seq![l]) == l + seq!['\n'] + join_lines(seq![l].drop_first()));
    assert(join_lines(seq![l]) =~= l + seq!['\n']);
}

proof fn lemma_scan_line(s: Seq<char>, start: int, cur: int, l: Seq<char>)
    requires
        0 <= start <= cur <= start + l.len(),
        start + l.len() < s.len(),
        s.subrange(start, start + l.len()) == l,
        s[start + l.len()] == '\n',
        !l.contains('\n'),
    ensures
        lines_from(s, start, cur) == seq![strip_cr(l)] + lines_from(
            s,
            start + l.len() + 1,
            start + l.len() + 1,
        ),
    decreases start + l.len() - cur,
{
    if cur < start + l.len() {
        assert(s.subrange(start, start + l.len())[cur - start] == s[cur]);
        assert(s[cur] != '\n');
        lemma_scan_line(s, start, cur + 1, l);
    }
}

proof fn lemma_lines_of_join(s: Seq<char>, k: int, ls: Seq<Seq<char>>)
    requires
        0 <= k <= s.len(),
        s.subrange(k, s.len() as int) == join_lines(ls),
        forall|i: int| 0 <= i < ls.len() ==> plain_line(#[trigger] ls[i]),
    ensures
        lines_from(s, k, k) == ls,
    decreases ls.len(),
{
    if ls.len() == 0 {
        assert(s.subrange(k, s.len() as int).len() == 0);
    } else {
        let l = ls[0];
        let rest = ls.drop_first();
        assert(plain_line(ls[0]));
        let j = join_lines(ls);
        assert(j == l + seq!['\n'] + join_lines(rest));
        assert(j.len() >= l.len() + 1);
        assert(j.subrange(0, l.len() as int) =~= l);
        assert(s.subrange(k, k + l.len()) =~= s.subrange(k, s.len() as int).subrange(0, l.len() as int));
        assert(j[l.len() as int] == '\n');
        assert(s[k + l.len()] == s.subrange(k, s.len() as int)[l.len() as int]);
        lemma_scan_line(s, k, k, l);
        assert forall|i: int| 0 <= i < rest.len() implies plain_line(#[trigger] rest[i]) by {
            assert(rest[i] == ls[i + 1]);
        }
        assert(s.subrange(k + l.len() + 1, s.len() as int) =~= j.subrange(
            l.len() + 1 as int,
            j.len() as int,
        ));
        assert(j.subrange(l.len() + 1 as int, j.len() as int) =~= join_lines(rest));
        lemma_lines_of_join(s, k + l.len() + 1, rest);
        assert(seq![strip_cr(l)] + rest =~= ls);
    }
}

/// `str::lines` splits text made of plain lines, each ended by a line feed,
/// back into those lines.
pub proof fn lemma_split_join(ls: Seq<Seq<char>>)
    requires
        forall|i: int| 0 <= i < ls.len() ==> plain_line(#[trigger] ls[i]),
    ensures
        split_lines(join_lines(ls)) == ls,
{
    let s = join_lines(ls);
    assert(s.subrange(0, s.len() as int) =~= s);
    lemma_lines_of_join(s, 0, ls);
}

// ---------------------------------------------------------------------------
// The lines of a written file
// ---------------------------------------------------------------------------

/// The entry lines of section `s`.
pub open spec fn body_lines(es: Seq<Entry>, s: Seq<char>) -> Seq<Seq<char>>
    decreases es.len(),
{
    if es.len() == 0 {
        Seq::empty()
    } else {
        body_lines(es.drop_last(), s) + if section_of(es.last().0) == s {
            seq![entry_line(es.last())]
        } else {
            Seq::empty()
        }
    }
}

/// The lines of section `s`: its header, its entries, a blank line.
pub open spec fn block_lines(es: Seq<Entry>, s: Seq<char>) -> Seq<Seq<char>> {
    seq![seq!['['] + s + seq![']']] + body_lines(es, s) + seq![Seq::<char>::empty()]
}

/// The lines of the given sections.
pub open spec fn all_lines(es: Seq<Entry>, secs: Seq<Seq<char>>) -> Seq<Seq<char>>
    decreases secs.len(),
{
    if secs.len() == 0 {
        Seq::empty()
    } else {
        all_lines(es, secs.drop_last()) + block_lines(es, secs.last())
    }
}

proof fn lemma_body_text(es: Seq<Entry>, s: Seq<char>)
    ensures
        section_body(es, s) == join_lines(body_lines(es, s)),
    decreases es.len(),
{
    if es.len() > 0 {
        lemma_body_text(es.drop_last(), s);
        let extra = if section_of(es.last().0) == s {
            seq![entry_line(es.last())]
        } else {
            Seq::<Seq<char>>::empty()
        };
        lemma_join_concat(body_lines(es.drop_last(), s), extra);
        if section_of(es.last().0) == s {
            lemma_join_one(entry_line(es.last()));
        } else {
            assert(join_lines(extra) =~= Seq::<char>::empty());
            assert(section_body(es, s) =~= section_body(es.drop_last(), s));
        }
    }
}

proof fn lemma_block_text(es: Seq<Entry>, s: Seq<char>)
    ensures
        section_block(es, s) == join_lines(block_lines(es, s)),
{
    let h = seq!['['] + s + seq![']'];
    let b = body_lines(es, s);
    let e = seq![Seq::<char>::empty()];
    lemma_body_text(es, s);
    lemma_join_concat(seq![h] + b, e);
    lemma_join_concat(seq![h], b);
    lemma_join_one(h);
    lemma_join_one(Seq::<char>::empty());
    assert(section_block(es, s) =~= join_lines(block_lines(es, s)));
}

proof fn lemma_sections_text(es: Seq<Entry>, secs: Seq<Seq<char>>)
    ensures
        render_sections(es, secs) == join_lines(all_lines(es, secs)),
    decreases secs.len(),
{
    if secs.len() > 0 {
        lemma_sections_text(es, secs.drop_last());
        lemma_block_text(es, secs.last());
        lemma_join_concat(all_lines(es, secs.drop_last()), block_lines(es, secs.last()));
    }
}

/// The lines of the written file.
pub open spec fn file_lines(es: Seq<Entry>) -> Seq<Seq<char>> {
    seq![config_header()] + all_lines(es, section_names(es))
}

proof fn lemma_file_text(es: Seq<Entry>)
    ensures
        render_spec(es) == join_lines(file_lines(es)),
{
    lemma_sections_text(es, section_names(es));
    lemma_join_concat(seq![config_header()], all_lines(es, section_names(es)));
    lemma_join_one(config_header());
    assert(render_spec(es) =~= join_lines(file_lines(es)));
}

// ---------------------------------------------------------------------------
// Facts about the pieces of a line
// ---------------------------------------------------------------------------

proof fn lemma_section_is_prefix(key: Seq<char>)
    ensures
        find(key, seq!['.']) matches Some(i) ==> 0 <= i < key.len() && key[i] == '.'
            && section_of(key) == key.subrange(0, i) && name_of(key) == key.subrange(
            i + 1,
            key.len() as int,
        ),
        find(key, seq!['.']) is None ==> section_of(key).len() == 0 && name_of(key) == key,
{
    lemma_find(key, seq!['.']);
    if let Some(i) = find(key, seq!['.']) {
        assert(key.subrange(i, i + 1)[0] == key[i]);
    }
}

proof fn lemma_key_split(key: Seq<char>)
    requires
        find(key, seq!['.']) is Some ==> section_of(key).len() > 0,
    ensures
        full_key(section_of(key), name_of(key)) == key,
{
    lemma_section_is_prefix(key);
    if let Some(i) = find(key, seq!['.']) {
        assert(key =~= key.subrange(0, i) + seq!['.'] + key.subrange(i + 1, key.len() as int));
    }
}

proof fn lemma_escape_plain(v: Seq<char>)
    requires
        !v.contains('"'),
        !v.contains('\\'),
    ensures
        escape(v) == v,
    decreases v.len(),
{
    if v.len() > 0 {
        let init = v.drop_last();
        assert(!init.contains('"')) by {
            if init.contains('"') {
                let k = choose|k: int| 0 <= k < init.len() && init[k] == '"';
                assert(v[k] == '"');
            }
        }
        assert(!init.contains('\\')) by {
            if init.contains('\\') {
                let k = choose|k: int| 0 <= k < init.len() && init[k] == '\\';
                assert(v[k] == '\\');
            }
        }
        lemma_escape_plain(init);
        assert(v[v.len() - 1] == v.last());
        assert(escape(v) =~= v);
    }
}

proof fn lemma_trim_space_after(n: Seq<char>)
    requires
        n.len() > 0,
        trimmed(n),
    ensures
        trim(n + seq![' ']) == n,
{
    let x = n + seq![' '];
    assert(x[0] == n[0]);
    assert(trim_start(x) == x);
    assert(x.last() == ' ');
    assert(x.drop_last() =~= n);
    assert(trim_end(n) == n);
}

proof fn lemma_trim_space_before(q: Seq<char>)
    requires
        q.len() > 0,
        !is_white_space(q[0]),
        !is_white_space(q.last()),
    ensures
        trim(seq![' '] + q) == q,
{
    let x = seq![' '] + q;
    assert(x.drop_first() =~= q);
    assert(trim_start(q) == q);
    assert(trim_end(q) == q);
}

/// Where a character occurs first in a sequence.
proof fn lemma_first_char(s: Seq<char>, c: char, j: int)
    requires
        0 <= j < s.len(),
        s[j] == c,
        forall|k: int| 0 <= k < j ==> s[k] != c,
    ensures
        find(s, seq![c]) == Some(j),
{
    lemma_find(s, seq![c]);
    assert(s.subrange(j, j + 1) =~= seq![c]);
    assert(matches_at(s, seq![c], j));
    match find(s, seq![c]) {
        Some(i) => {
            if i < j {
                assert(s.subrange(i, i + 1)[0] == s[i]);
            } else if i > j {
                assert(!matches_at(s, seq![c], j));
            }
        },
        None => {},
    }
}

/// A stored entry's line, read in its section, stores the entry.
/// Escaping distributes over concatenation.
proof fn lemma_escape_concat(a: Seq<char>, b: Seq<char>)
    ensures
        escape(a + b) == escape(a) + escape(b),
    decreases b.len(),
{
    if b.len() == 0 {
        assert(a + b =~= a);
        assert(escape(a) + escape(b) =~= escape(a));
    } else {
        lemma_escape_concat(a, b.drop_last());
        assert((a + b).drop_last() =~= a + b.drop_last());
        assert((a + b).last() == b.last());
        assert(escape(a + b) =~= escape(a) + escape(b));
    }
}

/// Undoing the escapes of an escaped text gives the text back.
proof fn lemma_unescape_escape(v: Seq<char>)
    ensures
        unescape(escape(v)) == v,
    decreases v.len(),
{
    if v.len() > 0 {
        let c = v[0];
        let rest = v.drop_first();
        assert(v =~= seq![c] + rest);
        lemma_escape_concat(seq![c], rest);
        assert(seq![c].drop_last() =~= Seq::<char>::empty());
        assert(seq![c].last() == c);
        assert(escape(Seq::<char>::empty()) =~= Seq::<char>::empty());
        assert(escape(seq![c]) =~= escape(Seq::<char>::empty()) + escape_char(c));
        assert(escape(seq![c]) =~= escape_char(c));
        let er = escape(rest);
        let e = escape(v);
        assert(e == escape_char(c) + er);
        lemma_unescape_escape(rest);
        if c == '\\' || c == '"' {
            assert(e.subrange(2, e.len() as int) =~= er);
            assert(e[0] == '\\' && e[1] == c);
        } else {
            assert(e.subrange(1, e.len() as int) =~= er);
            assert(e[0] == c);
        }
        assert(unescape(e) =~= v);
    } else {
        assert(escape(v) =~= Seq::<char>::empty());
    }
}

/// Escaping adds no line feed.
proof fn lemma_escape_no_lf(v: Seq<char>)
    requires
        !v.contains('\n'),
    ensures
        !escape(v).contains('\n'),
    decreases v.len(),
{
    if v.len() > 0 {
        let init = v.drop_last();
        assert(!init.contains('\n')) by {
            if init.contains('\n') {
                let k = choose|k: int| 0 <= k < init.len() && init[k] == '\n';
                assert(v[k] == '\n');
            }
        }
        lemma_escape_no_lf(init);
        assert(v[v.len() - 1] == v.last());
        let e = escape(v);
        let ei = escape(init);
        let ec = escape_char(v.last());
        assert(e == ei + ec);
        if e.contains('\n') {
            let k = choose|k: int| 0 <= k < e.len() && e[k] == '\n';
            if k < ei.len() {
                assert(ei[k] == '\n');
            } else {
                assert(ec[k - ei.len()] == '\n');
            }
        }
    }
}

/// Reading a quoted value gives the value back.
proof fn lemma_read_quoted(v: Seq<char>)
    ensures
        read_value(quote_spec(v)) == v,
{
    let q = quote_spec(v);
    assert(q[0] == '"' && q.last() == '"');
    assert(trim(q) == q);
    assert(q.subrange(1, q.len() - 1) =~= escape(v));
    lemma_unescape_escape(v);
}

proof fn lemma_parse_entry_line(m: Map<Seq<char>, Seq<char>>, e: Entry)
    requires
        storable(e.0, e.1),
    ensures
        parse_line((section_of(e.0), m), entry_line(e)) == (
            section_of(e.0),
            m.insert(e.0, e.1),
        ),
{
    let sec = section_of(e.0);
    let n = name_of(e.0);
    let v = e.1;
    let q = quote_spec(v);
    let line = entry_line(e);
    assert(line =~= n + seq![' ', '=', ' '] + q);
    lemma_key_split(e.0);
    // The quotes and escapes come off again.
    lemma_read_quoted(v);
    assert(q[0] == '"' && q.last() == '"');
    if n.len() > 0 {
        assert(line[0] == n[0]);
        assert(line.last() == '"');
        assert(trim(line) == line);
        let j = n.len() + 1 as int;
        assert forall|k: int| 0 <= k < j implies line[k] != '=' by {
            if k < n.len() {
                assert(line[k] == n[k]);
            }
        }
        lemma_first_char(line, '=', j);
        assert(line.subrange(0, j) =~= n + seq![' ']);
        lemma_trim_space_after(n);
        assert(line.subrange(j + 1, line.len() as int) =~= seq![' '] + q);
        lemma_trim_space_before(q);
        assert(!is_header(line));
        assert(trim(line.subrange(0, j)) == n);
        assert(read_value(trim(line.subrange(j + 1, line.len() as int))) == v);
        assert(full_key(sec, n) == e.0);
    } else {
        let t = seq!['=', ' '] + q;
        assert(line =~= seq![' '] + t);
        assert(line.drop_first() =~= t);
        assert(trim_start(line) == trim_start(t));
        assert(trim_start(t) == t);
        assert(trim(line) == t);
        lemma_first_char(t, '=', 0);
        assert(t.subrange(0, 0) =~= Seq::<char>::empty());
        assert(t.subrange(1, t.len() as int) =~= seq![' '] + q);
        lemma_trim_space_before(q);
        assert(!is_header(t));
        assert(trim(Seq::<char>::empty()) =~= Seq::<char>::empty());
        assert(trim(t.subrange(0, 0)) == n);
        assert(read_value(trim(t.subrange(1, t.len() as int))) == v);
        assert(full_key(sec, n) == e.0);
        assert(t[0] == '=');
    }
}

// ---------------------------------------------------------------------------
// Reading the lines of a written file
// ---------------------------------------------------------------------------

proof fn lemma_parse_concat(st: ParseState, a: Seq<Seq<char>>, b: Seq<Seq<char>>)
    ensures
        parse_lines(st, a + b) == parse_lines(parse_lines(st, a), b),
    decreases b.len(),
{
    if b.len() == 0 {
        assert(a + b =~= a);
    } else {
        assert((a + b).drop_last() =~= a + b.drop_last());
        assert((a + b).last() == b.last());
        lemma_parse_concat(st, a, b.drop_last());
    }
}

proof fn lemma_parse_one(st: ParseState, l: Seq<char>)
    ensures
        parse_lines(st, seq![l]) == parse_line(st, l),
{
    assert(seq![l].drop_last() =~= Seq::<Seq<char>>::empty());
    assert(parse_lines(st, Seq::<Seq<char>>::empty()) == st);
    assert(seq![l].last() == l);
}

/// The map after the entries of section `s` are stored into `m`, in order.
pub open spec fn store_section(es: Seq<Entry>, s: Seq<char>, m: Map<Seq<char>, Seq<char>>) -> Map<
    Seq<char>,
    Seq<char>,
>
    decreases es.len(),
{
    if es.len() == 0 {
        m
    } else {
        let m2 = store_section(es.drop_last(), s, m);
        if section_of(es.last().0) == s {
            m2.insert(es.last().0, es.last().1)
        } else {
            m2
        }
    }
}

/// The map after the entries of the given sections are stored into `m`,
/// section by section.
pub open spec fn store_sections(es: Seq<Entry>, secs: Seq<Seq<char>>, m: Map<Seq<char>, Seq<char>>) -> Map<
    Seq<char>,
    Seq<char>,
>
    decreases secs.len(),
{
    if secs.len() == 0 {
        m
    } else {
        store_section(es, secs.last(), store_sections(es, secs.drop_last(), m))
    }
}

/// Every entry is storable.
pub open spec fn all_storable(es: Seq<Entry>) -> bool {
    forall|i: int| 0 <= i < es.len() ==> storable((#[trigger] es[i]).0, es[i].1)
}

proof fn lemma_parse_body(es: Seq<Entry>, s: Seq<char>, m: Map<Seq<char>, Seq<char>>)
    requires
        all_storable(es),
    ensures
        parse_lines((s, m), body_lines(es, s)) == (s, store_section(es, s, m)),
    decreases es.len(),
{
    if es.len() > 0 {
        let init = es.drop_last();
        assert(all_storable(init)) by {
            assert forall|i: int| 0 <= i < init.len() implies storable(
                (#[trigger] init[i]).0,
                init[i].1,
            ) by {
                assert(init[i] == es[i]);
            }
        }
        lemma_parse_body(init, s, m);
        let last = es.last();
        assert(es[es.len() - 1] == last);
        let extra = if section_of(last.0) == s {
            seq![entry_line(last)]
        } else {
            Seq::<Seq<char>>::empty()
        };
        lemma_parse_concat((s, m), body_lines(init, s), extra);
        if section_of(last.0) == s {
            lemma_parse_one((s, store_section(init, s, m)), entry_line(last));
            lemma_parse_entry_line(store_section(init, s, m), last);
        }
    }
}

proof fn lemma_parse_block(st: ParseState, es: Seq<Entry>, s: Seq<char>)
    requires
        all_storable(es),
        trimmed(s),
    ensures
        parse_lines(st, block_lines(es, s)) == (s, store_section(es, s, st.1)),
{
    let h = seq!['['] + s + seq![']'];
    let b = body_lines(es, s);
    let e = seq![Seq::<char>::empty()];
    assert(block_lines(es, s) == seq![h] + b + e);
    lemma_parse_concat(st, seq![h] + b, e);
    lemma_parse_concat(st, seq![h], b);
    lemma_parse_one(st, h);
    assert(h[0] == '[' && h.last() == ']');
    assert(trim(h) == h);
    assert(h.subrange(1, h.len() - 1) =~= s);
    assert(trim(s) == s);
    assert(parse_line(st, h) == (s, st.1));
    lemma_parse_body(es, s, st.1);
    lemma_parse_one((s, store_section(es, s, st.1)), Seq::<char>::empty());
    assert(trim(Seq::<char>::empty()) =~= Seq::<char>::empty());
}

proof fn lemma_parse_sections(st: ParseState, es: Seq<Entry>, secs: Seq<Seq<char>>)
    requires
        all_storable(es),
        forall|j: int| 0 <= j < secs.len() ==> trimmed(#[trigger] secs[j]),
    ensures
        parse_lines(st, all_lines(es, secs)).1 == store_sections(es, secs, st.1),
    decreases secs.len(),
{
    if secs.len() > 0 {
        let init = secs.drop_last();
        assert forall|j: int| 0 <= j < init.len() implies trimmed(#[trigger] init[j]) by {
            assert(init[j] == secs[j]);
        }
        lemma_parse_sections(st, es, init);
        lemma_parse_concat(st, all_lines(es, init), block_lines(es, secs.last()));
        assert(secs[secs.len() - 1] == secs.last());
        lemma_parse_block(parse_lines(st, all_lines(es, init)), es, secs.last());
    }
}

/// Some entry has key `x`.
pub open spec fn has_key(es: Seq<Entry>, x: Seq<char>) -> bool {
    exists|i: int| 0 <= i < es.len() && (#[trigger] es[i]).0 == x
}

proof fn lemma_store_section(es: Seq<Entry>, s: Seq<char>, m: Map<Seq<char>, Seq<char>>)
    requires
        sorted_keys(es),
    ensures
        forall|x: Seq<char>| #[trigger]
            store_section(es, s, m).dom().contains(x) <==> m.dom().contains(x) || (section_of(x)
                == s && has_key(es, x)),
        forall|i: int|
            0 <= i < es.len() && section_of(es[i].0) == s ==> store_section(es, s, m)[(
            #[trigger] es[i]).0] == es[i].1,
        forall|x: Seq<char>|
            m.dom().contains(x) && !(section_of(x) == s && has_key(es, x)) ==> #[trigger] store_section(
                es,
                s,
                m,
            )[x] == m[x],
    decreases es.len(),
{
    if es.len() > 0 {
        let init = es.drop_last();
        assert(sorted_keys(init));
        lemma_store_section(init, s, m);
        let last = es.last();
        assert(es[es.len() - 1] == last);
        assert forall|x: Seq<char>| has_key(es, x) <==> has_key(init, x) || x == last.0 by {
            if has_key(es, x) {
                let i = choose|i: int| 0 <= i < es.len() && (#[trigger] es[i]).0 == x;
                if i < es.len() - 1 {
                    assert(init[i] == es[i]);
                }
            }
            if has_key(init, x) {
                let i = choose|i: int| 0 <= i < init.len() && (#[trigger] init[i]).0 == x;
                assert(init[i] == es[i]);
            }
        }
        assert forall|i: int|
            0 <= i < es.len() && section_of(es[i].0) == s implies store_section(es, s, m)[(
            #[trigger] es[i]).0] == es[i].1 by {
            if i < es.len() - 1 {
                assert(init[i] == es[i]);
                lemma_seq_lt_irreflexive(es[i].0);
                assert(crate::config::seq_lt(es[i].0, es[es.len() - 1].0));
            }
        }
        let m2 = store_section(init, s, m);
        assert(has_key(es, last.0)) by {
            assert(es[es.len() - 1].0 == last.0);
        }
        assert forall|x: Seq<char>| #[trigger]
            store_section(es, s, m).dom().contains(x) <==> m.dom().contains(x) || (section_of(x)
                == s && has_key(es, x)) by {
            if section_of(last.0) == s {
                assert(store_section(es, s, m) == m2.insert(last.0, last.1));
            } else {
                assert(store_section(es, s, m) == m2);
            }
            assert(m2.dom().contains(x) <==> m.dom().contains(x) || (section_of(x) == s && has_key(
                init,
                x,
            )));
        }
        assert forall|x: Seq<char>|
            m.dom().contains(x) && !(section_of(x) == s && has_key(es, x)) implies #[trigger] store_section(
                es,
                s,
                m,
            )[x] == m[x] by {
            assert(!(section_of(x) == s && has_key(init, x)));
            assert(m2[x] == m[x]);
            if section_of(last.0) == s {
                assert(x != last.0);
                assert(store_section(es, s, m) == m2.insert(last.0, last.1));
            } else {
                assert(store_section(es, s, m) == m2);
            }
        }
    }
}

proof fn lemma_store_sections(es: Seq<Entry>, secs: Seq<Seq<char>>, m: Map<Seq<char>, Seq<char>>)
    requires
        sorted_keys(es),
    ensures
        forall|x: Seq<char>| #[trigger]
            store_sections(es, secs, m).dom().contains(x) <==> m.dom().contains(x) || (
            secs.contains(section_of(x)) && has_key(es, x)),
        forall|i: int|
            0 <= i < es.len() && secs.contains(section_of(es[i].0)) ==> store_sections(
                es,
                secs,
                m,
            )[(#[trigger] es[i]).0] == es[i].1,
    decreases secs.len(),
{
    if secs.len() > 0 {
        let init = secs.drop_last();
        let last = secs.last();
        lemma_store_sections(es, init, m);
        let inner = store_sections(es, init, m);
        lemma_store_section(es, last, inner);
        assert forall|t: Seq<char>| secs.contains(t) <==> init.contains(t) || t == last by {
            if secs.contains(t) {
                let j = choose|j: int| 0 <= j < secs.len() && secs[j] == t;
                if j < secs.len() - 1 {
                    assert(init[j] == secs[j]);
                }
            }
            if init.contains(t) {
                let j = choose|j: int| 0 <= j < init.len() && init[j] == t;
                assert(secs[j] == init[j]);
            }
            if t == last {
                assert(secs[secs.len() - 1] == t);
            }
        }
        assert forall|i: int|
            0 <= i < es.len() && secs.contains(section_of(es[i].0)) implies store_sections(
            es,
            secs,
            m,
        )[(#[trigger] es[i]).0] == es[i].1 by {
            if section_of(es[i].0) != last {
                assert(init.contains(section_of(es[i].0)));
                assert(inner.dom().contains(es[i].0)) by {
                    assert(has_key(es, es[i].0));
                }
                assert(inner[es[i].0] == es[i].1);
            }
        }
    }
}

proof fn lemma_header_skipped(st: ParseState)
    ensures
        parse_line(st, config_header()) == st,
        plain_line(config_header()),
{
    reveal_strlit("# r-ya-mapping global config. Edit with `r-ya-mapping config <key> <value>`.");
    let h = config_header();
    assert(h[0] == '#');
    assert(trim(h) == h);
}

proof fn lemma_plain_concat(a: Seq<Seq<char>>, b: Seq<Seq<char>>)
    requires
        forall|i: int| 0 <= i < a.len() ==> plain_line(#[trigger] a[i]),
        forall|i: int| 0 <= i < b.len() ==> plain_line(#[trigger] b[i]),
    ensures
        forall|i: int| 0 <= i < (a + b).len() ==> plain_line(#[trigger] (a + b)[i]),
{
    assert forall|i: int| 0 <= i < (a + b).len() implies plain_line(#[trigger] (a + b)[i]) by {
        if i < a.len() {
            assert((a + b)[i] == a[i]);
        } else {
            assert((a + b)[i] == b[i - a.len()]);
        }
    }
}

proof fn lemma_subrange_no_lf(s: Seq<char>, a: int, b: int)
    requires
        0 <= a <= b <= s.len(),
        !s.contains('\n'),
    ensures
        !s.subrange(a, b).contains('\n'),
{
    if s.subrange(a, b).contains('\n') {
        let k = choose|k: int| 0 <= k < b - a && s.subrange(a, b)[k] == '\n';
        assert(s[a + k] == '\n');
    }
}

proof fn lemma_parts_no_lf(key: Seq<char>)
    requires
        !key.contains('\n'),
    ensures
        !section_of(key).contains('\n'),
        !name_of(key).contains('\n'),
{
    lemma_section_is_prefix(key);
    if let Some(i) = find(key, seq!['.']) {
        lemma_subrange_no_lf(key, 0, i);
        lemma_subrange_no_lf(key, i + 1, key.len() as int);
    }
}

proof fn lemma_entry_line_plain(e: Entry)
    requires
        storable(e.0, e.1),
    ensures
        plain_line(entry_line(e)),
{
    lemma_escape_no_lf(e.1);
    lemma_parts_no_lf(e.0);
    let n = name_of(e.0);
    let line = entry_line(e);
    let ev = escape(e.1);
    assert(line =~= n + seq![' ', '=', ' ', '"'] + ev + seq!['"']);
    if line.contains('\n') {
        let k = choose|k: int| 0 <= k < line.len() && line[k] == '\n';
        if k < n.len() {
            assert(n[k] == '\n');
        } else if k >= n.len() + 4 && k < n.len() + 4 + ev.len() {
            assert(ev[k - n.len() - 4] == '\n');
        }
    }
}

proof fn lemma_body_plain(es: Seq<Entry>, s: Seq<char>)
    requires
        all_storable(es),
    ensures
        forall|i: int| 0 <= i < body_lines(es, s).len() ==> plain_line(#[trigger] body_lines(es, s)[i]),
    decreases es.len(),
{
    if es.len() > 0 {
        let init = es.drop_last();
        assert(all_storable(init)) by {
            assert forall|i: int| 0 <= i < init.len() implies storable(
                (#[trigger] init[i]).0,
                init[i].1,
            ) by {
                assert(init[i] == es[i]);
            }
        }
        lemma_body_plain(init, s);
        assert(es[es.len() - 1] == es.last());
        lemma_entry_line_plain(es.last());
        let extra = if section_of(es.last().0) == s {
            seq![entry_line(es.last())]
        } else {
            Seq::<Seq<char>>::empty()
        };
        assert forall|i: int| 0 <= i < extra.len() implies plain_line(#[trigger] extra[i]) by {}
        lemma_plain_concat(body_lines(init, s), extra);
    }
}

proof fn lemma_sections_plain(es: Seq<Entry>, secs: Seq<Seq<char>>)
    requires
        all_storable(es),
        forall|j: int| 0 <= j < secs.len() ==> !(#[trigger] secs[j]).contains('\n'),
    ensures
        forall|i: int| 0 <= i < all_lines(es, secs).len() ==> plain_line(
            #[trigger] all_lines(es, secs)[i],
        ),
    decreases secs.len(),
{
    if secs.len() > 0 {
        let init = secs.drop_last();
        let s = secs.last();
        assert forall|j: int| 0 <= j < init.len() implies !(#[trigger] init[j]).contains('\n') by {
            assert(init[j] == secs[j]);
        }
        lemma_sections_plain(es, init);
        assert(secs[secs.len() - 1] == s);
        let h = seq!['['] + s + seq![']'];
        assert(plain_line(h)) by {
            if h.contains('\n') {
                let k = choose|k: int| 0 <= k < h.len() && h[k] == '\n';
                assert(s[k - 1] == '\n');
            }
        }
        lemma_body_plain(es, s);
        let e = seq![Seq::<char>::empty()];
        assert forall|i: int| 0 <= i < seq![h].len() implies plain_line(#[trigger] seq![h][i]) by {}
        assert forall|i: int| 0 <= i < e.len() implies plain_line(#[trigger] e[i]) by {}
        lemma_plain_concat(seq![h], body_lines(es, s));
        lemma_plain_concat(seq![h] + body_lines(es, s), e);
        lemma_plain_concat(all_lines(es, init), block_lines(es, s));
    }
}

/// Text written from sorted, storable entries is read back as the map of
/// those entries.
pub proof fn lemma_read_back(es: Seq<Entry>)
    requires
        sorted_keys(es),
        all_storable(es),
    ensures
        parse_doc_spec(render_spec(es)) == map_of(es),
{
    let names = section_names(es);
    lemma_section_names(es);
    assert forall|j: int| 0 <= j < names.len() implies trimmed(#[trigger] names[j])
        && !names[j].contains('\n') by {
        assert(names.contains(names[j]));
        let i = choose|i: int| 0 <= i < es.len() && section_of((#[trigger] es[i]).0) == names[j];
        assert(storable(es[i].0, es[i].1));
        lemma_parts_no_lf(es[i].0);
    }
    lemma_file_text(es);
    lemma_header_skipped(initial_state());
    lemma_sections_plain(es, names);
    assert forall|i: int| 0 <= i < seq![config_header()].len() implies plain_line(
        #[trigger] seq![config_header()][i],
    ) by {}
    lemma_plain_concat(seq![config_header()], all_lines(es, names));
    lemma_split_join(file_lines(es));
    lemma_parse_concat(initial_state(), seq![config_header()], all_lines(es, names));
    lemma_parse_one(initial_state(), config_header());
    lemma_parse_sections(initial_state(), es, names);
    let got = store_sections(es, names, Map::empty());
    lemma_store_sections(es, names, Map::empty());
    lemma_map_of(es);
    assert forall|x: Seq<char>| #[trigger] got.dom().contains(x) == map_of(es).dom().contains(x) by {
        if has_key(es, x) {
            let i = choose|i: int| 0 <= i < es.len() && (#[trigger] es[i]).0 == x;
            assert(names.contains(section_of(es[i].0)));
        }
    }
    assert forall|x: Seq<char>| #[trigger] got.dom().contains(x) implies got[x] == map_of(es)[x] by {
        let i = choose|i: int| 0 <= i < es.len() && (#[trigger] es[i]).0 == x;
        assert(names.contains(section_of(es[i].0)));
    }
    assert(got =~= map_of(es));
}

// ---------------------------------------------------------------------------
// Laws
// ---------------------------------------------------------------------------

proof fn lemma_doc_storable(doc: ConfigDoc)
    requires
        doc.wf(),
        storable_map(doc.map()),
    ensures
        sorted_keys(doc.entries()),
        all_storable(doc.entries()),
{
    doc.lemma_entries();
    let es = doc.entries();
    lemma_map_of(es);
    assert forall|i: int| 0 <= i < es.len() implies storable((#[trigger] es[i]).0, es[i].1) by {
        assert(doc.map().dom().contains(es[i].0));
    }
}

/// Writing a document to the configuration file and reading the file back
/// gives the same keys and values, when every key and value is storable.
pub proof fn law_file_round_trip(doc: ConfigDoc)
    requires
        doc.wf(),
        storable_map(doc.map()),
    ensures
        parse_doc_spec(render_spec(doc.entries())) == doc.map(),
{
    lemma_doc_storable(doc);
    lemma_read_back(doc.entries());
}

/// Reading a written configuration file and writing it again gives the same
/// text, when every key and value is storable.
pub proof fn law_rewrite_is_stable(doc: ConfigDoc, back: ConfigDoc)
    requires
        doc.wf(),
        storable_map(doc.map()),
        back.wf(),
        back.map() == parse_doc_spec(render_spec(doc.entries())),
    ensures
        render_spec(back.entries()) == render_spec(doc.entries()),
{
    law_file_round_trip(doc);
    doc.lemma_entries();
    back.lemma_entries();
    lemma_sorted_entries_unique(back.entries(), doc.entries());
}

/// After `config <key> <value>` has stored a storable value in a document of
/// storable entries and the file has been written, reading the file gives
/// that value for the key and keeps every other key as it was.
pub proof fn law_set_then_read(
    doc: ConfigDoc,
    key: Seq<char>,
    value: Seq<char>,
    updated: ConfigDoc,
)
    requires
        doc.wf(),
        storable_map(doc.map()),
        storable(key, value),
        updated.wf(),
        updated.map() == doc.map().insert(key, value),
    ensures
        parse_doc_spec(render_spec(updated.entries())).dom().contains(key),
        parse_doc_spec(render_spec(updated.entries()))[key] == value,
        forall|k: Seq<char>|
            k != key ==> (#[trigger] parse_doc_spec(render_spec(updated.entries())).dom().contains(k)
                == doc.map().dom().contains(k)),
        forall|k: Seq<char>|
            k != key && doc.map().dom().contains(k) ==> #[trigger] parse_doc_spec(
                render_spec(updated.entries()),
            )[k] == doc.map()[k],
{
    assert(storable_map(updated.map())) by {
        assert forall|k: Seq<char>| #[trigger] updated.map().dom().contains(k) implies storable(
            k,
            updated.map()[k],
        ) by {
            if k != key {
                assert(doc.map().dom().contains(k));
            }
        }
    }
    law_file_round_trip(updated);
}

/// After `config --unset <key>` has removed a key from a document of
/// storable entries and the file has been written, reading the file gives
/// no value for that key and keeps every other key as it was.
pub proof fn law_unset_then_read(doc: ConfigDoc, key: Seq<char>, updated: ConfigDoc)
    requires
        doc.wf(),
        storable_map(doc.map()),
        updated.wf(),
        updated.map() == doc.map().remove(key),
    ensures
        !parse_doc_spec(render_spec(updated.entries())).dom().contains(key),
        parse_doc_spec(render_spec(updated.entries())) == doc.map().remove(key),
{
    assert(storable_map(updated.map())) by {
        assert forall|k: Seq<char>| #[trigger] updated.map().dom().contains(k) implies storable(
            k,
            updated.map()[k],
        ) by {
            assert(doc.map().dom().contains(k));
        }
    }
    law_file_round_trip(updated);
}

/// Reading a value written with `quote` gives the value back, whatever it
/// holds.
pub proof fn law_read_value_undoes_quote(v: Seq<char>)
    ensures
        read_value(quote_spec(v)) == v,
{
    lemma_read_quoted(v);
}

/// Stripping the quotes off a quoted value gives the value back, when it
/// holds no backslash or double quote (which the quoting escapes).
pub proof fn law_strip_quotes_undoes_quote(v: Seq<char>)
    requires
        !v.contains('"'),
        !v.contains('\\'),
    ensures
        strip_quotes_spec(quote_spec(v)) == v,
{
    lemma_escape_plain(v);
    let q = quote_spec(v);
    assert(q =~= seq!['"'] + v + seq!['"']);
    assert(q[0] == '"' && q.last() == '"');
    assert(trim(q) == q);
    assert(q.subrange(1, q.len() - 1) =~= v);
}

proof fn lemma_dotted_key_storable(k: Seq<char>, j: int)
    requires
        0 < j < k.len() - 1,
        k[j] == '.',
        forall|t: int| 0 <= t < j ==> k[t] != '.',
        !k.contains('\n'),
        !k.contains('='),
        !is_white_space(k[0]),
        !is_white_space(k[j - 1]),
        !is_white_space(k[j + 1]),
        !is_white_space(k.last()),
        k[j + 1] != '#',
    ensures
        storable_key(k),
{
    lemma_first_char(k, '.', j);
    let n = k.subrange(j + 1, k.len() as int);
    assert(!n.contains('=')) by {
        if n.contains('=') {
            let t = choose|t: int| 0 <= t < n.len() && n[t] == '=';
            assert(k[j + 1 + t] == '=');
        }
    }
}

/// Every known mapping key can be stored in the configuration file.
pub proof fn law_known_keys_storable()
    ensures
        forall|i: int| 0 <= i < known_key_names().len() ==> storable_key(#[trigger] known_key_names()[i]),
{
    reveal_strlit("mapper.name");
    reveal_strlit("customwiplevels.path");
    reveal_strlit("map.characteristic");
    reveal_strlit("map.difficulty");
    reveal_strlit("map.difficulty_rank");
    reveal_strlit("map.njs");
    reveal_strlit("map.note_jump_start_beat_offset");
    reveal_strlit("map.environment");
    reveal_strlit("map.song_filename");
    lemma_dotted_key_storable("mapper.name"@, 6);
    lemma_dotted_key_storable("customwiplevels.path"@, 15);
    lemma_dotted_key_storable("map.characteristic"@, 3);
    lemma_dotted_key_storable("map.difficulty"@, 3);
    lemma_dotted_key_storable("map.difficulty_rank"@, 3);
    lemma_dotted_key_storable("map.njs"@, 3);
    lemma_dotted_key_storable("map.note_jump_start_beat_offset"@, 3);
    lemma_dotted_key_storable("map.environment"@, 3);
    lemma_dotted_key_storable("map.song_filename"@, 3);
}

/// A key without `.` holds no `.`.
proof fn lemma_no_dot(k: Seq<char>)
    requires
        dot_count(k) == 0,
    ensures
        forall|i: int| 0 <= i < k.len() ==> k[i] != '.',
    decreases k.len(),
{
    if k.len() > 0 {
        lemma_no_dot(k.drop_last());
        assert forall|i: int| 0 <= i < k.len() implies k[i] != '.' by {
            if i < k.len() - 1 {
                assert(k.drop_last()[i] == k[i]);
            }
        }
    }
}

/// A key with one `.` holds it at a single index.
proof fn lemma_one_dot(k: Seq<char>) -> (j: int)
    requires
        dot_count(k) == 1,
    ensures
        0 <= j < k.len(),
        k[j] == '.',
        forall|i: int| 0 <= i < k.len() && i != j ==> k[i] != '.',
    decreases k.len(),
{
    let d = k.drop_last();
    if k.last() == '.' {
        lemma_no_dot(d);
        assert forall|i: int| 0 <= i < k.len() && i != k.len() - 1 implies k[i] != '.' by {
            assert(d[i] == k[i]);
        }
        k.len() - 1
    } else {
        let j = lemma_one_dot(d);
        assert forall|i: int| 0 <= i < k.len() && i != j implies k[i] != '.' by {
            if i < k.len() - 1 {
                assert(d[i] == k[i]);
            }
        }
        j
    }
}

/// A character that an unknown key may hold is not white space.
proof fn lemma_key_char_not_space(c: char)
    requires
        is_key_char(c),
    ensures
        !is_white_space(c),
        c != '\n',
        c != '=',
        c != '#',
{
}

/// Every key that `config` accepts can be stored in the configuration file.
pub proof fn law_accepted_key_storable(key: Seq<char>)
    requires
        key_check(key) is Some,
    ensures
        storable_key(key),
{
    if is_known_key(key) {
        law_known_keys_storable();
        let i = choose|i: int| 0 <= i < known_key_names().len() && known_key_names()[i] == key;
        assert(storable_key(known_key_names()[i]));
    } else {
        let j = lemma_one_dot(key);
        assert(forall|i: int| 0 <= i < key.len() ==> is_key_char(#[trigger] key[i]));
        assert forall|i: int| 0 <= i < key.len() implies !is_white_space(#[trigger] key[i])
            && key[i] != '\n' && key[i] != '=' && key[i] != '#' by {
            assert(is_key_char(key[i]));
            lemma_key_char_not_space(key[i]);
        }
        assert(j > 0);
        assert forall|t: int| 0 <= t < j implies key[t] != '.' by {}
        lemma_first_char(key, '.', j);
        let sec = key.subrange(0, j);
        let n = key.subrange(j + 1, key.len() as int);
        assert(section_of(key) == sec);
        assert(name_of(key) == n);
        assert(sec[0] == key[0] && sec.last() == key[j - 1]);
        if n.len() > 0 {
            assert(n[0] == key[j + 1] && n.last() == key.last());
        }
        assert(!n.contains('=')) by {
            if n.contains('=') {
                let t = choose|t: int| 0 <= t < n.len() && n[t] == '=';
                assert(key[j + 1 + t] == '=');
            }
        }
        assert(!key.contains('\n')) by {
            if key.contains('\n') {
                let t = choose|t: int| 0 <= t < key.len() && key[t] == '\n';
                assert(key[t] != '\n');
            }
        }
    }
}

} // verus!
