//! Global configuration, accessed like `git config`.
//!
//! The configuration is a flat document of `section.key` -> value pairs,
//! kept in key order. It is stored as a small TOML-like text: one
//! `[section]` header per section, followed by `key = "value"` lines.

use vstd::prelude::*;

use crate::text::{
    char_is_whitespace, chars_eq, chars_of, find, find_chars, is_white_space, lemma_find,
    matches_at, push_all, split_lines, split_lines_chars, string_of, subvec, trim, trim_chars,
};

verus! {

// ---------------------------------------------------------------------------
// Key order
// ---------------------------------------------------------------------------

/// Lexicographic order of character sequences (the order of `String`s).
pub open spec fn seq_lt(a: Seq<char>, b: Seq<char>) -> bool
    decreases a.len(),
{
    if a.len() == 0 {
        b.len() > 0
    } else if b.len() == 0 {
        false
    } else if a[0] != b[0] {
        a[0] < b[0]
    } else {
        seq_lt(a.drop_first(), b.drop_first())
    }
}

/// No sequence precedes itself.
pub proof fn lemma_seq_lt_irreflexive(a: Seq<char>)
    ensures
        !seq_lt(a, a),
    decreases a.len(),
{
    if a.len() > 0 {
        lemma_seq_lt_irreflexive(a.drop_first());
    }
}

/// Of two sequences, at most one precedes the other.
pub proof fn lemma_seq_lt_asymmetric(a: Seq<char>, b: Seq<char>)
    ensures
        seq_lt(a, b) ==> !seq_lt(b, a),
    decreases a.len(),
{
    if a.len() > 0 && b.len() > 0 && a[0] == b[0] {
        lemma_seq_lt_asymmetric(a.drop_first(), b.drop_first());
    }
}

/// The order is transitive.
pub proof fn lemma_seq_lt_transitive(a: Seq<char>, b: Seq<char>, c: Seq<char>)
    requires
        seq_lt(a, b),
        seq_lt(b, c),
    ensures
        seq_lt(a, c),
    decreases a.len(),
{
    if a.len() > 0 && b.len() > 0 && c.len() > 0 && a[0] == b[0] && b[0] == c[0] {
        lemma_seq_lt_transitive(a.drop_first(), b.drop_first(), c.drop_first());
    }
}

/// Of two different sequences, one precedes the other.
pub proof fn lemma_seq_lt_total(a: Seq<char>, b: Seq<char>)
    requires
        a != b,
    ensures
        seq_lt(a, b) || seq_lt(b, a),
    decreases a.len(),
{
    if a.len() == 0 {
        assert(b.len() > 0) by {
            if b.len() == 0 {
                assert(a =~= b);
            }
        }
    } else if b.len() == 0 {
    } else if a[0] != b[0] {
        assert(a[0] < b[0] || b[0] < a[0]);
    } else {
        if a.drop_first() == b.drop_first() {
            assert(a.len() == b.len()) by {
                assert(a.drop_first().len() == b.drop_first().len());
            }
            assert(a =~= b) by {
                assert forall|i: int| 0 <= i < a.len() implies a[i] == b[i] by {
                    if i > 0 {
                        assert(a[i] == a.drop_first()[i - 1]);
                        assert(b[i] == b.drop_first()[i - 1]);
                    }
                }
            }
        }
        lemma_seq_lt_total(a.drop_first(), b.drop_first());
    }
}

/// Whether `a` precedes `b`.
pub fn key_lt(a: &Vec<char>, b: &Vec<char>) -> (r: bool)
    ensures
        r == seq_lt(a@, b@),
{
    let mut i: usize = 0;
    assert(a@.subrange(0, a@.len() as int) =~= a@);
    assert(b@.subrange(0, b@.len() as int) =~= b@);
    loop
        invariant
            i <= a@.len(),
            i <= b@.len(),
            seq_lt(a@, b@) == seq_lt(
                a@.subrange(i as int, a@.len() as int),
                b@.subrange(i as int, b@.len() as int),
            ),
        decreases a@.len() - i,
    {
        let ghost sa = a@.subrange(i as int, a@.len() as int);
        let ghost sb = b@.subrange(i as int, b@.len() as int);
        if i == a.len() {
            return i < b.len();
        }
        if i == b.len() {
            return false;
        }
        assert(sa[0] == a@[i as int] && sb[0] == b@[i as int]);
        if a[i] != b[i] {
            return a[i] < b[i];
        }
        assert(sa.drop_first() =~= a@.subrange(i + 1, a@.len() as int));
        assert(sb.drop_first() =~= b@.subrange(i + 1, b@.len() as int));
        i = i + 1;
    }
}

// ---------------------------------------------------------------------------
// The document
// ---------------------------------------------------------------------------

/// A key and its value.
pub type Entry = (Seq<char>, Seq<char>);

/// The map that a list of entries defines; a later entry for a key wins.
pub open spec fn map_of(es: Seq<Entry>) -> Map<Seq<char>, Seq<char>>
    decreases es.len(),
{
    if es.len() == 0 {
        Map::empty()
    } else {
        map_of(es.drop_last()).insert(es.last().0, es.last().1)
    }
}

/// The keys of the entries are in strictly increasing order.
pub open spec fn sorted_keys(es: Seq<Entry>) -> bool {
    forall|i: int, j: int| 0 <= i < j < es.len() ==> seq_lt(#[trigger] es[i].0, #[trigger] es[j].0)
}

/// Entries with strictly increasing keys define the map that holds each of
/// them and nothing else.
pub proof fn lemma_map_of(es: Seq<Entry>)
    requires
        sorted_keys(es),
    ensures
        forall|k: Seq<char>|
            #[trigger] map_of(es).dom().contains(k) <==> exists|i: int|
                0 <= i < es.len() && (#[trigger] es[i]).0 == k,
        forall|i: int| 0 <= i < es.len() ==> map_of(es)[(#[trigger] es[i]).0] == es[i].1,
    decreases es.len(),
{
    if es.len() > 0 {
        let init = es.drop_last();
        assert(sorted_keys(init));
        lemma_map_of(init);
        assert forall|k: Seq<char>|
            #[trigger] map_of(es).dom().contains(k) <==> exists|i: int|
                0 <= i < es.len() && (#[trigger] es[i]).0 == k by {
            if map_of(es).dom().contains(k) {
                if k == es.last().0 {
                    assert(es[es.len() - 1].0 == k);
                } else {
                    assert(map_of(init).dom().contains(k));
                    let i = choose|i: int| 0 <= i < init.len() && (#[trigger] init[i]).0 == k;
                    assert(es[i] == init[i]);
                }
            }
            if exists|i: int| 0 <= i < es.len() && (#[trigger] es[i]).0 == k {
                let i = choose|i: int| 0 <= i < es.len() && (#[trigger] es[i]).0 == k;
                if i < es.len() - 1 {
                    assert(init[i] == es[i]);
                }
            }
        }
        assert forall|i: int| 0 <= i < es.len() implies map_of(es)[(#[trigger] es[i]).0]
            == es[i].1 by {
            if i < es.len() - 1 {
                assert(init[i] == es[i]);
                lemma_seq_lt_irreflexive(es[i].0);
                assert(seq_lt(es[i].0, es[es.len() - 1].0));
            }
        }
    }
}

/// The flat configuration document: `section.key` -> value, in key order.
pub struct ConfigDoc {
    entries: Vec<(Vec<char>, Vec<char>)>,
}

impl ConfigDoc {
    /// The entries of the document, in order.
    pub closed spec fn entries(&self) -> Seq<Entry> {
        Seq::new(self.entries@.len(), |i: int| (self.entries@[i].0@, self.entries@[i].1@))
    }

    /// The document's keys are in strictly increasing order.
    pub closed spec fn wf(&self) -> bool {
        sorted_keys(self.entries())
    }

    /// The key -> value map that the document holds.
    pub open spec fn map(&self) -> Map<Seq<char>, Seq<char>> {
        map_of(self.entries())
    }

    /// A well-formed document lists its map's entries in key order.
    pub proof fn lemma_entries(&self)
        requires
            self.wf(),
        ensures
            sorted_keys(self.entries()),
            self.map() == map_of(self.entries()),
    {
    }

    /// An empty document.
    pub fn new() -> (d: ConfigDoc)
        ensures
            d.wf(),
            d.map() == Map::<Seq<char>, Seq<char>>::empty(),
            d.entries().len() == 0,
    {
        let d = ConfigDoc { entries: Vec::new() };
        assert(d.entries() =~= Seq::<Entry>::empty());
        d
    }

    /// The number of keys in the document.
    pub fn len(&self) -> (n: usize)
        requires
            self.wf(),
        ensures
            n == self.map().dom().len(),
            n == self.entries().len(),
    {
        proof {
            self.lemma_dom_len();
        }
        self.entries.len()
    }

    /// Whether the document holds no key.
    pub fn is_empty(&self) -> (b: bool)
        requires
            self.wf(),
        ensures
            b == (self.map().dom().len() == 0),
    {
        self.len() == 0
    }

    /// The size of the map is the number of entries.
    proof fn lemma_dom_len(&self)
        requires
            self.wf(),
        ensures
            self.map().dom().len() == self.entries().len(),
            self.map().dom().finite(),
    {
        lemma_map_of_dom_len(self.entries());
    }

    /// The index of the first entry whose key does not precede `k`.
    fn position(&self, k: &Vec<char>) -> (p: usize)
        requires
            self.wf(),
        ensures
            p <= self.entries().len(),
            forall|j: int| 0 <= j < p ==> seq_lt(#[trigger] self.entries()[j].0, k@),
            p < self.entries().len() ==> !seq_lt(self.entries()[p as int].0, k@),
    {
        let mut p: usize = 0;
        while p < self.entries.len()
            invariant
                p <= self.entries().len(),
                self.entries().len() == self.entries@.len(),
                forall|j: int| 0 <= j < p ==> seq_lt(#[trigger] self.entries()[j].0, k@),
            decreases self.entries@.len() - p,
        {
            if !key_lt(&self.entries[p].0, k) {
                return p;
            }
            p = p + 1;
        }
        p
    }

    /// The value stored under `k`, as characters.
    pub fn get_chars(&self, k: &Vec<char>) -> (r: Option<Vec<char>>)
        requires
            self.wf(),
        ensures
            r matches Some(v) ==> self.map().dom().contains(k@) && self.map()[k@] == v@,
            r is None ==> !self.map().dom().contains(k@),
    {
        proof {
            lemma_map_of(self.entries());
        }
        let p = self.position(k);
        if p < self.entries.len() && chars_eq(&self.entries[p].0, k) {
            assert(self.entries()[p as int].0 == k@);
            return Some(self.entries[p].1.clone());
        }
        proof {
            if self.map().dom().contains(k@) {
                let i = choose|i: int|
                    0 <= i < self.entries().len() && (#[trigger] self.entries()[i]).0 == k@;
                lemma_seq_lt_irreflexive(k@);
                if i >= p {
                    if i > p {
                        lemma_seq_lt_total(self.entries()[p as int].0, k@);
                        assert(seq_lt(self.entries()[p as int].0, self.entries()[i].0));
                    }
                }
            }
        }
        None
    }

    /// Stores `v` under `k`, replacing any earlier value.
    pub fn insert_chars(&mut self, k: Vec<char>, v: Vec<char>)
        requires
            old(self).wf(),
        ensures
            final(self).wf(),
            final(self).map() == old(self).map().insert(k@, v@),
    {
        let ghost es = self.entries();
        proof {
            lemma_map_of(es);
        }
        let p = self.position(&k);
        let n = self.entries.len();
        if p < n && chars_eq(&self.entries[p].0, &k) {
            let ghost ek = self.entries@[p as int].0@;
            self.entries.set(p, (k, v));
            let ghost es2 = self.entries();
            assert(es2 =~= es.update(p as int, (k@, v@)));
            assert(sorted_keys(es2)) by {
                assert forall|i: int, j: int| 0 <= i < j < es2.len() implies seq_lt(
                    #[trigger] es2[i].0,
                    #[trigger] es2[j].0,
                ) by {
                    assert(es[i].0 == es2[i].0 || i == p);
                    assert(es[j].0 == es2[j].0 || j == p);
                    assert(es[p as int].0 == k@);
                }
            }
            proof {
                lemma_map_of(es2);
                self.lemma_update_map(es, es2, p as int, k@, v@);
            }
        } else {
            proof {
                if p < n {
                    lemma_seq_lt_total(es[p as int].0, k@);
                }
            }
            self.entries.insert(p, (k, v));
            let ghost es2 = self.entries();
            assert(es2 =~= es.insert(p as int, (k@, v@)));
            assert(sorted_keys(es2)) by {
                assert forall|i: int, j: int| 0 <= i < j < es2.len() implies seq_lt(
                    #[trigger] es2[i].0,
                    #[trigger] es2[j].0,
                ) by {
                    if j < p {
                        assert(es2[i] == es[i] && es2[j] == es[j]);
                    } else if j == p {
                        assert(es2[i] == es[i]);
                    } else if i == p {
                        assert(es2[j] == es[j - 1]);
                        if j - 1 > p {
                            assert(seq_lt(es[p as int].0, es[j - 1].0));
                            lemma_seq_lt_transitive(k@, es[p as int].0, es[j - 1].0);
                        }
                    } else if i < p {
                        assert(es2[i] == es[i] && es2[j] == es[j - 1]);
                    } else {
                        assert(es2[i] == es[i - 1] && es2[j] == es[j - 1]);
                    }
                }
            }
            proof {
                lemma_map_of(es2);
                self.lemma_insert_map(es, es2, p as int, k@, v@);
            }
        }
    }

    /// Replacing the value of an existing key updates the map at that key.
    proof fn lemma_update_map(&self, es: Seq<Entry>, es2: Seq<Entry>, p: int, k: Seq<char>, v: Seq<char>)
        requires
            sorted_keys(es),
            sorted_keys(es2),
            0 <= p < es.len(),
            es[p].0 == k,
            es2 == es.update(p, (k, v)),
        ensures
            map_of(es2) == map_of(es).insert(k, v),
    {
        lemma_map_of(es);
        lemma_map_of(es2);
        assert forall|x: Seq<char>| #[trigger] map_of(es2).dom().contains(x)
            == map_of(es).insert(k, v).dom().contains(x) by {
            if map_of(es2).dom().contains(x) {
                let i = choose|i: int| 0 <= i < es2.len() && (#[trigger] es2[i]).0 == x;
                if i != p {
                    assert(es[i] == es2[i]);
                }
            }
            if map_of(es).dom().contains(x) && x != k {
                let i = choose|i: int| 0 <= i < es.len() && (#[trigger] es[i]).0 == x;
                assert(es2[i] == es[i]);
            }
            if x == k {
                assert(es2[p].0 == k);
            }
        }
        assert forall|x: Seq<char>| #[trigger] map_of(es2).dom().contains(x) implies map_of(es2)[x]
            == map_of(es).insert(k, v)[x] by {
            let i = choose|i: int| 0 <= i < es2.len() && (#[trigger] es2[i]).0 == x;
            if i != p {
                assert(es[i] == es2[i]);
                lemma_seq_lt_irreflexive(x);
                if i < p {
                    assert(seq_lt(es[i].0, es[p].0));
                } else {
                    assert(seq_lt(es[p].0, es[i].0));
                }
                assert(map_of(es)[es[i].0] == es[i].1);
            } else {
                assert(es2[p] == (k, v));
                assert(map_of(es2)[es2[p].0] == es2[p].1);
            }
        }
        assert(map_of(es2) =~= map_of(es).insert(k, v));
    }

    /// Inserting a new key's entry in its place adds that key to the map.
    proof fn lemma_insert_map(&self, es: Seq<Entry>, es2: Seq<Entry>, p: int, k: Seq<char>, v: Seq<char>)
        requires
            sorted_keys(es),
            sorted_keys(es2),
            0 <= p <= es.len(),
            es2 == es.insert(p, (k, v)),
        ensures
            map_of(es2) == map_of(es).insert(k, v),
    {
        lemma_map_of(es);
        lemma_map_of(es2);
        assert forall|x: Seq<char>| #[trigger] map_of(es2).dom().contains(x)
            == map_of(es).insert(k, v).dom().contains(x) by {
            if map_of(es2).dom().contains(x) {
                let i = choose|i: int| 0 <= i < es2.len() && (#[trigger] es2[i]).0 == x;
                if i < p {
                    assert(es[i] == es2[i]);
                } else if i > p {
                    assert(es[i - 1] == es2[i]);
                }
            }
            if map_of(es).dom().contains(x) {
                let i = choose|i: int| 0 <= i < es.len() && (#[trigger] es[i]).0 == x;
                if i < p {
                    assert(es2[i] == es[i]);
                } else {
                    assert(es2[i + 1] == es[i]);
                }
            }
            if x == k {
                assert(es2[p].0 == k);
            }
        }
        assert forall|x: Seq<char>| #[trigger] map_of(es2).dom().contains(x) implies map_of(es2)[x]
            == map_of(es).insert(k, v)[x] by {
            let i = choose|i: int| 0 <= i < es2.len() && (#[trigger] es2[i]).0 == x;
            if i == p {
                assert(es2[p] == (k, v));
                assert(x == k);
                assert(map_of(es2)[es2[p].0] == es2[p].1);
                assert(map_of(es).insert(k, v)[k] == v);
            }
            if i < p {
                assert(es[i] == es2[i]);
                lemma_seq_lt_irreflexive(x);
                assert(x != k) by {
                    assert(seq_lt(es2[i].0, es2[p].0));
                }
                assert(map_of(es2)[x] == es2[i].1);
                assert(map_of(es)[es[i].0] == es[i].1);
            } else if i > p {
                assert(es[i - 1] == es2[i]);
                lemma_seq_lt_irreflexive(x);
                assert(x != k) by {
                    assert(seq_lt(es2[p].0, es2[i].0));
                }
                assert(map_of(es2)[x] == es2[i].1);
                assert(map_of(es)[es[i - 1].0] == es[i - 1].1);
            }
        }
        assert(map_of(es2) =~= map_of(es).insert(k, v));
    }

    /// Removes `k` and returns the value it held.
    pub fn remove_chars(&mut self, k: &Vec<char>) -> (r: Option<Vec<char>>)
        requires
            old(self).wf(),
        ensures
            final(self).wf(),
            final(self).map() == old(self).map().remove(k@),
            r matches Some(v) ==> old(self).map().dom().contains(k@) && old(self).map()[k@] == v@,
            r is None ==> !old(self).map().dom().contains(k@),
    {
        let ghost es = self.entries();
        proof {
            lemma_map_of(es);
        }
        let p = self.position(k);
        if p < self.entries.len() && chars_eq(&self.entries[p].0, k) {
            let (_, v) = self.entries.remove(p);
            let ghost es2 = self.entries();
            assert(es2 =~= es.remove(p as int));
            assert(sorted_keys(es2)) by {
                assert forall|i: int, j: int| 0 <= i < j < es2.len() implies seq_lt(
                    #[trigger] es2[i].0,
                    #[trigger] es2[j].0,
                ) by {
                    if j < p {
                        assert(es2[i] == es[i] && es2[j] == es[j]);
                    } else if i < p {
                        assert(es2[i] == es[i] && es2[j] == es[j + 1]);
                    } else {
                        assert(es2[i] == es[i + 1] && es2[j] == es[j + 1]);
                    }
                }
            }
            proof {
                lemma_map_of(es2);
                assert(es[p as int].0 == k@);
                assert forall|x: Seq<char>| #[trigger] map_of(es2).dom().contains(x)
                    == map_of(es).remove(k@).dom().contains(x) by {
                    if map_of(es2).dom().contains(x) {
                        let i = choose|i: int| 0 <= i < es2.len() && (#[trigger] es2[i]).0 == x;
                        lemma_seq_lt_irreflexive(x);
                        if i < p {
                            assert(es2[i] == es[i]);
                            assert(seq_lt(es[i].0, es[p as int].0));
                        } else {
                            assert(es2[i] == es[i + 1]);
                            assert(seq_lt(es[p as int].0, es[i + 1].0));
                        }
                    }
                    if map_of(es).dom().contains(x) && x != k@ {
                        let i = choose|i: int| 0 <= i < es.len() && (#[trigger] es[i]).0 == x;
                        if i < p {
                            assert(es2[i] == es[i]);
                        } else {
                            assert(i != p);
                            assert(es2[i - 1] == es[i]);
                        }
                    }
                }
                assert forall|x: Seq<char>| #[trigger] map_of(es2).dom().contains(x) implies map_of(
                    es2,
                )[x] == map_of(es).remove(k@)[x] by {
                    let i = choose|i: int| 0 <= i < es2.len() && (#[trigger] es2[i]).0 == x;
                    if i < p {
                        assert(es2[i] == es[i]);
                    } else {
                        assert(es2[i] == es[i + 1]);
                    }
                }
                assert(map_of(es2) =~= map_of(es).remove(k@));
            }
            return Some(v);
        }
        proof {
            if self.map().dom().contains(k@) {
                let i = choose|i: int|
                    0 <= i < self.entries().len() && (#[trigger] self.entries()[i]).0 == k@;
                lemma_seq_lt_irreflexive(k@);
                if i > p {
                    lemma_seq_lt_total(self.entries()[p as int].0, k@);
                    assert(seq_lt(self.entries()[p as int].0, self.entries()[i].0));
                }
            }
            assert(map_of(es).remove(k@) =~= map_of(es));
        }
        None
    }

    /// The value stored under `key`.
    pub fn get(&self, key: &str) -> (r: Option<String>)
        requires
            self.wf(),
        ensures
            r matches Some(v) ==> self.map().dom().contains(key@) && self.map()[key@] == v@,
            r is None ==> !self.map().dom().contains(key@),
    {
        match self.get_chars(&chars_of(key)) {
            Some(v) => Some(string_of(&v)),
            None => None,
        }
    }

    /// Stores `value` under `key`, replacing any earlier value.
    pub fn insert(&mut self, key: &str, value: &str)
        requires
            old(self).wf(),
        ensures
            final(self).wf(),
            final(self).map() == old(self).map().insert(key@, value@),
    {
        self.insert_chars(chars_of(key), chars_of(value));
    }

    /// Removes `key` and returns the value it held.
    pub fn remove(&mut self, key: &str) -> (r: Option<String>)
        requires
            old(self).wf(),
        ensures
            final(self).wf(),
            final(self).map() == old(self).map().remove(key@),
            r matches Some(v) ==> old(self).map().dom().contains(key@) && old(self).map()[key@]
                == v@,
            r is None ==> !old(self).map().dom().contains(key@),
    {
        match self.remove_chars(&chars_of(key)) {
            Some(v) => Some(string_of(&v)),
            None => None,
        }
    }
}

/// The map of strictly sorted entries has one key per entry.
pub proof fn lemma_map_of_dom_len(es: Seq<Entry>)
    requires
        sorted_keys(es),
    ensures
        map_of(es).dom().finite(),
        map_of(es).dom().len() == es.len(),
    decreases es.len(),
{
    if es.len() > 0 {
        let init = es.drop_last();
        assert(sorted_keys(init));
        lemma_map_of_dom_len(init);
        lemma_map_of(init);
        lemma_seq_lt_irreflexive(es.last().0);
        assert(!map_of(init).dom().contains(es.last().0)) by {
            if map_of(init).dom().contains(es.last().0) {
                let i = choose|i: int| 0 <= i < init.len() && (#[trigger] init[i]).0 == es.last().0;
                assert(init[i] == es[i]);
                assert(seq_lt(es[i].0, es[es.len() - 1].0));
            }
        }
    }
}

/// The last of strictly sorted entries holds the greatest key of their map.
proof fn lemma_last_is_greatest(es: Seq<Entry>, k: Seq<char>)
    requires
        sorted_keys(es),
        map_of(es).dom().contains(k),
    ensures
        k == es.last().0 || seq_lt(k, es.last().0),
{
    lemma_map_of(es);
    let i = choose|i: int| 0 <= i < es.len() && (#[trigger] es[i]).0 == k;
    if i < es.len() - 1 {
        assert(seq_lt(es[i].0, es[es.len() - 1].0));
    }
}

/// Strictly sorted entries are the only such list of their map.
pub proof fn lemma_sorted_entries_unique(a: Seq<Entry>, b: Seq<Entry>)
    requires
        sorted_keys(a),
        sorted_keys(b),
        map_of(a) == map_of(b),
    ensures
        a == b,
    decreases a.len(),
{
    lemma_map_of_dom_len(a);
    lemma_map_of_dom_len(b);
    if a.len() > 0 {
        let ka = a.last().0;
        let kb = b.last().0;
        lemma_map_of(a);
        lemma_map_of(b);
        assert(map_of(a).dom().contains(ka)) by {
            assert(a[a.len() - 1].0 == ka);
        }
        assert(map_of(b).dom().contains(kb)) by {
            assert(b[b.len() - 1].0 == kb);
        }
        lemma_last_is_greatest(a, kb);
        lemma_last_is_greatest(b, ka);
        if ka != kb {
            lemma_seq_lt_asymmetric(kb, ka);
        }
        assert(a.last().1 == b.last().1) by {
            assert(map_of(a)[a[a.len() - 1].0] == a[a.len() - 1].1);
            assert(map_of(b)[b[b.len() - 1].0] == b[b.len() - 1].1);
        }
        let ia = a.drop_last();
        let ib = b.drop_last();
        assert(sorted_keys(ia));
        assert(sorted_keys(ib));
        lemma_last_absent(a);
        lemma_last_absent(b);
        assert(map_of(ia) =~= map_of(a).remove(ka));
        assert(map_of(ib) =~= map_of(b).remove(kb));
        lemma_sorted_entries_unique(ia, ib);
        assert(a =~= ia.push(a.last()));
        assert(b =~= ib.push(b.last()));
    } else {
        assert(a =~= b);
    }
}

/// The last key of strictly sorted entries is not among the others.
proof fn lemma_last_absent(es: Seq<Entry>)
    requires
        sorted_keys(es),
        es.len() > 0,
    ensures
        !map_of(es.drop_last()).dom().contains(es.last().0),
{
    let init = es.drop_last();
    assert(sorted_keys(init));
    lemma_map_of(init);
    lemma_seq_lt_irreflexive(es.last().0);
    if map_of(init).dom().contains(es.last().0) {
        let i = choose|i: int| 0 <= i < init.len() && (#[trigger] init[i]).0 == es.last().0;
        assert(init[i] == es[i]);
        assert(seq_lt(es[i].0, es[es.len() - 1].0));
    }
}

// ---------------------------------------------------------------------------
// Quoting
// ---------------------------------------------------------------------------

/// `v` with its surrounding white space removed and then, when it is wrapped
/// in a pair of double or single quotes, without those quotes.
pub open spec fn strip_quotes_spec(v: Seq<char>) -> Seq<char> {
    let t = trim(v);
    if t.len() >= 2 && ((t[0] == '"' && t.last() == '"') || (t[0] == '\'' && t.last() == '\'')) {
        t.subrange(1, t.len() - 1)
    } else {
        t
    }
}

/// One character in a TOML basic string: backslash and double quote get a
/// backslash before them.
pub open spec fn escape_char(c: char) -> Seq<char> {
    if c == '\\' {
        seq!['\\', '\\']
    } else if c == '"' {
        seq!['\\', '"']
    } else {
        seq![c]
    }
}

/// `v` with each backslash and double quote escaped.
pub open spec fn escape(v: Seq<char>) -> Seq<char>
    decreases v.len(),
{
    if v.len() == 0 {
        Seq::empty()
    } else {
        escape(v.drop_last()) + escape_char(v.last())
    }
}

/// `v` as a TOML basic string: escaped and wrapped in double quotes.
pub open spec fn quote_spec(v: Seq<char>) -> Seq<char> {
    seq!['"'] + escape(v) + seq!['"']
}

fn strip_quotes_chars(v: &Vec<char>) -> (r: Vec<char>)
    ensures
        r@ == strip_quotes_spec(v@),
{
    let t = trim_chars(v);
    let n = t.len();
    if n >= 2 && ((t[0] == '"' && t[n - 1] == '"') || (t[0] == '\'' && t[n - 1] == '\'')) {
        subvec(&t, 1, n - 1)
    } else {
        t
    }
}

/// Removes white space around `v` and one pair of surrounding quotes.
pub fn strip_quotes(v: &str) -> (r: String)
    ensures
        r@ == strip_quotes_spec(v@),
{
    string_of(&strip_quotes_chars(&chars_of(v)))
}

/// `s` with the escapes of a TOML basic string for backslash and double
/// quote (`\\` and `\"`) undone; any other backslash is kept as it is.
pub open spec fn unescape(s: Seq<char>) -> Seq<char>
    decreases s.len(),
{
    if s.len() == 0 {
        Seq::empty()
    } else if s.len() >= 2 && s[0] == '\\' && (s[1] == '\\' || s[1] == '"') {
        seq![s[1]] + unescape(s.subrange(2, s.len() as int))
    } else {
        seq![s[0]] + unescape(s.subrange(1, s.len() as int))
    }
}

/// The value written after `=`: around white space removed; a double-quoted
/// value loses its quotes and has its escapes undone; otherwise one pair of
/// single quotes is removed, as `strip_quotes` does.
pub open spec fn read_value(v: Seq<char>) -> Seq<char> {
    let t = trim(v);
    if t.len() >= 2 && t[0] == '"' && t.last() == '"' {
        unescape(t.subrange(1, t.len() - 1))
    } else {
        strip_quotes_spec(v)
    }
}

fn unescape_chars(s: &Vec<char>) -> (r: Vec<char>)
    ensures
        r@ == unescape(s@),
{
    let n = s.len();
    let mut out: Vec<char> = Vec::new();
    let mut i: usize = 0;
    assert(s@.subrange(0, n as int) =~= s@);
    while i < n
        invariant
            n == s@.len(),
            i <= n,
            out@ + unescape(s@.subrange(i as int, n as int)) == unescape(s@),
        decreases n - i,
    {
        let ghost rest = s@.subrange(i as int, n as int);
        if i + 1 < n && s[i] == '\\' && (s[i + 1] == '\\' || s[i + 1] == '"') {
            let c = s[i + 1];
            assert(rest.subrange(2, rest.len() as int) =~= s@.subrange(i + 2, n as int));
            assert(unescape(rest) == seq![c] + unescape(s@.subrange(i + 2, n as int)));
            out.push(c);
            i = i + 2;
        } else {
            let c = s[i];
            assert(rest.subrange(1, rest.len() as int) =~= s@.subrange(i + 1, n as int));
            assert(unescape(rest) == seq![c] + unescape(s@.subrange(i + 1, n as int)));
            out.push(c);
            i = i + 1;
        }
        assert(out@ + unescape(s@.subrange(i as int, n as int)) =~= unescape(s@));
    }
    assert(s@.subrange(n as int, n as int) =~= Seq::<char>::empty());
    assert(out@ + Seq::<char>::empty() =~= out@);
    out
}

fn read_value_chars(v: &Vec<char>) -> (r: Vec<char>)
    ensures
        r@ == read_value(v@),
{
    let t = trim_chars(v);
    let n = t.len();
    if n >= 2 && t[0] == '"' && t[n - 1] == '"' {
        unescape_chars(&subvec(&t, 1, n - 1))
    } else {
        strip_quotes_chars(v)
    }
}

fn quote_chars(v: &Vec<char>) -> (r: Vec<char>)
    ensures
        r@ == quote_spec(v@),
{
    let mut r: Vec<char> = Vec::new();
    r.push('"');
    let mut i: usize = 0;
    while i < v.len()
        invariant
            i <= v@.len(),
            r@ == seq!['"'] + escape(v@.subrange(0, i as int)),
        decreases v@.len() - i,
    {
        let c = v[i];
        if c == '\\' {
            r.push('\\');
            r.push('\\');
        } else if c == '"' {
            r.push('\\');
            r.push('"');
        } else {
            r.push(c);
        }
        assert(v@.subrange(0, i + 1).drop_last() =~= v@.subrange(0, i as int));
        i = i + 1;
        assert(r@ =~= seq!['"'] + escape(v@.subrange(0, i as int)));
    }
    r.push('"');
    assert(v@.subrange(0, v@.len() as int) =~= v@);
    assert(r@ =~= quote_spec(v@));
    r
}

/// `v` as a TOML basic string: backslashes and double quotes escaped, the
/// whole wrapped in double quotes.
pub fn quote(v: &str) -> (r: String)
    ensures
        r@ == quote_spec(v@),
{
    string_of(&quote_chars(&chars_of(v)))
}

// ---------------------------------------------------------------------------
// Reading the configuration file
// ---------------------------------------------------------------------------

/// The state of the reader: the current section and the keys read so far.
pub type ParseState = (Seq<char>, Map<Seq<char>, Seq<char>>);

/// A trimmed line that names a section: `[name]`.
pub open spec fn is_header(line: Seq<char>) -> bool {
    line.len() >= 2 && line[0] == '[' && line.last() == ']'
}

/// The full key of `key` read inside `section`.
pub open spec fn full_key(section: Seq<char>, key: Seq<char>) -> Seq<char> {
    if section.len() == 0 {
        key
    } else {
        section + seq!['.'] + key
    }
}

/// Reads one line: blank lines and `#` comments are skipped, `[name]` opens a
/// section, and `key = value` stores the value (read by `read_value`) under
/// `section.key`. Other lines are ignored.
pub open spec fn parse_line(st: ParseState, raw: Seq<char>) -> ParseState {
    let line = trim(raw);
    if line.len() == 0 || line[0] == '#' {
        st
    } else if is_header(line) {
        (trim(line.subrange(1, line.len() - 1)), st.1)
    } else {
        match find(line, seq!['=']) {
            Some(i) => {
                let k = trim(line.subrange(0, i));
                let v = read_value(trim(line.subrange(i + 1, line.len() as int)));
                (st.0, st.1.insert(full_key(st.0, k), v))
            },
            None => st,
        }
    }
}

/// Reads the lines in order.
pub open spec fn parse_lines(st: ParseState, ls: Seq<Seq<char>>) -> ParseState
    decreases ls.len(),
{
    if ls.len() == 0 {
        st
    } else {
        parse_line(parse_lines(st, ls.drop_last()), ls.last())
    }
}

/// The state before the first line: no section, no key.
pub open spec fn initial_state() -> ParseState {
    (Seq::empty(), Map::empty())
}

/// The keys and values that a configuration file holds; a later line for a
/// key wins.
pub open spec fn parse_doc_spec(text: Seq<char>) -> Map<Seq<char>, Seq<char>> {
    parse_lines(initial_state(), split_lines(text)).1
}

/// Reads one line into the current section and document.
fn parse_line_exec(section: &mut Vec<char>, doc: &mut ConfigDoc, raw: &Vec<char>)
    requires
        old(doc).wf(),
    ensures
        final(doc).wf(),
        (final(section)@, final(doc).map()) == parse_line((old(section)@, old(doc).map()), raw@),
{
    let line = trim_chars(raw);
    let n = line.len();
    if n == 0 || line[0] == '#' {
        return;
    }
    if n >= 2 && line[0] == '[' && line[n - 1] == ']' {
        let inner = subvec(&line, 1, n - 1);
        *section = trim_chars(&inner);
        return;
    }
    let eq: Vec<char> = vec!['='];
    assert(eq@ =~= seq!['=']);
    match find_chars(&line, &eq) {
        Some(i) => {
            proof {
                lemma_find(line@, eq@);
                assert(matches_at(line@, eq@, i as int));
            }
            let k = trim_chars(&subvec(&line, 0, i));
            let v = read_value_chars(&trim_chars(&subvec(&line, i + 1, n)));
            let mut full: Vec<char>;
            if section.len() == 0 {
                full = k;
            } else {
                full = section.clone();
                full.push('.');
                push_all(&mut full, &k);
            }
            assert(full@ == full_key(section@, k@));
            doc.insert_chars(full, v);
        },
        None => {},
    }
}

/// Reads the configuration file text into a document.
pub fn parse_doc(text: &str) -> (d: ConfigDoc)
    ensures
        d.wf(),
        d.map() == parse_doc_spec(text@),
{
    let t = chars_of(text);
    let lines = split_lines_chars(&t);
    let ghost ls = split_lines(t@);
    let mut doc = ConfigDoc::new();
    let mut section: Vec<char> = Vec::new();
    let mut i: usize = 0;
    assert(ls.subrange(0, 0) =~= Seq::<Seq<char>>::empty());
    assert(section@ =~= Seq::<char>::empty());
    while i < lines.len()
        invariant
            i <= lines@.len(),
            lines@.len() == ls.len(),
            forall|j: int| 0 <= j < lines@.len() ==> (#[trigger] lines@[j])@ == ls[j],
            doc.wf(),
            (section@, doc.map()) == parse_lines(initial_state(), ls.subrange(0, i as int)),
        decreases lines@.len() - i,
    {
        parse_line_exec(&mut section, &mut doc, &lines[i]);
        assert(ls.subrange(0, i + 1).drop_last() =~= ls.subrange(0, i as int));
        i = i + 1;
    }
    assert(ls.subrange(0, ls.len() as int) =~= ls);
    doc
}

// ---------------------------------------------------------------------------
// Writing the configuration file
// ---------------------------------------------------------------------------

/// The section of a full key: the part before its first `.` (none without a `.`).
pub open spec fn section_of(key: Seq<char>) -> Seq<char> {
    match find(key, seq!['.']) {
        Some(i) => key.subrange(0, i),
        None => Seq::empty(),
    }
}

/// The name of a full key inside its section: the part after its first `.`
/// (the whole key without a `.`).
pub open spec fn name_of(key: Seq<char>) -> Seq<char> {
    match find(key, seq!['.']) {
        Some(i) => key.subrange(i + 1, key.len() as int),
        None => key,
    }
}

/// The line of an entry inside its section: `name = "value"`.
pub open spec fn entry_line(e: Entry) -> Seq<char> {
    name_of(e.0) + seq![' ', '=', ' '] + quote_spec(e.1)
}

/// The lines (each ended by a line feed) of the entries of section `s`, in
/// the order of the entries.
pub open spec fn section_body(es: Seq<Entry>, s: Seq<char>) -> Seq<char>
    decreases es.len(),
{
    if es.len() == 0 {
        Seq::empty()
    } else {
        section_body(es.drop_last(), s) + if section_of(es.last().0) == s {
            entry_line(es.last()) + seq!['\n']
        } else {
            Seq::empty()
        }
    }
}

/// `secs` with `s` added in its place in key order, unless already present.
pub open spec fn insert_sorted(secs: Seq<Seq<char>>, s: Seq<char>) -> Seq<Seq<char>>
    decreases secs.len(),
{
    if secs.len() == 0 {
        seq![s]
    } else if secs[0] == s {
        secs
    } else if seq_lt(s, secs[0]) {
        seq![s] + secs
    } else {
        seq![secs[0]] + insert_sorted(secs.drop_first(), s)
    }
}

/// The distinct sections of the entries, in key order.
pub open spec fn section_names(es: Seq<Entry>) -> Seq<Seq<char>>
    decreases es.len(),
{
    if es.len() == 0 {
        Seq::empty()
    } else {
        insert_sorted(section_names(es.drop_last()), section_of(es.last().0))
    }
}

/// The text of one section: its `[name]` header, its entries, a blank line.
pub open spec fn section_block(es: Seq<Entry>, s: Seq<char>) -> Seq<char> {
    seq!['['] + s + seq![']', '\n'] + section_body(es, s) + seq!['\n']
}

/// The text of the given sections, in order.
pub open spec fn render_sections(es: Seq<Entry>, secs: Seq<Seq<char>>) -> Seq<char>
    decreases secs.len(),
{
    if secs.len() == 0 {
        Seq::empty()
    } else {
        render_sections(es, secs.drop_last()) + section_block(es, secs.last())
    }
}

/// The comment line that opens the configuration file.
pub open spec fn config_header() -> Seq<char> {
    "# r-ya-mapping global config. Edit with `r-ya-mapping config <key> <value>`."@
}

/// The configuration file text of a document: the comment line, then each
/// section in key order with its entries in key order.
pub open spec fn render_spec(es: Seq<Entry>) -> Seq<char> {
    config_header() + seq!['\n'] + render_sections(es, section_names(es))
}

/// The sequence of names is strictly increasing.
pub open spec fn sorted_names(secs: Seq<Seq<char>>) -> bool {
    forall|i: int, j: int| 0 <= i < j < secs.len() ==> seq_lt(#[trigger] secs[i], #[trigger] secs[j])
}

/// Adding a name in its place keeps the names sorted; `insert_sorted` does
/// nothing for a present name and otherwise inserts at the first position
/// whose name does not precede it.
pub proof fn lemma_insert_sorted(secs: Seq<Seq<char>>, s: Seq<char>, p: int)
    requires
        sorted_names(secs),
        0 <= p <= secs.len(),
        forall|j: int| 0 <= j < p ==> seq_lt(#[trigger] secs[j], s),
        p < secs.len() ==> !seq_lt(secs[p], s),
    ensures
        p < secs.len() && secs[p] == s ==> insert_sorted(secs, s) == secs,
        !(p < secs.len() && secs[p] == s) ==> insert_sorted(secs, s) == secs.insert(p, s),
        sorted_names(insert_sorted(secs, s)),
        forall|t: Seq<char>| #[trigger] insert_sorted(secs, s).contains(t) <==> secs.contains(t) || t == s,
    decreases secs.len(),
{
    lemma_seq_lt_irreflexive(s);
    if secs.len() == 0 {
        assert(secs.insert(p, s) =~= seq![s]);
        assert forall|t: Seq<char>| #[trigger] insert_sorted(secs, s).contains(t) <==> secs.contains(t)
            || t == s by {
            if insert_sorted(secs, s).contains(t) {
                assert(insert_sorted(secs, s)[0] == s);
            }
            if t == s {
                assert(insert_sorted(secs, s)[0] == s);
            }
        }
    } else if secs[0] == s {
        assert(p == 0) by {
            if p > 0 {
                assert(seq_lt(secs[0], s));
            }
        }
    } else if seq_lt(s, secs[0]) {
        assert(p == 0) by {
            if p > 0 {
                lemma_seq_lt_asymmetric(secs[0], s);
            }
        }
        assert(secs.insert(0, s) =~= seq![s] + secs);
        let r = seq![s] + secs;
        assert(sorted_names(r)) by {
            assert forall|i: int, j: int| 0 <= i < j < r.len() implies seq_lt(
                #[trigger] r[i],
                #[trigger] r[j],
            ) by {
                if i == 0 {
                    if j > 1 {
                        assert(seq_lt(secs[0], secs[j - 1]));
                        lemma_seq_lt_transitive(s, secs[0], secs[j - 1]);
                    }
                } else {
                    assert(r[i] == secs[i - 1] && r[j] == secs[j - 1]);
                }
            }
        }
        assert forall|t: Seq<char>| #[trigger] r.contains(t) <==> secs.contains(t) || t == s by {
            if r.contains(t) {
                let k = choose|k: int| 0 <= k < r.len() && r[k] == t;
                if k > 0 {
                    assert(secs[k - 1] == t);
                }
            }
            if secs.contains(t) {
                let k = choose|k: int| 0 <= k < secs.len() && secs[k] == t;
                assert(r[k + 1] == t);
            }
            if t == s {
                assert(r[0] == t);
            }
        }
    } else {
        lemma_seq_lt_total(s, secs[0]);
        assert(p > 0);
        let tail = secs.drop_first();
        assert(sorted_names(tail)) by {
            assert forall|i: int, j: int| 0 <= i < j < tail.len() implies seq_lt(
                #[trigger] tail[i],
                #[trigger] tail[j],
            ) by {
                assert(tail[i] == secs[i + 1] && tail[j] == secs[j + 1]);
            }
        }
        assert forall|j: int| 0 <= j < p - 1 implies seq_lt(#[trigger] tail[j], s) by {
            assert(tail[j] == secs[j + 1]);
        }
        if p - 1 < tail.len() {
            assert(tail[p - 1] == secs[p]);
        }
        lemma_insert_sorted(tail, s, p - 1);
        let rest = insert_sorted(tail, s);
        let r = seq![secs[0]] + rest;
        if p < secs.len() && secs[p] == s {
            assert(rest == tail);
            assert(r =~= secs);
        } else {
            assert(rest == tail.insert(p - 1, s));
            assert(r =~= secs.insert(p, s));
        }
        assert forall|t: Seq<char>| #[trigger] r.contains(t) <==> secs.contains(t) || t == s by {
            if r.contains(t) {
                let k = choose|k: int| 0 <= k < r.len() && r[k] == t;
                if k > 0 {
                    assert(rest[k - 1] == t);
                    assert(rest.contains(t));
                } else {
                    assert(secs[0] == t);
                }
            }
            if secs.contains(t) {
                let k = choose|k: int| 0 <= k < secs.len() && secs[k] == t;
                if k > 0 {
                    assert(tail[k - 1] == t);
                    assert(tail.contains(t));
                    assert(rest.contains(t));
                    let m = choose|m: int| 0 <= m < rest.len() && rest[m] == t;
                    assert(r[m + 1] == t);
                } else {
                    assert(r[0] == t);
                }
            }
            if t == s {
                assert(rest.contains(t));
                let m = choose|m: int| 0 <= m < rest.len() && rest[m] == t;
                assert(r[m + 1] == t);
            }
        }
        assert(sorted_names(r)) by {
            assert forall|i: int, j: int| 0 <= i < j < r.len() implies seq_lt(
                #[trigger] r[i],
                #[trigger] r[j],
            ) by {
                if i == 0 {
                    assert(r[j] == rest[j - 1]);
                    assert(rest.contains(r[j]));
                    if r[j] == s {
                        lemma_seq_lt_total(s, secs[0]);
                        lemma_seq_lt_asymmetric(s, secs[0]);
                    } else {
                        assert(tail.contains(r[j]));
                        let m = choose|m: int| 0 <= m < tail.len() && tail[m] == r[j];
                        assert(tail[m] == secs[m + 1]);
                    }
                } else {
                    assert(r[i] == rest[i - 1] && r[j] == rest[j - 1]);
                }
            }
        }
    }
}

/// Every entry's section is among the section names, which are sorted.
pub proof fn lemma_section_names(es: Seq<Entry>)
    ensures
        sorted_names(section_names(es)),
        forall|i: int| 0 <= i < es.len() ==> section_names(es).contains(section_of(#[trigger] es[i].0)),
        forall|t: Seq<char>| #[trigger] section_names(es).contains(t) ==> exists|i: int|
            0 <= i < es.len() && section_of((#[trigger] es[i]).0) == t,
    decreases es.len(),
{
    if es.len() > 0 {
        let init = es.drop_last();
        lemma_section_names(init);
        let secs = section_names(init);
        let s = section_of(es.last().0);
        let p = insert_position(secs, s);
        lemma_insert_position(secs, s);
        lemma_insert_sorted(secs, s, p);
        assert forall|i: int| 0 <= i < es.len() implies section_names(es).contains(
            section_of(#[trigger] es[i].0),
        ) by {
            if i < es.len() - 1 {
                assert(init[i] == es[i]);
            }
        }
        assert forall|t: Seq<char>| #[trigger] section_names(es).contains(t) implies exists|i: int|
            0 <= i < es.len() && section_of((#[trigger] es[i]).0) == t by {
            if secs.contains(t) {
                let i = choose|i: int| 0 <= i < init.len() && section_of((#[trigger] init[i]).0) == t;
                assert(es[i] == init[i]);
            } else {
                assert(es[es.len() - 1] == es.last());
            }
        }
    }
}

/// The position where `s` belongs in sorted names: the number of names that
/// precede it.
pub open spec fn insert_position(secs: Seq<Seq<char>>, s: Seq<char>) -> int
    decreases secs.len(),
{
    if secs.len() == 0 {
        0
    } else if seq_lt(secs[0], s) {
        1 + insert_position(secs.drop_first(), s)
    } else {
        0
    }
}

/// In sorted names, the names before `insert_position` precede `s` and the
/// name there does not.
pub proof fn lemma_insert_position(secs: Seq<Seq<char>>, s: Seq<char>)
    requires
        sorted_names(secs),
    ensures
        0 <= insert_position(secs, s) <= secs.len(),
        forall|j: int| 0 <= j < insert_position(secs, s) ==> seq_lt(#[trigger] secs[j], s),
        insert_position(secs, s) < secs.len() ==> !seq_lt(secs[insert_position(secs, s)], s),
    decreases secs.len(),
{
    if secs.len() > 0 && seq_lt(secs[0], s) {
        let tail = secs.drop_first();
        assert(sorted_names(tail)) by {
            assert forall|i: int, j: int| 0 <= i < j < tail.len() implies seq_lt(
                #[trigger] tail[i],
                #[trigger] tail[j],
            ) by {
                assert(tail[i] == secs[i + 1] && tail[j] == secs[j + 1]);
            }
        }
        lemma_insert_position(tail, s);
        assert forall|j: int| 0 <= j < insert_position(secs, s) implies seq_lt(#[trigger] secs[j], s) by {
            if j > 0 {
                assert(secs[j] == tail[j - 1]);
            }
        }
        if insert_position(secs, s) < secs.len() {
            assert(secs[insert_position(secs, s)] == tail[insert_position(tail, s)]);
        }
    }
}

/// A section that no entry has gets no lines.
pub proof fn lemma_body_absent(es: Seq<Entry>, s: Seq<char>)
    requires
        forall|i: int| 0 <= i < es.len() ==> section_of(#[trigger] es[i].0) != s,
    ensures
        section_body(es, s) == Seq::<char>::empty(),
    decreases es.len(),
{
    if es.len() > 0 {
        let init = es.drop_last();
        assert forall|i: int| 0 <= i < init.len() implies section_of(#[trigger] init[i].0) != s by {
            assert(init[i] == es[i]);
        }
        lemma_body_absent(init, s);
        assert(es[es.len() - 1] == es.last());
        assert(section_body(es, s) =~= Seq::<char>::empty());
    }
}

/// The section and the name of a full key.
fn split_key(key: &Vec<char>) -> (r: (Vec<char>, Vec<char>))
    ensures
        r.0@ == section_of(key@),
        r.1@ == name_of(key@),
{
    let dot: Vec<char> = vec!['.'];
    assert(dot@ =~= seq!['.']);
    match find_chars(key, &dot) {
        Some(i) => {
            proof {
                lemma_find(key@, dot@);
                assert(matches_at(key@, dot@, i as int));
            }
            let klen = key.len();
            assert(i + 1 <= klen);
            (subvec(key, 0, i), subvec(key, i + 1, klen))
        },
        None => (Vec::new(), key.clone()),
    }
}

/// The line of an entry inside its section, followed by a line feed.
fn entry_line_chars(key: &Vec<char>, value: &Vec<char>) -> (r: Vec<char>)
    ensures
        r@ == entry_line((key@, value@)) + seq!['\n'],
{
    let (_, name) = split_key(key);
    let mut r = name;
    r.push(' ');
    r.push('=');
    r.push(' ');
    let q = quote_chars(value);
    push_all(&mut r, &q);
    r.push('\n');
    assert(r@ =~= entry_line((key@, value@)) + seq!['\n']);
    r
}

/// The names of sections collected so far.
spec fn names_of(secs: Seq<(Vec<char>, Vec<char>)>) -> Seq<Seq<char>> {
    Seq::new(secs.len(), |j: int| secs[j].0@)
}

/// Adding the entry at index `i` extends the body of its section only.
proof fn lemma_body_step(es: Seq<Entry>, i: int, t: Seq<char>)
    requires
        0 <= i < es.len(),
    ensures
        section_body(es.subrange(0, i + 1), t) == section_body(es.subrange(0, i), t) + if section_of(
            es[i].0,
        ) == t {
            entry_line(es[i]) + seq!['\n']
        } else {
            Seq::empty()
        },
        section_names(es.subrange(0, i + 1)) == insert_sorted(
            section_names(es.subrange(0, i)),
            section_of(es[i].0),
        ),
{
    assert(es.subrange(0, i + 1).drop_last() =~= es.subrange(0, i));
    assert(es.subrange(0, i + 1).last() == es[i]);
}

/// The sections of the first entries of `es`, each with its lines.
fn collect_sections(doc: &ConfigDoc) -> (secs: Vec<(Vec<char>, Vec<char>)>)
    requires
        doc.wf(),
    ensures
        names_of(secs@) == section_names(doc.entries()),
        forall|j: int| 0 <= j < secs@.len() ==> (#[trigger] secs@[j]).1@ == section_body(
            doc.entries(),
            secs@[j].0@,
        ),
{
    let ghost es = doc.entries();
    let mut secs: Vec<(Vec<char>, Vec<char>)> = Vec::new();
    let mut i: usize = 0;
    assert(names_of(secs@) =~= section_names(es.subrange(0, 0)));
    while i < doc.entries.len()
        invariant
            es == doc.entries(),
            i <= es.len(),
            es.len() == doc.entries@.len(),
            names_of(secs@) == section_names(es.subrange(0, i as int)),
            forall|j: int| 0 <= j < secs@.len() ==> (#[trigger] secs@[j]).1@ == section_body(
                es.subrange(0, i as int),
                secs@[j].0@,
            ),
        decreases es.len() - i,
    {
        let ghost prefix = es.subrange(0, i as int);
        let ghost names = names_of(secs@);
        let ghost old_secs = secs@;
        proof {
            lemma_section_names(prefix);
        }
        let (sec, _) = split_key(&doc.entries[i].0);
        let line = entry_line_chars(&doc.entries[i].0, &doc.entries[i].1);
        assert(es[i as int] == (doc.entries@[i as int].0@, doc.entries@[i as int].1@));
        let mut p: usize = 0;
        while p < secs.len()
            invariant
                p <= secs@.len(),
                names == names_of(secs@),
                forall|j: int| 0 <= j < p ==> seq_lt(#[trigger] names[j], sec@),
            ensures
                p <= secs@.len(),
                forall|j: int| 0 <= j < p ==> seq_lt(#[trigger] names[j], sec@),
                p < secs@.len() ==> !seq_lt(names[p as int], sec@),
            decreases secs@.len() - p,
        {
            if !key_lt(&secs[p].0, &sec) {
                break;
            }
            p = p + 1;
        }
        proof {
            lemma_insert_sorted(names, sec@, p as int);
            lemma_body_step(es, i as int, sec@);
        }
        if p < secs.len() && chars_eq(&secs[p].0, &sec) {
            let (n, mut b) = secs.remove(p);
            push_all(&mut b, &line);
            secs.insert(p, (n, b));
            proof {
                assert(names_of(secs@) =~= names);
                assert forall|j: int| 0 <= j < secs@.len() implies (#[trigger] secs@[j]).1@
                    == section_body(es.subrange(0, i + 1), secs@[j].0@) by {
                    lemma_body_step(es, i as int, secs@[j].0@);
                    if j != p {
                        assert(secs@[j] == old_secs[j]);
                        lemma_seq_lt_irreflexive(names[j]);
                        if j < p {
                            assert(seq_lt(names[j], names[p as int]));
                        } else {
                            assert(seq_lt(names[p as int], names[j]));
                        }
                    }
                }
            }
        } else {
            proof {
                assert(!names.contains(sec@)) by {
                    if names.contains(sec@) {
                        let k = choose|k: int| 0 <= k < names.len() && names[k] == sec@;
                        lemma_seq_lt_irreflexive(sec@);
                        if k > p {
                            lemma_seq_lt_total(names[p as int], sec@);
                            assert(seq_lt(names[p as int], names[k]));
                        }
                    }
                }
                assert forall|k: int| 0 <= k < prefix.len() implies section_of(
                    #[trigger] prefix[k].0,
                ) != sec@ by {}
                lemma_body_absent(prefix, sec@);
            }
            secs.insert(p, (sec, line));
            proof {
                assert(names_of(secs@) =~= names.insert(p as int, sec@));
                assert forall|j: int| 0 <= j < secs@.len() implies (#[trigger] secs@[j]).1@
                    == section_body(es.subrange(0, i + 1), secs@[j].0@) by {
                    lemma_body_step(es, i as int, secs@[j].0@);
                    if j < p {
                        assert(secs@[j] == old_secs[j]);
                        assert(names[j] != sec@);
                    } else if j > p {
                        assert(secs@[j] == old_secs[j - 1]);
                        assert(names[j - 1] != sec@);
                    }
                }
            }
        }
        i = i + 1;
    }
    assert(es.subrange(0, es.len() as int) =~= es);
    secs
}

/// The configuration file text of the document, as characters.
fn render_doc_chars(doc: &ConfigDoc) -> (r: Vec<char>)
    requires
        doc.wf(),
    ensures
        r@ == render_spec(doc.entries()),
{
    let ghost es = doc.entries();
    let secs = collect_sections(doc);
    let ghost names = section_names(es);
    let mut out = chars_of("# r-ya-mapping global config. Edit with `r-ya-mapping config <key> <value>`.");
    out.push('\n');
    let mut j: usize = 0;
    assert(names.subrange(0, 0) =~= Seq::<Seq<char>>::empty());
    while j < secs.len()
        invariant
            j <= secs@.len(),
            names == names_of(secs@),
            forall|k: int| 0 <= k < secs@.len() ==> (#[trigger] secs@[k]).1@ == section_body(
                es,
                secs@[k].0@,
            ),
            out@ == config_header() + seq!['\n'] + render_sections(es, names.subrange(0, j as int)),
        decreases secs@.len() - j,
    {
        let ghost before = out@;
        assert(names[j as int] == secs@[j as int].0@);
        out.push('[');
        push_all(&mut out, &secs[j].0);
        out.push(']');
        out.push('\n');
        push_all(&mut out, &secs[j].1);
        out.push('\n');
        assert(names.subrange(0, j + 1).drop_last() =~= names.subrange(0, j as int));
        assert(out@ =~= before + section_block(es, names[j as int]));
        j = j + 1;
    }
    assert(names.subrange(0, names.len() as int) =~= names);
    out
}

/// The configuration file text of the document: a comment line, then each
/// section (`[name]`, one `key = "value"` line per entry, a blank line) in
/// key order.
pub fn render_doc(doc: &ConfigDoc) -> (r: String)
    requires
        doc.wf(),
    ensures
        r@ == render_spec(doc.entries()),
{
    string_of(&render_doc_chars(doc))
}

} // verus!
