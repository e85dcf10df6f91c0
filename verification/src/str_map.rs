//! A map from strings to values that keeps its entries sorted by key.
//!
//! Keys are ordered as `String` orders them: lexicographically by their UTF-8
//! bytes. Entries live in a `Vec`, strictly increasing by key, so a key occurs
//! at most once and iteration follows key order.
use vstd::prelude::*;
use vstd::utf8::{decode_utf8, encode_utf8, encode_utf8_decode_utf8};

verus! {

/// Lexicographic "strictly less" on byte sequences.
pub open spec fn lex_lt(a: Seq<u8>, b: Seq<u8>) -> bool
    decreases a.len(),
{
    if a.len() == 0 {
        b.len() > 0
    } else if b.len() == 0 {
        false
    } else if a[0] < b[0] {
        true
    } else if a[0] > b[0] {
        false
    } else {
        lex_lt(a.drop_first(), b.drop_first())
    }
}

/// No sequence is below itself.
pub proof fn lemma_lex_irreflexive(a: Seq<u8>)
    ensures
        !lex_lt(a, a),
    decreases a.len(),
{
    if a.len() > 0 {
        lemma_lex_irreflexive(a.drop_first());
    }
}

/// The order is transitive.
pub proof fn lemma_lex_transitive(a: Seq<u8>, b: Seq<u8>, c: Seq<u8>)
    requires
        lex_lt(a, b),
        lex_lt(b, c),
    ensures
        lex_lt(a, c),
    decreases a.len(),
{
    if a.len() > 0 && b.len() > 0 && c.len() > 0 {
        if a[0] == b[0] && b[0] == c[0] {
            lemma_lex_transitive(a.drop_first(), b.drop_first(), c.drop_first());
        }
    }
}

/// Two different sequences are ordered one way or the other.
pub proof fn lemma_lex_total(a: Seq<u8>, b: Seq<u8>)
    requires
        a != b,
    ensures
        lex_lt(a, b) || lex_lt(b, a),
    decreases a.len(),
{
    if a.len() > 0 && b.len() > 0 && a[0] == b[0] {
        if a.drop_first() == b.drop_first() {
            assert(a =~= seq![a[0]] + a.drop_first());
            assert(b =~= seq![b[0]] + b.drop_first());
        }
        lemma_lex_total(a.drop_first(), b.drop_first());
    } else if a.len() == 0 && b.len() == 0 {
        assert(a =~= b);
    }
}

/// Different strings have different UTF-8 encodings.
pub proof fn lemma_encode_injective(a: Seq<char>, b: Seq<char>)
    requires
        encode_utf8(a) == encode_utf8(b),
    ensures
        a == b,
{
    encode_utf8_decode_utf8(a);
    encode_utf8_decode_utf8(b);
}

/// Extending a prefix by one element adds exactly that element.
pub proof fn lemma_prefix_push<A>(s: Seq<A>, i: int, k: A)
    requires
        0 <= i < s.len(),
    ensures
        s.subrange(0, i + 1).contains(k) == (s.subrange(0, i).contains(k) || k == s[i]),
{
    let p = s.subrange(0, i);
    let q = s.subrange(0, i + 1);
    if q.contains(k) {
        let j = choose|j: int| 0 <= j < q.len() && q[j] == k;
        if j < i {
            assert(p[j] == k);
        }
    }
    if p.contains(k) {
        let j = choose|j: int| 0 <= j < p.len() && p[j] == k;
        assert(q[j] == k);
    }
    if k == s[i] {
        assert(q[i] == k);
    }
}

/// In a sequence without duplicates, an element does not occur before its position.
pub proof fn lemma_prefix_excludes<A>(s: Seq<A>, i: int)
    requires
        0 <= i < s.len(),
        s.no_duplicates(),
    ensures
        !s.subrange(0, i).contains(s[i]),
{
    if s.subrange(0, i).contains(s[i]) {
        let p = s.subrange(0, i);
        let j = choose|j: int| 0 <= j < p.len() && p[j] == s[i];
        assert(s[j] == s[i]);
    }
}

/// UTF-8 bytes of a string's contents.
pub open spec fn key_bytes(k: Seq<char>) -> Seq<u8> {
    encode_utf8(k)
}

/// Bytewise equality of two slices.
pub fn bytes_eq(a: &[u8], b: &[u8]) -> (r: bool)
    ensures
        r == (a@ == b@),
{
    if a.len() != b.len() {
        return false;
    }
    let mut i: usize = 0;
    while i < a.len()
        invariant
            a@.len() == b@.len(),
            i <= a@.len(),
            forall|j: int| 0 <= j < i ==> a@[j] == b@[j],
        decreases a@.len() - i,
    {
        if a[i] != b[i] {
            return false;
        }
        i = i + 1;
    }
    assert(a@ =~= b@);
    true
}

/// Lexicographic comparison of two slices: whether `a` sorts strictly before `b`.
pub fn bytes_lt(a: &[u8], b: &[u8]) -> (r: bool)
    ensures
        r == lex_lt(a@, b@),
{
    let mut i: usize = 0;
    assert(a@.skip(0) =~= a@ && b@.skip(0) =~= b@);
    while i < a.len() && i < b.len()
        invariant
            i <= a@.len(),
            i <= b@.len(),
            forall|j: int| 0 <= j < i ==> a@[j] == b@[j],
            lex_lt(a@, b@) == lex_lt(a@.skip(i as int), b@.skip(i as int)),
        decreases a@.len() - i,
    {
        if a[i] < b[i] {
            return true;
        }
        if a[i] > b[i] {
            return false;
        }
        proof {
            assert(a@.skip(i as int).drop_first() =~= a@.skip(i + 1));
            assert(b@.skip(i as int).drop_first() =~= b@.skip(i + 1));
        }
        i = i + 1;
    }
    i < b.len()
}

/// A string-keyed map whose entries are sorted by key.
#[derive(Debug)]
pub struct StrMap<V> {
    entries: Vec<(String, V)>,
}

impl<V> StrMap<V> {
    /// Entries in storage order.
    pub closed spec fn entry_seq(&self) -> Seq<(String, V)> {
        self.entries@
    }

    /// Key contents in storage order.
    pub open spec fn keys(&self) -> Seq<Seq<char>> {
        self.entry_seq().map_values(|e: (String, V)| e.0@)
    }

    /// Values in storage order.
    pub open spec fn values(&self) -> Seq<V> {
        self.entry_seq().map_values(|e: (String, V)| e.1)
    }

    /// Entries are strictly increasing by the UTF-8 bytes of their keys.
    pub open spec fn wf(&self) -> bool {
        forall|i: int, j: int|
            0 <= i < j < self.keys().len() ==> lex_lt(
                key_bytes(#[trigger] self.keys()[i]),
                key_bytes(#[trigger] self.keys()[j]),
            )
    }

    /// Position of the key `k`, when present.
    pub open spec fn index_of(&self, k: Seq<char>) -> int {
        choose|i: int| 0 <= i < self.keys().len() && self.keys()[i] == k
    }

    /// The map that the entries describe.
    pub open spec fn view(&self) -> Map<Seq<char>, V> {
        Map::new(|k: Seq<char>| self.keys().contains(k), |k: Seq<char>| self.values()[self.index_of(k)])
    }

    /// In a sorted map, a key sits at exactly one position and the view gives
    /// the value stored there.
    pub proof fn lemma_at(&self, i: int)
        requires
            self.wf(),
            0 <= i < self.keys().len(),
        ensures
            self.view().contains_key(self.keys()[i]),
            self.index_of(self.keys()[i]) == i,
            self.view()[self.keys()[i]] == self.values()[i],
    {
        let k = self.keys()[i];
        assert(self.keys().contains(k));
        let j = self.index_of(k);
        if j != i {
            if j < i {
                assert(lex_lt(key_bytes(self.keys()[j]), key_bytes(self.keys()[i])));
            } else {
                assert(lex_lt(key_bytes(self.keys()[i]), key_bytes(self.keys()[j])));
            }
            lemma_lex_irreflexive(key_bytes(k));
        }
    }

    /// Keys of a sorted map are distinct.
    pub proof fn lemma_distinct(&self)
        requires
            self.wf(),
        ensures
            self.keys().no_duplicates(),
    {
        assert forall|i: int, j: int|
            0 <= i < self.keys().len() && 0 <= j < self.keys().len() && i != j implies self.keys()[i]
            != self.keys()[j] by {
            if i < j {
                assert(lex_lt(key_bytes(self.keys()[i]), key_bytes(self.keys()[j])));
                lemma_lex_irreflexive(key_bytes(self.keys()[i]));
            } else {
                assert(lex_lt(key_bytes(self.keys()[j]), key_bytes(self.keys()[i])));
                lemma_lex_irreflexive(key_bytes(self.keys()[j]));
            }
        }
    }

    /// The number of keys equals the number of entries.
    pub proof fn lemma_len(&self)
        requires
            self.wf(),
        ensures
            self.view().dom().len() == self.keys().len(),
            self.view().dom().finite(),
    {
        self.lemma_distinct();
        self.keys().unique_seq_to_set();
        assert(self.view().dom() =~= self.keys().to_set());
    }

    /// An empty map.
    pub fn new() -> (m: Self)
        ensures
            m.wf(),
            m.view() == Map::<Seq<char>, V>::empty(),
            m.keys().len() == 0,
    {
        let m = StrMap { entries: Vec::new() };
        assert(m.view() =~= Map::<Seq<char>, V>::empty());
        m
    }

    /// Number of entries.
    pub fn len(&self) -> (n: usize)
        ensures
            n == self.keys().len(),
    {
        self.entries.len()
    }

    /// Key stored at position `i`.
    pub fn key_at(&self, i: usize) -> (k: &String)
        requires
            i < self.keys().len(),
        ensures
            k@ == self.keys()[i as int],
    {
        &self.entries[i].0
    }

    /// Value stored at position `i`.
    pub fn value_at(&self, i: usize) -> (v: &V)
        requires
            i < self.keys().len(),
        ensures
            *v == self.values()[i as int],
    {
        &self.entries[i].1
    }

    /// Position of `key`, if present.
    pub fn find(&self, key: &str) -> (r: Option<usize>)
        requires
            self.wf(),
        ensures
            r is None ==> !self.view().contains_key(key@),
            r matches Some(i) ==> i < self.keys().len() && self.keys()[i as int] == key@,
    {
        let kb = key.as_bytes();
        let mut i: usize = 0;
        while i < self.entries.len()
            invariant
                i <= self.keys().len(),
                kb@ == key_bytes(key@),
                forall|j: int| 0 <= j < i ==> self.keys()[j] != key@,
            decreases self.keys().len() - i,
        {
            let eb = self.entries[i].0.as_str().as_bytes();
            if bytes_eq(eb, kb) {
                proof {
                    lemma_encode_injective(self.keys()[i as int], key@);
                }
                return Some(i);
            }
            i = i + 1;
        }
        None
    }

    /// Whether `key` is present.
    pub fn contains_key(&self, key: &str) -> (r: bool)
        requires
            self.wf(),
        ensures
            r == self.view().contains_key(key@),
    {
        match self.find(key) {
            Some(i) => {
                proof {
                    self.lemma_at(i as int);
                }
                true
            },
            None => false,
        }
    }

    /// Value of `key`, if present.
    pub fn get(&self, key: &str) -> (r: Option<&V>)
        requires
            self.wf(),
        ensures
            r is None <==> !self.view().contains_key(key@),
            r matches Some(v) ==> *v == self.view()[key@],
    {
        match self.find(key) {
            Some(i) => {
                proof {
                    self.lemma_at(i as int);
                }
                Some(&self.entries[i].1)
            },
            None => None,
        }
    }

    /// Replace the value at position `i`, returning the previous one.
    pub fn replace_at(&mut self, i: usize, v: V) -> (prev: V)
        requires
            old(self).wf(),
            i < old(self).keys().len(),
        ensures
            final(self).wf(),
            final(self).keys() == old(self).keys(),
            final(self).values() == old(self).values().update(i as int, v),
            prev == old(self).values()[i as int],
            final(self).view() == old(self).view().insert(old(self).keys()[i as int], v),
    {
        let ghost before = *self;
        let (k, prev) = self.entries.remove(i);
        self.entries.insert(i, (k, v));
        proof {
            assert(self.keys() =~= before.keys());
            assert(self.values() =~= before.values().update(i as int, v));
            let k0 = before.keys()[i as int];
            assert forall|key: Seq<char>| #[trigger] self.view().contains_key(key)
                == before.view().insert(k0, v).contains_key(key) by {}
            assert(self.wf());
            assert forall|key: Seq<char>| self.view().contains_key(key) implies #[trigger] self.view()[key]
                == before.view().insert(k0, v)[key] by {
                assert(self.keys().contains(key));
                let j = self.index_of(key);
                self.lemma_at(j);
                before.lemma_at(j);
                self.lemma_at(i as int);
                if key != k0 {
                    assert(j != i);
                    assert(self.values()[j] == before.values()[j]);
                }
            }
            assert(self.view() =~= before.view().insert(k0, v));
        }
        prev
    }

    /// Insert or replace the value of `key`; returns the previous value.
    pub fn insert(&mut self, key: &str, v: V) -> (prev: Option<V>)
        requires
            old(self).wf(),
        ensures
            final(self).wf(),
            final(self).view() == old(self).view().insert(key@, v),
            prev is None <==> !old(self).view().contains_key(key@),
            prev matches Some(p) ==> p == old(self).view()[key@],
    {
        match self.find(key) {
            Some(i) => {
                proof {
                    self.lemma_at(i as int);
                }
                let p = self.replace_at(i, v);
                Some(p)
            },
            None => {
                let kb = key.as_bytes();
                let mut pos: usize = 0;
                while pos < self.entries.len() && !bytes_lt(kb, self.entries[pos].0.as_str().as_bytes())
                    invariant
                        self.wf(),
                        pos <= self.keys().len(),
                        kb@ == key_bytes(key@),
                        !self.keys().contains(key@),
                        forall|j: int| 0 <= j < pos ==> lex_lt(key_bytes(#[trigger] self.keys()[j]), kb@),
                    decreases self.keys().len() - pos,
                {
                    proof {
                        let kj = self.keys()[pos as int];
                        if kj == key@ {
                            assert(self.keys().contains(key@));
                        }
                        if key_bytes(kj) == kb@ {
                            lemma_encode_injective(kj, key@);
                        }
                        lemma_lex_total(kb@, key_bytes(kj));
                    }
                    pos = pos + 1;
                }
                let ghost before = *self;
                let owned = key.to_owned();
                self.entries.insert(pos, (owned, v));
                proof {
                    assert(self.keys() =~= before.keys().insert(pos as int, key@));
                    assert(self.values() =~= before.values().insert(pos as int, v));
                    if pos < before.keys().len() {
                        if kb@ == key_bytes(before.keys()[pos as int]) {
                            lemma_encode_injective(key@, before.keys()[pos as int]);
                            assert(before.keys().contains(key@));
                        }
                    }
                    assert forall|i: int, j: int| 0 <= i < j < self.keys().len() implies lex_lt(
                        key_bytes(#[trigger] self.keys()[i]),
                        key_bytes(#[trigger] self.keys()[j]),
                    ) by {
                        if j < pos {
                        } else if j == pos {
                        } else if i < pos {
                            assert(lex_lt(key_bytes(before.keys()[i]), kb@));
                            assert(pos < before.keys().len());
                            if pos < j - 1 {
                                assert(lex_lt(
                                    key_bytes(before.keys()[pos as int]),
                                    key_bytes(before.keys()[j - 1]),
                                ));
                                lemma_lex_transitive(
                                    kb@,
                                    key_bytes(before.keys()[pos as int]),
                                    key_bytes(before.keys()[j - 1]),
                                );
                            }
                            lemma_lex_transitive(key_bytes(before.keys()[i]), kb@, key_bytes(before.keys()[j - 1]));
                        } else if i == pos {
                            if pos < j - 1 {
                                assert(lex_lt(
                                    key_bytes(before.keys()[pos as int]),
                                    key_bytes(before.keys()[j - 1]),
                                ));
                                lemma_lex_transitive(
                                    kb@,
                                    key_bytes(before.keys()[pos as int]),
                                    key_bytes(before.keys()[j - 1]),
                                );
                            }
                        } else {
                            assert(lex_lt(key_bytes(before.keys()[i - 1]), key_bytes(before.keys()[j - 1])));
                        }
                    }
                    assert forall|k: Seq<char>| #[trigger] self.view().contains_key(k)
                        == before.view().insert(key@, v).contains_key(k) by {
                        if before.keys().contains(k) {
                            let j = choose|j: int| 0 <= j < before.keys().len() && before.keys()[j] == k;
                            if j < pos {
                                assert(self.keys()[j] == k);
                            } else {
                                assert(self.keys()[j + 1] == k);
                            }
                        }
                        if self.keys().contains(k) && k != key@ {
                            let j = choose|j: int| 0 <= j < self.keys().len() && self.keys()[j] == k;
                            if j < pos {
                                assert(before.keys()[j] == k);
                            } else {
                                assert(before.keys()[j - 1] == k);
                            }
                        }
                        assert(self.keys()[pos as int] == key@);
                    }
                    assert forall|k: Seq<char>| self.view().contains_key(k) implies #[trigger] self.view()[k]
                        == before.view().insert(key@, v)[k] by {
                        let j = self.index_of(k);
                        self.lemma_at(j);
                        if j < pos {
                            before.lemma_at(j);
                        } else if j > pos {
                            before.lemma_at(j - 1);
                        }
                    }
                    assert(self.view() =~= before.view().insert(key@, v));
                }
                None
            },
        }
    }

    /// Remove the entry at position `i`, returning its key and value.
    pub fn remove_at(&mut self, i: usize) -> (e: (String, V))
        requires
            old(self).wf(),
            i < old(self).keys().len(),
        ensures
            final(self).wf(),
            e.0@ == old(self).keys()[i as int],
            e.1 == old(self).values()[i as int],
            final(self).keys() == old(self).keys().remove(i as int),
            final(self).values() == old(self).values().remove(i as int),
            final(self).view() == old(self).view().remove(old(self).keys()[i as int]),
    {
        let ghost before = *self;
        let e = self.entries.remove(i);
        proof {
            assert(self.keys() =~= before.keys().remove(i as int));
            assert(self.values() =~= before.values().remove(i as int));
            let k0 = before.keys()[i as int];
            before.lemma_distinct();
            assert forall|a: int, b: int| 0 <= a < b < self.keys().len() implies lex_lt(
                key_bytes(#[trigger] self.keys()[a]),
                key_bytes(#[trigger] self.keys()[b]),
            ) by {
                let a0 = if a < i { a } else { a + 1 };
                let b0 = if b < i { b } else { b + 1 };
                assert(lex_lt(key_bytes(before.keys()[a0]), key_bytes(before.keys()[b0])));
            }
            assert forall|k: Seq<char>| #[trigger] self.view().contains_key(k)
                == before.view().remove(k0).contains_key(k) by {
                if before.keys().contains(k) && k != k0 {
                    let j = choose|j: int| 0 <= j < before.keys().len() && before.keys()[j] == k;
                    if j < i {
                        assert(self.keys()[j] == k);
                    } else {
                        assert(self.keys()[j - 1] == k);
                    }
                }
                if self.keys().contains(k) {
                    let j = choose|j: int| 0 <= j < self.keys().len() && self.keys()[j] == k;
                    if j < i {
                        assert(before.keys()[j] == k);
                    } else {
                        assert(before.keys()[j + 1] == k);
                    }
                }
            }
            assert forall|k: Seq<char>| self.view().contains_key(k) implies #[trigger] self.view()[k]
                == before.view().remove(k0)[k] by {
                let j = self.index_of(k);
                self.lemma_at(j);
                if j < i {
                    before.lemma_at(j);
                } else {
                    before.lemma_at(j + 1);
                }
            }
            assert(self.view() =~= before.view().remove(k0));
        }
        e
    }

    /// Remove `key`, returning its value if it was present.
    pub fn remove(&mut self, key: &str) -> (r: Option<V>)
        requires
            old(self).wf(),
        ensures
            final(self).wf(),
            final(self).view() == old(self).view().remove(key@),
            r is None <==> !old(self).view().contains_key(key@),
            r matches Some(v) ==> v == old(self).view()[key@],
    {
        match self.find(key) {
            Some(i) => {
                proof {
                    self.lemma_at(i as int);
                }
                let e = self.remove_at(i);
                Some(e.1)
            },
            None => {
                proof {
                    assert(self.view().remove(key@) =~= self.view());
                }
                None
            },
        }
    }

    /// Remove every entry.
    pub fn clear(&mut self)
        ensures
            final(self).wf(),
            final(self).view() == Map::<Seq<char>, V>::empty(),
            final(self).keys().len() == 0,
    {
        self.entries.clear();
        assert(self.view() =~= Map::<Seq<char>, V>::empty());
    }
}

impl<V> Default for StrMap<V> {
    fn default() -> (m: Self)
        ensures
            m.wf(),
            m.view() == Map::<Seq<char>, V>::empty(),
            m.keys().len() == 0,
    {
        StrMap::new()
    }
}

impl<V: Copy> Clone for StrMap<V> {
    fn clone(&self) -> (c: Self)
        ensures
            c.keys() == self.keys(),
            c.values() == self.values(),
            c.wf() == self.wf(),
            c.view() == self.view(),
    {
        let n = self.entries.len();
        let mut entries: Vec<(String, V)> = Vec::with_capacity(n);
        let mut i: usize = 0;
        while i < n
            invariant
                n == self.entries@.len(),
                i <= n,
                entries@.len() == i,
                forall|j: int| 0 <= j < i ==> (#[trigger] entries@[j]).0@ == self.entries@[j].0@ && entries@[j].1 == self.entries@[j].1,
            decreases n - i,
        {
            let k = self.entries[i].0.clone();
            let v = self.entries[i].1;
            entries.push((k, v));
            i = i + 1;
        }
        let c = StrMap { entries };
        assert(c.keys() =~= self.keys());
        assert(c.values() =~= self.values());
        assert(c.view() =~= self.view());
        c
    }
}

} // verus!
