//! The ordered byte-keyed store that commits, refs and rows live in.
//! Entries are kept sorted by key, as the engine that persists them does.
use vstd::prelude::*;
use vstd::slice::slice_to_vec;
use crate::order::{bytes_eq, bytes_lt, has_prefix, lex_lt, lemma_lex_irreflexive, lemma_lex_total, lemma_lex_transitive, starts_with};

verus! {

/// Keys strictly increase in byte order.
pub open spec fn sorted_keys(e: Seq<(Seq<u8>, Seq<u8>)>) -> bool {
    forall|i: int, j: int| 0 <= i < j < e.len() ==> lex_lt(#[trigger] e[i].0, #[trigger] e[j].0)
}

/// `e` holds an entry under `k`.
pub open spec fn has_key(e: Seq<(Seq<u8>, Seq<u8>)>, k: Seq<u8>) -> bool {
    exists|i: int| 0 <= i < e.len() && (#[trigger] e[i]).0 == k
}

/// An index of an entry under `k`, where there is one.
pub open spec fn key_index(e: Seq<(Seq<u8>, Seq<u8>)>, k: Seq<u8>) -> int {
    choose|i: int| 0 <= i < e.len() && (#[trigger] e[i]).0 == k
}

/// The value stored under `k`, if any.
pub open spec fn kv_get(e: Seq<(Seq<u8>, Seq<u8>)>, k: Seq<u8>) -> Option<Seq<u8>> {
    if has_key(e, k) {
        Some(e[key_index(e, k)].1)
    } else {
        None
    }
}

/// The entries whose key starts with `p`, in key order.
pub open spec fn rows_with_prefix(e: Seq<(Seq<u8>, Seq<u8>)>, p: Seq<u8>) -> Seq<(Seq<u8>, Seq<u8>)>
    decreases e.len(),
{
    if e.len() == 0 {
        Seq::empty()
    } else {
        let r = rows_with_prefix(e.drop_last(), p);
        if has_prefix(e.last().0, p) { r.push(e.last()) } else { r }
    }
}

pub proof fn lemma_kv_get_at(e: Seq<(Seq<u8>, Seq<u8>)>, n: int)
    requires
        sorted_keys(e),
        0 <= n < e.len(),
    ensures
        kv_get(e, e[n].0) == Some(e[n].1),
{
    let k = e[n].0;
    assert(has_key(e, k));
    let j = key_index(e, k);
    assert(e[j].0 == k);
    if j != n {
        if n < j {
            assert(lex_lt(e[n].0, e[j].0));
        } else {
            assert(lex_lt(e[j].0, e[n].0));
        }
        lemma_lex_irreflexive(k);
        assert(false);
    }
    assert(kv_get(e, k) == Some(e[j].1));
}

proof fn lemma_get_drop_first(e: Seq<(Seq<u8>, Seq<u8>)>, k: Seq<u8>)
    requires
        sorted_keys(e),
        e.len() > 0,
    ensures
        sorted_keys(e.drop_first()),
        kv_get(e.drop_first(), k) == if k == e[0].0 { None } else { kv_get(e, k) },
{
    let d = e.drop_first();
    assert(sorted_keys(d)) by {
        assert forall|i: int, j: int| 0 <= i < j < d.len() implies lex_lt(#[trigger] d[i].0, #[trigger] d[j].0) by {
            assert(d[i] == e[i + 1] && d[j] == e[j + 1]);
        }
    }
    if has_key(d, k) {
        let i = key_index(d, k);
        assert(d[i] == e[i + 1]);
        lemma_kv_get_at(d, i);
        lemma_kv_get_at(e, i + 1);
        if k == e[0].0 {
            assert(lex_lt(e[0].0, e[i + 1].0));
            lemma_lex_irreflexive(k);
        }
    } else if k != e[0].0 && has_key(e, k) {
        let i = key_index(e, k);
        assert(i != 0);
        assert(d[i - 1] == e[i]);
    }
}

/// Two sorted stores that hold the same value under every key are the same
/// sequence of entries.
pub proof fn lemma_sorted_unique(e1: Seq<(Seq<u8>, Seq<u8>)>, e2: Seq<(Seq<u8>, Seq<u8>)>)
    requires
        sorted_keys(e1),
        sorted_keys(e2),
        forall|k: Seq<u8>| #[trigger] kv_get(e1, k) == kv_get(e2, k),
    ensures
        e1 == e2,
    decreases e1.len() + e2.len(),
{
    if e1.len() == 0 {
        if e2.len() > 0 {
            lemma_kv_get_at(e2, 0);
            assert(kv_get(e1, e2[0].0) is None);
        }
        assert(e1 =~= e2);
    } else if e2.len() == 0 {
        lemma_kv_get_at(e1, 0);
        assert(kv_get(e2, e1[0].0) is None);
    } else {
        let k1 = e1[0].0;
        let k2 = e2[0].0;
        lemma_kv_get_at(e1, 0);
        lemma_kv_get_at(e2, 0);
        let j = key_index(e2, k1);
        let i = key_index(e1, k2);
        assert(has_key(e2, k1));
        assert(has_key(e1, k2));
        if j > 0 {
            assert(lex_lt(e2[0].0, e2[j].0));
        }
        if i > 0 {
            assert(lex_lt(e1[0].0, e1[i].0));
        }
        lemma_lex_total(k1, k2);
        lemma_lex_irreflexive(k1);
        assert(k1 == k2);
        assert(e1[0] == e2[0]);
        assert forall|k: Seq<u8>| #[trigger] kv_get(e1.drop_first(), k) == kv_get(e2.drop_first(), k) by {
            lemma_get_drop_first(e1, k);
            lemma_get_drop_first(e2, k);
        }
        lemma_get_drop_first(e1, k1);
        lemma_get_drop_first(e2, k1);
        lemma_sorted_unique(e1.drop_first(), e2.drop_first());
        assert(e1 =~= seq![e1[0]] + e1.drop_first());
        assert(e2 =~= seq![e2[0]] + e2.drop_first());
    }
}

/// An in-memory ordered key-value store.
pub struct KvStore {
    entries: Vec<(Vec<u8>, Vec<u8>)>,
}

impl View for KvStore {
    type V = Seq<(Seq<u8>, Seq<u8>)>;

    closed spec fn view(&self) -> Seq<(Seq<u8>, Seq<u8>)> {
        self.entries@.map_values(|e: (Vec<u8>, Vec<u8>)| (e.0@, e.1@))
    }
}

impl KvStore {
    pub open spec fn wf(&self) -> bool {
        sorted_keys(self@)
    }

    /// An empty store.
    pub fn new() -> (r: KvStore)
        ensures
            r.wf(),
            r@.len() == 0,
    {
        KvStore { entries: Vec::new() }
    }

    /// The number of entries.
    pub fn len(&self) -> (r: usize)
        ensures
            r == self@.len(),
    {
        self.entries.len()
    }

    /// The first index whose key does not sort before `key`.
    fn position(&self, key: &[u8]) -> (p: usize)
        requires
            self.wf(),
        ensures
            p <= self@.len(),
            forall|j: int| 0 <= j < p ==> lex_lt(#[trigger] self@[j].0, key@),
            p < self@.len() ==> !lex_lt(self@[p as int].0, key@),
    {
        let mut i: usize = 0;
        while i < self.entries.len()
            invariant
                i <= self@.len(),
                self@.len() == self.entries@.len(),
                forall|j: int| 0 <= j < i ==> lex_lt(#[trigger] self@[j].0, key@),
            decreases self@.len() - i,
        {
            if !bytes_lt(self.entries[i].0.as_slice(), key) {
                return i;
            }
            i = i + 1;
        }
        i
    }

    /// The value stored under `key`.
    pub fn get(&self, key: &[u8]) -> (r: Option<Vec<u8>>)
        requires
            self.wf(),
        ensures
            match r {
                Some(v) => kv_get(self@, key@) == Some(v@),
                None => kv_get(self@, key@) is None,
            },
    {
        let p = self.position(key);
        if p < self.entries.len() && bytes_eq(self.entries[p].0.as_slice(), key) {
            proof { lemma_kv_get_at(self@, p as int); }
            Some(slice_to_vec(self.entries[p].1.as_slice()))
        } else {
            proof {
                assert forall|i: int| 0 <= i < self@.len() implies (#[trigger] self@[i]).0 != key@ by {
                    if i < p {
                        lemma_lex_irreflexive(key@);
                    } else if i == p {
                    } else {
                        lemma_lex_total(self@[p as int].0, key@);
                        assert(lex_lt(self@[p as int].0, self@[i].0));
                        if self@[i].0 == key@ {
                            lemma_lex_total(self@[p as int].0, key@);
                        }
                    }
                }
            }
            None
        }
    }

    /// Stores `value` under `key`, replacing what was there.
    pub fn put(&mut self, key: &[u8], value: &[u8])
        requires
            old(self).wf(),
        ensures
            final(self).wf(),
            forall|k: Seq<u8>| #[trigger] kv_get(final(self)@, k) == if k == key@ {
                Some(value@)
            } else {
                kv_get(old(self)@, k)
            },
    {
        let ghost e = self@;
        let p = self.position(key);
        let item = (slice_to_vec(key), slice_to_vec(value));
        if p < self.entries.len() && bytes_eq(self.entries[p].0.as_slice(), key) {
            self.entries.set(p, item);
            assert(self@ =~= e.update(p as int, (key@, value@)));
            assert(sorted_keys(self@)) by {
                assert forall|i: int, j: int| 0 <= i < j < self@.len() implies lex_lt(#[trigger] self@[i].0, #[trigger] self@[j].0) by {
                    assert(self@[i].0 == e[i].0);
                    assert(self@[j].0 == e[j].0);
                }
            }
            assert forall|k: Seq<u8>| #[trigger] kv_get(self@, k) == if k == key@ { Some(value@) } else { kv_get(e, k) } by {
                if k == key@ {
                    lemma_kv_get_at(self@, p as int);
                } else if has_key(e, k) {
                    let i = choose|i: int| 0 <= i < e.len() && (#[trigger] e[i]).0 == k;
                    lemma_kv_get_at(e, i);
                    lemma_kv_get_at(self@, i);
                } else {
                    assert forall|i: int| 0 <= i < self@.len() implies (#[trigger] self@[i]).0 != k by {
                        if i != p {
                            assert(self@[i] == e[i]);
                        }
                    }
                }
            }
        } else {
            if p < self.entries.len() {
                proof { lemma_lex_total(e[p as int].0, key@); }
            }
            self.entries.insert(p, item);
            assert(self@ =~= e.insert(p as int, (key@, value@)));
            assert(sorted_keys(self@)) by {
                assert forall|i: int, j: int| 0 <= i < j < self@.len() implies lex_lt(#[trigger] self@[i].0, #[trigger] self@[j].0) by {
                    if j < p {
                    } else if j == p {
                    } else if i < p {
                        assert(self@[j] == e[j - 1]);
                        assert(lex_lt(key@, e[p as int].0));
                        if j - 1 > p {
                            lemma_lex_transitive(key@, e[p as int].0, e[j - 1].0);
                        }
                        lemma_lex_transitive(e[i].0, key@, e[j - 1].0);
                    } else if i == p {
                        assert(self@[j] == e[j - 1]);
                        if j - 1 > p {
                            lemma_lex_transitive(key@, e[p as int].0, e[j - 1].0);
                        }
                    } else {
                        assert(self@[i] == e[i - 1]);
                        assert(self@[j] == e[j - 1]);
                    }
                }
            }
            assert forall|k: Seq<u8>| #[trigger] kv_get(self@, k) == if k == key@ { Some(value@) } else { kv_get(e, k) } by {
                if k == key@ {
                    lemma_kv_get_at(self@, p as int);
                } else if has_key(e, k) {
                    let i = choose|i: int| 0 <= i < e.len() && (#[trigger] e[i]).0 == k;
                    lemma_kv_get_at(e, i);
                    if i < p {
                        assert(self@[i] == e[i]);
                        lemma_kv_get_at(self@, i);
                    } else {
                        assert(self@[i + 1] == e[i]);
                        lemma_kv_get_at(self@, i + 1);
                    }
                } else {
                    assert forall|i: int| 0 <= i < self@.len() implies (#[trigger] self@[i]).0 != k by {
                        if i < p {
                            assert(self@[i] == e[i]);
                        } else if i > p {
                            assert(self@[i] == e[i - 1]);
                        }
                    }
                }
            }
        }
    }

    /// Removes the entry under `key`, if there is one.
    pub fn delete(&mut self, key: &[u8])
        requires
            old(self).wf(),
        ensures
            final(self).wf(),
            forall|k: Seq<u8>| #[trigger] kv_get(final(self)@, k) == if k == key@ {
                None
            } else {
                kv_get(old(self)@, k)
            },
    {
        let ghost e = self@;
        let p = self.position(key);
        if p < self.entries.len() && bytes_eq(self.entries[p].0.as_slice(), key) {
            self.entries.remove(p);
            assert(self@ =~= e.remove(p as int));
            assert(sorted_keys(self@)) by {
                assert forall|i: int, j: int| 0 <= i < j < self@.len() implies lex_lt(#[trigger] self@[i].0, #[trigger] self@[j].0) by {
                    let ii = if i < p { i } else { i + 1 };
                    let jj = if j < p { j } else { j + 1 };
                    assert(self@[i] == e[ii]);
                    assert(self@[j] == e[jj]);
                }
            }
            assert forall|k: Seq<u8>| #[trigger] kv_get(self@, k) == if k == key@ { None } else { kv_get(e, k) } by {
                if k == key@ {
                    assert forall|i: int| 0 <= i < self@.len() implies (#[trigger] self@[i]).0 != k by {
                        let ii = if i < p { i } else { i + 1 };
                        assert(self@[i] == e[ii]);
                        if ii < p {
                            assert(lex_lt(e[ii].0, e[p as int].0));
                        } else {
                            assert(lex_lt(e[p as int].0, e[ii].0));
                        }
                        lemma_lex_irreflexive(k);
                    }
                } else if has_key(e, k) {
                    let i = choose|i: int| 0 <= i < e.len() && (#[trigger] e[i]).0 == k;
                    lemma_kv_get_at(e, i);
                    if i < p {
                        assert(self@[i] == e[i]);
                        lemma_kv_get_at(self@, i);
                    } else {
                        assert(self@[i - 1] == e[i]);
                        lemma_kv_get_at(self@, i - 1);
                    }
                } else {
                    assert forall|i: int| 0 <= i < self@.len() implies (#[trigger] self@[i]).0 != k by {
                        let ii = if i < p { i } else { i + 1 };
                        assert(self@[i] == e[ii]);
                    }
                }
            }
        } else {
            assert forall|k: Seq<u8>| #[trigger] kv_get(self@, k) == if k == key@ { None } else { kv_get(e, k) } by {
                if k == key@ {
                    assert forall|i: int| 0 <= i < self@.len() implies (#[trigger] self@[i]).0 != k by {
                        if i < p {
                            lemma_lex_irreflexive(key@);
                        } else if i > p {
                            lemma_lex_total(self@[p as int].0, key@);
                            if self@[i].0 == key@ {
                                assert(lex_lt(self@[p as int].0, self@[i].0));
                            }
                        }
                    }
                }
            }
        }
    }

    /// The entries whose key starts with `prefix`, in ascending key order.
    pub fn prefix_scan(&self, prefix: &[u8]) -> (r: Vec<(Vec<u8>, Vec<u8>)>)
        ensures
            r@.map_values(|e: (Vec<u8>, Vec<u8>)| (e.0@, e.1@)) == rows_with_prefix(self@, prefix@),
    {
        let mut out: Vec<(Vec<u8>, Vec<u8>)> = Vec::new();
        let mut i: usize = 0;
        while i < self.entries.len()
            invariant
                i <= self@.len(),
                self@.len() == self.entries@.len(),
                out@.map_values(|e: (Vec<u8>, Vec<u8>)| (e.0@, e.1@)) == rows_with_prefix(self@.take(i as int), prefix@),
            decreases self@.len() - i,
        {
            assert(self@.take(i + 1).drop_last() =~= self@.take(i as int));
            if starts_with(self.entries[i].0.as_slice(), prefix) {
                out.push((slice_to_vec(self.entries[i].0.as_slice()), slice_to_vec(self.entries[i].1.as_slice())));
                assert(out@.map_values(|e: (Vec<u8>, Vec<u8>)| (e.0@, e.1@)) =~= rows_with_prefix(self@.take(i as int), prefix@).push(self@[i as int]));
            }
            i = i + 1;
        }
        assert(self@.take(i as int) =~= self@);
        out
    }

    /// Every entry, in ascending key order.
    pub fn full_scan(&self) -> (r: Vec<(Vec<u8>, Vec<u8>)>)
        ensures
            r@.map_values(|e: (Vec<u8>, Vec<u8>)| (e.0@, e.1@)) == self@,
    {
        let mut out: Vec<(Vec<u8>, Vec<u8>)> = Vec::new();
        let mut i: usize = 0;
        while i < self.entries.len()
            invariant
                i <= self@.len(),
                self@.len() == self.entries@.len(),
                out@.map_values(|e: (Vec<u8>, Vec<u8>)| (e.0@, e.1@)) == self@.take(i as int),
            decreases self@.len() - i,
        {
            let ghost before = out@;
            out.push((slice_to_vec(self.entries[i].0.as_slice()), slice_to_vec(self.entries[i].1.as_slice())));
            assert(self@[i as int] == (self.entries@[i as int].0@, self.entries@[i as int].1@));
            assert(self@.take(i + 1) =~= self@.take(i as int).push(self@[i as int]));
            assert(out@ =~= before.push(out@[i as int]));
            assert(out@.map_values(|e: (Vec<u8>, Vec<u8>)| (e.0@, e.1@)) =~= self@.take(i + 1));
            i = i + 1;
        }
        assert(self@.take(i as int) =~= self@);
        out
    }
}

} // verus!
