//! The sparse index of a sorted string table: an ordered map from a subset
//! of the table's keys to their byte offsets in the data image, used to
//! bound the linear scan a point lookup must make.

use vstd::prelude::*;
use crate::keys::{
    key_eq, key_lt, keys_sorted, kv_contains, kv_idx, kv_map, lemma_kv_insert, lemma_kv_map_at,
    lemma_kv_remove, lemma_lex_connex, lemma_lex_irrefl, lemma_lex_trans, lex_lt,
    lemma_lower_bound_unique, spec_lower_bound,
};

verus! {

/// The model of a vector of key/offset pairs.
pub open spec fn offsets_view(s: Seq<(Vec<u8>, u64)>) -> Seq<(Seq<u8>, u64)> {
    Seq::new(s.len(), |i: int| (s[i].0@, s[i].1))
}

pub struct SstableIndex {
    entries: Vec<(Vec<u8>, u64)>,
}

impl SstableIndex {
    /// The indexed keys and their offsets, in storage order.
    pub closed spec fn spec_entries(&self) -> Seq<(Seq<u8>, u64)> {
        offsets_view(self.entries@)
    }

    /// The map the index denotes.
    pub open spec fn spec_map(&self) -> Map<Seq<u8>, u64> {
        kv_map(self.spec_entries())
    }

    pub open spec fn inv(&self) -> bool {
        keys_sorted(self.spec_entries())
    }

    pub fn new() -> (r: SstableIndex)
        ensures
            r.inv(),
            r.spec_entries() == Seq::<(Seq<u8>, u64)>::empty(),
    {
        let r = SstableIndex { entries: Vec::new() };
        proof {
            assert(r.spec_entries() =~= Seq::<(Seq<u8>, u64)>::empty());
        }
        r
    }

    /// Wraps an already sorted vector of key/offset pairs.
    pub fn from_entries(entries: Vec<(Vec<u8>, u64)>) -> (r: SstableIndex)
        requires
            keys_sorted(offsets_view(entries@)),
        ensures
            r.inv(),
            r.spec_entries() == offsets_view(entries@),
    {
        SstableIndex { entries }
    }

    /// The number of indexed keys.
    pub fn len(&self) -> (r: usize)
        ensures
            r == self.spec_entries().len(),
    {
        self.entries.len()
    }

    /// The entry at one position, cloned.
    pub fn entry_at(&self, i: usize) -> (r: (Vec<u8>, u64))
        requires
            i < self.spec_entries().len(),
        ensures
            r.0@ == self.spec_entries()[i as int].0,
            r.1 == self.spec_entries()[i as int].1,
    {
        let e = &self.entries[i];
        (e.0.clone(), e.1)
    }

    fn lower_bound(&self, key: &[u8]) -> (i: usize)
        requires
            self.inv(),
        ensures
            i <= self.spec_entries().len(),
            forall|j: int| 0 <= j < i ==> lex_lt((#[trigger] self.spec_entries()[j]).0, key@),
            forall|j: int|
                i <= j < self.spec_entries().len() ==> !lex_lt(
                    (#[trigger] self.spec_entries()[j]).0,
                    key@,
                ),
    {
        let ghost s = self.spec_entries();
        let n: usize = self.entries.len();
        let mut i: usize = 0;
        while i < n
            invariant
                i <= n,
                n == self.entries@.len(),
                s == self.spec_entries(),
                keys_sorted(s),
                forall|j: int| 0 <= j < i ==> lex_lt((#[trigger] s[j]).0, key@),
            decreases n - i,
        {
            let e = &self.entries[i];
            proof {
                assert(s[i as int].0 == e.0@);
            }
            if !key_lt(e.0.as_slice(), key) {
                proof {
                    assert forall|j: int| i <= j < n implies !lex_lt((#[trigger] s[j]).0, key@) by {
                        if j > i && lex_lt(s[j].0, key@) {
                            assert(lex_lt(s[i as int].0, s[j].0));
                            lemma_lex_trans(s[i as int].0, s[j].0, key@);
                        }
                    }
                }
                return i;
            }
            i = i + 1;
        }
        i
    }

    /// The offset stored for an exactly matching indexed key.
    pub fn get(&self, key: &[u8]) -> (r: Option<u64>)
        requires
            self.inv(),
        ensures
            match r {
                Some(p) => self.spec_map().contains_key(key@) && p == self.spec_map()[key@],
                None => !self.spec_map().contains_key(key@),
            },
    {
        let ghost s = self.spec_entries();
        let i: usize = self.lower_bound(key);
        if i < self.entries.len() {
            let e = &self.entries[i];
            proof {
                assert(s[i as int].0 == e.0@);
            }
            if key_eq(e.0.as_slice(), key) {
                proof {
                    lemma_kv_map_at(s, i as int);
                }
                return Some(e.1);
            }
        }
        proof {
            if self.spec_map().contains_key(key@) {
                assert(kv_contains(s, key@));
                let w: int = kv_idx(s, key@);
                assert(s[w].0 == key@);
                lemma_lex_irrefl(key@);
                if w > i {
                    assert(lex_lt(s[i as int].0, s[w].0));
                    assert(!lex_lt(s[i as int].0, key@));
                }
                assert(false);
            }
        }
        None
    }

    /// Records an offset for a key. A key above every present key — the only
    /// shape the table writer produces — is appended at the end.
    pub fn insert(&mut self, key: Vec<u8>, val: u64)
        requires
            old(self).inv(),
        ensures
            final(self).inv(),
            final(self).spec_map() == old(self).spec_map().insert(key@, val),
            (forall|j: int|
                0 <= j < old(self).spec_entries().len() ==> lex_lt(
                    (#[trigger] old(self).spec_entries()[j]).0,
                    key@,
                )) ==> final(self).spec_entries() == old(self).spec_entries().push((key@, val)),
    {
        let ghost s0 = self.spec_entries();
        let i: usize = self.lower_bound(key.as_slice());
        let n: usize = self.entries.len();
        if i < n {
            let hit: bool = key_eq(self.entries[i].0.as_slice(), key.as_slice());
            proof {
                assert(s0[i as int].0 == self.entries@[i as int].0@);
            }
            if hit {
                let ghost s = self.spec_entries();
                proof {
                    lemma_kv_remove(s, i as int);
                    lemma_kv_map_at(s, i as int);
                }
                self.entries.remove(i);
                proof {
                    assert(offsets_view(self.entries@) =~= s.remove(i as int));
                }
                let ghost s1 = self.spec_entries();
                proof {
                    assert forall|j: int| 0 <= j < i implies lex_lt((#[trigger] s1[j]).0, key@) by {
                        assert(s1[j] == s[j]);
                    }
                    assert forall|j: int| i <= j < s1.len() implies lex_lt(
                        key@,
                        (#[trigger] s1[j]).0,
                    ) by {
                        assert(s1[j] == s[j + 1]);
                        assert(lex_lt(s[i as int].0, s[j + 1].0));
                    }
                    lemma_kv_insert(s1, i as int, key@, val);
                    lemma_lex_irrefl(key@);
                }
                self.entries.insert(i, (key, val));
                proof {
                    assert(offsets_view(self.entries@) =~= s1.insert(i as int, (key@, val)));
                    assert(self.spec_map() =~= old(self).spec_map().insert(key@, val));
                }
                return ;
            }
        }
        proof {
            assert forall|j: int| i <= j < s0.len() implies lex_lt(key@, (#[trigger] s0[j]).0) by {
                assert(!lex_lt(s0[j].0, key@));
                if !lex_lt(key@, s0[j].0) {
                    lemma_lex_connex(key@, s0[j].0);
                    if j == i {
                        assert(s0[i as int].0 == key@);
                        assert(false);
                    } else {
                        assert(lex_lt(s0[i as int].0, s0[j].0));
                        assert(!lex_lt(s0[i as int].0, key@));
                        assert(false);
                    }
                }
            }
            lemma_kv_insert(s0, i as int, key@, val);
        }
        self.entries.insert(i, (key, val));
        proof {
            assert(offsets_view(self.entries@) =~= s0.insert(i as int, (key@, val)));
            if i == n {
                assert(offsets_view(self.entries@) =~= s0.push((key@, val)));
            } else {
                assert(!lex_lt(s0[i as int].0, key@));
            }
        }
    }

    /// The scan window for a key that is not itself indexed: from the offset
    /// of the greatest indexed key below it (or the start of the data), to
    /// the offset of the least indexed key not below it (or `size_bytes`).
    pub fn position_range(&self, key: &[u8], size_bytes: u64) -> (r: (u64, u64))
        requires
            self.inv(),
        ensures
            ({
                let s = self.spec_entries();
                let i = spec_lower_bound(s, key@);
                &&& r.0 == (if i > 0 {
                    s[i - 1].1
                } else {
                    0u64
                })
                &&& r.1 == (if i < s.len() {
                    s[i].1
                } else {
                    size_bytes
                })
            }),
    {
        let ghost s = self.spec_entries();
        let i: usize = self.lower_bound(key);
        let n: usize = self.entries.len();
        let start: u64 = if i > 0 {
            self.entries[i - 1].1
        } else {
            0
        };
        let end: u64 = if i < n {
            self.entries[i].1
        } else {
            size_bytes
        };
        proof {
            lemma_lower_bound_unique(s, key@, i as int);
            assert(i > 0 ==> s[i - 1].1 == self.entries@[i - 1].1);
            assert(i < n ==> s[i as int].1 == self.entries@[i as int].1);
        }
        (start, end)
    }
}

} // verus!
