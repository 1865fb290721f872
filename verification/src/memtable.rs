//! The in-memory write buffer: a sorted vector of key/value entries kept in
//! strictly ascending key order, with a byte counter that is exactly the sum
//! of the lengths of all resident keys and values.

use vstd::prelude::*;
use crate::keys::{
    byte_sum, keys_sorted, kv_contains, kv_idx, kv_map, lex_lt, lemma_kv_insert, lemma_kv_map_at,
    lemma_kv_remove, lemma_lex_connex, lemma_lex_irrefl, lemma_lex_trans, pairs_view, key_eq,
    key_lt, KvSeq,
};
use crate::wal::{
    wal_end_pos, wal_first_err, wal_ops, wal_replayable, wal_step, CommandLog, LogRecord,
    LogRecordView, WalError,
};

verus! {

/// One journal operation applied to a map: an insertion stores its value,
/// and a removal stores the tombstone — exactly what the live engine does
/// to its buffer, so replaying reconstructs the buffer as it stood.
pub open spec fn apply_op(m: Map<Seq<u8>, Seq<u8>>, op: LogRecordView) -> Map<Seq<u8>, Seq<u8>> {
    match op {
        LogRecordView::Insert(k, v) => m.insert(k, v),
        LogRecordView::Remove(k) => m.insert(k, seq![0u8]),
    }
}

/// A run of journal operations applied in order.
pub open spec fn apply_ops(m: Map<Seq<u8>, Seq<u8>>, ops: Seq<LogRecordView>) -> Map<
    Seq<u8>,
    Seq<u8>,
>
    decreases ops.len(),
{
    if ops.len() == 0 {
        m
    } else {
        apply_ops(apply_op(m, ops.first()), ops.drop_first())
    }
}

pub proof fn lemma_apply_ops_cons(m: Map<Seq<u8>, Seq<u8>>, op: LogRecordView, ops: Seq<
    LogRecordView,
>)
    ensures
        apply_ops(m, seq![op] + ops) == apply_ops(apply_op(m, op), ops),
{
    assert((seq![op] + ops).first() == op);
    assert((seq![op] + ops).drop_first() =~= ops);
}

pub proof fn lemma_apply_ops_snoc(m: Map<Seq<u8>, Seq<u8>>, ops: Seq<LogRecordView>, op: LogRecordView)
    ensures
        apply_ops(m, ops.push(op)) == apply_op(apply_ops(m, ops), op),
    decreases ops.len(),
{
    if ops.len() == 0 {
        assert(ops.push(op).first() == op);
        assert(ops.push(op).drop_first() =~= Seq::<LogRecordView>::empty());
        assert(apply_ops(m, ops.push(op)) == apply_ops(
            apply_op(m, op),
            Seq::<LogRecordView>::empty(),
        ));
        assert(apply_ops(apply_op(m, op), Seq::<LogRecordView>::empty()) == apply_op(m, op));
        assert(apply_ops(m, ops) == m);
    } else {
        assert(ops.push(op).first() == ops.first());
        assert(ops.push(op).drop_first() =~= ops.drop_first().push(op));
        assert(apply_ops(m, ops.push(op)) == apply_ops(
            apply_op(m, ops.first()),
            ops.drop_first().push(op),
        ));
        lemma_apply_ops_snoc(apply_op(m, ops.first()), ops.drop_first(), op);
        assert(apply_ops(m, ops) == apply_ops(apply_op(m, ops.first()), ops.drop_first()));
    }
}

/// The position of the first entry whose key is not below `key`: where `key`
/// lives if present, and where it belongs if not.
fn lower_bound(entries: &Vec<(Vec<u8>, Vec<u8>)>, key: &[u8]) -> (i: usize)
    requires
        keys_sorted(pairs_view(entries@)),
    ensures
        i <= entries@.len(),
        forall|j: int| 0 <= j < i ==> lex_lt((#[trigger] pairs_view(entries@)[j]).0, key@),
        forall|j: int|
            i <= j < entries@.len() ==> !lex_lt((#[trigger] pairs_view(entries@)[j]).0, key@),
{
    let ghost s = pairs_view(entries@);
    let n: usize = entries.len();
    let mut i: usize = 0;
    while i < n
        invariant
            i <= n,
            n == entries@.len(),
            s == pairs_view(entries@),
            keys_sorted(s),
            forall|j: int| 0 <= j < i ==> lex_lt((#[trigger] s[j]).0, key@),
        decreases n - i,
    {
        let e = &entries[i];
        proof {
            assert(s[i as int].0 == e.0@);
        }
        if !key_lt(e.0.as_slice(), key) {
            proof {
                assert forall|j: int| i <= j < n implies !lex_lt((#[trigger] s[j]).0, key@) by {
                    if j > i && lex_lt(s[j].0, key@) {
                        assert(lex_lt(s[i as int].0, s[j].0));
                        lemma_lex_trans(s[i as int].0, s[j].0, key@);
                    }
                }
            }
            return i;
        }
        i = i + 1;
    }
    i
}

pub struct MemTable {
    entries: Vec<(Vec<u8>, Vec<u8>)>,
    bytes: usize,
}

impl View for MemTable {
    type V = Map<Seq<u8>, Seq<u8>>;

    open spec fn view(&self) -> Map<Seq<u8>, Seq<u8>> {
        kv_map(self.spec_entries())
    }
}

impl Default for MemTable {
    fn default() -> (r: MemTable)
        ensures
            r.inv(),
            r@ == Map::<Seq<u8>, Seq<u8>>::empty(),
            r.spec_entries() == KvSeq::empty(),
            r.spec_bytes() == 0,
    {
        MemTable::new()
    }
}

impl MemTable {
    /// The entries in storage order.
    pub closed spec fn spec_entries(&self) -> KvSeq {
        pairs_view(self.entries@)
    }

    pub closed spec fn spec_bytes(&self) -> int {
        self.bytes as int
    }

    /// Entries strictly ascending, each short enough to encode, and the
    /// byte counter exact.
    pub open spec fn inv(&self) -> bool {
        &&& keys_sorted(self.spec_entries())
        &&& self.spec_bytes() == byte_sum(self.spec_entries())
        &&& forall|i: int|
            0 <= i < self.spec_entries().len() ==> (#[trigger] self.spec_entries()[i]).0.len()
                <= u32::MAX && self.spec_entries()[i].1.len() <= u32::MAX
    }

    pub fn new() -> (r: MemTable)
        ensures
            r.inv(),
            r@ == Map::<Seq<u8>, Seq<u8>>::empty(),
            r.spec_entries() == KvSeq::empty(),
            r.spec_bytes() == 0,
    {
        let r = MemTable { entries: Vec::new(), bytes: 0 };
        proof {
            assert(r.spec_entries() =~= KvSeq::empty());
            assert forall|q: Seq<u8>| !r@.dom().contains(q) by {
                assert(!kv_contains(r.spec_entries(), q));
            }
            assert(r@.dom() =~= Set::<Seq<u8>>::empty());
            assert(r@ =~= Map::<Seq<u8>, Seq<u8>>::empty());
        }
        r
    }

    pub fn get(&self, key: &[u8]) -> (r: Option<&Vec<u8>>)
        requires
            self.inv(),
        ensures
            match r {
                Some(v) => self@.contains_key(key@) && v@ == self@[key@],
                None => !self@.contains_key(key@),
            },
    {
        let ghost s = self.spec_entries();
        let i: usize = lower_bound(&self.entries, key);
        if i < self.entries.len() {
            let e = &self.entries[i];
            proof {
                assert(s[i as int].0 == e.0@);
            }
            if key_eq(e.0.as_slice(), key) {
                proof {
                    lemma_kv_map_at(s, i as int);
                }
                return Some(&self.entries[i].1);
            }
        }
        proof {
            self.lemma_absent_after_search(s, i as int, key@);
        }
        None
    }

    /// After a failed search ending at `i`, the key is not in the map.
    proof fn lemma_absent_after_search(&self, s: KvSeq, i: int, key: Seq<u8>)
        requires
            self.inv(),
            s == self.spec_entries(),
            0 <= i <= s.len(),
            forall|j: int| 0 <= j < i ==> lex_lt((#[trigger] s[j]).0, key),
            forall|j: int| i <= j < s.len() ==> !lex_lt((#[trigger] s[j]).0, key),
            i < s.len() ==> s[i].0 != key,
        ensures
            !self@.contains_key(key),
    {
        if self@.contains_key(key) {
            assert(kv_contains(s, key));
            let w: int = kv_idx(s, key);
            assert(s[w].0 == key);
            lemma_lex_irrefl(key);
            if w < i {
                assert(lex_lt(s[w].0, key));
            } else if w > i {
                assert(lex_lt(s[i].0, s[w].0));
                assert(!lex_lt(s[i].0, key));
            }
            assert(false);
        }
    }

    /// Inserts or replaces; returns the value previously under the key.
    pub fn insert(&mut self, key: Vec<u8>, val: Vec<u8>) -> (r: Option<Vec<u8>>)
        requires
            old(self).inv(),
            key@.len() <= u32::MAX,
            val@.len() <= u32::MAX,
            old(self).spec_bytes() + key@.len() + val@.len() <= usize::MAX,
        ensures
            final(self).inv(),
            final(self)@ == old(self)@.insert(key@, val@),
            final(self).spec_bytes() <= old(self).spec_bytes() + key@.len() + val@.len(),
            match r {
                Some(p) => old(self)@.contains_key(key@) && p@ == old(self)@[key@],
                None => !old(self)@.contains_key(key@),
            },
    {
        let ghost s0: KvSeq = self.spec_entries();
        let i: usize = lower_bound(&self.entries, key.as_slice());
        let n: usize = self.entries.len();
        let klen: usize = key.len();
        let vlen: usize = val.len();
        if i < n {
            let hit: bool = key_eq(self.entries[i].0.as_slice(), key.as_slice());
            proof {
                assert(s0[i as int].0 == self.entries@[i as int].0@);
            }
            if hit {
                let ghost s = self.spec_entries();
                proof {
                    lemma_kv_remove(s, i as int);
                    crate::keys::lemma_byte_sum_remove(s, i as int);
                    lemma_kv_map_at(s, i as int);
                }
                let old_pair = self.entries.remove(i);
                proof {
                    assert(pairs_view(self.entries@) =~= s.remove(i as int));
                }
                let ghost s1 = self.spec_entries();
                proof {
                    assert forall|j: int| 0 <= j < i implies lex_lt((#[trigger] s1[j]).0, key@) by {
                        assert(s1[j] == s[j]);
                    }
                    assert forall|j: int| i <= j < s1.len() implies lex_lt(
                        key@,
                        (#[trigger] s1[j]).0,
                    ) by {
                        assert(s1[j] == s[j + 1]);
                        assert(lex_lt(s[i as int].0, s[j + 1].0));
                    }
                    lemma_kv_insert(s1, i as int, key@, val@);
                    crate::keys::lemma_byte_sum_insert(s1, i as int, key@, val@);
                }
                self.bytes = self.bytes - (old_pair.0.len() + old_pair.1.len());
                self.bytes = self.bytes + klen + vlen;
                self.entries.insert(i, (key, val));
                proof {
                    assert(pairs_view(self.entries@) =~= s1.insert(i as int, (key@, val@)));
                    assert(self@ =~= old(self)@.insert(key@, val@));
                }
                return Some(old_pair.1);
            }
        }
        // fresh key: everything from `i` on is strictly greater
        proof {
            assert forall|j: int| i <= j < s0.len() implies lex_lt(key@, (#[trigger] s0[j]).0) by {
                assert(!lex_lt(s0[j].0, key@));
                if !lex_lt(key@, s0[j].0) {
                    lemma_lex_connex(key@, s0[j].0);
                    if j == i {
                        assert(s0[i as int].0 == key@);
                        assert(false);
                    } else {
                        assert(lex_lt(s0[i as int].0, s0[j].0));
                        assert(!lex_lt(s0[i as int].0, key@));
                        assert(false);
                    }
                }
            }
            lemma_kv_insert(s0, i as int, key@, val@);
            crate::keys::lemma_byte_sum_insert(s0, i as int, key@, val@);
            self.lemma_absent_after_search(s0, i as int, key@);
        }
        self.bytes = self.bytes + klen + vlen;
        self.entries.insert(i, (key, val));
        proof {
            assert(pairs_view(self.entries@) =~= s0.insert(i as int, (key@, val@)));
            assert(self@ =~= old(self)@.insert(key@, val@));
        }
        None
    }

    /// Removes; returns the value previously under the key.
    pub fn remove(&mut self, key: &[u8]) -> (r: Option<Vec<u8>>)
        requires
            old(self).inv(),
        ensures
            final(self).inv(),
            final(self)@ == old(self)@.remove(key@),
            final(self).spec_bytes() <= old(self).spec_bytes(),
            match r {
                Some(p) => old(self)@.contains_key(key@) && p@ == old(self)@[key@],
                None => !old(self)@.contains_key(key@),
            },
    {
        let ghost s = self.spec_entries();
        let i: usize = lower_bound(&self.entries, key);
        if i < self.entries.len() {
            let hit: bool = key_eq(self.entries[i].0.as_slice(), key);
            proof {
                assert(s[i as int].0 == self.entries@[i as int].0@);
            }
            if hit {
                proof {
                    lemma_kv_remove(s, i as int);
                    crate::keys::lemma_byte_sum_remove(s, i as int);
                    lemma_kv_map_at(s, i as int);
                }
                let old_pair = self.entries.remove(i);
                self.bytes = self.bytes - (old_pair.0.len() + old_pair.1.len());
                proof {
                    assert(pairs_view(self.entries@) =~= s.remove(i as int));
                    assert(self@ =~= old(self)@.remove(key@));
                }
                return Some(old_pair.1);
            }
        }
        proof {
            self.lemma_absent_after_search(s, i as int, key@);
            assert(self@ =~= old(self)@.remove(key@));
        }
        None
    }

    /// The number of resident entries.
    pub fn size(&self) -> (r: usize)
        ensures
            r == self.spec_entries().len(),
    {
        self.entries.len()
    }

    /// The exact number of payload bytes resident.
    pub fn size_in_bytes(&self) -> (r: usize)
        ensures
            r == self.spec_bytes(),
    {
        self.bytes
    }

    /// The entry at one position, cloned.
    pub fn entry_at(&self, i: usize) -> (r: (Vec<u8>, Vec<u8>))
        requires
            i < self.spec_entries().len(),
        ensures
            r.0@ == self.spec_entries()[i as int].0,
            r.1@ == self.spec_entries()[i as int].1,
    {
        let e = &self.entries[i];
        (e.0.clone(), e.1.clone())
    }

    /// Rebuilds the buffer from a journal: operations are applied in write
    /// order, a removal leaving the tombstone the live buffer would hold.
    /// Replay stops at the journal's end, a truncated tail, or an entry
    /// whose checksum does not match — what a crash mid-append leaves —
    /// keeping everything decoded before that point. Only an entry with an
    /// unknown tag refuses the journal, with that entry's error.
    pub fn from_log(log: &mut CommandLog) -> (r: Result<MemTable, WalError>)
        requires
            old(log).inv(),
        ensures
            final(log).inv(),
            final(log).spec_buf() == old(log).spec_buf(),
            ({
                let buf = old(log).spec_buf();
                let pos0 = old(log).spec_pos();
                match r {
                    Ok(m) => {
                        &&& wal_replayable(buf, pos0)
                        &&& m.inv()
                        &&& m@ == apply_ops(Map::<Seq<u8>, Seq<u8>>::empty(), wal_ops(buf, pos0))
                        &&& final(log).spec_pos() == wal_end_pos(buf, pos0)
                    },
                    Err(e) => !wal_replayable(buf, pos0) && e == wal_first_err(buf, pos0),
                }
            }),
    {
        let mut m = MemTable::new();
        let ghost buf = log.spec_buf();
        let ghost pos0 = log.spec_pos();
        let buf_len: usize = log.bytes().len();
        loop
            invariant
                log.inv(),
                m.inv(),
                buf == old(log).spec_buf(),
                pos0 == old(log).spec_pos(),
                0 <= pos0 <= buf.len(),
                buf.len() == buf_len,
                log.spec_buf() == buf,
                m.spec_bytes() <= log.spec_pos(),
                apply_ops(m@, wal_ops(buf, log.spec_pos())) == apply_ops(
                    Map::<Seq<u8>, Seq<u8>>::empty(),
                    wal_ops(buf, pos0),
                ),
                wal_replayable(buf, log.spec_pos()) == wal_replayable(buf, pos0),
                wal_end_pos(buf, log.spec_pos()) == wal_end_pos(buf, pos0),
                !wal_replayable(buf, pos0) ==> wal_first_err(buf, log.spec_pos()) == wal_first_err(
                    buf,
                    pos0,
                ),
            decreases buf.len() - log.spec_pos(),
        {
            let ghost pos = log.spec_pos();
            let ghost step = wal_step(buf, pos);
            match log.next_record() {
                Ok(rec) => {
                    let ghost rv = step->Rec_0;
                    let ghost next = step->Rec_1;
                    proof {
                        lemma_apply_ops_cons(m@, rv, wal_ops(buf, next));
                        assert(wal_ops(buf, pos) =~= seq![rv] + wal_ops(buf, next));
                    }
                    match rec {
                        LogRecord::Insert(k, v) => {
                            proof {
                                crate::codec::lemma_le_val4_bound(buf.subrange(pos + 5, pos + 9));
                                crate::codec::lemma_le_val4_bound(buf.subrange(pos + 9, pos + 13));
                                assert(k@.len() + v@.len() + 13 + pos == next);
                                assert(m.spec_bytes() + k@.len() + v@.len() <= usize::MAX);
                            }
                            m.insert(k, v);
                        },
                        LogRecord::Remove(k) => {
                            proof {
                                crate::codec::lemma_le_val4_bound(buf.subrange(pos + 5, pos + 9));
                                assert(k@.len() + 9 + pos == next);
                                assert(m.spec_bytes() + k@.len() + 1 <= usize::MAX);
                            }
                            let tomb: Vec<u8> = vec![0u8];
                            proof {
                                assert(tomb@ =~= seq![0u8]);
                            }
                            m.insert(k, tomb);
                        },
                    }
                },
                Err(e) => {
                    match e {
                        WalError::UnexpectedEof => {
                            proof {
                                assert(wal_ops(buf, log.spec_pos()) =~= Seq::<
                                    LogRecordView,
                                >::empty());
                            }
                            return Ok(m);
                        },
                        WalError::CorruptedData { .. } => {
                            // a mismatched checksum is a crash mid-append:
                            // keep what decoded before it
                            proof {
                                assert(wal_ops(buf, log.spec_pos()) =~= Seq::<
                                    LogRecordView,
                                >::empty());
                            }
                            return Ok(m);
                        },
                        _ => {
                            return Err(e);
                        },
                    }
                },
            }
        }
    }
}

} // verus!
