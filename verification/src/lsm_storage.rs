//! The engine: the write-ahead log and the sorted write buffer in front of
//! five levels of immutable sorted string tables. A lookup walks the buffer
//! first, then the levels from the shallowest down, and within a level from
//! the newest table back; the first hit wins, and a tombstone hit reads as
//! absent.

use vstd::prelude::*;
use crate::config::Config;
use crate::memtable::{apply_ops, MemTable};
use crate::kv::ByteString;
use crate::sstable::{all_wf, is_tombstone, merge_keep, table_get, tables_lookup, SsTable};
use crate::sstable_metadata::SSTABLE_MAX_LEVEL;
use crate::wal::{
    insert_record_len, lemma_insert_record_parses, lemma_remove_record_parses, lemma_wal_append,
    lemma_wal_truncate, remove_record_len, spec_insert_record, spec_remove_record, wal_end_pos,
    wal_first_err, wal_ops, wal_replayable, wal_strict, CommandLog, LogRecordView, WalError,
};
use vstd::slice::slice_to_vec;

verus! {

/// A tombstone hit reads as absent.
pub open spec fn effective(o: Option<Seq<u8>>) -> Option<Seq<u8>> {
    match o {
        Some(v) => if is_tombstone(v) {
            None
        } else {
            Some(v)
        },
        None => None,
    }
}

/// Lookup through the levels from `i` down.
pub open spec fn cascade_from(lv: Seq<Vec<SsTable>>, i: int, k: Seq<u8>) -> Option<Seq<u8>>
    decreases lv.len() - i,
    when 0 <= i <= lv.len()
{
    if i == lv.len() {
        None
    } else {
        match tables_lookup(lv[i]@, k) {
            Some(v) => Some(v),
            None => cascade_from(lv, i + 1, k),
        }
    }
}

/// Levels that agree from `a` down answer the cascade alike.
pub proof fn lemma_cascade_agree(lv: Seq<Vec<SsTable>>, lv2: Seq<Vec<SsTable>>, a: int, k: Seq<u8>)
    requires
        lv.len() == lv2.len(),
        0 <= a <= lv.len(),
        forall|i: int| a <= i < lv.len() ==> #[trigger] lv[i]@ == lv2[i]@,
    ensures
        cascade_from(lv, a, k) == cascade_from(lv2, a, k),
    decreases lv.len() - a,
{
    if a < lv.len() {
        lemma_cascade_agree(lv, lv2, a + 1, k);
    }
}

/// Levels that agree before `i` and read effectively alike from `i` down
/// read effectively alike overall.
pub proof fn lemma_cascade_prefix(
    lv: Seq<Vec<SsTable>>,
    lv2: Seq<Vec<SsTable>>,
    a: int,
    i: int,
    k: Seq<u8>,
)
    requires
        lv.len() == lv2.len(),
        0 <= a <= i <= lv.len(),
        forall|j: int| a <= j < i ==> #[trigger] lv[j]@ == lv2[j]@,
        effective(cascade_from(lv, i, k)) == effective(cascade_from(lv2, i, k)),
    ensures
        effective(cascade_from(lv, a, k)) == effective(cascade_from(lv2, a, k)),
    decreases i - a,
{
    if a < i {
        lemma_cascade_prefix(lv, lv2, a + 1, i, k);
    }
}

pub struct LsmStorage {
    config: Config,
    wal: CommandLog,
    memtable: MemTable,
    sstables: Vec<Vec<SsTable>>,
}

impl LsmStorage {
    pub closed spec fn spec_levels(&self) -> Seq<Vec<SsTable>> {
        self.sstables@
    }

    /// The write buffer's map.
    pub closed spec fn spec_mem(&self) -> Map<Seq<u8>, Seq<u8>> {
        self.memtable@
    }

    pub closed spec fn spec_mem_bytes(&self) -> int {
        self.memtable.spec_bytes()
    }

    pub closed spec fn spec_wal(&self) -> Seq<u8> {
        self.wal.spec_buf()
    }

    pub closed spec fn spec_config(&self) -> Config {
        self.config
    }

    /// What the store holds under a key, tombstones included.
    pub open spec fn lookup(&self, k: Seq<u8>) -> Option<Seq<u8>> {
        if self.spec_mem().contains_key(k) {
            Some(self.spec_mem()[k])
        } else {
            cascade_from(self.spec_levels(), 0, k)
        }
    }

    /// What a read returns: the lookup, with tombstones reading as absent.
    pub open spec fn spec_get(&self, k: Seq<u8>) -> Option<Seq<u8>> {
        effective(self.lookup(k))
    }

    /// What replaying the journal reconstructs.
    pub open spec fn spec_replay(&self) -> Map<Seq<u8>, Seq<u8>> {
        apply_ops(Map::<Seq<u8>, Seq<u8>>::empty(), wal_ops(self.spec_wal(), 0))
    }

    /// Well-formedness: five levels of sound tables, a sound write buffer,
    /// and a journal that is a seamless record stream whose replay
    /// reconstructs exactly the buffer.
    pub closed spec fn wf(&self) -> bool {
        &&& self.spec_levels().len() == SSTABLE_MAX_LEVEL
        &&& forall|i: int|
            0 <= i < SSTABLE_MAX_LEVEL ==> all_wf((#[trigger] self.spec_levels()[i])@)
        &&& self.memtable.inv()
        &&& self.wal.inv()
        &&& wal_strict(self.spec_wal(), 0)
        &&& self.spec_replay() == self.spec_mem()
    }

    /// A fresh, empty store.
    pub fn new(config: Config) -> (r: LsmStorage)
        ensures
            r.wf(),
            r.spec_config() == config,
            forall|k: Seq<u8>| #[trigger] r.lookup(k) == None::<Seq<u8>>,
            r.spec_wal() == Seq::<u8>::empty(),
    {
        let mut sstables: Vec<Vec<SsTable>> = Vec::new();
        let mut i: usize = 0;
        while i < SSTABLE_MAX_LEVEL
            invariant
                i <= SSTABLE_MAX_LEVEL,
                sstables@.len() == i,
                forall|j: int| 0 <= j < i ==> (#[trigger] sstables@[j])@.len() == 0,
            decreases SSTABLE_MAX_LEVEL - i,
        {
            sstables.push(Vec::new());
            i = i + 1;
        }
        let r = LsmStorage {
            config,
            wal: CommandLog::new(),
            memtable: MemTable::new(),
            sstables,
        };
        proof {
            assert(wal_strict(r.spec_wal(), 0));
            assert(wal_ops(r.spec_wal(), 0) =~= Seq::<LogRecordView>::empty());
            assert forall|k: Seq<u8>| #[trigger] r.lookup(k) == None::<Seq<u8>> by {
                lemma_empty_cascade(r.spec_levels(), k, 0);
            }
        }
        r
    }

    /// The bytes the write buffer currently holds; a caller may test this
    /// before an insertion.
    pub fn memtable_size_in_bytes(&self) -> (r: usize)
        ensures
            r == self.spec_mem_bytes(),
    {
        self.memtable.size_in_bytes()
    }

    /// The journal's bytes as they stand, for persisting.
    pub fn wal_bytes(&self) -> (r: &Vec<u8>)
        ensures
            r@ == self.spec_wal(),
    {
        self.wal.bytes()
    }

    /// How many tables a level holds.
    pub fn level_len(&self, i: usize) -> (r: usize)
        requires
            self.wf(),
            i < SSTABLE_MAX_LEVEL,
        ensures
            r == self.spec_levels()[i as int]@.len(),
    {
        self.sstables[i].len()
    }

    /// One table of a level, for persisting.
    pub fn table_at(&self, i: usize, j: usize) -> (r: &SsTable)
        requires
            self.wf(),
            i < SSTABLE_MAX_LEVEL,
            j < self.spec_levels()[i as int]@.len(),
        ensures
            *r == self.spec_levels()[i as int]@[j as int],
            r.wf(),
    {
        proof {
            assert(all_wf(self.spec_levels()[i as int]@));
        }
        &self.sstables[i][j]
    }

    /// Reads a key through the whole cascade.
    pub fn get(&self, key: &[u8]) -> (r: Option<ByteString>)
        requires
            self.wf(),
        ensures
            match r {
                Some(v) => self.spec_get(key@) == Some(v@),
                None => self.spec_get(key@) == None::<Seq<u8>>,
            },
    {
        let from_mem: Option<&Vec<u8>> = self.memtable.get(key);
        match from_mem {
            Some(v) => {
                let tomb: bool = v.len() == 1 && {
                    let b: u8 = v[0];
                    b == 0
                };
                proof {
                    if tomb {
                        assert(v@ =~= seq![0u8]);
                    }
                    if is_tombstone(v@) {
                        assert(v@.len() == 1 && v@[0] == 0u8);
                    }
                }
                if tomb {
                    None
                } else {
                    Some(v.clone())
                }
            },
            None => {
                let mut i: usize = 0;
                loop
                    invariant
                        self.wf(),
                        i <= SSTABLE_MAX_LEVEL,
                        !self.spec_mem().contains_key(key@),
                        cascade_from(self.spec_levels(), 0, key@) == cascade_from(
                            self.spec_levels(),
                            i as int,
                            key@,
                        ),
                    decreases SSTABLE_MAX_LEVEL - i,
                {
                    if i == SSTABLE_MAX_LEVEL {
                        return None;
                    }
                    proof {
                        assert(all_wf(self.spec_levels()[i as int]@));
                    }
                    match Self::tables_find(&self.sstables[i], key) {
                        Some(v) => {
                            let tomb: bool = v.len() == 1 && {
                                let b: u8 = v[0];
                                b == 0
                            };
                            proof {
                                if tomb {
                                    assert(v@ =~= seq![0u8]);
                                }
                                if is_tombstone(v@) {
                                    assert(v@.len() == 1 && v@[0] == 0u8);
                                }
                            }
                            if tomb {
                                return None;
                            }
                            return Some(v);
                        },
                        None => {
                            i = i + 1;
                        },
                    }
                }
            },
        }
    }

    /// The newest value a run of tables holds under the key.
    fn tables_find(tables: &Vec<SsTable>, key: &[u8]) -> (r: Option<Vec<u8>>)
        requires
            all_wf(tables@),
        ensures
            match r {
                Some(v) => tables_lookup(tables@, key@) == Some(v@),
                None => tables_lookup(tables@, key@) == None::<Seq<u8>>,
            },
    {
        let ghost ts = tables@;
        let mut i: usize = tables.len();
        proof {
            assert(ts.take(i as int) =~= ts);
        }
        while i > 0
            invariant
                i <= ts.len(),
                ts == tables@,
                all_wf(ts),
                tables_lookup(ts, key@) == tables_lookup(ts.take(i as int), key@),
            decreases i,
        {
            i = i - 1;
            proof {
                assert(ts[i as int].wf());
                assert(ts.take(i as int + 1).last() == ts[i as int]);
                assert(ts.take(i as int + 1).drop_last() =~= ts.take(i as int));
            }
            let found: Option<Vec<u8>> = tables[i].get(key);
            match found {
                Some(v) => {
                    return Some(v);
                },
                None => {},
            }
        }
        proof {
            assert(ts.take(0) =~= Seq::<SsTable>::empty());
        }
        None
    }

    /// Records the insertion in the journal, then applies it to the write
    /// buffer; a buffer grown to its limit is frozen, written out as a
    /// level-zero table, and replaced, and compaction then rebalances the
    /// levels. The key reads back as the inserted value and no other key
    /// moves; afterwards the buffer is under its limit — either it still
    /// holds the pair with the levels untouched, or it was flushed empty.
    #[verifier::rlimit(100)]
    pub fn insert(&mut self, key: ByteString, value: ByteString)
        requires
            old(self).wf(),
            key@.len() > 0,
            value@.len() > 0,
            !is_tombstone(value@),
            key@.len() <= u32::MAX,
            value@.len() <= u32::MAX,
            key@.len() + value@.len() + 13 <= usize::MAX,
            old(self).spec_mem_bytes() + key@.len() + value@.len() <= usize::MAX,
        ensures
            final(self).wf(),
            final(self).spec_config() == old(self).spec_config(),
            final(self).spec_get(key@) == Some(value@),
            forall|q: Seq<u8>|
                q != key@ ==> #[trigger] final(self).spec_get(q) == old(self).spec_get(q),
            final(self).spec_mem().contains_key(key@) ==> {
                &&& final(self).spec_levels() == old(self).spec_levels()
                &&& final(self).spec_mem() == old(self).spec_mem().insert(key@, value@)
                &&& final(self).spec_wal() == old(self).spec_wal() + spec_insert_record(
                    key@,
                    value@,
                )
            },
            !final(self).spec_mem().contains_key(key@) ==> {
                &&& final(self).spec_mem() == Map::<Seq<u8>, Seq<u8>>::empty()
                &&& final(self).spec_wal() == Seq::<u8>::empty()
            },
            old(self).spec_config().memtable_limit_bytes > 0 ==> final(self).spec_mem_bytes()
                < old(self).spec_config().memtable_limit_bytes,
            old(self).spec_config().memtable_limit_bytes == 0 ==> final(self).spec_mem_bytes()
                == 0,
    {
        let ghost buf0 = self.wal.spec_buf();
        let ghost kview = key@;
        let ghost vview = value@;
        self.wal.insert(key.as_slice(), value.as_slice());
        proof {
            let ext = spec_insert_record(kview, vview);
            assert((buf0 + ext).subrange(
                buf0.len() as int,
                buf0.len() + insert_record_len(kview, vview),
            ) =~= ext);
            lemma_insert_record_parses(buf0 + ext, buf0.len() as int, kview, vview);
            lemma_wal_append(buf0, 0, ext, LogRecordView::Insert(kview, vview));
            crate::memtable::lemma_apply_ops_snoc(
                Map::<Seq<u8>, Seq<u8>>::empty(),
                wal_ops(buf0, 0),
                LogRecordView::Insert(kview, vview),
            );
        }
        self.memtable.insert(key, value);
        proof {
            assert(self.spec_replay() =~= old(self).spec_replay().insert(kview, vview));
            assert(self.spec_replay() =~= self.spec_mem());
            self.lemma_changed_one(*old(self), kview);
            assert(self.spec_get(kview) == Some(vview));
        }
        let size: usize = self.memtable.size_in_bytes();
        if size >= self.config.memtable_limit_bytes {
            let ghost pre = *self;
            let table: SsTable = SsTable::from_memtable(
                self.config.base_path.as_str(),
                &self.memtable,
            );
            let mut l0: Vec<SsTable> = self.sstables.remove(0);
            l0.push(table);
            self.sstables.insert(0, l0);
            self.memtable = MemTable::new();
            self.wal = CommandLog::new();
            proof {
                assert(wal_ops(self.wal.spec_buf(), 0) =~= Seq::<LogRecordView>::empty());
                assert(self.memtable@ =~= Map::<Seq<u8>, Seq<u8>>::empty());
                self.lemma_flush_preserves(pre, table);
            }
            self.compact();
        }
    }

    /// A change confined to one key of the write buffer leaves every other
    /// read unchanged.
    proof fn lemma_changed_one(&self, pre: LsmStorage, key: Seq<u8>)
        requires
            self.spec_levels() == pre.spec_levels(),
            forall|q: Seq<u8>|
                q != key ==> pre.spec_mem().contains_key(q) == #[trigger] self.spec_mem().contains_key(
                    q,
                ),
            forall|q: Seq<u8>|
                q != key && pre.spec_mem().contains_key(q) ==> pre.spec_mem()[q]
                    == #[trigger] self.spec_mem()[q],
        ensures
            forall|q: Seq<u8>| q != key ==> #[trigger] self.spec_get(q) == pre.spec_get(q),
    {
        assert forall|q: Seq<u8>| q != key implies #[trigger] self.spec_get(q) == pre.spec_get(
            q,
        ) by {
            lemma_cascade_agree(self.spec_levels(), pre.spec_levels(), 0, q);
        }
    }

    /// Freezing the buffer into a fresh level-zero table moves every pair
    /// without changing what any key reads as.
    proof fn lemma_flush_preserves(&self, pre: LsmStorage, table: SsTable)
        requires
            pre.spec_levels().len() == SSTABLE_MAX_LEVEL,
            self.spec_levels().len() == SSTABLE_MAX_LEVEL,
            self.spec_levels()[0]@ == pre.spec_levels()[0]@.push(table),
            forall|i: int|
                1 <= i < SSTABLE_MAX_LEVEL ==> (#[trigger] self.spec_levels()[i])@
                    == pre.spec_levels()[i]@,
            table.spec_map() == pre.spec_mem(),
            self.spec_mem() == Map::<Seq<u8>, Seq<u8>>::empty(),
        ensures
            forall|q: Seq<u8>| #[trigger] self.lookup(q) == pre.lookup(q),
    {
        assert forall|q: Seq<u8>| #[trigger] self.lookup(q) == pre.lookup(q) by {
            let l0new = self.spec_levels()[0]@;
            let l0old = pre.spec_levels()[0]@;
            assert(l0new.last() == table);
            assert(l0new.drop_last() =~= l0old);
            lemma_cascade_agree(self.spec_levels(), pre.spec_levels(), 1, q);
            if pre.spec_mem().contains_key(q) {
                assert(table_get(table, q) == Some(pre.spec_mem()[q]));
                assert(tables_lookup(l0new, q) == Some(pre.spec_mem()[q]));
                assert(cascade_from(self.spec_levels(), 0, q) == Some(pre.spec_mem()[q]));
            } else {
                assert(table_get(table, q) == None::<Seq<u8>>);
                assert(tables_lookup(l0new, q) == tables_lookup(l0old, q));
                assert(cascade_from(self.spec_levels(), 0, q) == cascade_from(
                    pre.spec_levels(),
                    0,
                    q,
                ));
            }
        }
    }

    /// A synonym for insertion.
    pub fn update(&mut self, key: ByteString, value: ByteString)
        requires
            old(self).wf(),
            key@.len() > 0,
            value@.len() > 0,
            !is_tombstone(value@),
            key@.len() <= u32::MAX,
            value@.len() <= u32::MAX,
            key@.len() + value@.len() + 13 <= usize::MAX,
            old(self).spec_mem_bytes() + key@.len() + value@.len() <= usize::MAX,
        ensures
            final(self).wf(),
            final(self).spec_config() == old(self).spec_config(),
            final(self).spec_get(key@) == Some(value@),
            forall|q: Seq<u8>|
                q != key@ ==> #[trigger] final(self).spec_get(q) == old(self).spec_get(q),
    {
        self.insert(key, value);
    }

    /// Records the removal in the journal, then buries the key under a
    /// tombstone in the write buffer. The key reads as absent, no other
    /// key moves, and the levels stand untouched.
    pub fn delete(&mut self, key: &[u8])
        requires
            old(self).wf(),
            key@.len() > 0,
            key@.len() <= u32::MAX,
            key@.len() + 13 <= usize::MAX,
            old(self).spec_mem_bytes() + key@.len() + 1 <= usize::MAX,
        ensures
            final(self).wf(),
            final(self).spec_config() == old(self).spec_config(),
            final(self).spec_get(key@) == None::<Seq<u8>>,
            final(self).lookup(key@) == Some(seq![0u8]),
            forall|q: Seq<u8>|
                q != key@ ==> #[trigger] final(self).spec_get(q) == old(self).spec_get(q),
            final(self).spec_levels() == old(self).spec_levels(),
            final(self).spec_mem() == old(self).spec_mem().insert(key@, seq![0u8]),
            final(self).spec_wal() == old(self).spec_wal() + spec_remove_record(key@),
    {
        let ghost buf0 = self.wal.spec_buf();
        self.wal.remove(key);
        proof {
            let ext = spec_remove_record(key@);
            assert((buf0 + ext).subrange(buf0.len() as int, buf0.len() + remove_record_len(key@))
                =~= ext);
            lemma_remove_record_parses(buf0 + ext, buf0.len() as int, key@);
            lemma_wal_append(buf0, 0, ext, LogRecordView::Remove(key@));
            crate::memtable::lemma_apply_ops_snoc(
                Map::<Seq<u8>, Seq<u8>>::empty(),
                wal_ops(buf0, 0),
                LogRecordView::Remove(key@),
            );
        }
        let owned: Vec<u8> = slice_to_vec(key);
        let tomb: Vec<u8> = vec![0u8];
        proof {
            assert(tomb@ =~= seq![0u8]);
        }
        self.memtable.insert(owned, tomb);
        proof {
            assert(self.spec_replay() =~= old(self).spec_replay().insert(key@, seq![0u8]));
            assert(self.spec_replay() =~= self.spec_mem());
            self.lemma_changed_one(*old(self), key@);
            assert(is_tombstone(self.spec_mem()[key@]));
        }
    }

    /// One pass of level-overflow compaction, sweeping the levels from the
    /// shallowest up: a level holding at least the configured number of
    /// tables is emptied, its tables merged into exactly one table appended
    /// to the next level. No read changes, the buffer and journal stand
    /// untouched, and afterwards every level but the last is under its
    /// limit.
    #[verifier::rlimit(100)]
    pub fn compact(&mut self)
        requires
            old(self).wf(),
        ensures
            final(self).wf(),
            final(self).spec_config() == old(self).spec_config(),
            forall|q: Seq<u8>| #[trigger] final(self).spec_get(q) == old(self).spec_get(q),
            final(self).spec_mem() == old(self).spec_mem(),
            final(self).spec_mem_bytes() == old(self).spec_mem_bytes(),
            final(self).spec_wal() == old(self).spec_wal(),
            ({
                let limit = old(self).spec_config().sstable_level_limit;
                let lv0 = old(self).spec_levels();
                let lv1 = final(self).spec_levels();
                &&& (limit >= 1 ==> forall|i: int|
                    0 <= i < SSTABLE_MAX_LEVEL - 1 ==> (#[trigger] lv1[i])@.len() < limit)
                &&& lv1[0]@ == (if lv0[0]@.len() >= limit {
                    Seq::<SsTable>::empty()
                } else {
                    lv0[0]@
                })
                &&& forall|i: int|
                    1 <= i < SSTABLE_MAX_LEVEL ==> ((#[trigger] lv1[i])@ == Seq::<SsTable>::empty()
                        || lv1[i]@ == lv0[i]@ || (lv1[i]@.len() == lv0[i]@.len() + 1
                        && lv1[i]@.drop_last() == lv0[i]@ && ((lv1[i]@.last()).spec_meta().level
                        as int) == i))
            }),
    {
        let ghost s0 = *self;
        let limit: usize = self.config.sstable_level_limit;
        proof {
            assert forall|q: Seq<u8>| #[trigger] self.spec_get(q) == s0.spec_get(q) by {}
        }
        let mut i: usize = 0;
        while i < SSTABLE_MAX_LEVEL - 1
            invariant
                self.wf(),
                i <= SSTABLE_MAX_LEVEL - 1,
                limit == s0.spec_config().sstable_level_limit,
                s0.spec_levels().len() == SSTABLE_MAX_LEVEL,
                self.spec_config() == s0.spec_config(),
                self.spec_mem() == s0.spec_mem(),
                self.spec_mem_bytes() == s0.spec_mem_bytes(),
                self.spec_wal() == s0.spec_wal(),
                forall|q: Seq<u8>| #[trigger] self.spec_get(q) == s0.spec_get(q),
                // levels past the sweep front are untouched
                forall|j: int|
                    i < j < SSTABLE_MAX_LEVEL ==> (#[trigger] self.spec_levels()[j])@
                        == s0.spec_levels()[j]@,
                // the front itself may have gained one merged table
                i < SSTABLE_MAX_LEVEL ==> (self.spec_levels()[i as int]@ == s0.spec_levels()[
                    i as int
                ]@ || (i >= 1 && self.spec_levels()[i as int]@.len() == s0.spec_levels()[
                    i as int
                ]@.len() + 1 && self.spec_levels()[i as int]@.drop_last() == s0.spec_levels()[
                    i as int
                ]@ && ((self.spec_levels()[i as int]@.last()).spec_meta().level as int)
                    == i as int)),
                // swept levels are settled: under the limit, and either
                // emptied, kept, or kept with one merged table appended
                limit >= 1 ==> forall|j: int|
                    0 <= j < i ==> (#[trigger] self.spec_levels()[j])@.len() < limit,
                i >= 1 ==> self.spec_levels()[0]@ == (if s0.spec_levels()[0]@.len() >= limit {
                    Seq::<SsTable>::empty()
                } else {
                    s0.spec_levels()[0]@
                }),
                forall|j: int|
                    1 <= j < i ==> ((#[trigger] self.spec_levels()[j])@ == Seq::<SsTable>::empty()
                        || self.spec_levels()[j]@ == s0.spec_levels()[j]@ || (self.spec_levels()[
                        j
                    ]@.len() == s0.spec_levels()[j]@.len() + 1 && self.spec_levels()[
                        j
                    ]@.drop_last() == s0.spec_levels()[j]@ && ((self.spec_levels()[
                        j
                    ]@.last()).spec_meta().level as int) == j)),
            decreases SSTABLE_MAX_LEVEL - 1 - i,
        {
            if self.sstables[i].len() >= self.config.sstable_level_limit {
                let ghost pre = *self;
                proof {
                    assert(all_wf(self.spec_levels()[i as int]@));
                    assert(all_wf(self.spec_levels()[SSTABLE_MAX_LEVEL - 1]@));
                }
                let merged: SsTable = SsTable::merge_compact(
                    &self.sstables[i],
                    (i + 1) as u8,
                    self.config.base_path.as_str(),
                    &self.sstables[SSTABLE_MAX_LEVEL - 1],
                );
                // the consumed tables are dropped; their files are the
                // embedding program's to remove
                let _consumed: Vec<SsTable> = self.sstables.remove(i);
                self.sstables.insert(i, Vec::new());
                let mut next: Vec<SsTable> = self.sstables.remove(i + 1);
                next.push(merged);
                self.sstables.insert(i + 1, next);
                proof {
                    assert(self.spec_levels()[i as int]@ =~= Seq::<SsTable>::empty());
                    assert(self.spec_levels()[i + 1]@ =~= pre.spec_levels()[i + 1]@.push(merged));
                    assert(pre.spec_levels()[i + 1]@ == s0.spec_levels()[i + 1]@);
                    assert(self.spec_levels()[i + 1]@.drop_last() =~= s0.spec_levels()[i + 1]@);
                    assert forall|j: int| 0 <= j < SSTABLE_MAX_LEVEL implies all_wf(
                        (#[trigger] self.spec_levels()[j])@,
                    ) by {
                        if j == i {
                            assert(self.spec_levels()[j]@.len() == 0);
                        } else if j == i + 1 {
                            assert(self.spec_levels()[j]@ == pre.spec_levels()[j]@.push(merged));
                            assert(all_wf(pre.spec_levels()[j]@));
                            assert forall|t: int|
                                0 <= t < self.spec_levels()[j]@.len() implies (#[trigger] self.spec_levels()[j]@[t]).wf() by {
                                if t < pre.spec_levels()[j]@.len() {
                                    assert(self.spec_levels()[j]@[t] == pre.spec_levels()[j]@[t]);
                                } else {
                                    assert(self.spec_levels()[j]@[t] == merged);
                                }
                            }
                        } else {
                            assert(self.spec_levels()[j]@ == pre.spec_levels()[j]@);
                            assert(all_wf(pre.spec_levels()[j]@));
                        }
                    }
                    self.lemma_compact_step(pre, merged, i as int);
                    assert(self.spec_replay() == pre.spec_replay());
                    assert(self.spec_mem() == pre.spec_mem());
                    assert(pre.wf());
                    assert(self.wf());
                }
            }
            i = i + 1;
        }
    }

    /// Merging one level into the next and emptying it changes no read.
    proof fn lemma_compact_step(&self, pre: LsmStorage, merged: SsTable, i: int)
        requires
            0 <= i < SSTABLE_MAX_LEVEL - 1,
            pre.spec_levels().len() == SSTABLE_MAX_LEVEL,
            self.spec_levels().len() == SSTABLE_MAX_LEVEL,
            self.spec_levels()[i]@ == Seq::<SsTable>::empty(),
            self.spec_levels()[i + 1]@ == pre.spec_levels()[i + 1]@.push(merged),
            forall|j: int|
                0 <= j < SSTABLE_MAX_LEVEL && j != i && j != i + 1
                    ==> (#[trigger] self.spec_levels()[j])@ == pre.spec_levels()[j]@,
            self.spec_mem() == pre.spec_mem(),
            forall|k: Seq<u8>|
                #[trigger] table_get(merged, k) == merge_keep(
                    pre.spec_levels()[i]@,
                    pre.spec_levels()[SSTABLE_MAX_LEVEL - 1]@,
                    (i + 1) as u8,
                    k,
                ),
        ensures
            forall|q: Seq<u8>| #[trigger] self.spec_get(q) == pre.spec_get(q),
    {
        let lv = pre.spec_levels();
        let lv2 = self.spec_levels();
        assert forall|q: Seq<u8>| #[trigger] self.spec_get(q) == pre.spec_get(q) by {
            let deep = lv[SSTABLE_MAX_LEVEL - 1]@;
            assert(lv2[i + 1]@.last() == merged);
            assert(lv2[i + 1]@.drop_last() =~= lv[i + 1]@);
            assert(tables_lookup(lv2[i]@, q) == None::<Seq<u8>>);
            match tables_lookup(lv[i]@, q) {
                Some(v) => {
                    if is_tombstone(v) && i + 1 == SSTABLE_MAX_LEVEL - 1 && tables_lookup(
                        deep,
                        q,
                    ) is None {
                        // the tombstone is dropped: nothing at or below the
                        // last level holds the key any more
                        assert(table_get(merged, q) == None::<Seq<u8>>);
                        assert(tables_lookup(lv2[i + 1]@, q) == tables_lookup(lv[i + 1]@, q));
                        assert(cascade_from(lv2, i + 2, q) == None::<Seq<u8>>);
                        assert(cascade_from(lv2, i + 1, q) == None::<Seq<u8>>);
                        assert(cascade_from(lv2, i, q) == None::<Seq<u8>>);
                        assert(cascade_from(lv, i, q) == Some(v));
                        assert(effective(cascade_from(lv, i, q)) == effective(
                            cascade_from(lv2, i, q),
                        ));
                        lemma_cascade_prefix(lv, lv2, 0, i, q);
                    } else {
                        assert(table_get(merged, q) == Some(v));
                        assert(tables_lookup(lv2[i + 1]@, q) == Some(v));
                        assert(cascade_from(lv2, i + 1, q) == Some(v));
                        assert(cascade_from(lv2, i, q) == Some(v));
                        assert(cascade_from(lv, i, q) == Some(v));
                        lemma_cascade_prefix(lv, lv2, 0, i, q);
                    }
                },
                None => {
                    assert(table_get(merged, q) == None::<Seq<u8>>);
                    assert(tables_lookup(lv2[i + 1]@, q) == tables_lookup(lv[i + 1]@, q));
                    lemma_cascade_agree(lv, lv2, i + 2, q);
                    assert(cascade_from(lv2, i + 1, q) == cascade_from(lv, i + 1, q));
                    assert(cascade_from(lv2, i, q) == cascade_from(lv, i + 1, q));
                    assert(cascade_from(lv, i, q) == cascade_from(lv, i + 1, q));
                    lemma_cascade_prefix(lv, lv2, 0, i, q);
                },
            }
            if self.spec_mem().contains_key(q) {
            } else {
                assert(effective(cascade_from(lv, 0, q)) == effective(cascade_from(lv2, 0, q)));
            }
        }
    }
}

/// An empty run of levels answers no key.
proof fn lemma_empty_cascade(lv: Seq<Vec<SsTable>>, k: Seq<u8>, i: int)
    requires
        0 <= i <= lv.len(),
        forall|j: int| 0 <= j < lv.len() ==> (#[trigger] lv[j])@.len() == 0,
    ensures
        cascade_from(lv, i, k) == None::<Seq<u8>>,
    decreases lv.len() - i,
{
    if i < lv.len() {
        lemma_empty_cascade(lv, k, i + 1);
    }
}

/// Tables ordered by ascending identifier.
pub open spec fn ids_sorted(ts: Seq<SsTable>) -> bool {
    forall|a: int, b: int|
        0 <= a < b < ts.len() ==> (#[trigger] ts[a]).spec_meta().id <= (
        #[trigger] ts[b]).spec_meta().id
}

/// Places a table into a level at its position by ascending identifier.
fn place_table(level_vec: &mut Vec<SsTable>, t: SsTable)
    requires
        ids_sorted(old(level_vec)@),
    ensures
        final(level_vec)@.len() == old(level_vec)@.len() + 1,
        ids_sorted(final(level_vec)@),
        final(level_vec)@.contains(t),
        forall|x: SsTable| old(level_vec)@.contains(x) ==> final(level_vec)@.contains(x),
        forall|j: int|
            0 <= j < final(level_vec)@.len() ==> (#[trigger] final(level_vec)@[j]) == t || old(
                level_vec,
            )@.contains(final(level_vec)@[j]),
{
    let ghost lv0 = level_vec@;
    let tid: u128 = t.id();
    let n: usize = level_vec.len();
    let mut p: usize = 0;
    while p < n
        invariant_except_break
            p <= n,
            n == level_vec@.len(),
            lv0 == level_vec@,
            ids_sorted(lv0),
            tid == t.spec_meta().id,
            forall|a: int| 0 <= a < p ==> (#[trigger] lv0[a]).spec_meta().id <= t.spec_meta().id,
        ensures
            p <= n,
            n == level_vec@.len(),
            lv0 == level_vec@,
            forall|a: int| 0 <= a < p ==> (#[trigger] lv0[a]).spec_meta().id <= t.spec_meta().id,
            forall|a: int| p <= a < n ==> (#[trigger] lv0[a]).spec_meta().id >= t.spec_meta().id,
        decreases n - p,
    {
        let hid: u128 = level_vec[p].id();
        proof {
            assert(hid == lv0[p as int].spec_meta().id);
        }
        if hid > tid {
            proof {
                assert forall|a: int| p <= a < n implies (#[trigger] lv0[a]).spec_meta().id
                    >= t.spec_meta().id by {
                    if a > p {
                        assert(lv0[p as int].spec_meta().id <= lv0[a].spec_meta().id);
                    }
                }
            }
            break ;
        }
        p = p + 1;
    }
    let ghost placed = lv0.insert(p as int, t);
    proof {
        lv0.insert_ensures(p as int, t);
    }
    level_vec.insert(p, t);
    proof {
        assert(level_vec@ == placed);
        assert forall|a: int, b: int| 0 <= a < b < placed.len() implies (
        #[trigger] placed[a]).spec_meta().id <= (#[trigger] placed[b]).spec_meta().id by {
            if b < p {
                assert(placed[a] == lv0[a] && placed[b] == lv0[b]);
            } else if a < p && b == p {
                assert(placed[a] == lv0[a] && placed[b] == t);
            } else if a < p {
                assert(placed[a] == lv0[a] && placed[b] == lv0[b - 1]);
            } else if a == p {
                assert(placed[a] == t && placed[b] == lv0[b - 1]);
            } else {
                assert(placed[a] == lv0[a - 1] && placed[b] == lv0[b - 1]);
            }
        }
        assert(placed[p as int] == t);
        assert(placed.contains(t));
        assert forall|x: SsTable| lv0.contains(x) implies placed.contains(x) by {
            let w: int = choose|w: int| 0 <= w < lv0.len() && lv0[w] == x;
            if w < p {
                assert(placed[w] == x);
            } else {
                assert(placed[w + 1] == x);
            }
        }
        assert forall|j: int| 0 <= j < placed.len() implies (#[trigger] placed[j]) == t
            || lv0.contains(placed[j]) by {
            if j < p {
                assert(placed[j] == lv0[j]);
            } else if j > p {
                assert(placed[j] == lv0[j - 1]);
            }
        }
    }
}

/// How many tables the levels hold in all.
pub open spec fn levels_count(lv: Seq<Vec<SsTable>>) -> int
    decreases lv.len(),
{
    if lv.len() == 0 {
        0
    } else {
        levels_count(lv.drop_last()) + lv.last()@.len()
    }
}

impl LsmStorage {
    /// Opens a store from what was read back from disk: the journal's bytes
    /// and the already validated tables, in any order. The journal is
    /// replayed into a fresh write buffer — a removal becoming the
    /// tombstone the buffer held — and a half-written or checksum-corrupt
    /// tail is discarded; only a journal with an unknown tag is refused,
    /// with that entry's error. Each table goes to the level its
    /// descriptor names, the levels ordered by ascending identifier.
    /// Identifiers are wall-clock milliseconds, so tables born in the same
    /// millisecond tie and their order within the level is unspecified.
    pub fn load(config: Config, wal: CommandLog, tables: Vec<SsTable>) -> (r: Result<
        LsmStorage,
        WalError,
    >)
        requires
            wal.inv(),
            wal.spec_pos() == 0,
            all_wf(tables@),
        ensures
            ({
                let buf = wal.spec_buf();
                match r {
                    Ok(s) => {
                        &&& wal_replayable(buf, 0)
                        &&& s.wf()
                        &&& s.spec_config() == config
                        &&& s.spec_mem() == apply_ops(
                            Map::<Seq<u8>, Seq<u8>>::empty(),
                            wal_ops(buf, 0),
                        )
                        &&& s.spec_wal() == buf.subrange(0, wal_end_pos(buf, 0))
                        &&& s.spec_levels().len() == SSTABLE_MAX_LEVEL
                        &&& (forall|i: int, j: int|
                            0 <= i < SSTABLE_MAX_LEVEL && 0 <= j < s.spec_levels()[i]@.len()
                                ==> ((#[trigger] s.spec_levels()[i]@[j]).spec_meta().level as int)
                                == i)
                        &&& (forall|i: int, a: int, b: int|
                            0 <= i < SSTABLE_MAX_LEVEL && 0 <= a < b < s.spec_levels()[i]@.len()
                                ==> (#[trigger] s.spec_levels()[i]@[a]).spec_meta().id
                                <= (#[trigger] s.spec_levels()[i]@[b]).spec_meta().id)
                        &&& (forall|u: int|
                            0 <= u < tables@.len() ==> s.spec_levels()[(
                            #[trigger] tables@[u]).spec_meta().level as int]@.contains(tables@[u]))
                        &&& (forall|i: int, j: int|
                            0 <= i < SSTABLE_MAX_LEVEL && 0 <= j < s.spec_levels()[i]@.len()
                                ==> tables@.contains(#[trigger] s.spec_levels()[i]@[j]))
                        &&& levels_count(s.spec_levels()) == tables@.len()
                    },
                    Err(e) => !wal_replayable(buf, 0) && e == wal_first_err(buf, 0),
                }
            }),
    {
        let ghost buf = wal.spec_buf();
        let mut wal = wal;
        let memtable: MemTable = match MemTable::from_log(&mut wal) {
            Ok(m) => m,
            Err(e) => {
                return Err(e);
            },
        };
        wal.discard_tail();
        proof {
            lemma_wal_truncate(buf, 0);
        }
        let mut sstables: Vec<Vec<SsTable>> = Vec::new();
        let mut i: usize = 0;
        while i < SSTABLE_MAX_LEVEL
            invariant
                i <= SSTABLE_MAX_LEVEL,
                sstables@.len() == i,
                forall|j: int| 0 <= j < i ==> (#[trigger] sstables@[j])@.len() == 0,
            decreases SSTABLE_MAX_LEVEL - i,
        {
            sstables.push(Vec::new());
            i = i + 1;
        }
        let ghost tables0 = tables@;
        let mut tables = tables;
        proof {
            lemma_levels_count_empty(sstables@);
            assert(tables@ =~= tables0.take(tables0.len() as int));
        }
        loop
            invariant_except_break
                sstables@.len() == SSTABLE_MAX_LEVEL,
                all_wf(tables0),
                tables@ == tables0.take(tables@.len() as int),
                tables@.len() <= tables0.len(),
                forall|i2: int|
                    0 <= i2 < SSTABLE_MAX_LEVEL ==> all_wf((#[trigger] sstables@[i2])@),
                forall|i2: int, j: int|
                    0 <= i2 < SSTABLE_MAX_LEVEL && 0 <= j < sstables@[i2]@.len() ==> ((
                    #[trigger] sstables@[i2]@[j]).spec_meta().level as int) == i2,
                forall|i2: int, a: int, b: int|
                    0 <= i2 < SSTABLE_MAX_LEVEL && 0 <= a < b < sstables@[i2]@.len() ==> (
                    #[trigger] sstables@[i2]@[a]).spec_meta().id <= (
                    #[trigger] sstables@[i2]@[b]).spec_meta().id,
                forall|u: int|
                    tables@.len() <= u < tables0.len() ==> sstables@[(
                    #[trigger] tables0[u]).spec_meta().level as int]@.contains(tables0[u]),
                forall|i2: int, j: int|
                    0 <= i2 < SSTABLE_MAX_LEVEL && 0 <= j < sstables@[i2]@.len()
                        ==> tables0.contains(#[trigger] sstables@[i2]@[j]),
                levels_count(sstables@) + tables@.len() == tables0.len(),
            ensures
                sstables@.len() == SSTABLE_MAX_LEVEL,
                forall|i2: int|
                    0 <= i2 < SSTABLE_MAX_LEVEL ==> all_wf((#[trigger] sstables@[i2])@),
                forall|i2: int, j: int|
                    0 <= i2 < SSTABLE_MAX_LEVEL && 0 <= j < sstables@[i2]@.len() ==> ((
                    #[trigger] sstables@[i2]@[j]).spec_meta().level as int) == i2,
                forall|i2: int, a: int, b: int|
                    0 <= i2 < SSTABLE_MAX_LEVEL && 0 <= a < b < sstables@[i2]@.len() ==> (
                    #[trigger] sstables@[i2]@[a]).spec_meta().id <= (
                    #[trigger] sstables@[i2]@[b]).spec_meta().id,
                forall|u: int|
                    0 <= u < tables0.len() ==> sstables@[(
                    #[trigger] tables0[u]).spec_meta().level as int]@.contains(tables0[u]),
                forall|i2: int, j: int|
                    0 <= i2 < SSTABLE_MAX_LEVEL && 0 <= j < sstables@[i2]@.len()
                        ==> tables0.contains(#[trigger] sstables@[i2]@[j]),
                levels_count(sstables@) == tables0.len(),
            decreases tables@.len(),
        {
            let ghost remaining = tables@;
            match tables.pop() {
                None => {
                    proof {
                        assert(tables@.len() == 0);
                    }
                    break ;
                },
                Some(t) => {
                    proof {
                        assert(remaining.last() == tables0[remaining.len() - 1]);
                        assert(tables@ =~= tables0.take(tables@.len() as int));
                        assert(all_wf(tables0));
                        assert(tables0[remaining.len() - 1].wf());
                    }
                    let ghost tv = t;
                    let lvl: usize = t.level() as usize;
                    proof {
                        assert(t.spec_meta().wf());
                        assert((t.spec_meta().level as usize) < SSTABLE_MAX_LEVEL);
                    }
                    let ghost slv = sstables@;
                    let mut level_vec: Vec<SsTable> = sstables.remove(lvl);
                    let ghost lv0 = level_vec@;
                    place_table(&mut level_vec, t);
                    let ghost placed = level_vec@;
                    sstables.insert(lvl, level_vec);
                    proof {
                        assert forall|j: int| 0 <= j < SSTABLE_MAX_LEVEL implies #[trigger] sstables@[j] == (if j == lvl as int {
                            sstables@[lvl as int]
                        } else {
                            slv[j]
                        }) by {}
                        assert(sstables@[lvl as int]@ == placed);
                        lemma_levels_count_pointwise(sstables@, slv, lvl as int);
                        assert(tables0.contains(tv)) by {
                            assert(tables0[remaining.len() - 1] == tv);
                        }
                        // each level stays sound, tagged, and ordered
                        assert forall|i2: int| 0 <= i2 < SSTABLE_MAX_LEVEL implies all_wf(
                            (#[trigger] sstables@[i2])@,
                        ) by {
                            if i2 == lvl as int {
                                assert forall|j: int| 0 <= j < placed.len() implies (
                                #[trigger] placed[j]).wf() by {
                                    if placed[j] == tv {
                                    } else {
                                        assert(lv0.contains(placed[j]));
                                        let w: int = choose|w: int|
                                            0 <= w < lv0.len() && lv0[w] == placed[j];
                                        assert(all_wf(lv0));
                                    }
                                }
                            } else {
                                assert(sstables@[i2]@ == slv[i2]@);
                                assert(all_wf(slv[i2]@));
                            }
                        }
                        assert forall|i2: int, j: int|
                            0 <= i2 < SSTABLE_MAX_LEVEL && 0 <= j < sstables@[i2]@.len() implies ((
                        #[trigger] sstables@[i2]@[j]).spec_meta().level as int) == i2 by {
                            if i2 == lvl as int {
                                if placed[j] == tv {
                                } else {
                                    assert(lv0.contains(placed[j]));
                                    let w: int = choose|w: int|
                                        0 <= w < lv0.len() && lv0[w] == placed[j];
                                    assert((lv0[w].spec_meta().level as int) == i2);
                                }
                            } else {
                                assert(sstables@[i2]@ == slv[i2]@);
                            }
                        }
                        assert forall|i2: int, a: int, b: int|
                            0 <= i2 < SSTABLE_MAX_LEVEL && 0 <= a < b < sstables@[i2]@.len()
                            implies (#[trigger] sstables@[i2]@[a]).spec_meta().id <= (
                        #[trigger] sstables@[i2]@[b]).spec_meta().id by {
                            if i2 == lvl as int {
                                assert(ids_sorted(placed));
                            } else {
                                assert(sstables@[i2]@ == slv[i2]@);
                            }
                        }
                        // everything already placed stays placed, and the
                        // popped table is now placed
                        assert forall|u: int|
                            tables@.len() <= u < tables0.len() implies sstables@[(
                        #[trigger] tables0[u]).spec_meta().level as int]@.contains(tables0[u]) by {
                            if u == tables@.len() {
                                assert(tables0[u] == tv);
                                assert(placed.contains(tv));
                            } else {
                                let lu: int = tables0[u].spec_meta().level as int;
                                assert(slv[lu]@.contains(tables0[u]));
                                if lu == lvl as int {
                                    assert(lv0.contains(tables0[u]));
                                    assert(placed.contains(tables0[u]));
                                } else {
                                    assert(sstables@[lu]@ == slv[lu]@);
                                }
                            }
                        }
                        assert forall|i2: int, j: int|
                            0 <= i2 < SSTABLE_MAX_LEVEL && 0 <= j < sstables@[i2]@.len()
                            implies tables0.contains(#[trigger] sstables@[i2]@[j]) by {
                            if i2 == lvl as int {
                                if placed[j] == tv {
                                } else {
                                    assert(lv0.contains(placed[j]));
                                    let w: int = choose|w: int|
                                        0 <= w < lv0.len() && lv0[w] == placed[j];
                                    assert(tables0.contains(slv[lvl as int]@[w]));
                                }
                            } else {
                                assert(sstables@[i2]@ == slv[i2]@);
                            }
                        }
                    }
                },
            }
        }
        let r = LsmStorage { config, wal, memtable, sstables };
        proof {
            assert(r.spec_levels() == sstables@);
            assert(tables0.take(tables0.len() as int) =~= tables0);
        }
        Ok(r)
    }
}

proof fn lemma_levels_count_empty(lv: Seq<Vec<SsTable>>)
    requires
        forall|j: int| 0 <= j < lv.len() ==> (#[trigger] lv[j])@.len() == 0,
    ensures
        levels_count(lv) == 0,
    decreases lv.len(),
{
    if lv.len() > 0 {
        lemma_levels_count_empty(lv.drop_last());
    }
}

/// Totals follow the per-level lengths.
proof fn lemma_levels_count_pointwise(lv: Seq<Vec<SsTable>>, lv0: Seq<Vec<SsTable>>, i: int)
    requires
        lv0.len() == lv.len(),
        0 <= i < lv.len(),
        lv[i]@.len() == lv0[i]@.len() + 1,
        forall|j: int| 0 <= j < lv.len() && j != i ==> (#[trigger] lv0[j])@.len() == lv[j]@.len(),
    ensures
        levels_count(lv) == levels_count(lv0) + 1,
    decreases lv.len(),
{
    if lv.len() > 0 {
        if i == lv.len() - 1 {
            lemma_levels_count_same(lv.drop_last(), lv0.drop_last());
        } else {
            lemma_levels_count_pointwise(lv.drop_last(), lv0.drop_last(), i);
        }
    }
}

/// Levels of equal lengths hold equally many tables.
proof fn lemma_levels_count_same(lv: Seq<Vec<SsTable>>, lv0: Seq<Vec<SsTable>>)
    requires
        lv0.len() == lv.len(),
        forall|j: int| 0 <= j < lv.len() ==> (#[trigger] lv0[j])@.len() == lv[j]@.len(),
    ensures
        levels_count(lv) == levels_count(lv0),
    decreases lv.len(),
{
    if lv.len() > 0 {
        lemma_levels_count_same(lv.drop_last(), lv0.drop_last());
    }
}

} // verus!
