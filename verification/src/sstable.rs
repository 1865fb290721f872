//! The sorted string table: an immutable image of one on-disk run. The data
//! image is a dense sequence of records in strictly ascending key order; the
//! sparse index maps a subset of the keys to their byte offsets; the Bloom
//! filter answers the fast path of a point lookup; the checksums seal the
//! data and index bytes.

use vstd::prelude::*;
use crate::codec::{
    append_record, has_record_at, read_record, rec_end, rec_key, rec_klen, rec_value, rec_vlen,
    record_len, spec_record, lemma_record_parses, u32_le_bytes, RecordRead,
};
use crate::keys::{
    key_eq, key_lt, keys_sorted, kv_contains, kv_idx, kv_map, lemma_kv_insert, lemma_kv_map_at,
    lemma_lex_connex, lemma_lex_irrefl, lemma_lex_trans, lemma_lower_bound_props, lex_lt,
    pairs_view, spec_lower_bound, KvSeq,
};
use crate::checksums::{checksum_of, Checksums};
use crate::kv::KeyValuePair;
use crate::sstable_index::offsets_view;
use crate::memtable::MemTable;
use crate::sstable_bloom_filter::SstableBloomFilter;
use crate::sstable_index::SstableIndex;
use crate::sstable_metadata::{SsTableMetadata, SSTABLE_MAX_LEVEL};

verus! {

/// Every hundredth key goes into the sparse index.
pub const INDEX_STEP: usize = 100;

/// The data image holds exactly `entries`, one record after another, with
/// `offs` marking the record boundaries.
pub open spec fn layout(data: Seq<u8>, entries: KvSeq, offs: Seq<int>) -> bool {
    &&& offs.len() == entries.len() + 1
    &&& offs[0] == 0
    &&& offs[entries.len() as int] == data.len()
    &&& forall|j: int|
        0 <= j < entries.len() ==> {
            &&& (#[trigger] entries[j]).0.len() <= u32::MAX
            &&& entries[j].1.len() <= u32::MAX
            &&& offs[j + 1] == offs[j] + record_len(entries[j].0, entries[j].1)
            &&& data.subrange(offs[j], offs[j + 1]) == spec_record(entries[j].0, entries[j].1)
        }
}

/// Every indexed key is one of the entries, at its own record offset.
pub open spec fn index_corr(ix: Seq<(Seq<u8>, u64)>, entries: KvSeq, offs: Seq<int>) -> bool {
    forall|t: int|
        0 <= t < ix.len() ==> exists|j: int|
            {
                &&& 0 <= j < entries.len()
                &&& j + 1 < offs.len()
                &&& (#[trigger] ix[t]).0 == entries[j].0
                &&& ix[t].1 == offs[j]
            }
}

/// Record boundaries ascend strictly.
pub proof fn lemma_offs_mono(data: Seq<u8>, entries: KvSeq, offs: Seq<int>, a: int, b: int)
    requires
        layout(data, entries, offs),
        0 <= a <= b <= entries.len(),
    ensures
        offs[a] <= offs[b],
        a < b ==> offs[a] + 8 <= offs[b],
    decreases b - a,
{
    if a < b {
        lemma_offs_mono(data, entries, offs, a, b - 1);
        assert(offs[b] == offs[b - 1] + record_len(entries[b - 1].0, entries[b - 1].1));
    }
}

/// Two tables are the same table exactly when they carry the same
/// identifier.
impl PartialEq for SsTable {
    fn eq(&self, other: &SsTable) -> (r: bool) {
        self.metadata.id == other.metadata.id
    }
}

impl vstd::std_specs::cmp::PartialEqSpecImpl for SsTable {
    open spec fn obeys_eq_spec() -> bool {
        true
    }

    open spec fn eq_spec(&self, other: &SsTable) -> bool {
        self.spec_meta().id == other.spec_meta().id
    }
}

pub struct SsTable {
    metadata: SsTableMetadata,
    data: Vec<u8>,
    index: SstableIndex,
    bloom_filter: SstableBloomFilter,
    size_bytes: u64,
    entries: Ghost<KvSeq>,
    offs: Ghost<Seq<int>>,
}

impl SsTable {
    /// The records of the data image, as key/value pairs.
    pub closed spec fn spec_entries(&self) -> KvSeq {
        self.entries@
    }

    pub closed spec fn spec_offs(&self) -> Seq<int> {
        self.offs@
    }

    pub closed spec fn spec_data(&self) -> Seq<u8> {
        self.data@
    }

    pub closed spec fn spec_index(&self) -> Seq<(Seq<u8>, u64)> {
        self.index.spec_entries()
    }

    pub closed spec fn spec_meta(&self) -> SsTableMetadata {
        self.metadata
    }

    pub closed spec fn spec_size(&self) -> int {
        self.size_bytes as int
    }

    /// The table's filter, as a value.
    pub closed spec fn spec_bloom(&self) -> SstableBloomFilter {
        self.bloom_filter
    }

    pub closed spec fn spec_bloom_covers(&self, k: Seq<u8>) -> bool {
        self.bloom_filter.contents().contains(k) || self.bloom_filter.test(k)
    }


    /// The map the table denotes.
    pub open spec fn spec_map(&self) -> Map<Seq<u8>, Seq<u8>> {
        kv_map(self.spec_entries())
    }

    /// Well-formedness: the data image lays out the entries exactly, keys
    /// ascend strictly, every indexed key points at its own record, every
    /// key answers positive in the Bloom filter, and the descriptor is
    /// sound.
    pub open spec fn wf(&self) -> bool {
        &&& layout(self.spec_data(), self.spec_entries(), self.spec_offs())
        &&& keys_sorted(self.spec_entries())
        &&& keys_sorted(self.spec_index())
        &&& index_corr(self.spec_index(), self.spec_entries(), self.spec_offs())
        &&& self.spec_bloom().inv()
        &&& forall|j: int|
            0 <= j < self.spec_entries().len() ==> self.spec_bloom_covers(
                (#[trigger] self.spec_entries()[j]).0,
            )
        &&& self.spec_size() == self.spec_data().len()
        &&& self.spec_meta().wf()
    }

    pub fn id(&self) -> (r: u128)
        ensures
            r == self.spec_meta().id,
    {
        self.metadata.id
    }

    pub fn level(&self) -> (r: u8)
        ensures
            r == self.spec_meta().level,
    {
        self.metadata.level
    }

    /// The descriptor, for persisting.
    pub fn metadata_ref(&self) -> (r: &SsTableMetadata)
        ensures
            *r == self.spec_meta(),
    {
        &self.metadata
    }

    /// The raw data image, for persisting and for checksums.
    pub fn data_ref(&self) -> (r: &Vec<u8>)
        ensures
            r@ == self.spec_data(),
    {
        &self.data
    }

    /// The sparse index, for persisting.
    pub fn index_ref(&self) -> (r: &SstableIndex)
        ensures
            r.spec_entries() == self.spec_index(),
    {
        &self.index
    }

    /// The Bloom filter, for persisting.
    pub fn bloom_filter_ref(&self) -> (r: &SstableBloomFilter)
        ensures
            *r == self.spec_bloom(),
    {
        &self.bloom_filter
    }

    /// The length of the data image.
    pub fn size_bytes(&self) -> (r: u64)
        ensures
            r == self.spec_size(),
    {
        self.size_bytes
    }

    /// Builds the five-part table from already sorted entries.
    fn build(metadata: SsTableMetadata, entries: &Vec<(Vec<u8>, Vec<u8>)>, bloom_items: usize) -> (r:
        SsTable)
        requires
            metadata.wf(),
            keys_sorted(pairs_view(entries@)),
            forall|j: int|
                0 <= j < entries@.len() ==> (#[trigger] pairs_view(entries@)[j]).0.len()
                    <= u32::MAX && pairs_view(entries@)[j].1.len() <= u32::MAX,
        ensures
            r.wf(),
            r.spec_entries() == pairs_view(entries@),
            r.spec_meta() == metadata,
            r.spec_index().len() == (r.spec_entries().len() + (INDEX_STEP as int) - 1) / (
            INDEX_STEP as int),
            forall|t: int|
                0 <= t < r.spec_index().len() ==> (#[trigger] r.spec_index()[t]).0
                    == r.spec_entries()[t * (INDEX_STEP as int)].0 && r.spec_index()[t].1
                    == r.spec_offs()[t * (INDEX_STEP as int)],
    {
        let ghost es: KvSeq = pairs_view(entries@);
        let mut data: Vec<u8> = Vec::new();
        let mut index: SstableIndex = SstableIndex::new();
        let mut bloom: SstableBloomFilter = SstableBloomFilter::new(bloom_items);
        let ghost mut offs: Seq<int> = seq![0int];
        let n: usize = entries.len();
        let mut i: usize = 0;
        while i < n
            invariant
                i <= n,
                n == entries@.len(),
                es == pairs_view(entries@),
                keys_sorted(es),
                forall|j: int|
                    0 <= j < n ==> (#[trigger] es[j]).0.len() <= u32::MAX && es[j].1.len()
                        <= u32::MAX,
                layout(data@, es.take(i as int), offs),
                index.inv(),
                index_corr(index.spec_entries(), es, offs),
                index.spec_entries().len() == (i as int + (INDEX_STEP as int) - 1) / (
                INDEX_STEP as int),
                forall|t: int|
                    0 <= t < index.spec_entries().len() ==> (#[trigger] index.spec_entries()[
                        t
                    ]).0 == es[t * (INDEX_STEP as int)].0 && index.spec_entries()[t].1 == offs[t * (
                    INDEX_STEP as int)],
                bloom.inv(),
                forall|j: int| 0 <= j < i ==> bloom.contents().contains((#[trigger] es[j]).0),
            decreases n - i,
        {
            let ghost data0 = data@;
            let ghost offs0 = offs;
            let ghost index0 = index.spec_entries();
            let e = &entries[i];
            proof {
                assert(es[i as int] == (e.0@, e.1@));
            }
            let dpos: u64 = data.len() as u64;
            bloom.insert(e.0.as_slice());
            append_record(&mut data, e.0.as_slice(), e.1.as_slice());
            proof {
                offs = offs.push(data@.len() as int);
                assert forall|j: int| 0 <= j <= i implies offs[j] == offs0[j] by {}
                let s2 = es.take(i + 1);
                assert forall|j: int| 0 <= j < s2.len() implies {
                    &&& (#[trigger] s2[j]).0.len() <= u32::MAX
                    &&& s2[j].1.len() <= u32::MAX
                    &&& offs[j + 1] == offs[j] + record_len(s2[j].0, s2[j].1)
                    &&& data@.subrange(offs[j], offs[j + 1]) == spec_record(s2[j].0, s2[j].1)
                } by {
                    assert(s2[j] == es[j]);
                    if j < i {
                        assert(es.take(i as int)[j] == es[j]);
                        lemma_offs_mono(data0, es.take(i as int), offs0, 0, j);
                        lemma_offs_mono(data0, es.take(i as int), offs0, j + 1, i as int);
                        assert(data0.subrange(offs0[j], offs0[j + 1]) == spec_record(
                            es[j].0,
                            es[j].1,
                        ));
                        assert(data@.subrange(offs[j], offs[j + 1]) =~= data0.subrange(
                            offs0[j],
                            offs0[j + 1],
                        ));
                    } else {
                        assert(offs[j] == data0.len());
                        assert(data@ == data0 + spec_record(es[i as int].0, es[i as int].1));
                        assert(data@.subrange(offs[j], offs[j + 1]) =~= spec_record(
                            es[i as int].0,
                            es[i as int].1,
                        ));
                    }
                }
                assert(layout(data@, s2, offs));
            }
            if i % INDEX_STEP == 0 {
                proof {
                    assert forall|t: int| 0 <= t < index.spec_entries().len() implies lex_lt(
                        (#[trigger] index.spec_entries()[t]).0,
                        e.0@,
                    ) by {
                        let j: int = choose|j: int|
                            {
                                &&& 0 <= j < es.len()
                                &&& j + 1 < offs0.len()
                                &&& (#[trigger] index.spec_entries()[t]).0 == es[j].0
                                &&& index.spec_entries()[t].1 == offs0[j]
                            };
                        assert(j < i);
                        assert(lex_lt(es[j].0, es[i as int].0));
                    }
                }
                index.insert(e.0.clone(), dpos);
                proof {
                    assert(index.spec_entries() =~= index0.push((e.0@, dpos)));
                    assert(i as int % (INDEX_STEP as int) == 0);
                    assert((i as int + (INDEX_STEP as int) - 1) / (INDEX_STEP as int) == i as int
                        / (INDEX_STEP as int));
                    assert(index0.len() == i as int / (INDEX_STEP as int));
                    assert((i as int + 1 + (INDEX_STEP as int) - 1) / (INDEX_STEP as int) == i as int
                        / (INDEX_STEP as int) + 1);
                    assert(index0.len() * (INDEX_STEP as int) == i as int) by {
                        assert(i as int == (INDEX_STEP as int) * (i as int / (INDEX_STEP as int))
                            + i as int % (INDEX_STEP as int)) by {
                            vstd::arithmetic::div_mod::lemma_fundamental_div_mod(
                                i as int,
                                INDEX_STEP as int,
                            );
                        }
                    }
                    assert(index.spec_entries()[index0.len() as int] == (e.0@, dpos));
                    assert(offs[i as int] == data0.len());
                    assert(es[i as int].0 == e.0@);
                }
            } else {
                proof {
                    assert(i as int % (INDEX_STEP as int) != 0);
                    assert((i as int + 1 + (INDEX_STEP as int) - 1) / (INDEX_STEP as int) == (
                    i as int + (INDEX_STEP as int) - 1) / (INDEX_STEP as int));
                }
            }
            proof {
                let ghost ixs = index.spec_entries();
                assert forall|t: int| 0 <= t < ixs.len() implies exists|j: int|
                    {
                        &&& 0 <= j < es.len()
                        &&& j + 1 < offs.len()
                        &&& (#[trigger] ixs[t]).0 == es[j].0
                        &&& ixs[t].1 == offs[j]
                    } by {
                    if t < index0.len() {
                        let j: int = choose|j: int|
                            {
                                &&& 0 <= j < es.len()
                                &&& j + 1 < offs0.len()
                                &&& (#[trigger] index0[t]).0 == es[j].0
                                &&& index0[t].1 == offs0[j]
                            };
                        assert(ixs[t] == index0[t]);
                        assert(offs[j] == offs0[j]);
                        assert(0 <= j < es.len() && j + 1 < offs.len() && ixs[t].0 == es[j].0
                            && ixs[t].1 == offs[j]);
                    } else {
                        assert(ixs[t] == (e.0@, dpos));
                        assert(offs[i as int] == data0.len());
                        assert(0 <= i < es.len() && (i as int) + 1 < offs.len() && ixs[t].0
                            == es[i as int].0 && ixs[t].1 == offs[i as int]);
                    }
                }
                assert(index_corr(index.spec_entries(), es, offs));
            }
            i = i + 1;
        }
        let size: u64 = data.len() as u64;
        proof {
            assert(es.take(n as int) =~= es);
        }
        SsTable {
            metadata,
            data,
            index,
            bloom_filter: bloom,
            size_bytes: size,
            entries: Ghost(es),
            offs: Ghost(offs),
        }
    }

    /// Writes a frozen memtable out as a level-zero table: the table holds
    /// exactly the memtable's entries, with every hundredth key — the
    /// first included — in the sparse index.
    pub fn from_memtable(base_path: &str, memtable: &MemTable) -> (r: SsTable)
        requires
            memtable.inv(),
        ensures
            r.wf(),
            r.spec_entries() == memtable.spec_entries(),
            r.spec_map() == memtable@,
            r.spec_meta().level == 0,
            r.spec_index().len() == (r.spec_entries().len() + (INDEX_STEP as int) - 1) / (
            INDEX_STEP as int),
            forall|t: int|
                0 <= t < r.spec_index().len() ==> (#[trigger] r.spec_index()[t]).0
                    == r.spec_entries()[t * (INDEX_STEP as int)].0 && r.spec_index()[t].1
                    == r.spec_offs()[t * (INDEX_STEP as int)],
    {
        let metadata: SsTableMetadata = SsTableMetadata::new(String::from_str(base_path), 0);
        let count: usize = memtable.size();
        let mut entries: Vec<(Vec<u8>, Vec<u8>)> = Vec::new();
        let mut i: usize = 0;
        while i < count
            invariant
                i <= count,
                count == memtable.spec_entries().len(),
                memtable.inv(),
                pairs_view(entries@) == memtable.spec_entries().take(i as int),
            decreases count - i,
        {
            let ghost entries0 = entries@;
            proof {
                assert(pairs_view(entries0).len() == entries0.len());
                assert(entries0.len() == i as int);
            }
            let e: (Vec<u8>, Vec<u8>) = memtable.entry_at(i);
            proof {
                assert((e.0@, e.1@) == memtable.spec_entries()[i as int]);
            }
            entries.push(e);
            proof {
                assert forall|t: int|
                    0 <= t < i + 1 implies pairs_view(entries@)[t] == memtable.spec_entries().take(
                    i + 1,
                )[t] by {
                    if t < i {
                        assert(entries@[t] == entries0[t]);
                        assert(pairs_view(entries0)[t] == memtable.spec_entries().take(i as int)[t]);
                    }
                }
                assert(pairs_view(entries@) =~= memtable.spec_entries().take(i + 1));
            }
            i = i + 1;
        }
        proof {
            assert(memtable.spec_entries().take(count as int) =~= memtable.spec_entries());
        }
        SsTable::build(metadata, &entries, count)
    }

    /// Point lookup: Bloom filter first, then an exact sparse-index hit,
    /// otherwise a linear scan bounded by the neighbouring indexed keys.
    /// Returns the value stored under the key, if any.
    #[verifier::rlimit(100)]
    pub fn get(&self, key: &[u8]) -> (r: Option<Vec<u8>>)
        requires
            self.wf(),
        ensures
            match r {
                Some(v) => self.spec_map().contains_key(key@) && v@ == self.spec_map()[key@],
                None => !self.spec_map().contains_key(key@),
            },
    {
        let ghost es = self.spec_entries();
        let ghost offs = self.spec_offs();
        let dlen: usize = self.data.len();
        if !self.bloom_filter.contains(key) {
            proof {
                if self.spec_map().contains_key(key@) {
                    assert(kv_contains(es, key@));
                    let w: int = kv_idx(es, key@);
                    assert(self.spec_bloom_covers(es[w].0));
                    assert(false);
                }
            }
            return None;
        }
        match self.index.get(key) {
            Some(p) => {
                let ghost t: int = kv_idx(self.spec_index(), key@);
                let ghost j: int = choose|j: int|
                    {
                        &&& 0 <= j < es.len()
                        &&& j + 1 < offs.len()
                        &&& (#[trigger] self.spec_index()[t]).0 == es[j].0
                        &&& self.spec_index()[t].1 == offs[j]
                    };
                proof {
                    crate::keys::lemma_kv_map_contains(self.spec_index(), key@);
                    assert(0 <= t < self.spec_index().len() && self.spec_index()[t].0 == key@);
                    lemma_kv_map_at(self.spec_index(), t);
                    assert(p == self.spec_index()[t].1);
                    assert(es[j].0 == key@);
                    assert(p == offs[j]);
                    lemma_offs_mono(self.spec_data(), es, offs, j + 1, es.len() as int);
                    lemma_record_parses(self.spec_data(), offs[j], es[j].0, es[j].1);
                    assert(p <= dlen as u64);
                }
                match read_record(self.data.as_slice(), p as usize) {
                    RecordRead::Record(kv, _len) => {
                        proof {
                            lemma_kv_map_at(es, j);
                        }
                        Some(kv.value)
                    },
                    _ => {
                        proof {
                            assert(false);
                        }
                        None
                    },
                }
            },
            None => {
                let (start, end) = self.index.position_range(key, self.size_bytes);
                let ghost lb: int = spec_lower_bound(self.spec_index(), key@);
                // where the scan starts and must stop, as entry positions
                let ghost j0: int = if lb > 0 {
                    choose|j: int|
                        {
                            &&& 0 <= j < es.len()
                            &&& j + 1 < offs.len()
                            &&& (#[trigger] self.spec_index()[lb - 1]).0 == es[j].0
                            &&& self.spec_index()[lb - 1].1 == offs[j]
                        }
                } else {
                    0
                };
                let ghost je: int = if lb < self.spec_index().len() {
                    choose|j: int|
                        {
                            &&& 0 <= j < es.len()
                            &&& j + 1 < offs.len()
                            &&& (#[trigger] self.spec_index()[lb]).0 == es[j].0
                            &&& self.spec_index()[lb].1 == offs[j]
                        }
                } else {
                    es.len() as int
                };
                proof {
                    lemma_lower_bound_props(self.spec_index(), key@);
                    if lb > 0 {
                        assert(lex_lt(self.spec_index()[lb - 1].0, key@));
                        assert(es[j0].0 == self.spec_index()[lb - 1].0);
                        assert(start == offs[j0]);
                    } else {
                        assert(start == 0);
                        assert(offs[0] == 0);
                    }
                    // everything before the scan window misses the key
                    assert forall|q: int| 0 <= q < j0 implies (#[trigger] es[q]).0 != key@ by {
                        assert(lex_lt(es[j0].0, key@));
                        if q < j0 {
                            assert(lex_lt(es[q].0, es[j0].0));
                            lemma_lex_trans(es[q].0, es[j0].0, key@);
                            lemma_lex_irrefl(key@);
                        }
                    }
                    // everything at or past the window's end misses it too
                    if lb < self.spec_index().len() {
                        assert(!lex_lt(self.spec_index()[lb].0, key@));
                        assert(!self.spec_map().contains_key(key@) ==> true);
                        assert(end == offs[je]);
                        assert(es[je].0 == self.spec_index()[lb].0);
                        lemma_kv_map_at(self.spec_index(), lb);
                        assert(self.spec_index()[lb].0 != key@);
                        if lex_lt(key@, es[je].0) {
                        } else {
                            lemma_lex_connex(key@, es[je].0);
                            assert(false);
                        }
                        assert forall|q: int| je <= q < es.len() implies (#[trigger] es[q]).0
                            != key@ by {
                            if q > je {
                                assert(lex_lt(es[je].0, es[q].0));
                                lemma_lex_trans(key@, es[je].0, es[q].0);
                            }
                            assert(lex_lt(key@, es[q].0));
                            lemma_lex_irrefl(key@);
                        }
                    } else {
                        assert(end == self.spec_size());
                        assert(end == offs[es.len() as int]);
                    }
                    lemma_offs_mono(self.spec_data(), es, offs, 0, j0);
                    lemma_offs_mono(self.spec_data(), es, offs, j0, es.len() as int);
                    assert(start <= dlen as u64);
                }
                let mut pos: usize = start as usize;
                let ghost mut j: int = j0;
                loop
                    invariant
                        self.wf(),
                        es == self.spec_entries(),
                        offs == self.spec_offs(),
                        dlen == self.spec_data().len(),
                        0 <= j <= es.len(),
                        pos == offs[j],
                        pos <= dlen,
                        0 <= je <= es.len(),
                        offs[je] == end as int,
                        forall|q: int| je <= q < es.len() ==> (#[trigger] es[q]).0 != key@,
                        forall|q: int| 0 <= q < j ==> (#[trigger] es[q]).0 != key@,
                    decreases es.len() - j,
                {
                    match read_record(self.data.as_slice(), pos) {
                        RecordRead::End => {
                            proof {
                                if j < es.len() {
                                    lemma_offs_mono(self.spec_data(), es, offs, j, es.len() as int);
                                }
                                self.lemma_absent(key@);
                            }
                            return None;
                        },
                        RecordRead::Record(kv, len) => {
                            proof {
                                if j == es.len() {
                                    assert(pos == self.spec_data().len());
                                    assert(false);
                                }
                                lemma_offs_mono(self.spec_data(), es, offs, j + 1, es.len() as int);
                                lemma_record_parses(self.spec_data(), offs[j], es[j].0, es[j].1);
                            }
                            if key_eq(kv.key_ref(), key) {
                                proof {
                                    lemma_kv_map_at(es, j);
                                }
                                return Some(kv.value);
                            }
                            pos = pos + len;
                            proof {
                                j = j + 1;
                            }
                            if (pos as u64) >= end {
                                proof {
                                    if j < je {
                                        lemma_offs_mono(self.spec_data(), es, offs, j, je);
                                        assert(false);
                                    }
                                    self.lemma_absent(key@);
                                }
                                return None;
                            }
                        },
                        RecordRead::Truncated => {
                            proof {
                                if j == es.len() {
                                    assert(pos == self.spec_data().len());
                                } else {
                                    lemma_offs_mono(
                                        self.spec_data(),
                                        es,
                                        offs,
                                        j + 1,
                                        es.len() as int,
                                    );
                                    lemma_record_parses(self.spec_data(), offs[j], es[j].0, es[j].1);
                                }
                                assert(false);
                            }
                            return None;
                        },
                    }
                }
            },
        }
    }

    /// If every entry's key differs from `k`, the map misses `k`.
    proof fn lemma_absent(&self, k: Seq<u8>)
        requires
            forall|q: int|
                0 <= q < self.spec_entries().len() ==> (#[trigger] self.spec_entries()[q]).0 != k,
        ensures
            !self.spec_map().contains_key(k),
    {
        if self.spec_map().contains_key(k) {
            assert(kv_contains(self.spec_entries(), k));
            let w: int = kv_idx(self.spec_entries(), k);
            assert(self.spec_entries()[w].0 == k);
            assert(false);
        }
    }

    /// The records of the data image, in file order.
    pub fn records(&self) -> (r: Vec<KeyValuePair>)
        requires
            self.wf(),
        ensures
            r@.len() == self.spec_entries().len(),
            forall|j: int|
                0 <= j < r@.len() ==> (#[trigger] r@[j]).key@ == self.spec_entries()[j].0
                    && r@[j].value@ == self.spec_entries()[j].1,
    {
        let ghost es = self.spec_entries();
        let ghost offs = self.spec_offs();
        let dlen: usize = self.data.len();
        let mut out: Vec<KeyValuePair> = Vec::new();
        let mut pos: usize = 0;
        let ghost mut j: int = 0;
        loop
            invariant
                self.wf(),
                es == self.spec_entries(),
                offs == self.spec_offs(),
                dlen == self.spec_data().len(),
                0 <= j <= es.len(),
                pos == offs[j],
                pos <= self.spec_data().len(),
                out@.len() == j,
                forall|t: int|
                    0 <= t < j ==> (#[trigger] out@[t]).key@ == es[t].0 && out@[t].value@
                        == es[t].1,
            decreases es.len() - j,
        {
            match read_record(self.data.as_slice(), pos) {
                RecordRead::End => {
                    proof {
                        if j < es.len() {
                            lemma_offs_mono(self.spec_data(), es, offs, j, es.len() as int);
                        }
                    }
                    return out;
                },
                RecordRead::Record(kv, len) => {
                    proof {
                        if j == es.len() {
                            assert(pos == self.spec_data().len());
                            assert(false);
                        }
                        lemma_offs_mono(self.spec_data(), es, offs, j + 1, es.len() as int);
                        lemma_record_parses(self.spec_data(), offs[j], es[j].0, es[j].1);
                    }
                    out.push(kv);
                    pos = pos + len;
                    proof {
                        j = j + 1;
                    }
                },
                RecordRead::Truncated => {
                    proof {
                        if j == es.len() {
                            assert(pos == self.spec_data().len());
                        } else {
                            lemma_offs_mono(self.spec_data(), es, offs, j + 1, es.len() as int);
                            lemma_record_parses(self.spec_data(), offs[j], es[j].0, es[j].1);
                        }
                        assert(false);
                    }
                    return out;
                },
            }
        }
    }
}

/// The single-byte value that marks a deletion.
pub open spec fn is_tombstone(v: Seq<u8>) -> bool {
    v == seq![0u8]
}

/// The value an entry sequence stores under a key, if any.
pub open spec fn entries_get(s: KvSeq, k: Seq<u8>) -> Option<Seq<u8>> {
    if kv_map(s).contains_key(k) {
        Some(kv_map(s)[k])
    } else {
        None
    }
}

/// The value a table stores under a key, if any.
pub open spec fn table_get(t: SsTable, k: Seq<u8>) -> Option<Seq<u8>> {
    entries_get(t.spec_entries(), k)
}

pub open spec fn all_wf(ts: Seq<SsTable>) -> bool {
    forall|i: int| 0 <= i < ts.len() ==> (#[trigger] ts[i]).wf()
}

/// Newest-first lookup across a run of tables: the last table in the run is
/// the newest and wins.
pub open spec fn tables_lookup(ts: Seq<SsTable>, k: Seq<u8>) -> Option<Seq<u8>>
    decreases ts.len(),
{
    if ts.len() == 0 {
        None
    } else {
        match table_get(ts.last(), k) {
            Some(v) => Some(v),
            None => tables_lookup(ts.drop_last(), k),
        }
    }
}

/// Whether the merge may drop an entry: only a tombstone headed for the
/// last level with no table of that level still holding the key.
pub open spec fn drop_entry(e: (Seq<u8>, Seq<u8>), deeper: Seq<SsTable>, level: u8) -> bool {
    &&& is_tombstone(e.1)
    &&& (level as usize) == SSTABLE_MAX_LEVEL - 1
    &&& tables_lookup(deeper, e.0) is None
}

/// What a merge of the run keeps for one key.
pub open spec fn merge_keep(ts: Seq<SsTable>, deeper: Seq<SsTable>, level: u8, k: Seq<u8>) -> Option<
    Seq<u8>,
> {
    match tables_lookup(ts, k) {
        Some(v) => if drop_entry((k, v), deeper, level) {
            None
        } else {
            Some(v)
        },
        None => None,
    }
}

/// The merged entries with droppable tombstones removed.
pub open spec fn merge_filtered(s: KvSeq, deeper: Seq<SsTable>, level: u8) -> KvSeq
    decreases s.len(),
{
    if s.len() == 0 {
        Seq::empty()
    } else {
        let rest = merge_filtered(s.drop_last(), deeper, level);
        if drop_entry(s.last(), deeper, level) {
            rest
        } else {
            rest.push(s.last())
        }
    }
}

/// Filtering keeps the order, keeps only original entries, and answers
/// lookups exactly as the original does, minus the dropped tombstones.
pub proof fn lemma_merge_filtered(s: KvSeq, deeper: Seq<SsTable>, level: u8)
    requires
        keys_sorted(s),
    ensures
        keys_sorted(merge_filtered(s, deeper, level)),
        forall|t: int|
            0 <= t < merge_filtered(s, deeper, level).len() ==> exists|u: int|
                0 <= u < s.len() && #[trigger] merge_filtered(s, deeper, level)[t] == s[u],
        forall|k: Seq<u8>|
            #[trigger] entries_get(merge_filtered(s, deeper, level), k) == (match entries_get(
                s,
                k,
            ) {
                Some(v) => if drop_entry((k, v), deeper, level) {
                    None::<Seq<u8>>
                } else {
                    Some(v)
                },
                None => None::<Seq<u8>>,
            }),
    decreases s.len(),
{
    let f = merge_filtered(s, deeper, level);
    if s.len() == 0 {
        assert forall|k: Seq<u8>| #[trigger]
            entries_get(f, k) == None::<Seq<u8>> && entries_get(s, k) == None::<Seq<u8>> by {
            assert(!kv_contains(f, k));
            assert(!kv_contains(s, k));
        }
    } else {
        let s0 = s.drop_last();
        let e = s.last();
        assert forall|a: int, b: int| 0 <= a < b < s0.len() implies lex_lt(s0[a].0, s0[b].0) by {
            assert(s0[a] == s[a] && s0[b] == s[b]);
        }
        lemma_merge_filtered(s0, deeper, level);
        let f0 = merge_filtered(s0, deeper, level);
        let dropped = drop_entry(e, deeper, level);
        // the last key is fresh in the front
        assert forall|w: int| 0 <= w < s0.len() implies (#[trigger] s0[w]).0 != e.0 by {
            assert(s0[w] == s[w]);
            assert(lex_lt(s[w].0, s[s.len() - 1].0));
            lemma_lex_irrefl(e.0);
        }
        // membership and order of the result
        if dropped {
            assert(f == f0);
            assert forall|t: int| 0 <= t < f.len() implies exists|u: int|
                0 <= u < s.len() && #[trigger] f[t] == s[u] by {
                let u: int = choose|u: int| 0 <= u < s0.len() && #[trigger] f0[t] == s0[u];
                assert(s0[u] == s[u]);
                assert(0 <= u < s.len() && f[t] == s[u]);
            }
        } else {
            assert(f == f0.push(e));
            assert forall|t: int| 0 <= t < f.len() implies exists|u: int|
                0 <= u < s.len() && #[trigger] f[t] == s[u] by {
                if t < f0.len() {
                    let u: int = choose|u: int| 0 <= u < s0.len() && #[trigger] f0[t] == s0[u];
                    assert(s0[u] == s[u]);
                    assert(f[t] == f0[t]);
                    assert(0 <= u < s.len() && f[t] == s[u]);
                } else {
                    assert(f[t] == e);
                    assert(0 <= s.len() - 1 < s.len() && f[t] == s[s.len() - 1]);
                }
            }
            assert forall|a: int, b: int| 0 <= a < b < f.len() implies lex_lt(f[a].0, f[b].0) by {
                if b < f0.len() {
                    assert(f[a] == f0[a] && f[b] == f0[b]);
                } else {
                    assert(f[b] == e);
                    let u: int = choose|u: int| 0 <= u < s0.len() && #[trigger] f0[a] == s0[u];
                    assert(f[a] == f0[a]);
                    assert(s0[u] == s[u]);
                    assert(lex_lt(s[u].0, s[s.len() - 1].0));
                }
            }
        }
        // lookups
        assert forall|k: Seq<u8>|
            #[trigger] entries_get(f, k) == (match entries_get(s, k) {
                Some(v) => if drop_entry((k, v), deeper, level) {
                    None::<Seq<u8>>
                } else {
                    Some(v)
                },
                None => None::<Seq<u8>>,
            }) by {
            if k == e.0 {
                lemma_kv_map_at(s, s.len() - 1);
                assert(entries_get(s, k) == Some(e.1));
                if kv_contains(s0, k) {
                    let w: int = kv_idx(s0, k);
                    assert(s0[w].0 == k);
                    assert(false);
                }
                assert(entries_get(s0, k) == None::<Seq<u8>>);
                assert(entries_get(f0, k) == None::<Seq<u8>>);
                if dropped {
                    assert(entries_get(f, k) == None::<Seq<u8>>);
                } else {
                    assert(f == f0.push(e));
                    assert(f[f.len() - 1] == e);
                    lemma_kv_map_at(f, f.len() - 1);
                    assert(entries_get(f, k) == Some(e.1));
                }
            } else {
                // the last entry does not matter for other keys
                if kv_contains(s, k) {
                    let w: int = kv_idx(s, k);
                    assert(s[w].0 == k);
                    assert(w != s.len() - 1);
                    assert(s0[w] == s[w]);
                    lemma_kv_map_at(s, w);
                    lemma_kv_map_at(s0, w);
                    assert(entries_get(s, k) == Some(s[w].1));
                    assert(entries_get(s0, k) == Some(s[w].1));
                } else {
                    assert forall|w: int| 0 <= w < s0.len() implies (#[trigger] s0[w]).0 != k by {
                        assert(s0[w] == s[w]);
                    }
                    if kv_contains(s0, k) {
                        let w: int = kv_idx(s0, k);
                        assert(false);
                    }
                    assert(entries_get(s, k) == None::<Seq<u8>>);
                    assert(entries_get(s0, k) == None::<Seq<u8>>);
                }
                if !dropped {
                    assert(f == f0.push(e));
                    if kv_contains(f, k) {
                        let w: int = kv_idx(f, k);
                        assert(f[w].0 == k);
                        assert(w != f.len() - 1);
                        assert(f[w] == f0[w]);
                        lemma_kv_map_at(f, w);
                        lemma_kv_map_at(f0, w);
                        assert(entries_get(f, k) == Some(f[w].1));
                        assert(entries_get(f0, k) == Some(f[w].1));
                    } else {
                        assert forall|w: int| 0 <= w < f0.len() implies (#[trigger] f0[w]).0
                            != k by {
                            assert(f0[w] == f[w]);
                        }
                        if kv_contains(f0, k) {
                            let w: int = kv_idx(f0, k);
                            assert(false);
                        }
                        assert(entries_get(f, k) == None::<Seq<u8>>);
                        assert(entries_get(f0, k) == None::<Seq<u8>>);
                    }
                }
            }
        }
    }
}

/// The position of the first entry whose key is not below `key`.
fn pair_lower_bound(entries: &Vec<(Vec<u8>, Vec<u8>)>, key: &[u8]) -> (i: usize)
    requires
        keys_sorted(pairs_view(entries@)),
    ensures
        i <= entries@.len(),
        forall|j: int| 0 <= j < i ==> lex_lt((#[trigger] pairs_view(entries@)[j]).0, key@),
        forall|j: int|
            i <= j < entries@.len() ==> !lex_lt((#[trigger] pairs_view(entries@)[j]).0, key@),
{
    let ghost s = pairs_view(entries@);
    let n: usize = entries.len();
    let mut i: usize = 0;
    while i < n
        invariant
            i <= n,
            n == entries@.len(),
            s == pairs_view(entries@),
            keys_sorted(s),
            forall|j: int| 0 <= j < i ==> lex_lt((#[trigger] s[j]).0, key@),
        decreases n - i,
    {
        let e = &entries[i];
        proof {
            assert(s[i as int].0 == e.0@);
        }
        if !key_lt(e.0.as_slice(), key) {
            proof {
                assert forall|j: int| i <= j < n implies !lex_lt((#[trigger] s[j]).0, key@) by {
                    if j > i && lex_lt(s[j].0, key@) {
                        assert(lex_lt(s[i as int].0, s[j].0));
                        lemma_lex_trans(s[i as int].0, s[j].0, key@);
                    }
                }
            }
            return i;
        }
        i = i + 1;
    }
    i
}

/// Splices one pair into a sorted vector, replacing an equal key.
fn sorted_insert(entries: &mut Vec<(Vec<u8>, Vec<u8>)>, key: Vec<u8>, val: Vec<u8>)
    requires
        keys_sorted(pairs_view(old(entries)@)),
        key@.len() <= u32::MAX,
        val@.len() <= u32::MAX,
        forall|j: int|
            0 <= j < old(entries)@.len() ==> (#[trigger] pairs_view(old(entries)@)[j]).0.len()
                <= u32::MAX && pairs_view(old(entries)@)[j].1.len() <= u32::MAX,
    ensures
        keys_sorted(pairs_view(final(entries)@)),
        kv_map(pairs_view(final(entries)@)) == kv_map(pairs_view(old(entries)@)).insert(
            key@,
            val@,
        ),
        forall|j: int|
            0 <= j < final(entries)@.len() ==> (#[trigger] pairs_view(final(entries)@)[j]).0.len()
                <= u32::MAX && pairs_view(final(entries)@)[j].1.len() <= u32::MAX,
{
    let ghost s0: KvSeq = pairs_view(entries@);
    let n: usize = entries.len();
    let i: usize = pair_lower_bound(entries, key.as_slice());
    if i < n {
        let hit: bool = key_eq(entries[i].0.as_slice(), key.as_slice());
        proof {
            assert(s0[i as int].0 == entries@[i as int].0@);
        }
        if hit {
            proof {
                crate::keys::lemma_kv_remove(s0, i as int);
                lemma_kv_map_at(s0, i as int);
            }
            let _old = entries.remove(i);
            proof {
                assert(pairs_view(entries@) =~= s0.remove(i as int));
            }
            let ghost s1 = pairs_view(entries@);
            proof {
                assert forall|j: int| 0 <= j < i implies lex_lt((#[trigger] s1[j]).0, key@) by {
                    assert(s1[j] == s0[j]);
                }
                assert forall|j: int| i <= j < s1.len() implies lex_lt(key@, (#[trigger] s1[j]).0) by {
                    assert(s1[j] == s0[j + 1]);
                    assert(lex_lt(s0[i as int].0, s0[j + 1].0));
                }
                lemma_kv_insert(s1, i as int, key@, val@);
            }
            entries.insert(i, (key, val));
            proof {
                assert(pairs_view(entries@) =~= s1.insert(i as int, (key@, val@)));
                assert(kv_map(pairs_view(entries@)) =~= kv_map(s0).insert(key@, val@));
            }
            return ;
        }
    }
    proof {
        assert forall|j: int| i <= j < s0.len() implies lex_lt(key@, (#[trigger] s0[j]).0) by {
            assert(!lex_lt(s0[j].0, key@));
            if !lex_lt(key@, s0[j].0) {
                lemma_lex_connex(key@, s0[j].0);
                if j == i {
                    assert(s0[i as int].0 == key@);
                    assert(false);
                } else {
                    assert(lex_lt(s0[i as int].0, s0[j].0));
                    assert(!lex_lt(s0[i as int].0, key@));
                    assert(false);
                }
            }
        }
        lemma_kv_insert(s0, i as int, key@, val@);
    }
    entries.insert(i, (key, val));
    proof {
        assert(pairs_view(entries@) =~= s0.insert(i as int, (key@, val@)));
    }
}

/// Whether any table of the run holds the key.
fn tables_contain(tables: &Vec<SsTable>, key: &[u8]) -> (r: bool)
    requires
        all_wf(tables@),
    ensures
        r == (tables_lookup(tables@, key@) is Some),
{
    let ghost ts = tables@;
    let mut i: usize = tables.len();
    proof {
        assert(ts.take(i as int) =~= ts);
    }
    while i > 0
        invariant
            i <= ts.len(),
            ts == tables@,
            all_wf(ts),
            tables_lookup(ts, key@) == tables_lookup(ts.take(i as int), key@),
        decreases i,
    {
        i = i - 1;
        proof {
            assert(ts[i as int].wf());
        }
        let found: bool = tables[i].get(key).is_some();
        proof {
            assert(ts.take(i as int + 1).last() == ts[i as int]);
            assert(ts.take(i as int + 1).drop_last() =~= ts.take(i as int));
        }
        if found {
            proof {
                assert(tables_lookup(ts.take(i as int + 1), key@) is Some);
            }
            return true;
        }
    }
    proof {
        assert(ts.take(0) =~= Seq::<SsTable>::empty());
    }
    false
}

impl SsTable {
    /// Merges a run of tables into one table for the next level. The newest
    /// table of the run wins among duplicate keys; a tombstone headed for
    /// the last level is dropped when no table of that level still holds
    /// its key, and is carried along otherwise.
    pub fn merge_compact(tables: &Vec<SsTable>, level: u8, base_path: &str, deeper: &Vec<SsTable>) -> (r:
        SsTable)
        requires
            all_wf(tables@),
            all_wf(deeper@),
            1 <= (level as usize),
            (level as usize) < SSTABLE_MAX_LEVEL,
        ensures
            r.wf(),
            r.spec_meta().level == level,
            forall|k: Seq<u8>| #[trigger] table_get(r, k) == merge_keep(tables@, deeper@, level, k),
            r.spec_index().len() == (r.spec_entries().len() + (INDEX_STEP as int) - 1) / (
            INDEX_STEP as int),
            forall|t: int|
                0 <= t < r.spec_index().len() ==> (#[trigger] r.spec_index()[t]).0
                    == r.spec_entries()[t * (INDEX_STEP as int)].0 && r.spec_index()[t].1
                    == r.spec_offs()[t * (INDEX_STEP as int)],
    {
        let ghost ts = tables@;
        let mut acc: Vec<(Vec<u8>, Vec<u8>)> = Vec::new();
        let tn: usize = tables.len();
        let mut t: usize = 0;
        proof {
            assert(ts.take(0) =~= Seq::<SsTable>::empty());
            assert forall|k: Seq<u8>| #[trigger]
                entries_get(pairs_view(acc@), k) == tables_lookup(ts.take(0), k) by {
                assert(!kv_contains(pairs_view(acc@), k));
            }
        }
        while t < tn
            invariant
                t <= tn,
                tn == ts.len(),
                ts == tables@,
                all_wf(ts),
                keys_sorted(pairs_view(acc@)),
                forall|j: int|
                    0 <= j < acc@.len() ==> (#[trigger] pairs_view(acc@)[j]).0.len() <= u32::MAX
                        && pairs_view(acc@)[j].1.len() <= u32::MAX,
                forall|k: Seq<u8>| #[trigger]
                    entries_get(pairs_view(acc@), k) == tables_lookup(ts.take(t as int), k),
            decreases tn - t,
        {
            proof {
                assert(ts[t as int].wf());
            }
            let rows: Vec<KeyValuePair> = tables[t].records();
            let ghost es_t: KvSeq = ts[t as int].spec_entries();
            let rn: usize = rows.len();
            let mut ri: usize = 0;
            proof {
                assert(es_t.take(0) =~= KvSeq::empty());
                assert forall|k: Seq<u8>| #[trigger]
                    entries_get(es_t.take(0), k) == None::<Seq<u8>> by {
                    assert(!kv_contains(es_t.take(0), k));
                }
            }
            while ri < rn
                invariant
                    ri <= rn,
                    rn == es_t.len(),
                    rn == rows@.len(),
                    ts == tables@,
                    t < ts.len(),
                    all_wf(ts),
                    es_t == ts[t as int].spec_entries(),
                    keys_sorted(es_t),
                    forall|j: int|
                        0 <= j < rn ==> (#[trigger] rows@[j]).key@ == es_t[j].0
                            && rows@[j].value@ == es_t[j].1,
                    forall|j: int|
                        0 <= j < es_t.len() ==> (#[trigger] es_t[j]).0.len() <= u32::MAX
                            && es_t[j].1.len() <= u32::MAX,
                    keys_sorted(pairs_view(acc@)),
                    forall|j: int|
                        0 <= j < acc@.len() ==> (#[trigger] pairs_view(acc@)[j]).0.len()
                            <= u32::MAX && pairs_view(acc@)[j].1.len() <= u32::MAX,
                    forall|k: Seq<u8>| #[trigger]
                        entries_get(pairs_view(acc@), k) == (match entries_get(
                            es_t.take(ri as int),
                            k,
                        ) {
                            Some(v) => Some(v),
                            None => tables_lookup(ts.take(t as int), k),
                        }),
                decreases rn - ri,
            {
                let ghost acc0: KvSeq = pairs_view(acc@);
                let e = &rows[ri];
                proof {
                    assert(rows@[ri as int].key@ == es_t[ri as int].0);
                }
                sorted_insert(&mut acc, e.key.clone(), e.value.clone());
                proof {
                    let pre = es_t.take(ri as int);
                    let post = es_t.take(ri as int + 1);
                    assert(post =~= pre.insert(ri as int, es_t[ri as int]));
                    assert forall|j: int| 0 <= j < ri implies lex_lt(
                        (#[trigger] pre[j]).0,
                        es_t[ri as int].0,
                    ) by {
                        assert(pre[j] == es_t[j]);
                    }
                    lemma_kv_insert(pre, ri as int, es_t[ri as int].0, es_t[ri as int].1);
                    assert(kv_map(post) == kv_map(pre).insert(es_t[ri as int].0, es_t[ri as int].1));
                    assert forall|k: Seq<u8>| #[trigger]
                        entries_get(pairs_view(acc@), k) == (match entries_get(post, k) {
                            Some(v) => Some(v),
                            None => tables_lookup(ts.take(t as int), k),
                        }) by {
                        assert(entries_get(acc0, k) == (match entries_get(pre, k) {
                            Some(v) => Some(v),
                            None => tables_lookup(ts.take(t as int), k),
                        }));
                        assert(kv_map(pairs_view(acc@)) == kv_map(acc0).insert(
                            es_t[ri as int].0,
                            es_t[ri as int].1,
                        ));
                        if k == es_t[ri as int].0 {
                            assert(kv_map(pairs_view(acc@)).contains_key(k));
                            assert(kv_map(pairs_view(acc@))[k] == es_t[ri as int].1);
                            assert(kv_map(post).contains_key(k));
                            assert(kv_map(post)[k] == es_t[ri as int].1);
                        } else {
                            assert(kv_map(pairs_view(acc@)).contains_key(k) == kv_map(
                                acc0,
                            ).contains_key(k));
                            assert(kv_map(post).contains_key(k) == kv_map(pre).contains_key(k));
                            if kv_map(acc0).contains_key(k) {
                                assert(kv_map(pairs_view(acc@))[k] == kv_map(acc0)[k]);
                            }
                            if kv_map(pre).contains_key(k) {
                                assert(kv_map(post)[k] == kv_map(pre)[k]);
                            }
                        }
                    }
                }
                ri = ri + 1;
            }
            proof {
                assert(es_t.take(rn as int) =~= es_t);
                assert(ts.take(t as int + 1).last() == ts[t as int]);
                assert(ts.take(t as int + 1).drop_last() =~= ts.take(t as int));
                assert forall|k: Seq<u8>| #[trigger]
                    entries_get(pairs_view(acc@), k) == tables_lookup(ts.take(t as int + 1), k) by {
                    assert(entries_get(pairs_view(acc@), k) == (match entries_get(es_t, k) {
                        Some(v) => Some(v),
                        None => tables_lookup(ts.take(t as int), k),
                    }));
                    assert(table_get(ts.take(t as int + 1).last(), k) == entries_get(es_t, k));
                }
            }
            t = t + 1;
        }
        proof {
            assert(ts.take(tn as int) =~= ts);
        }
        // drop the tombstones that are safe to drop
        let last_level: bool = (level as usize) == SSTABLE_MAX_LEVEL - 1;
        let mut out: Vec<(Vec<u8>, Vec<u8>)> = Vec::new();
        let an: usize = acc.len();
        let mut idx: usize = 0;
        let ghost accs: KvSeq = pairs_view(acc@);
        proof {
            assert(pairs_view(out@) =~= merge_filtered(accs.take(0), deeper@, level));
        }
        while idx < an
            invariant
                idx <= an,
                an == acc@.len(),
                accs == pairs_view(acc@),
                keys_sorted(accs),
                all_wf(deeper@),
                last_level == ((level as usize) == SSTABLE_MAX_LEVEL - 1),
                forall|j: int|
                    0 <= j < an ==> (#[trigger] accs[j]).0.len() <= u32::MAX && accs[j].1.len()
                        <= u32::MAX,
                pairs_view(out@) == merge_filtered(accs.take(idx as int), deeper@, level),
            decreases an - idx,
        {
            let ghost out0 = pairs_view(out@);
            let e = &acc[idx];
            proof {
                assert(accs[idx as int] == (e.0@, e.1@));
            }
            let is_tomb: bool = e.1.len() == 1 && {
                let b: u8 = e.1[0];
                b == 0
            };
            proof {
                if is_tomb {
                    assert(e.1@ =~= seq![0u8]);
                }
                if is_tombstone(e.1@) {
                    assert(e.1@.len() == 1 && e.1@[0] == 0u8);
                }
            }
            let mut dropit: bool = false;
            if is_tomb && last_level {
                if !tables_contain(deeper, e.0.as_slice()) {
                    dropit = true;
                }
            }
            proof {
                assert(dropit == drop_entry(accs[idx as int], deeper@, level));
                assert(accs.take(idx as int + 1).drop_last() =~= accs.take(idx as int));
                assert(accs.take(idx as int + 1).last() == accs[idx as int]);
            }
            if !dropit {
                out.push((e.0.clone(), e.1.clone()));
                proof {
                    assert(pairs_view(out@) =~= out0.push(accs[idx as int]));
                    assert(pairs_view(out@) =~= merge_filtered(
                        accs.take(idx as int + 1),
                        deeper@,
                        level,
                    ));
                }
            } else {
                proof {
                    assert(pairs_view(out@) =~= merge_filtered(
                        accs.take(idx as int + 1),
                        deeper@,
                        level,
                    ));
                }
            }
            idx = idx + 1;
        }
        proof {
            assert(accs.take(an as int) =~= accs);
            lemma_merge_filtered(accs, deeper@, level);
        }
        // size the output filter from the input data footprint
        let mut total: usize = 0;
        let mut t2: usize = 0;
        while t2 < tn
            invariant
                t2 <= tn,
                tn == tables@.len(),
                all_wf(tables@),
            decreases tn - t2,
        {
            proof {
                assert(tables@[t2 as int].wf());
            }
            let sz: usize = tables[t2].data_ref().len();
            total = if total > usize::MAX - sz {
                usize::MAX
            } else {
                total + sz
            };
            t2 = t2 + 1;
        }
        let items: usize = total / 40;
        let metadata: SsTableMetadata = SsTableMetadata::new(String::from_str(base_path), level);
        let r: SsTable = SsTable::build(metadata, &out, items);
        proof {
            assert forall|k: Seq<u8>| #[trigger]
                table_get(r, k) == merge_keep(tables@, deeper@, level, k) by {
                assert(r.spec_entries() == pairs_view(out@));
                assert(entries_get(pairs_view(out@), k) == (match entries_get(accs, k) {
                    Some(v) => if drop_entry((k, v), deeper@, level) {
                        None::<Seq<u8>>
                    } else {
                        Some(v)
                    },
                    None => None::<Seq<u8>>,
                }));
                assert(entries_get(accs, k) == tables_lookup(ts, k));
            }
        }
        r
    }
}

/// Why a table on disk was refused.
#[derive(Debug, Clone, Copy, PartialEq, Eq, Structural)]
pub enum LoadError {
    BadMetadata,
    ChecksumMismatch,
    CorruptData,
    CorruptIndex,
}

/// The data image is a seamless sequence of whole records.
pub open spec fn recs_ok(data: Seq<u8>, pos: int) -> bool
    decreases data.len() - pos,
    when 0 <= pos <= data.len()
{
    if pos == data.len() {
        true
    } else if has_record_at(data, pos) {
        recs_ok(data, rec_end(data, pos))
    } else {
        false
    }
}

/// The records of the data image from `pos` on.
pub open spec fn recs_seq(data: Seq<u8>, pos: int) -> KvSeq
    decreases data.len() - pos,
    when 0 <= pos <= data.len()
{
    if pos == data.len() || !has_record_at(data, pos) {
        KvSeq::empty()
    } else {
        seq![(rec_key(data, pos), rec_value(data, pos))] + recs_seq(data, rec_end(data, pos))
    }
}

/// The record boundaries from `pos` on, the end included.
pub open spec fn recs_offs(data: Seq<u8>, pos: int) -> Seq<int>
    decreases data.len() - pos,
    when 0 <= pos <= data.len()
{
    if pos == data.len() || !has_record_at(data, pos) {
        seq![pos]
    } else {
        seq![pos] + recs_offs(data, rec_end(data, pos))
    }
}

pub open spec fn u64s_to_ints(s: Seq<u64>) -> Seq<int> {
    Seq::new(s.len(), |t: int| s[t] as int)
}

/// The per-step bookkeeping of decoding one record.
proof fn lemma_decode_step(data: Seq<u8>, pv0: KvSeq, om0: Seq<int>, pos: int)
    requires
        0 <= pos < data.len(),
        has_record_at(data, pos),
        om0.len() == pv0.len() + 1,
        om0[0] == 0,
        om0.last() == pos,
        forall|j: int|
            0 <= j < pv0.len() ==> {
                &&& (#[trigger] pv0[j]).0.len() <= u32::MAX
                &&& pv0[j].1.len() <= u32::MAX
                &&& om0[j + 1] == om0[j] + record_len(pv0[j].0, pv0[j].1)
                &&& data.subrange(om0[j], om0[j + 1]) == spec_record(pv0[j].0, pv0[j].1)
            },
        recs_seq(data, 0) == pv0 + recs_seq(data, pos),
        recs_offs(data, 0) == om0.drop_last() + recs_offs(data, pos),
        recs_ok(data, 0) == recs_ok(data, pos),
    ensures
        ({
            let end = rec_end(data, pos);
            let pv1 = pv0.push((rec_key(data, pos), rec_value(data, pos)));
            let om1 = om0.push(end);
            &&& om1.len() == pv1.len() + 1
            &&& om1[0] == 0
            &&& om1.last() == end
            &&& (forall|j: int|
                0 <= j < pv1.len() ==> {
                    &&& (#[trigger] pv1[j]).0.len() <= u32::MAX
                    &&& pv1[j].1.len() <= u32::MAX
                    &&& om1[j + 1] == om1[j] + record_len(pv1[j].0, pv1[j].1)
                    &&& data.subrange(om1[j], om1[j + 1]) == spec_record(pv1[j].0, pv1[j].1)
                })
            &&& recs_seq(data, 0) == pv1 + recs_seq(data, end)
            &&& recs_offs(data, 0) == om1.drop_last() + recs_offs(data, end)
            &&& recs_ok(data, 0) == recs_ok(data, end)
        }),
{
    let end = rec_end(data, pos);
    let k = rec_key(data, pos);
    let v = rec_value(data, pos);
    let pv1 = pv0.push((k, v));
    let om1 = om0.push(end);
    crate::codec::lemma_record_unparses(data, pos);
    assert forall|j: int| 0 <= j < pv1.len() implies {
        &&& (#[trigger] pv1[j]).0.len() <= u32::MAX
        &&& pv1[j].1.len() <= u32::MAX
        &&& om1[j + 1] == om1[j] + record_len(pv1[j].0, pv1[j].1)
        &&& data.subrange(om1[j], om1[j + 1]) == spec_record(pv1[j].0, pv1[j].1)
    } by {
        if j < pv0.len() {
            assert(pv1[j] == pv0[j]);
            assert(om1[j] == om0[j]);
            assert(om1[j + 1] == om0[j + 1]);
        } else {
            assert(pv1[j] == (k, v));
            assert(om1[j] == pos);
            assert(om1[j + 1] == end);
        }
    }
    assert(recs_seq(data, pos) == seq![(k, v)] + recs_seq(data, end));
    assert(pv1 + recs_seq(data, end) =~= pv0 + (seq![(k, v)] + recs_seq(data, end)));
    assert(recs_offs(data, pos) == seq![pos] + recs_offs(data, end));
    assert(om1.drop_last() =~= om0.drop_last() + seq![pos]);
    assert(om1.drop_last() + recs_offs(data, end) =~= om0.drop_last() + (seq![pos] + recs_offs(
        data,
        end,
    )));
}

/// At the end of the stream the collected records are the whole stream.
proof fn lemma_decode_done(data: Seq<u8>, pv: KvSeq, om: Seq<int>, pos: int)
    requires
        pos == data.len(),
        om.len() == pv.len() + 1,
        om[0] == 0,
        om.last() == pos,
        forall|j: int|
            0 <= j < pv.len() ==> {
                &&& (#[trigger] pv[j]).0.len() <= u32::MAX
                &&& pv[j].1.len() <= u32::MAX
                &&& om[j + 1] == om[j] + record_len(pv[j].0, pv[j].1)
                &&& data.subrange(om[j], om[j + 1]) == spec_record(pv[j].0, pv[j].1)
            },
        recs_seq(data, 0) == pv + recs_seq(data, pos),
        recs_offs(data, 0) == om.drop_last() + recs_offs(data, pos),
        recs_ok(data, 0) == recs_ok(data, pos),
    ensures
        recs_ok(data, 0),
        recs_seq(data, 0) == pv,
        recs_offs(data, 0) == om,
        layout(data, pv, om),
{
    assert(recs_seq(data, pos) =~= KvSeq::empty());
    assert(recs_seq(data, 0) =~= pv);
    assert(recs_offs(data, pos) =~= seq![pos]);
    assert(recs_offs(data, 0) =~= om.drop_last() + seq![pos]);
    assert(om =~= om.drop_last() + seq![om.last()]);
    assert(recs_offs(data, 0) =~= om);
    assert(om[pv.len() as int] == data.len());
    assert(layout(data, pv, om));
}

/// Decodes the whole record stream of a data image, returning the records
/// and the record boundaries, or nothing if the stream is truncated.
fn decode_records(data: &Vec<u8>) -> (r: Option<(Vec<(Vec<u8>, Vec<u8>)>, Vec<u64>)>)
    ensures
        match r {
            Some(p) => {
                &&& recs_ok(data@, 0)
                &&& pairs_view(p.0@) == recs_seq(data@, 0)
                &&& u64s_to_ints(p.1@) == recs_offs(data@, 0)
                &&& layout(data@, pairs_view(p.0@), u64s_to_ints(p.1@))
                &&& p.1@.len() == p.0@.len() + 1
            },
            None => !recs_ok(data@, 0),
        },
{
    let dlen: usize = data.len();
    let mut entries: Vec<(Vec<u8>, Vec<u8>)> = Vec::new();
    let mut offsets: Vec<u64> = Vec::new();
    offsets.push(0);
    let mut pos: usize = 0;
    proof {
        assert(u64s_to_ints(offsets@).drop_last() =~= Seq::<int>::empty());
        assert(recs_seq(data@, 0) =~= pairs_view(entries@) + recs_seq(data@, 0));
        assert(recs_offs(data@, 0) =~= u64s_to_ints(offsets@).drop_last() + recs_offs(data@, 0));
    }
    loop
        invariant_except_break
            pos <= dlen,
            dlen == data@.len(),
            offsets@.len() == entries@.len() + 1,
            u64s_to_ints(offsets@)[0] == 0,
            u64s_to_ints(offsets@).last() == pos,
            forall|j: int|
                0 <= j < entries@.len() ==> {
                    &&& (#[trigger] pairs_view(entries@)[j]).0.len() <= u32::MAX
                    &&& pairs_view(entries@)[j].1.len() <= u32::MAX
                    &&& u64s_to_ints(offsets@)[j + 1] == u64s_to_ints(offsets@)[j] + record_len(
                        pairs_view(entries@)[j].0,
                        pairs_view(entries@)[j].1,
                    )
                    &&& data@.subrange(
                        u64s_to_ints(offsets@)[j],
                        u64s_to_ints(offsets@)[j + 1],
                    ) == spec_record(pairs_view(entries@)[j].0, pairs_view(entries@)[j].1)
                },
            recs_ok(data@, 0) == recs_ok(data@, pos as int),
            recs_seq(data@, 0) == pairs_view(entries@) + recs_seq(data@, pos as int),
            recs_offs(data@, 0) == u64s_to_ints(offsets@).drop_last() + recs_offs(
                data@,
                pos as int,
            ),
        ensures
            recs_ok(data@, 0),
            recs_seq(data@, 0) == pairs_view(entries@),
            recs_offs(data@, 0) == u64s_to_ints(offsets@),
            layout(data@, pairs_view(entries@), u64s_to_ints(offsets@)),
            offsets@.len() == entries@.len() + 1,
        decreases dlen - pos,
    {
        let ghost entries0 = entries@;
        let ghost offsets0 = offsets@;
        match read_record(data.as_slice(), pos) {
            RecordRead::End => {
                proof {
                    lemma_decode_done(
                        data@,
                        pairs_view(entries@),
                        u64s_to_ints(offsets@),
                        pos as int,
                    );
                }
                break ;
            },
            RecordRead::Record(kv, len) => {
                proof {
                    lemma_decode_step(
                        data@,
                        pairs_view(entries0),
                        u64s_to_ints(offsets0),
                        pos as int,
                    );
                }
                entries.push((kv.key, kv.value));
                pos = pos + len;
                offsets.push(pos as u64);
                proof {
                    assert(pairs_view(entries@) =~= pairs_view(entries0).push(
                        (
                            rec_key(data@, u64s_to_ints(offsets0).last()),
                            rec_value(data@, u64s_to_ints(offsets0).last()),
                        ),
                    ));
                    assert(u64s_to_ints(offsets@) =~= u64s_to_ints(offsets0).push(
                        rec_end(data@, u64s_to_ints(offsets0).last()),
                    ));
                }
            },
            RecordRead::Truncated => {
                proof {
                    assert(!recs_ok(data@, pos as int));
                }
                return None;
            },
        }
    }
    Some((entries, offsets))
}

/// The position among the first `n` boundaries holding exactly `p`.
fn find_offset(offsets: &Vec<u64>, n: usize, p: u64) -> (r: Option<usize>)
    requires
        n <= offsets@.len(),
    ensures
        match r {
            Some(j) => j < n && offsets@[j as int] == p,
            None => forall|u: int| 0 <= u < n ==> offsets@[u] != p,
        },
{
    let mut w: usize = 0;
    while w < n
        invariant
            w <= n,
            n <= offsets@.len(),
            forall|u: int| 0 <= u < w ==> offsets@[u] != p,
        decreases n - w,
    {
        if offsets[w] == p {
            return Some(w);
        }
        w = w + 1;
    }
    None
}

impl SsTable {
    /// Rebuilds a table from the images of its files, validating everything
    /// the engine will rely on: the descriptor's names, both checksums, the
    /// record layout, strictly ascending keys and the sparse index's
    /// offsets. The Bloom filter is rebuilt from the decoded keys rather
    /// than read back: its bits are not covered by a checksum, and an
    /// arbitrary filter value could not be trusted not to fault.
    #[verifier::rlimit(100)]
    pub fn load(
        metadata: SsTableMetadata,
        data: Vec<u8>,
        index_entries: Vec<(Vec<u8>, u64)>,
        checksums: &Checksums,
        index_bytes: &Vec<u8>,
    ) -> (r: Result<SsTable, LoadError>)
        ensures
            ({
                let meta_ok = metadata.wf();
                let sums_ok = checksums.data_checksum@ == checksum_of(data@)
                    && checksums.index_checksum@ == checksum_of(index_bytes@);
                let parse_ok = recs_ok(data@, 0);
                let es = recs_seq(data@, 0);
                let sorted_ok = keys_sorted(es);
                let ix = offsets_view(index_entries@);
                let ix_ok = keys_sorted(ix) && index_corr(ix, es, recs_offs(data@, 0));
                match r {
                    Err(LoadError::BadMetadata) => !meta_ok,
                    Err(LoadError::ChecksumMismatch) => meta_ok && !sums_ok,
                    Err(LoadError::CorruptData) => meta_ok && sums_ok && !(parse_ok && sorted_ok),
                    Err(LoadError::CorruptIndex) => meta_ok && sums_ok && parse_ok && sorted_ok
                        && !ix_ok,
                    Ok(t) => meta_ok && sums_ok && parse_ok && sorted_ok && ix_ok && t.wf()
                        && t.spec_entries() == es && t.spec_meta() == metadata && t.spec_index()
                        == ix,
                }
            }),
    {
        // the descriptor must name its files from its own identifier
        let canon: SsTableMetadata = if (metadata.level as usize) < SSTABLE_MAX_LEVEL {
            SsTableMetadata::with_id(metadata.base_path.clone(), metadata.level, metadata.id)
        } else {
            return Err(LoadError::BadMetadata);
        };
        let names_ok: bool = metadata.metadata_filename == canon.metadata_filename
            && metadata.checksum_filename == canon.checksum_filename && metadata.data_filename
            == canon.data_filename && metadata.index_filename == canon.index_filename
            && metadata.bloom_filter_filename == canon.bloom_filter_filename;
        if !names_ok {
            return Err(LoadError::BadMetadata);
        }
        proof {
            assert(metadata.wf());
        }
        if !checksums.verify(data.as_slice(), index_bytes.as_slice()) {
            return Err(LoadError::ChecksumMismatch);
        }
        // decode the record stream
        let decoded: (Vec<(Vec<u8>, Vec<u8>)>, Vec<u64>) = match decode_records(&data) {
            Some(p) => p,
            None => {
                return Err(LoadError::CorruptData);
            },
        };
        let entries: Vec<(Vec<u8>, Vec<u8>)> = decoded.0;
        let offsets: Vec<u64> = decoded.1;
        let ghost es: KvSeq = pairs_view(entries@);
        let ghost omap: Seq<int> = u64s_to_ints(offsets@);

        // keys must ascend strictly
        let n: usize = entries.len();
        let mut j: usize = 1;
        while j < n
            invariant
                1 <= j || n == 0,
                j <= n || n == 0,
                n == entries@.len(),
                es == pairs_view(entries@),
                metadata.wf(),
                checksums.data_checksum@ == checksum_of(data@),
                checksums.index_checksum@ == checksum_of(index_bytes@),
                recs_ok(data@, 0),
                recs_seq(data@, 0) == es,
                forall|t: int| 0 <= t < j - 1 ==> lex_lt((#[trigger] es[t]).0, es[t + 1].0),
            decreases n - j,
        {
            let ordered: bool = key_lt(entries[j - 1].0.as_slice(), entries[j].0.as_slice());
            proof {
                assert(es[j - 1].0 == entries@[j - 1].0@);
                assert(es[j as int].0 == entries@[j as int].0@);
            }
            if !ordered {
                proof {
                    if keys_sorted(es) {
                        assert(lex_lt(es[j - 1].0, es[j as int].0));
                    }
                }
                return Err(LoadError::CorruptData);
            }
            j = j + 1;
        }
        proof {
            crate::keys::lemma_adjacent_sorted(es);
        }
        // every indexed key must point at its own record
        let ghost ix: Seq<(Seq<u8>, u64)> = offsets_view(index_entries@);
        let ixn: usize = index_entries.len();
        let mut t: usize = 0;
        while t < ixn
            invariant
                t <= ixn,
                ixn == index_entries@.len(),
                ix == offsets_view(index_entries@),
                es == pairs_view(entries@),
                omap == u64s_to_ints(offsets@),
                n == entries@.len(),
                offsets@.len() == n + 1,
                keys_sorted(es),
                layout(data@, es, omap),
                metadata.wf(),
                checksums.data_checksum@ == checksum_of(data@),
                checksums.index_checksum@ == checksum_of(index_bytes@),
                recs_ok(data@, 0),
                recs_seq(data@, 0) == es,
                recs_offs(data@, 0) == omap,
                forall|u: int| 0 <= u < t - 1 ==> lex_lt((#[trigger] ix[u]).0, ix[u + 1].0),
                index_corr(ix.take(t as int), es, omap),
            decreases ixn - t,
        {
            let e = &index_entries[t];
            proof {
                assert(ix[t as int] == (e.0@, e.1));
            }
            if t > 0 {
                let ordered: bool = key_lt(index_entries[t - 1].0.as_slice(), e.0.as_slice());
                proof {
                    assert(ix[t - 1].0 == index_entries@[t - 1].0@);
                }
                if !ordered {
                    proof {
                        if keys_sorted(ix) {
                            assert(lex_lt(ix[t - 1].0, ix[t as int].0));
                        }
                    }
                    return Err(LoadError::CorruptIndex);
                }
            }
            // find the record this offset names
            let p: u64 = e.1;
            let w: usize = match find_offset(&offsets, n, p) {
                Some(w) => w,
                None => {
                    proof {
                        if index_corr(ix, es, omap) {
                            assert(0 <= t < ix.len());
                            let jw: int = choose|jw: int|
                                {
                                    &&& 0 <= jw < es.len()
                                    &&& jw + 1 < omap.len()
                                    &&& (#[trigger] ix[t as int]).0 == es[jw].0
                                    &&& ix[t as int].1 == omap[jw]
                                };
                            assert(offsets@[jw] == p);
                            assert(false);
                        }
                    }
                    return Err(LoadError::CorruptIndex);
                },
            };
            let matches_key: bool = key_eq(entries[w].0.as_slice(), e.0.as_slice());
            proof {
                assert(es[w as int].0 == entries@[w as int].0@);
            }
            if !matches_key {
                proof {
                    if index_corr(ix, es, omap) {
                        let jw: int = choose|jw: int|
                            {
                                &&& 0 <= jw < es.len()
                                &&& jw + 1 < omap.len()
                                &&& (#[trigger] ix[t as int]).0 == es[jw].0
                                &&& ix[t as int].1 == omap[jw]
                            };
                        if jw < w {
                            lemma_offs_mono(data@, es, omap, jw, w as int);
                        }
                        if w < jw {
                            lemma_offs_mono(data@, es, omap, w as int, jw);
                        }
                        assert(jw == w);
                        assert(false);
                    }
                }
                return Err(LoadError::CorruptIndex);
            }
            proof {
                assert forall|u: int| 0 <= u < t + 1 implies exists|jw: int|
                    {
                        &&& 0 <= jw < es.len()
                        &&& jw + 1 < omap.len()
                        &&& (#[trigger] ix.take(t as int + 1)[u]).0 == es[jw].0
                        &&& ix.take(t as int + 1)[u].1 == omap[jw]
                    } by {
                    if u < t {
                        assert(ix.take(t as int + 1)[u] == ix.take(t as int)[u]);
                        let jw: int = choose|jw: int|
                            {
                                &&& 0 <= jw < es.len()
                                &&& jw + 1 < omap.len()
                                &&& (#[trigger] ix.take(t as int)[u]).0 == es[jw].0
                                &&& ix.take(t as int)[u].1 == omap[jw]
                            };
                        assert(0 <= jw < es.len() && jw + 1 < omap.len() && ix.take(
                            t as int + 1,
                        )[u].0 == es[jw].0 && ix.take(t as int + 1)[u].1 == omap[jw]);
                    } else {
                        assert(ix.take(t as int + 1)[u] == ix[t as int]);
                        assert(0 <= (w as int) < es.len() && (w as int) + 1 < omap.len()
                            && ix.take(t as int + 1)[u].0 == es[w as int].0 && ix.take(
                            t as int + 1,
                        )[u].1 == omap[w as int]);
                    }
                }
                assert(index_corr(ix.take(t as int + 1), es, omap));
            }
            t = t + 1;
        }
        proof {
            assert(ix.take(ixn as int) =~= ix);
            crate::keys::lemma_adjacent_sorted(ix);
        }
        // the filter is rebuilt from the decoded keys
        let mut bf: SstableBloomFilter = SstableBloomFilter::new(n);
        let mut b: usize = 0;
        while b < n
            invariant
                b <= n,
                n == entries@.len(),
                es == pairs_view(entries@),
                omap == u64s_to_ints(offsets@),
                ix == offsets_view(index_entries@),
                keys_sorted(es),
                keys_sorted(ix),
                index_corr(ix, es, omap),
                layout(data@, es, omap),
                metadata.wf(),
                checksums.data_checksum@ == checksum_of(data@),
                checksums.index_checksum@ == checksum_of(index_bytes@),
                recs_ok(data@, 0),
                recs_seq(data@, 0) == es,
                recs_offs(data@, 0) == omap,
                bf.inv(),
                forall|u: int| 0 <= u < b ==> bf.contents().contains((#[trigger] es[u]).0),
            decreases n - b,
        {
            bf.insert(entries[b].0.as_slice());
            proof {
                assert(es[b as int].0 == entries@[b as int].0@);
            }
            b = b + 1;
        }
        let index: SstableIndex = SstableIndex::from_entries(index_entries);
        let size: u64 = data.len() as u64;
        let table = SsTable {
            metadata,
            data,
            index,
            bloom_filter: bf,
            size_bytes: size,
            entries: Ghost(es),
            offs: Ghost(omap),
        };
        proof {
            assert(table.wf());
        }
        Ok(table)
    }
}

/// The records of a sound table come out in strictly ascending key order:
/// what its data image yields is sorted, with no duplicate keys.
pub proof fn lemma_records_ascending(t: SsTable)
    requires
        t.wf(),
    ensures
        keys_sorted(t.spec_entries()),
        forall|a: int, b: int|
            0 <= a < b < t.spec_entries().len() ==> (#[trigger] t.spec_entries()[a]).0 != (
            #[trigger] t.spec_entries()[b]).0,
{
    assert forall|a: int, b: int|
        0 <= a < b < t.spec_entries().len() implies (#[trigger] t.spec_entries()[a]).0 != (
    #[trigger] t.spec_entries()[b]).0 by {
        assert(lex_lt(t.spec_entries()[a].0, t.spec_entries()[b].0));
        lemma_lex_irrefl(t.spec_entries()[a].0);
    }
}

/// Every key the sparse index names reads back from its stored offset:
/// the record found there carries exactly that key.
pub proof fn lemma_index_points_at_own_record(t: SsTable, tidx: int)
    requires
        t.wf(),
        0 <= tidx < t.spec_index().len(),
    ensures
        has_record_at(t.spec_data(), t.spec_index()[tidx].1 as int),
        rec_key(t.spec_data(), t.spec_index()[tidx].1 as int) == t.spec_index()[tidx].0,
{
    let es = t.spec_entries();
    let offs = t.spec_offs();
    let j: int = choose|j: int|
        {
            &&& 0 <= j < es.len()
            &&& j + 1 < offs.len()
            &&& (#[trigger] t.spec_index()[tidx]).0 == es[j].0
            &&& t.spec_index()[tidx].1 == offs[j]
        };
    lemma_offs_mono(t.spec_data(), es, offs, j + 1, es.len() as int);
    lemma_record_parses(t.spec_data(), offs[j], es[j].0, es[j].1);
}

/// Every key a sound table holds answers positive in its Bloom filter:
/// the filter never denies a present key.
pub proof fn lemma_bloom_covers_present(t: SsTable, k: Seq<u8>)
    requires
        t.wf(),
        t.spec_map().contains_key(k),
    ensures
        t.spec_bloom_covers(k),
{
    assert(kv_contains(t.spec_entries(), k));
    let w: int = kv_idx(t.spec_entries(), k);
    assert(t.spec_entries()[w].0 == k);
}

} // verus!
