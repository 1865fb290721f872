//! The write-ahead log: an append-only journal of mutations. Each entry is
//! `tag | crc32 | key_len | [value_len] | key | [value]`, all integers
//! little-endian, with the CRC computed over the concatenated payload.
//! Replay stops at a truncated tail or a CRC mismatch — both are what a
//! crash mid-append leaves — keeping the entries before them; a bad tag is
//! a typed error.

use vstd::prelude::*;
use crate::codec::{le_val4, u32_le_bytes, push_u32_le, read_u32_at};
use vstd::slice::{slice_subrange, slice_to_vec};

verus! {

#[derive(Debug, Clone, Copy, PartialEq, Eq, Structural)]
pub enum WalError {
    InvalidCommandType(u8),
    CorruptedData { checksum: u32, expected: u32 },
    UnexpectedEof,
}

#[derive(Debug)]
pub enum LogRecord {
    Remove(Vec<u8>),
    Insert(Vec<u8>, Vec<u8>),
}

/// The model of a log record: its byte strings as sequences.
pub enum LogRecordView {
    Remove(Seq<u8>),
    Insert(Seq<u8>, Seq<u8>),
}

impl View for LogRecord {
    type V = LogRecordView;

    open spec fn view(&self) -> LogRecordView {
        match self {
            LogRecord::Remove(k) => LogRecordView::Remove(k@),
            LogRecord::Insert(k, v) => LogRecordView::Insert(k@, v@),
        }
    }
}

impl PartialEq for LogRecord {
    fn eq(&self, o: &LogRecord) -> (r: bool) {
        match (self, o) {
            (LogRecord::Remove(a), LogRecord::Remove(b)) => crate::keys::key_eq(
                a.as_slice(),
                b.as_slice(),
            ),
            (LogRecord::Insert(a, x), LogRecord::Insert(b, y)) => crate::keys::key_eq(
                a.as_slice(),
                b.as_slice(),
            ) && crate::keys::key_eq(x.as_slice(), y.as_slice()),
            _ => false,
        }
    }
}

impl vstd::std_specs::cmp::PartialEqSpecImpl for LogRecord {
    open spec fn obeys_eq_spec() -> bool {
        true
    }

    open spec fn eq_spec(&self, o: &LogRecord) -> bool {
        self@ == o@
    }
}

/// The IEEE CRC-32 of a byte string.
pub uninterp spec fn crc32_of(data: Seq<u8>) -> u32;

/// Relies on crc::crc32::checksum_ieee: the IEEE CRC-32 of the given bytes,
/// a function of the bytes alone.
#[verifier::external_body]
fn crc32_ieee(data: &[u8]) -> (r: u32)
    ensures
        r == crc32_of(data@),
{
    crc::crc32::checksum_ieee(data)
}

/// The on-disk form of an insertion.
pub open spec fn spec_insert_record(k: Seq<u8>, v: Seq<u8>) -> Seq<u8> {
    seq![1u8] + u32_le_bytes(crc32_of(k + v)) + u32_le_bytes(k.len() as u32) + u32_le_bytes(
        v.len() as u32,
    ) + k + v
}

/// The on-disk form of a removal.
pub open spec fn spec_remove_record(k: Seq<u8>) -> Seq<u8> {
    seq![2u8] + u32_le_bytes(crc32_of(k)) + u32_le_bytes(k.len() as u32) + k
}

/// What decoding finds at one position of the journal.
pub enum WalStep {
    End,
    Trunc,
    Rec(LogRecordView, int),
    Bad(WalError),
}

pub open spec fn wal_klen(buf: Seq<u8>, pos: int) -> int {
    le_val4(buf.subrange(pos + 5, pos + 9))
}

pub open spec fn wal_vlen(buf: Seq<u8>, pos: int) -> int {
    le_val4(buf.subrange(pos + 9, pos + 13))
}

pub open spec fn wal_stored_crc(buf: Seq<u8>, pos: int) -> int {
    le_val4(buf.subrange(pos + 1, pos + 5))
}

/// Decodes the entry starting at `pos`.
pub open spec fn wal_step(buf: Seq<u8>, pos: int) -> WalStep {
    if pos == buf.len() {
        WalStep::End
    } else if buf[pos] == 1u8 {
        if pos + 13 > buf.len() {
            WalStep::Trunc
        } else {
            let klen = wal_klen(buf, pos);
            let vlen = wal_vlen(buf, pos);
            let end = pos + 13 + klen + vlen;
            if end > buf.len() {
                WalStep::Trunc
            } else {
                let k = buf.subrange(pos + 13, pos + 13 + klen);
                let v = buf.subrange(pos + 13 + klen, end);
                let c = crc32_of(k + v);
                if wal_stored_crc(buf, pos) == c {
                    WalStep::Rec(LogRecordView::Insert(k, v), end)
                } else {
                    WalStep::Bad(
                        WalError::CorruptedData {
                            checksum: c,
                            expected: wal_stored_crc(buf, pos) as u32,
                        },
                    )
                }
            }
        }
    } else if buf[pos] == 2u8 {
        if pos + 9 > buf.len() {
            WalStep::Trunc
        } else {
            let klen = wal_klen(buf, pos);
            let end = pos + 9 + klen;
            if end > buf.len() {
                WalStep::Trunc
            } else {
                let k = buf.subrange(pos + 9, end);
                let c = crc32_of(k);
                if wal_stored_crc(buf, pos) == c {
                    WalStep::Rec(LogRecordView::Remove(k), end)
                } else {
                    WalStep::Bad(
                        WalError::CorruptedData {
                            checksum: c,
                            expected: wal_stored_crc(buf, pos) as u32,
                        },
                    )
                }
            }
        }
    } else {
        WalStep::Bad(WalError::InvalidCommandType(buf[pos]))
    }
}

/// The records of the journal from `pos` up to its end, a truncation or an
/// error.
pub open spec fn wal_ops(buf: Seq<u8>, pos: int) -> Seq<LogRecordView>
    decreases buf.len() - pos,
    when 0 <= pos <= buf.len()
{
    match wal_step(buf, pos) {
        WalStep::Rec(r, next) => seq![r] + wal_ops(buf, next),
        _ => Seq::empty(),
    }
}

/// The journal replays: decoding runs to the end, a truncated tail, or a
/// CRC mismatch — the shapes a crash mid-append leaves, whose trailing
/// bytes are discarded. Only a bad tag refuses the journal.
pub open spec fn wal_replayable(buf: Seq<u8>, pos: int) -> bool
    decreases buf.len() - pos,
    when 0 <= pos <= buf.len()
{
    match wal_step(buf, pos) {
        WalStep::End => true,
        WalStep::Trunc => true,
        WalStep::Rec(r, next) => wal_replayable(buf, next),
        WalStep::Bad(e) => e is CorruptedData,
    }
}

/// The journal is a seamless sequence of whole records.
pub open spec fn wal_strict(buf: Seq<u8>, pos: int) -> bool
    decreases buf.len() - pos,
    when 0 <= pos <= buf.len()
{
    match wal_step(buf, pos) {
        WalStep::End => true,
        WalStep::Trunc => false,
        WalStep::Rec(r, next) => wal_strict(buf, next),
        WalStep::Bad(e) => false,
    }
}

/// Where decoding from `pos` stops.
pub open spec fn wal_end_pos(buf: Seq<u8>, pos: int) -> int
    decreases buf.len() - pos,
    when 0 <= pos <= buf.len()
{
    match wal_step(buf, pos) {
        WalStep::Rec(r, next) => wal_end_pos(buf, next),
        _ => pos,
    }
}

/// The first typed error decoding from `pos` runs into.
pub open spec fn wal_first_err(buf: Seq<u8>, pos: int) -> WalError
    decreases buf.len() - pos,
    when 0 <= pos <= buf.len()
{
    match wal_step(buf, pos) {
        WalStep::Rec(r, next) => wal_first_err(buf, next),
        WalStep::Bad(e) => e,
        _ => arbitrary(),
    }
}

pub open spec fn insert_record_len(k: Seq<u8>, v: Seq<u8>) -> int {
    13 + k.len() as int + v.len() as int
}

pub open spec fn remove_record_len(k: Seq<u8>) -> int {
    9 + k.len() as int
}

/// Bytes holding the encoding of an insertion decode back to it:
/// the journal codec round-trips, CRC check included.
pub proof fn lemma_insert_record_parses(buf: Seq<u8>, pos: int, k: Seq<u8>, v: Seq<u8>)
    requires
        k.len() <= u32::MAX,
        v.len() <= u32::MAX,
        0 <= pos,
        pos + insert_record_len(k, v) <= buf.len(),
        buf.subrange(pos, pos + insert_record_len(k, v)) == spec_insert_record(k, v),
    ensures
        wal_step(buf, pos) == WalStep::Rec(LogRecordView::Insert(k, v), pos + insert_record_len(k, v)),
{
    let r = spec_insert_record(k, v);
    let kl: int = k.len() as int;
    let vl: int = v.len() as int;
    let ca = u32_le_bytes(crc32_of(k + v));
    let ka = u32_le_bytes(k.len() as u32);
    let va = u32_le_bytes(v.len() as u32);
    assert(r.len() == insert_record_len(k, v));
    assert forall|i: int| 0 <= i < insert_record_len(k, v) implies buf[pos + i] == r[i] by {
        assert(buf.subrange(pos, pos + insert_record_len(k, v))[i] == buf[pos + i]);
    }
    assert(r[0] == seq![1u8][0]);
    assert(buf[pos] == 1u8);
    assert forall|i: int| 0 <= i < 4 implies r[1 + i] == ca[i] by {
        assert(r[1 + i] == (seq![1u8] + ca)[1 + i]);
    }
    assert forall|i: int| 0 <= i < 4 implies r[5 + i] == ka[i] by {
        assert(r[5 + i] == (seq![1u8] + ca + ka)[5 + i]);
    }
    assert forall|i: int| 0 <= i < 4 implies r[9 + i] == va[i] by {
        assert(r[9 + i] == (seq![1u8] + ca + ka + va)[9 + i]);
    }
    assert forall|i: int| 0 <= i < kl implies r[13 + i] == k[i] by {
        assert(r[13 + i] == (seq![1u8] + ca + ka + va + k)[13 + i]);
    }
    assert forall|i: int| 0 <= i < vl implies r[13 + kl + i] == v[i] by {}
    assert(buf.subrange(pos + 1, pos + 5) =~= ca);
    assert(buf.subrange(pos + 5, pos + 9) =~= ka);
    assert(buf.subrange(pos + 9, pos + 13) =~= va);
    crate::codec::lemma_u32_le_round_trip(crc32_of(k + v));
    crate::codec::lemma_u32_le_round_trip(k.len() as u32);
    crate::codec::lemma_u32_le_round_trip(v.len() as u32);
    assert(wal_klen(buf, pos) == kl);
    assert(wal_vlen(buf, pos) == vl);
    assert(buf.subrange(pos + 13, pos + 13 + kl) =~= k);
    assert(buf.subrange(pos + 13 + kl, pos + 13 + kl + vl) =~= v);
    assert(wal_stored_crc(buf, pos) == crc32_of(k + v));
}

/// Bytes holding the encoding of a removal decode back to it.
pub proof fn lemma_remove_record_parses(buf: Seq<u8>, pos: int, k: Seq<u8>)
    requires
        k.len() <= u32::MAX,
        0 <= pos,
        pos + remove_record_len(k) <= buf.len(),
        buf.subrange(pos, pos + remove_record_len(k)) == spec_remove_record(k),
    ensures
        wal_step(buf, pos) == WalStep::Rec(LogRecordView::Remove(k), pos + remove_record_len(k)),
{
    let r = spec_remove_record(k);
    let kl: int = k.len() as int;
    let ca = u32_le_bytes(crc32_of(k));
    let ka = u32_le_bytes(k.len() as u32);
    assert(r.len() == remove_record_len(k));
    assert forall|i: int| 0 <= i < remove_record_len(k) implies buf[pos + i] == r[i] by {
        assert(buf.subrange(pos, pos + remove_record_len(k))[i] == buf[pos + i]);
    }
    assert(r[0] == seq![2u8][0]);
    assert(buf[pos] == 2u8);
    assert forall|i: int| 0 <= i < 4 implies r[1 + i] == ca[i] by {
        assert(r[1 + i] == (seq![2u8] + ca)[1 + i]);
    }
    assert forall|i: int| 0 <= i < 4 implies r[5 + i] == ka[i] by {
        assert(r[5 + i] == (seq![2u8] + ca + ka)[5 + i]);
    }
    assert forall|i: int| 0 <= i < kl implies r[9 + i] == k[i] by {}
    assert(buf.subrange(pos + 1, pos + 5) =~= ca);
    assert(buf.subrange(pos + 5, pos + 9) =~= ka);
    crate::codec::lemma_u32_le_round_trip(crc32_of(k));
    crate::codec::lemma_u32_le_round_trip(k.len() as u32);
    assert(wal_klen(buf, pos) == kl);
    assert(buf.subrange(pos + 9, pos + 9 + kl) =~= k);
    assert(wal_stored_crc(buf, pos) == crc32_of(k));
}

/// A whole record already inside the journal decodes the same after more
/// bytes are appended.
pub proof fn lemma_wal_step_stable(buf: Seq<u8>, ext: Seq<u8>, pos: int)
    requires
        0 <= pos <= buf.len(),
        wal_step(buf, pos) is Rec,
    ensures
        wal_step(buf + ext, pos) == wal_step(buf, pos),
{
    let full = buf + ext;
    assert(full[pos] == buf[pos]);
    assert forall|a: int, b: int| 0 <= a <= b <= buf.len() implies full.subrange(a, b)
        =~= buf.subrange(a, b) by {}
    if buf[pos] == 1u8 {
        assert(full.subrange(pos + 5, pos + 9) =~= buf.subrange(pos + 5, pos + 9));
        assert(full.subrange(pos + 9, pos + 13) =~= buf.subrange(pos + 9, pos + 13));
        assert(full.subrange(pos + 1, pos + 5) =~= buf.subrange(pos + 1, pos + 5));
        let klen = wal_klen(buf, pos);
        let vlen = wal_vlen(buf, pos);
        let end = pos + 13 + klen + vlen;
        assert(full.subrange(pos + 13, pos + 13 + klen) =~= buf.subrange(pos + 13, pos + 13 + klen));
        assert(full.subrange(pos + 13 + klen, end) =~= buf.subrange(pos + 13 + klen, end));
    } else {
        assert(buf[pos] == 2u8);
        assert(full.subrange(pos + 5, pos + 9) =~= buf.subrange(pos + 5, pos + 9));
        assert(full.subrange(pos + 1, pos + 5) =~= buf.subrange(pos + 1, pos + 5));
        let klen = wal_klen(buf, pos);
        let end = pos + 9 + klen;
        assert(full.subrange(pos + 9, end) =~= buf.subrange(pos + 9, end));
    }
}

/// Appending the encoding of one record to a seamless journal keeps it
/// seamless and appends exactly that record to its decoded operations.
pub proof fn lemma_wal_append(buf: Seq<u8>, pos: int, ext: Seq<u8>, r: LogRecordView)
    requires
        0 <= pos <= buf.len(),
        wal_strict(buf, pos),
        wal_step(buf + ext, buf.len() as int) == WalStep::Rec(
            r,
            buf.len() + ext.len() as int,
        ),
    ensures
        wal_strict(buf + ext, pos),
        wal_ops(buf + ext, pos) == wal_ops(buf, pos).push(r),
    decreases buf.len() - pos,
{
    let full = buf + ext;
    match wal_step(buf, pos) {
        WalStep::End => {
            assert(pos == buf.len());
            assert(wal_step(full, pos) == WalStep::Rec(r, buf.len() + ext.len() as int));
            assert(wal_step(full, buf.len() + ext.len() as int) == WalStep::End);
            assert(wal_strict(full, buf.len() + ext.len() as int));
            assert(wal_strict(full, pos));
            assert(wal_ops(full, buf.len() + ext.len() as int) =~= Seq::<LogRecordView>::empty());
            assert(wal_ops(full, pos) =~= seq![r]);
            assert(wal_ops(buf, pos) =~= Seq::<LogRecordView>::empty());
            assert(wal_ops(full, pos) =~= wal_ops(buf, pos).push(r));
        },
        WalStep::Rec(q, next) => {
            lemma_wal_step_stable(buf, ext, pos);
            lemma_wal_append(buf, next, ext, r);
            assert(wal_strict(full, pos));
            assert(wal_ops(full, pos) =~= seq![q] + wal_ops(full, next));
            assert(wal_ops(buf, pos) =~= seq![q] + wal_ops(buf, next));
            assert(wal_ops(full, pos) =~= wal_ops(buf, pos).push(r));
        },
        _ => {
            assert(false);
        },
    }
}

/// The write-ahead log as a byte journal: records are appended at the end
/// and decoded from a read cursor. Reading and writing the backing file is
/// the embedding program's concern.
pub struct CommandLog {
    buf: Vec<u8>,
    pos: usize,
}

impl CommandLog {
    /// The journal's bytes.
    pub closed spec fn spec_buf(&self) -> Seq<u8> {
        self.buf@
    }

    /// The read cursor.
    pub closed spec fn spec_pos(&self) -> int {
        self.pos as int
    }

    pub open spec fn inv(&self) -> bool {
        0 <= self.spec_pos() <= self.spec_buf().len()
    }

    pub fn new() -> (r: CommandLog)
        ensures
            r.spec_buf() == Seq::<u8>::empty(),
            r.spec_pos() == 0,
            r.inv(),
    {
        CommandLog { buf: Vec::new(), pos: 0 }
    }

    /// Wraps the bytes of an existing journal, cursor at the start.
    pub fn from_bytes(buf: Vec<u8>) -> (r: CommandLog)
        ensures
            r.spec_buf() == buf@,
            r.spec_pos() == 0,
            r.inv(),
    {
        CommandLog { buf, pos: 0 }
    }

    /// The bytes as they stand, for persisting.
    pub fn bytes(&self) -> (r: &Vec<u8>)
        ensures
            r@ == self.spec_buf(),
    {
        &self.buf
    }

    /// Appends an insertion entry; returns the payload length plus the tag
    /// and checksum overhead.
    pub fn insert(&mut self, key: &[u8], val: &[u8]) -> (r: usize)
        requires
            old(self).inv(),
            key@.len() <= u32::MAX,
            val@.len() <= u32::MAX,
            key@.len() + val@.len() + 13 <= usize::MAX,
        ensures
            final(self).inv(),
            final(self).spec_buf() == old(self).spec_buf() + spec_insert_record(key@, val@),
            final(self).spec_pos() == old(self).spec_pos(),
            r == key@.len() + val@.len() + 5,
    {
        let mut payload: Vec<u8> = Vec::new();
        payload.extend_from_slice(key);
        payload.extend_from_slice(val);
        proof {
            assert(payload@ =~= key@ + val@);
        }
        let crc: u32 = crc32_ieee(payload.as_slice());
        self.buf.push(1u8);
        push_u32_le(&mut self.buf, crc);
        push_u32_le(&mut self.buf, key.len() as u32);
        push_u32_le(&mut self.buf, val.len() as u32);
        self.buf.extend_from_slice(key);
        self.buf.extend_from_slice(val);
        proof {
            assert(self.buf@ =~= old(self).spec_buf() + spec_insert_record(key@, val@));
        }
        key.len() + val.len() + 5
    }

    /// Appends a removal entry.
    pub fn remove(&mut self, key: &[u8]) -> (r: usize)
        requires
            old(self).inv(),
            key@.len() <= u32::MAX,
            key@.len() + 9 <= usize::MAX,
        ensures
            final(self).inv(),
            final(self).spec_buf() == old(self).spec_buf() + spec_remove_record(key@),
            final(self).spec_pos() == old(self).spec_pos(),
            r == key@.len() + 5,
    {
        let crc: u32 = crc32_ieee(key);
        self.buf.push(2u8);
        push_u32_le(&mut self.buf, crc);
        push_u32_le(&mut self.buf, key.len() as u32);
        self.buf.extend_from_slice(key);
        proof {
            assert(self.buf@ =~= old(self).spec_buf() + spec_remove_record(key@));
        }
        key.len() + 5
    }

    /// Appends either kind of entry.
    pub fn log(&mut self, record: &LogRecord) -> (r: usize)
        requires
            old(self).inv(),
            match record@ {
                LogRecordView::Insert(k, v) => k.len() <= u32::MAX && v.len() <= u32::MAX && k.len()
                    + v.len() + 13 <= usize::MAX,
                LogRecordView::Remove(k) => k.len() <= u32::MAX && k.len() + 9 <= usize::MAX,
            },
        ensures
            final(self).inv(),
            final(self).spec_pos() == old(self).spec_pos(),
            match record@ {
                LogRecordView::Insert(k, v) => final(self).spec_buf() == old(self).spec_buf()
                    + spec_insert_record(k, v) && r == k.len() + v.len() + 5,
                LogRecordView::Remove(k) => final(self).spec_buf() == old(self).spec_buf()
                    + spec_remove_record(k) && r == k.len() + 5,
            },
    {
        match record {
            LogRecord::Insert(k, v) => self.insert(k.as_slice(), v.as_slice()),
            LogRecord::Remove(k) => self.remove(k.as_slice()),
        }
    }

    /// Decodes the entry at the cursor and advances past it. The end of the
    /// journal, and a truncated tail left by a crash mid-append, are both
    /// reported as `UnexpectedEof`.
    pub fn next_record(&mut self) -> (r: Result<LogRecord, WalError>)
        requires
            old(self).inv(),
        ensures
            final(self).inv(),
            final(self).spec_buf() == old(self).spec_buf(),
            ({
                let buf = old(self).spec_buf();
                let pos = old(self).spec_pos();
                match wal_step(buf, pos) {
                    WalStep::End => r == Err::<LogRecord, WalError>(WalError::UnexpectedEof)
                        && final(self).spec_pos() == pos,
                    WalStep::Trunc => r == Err::<LogRecord, WalError>(WalError::UnexpectedEof)
                        && final(self).spec_pos() == pos,
                    WalStep::Rec(rv, next) => (match r {
                        Ok(rec) => rec@ == rv,
                        Err(_) => false,
                    }) && final(self).spec_pos() == next,
                    WalStep::Bad(e) => r == Err::<LogRecord, WalError>(e)
                        && final(self).spec_pos() == pos,
                }
            }),
    {
        let dlen: usize = self.buf.len();
        let pos: usize = self.pos;
        if pos == dlen {
            return Err(WalError::UnexpectedEof);
        }
        let tag: u8 = self.buf[pos];
        if tag == 1 {
            if dlen - pos < 13 {
                return Err(WalError::UnexpectedEof);
            }
            let s = self.buf.as_slice();
            let stored: u32 = read_u32_at(s, pos + 1);
            let klen: usize = read_u32_at(s, pos + 5) as usize;
            let vlen: usize = read_u32_at(s, pos + 9) as usize;
            let avail: usize = dlen - pos - 13;
            if klen > avail {
                return Err(WalError::UnexpectedEof);
            }
            if vlen > avail - klen {
                return Err(WalError::UnexpectedEof);
            }
            let end: usize = pos + 13 + klen + vlen;
            let payload = slice_subrange(s, pos + 13, end);
            let crc: u32 = crc32_ieee(payload);
            let k: Vec<u8> = slice_to_vec(slice_subrange(s, pos + 13, pos + 13 + klen));
            let v: Vec<u8> = slice_to_vec(slice_subrange(s, pos + 13 + klen, end));
            proof {
                assert(payload@ =~= k@ + v@);
                crate::codec::lemma_le_val4_bound(
                    old(self).spec_buf().subrange(pos + 1, pos + 5),
                );
            }
            if crc != stored {
                return Err(WalError::CorruptedData { checksum: crc, expected: stored });
            }
            self.pos = end;
            Ok(LogRecord::Insert(k, v))
        } else if tag == 2 {
            if dlen - pos < 9 {
                return Err(WalError::UnexpectedEof);
            }
            let s = self.buf.as_slice();
            let stored: u32 = read_u32_at(s, pos + 1);
            let klen: usize = read_u32_at(s, pos + 5) as usize;
            let avail: usize = dlen - pos - 9;
            if klen > avail {
                return Err(WalError::UnexpectedEof);
            }
            let end: usize = pos + 9 + klen;
            let k: Vec<u8> = slice_to_vec(slice_subrange(s, pos + 9, end));
            let crc: u32 = crc32_ieee(k.as_slice());
            proof {
                crate::codec::lemma_le_val4_bound(
                    old(self).spec_buf().subrange(pos + 1, pos + 5),
                );
            }
            if crc != stored {
                return Err(WalError::CorruptedData { checksum: crc, expected: stored });
            }
            self.pos = end;
            Ok(LogRecord::Remove(k))
        } else {
            Err(WalError::InvalidCommandType(tag))
        }
    }

    /// Discards everything past the cursor: what a crash left half-written.
    pub fn discard_tail(&mut self)
        requires
            old(self).inv(),
        ensures
            final(self).inv(),
            final(self).spec_buf() == old(self).spec_buf().subrange(0, old(self).spec_pos()),
            final(self).spec_pos() == old(self).spec_pos(),
    {
        self.buf.truncate(self.pos);
        proof {
            assert(self.buf@ =~= old(self).spec_buf().subrange(0, old(self).spec_pos()));
        }
    }
}


/// A whole record decodes the same after the journal is cut short past it.
pub proof fn lemma_wal_step_stable_trunc(buf: Seq<u8>, end: int, pos: int)
    requires
        0 <= pos <= buf.len(),
        wal_step(buf, pos) is Rec,
        wal_step(buf, pos)->Rec_1 <= end <= buf.len(),
    ensures
        wal_step(buf.subrange(0, end), pos) == wal_step(buf, pos),
{
    let cut = buf.subrange(0, end);
    let next = wal_step(buf, pos)->Rec_1;
    assert(cut[pos] == buf[pos]);
    assert forall|a: int, b: int| 0 <= a <= b <= next implies cut.subrange(a, b) =~= buf.subrange(
        a,
        b,
    ) by {}
    if buf[pos] == 1u8 {
        assert(cut.subrange(pos + 5, pos + 9) =~= buf.subrange(pos + 5, pos + 9));
        assert(cut.subrange(pos + 9, pos + 13) =~= buf.subrange(pos + 9, pos + 13));
        assert(cut.subrange(pos + 1, pos + 5) =~= buf.subrange(pos + 1, pos + 5));
        let klen = wal_klen(buf, pos);
        let vlen = wal_vlen(buf, pos);
        assert(cut.subrange(pos + 13, pos + 13 + klen) =~= buf.subrange(pos + 13, pos + 13 + klen));
        assert(cut.subrange(pos + 13 + klen, pos + 13 + klen + vlen) =~= buf.subrange(
            pos + 13 + klen,
            pos + 13 + klen + vlen,
        ));
    } else {
        assert(buf[pos] == 2u8);
        assert(cut.subrange(pos + 5, pos + 9) =~= buf.subrange(pos + 5, pos + 9));
        assert(cut.subrange(pos + 1, pos + 5) =~= buf.subrange(pos + 1, pos + 5));
        let klen = wal_klen(buf, pos);
        assert(cut.subrange(pos + 9, pos + 9 + klen) =~= buf.subrange(pos + 9, pos + 9 + klen));
    }
}

/// Cutting a replayable journal at the point where decoding stops leaves
/// a seamless journal with the same records.
pub proof fn lemma_wal_truncate(buf: Seq<u8>, pos: int)
    requires
        0 <= pos <= buf.len(),
        wal_replayable(buf, pos),
    ensures
        pos <= wal_end_pos(buf, pos) <= buf.len(),
        wal_strict(buf.subrange(0, wal_end_pos(buf, pos)), pos),
        wal_ops(buf.subrange(0, wal_end_pos(buf, pos)), pos) == wal_ops(buf, pos),
    decreases buf.len() - pos,
{
    let end = wal_end_pos(buf, pos);
    let cut = buf.subrange(0, end);
    match wal_step(buf, pos) {
        WalStep::End => {
            assert(end == pos);
            assert(cut.len() == pos);
            assert(wal_step(cut, pos) == WalStep::End);
            assert(wal_ops(cut, pos) =~= wal_ops(buf, pos));
        },
        WalStep::Trunc => {
            assert(end == pos);
            assert(cut.len() == pos);
            assert(wal_step(cut, pos) == WalStep::End);
            assert(wal_ops(cut, pos) =~= Seq::<LogRecordView>::empty());
            assert(wal_ops(buf, pos) =~= Seq::<LogRecordView>::empty());
        },
        WalStep::Rec(r, next) => {
            lemma_wal_truncate(buf, next);
            assert(end == wal_end_pos(buf, next));
            lemma_wal_step_stable_trunc(buf, end, pos);
            assert(wal_step(cut, pos) == WalStep::Rec(r, next));
            assert(wal_ops(cut, pos) =~= seq![r] + wal_ops(cut, next));
            assert(wal_ops(buf, pos) =~= seq![r] + wal_ops(buf, next));
        },
        WalStep::Bad(e) => {
            assert(end == pos);
            assert(cut.len() == pos);
            assert(wal_step(cut, pos) == WalStep::End);
            assert(wal_ops(cut, pos) =~= Seq::<LogRecordView>::empty());
            assert(wal_ops(buf, pos) =~= Seq::<LogRecordView>::empty());
        },
    }
}

} // verus!

