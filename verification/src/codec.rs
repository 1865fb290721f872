//! The record codec shared by the write-ahead log, the sorted string table
//! data image and the merge: a record is two little-endian 32-bit lengths
//! followed by the raw key and value bytes.

use vstd::prelude::*;
use vstd::arithmetic::div_mod::lemma_fundamental_div_mod;
use vstd::slice::{slice_subrange, slice_to_vec};
use crate::kv::KeyValuePair;

verus! {

/// The four little-endian bytes of a 32-bit value.
pub open spec fn u32_le_bytes(n: u32) -> Seq<u8> {
    seq![
        (n % 256) as u8,
        ((n / 256) % 256) as u8,
        (((n / 256) / 256) % 256) as u8,
        ((((n / 256) / 256) / 256) % 256) as u8,
    ]
}

/// The value carried by four little-endian bytes.
pub open spec fn le_val4(s: Seq<u8>) -> int {
    s[0] + 256 * (s[1] as int) + 65536 * (s[2] as int) + 16777216 * (s[3] as int)
}

pub proof fn lemma_u32_le_round_trip(n: u32)
    ensures
        le_val4(u32_le_bytes(n)) == n,
{
    let m1: int = (n / 256) as int;
    let m2: int = m1 / 256;
    let m3: int = m2 / 256;
    lemma_fundamental_div_mod(n as int, 256);
    lemma_fundamental_div_mod(m1, 256);
    lemma_fundamental_div_mod(m2, 256);
    assert(m3 < 256);
    assert(m3 % 256 == m3);
}

pub proof fn lemma_le_val4_bound(s: Seq<u8>)
    requires
        s.len() == 4,
    ensures
        0 <= le_val4(s) <= u32::MAX,
{
}

/// Appends the four little-endian bytes of `n`.
pub fn push_u32_le(out: &mut Vec<u8>, n: u32)
    ensures
        final(out)@ == old(out)@ + u32_le_bytes(n),
{
    let b0: u8 = (n % 256) as u8;
    let m1: u32 = n / 256;
    let b1: u8 = (m1 % 256) as u8;
    let m2: u32 = m1 / 256;
    let b2: u8 = (m2 % 256) as u8;
    let b3: u8 = ((m2 / 256) % 256) as u8;
    out.push(b0);
    out.push(b1);
    out.push(b2);
    out.push(b3);
    proof {
        assert(out@ =~= old(out)@ + u32_le_bytes(n));
    }
}

/// Reads the 32-bit value stored little-endian at `pos`.
pub fn read_u32_at(data: &[u8], pos: usize) -> (r: u32)
    requires
        pos + 4 <= data@.len(),
    ensures
        r == le_val4(data@.subrange(pos as int, pos as int + 4)),
{
    let b0: u32 = data[pos] as u32;
    let b1: u32 = data[pos + 1] as u32;
    let b2: u32 = data[pos + 2] as u32;
    let b3: u32 = data[pos + 3] as u32;
    let r: u32 = b0 + 256 * b1 + 65536 * b2 + 16777216 * b3;
    proof {
        let s = data@.subrange(pos as int, pos as int + 4);
        assert(s[0] == data@[pos as int]);
        assert(s[1] == data@[pos as int + 1]);
        assert(s[2] == data@[pos as int + 2]);
        assert(s[3] == data@[pos as int + 3]);
    }
    r
}

/// A byte string short enough for its length to be stored in 32 bits.
pub open spec fn fits_u32(s: Seq<u8>) -> bool {
    s.len() <= u32::MAX
}

/// The encoding of one record.
pub open spec fn spec_record(k: Seq<u8>, v: Seq<u8>) -> Seq<u8> {
    u32_le_bytes(k.len() as u32) + u32_le_bytes(v.len() as u32) + k + v
}

pub open spec fn record_len(k: Seq<u8>, v: Seq<u8>) -> int {
    8 + k.len() as int + v.len() as int
}

/// The key length the prelude at `pos` declares.
pub open spec fn rec_klen(data: Seq<u8>, pos: int) -> int {
    le_val4(data.subrange(pos, pos + 4))
}

/// The value length the prelude at `pos` declares.
pub open spec fn rec_vlen(data: Seq<u8>, pos: int) -> int {
    le_val4(data.subrange(pos + 4, pos + 8))
}

/// Where the record starting at `pos` ends.
pub open spec fn rec_end(data: Seq<u8>, pos: int) -> int {
    pos + 8 + rec_klen(data, pos) + rec_vlen(data, pos)
}

/// A complete record starts at `pos`.
pub open spec fn has_record_at(data: Seq<u8>, pos: int) -> bool {
    &&& 0 <= pos
    &&& pos + 8 <= data.len()
    &&& rec_end(data, pos) <= data.len()
}

pub open spec fn rec_key(data: Seq<u8>, pos: int) -> Seq<u8> {
    data.subrange(pos + 8, pos + 8 + rec_klen(data, pos))
}

pub open spec fn rec_value(data: Seq<u8>, pos: int) -> Seq<u8> {
    data.subrange(pos + 8 + rec_klen(data, pos), rec_end(data, pos))
}

/// Where the bytes at `pos` are the encoding of `(k, v)`, parsing at `pos`
/// recovers exactly `k` and `v`: the codec round-trips.
pub proof fn lemma_record_parses(data: Seq<u8>, pos: int, k: Seq<u8>, v: Seq<u8>)
    requires
        fits_u32(k),
        fits_u32(v),
        0 <= pos,
        pos + record_len(k, v) <= data.len(),
        data.subrange(pos, pos + record_len(k, v)) == spec_record(k, v),
    ensures
        has_record_at(data, pos),
        rec_klen(data, pos) == k.len(),
        rec_vlen(data, pos) == v.len(),
        rec_end(data, pos) == pos + record_len(k, v),
        rec_key(data, pos) == k,
        rec_value(data, pos) == v,
{
    let r = spec_record(k, v);
    let kl: int = k.len() as int;
    let vl: int = v.len() as int;
    assert(r.len() == record_len(k, v));
    assert forall|i: int| 0 <= i < record_len(k, v) implies data[pos + i] == r[i] by {
        assert(data.subrange(pos, pos + record_len(k, v))[i] == data[pos + i]);
    }
    let ka = u32_le_bytes(k.len() as u32);
    let va = u32_le_bytes(v.len() as u32);
    assert forall|i: int| 0 <= i < 4 implies r[i] == ka[i] by {
        assert(r[i] == (ka + va)[i]);
    }
    assert forall|i: int| 0 <= i < 4 implies r[4 + i] == va[i] by {
        assert(r[4 + i] == (ka + va)[4 + i]);
    }
    assert forall|i: int| 0 <= i < kl implies r[8 + i] == k[i] by {
        assert(r[8 + i] == (ka + va + k)[8 + i]);
    }
    assert forall|i: int| 0 <= i < vl implies r[8 + kl + i] == v[i] by {}
    assert(data.subrange(pos, pos + 4) =~= ka);
    assert(data.subrange(pos + 4, pos + 8) =~= va);
    lemma_u32_le_round_trip(k.len() as u32);
    lemma_u32_le_round_trip(v.len() as u32);
    assert(rec_klen(data, pos) == kl);
    assert(rec_vlen(data, pos) == vl);
    assert(rec_key(data, pos) =~= k);
    assert(rec_value(data, pos) =~= v);
}

/// Appends the encoding of one record.
pub fn append_record(out: &mut Vec<u8>, key: &[u8], val: &[u8])
    requires
        key@.len() <= u32::MAX,
        val@.len() <= u32::MAX,
    ensures
        final(out)@ == old(out)@ + spec_record(key@, val@),
{
    push_u32_le(out, key.len() as u32);
    push_u32_le(out, val.len() as u32);
    out.extend_from_slice(key);
    out.extend_from_slice(val);
    proof {
        assert(out@ =~= old(out)@ + spec_record(key@, val@));
    }
}

/// The outcome of reading at an offset: a record, the end of the data,
/// or bytes too short to hold the record they declare.
pub enum RecordRead {
    Record(KeyValuePair, usize),
    End,
    Truncated,
}

/// Reads the record starting at `pos`. The end of the data is reported
/// distinctly from a truncated record.
pub fn read_record(data: &[u8], pos: usize) -> (r: RecordRead)
    requires
        pos <= data@.len(),
    ensures
        match r {
            RecordRead::End => pos == data@.len(),
            RecordRead::Record(kv, len) => {
                &&& has_record_at(data@, pos as int)
                &&& kv.key@ == rec_key(data@, pos as int)
                &&& kv.value@ == rec_value(data@, pos as int)
                &&& len == rec_end(data@, pos as int) - pos
            },
            RecordRead::Truncated => pos < data@.len() && !has_record_at(data@, pos as int),
        },
{
    let dlen: usize = data.len();
    if pos == dlen {
        return RecordRead::End;
    }
    if dlen - pos < 8 {
        return RecordRead::Truncated;
    }
    let klen: usize = read_u32_at(data, pos) as usize;
    let vlen: usize = read_u32_at(data, pos + 4) as usize;
    proof {
        assert(data@.subrange(pos as int, pos as int + 4) =~= data@.subrange(
            pos as int,
            pos as int + 4,
        ));
    }
    let remaining: usize = dlen - pos - 8;
    if klen > remaining {
        return RecordRead::Truncated;
    }
    if vlen > remaining - klen {
        return RecordRead::Truncated;
    }
    let key: Vec<u8> = slice_to_vec(slice_subrange(data, pos + 8, pos + 8 + klen));
    let val: Vec<u8> = slice_to_vec(slice_subrange(data, pos + 8 + klen, pos + 8 + klen + vlen));
    RecordRead::Record(KeyValuePair::new(key, val), 8 + klen + vlen)
}

/// The bytes of a complete record at `pos` are exactly the encoding of the
/// key and value parsed there.
#[verifier::rlimit(100)]
pub proof fn lemma_record_unparses(data: Seq<u8>, pos: int)
    requires
        has_record_at(data, pos),
    ensures
        rec_key(data, pos).len() == rec_klen(data, pos),
        rec_value(data, pos).len() == rec_vlen(data, pos),
        rec_key(data, pos).len() <= u32::MAX,
        rec_value(data, pos).len() <= u32::MAX,
        rec_end(data, pos) == pos + record_len(rec_key(data, pos), rec_value(data, pos)),
        data.subrange(pos, rec_end(data, pos)) == spec_record(
            rec_key(data, pos),
            rec_value(data, pos),
        ),
{
    let k = rec_key(data, pos);
    let v = rec_value(data, pos);
    let end = rec_end(data, pos);
    lemma_le_val4_bound(data.subrange(pos, pos + 4));
    lemma_le_val4_bound(data.subrange(pos + 4, pos + 8));
    let r = spec_record(k, v);
    let ka = u32_le_bytes(k.len() as u32);
    let va = u32_le_bytes(v.len() as u32);
    lemma_u32_le_round_trip(k.len() as u32);
    lemma_u32_le_round_trip(v.len() as u32);
    assert(ka =~= data.subrange(pos, pos + 4)) by {
        assert(le_val4(ka) == k.len());
        assert(le_val4(data.subrange(pos, pos + 4)) == rec_klen(data, pos));
        lemma_le_val4_injective(ka, data.subrange(pos, pos + 4));
    }
    assert(va =~= data.subrange(pos + 4, pos + 8)) by {
        assert(le_val4(va) == v.len());
        lemma_le_val4_injective(va, data.subrange(pos + 4, pos + 8));
    }
    assert forall|i: int| 0 <= i < end - pos implies data.subrange(pos, end)[i] == r[i] by {
        assert(data.subrange(pos, end)[i] == data[pos + i]);
        if i < 4 {
            assert(r[i] == (ka + va)[i]);
            assert(ka[i] == data.subrange(pos, pos + 4)[i]);
        } else if i < 8 {
            assert(r[i] == (ka + va)[i]);
            assert(va[i - 4] == data.subrange(pos + 4, pos + 8)[i - 4]);
        } else if i < 8 + k.len() {
            assert(r[i] == (ka + va + k)[i]);
            assert(k[i - 8] == data[pos + i]);
        } else {
            assert(v[i - 8 - k.len()] == data[pos + i]);
        }
    }
    assert(data.subrange(pos, end) =~= r);
}

/// Four-byte strings carrying the same value are the same bytes.
pub proof fn lemma_le_val4_injective(a: Seq<u8>, b: Seq<u8>)
    requires
        a.len() == 4,
        b.len() == 4,
        le_val4(a) == le_val4(b),
    ensures
        a == b,
{
    assert((a[0] as int) == le_val4(a) % 256 && (b[0] as int) == le_val4(b) % 256) by {
        lemma_byte_decomp(a);
        lemma_byte_decomp(b);
    }
    lemma_byte_decomp(a);
    lemma_byte_decomp(b);
    assert(a[0] == b[0] && a[1] == b[1] && a[2] == b[2] && a[3] == b[3]);
    assert(a =~= b);
}

/// Each byte of a four-byte string is a digit of its value.
proof fn lemma_byte_decomp(s: Seq<u8>)
    requires
        s.len() == 4,
    ensures
        (s[0] as int) == le_val4(s) % 256,
        (s[1] as int) == (le_val4(s) / 256) % 256,
        (s[2] as int) == ((le_val4(s) / 256) / 256) % 256,
        (s[3] as int) == (((le_val4(s) / 256) / 256) / 256) % 256,
{
    let n = le_val4(s);
    assert(n == s[0] + 256 * (s[1] as int) + 65536 * (s[2] as int) + 16777216 * (s[3] as int));
    assert(n % 256 == s[0] as int) by (nonlinear_arith)
        requires
            n == s[0] + 256 * (s[1] as int) + 65536 * (s[2] as int) + 16777216 * (s[3] as int),
            0 <= s[0] < 256,
            0 <= s[1] < 256,
            0 <= s[2] < 256,
            0 <= s[3] < 256,
    ;
    assert(n / 256 == s[1] + 256 * (s[2] as int) + 65536 * (s[3] as int)) by (nonlinear_arith)
        requires
            n == s[0] + 256 * (s[1] as int) + 65536 * (s[2] as int) + 16777216 * (s[3] as int),
            0 <= s[0] < 256,
            0 <= s[1] < 256,
            0 <= s[2] < 256,
            0 <= s[3] < 256,
    ;
    let n1 = n / 256;
    assert(n1 % 256 == s[1] as int) by (nonlinear_arith)
        requires
            n1 == s[1] + 256 * (s[2] as int) + 65536 * (s[3] as int),
            0 <= s[1] < 256,
            0 <= s[2] < 256,
            0 <= s[3] < 256,
    ;
    assert(n1 / 256 == s[2] + 256 * (s[3] as int)) by (nonlinear_arith)
        requires
            n1 == s[1] + 256 * (s[2] as int) + 65536 * (s[3] as int),
            0 <= s[1] < 256,
            0 <= s[2] < 256,
            0 <= s[3] < 256,
    ;
    let n2 = n1 / 256;
    assert(n2 % 256 == s[2] as int) by (nonlinear_arith)
        requires
            n2 == s[2] + 256 * (s[3] as int),
            0 <= s[2] < 256,
            0 <= s[3] < 256,
    ;
    assert(n2 / 256 == s[3] as int) by (nonlinear_arith)
        requires
            n2 == s[2] + 256 * (s[3] as int),
            0 <= s[2] < 256,
            0 <= s[3] < 256,
    ;
    let n3 = n2 / 256;
    assert(n3 % 256 == s[3] as int);
}

} // verus!
