//! Content checksums for the files of a sorted string table: the SHA-256
//! digest of each file's bytes, base64-encoded.

use vstd::prelude::*;
use sha2::Digest;

verus! {

/// The SHA-256 digest of a byte string.
pub uninterp spec fn sha256_of(data: Seq<u8>) -> Seq<u8>;

/// Relies on sha2::Sha256 through Digest::digest: the 32-byte SHA-256
/// digest, a function of the input bytes alone.
#[verifier::external_body]
fn sha256(data: &[u8]) -> (r: Vec<u8>)
    ensures
        r@ == sha256_of(data@),
        r@.len() == 32,
{
    sha2::Sha256::digest(data).to_vec()
}

/// The base64 text of a byte string.
pub uninterp spec fn base64_of(data: Seq<u8>) -> Seq<char>;

/// Relies on base64::encode: the standard alphabet with padding, a function
/// of the input bytes alone.
#[verifier::external_body]
fn base64_encode(data: &[u8]) -> (r: String)
    ensures
        r@ == base64_of(data@),
{
    base64::encode(data)
}

/// The stored form of a file's checksum.
pub open spec fn checksum_of(data: Seq<u8>) -> Seq<char> {
    base64_of(sha256_of(data))
}

pub struct Checksums {
    pub index_checksum: String,
    pub data_checksum: String,
}

impl Checksums {
    /// The checksum text of one file's bytes.
    pub fn calculate_checksum(data: &[u8]) -> (r: String)
        ensures
            r@ == checksum_of(data@),
    {
        let h: Vec<u8> = sha256(data);
        base64_encode(h.as_slice())
    }

    /// Checksums freshly computed over a table's data and index bytes.
    pub fn new(data: &[u8], index_bytes: &[u8]) -> (r: Checksums)
        ensures
            r.data_checksum@ == checksum_of(data@),
            r.index_checksum@ == checksum_of(index_bytes@),
    {
        Checksums {
            index_checksum: Checksums::calculate_checksum(index_bytes),
            data_checksum: Checksums::calculate_checksum(data),
        }
    }

    /// Whether the stored checksums match the given file bytes.
    pub fn verify(&self, data: &[u8], index_bytes: &[u8]) -> (r: bool)
        ensures
            r == (self.data_checksum@ == checksum_of(data@) && self.index_checksum@ == checksum_of(
                index_bytes@,
            )),
    {
        let dc: String = Checksums::calculate_checksum(data);
        let ic: String = Checksums::calculate_checksum(index_bytes);
        let dm: bool = dc == self.data_checksum;
        let im: bool = ic == self.index_checksum;
        dm && im
    }
}

} // verus!
