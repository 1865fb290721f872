//! The descriptor of one sorted string table: its identifier, its level,
//! and the names of the five sibling files, all derived from the
//! identifier's decimal digits.

use vstd::prelude::*;
use vstd::string::{StrSliceExecFns, StringExecFns};

verus! {

/// The number of levels the store keeps.
pub const SSTABLE_MAX_LEVEL: usize = 5;

pub open spec fn dec_digit(d: int) -> char {
    if d == 0 {
        '0'
    } else if d == 1 {
        '1'
    } else if d == 2 {
        '2'
    } else if d == 3 {
        '3'
    } else if d == 4 {
        '4'
    } else if d == 5 {
        '5'
    } else if d == 6 {
        '6'
    } else if d == 7 {
        '7'
    } else if d == 8 {
        '8'
    } else {
        '9'
    }
}

/// The decimal digits of a non-negative number.
pub open spec fn dec_str(n: int) -> Seq<char>
    decreases n,
    when n >= 0
{
    if n < 10 {
        seq![dec_digit(n)]
    } else {
        dec_str(n / 10).push(dec_digit(n % 10))
    }
}

fn digit_str(d: u128) -> (r: &'static str)
    requires
        d < 10,
    ensures
        r@ == seq![dec_digit(d as int)],
{
    if d == 0 {
        let s = "0";
        proof {
            reveal_strlit("0");
        }
        s
    } else if d == 1 {
        let s = "1";
        proof {
            reveal_strlit("1");
        }
        s
    } else if d == 2 {
        let s = "2";
        proof {
            reveal_strlit("2");
        }
        s
    } else if d == 3 {
        let s = "3";
        proof {
            reveal_strlit("3");
        }
        s
    } else if d == 4 {
        let s = "4";
        proof {
            reveal_strlit("4");
        }
        s
    } else if d == 5 {
        let s = "5";
        proof {
            reveal_strlit("5");
        }
        s
    } else if d == 6 {
        let s = "6";
        proof {
            reveal_strlit("6");
        }
        s
    } else if d == 7 {
        let s = "7";
        proof {
            reveal_strlit("7");
        }
        s
    } else if d == 8 {
        let s = "8";
        proof {
            reveal_strlit("8");
        }
        s
    } else {
        let s = "9";
        proof {
            reveal_strlit("9");
        }
        s
    }
}

/// Renders a number in decimal.
pub fn format_u128(n: u128) -> (s: String)
    ensures
        s@ == dec_str(n as int),
    decreases n,
{
    if n < 10 {
        String::from_str(digit_str(n))
    } else {
        let mut s: String = format_u128(n / 10);
        s.append(digit_str(n % 10));
        s
    }
}

/// Relies on std::time::SystemTime: the wall clock's milliseconds since the
/// Unix epoch, or zero if the clock reads before it. Nothing is promised of
/// the value: it is the machine's clock.
#[verifier::external_body]
fn now_millis() -> u128 {
    match std::time::SystemTime::now().duration_since(std::time::UNIX_EPOCH) {
        Ok(d) => d.as_millis(),
        Err(_) => 0,
    }
}

/// The name of one of a table's files: a prefix, the table's identifier in
/// decimal, and the common suffix.
pub open spec fn file_name_of(prefix: Seq<char>, id: u128) -> Seq<char> {
    prefix + dec_str(id as int) + (".db")@
}

/// Where a file of the table lives: under the base path, in the directory
/// of the table's level.
pub open spec fn spec_path(base: Seq<char>, level: u8, name: Seq<char>) -> Seq<char> {
    base + ("/level-")@ + dec_str(level as int) + ("/")@ + name
}

pub struct SsTableMetadata {
    pub base_path: String,
    pub id: u128,
    pub level: u8,
    pub metadata_filename: String,
    pub checksum_filename: String,
    pub data_filename: String,
    pub index_filename: String,
    pub bloom_filter_filename: String,
}

impl SsTableMetadata {
    /// The level is one the store keeps and every file name is derived
    /// from the identifier.
    pub open spec fn wf(&self) -> bool {
        &&& (self.level as usize) < SSTABLE_MAX_LEVEL
        &&& self.metadata_filename@ == file_name_of(("metadata_")@, self.id)
        &&& self.checksum_filename@ == file_name_of(("checksum_")@, self.id)
        &&& self.data_filename@ == file_name_of(("data_")@, self.id)
        &&& self.index_filename@ == file_name_of(("index_")@, self.id)
        &&& self.bloom_filter_filename@ == file_name_of(("bloom_")@, self.id)
    }

    /// A fresh descriptor for a table created now: the identifier is the
    /// clock's milliseconds, and the file names carry its digits.
    pub fn new(base_path: String, level: u8) -> (r: SsTableMetadata)
        requires
            (level as usize) < SSTABLE_MAX_LEVEL,
        ensures
            r.wf(),
            r.base_path@ == base_path@,
            r.level == level,
    {
        let id: u128 = now_millis();
        SsTableMetadata::with_id(base_path, level, id)
    }

    /// A descriptor for a table with a known identifier.
    pub fn with_id(base_path: String, level: u8, id: u128) -> (r: SsTableMetadata)
        requires
            (level as usize) < SSTABLE_MAX_LEVEL,
        ensures
            r.wf(),
            r.base_path@ == base_path@,
            r.level == level,
            r.id == id,
    {
        let ts: String = format_u128(id);
        let mut metadata_filename: String = String::from_str("metadata_");
        metadata_filename.append(ts.as_str());
        metadata_filename.append(".db");
        let mut checksum_filename: String = String::from_str("checksum_");
        checksum_filename.append(ts.as_str());
        checksum_filename.append(".db");
        let mut data_filename: String = String::from_str("data_");
        data_filename.append(ts.as_str());
        data_filename.append(".db");
        let mut index_filename: String = String::from_str("index_");
        index_filename.append(ts.as_str());
        index_filename.append(".db");
        let mut bloom_filter_filename: String = String::from_str("bloom_");
        bloom_filter_filename.append(ts.as_str());
        bloom_filter_filename.append(".db");
        SsTableMetadata {
            base_path,
            id,
            level,
            metadata_filename,
            checksum_filename,
            data_filename,
            index_filename,
            bloom_filter_filename,
        }
    }

    /// The path of one of the table's files.
    pub fn construct_path(&self, filename: &str) -> (r: String)
        ensures
            r@ == spec_path(self.base_path@, self.level, filename@),
    {
        let mut path: String = self.base_path.clone();
        path.append("/level-");
        let lvl: String = format_u128(self.level as u128);
        path.append(lvl.as_str());
        path.append("/");
        path.append(filename);
        path
    }

    pub fn data_path(&self) -> (r: String)
        ensures
            r@ == spec_path(self.base_path@, self.level, self.data_filename@),
    {
        self.construct_path(self.data_filename.as_str())
    }

    pub fn index_path(&self) -> (r: String)
        ensures
            r@ == spec_path(self.base_path@, self.level, self.index_filename@),
    {
        self.construct_path(self.index_filename.as_str())
    }

    pub fn checksum_path(&self) -> (r: String)
        ensures
            r@ == spec_path(self.base_path@, self.level, self.checksum_filename@),
    {
        self.construct_path(self.checksum_filename.as_str())
    }

    pub fn metadata_path(&self) -> (r: String)
        ensures
            r@ == spec_path(self.base_path@, self.level, self.metadata_filename@),
    {
        self.construct_path(self.metadata_filename.as_str())
    }

    pub fn bloom_filter_path(&self) -> (r: String)
        ensures
            r@ == spec_path(self.base_path@, self.level, self.bloom_filter_filename@),
    {
        self.construct_path(self.bloom_filter_filename.as_str())
    }
}

} // verus!
