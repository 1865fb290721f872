//! The options the engine recognises: where the store lives, when the
//! write buffer is frozen, and how many tables a level may hold before
//! compaction runs.

use vstd::prelude::*;

verus! {

pub struct Config {
    pub base_path: String,
    pub memtable_limit_bytes: usize,
    pub sstable_level_limit: usize,
}

impl Config {
    pub fn new(base_path: String, memtable_limit_bytes: usize, sstable_level_limit: usize) -> (r:
        Config)
        ensures
            r.base_path@ == base_path@,
            r.memtable_limit_bytes == memtable_limit_bytes,
            r.sstable_level_limit == sstable_level_limit,
    {
        Config { base_path, memtable_limit_bytes, sstable_level_limit }
    }
}

} // verus!
