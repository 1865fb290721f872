//! A key/value pair of opaque byte strings.

use vstd::prelude::*;

verus! {

pub type ByteString = Vec<u8>;

#[derive(Debug, Clone)]
pub struct KeyValuePair {
    pub key: ByteString,
    pub value: ByteString,
}

impl KeyValuePair {
    pub fn new(key: ByteString, value: ByteString) -> (r: KeyValuePair)
        ensures
            r.key@ == key@,
            r.value@ == value@,
    {
        KeyValuePair { key, value }
    }

    pub fn key_ref(&self) -> (r: &[u8])
        ensures
            r@ == self.key@,
    {
        self.key.as_slice()
    }

    pub fn value_ref(&self) -> (r: &[u8])
        ensures
            r@ == self.value@,
    {
        self.value.as_slice()
    }

    pub fn key_owned(self) -> (r: ByteString)
        ensures
            r@ == self.key@,
    {
        self.key
    }

    pub fn key_cloned(&self) -> (r: ByteString)
        ensures
            r@ == self.key@,
    {
        self.key.clone()
    }

    pub fn value_owned(self) -> (r: ByteString)
        ensures
            r@ == self.value@,
    {
        self.value
    }

}

} // verus!
