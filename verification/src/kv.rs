//! Key-value pairs as the engine stores them: opaque byte strings.

use vstd::prelude::*;
use vstd::slice::slice_to_vec;
use vstd::utf8::encode_utf8;

verus! {

/// Keys and values are opaque byte strings; UTF-8 is a convention of the
/// callers, not a requirement of the codec.
pub type ByteString = Vec<u8>;

/// The characters `String::from_utf8_lossy` reads out of a byte string.
pub uninterp spec fn lossy_utf8(bytes: Seq<u8>) -> Seq<char>;

/// Relies on `String::from_utf8_lossy`: the result is a function of the
/// bytes alone, and no bytes decode to no characters.
#[verifier::external_body]
fn bytes_to_string_lossy(bytes: &Vec<u8>) -> (r: String)
    ensures
        r@ == lossy_utf8(bytes@),
        bytes@.len() == 0 ==> r@.len() == 0,
{
    String::from_utf8_lossy(bytes.as_slice()).into_owned()
}

/// One record: a key and the value stored for it. An empty value marks a
/// tombstone.
#[derive(Debug)]
pub struct KeyValue {
    pub key: ByteString,
    pub value: ByteString,
}

impl KeyValue {
    /// Builds a record from two strings, each encoded as its UTF-8 bytes.
    pub fn new_from_strings(key: String, value: String) -> (kv: KeyValue)
        ensures
            kv.key@ == encode_utf8(key@),
            kv.value@ == encode_utf8(value@),
    {
        let key_bytes: Vec<u8> = slice_to_vec(key.as_str().as_bytes());
        let value_bytes: Vec<u8> = slice_to_vec(value.as_str().as_bytes());
        KeyValue { key: key_bytes, value: value_bytes }
    }

    pub fn new(key: ByteString, value: ByteString) -> (kv: KeyValue)
        ensures
            kv.key@ == key@,
            kv.value@ == value@,
    {
        KeyValue { key, value }
    }

    pub fn get_key_as_string(&self) -> (r: String)
        ensures
            r@ == lossy_utf8(self.key@),
    {
        bytes_to_string_lossy(&self.key)
    }

    pub fn get_value_as_string(&self) -> (r: String)
        ensures
            r@ == lossy_utf8(self.value@),
            self.value@.len() == 0 ==> r@.len() == 0,
    {
        bytes_to_string_lossy(&self.value)
    }
}

} // verus!
