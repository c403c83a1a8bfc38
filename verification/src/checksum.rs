//! The per-record checksum, computed by the `crc` crate.

use vstd::prelude::*;

verus! {

/// The CRC32-IEEE checksum of a byte sequence, as the `crc` crate computes it.
pub uninterp spec fn crc32_of(data: Seq<u8>) -> u32;

/// Relies on `crc::Crc::<u32>::checksum` with the `CRC_32_ISO_HDLC` algorithm
/// (CRC32-IEEE): the checksum is a function of the input bytes alone.
#[verifier::external_body]
pub(crate) fn crc32(data: &Vec<u8>) -> (r: u32)
    ensures
        r == crc32_of(data@),
{
    crc::Crc::<u32>::new(&crc::CRC_32_ISO_HDLC).checksum(data.as_slice())
}

} // verus!
