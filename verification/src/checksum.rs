//! The CRC-32 that guards every chunk.

use vstd::prelude::*;
use crc::{Crc, CRC_32_ISO_HDLC};

verus! {

/// The CRC-32/ISO-HDLC checksum of a byte sequence: the variant that zlib and
/// PNG use. Its value is whatever the `crc` crate computes; nothing more is
/// known of it here than that equal bytes have equal checksums.
pub uninterp spec fn crc32_iso_hdlc(bytes: Seq<u8>) -> u32;

/// Calls `crc::Crc::<u32>::new(&crc::CRC_32_ISO_HDLC)` and then `checksum` on
/// it. Trusted: the result is the checksum that [`crc32_iso_hdlc`] names. The
/// call reads nothing but `bytes` and the algorithm's constants, and returns
/// for every slice.
#[verifier::external_body]
pub(crate) fn checksum(bytes: &[u8]) -> (sum: u32)
    ensures
        sum == crc32_iso_hdlc(bytes@),
{
    Crc::<u32>::new(&CRC_32_ISO_HDLC).checksum(bytes)
}

} // verus!
