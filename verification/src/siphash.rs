//! SipHash 1-3 of bytes, from the `siphasher` crate.

use core::hash::Hasher;
use vstd::prelude::*;

verus! {

/// The SipHash 1-3 digest of `data` under the key `(key0, key1)`.
pub uninterp spec fn sip13(key0: u64, key1: u64, data: Seq<u8>) -> u64;

/// `siphasher::sip::SipHasher13` made by `new_with_keys`, fed `data` by `write`, and read by
/// `finish`: the digest depends on the two keys and on the bytes, and on nothing else. Writing
/// bytes in several pieces gives the digest of the pieces put together, and `SipHasher13::new()`
/// has the key `(0, 0)`.
#[verifier::external_body]
pub(crate) fn sip_hash13(key0: u64, key1: u64, data: &[u8]) -> (r: u64)
    ensures
        r == sip13(key0, key1, data@),
{
    let mut hasher = siphasher::sip::SipHasher13::new_with_keys(key0, key1);
    hasher.write(data);
    hasher.finish()
}

} // verus!
