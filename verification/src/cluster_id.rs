//! The id of a cluster: a UUID, held as a number of 128 bits.

use uuid::Uuid;
use vstd::prelude::*;

verus! {

/// `uuid::Uuid::from_u64_pair`: the UUID whose upper 64 bits are `high_bits` and whose lower 64
/// bits are `low_bits`, as the number that `Uuid::as_u128` gives.
#[verifier::external_body]
pub(crate) fn id_from_pair(high_bits: u64, low_bits: u64) -> (r: u128)
    ensures
        r == high_bits * 0x1_0000_0000_0000_0000 + low_bits,
{
    Uuid::from_u64_pair(high_bits, low_bits).as_u128()
}

/// `uuid::Uuid::as_u64_pair` of the UUID that `Uuid::from_u128` makes of `id`: its upper and its
/// lower 64 bits.
#[verifier::external_body]
pub(crate) fn id_to_pair(id: u128) -> (r: (u64, u64))
    ensures
        r.0 == id as int / 0x1_0000_0000_0000_0000,
        r.1 == id as int % 0x1_0000_0000_0000_0000,
{
    Uuid::from_u128(id).as_u64_pair()
}

} // verus!
