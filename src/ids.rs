use vstd::prelude::*;

verus! {

/// The version nibble of an identifier read as a big-endian `u128`.
pub open spec fn uuid_version(id: u128) -> u128 {
    (id >> 76u128) & 0xfu128
}

/// The two variant bits of an identifier read as a big-endian `u128`.
pub open spec fn uuid_variant(id: u128) -> u128 {
    (id >> 62u128) & 0x3u128
}

/// Relies on `uuid::Uuid::new_v4` and `Uuid::as_u128`: a random identifier
/// whose version bits read 4 and whose variant bits read `0b10`. Nothing is
/// promised of the other bits, nor that two calls differ.
#[verifier::external_body]
pub(crate) fn random_id() -> (r: u128)
    ensures
        uuid_version(r) == 4,
        uuid_variant(r) == 2,
{
    uuid::Uuid::new_v4().as_u128()
}

} // verus!
