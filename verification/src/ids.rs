use vstd::prelude::*;

verus! {

/// A fresh random identifier for a container.
///
/// Calls `uuid::Uuid::new_v4` and returns the UUID as its 128-bit value.
/// The crate's source builds that value from random bits with the version
/// nibble (bits 76 to 79) set to 4 and the variant bits (62 and 63) set to
/// `10`, which is all that is claimed here; the rest is random, so nothing
/// else is stated (in particular not that two calls differ). The crate
/// panics where the system gives it no random bytes.
#[verifier::external_body]
pub(crate) fn new_container_id() -> (id: u128)
    ensures
        (id >> 76u128) & 0xfu128 == 4,
        (id >> 62u128) & 0x3u128 == 2,
{
    uuid::Uuid::new_v4().as_u128()
}

} // verus!
