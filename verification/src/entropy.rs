//! The one source of randomness: fresh bytes drawn through the `uuid`
//! crate's version-4 generator, which fills a 16-byte value from the
//! operating system's random source.
use vstd::prelude::*;

verus! {

/// Relies on uuid::Uuid::new_v4: returns a freshly generated 16-byte
/// value; 122 of its bits are random, 6 hold version and variant tags.
/// Nothing can be promised of the bytes themselves, only of their count.
#[verifier::external_body]
pub(crate) fn fresh_random_bytes() -> (r: Vec<u8>)
    ensures
        r@.len() == 16,
{
    uuid::Uuid::new_v4().into_bytes().to_vec()
}

} // verus!
