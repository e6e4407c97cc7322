//! The two cryptographic primitives the credential store rests on: a
//! memory-hard key derivation and a constant-time comparison. Both are
//! outside calls; their contracts say no more than the crates' sources do.
use subtle::ConstantTimeEq;

use vstd::prelude::*;

verus! {

/// The key that Argon2id under its default parameters derives from a
/// secret and a salt into a 32-byte buffer: a function of the two
/// arguments alone, far too long to write out here.
pub uninterp spec fn key_of(secret: Seq<u8>, salt: Seq<u8>) -> Seq<u8>;

/// Relies on argon2::Argon2::hash_password_into, with the crate's default
/// algorithm, version and parameters and a 32-byte output buffer. For a
/// salt of accepted length and a secret below the length cap, the only
/// failure the source leaves is the working memory's allocation, so
/// nothing more than the success case is promised.
#[verifier::external_body]
pub(crate) fn derive_key(secret: &Vec<u8>, salt: &Vec<u8>) -> (r: Option<Vec<u8>>)
    requires
        8 <= salt@.len() <= 0xFFFFFFFF,
        secret@.len() <= 0xFFFFFFFF,
    ensures
        r matches Some(k) ==> k@ == key_of(secret@, salt@) && k@.len() == 32,
{
    let mut out = vec![0u8; 32];
    match argon2::Argon2::default().hash_password_into(secret, salt, &mut out) {
        Ok(()) => Some(out),
        Err(_) => None,
    }
}

/// Relies on subtle's ConstantTimeEq for byte slices: the returned choice
/// is 1 exactly when the slices are equal, decided without data-dependent
/// branching on their contents.
#[verifier::external_body]
pub(crate) fn constant_time_eq(a: &Vec<u8>, b: &Vec<u8>) -> (r: bool)
    ensures
        r == (a@ == b@),
{
    a.as_slice().ct_eq(b.as_slice()).into()
}

} // verus!
