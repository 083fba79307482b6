//! Generation tokens: the marks by which a handle tells whether the layout of
//! a state is still the one it was resolved against.

use vstd::prelude::*;

verus! {

/// Whether the 128 bits have the layout of a random UUID: version 4 in the
/// version field and the RFC 4122 variant.
pub open spec fn is_random_uuid(token: u128) -> bool {
    token & 0x0000_0000_0000_f000_c000_0000_0000_0000u128
        == 0x0000_0000_0000_4000_8000_0000_0000_0000u128
}

/// Draws a random UUID with `uuid::Uuid::new_v4` and hands out its 128 bits as
/// `uuid::Uuid::as_u128` gives them. Trusted: the bits are random but for the
/// version and variant fields, which `new_v4` sets to those of a random UUID.
/// `new_v4` panics if the operating system cannot supply random bytes.
#[verifier::external_body]
fn random_token() -> (token: u128)
    ensures
        is_random_uuid(token),
{
    uuid::Uuid::new_v4().as_u128()
}

/// Makes a candidate token differ from the current one: the candidate itself
/// if it differs already, else the candidate with its last bit flipped.
pub fn distinct_token(current: u128, candidate: u128) -> (token: u128)
    ensures
        token != current,
        token == if candidate != current {
            candidate
        } else {
            candidate ^ 1
        },
        is_random_uuid(candidate) ==> is_random_uuid(token),
{
    if candidate != current {
        candidate
    } else {
        assert(candidate ^ 1 != candidate) by (bit_vector);
        assert((candidate ^ 1) & 0x0000_0000_0000_f000_c000_0000_0000_0000u128 == candidate
            & 0x0000_0000_0000_f000_c000_0000_0000_0000u128) by (bit_vector);
        candidate ^ 1
    }
}

/// A random token that is no nearer to any other than chance makes it.
pub fn first_generation() -> (token: u128)
    ensures
        is_random_uuid(token),
{
    random_token()
}

/// A random token that differs from `current`.
pub fn next_generation(current: u128) -> (token: u128)
    ensures
        token != current,
        is_random_uuid(token),
{
    distinct_token(current, random_token())
}

} // verus!
