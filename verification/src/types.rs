//! Identifiers shared by the whole timeline system.
//!
//! Every identifier is the 128-bit value of a UUID (its big-endian reading).

use vstd::prelude::*;

verus! {

/// Unique identifier for an entity in the entity pool.
pub type EntityId = u128;

/// Unique identifier for a single timeline node (snapshot).
pub type NodeId = u128;

/// Unique identifier for a timeline (main or branch).
pub type TimelineId = u128;

/// Unique identifier for a causal event.
pub type EventId = u128;

/// Unique identifier for a world tendency.
pub type TendencyId = u128;

/// The bits that a random (version 4, RFC 4122 variant) UUID has fixed.
pub open spec fn is_random_uuid(id: u128) -> bool {
    id & 0xF000_C000_0000_0000_0000u128 == 0x4000_8000_0000_0000_0000u128
}

/// `uuid::Uuid::new_v4`, read as a 128-bit value: random bits, except that the
/// version nibble is 4 and the two variant bits are `10`, as the uuid crate sets them.
/// Which random bits come back is left unsaid, and so is that two calls give
/// different values. The call panics only when the operating system's random
/// source cannot deliver bytes (the crate's `rng` module panics then); nothing here
/// rules that out.
#[verifier::external_body]
pub(crate) fn new_uuid() -> (r: u128)
    ensures
        is_random_uuid(r),
{
    uuid::Uuid::new_v4().as_u128()
}

/// Lower-case hexadecimal digit for `n < 16`.
pub open spec fn hex_digit(n: int) -> char {
    if n < 10 {
        (48 + n) as char
    } else {
        (87 + n) as char
    }
}

/// Index of the hex digit written at text position `p` of a hyphenated UUID.
pub open spec fn uuid_digit_index(p: int) -> int {
    if p < 8 {
        p
    } else if p < 13 {
        p - 1
    } else if p < 18 {
        p - 2
    } else if p < 23 {
        p - 3
    } else {
        p - 4
    }
}

/// The hyphenated lower-case text of the UUID whose 128-bit value is `id`:
/// 32 hex digits, most significant first, with `-` at positions 8, 13, 18 and 23.
pub open spec fn uuid_text(id: u128) -> Seq<char> {
    Seq::new(
        36,
        |p: int|
            if p == 8 || p == 13 || p == 18 || p == 23 {
                '-'
            } else {
                hex_digit(
                    (id as int / vstd::arithmetic::power2::pow2(
                        (4 * (31 - uuid_digit_index(p))) as nat,
                    ) as int) % 16,
                )
            },
    )
}

/// `Uuid::from_u128(id).to_string()`: the UUID's hyphenated lower-case text.
#[verifier::external_body]
pub(crate) fn uuid_to_string(id: u128) -> (s: String)
    ensures
        s@ == uuid_text(id),
{
    uuid::Uuid::from_u128(id).to_string()
}

} // verus!
