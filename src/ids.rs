//! Identifiers: 128-bit values whose top 48 bits hold the creation time in
//! milliseconds since the Unix epoch, so that identifiers made in a later
//! second sort after those made in an earlier one.
use vstd::prelude::*;

verus! {

/// The largest number of seconds whose milliseconds fit in 48 bits.
pub const MAX_ID_SECONDS: i64 = 281474976710;

/// Whether a time (seconds since the Unix epoch) can be carried by an
/// identifier.
pub open spec fn id_time_ok(secs: i64) -> bool {
    0 <= secs <= MAX_ID_SECONDS
}

/// The creation time, in milliseconds, that an identifier carries.
pub open spec fn id_millis(id: u128) -> int {
    (id as int) / 0x100000000000000000000
}

/// Relies on `uuid::Uuid::new_v7` with `uuid::Timestamp::from_unix` and no
/// counter context: the milliseconds of the given time fill the top 48 bits,
/// the rest is version, variant and random bits.
#[verifier::external_body]
pub fn draw_id(secs: u64) -> (r: u128)
    requires
        secs <= MAX_ID_SECONDS,
    ensures
        id_millis(r) == secs * 1000,
{
    uuid::Uuid::new_v7(uuid::Timestamp::from_unix(uuid::NoContext, secs, 0)).as_u128()
}

} // verus!
