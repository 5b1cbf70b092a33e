//! Freshly generated values that the engine needs mid-logic: record
//! identifiers and timestamps. Both come from outside crates and are the
//! only points where the library's behaviour is not a function of its
//! inputs.

use vstd::prelude::*;

verus! {

/// Relies on `uuid::Uuid::new_v4` and its `Display` form: a random
/// version-4 UUID rendered hyphenated, which is always 36 characters.
/// Nothing more is assumed of the value; in particular, not uniqueness.
#[verifier::external_body]
pub fn fresh_id() -> (r: String)
    ensures
        r@.len() == 36,
{
    uuid::Uuid::new_v4().to_string()
}

/// Relies on `chrono::Utc::now` and `DateTime::timestamp_millis`: the
/// current time as milliseconds since the Unix epoch. Nothing is assumed
/// of the value: the clock is outside the program.
#[verifier::external_body]
pub fn now_millis() -> i64 {
    chrono::Utc::now().timestamp_millis()
}

} // verus!
