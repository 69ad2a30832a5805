//! Time as the cache keys it: whole seconds since the Unix epoch, read from
//! RFC 3339 text or from the wall clock through `chrono`.

use vstd::prelude::*;

use chrono::{DateTime, ParseError, Utc};

verus! {

#[verifier::external_type_specification]
#[verifier::external_body]
pub struct ExParseError(chrono::ParseError);

/// The whole seconds since the Unix epoch that an RFC 3339 date and time
/// denotes, or none where the text is not one.
pub uninterp spec fn rfc3339_seconds(s: Seq<char>) -> Option<i64>;

/// Relies on `chrono::DateTime::parse_from_rfc3339`, which accepts exactly
/// the RFC 3339 texts, and on `DateTime::timestamp`, which gives the whole
/// seconds since the epoch; both depend on the text alone.
#[verifier::external_body]
pub(crate) fn parse_rfc3339_seconds(s: &str) -> (r: Result<i64, ParseError>)
    ensures
        r is Ok <==> rfc3339_seconds(s@) is Some,
        r matches Ok(t) ==> rfc3339_seconds(s@) == Some(t),
{
    match DateTime::parse_from_rfc3339(s) {
        Ok(t) => Ok(t.timestamp()),
        Err(e) => Err(e),
    }
}

/// Relies on `chrono::Utc::now` and `DateTime::timestamp`: the wall-clock
/// time in whole seconds. Nothing is known of its value.
#[verifier::external_body]
pub(crate) fn now_seconds() -> (r: i64) {
    Utc::now().timestamp()
}

} // verus!
