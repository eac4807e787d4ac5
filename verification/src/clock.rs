//! Points in time as text.

use vstd::prelude::*;

verus! {

/// A point in time of `jiff`.
#[verifier::external_type_specification]
#[verifier::external_body]
pub struct ExTimestamp(jiff::Timestamp);

/// The point in time that `jiff::Timestamp` reads in a text (`FromStr`), if it reads
/// one.
pub uninterp spec fn timestamp_in(text: Seq<char>) -> Option<jiff::Timestamp>;

/// `jiff::Timestamp::to_string`: the time in RFC 3339, with as many places as it takes
/// to tell it exactly. The same time is read from the text again; how the text looks is
/// left open.
#[verifier::external_body]
pub(crate) fn timestamp_text(timestamp: &jiff::Timestamp) -> (text: String)
    ensures
        timestamp_in(text@) == Some(*timestamp),
{
    timestamp.to_string()
}

/// `jiff::Timestamp::from_str`: the time that a text tells, if it tells one.
#[verifier::external_body]
pub(crate) fn parse_timestamp(text: &str) -> (timestamp: Option<jiff::Timestamp>)
    ensures
        timestamp == timestamp_in(text@),
{
    text.parse::<jiff::Timestamp>().ok()
}

} // verus!
