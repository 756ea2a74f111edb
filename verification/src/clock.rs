//! Points in time: reading RFC 3339 timestamps, comparing them, and the
//! fresh identifiers and timestamps that new messages get.

use vstd::prelude::*;

verus! {

/// A point in time: whole seconds since the Unix epoch, and the
/// nanoseconds since that second began.
#[derive(Debug, Clone, Copy, PartialEq, Eq, Structural)]
pub struct Instant {
    pub seconds: i64,
    pub nanos: u32,
}

impl Instant {
    /// `self` is strictly later than `other`.
    pub open spec fn later_than(self, other: Instant) -> bool {
        self.seconds > other.seconds || (self.seconds == other.seconds && self.nanos > other.nanos)
    }

    /// Whether `self` is strictly later than `other`.
    pub fn is_later_than(&self, other: &Instant) -> (later: bool)
        ensures
            later == self.later_than(*other),
    {
        self.seconds > other.seconds || (self.seconds == other.seconds && self.nanos > other.nanos)
    }
}

/// The point in time that `text` denotes when read as an RFC 3339
/// timestamp, as seconds and nanoseconds; `None` where it is none.
pub uninterp spec fn rfc3339_instant(text: Seq<char>) -> Option<(i64, u32)>;

/// The instant that `text` denotes as an RFC 3339 timestamp.
pub open spec fn instant_of(text: Seq<char>) -> Option<Instant> {
    match rfc3339_instant(text) {
        Some((seconds, nanos)) => Some(Instant { seconds, nanos }),
        None => None,
    }
}

/// `chrono::DateTime::parse_from_rfc3339`, with the parsed value handed
/// out through `timestamp` and `timestamp_subsec_nanos`: the result is the
/// instant that the text denotes, and `None` where the parser refuses it.
/// Two timestamps compare in chrono as these pairs do.
#[verifier::external_body]
fn parse_rfc3339(text: &str) -> (parsed: Option<(i64, u32)>)
    ensures
        parsed == rfc3339_instant(text@),
{
    match chrono::DateTime::parse_from_rfc3339(text) {
        Ok(time) => Some((time.timestamp(), time.timestamp_subsec_nanos())),
        Err(_) => None,
    }
}

/// `chrono::Utc::now` and `DateTime::to_rfc3339`: the time of the call as
/// an RFC 3339 timestamp. Nothing is promised of it.
#[verifier::external_body]
pub(crate) fn utc_now_rfc3339() -> (now: String) {
    chrono::Utc::now().to_rfc3339()
}

/// `uuid::Uuid::new_v4`, written out as text: a random identifier.
/// Nothing is promised of it.
#[verifier::external_body]
pub(crate) fn random_uuid() -> (id: String) {
    uuid::Uuid::new_v4().to_string()
}

/// Reads an RFC 3339 timestamp.
pub fn parse_instant(text: &str) -> (instant: Option<Instant>)
    ensures
        instant == instant_of(text@),
{
    match parse_rfc3339(text) {
        Some((seconds, nanos)) => Some(Instant { seconds, nanos }),
        None => None,
    }
}

} // verus!
