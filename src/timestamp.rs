//! Points in time, held as seconds and nanoseconds since the Unix epoch (UTC),
//! with their RFC 3339 text as chrono writes and reads it.

use chrono::{DateTime, SecondsFormat, Utc};
use vstd::prelude::*;

use crate::decimal::is_digit;

verus! {

/// Whether chrono represents the instant `secs` seconds and `nanos`
/// nanoseconds after the epoch.
pub uninterp spec fn chrono_accepts(secs: i64, nanos: u32) -> bool;

/// The RFC 3339 text (UTC, `Z` suffix) that chrono writes for an instant.
pub uninterp spec fn rfc3339_text(secs: i64, nanos: u32) -> Seq<char>;

/// The instant that chrono reads from a text, if it reads one.
pub uninterp spec fn rfc3339_read(s: Seq<char>) -> Option<(i64, u32)>;

/// Characters that an RFC 3339 date-time in UTC is written with.
pub open spec fn is_stamp_char(c: char) -> bool {
    is_digit(c) || c == '-' || c == '+' || c == ':' || c == '.' || c == 'T' || c == 'Z'
}

/// Relies on chrono's `DateTime::<Utc>::from_timestamp`, which returns `None`
/// exactly on instants it cannot represent.
#[verifier::external_body]
fn instant_in_range(secs: i64, nanos: u32) -> (r: bool)
    ensures
        r == chrono_accepts(secs, nanos),
{
    DateTime::<Utc>::from_timestamp(secs, nanos).is_some()
}

/// Relies on chrono's `DateTime::to_rfc3339_opts` with `SecondsFormat::AutoSi`
/// and a `Z` suffix: a non-empty text of digits, signs, `:`, `.`, `T` and `Z`.
#[verifier::external_body]
fn write_rfc3339(secs: i64, nanos: u32) -> (r: String)
    requires
        chrono_accepts(secs, nanos),
    ensures
        r@ == rfc3339_text(secs, nanos),
        r@.len() > 0,
        forall|i: int| 0 <= i < r@.len() ==> is_stamp_char(#[trigger] r@[i]),
{
    DateTime::<Utc>::from_timestamp(secs, nanos).map(
        |d| d.to_rfc3339_opts(SecondsFormat::AutoSi, true),
    ).unwrap_or_default()
}

/// Relies on chrono's `FromStr for DateTime<Utc>` (relaxed RFC 3339), and on
/// `timestamp` / `timestamp_subsec_nanos`, which chrono documents to
/// round-trip through `from_timestamp`.
#[verifier::external_body]
fn read_rfc3339(s: &str) -> (r: Option<(i64, u32)>)
    ensures
        r == rfc3339_read(s@),
        r matches Some(p) ==> chrono_accepts(p.0, p.1),
{
    s.parse::<DateTime<Utc>>().ok().map(|d| (d.timestamp(), d.timestamp_subsec_nanos()))
}

/// An instant that chrono can represent.
#[derive(Clone, Copy, Debug, PartialEq, Eq)]
pub struct Timestamp {
    secs: i64,
    nanos: u32,
}

impl View for Timestamp {
    type V = (i64, u32);

    closed spec fn view(&self) -> (i64, u32) {
        (self.secs, self.nanos)
    }
}

impl Timestamp {
    #[verifier::type_invariant]
    spec fn inv(self) -> bool {
        chrono_accepts(self.secs, self.nanos)
    }

    /// The instant `secs` seconds and `nanos` nanoseconds after the epoch,
    /// where chrono represents it.
    pub fn from_unix(secs: i64, nanos: u32) -> (r: Option<Timestamp>)
        ensures
            r is Some <==> chrono_accepts(secs, nanos),
            r matches Some(t) ==> t@ == (secs, nanos),
    {
        if instant_in_range(secs, nanos) {
            Some(Timestamp { secs, nanos })
        } else {
            None
        }
    }

    /// Reads an RFC 3339 date-time.
    pub fn parse(s: &str) -> (r: Option<Timestamp>)
        ensures
            r is Some <==> rfc3339_read(s@) is Some,
            r matches Some(t) ==> t@ == rfc3339_read(s@)->0,
    {
        match read_rfc3339(s) {
            Some(p) => Some(Timestamp { secs: p.0, nanos: p.1 }),
            None => None,
        }
    }

    pub fn secs(&self) -> (r: i64)
        ensures
            r == self@.0,
    {
        self.secs
    }

    pub fn nanos(&self) -> (r: u32)
        ensures
            r == self@.1,
    {
        self.nanos
    }

    /// The RFC 3339 text of this instant.
    pub fn to_rfc3339(&self) -> (r: String)
        ensures
            r@ == rfc3339_text(self@.0, self@.1),
            r@.len() > 0,
            forall|i: int| 0 <= i < r@.len() ==> is_stamp_char(#[trigger] r@[i]),
    {
        proof {
            use_type_invariant(self);
        }
        write_rfc3339(self.secs, self.nanos)
    }
}

}
