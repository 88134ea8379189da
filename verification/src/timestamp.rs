//! Points in time, as plain values, and their RFC 3339 text.

use vstd::prelude::*;

verus! {

/// A point in time in UTC: whole seconds since 1970-01-01T00:00:00Z and the
/// nanoseconds past that second.
#[derive(Clone, Copy, Debug, PartialEq, Eq, Structural)]
pub struct Timestamp {
    pub secs: i64,
    pub nanos: u32,
}

/// What `chrono::DateTime::to_rfc3339` writes for the UTC date and time that
/// `chrono::DateTime::from_timestamp` makes of `secs` and `nanos`; `None`
/// where `from_timestamp` makes none.
pub uninterp spec fn rfc3339_text(secs: i64, nanos: u32) -> Option<Seq<char>>;

/// Seconds and nanoseconds since the epoch of the date and time that
/// `chrono::DateTime::parse_from_rfc3339` reads from `text`; `None` where it
/// reports an error.
pub uninterp spec fn rfc3339_instant(text: Seq<char>) -> Option<(i64, u32)>;

/// Reads the system clock through `chrono::Utc::now`. Nothing is claimed of
/// the reading. `Utc::now` panics on a machine whose clock stands before 1970.
#[verifier::external_body]
pub(crate) fn clock_now() -> (now: Timestamp) {
    let t = chrono::Utc::now();
    Timestamp { secs: t.timestamp(), nanos: t.timestamp_subsec_nanos() }
}

/// Calls `chrono::DateTime::from_timestamp` and, where that yields a date and
/// time, `to_rfc3339` on it. The contract only gives the outcome its name,
/// [`rfc3339_text`].
#[verifier::external_body]
pub(crate) fn format_rfc3339(secs: i64, nanos: u32) -> (text: Option<String>)
    ensures
        match text {
            Some(t) => rfc3339_text(secs, nanos) == Some(t@),
            None => rfc3339_text(secs, nanos) is None,
        },
{
    match chrono::DateTime::from_timestamp(secs, nanos) {
        Some(t) => Some(t.to_rfc3339()),
        None => None,
    }
}

/// Calls `chrono::DateTime::parse_from_rfc3339` and takes the seconds and
/// nanoseconds of what it read. The contract only gives the outcome its name,
/// [`rfc3339_instant`].
#[verifier::external_body]
pub(crate) fn parse_rfc3339(text: &str) -> (instant: Option<(i64, u32)>)
    ensures
        instant == rfc3339_instant(text@),
{
    match chrono::DateTime::parse_from_rfc3339(text) {
        Ok(t) => Some((t.timestamp(), t.timestamp_subsec_nanos())),
        Err(_) => None,
    }
}

/// The text under which `t` is stored: its RFC 3339 form, provided that
/// reading the form back gives `t` again. A point in time without such a form
/// has no stored text.
pub open spec fn timestamp_text(t: Timestamp) -> Option<Seq<char>> {
    match rfc3339_text(t.secs, t.nanos) {
        Some(text) => confirmed_text(t, text, rfc3339_instant(text)),
        None => None,
    }
}

/// `text` if `reread`, what was read back from it, is `t`.
pub open spec fn confirmed_text(
    t: Timestamp,
    text: Seq<char>,
    reread: Option<(i64, u32)>,
) -> Option<Seq<char>> {
    if reread == Some((t.secs, t.nanos)) {
        Some(text)
    } else {
        None
    }
}

/// The point in time that a stored text stands for.
pub open spec fn timestamp_of_text(text: Seq<char>) -> Option<Timestamp> {
    match rfc3339_instant(text) {
        Some((secs, nanos)) => Some(Timestamp { secs, nanos }),
        None => None,
    }
}

impl Timestamp {
    /// Accepts `text` as the stored form of `self` only if `reread`, the
    /// instant read back from it, is `self`.
    pub fn confirm(&self, text: String, reread: Option<(i64, u32)>) -> (confirmed: Option<String>)
        ensures
            match confirmed {
                Some(s) => confirmed_text(*self, text@, reread) == Some(s@),
                None => confirmed_text(*self, text@, reread) is None,
            },
    {
        match reread {
            Some((secs, nanos)) => {
                if secs == self.secs && nanos == self.nanos {
                    Some(text)
                } else {
                    None
                }
            },
            None => None,
        }
    }

    /// The text under which `self` is stored, see [`timestamp_text`].
    pub fn to_text(&self) -> (text: Option<String>)
        ensures
            match text {
                Some(s) => timestamp_text(*self) == Some(s@),
                None => timestamp_text(*self) is None,
            },
    {
        match format_rfc3339(self.secs, self.nanos) {
            Some(text) => {
                let reread = parse_rfc3339(text.as_str());
                self.confirm(text, reread)
            },
            None => None,
        }
    }

    /// The point in time that `text` stands for, see [`timestamp_of_text`].
    pub fn from_text(text: &str) -> (t: Option<Timestamp>)
        ensures
            t == timestamp_of_text(text@),
    {
        match parse_rfc3339(text) {
            Some((secs, nanos)) => Some(Timestamp { secs, nanos }),
            None => None,
        }
    }
}

/// A stored text reads back as the point in time it was written for.
pub proof fn timestamp_text_reads_back(t: Timestamp)
    ensures
        timestamp_text(t) matches Some(text) ==> timestamp_of_text(text) == Some(t),
{
}

} // verus!
