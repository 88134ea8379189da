//! The record of a sample that names no target.

use vstd::prelude::*;
use vstd::string::*;
use crate::text::{push_signed_decimal, signed_decimal};
use crate::timestamp::{clock_now, format_rfc3339, rfc3339_text, Timestamp};

verus! {

/// A sample taken of a single, implied target.
#[derive(Clone, Copy, Debug, PartialEq, Eq, Structural)]
pub struct Ping {
    /// When the sample was taken.
    pub datetime: Timestamp,
    /// How many probes were sent again.
    pub retry_count: i32,
    /// The mean latency in milliseconds.
    pub average_response_ms: i32,
}

/// The line that describes `p`, given the text of its date and time.
pub open spec fn ping_text(p: Ping, datetime: Seq<char>) -> Seq<char> {
    "Ping: datetime: "@ + datetime + ", retry_count: "@ + signed_decimal(p.retry_count as int)
        + ", average_response_ms: "@ + signed_decimal(p.average_response_ms as int)
}

impl Ping {
    /// A sample with the given values, taken at `datetime`.
    pub fn at(datetime: Timestamp, retry_count: i32, average_response_ms: i32) -> (p: Ping)
        ensures
            p == (Ping { datetime, retry_count, average_response_ms }),
    {
        Ping { datetime, retry_count, average_response_ms }
    }

    /// A sample with the given values, stamped with the reading of the
    /// system clock.
    pub fn new(retry_count: i32, average_response_ms: i32) -> (p: Ping)
        ensures
            p == (Ping { datetime: p.datetime, retry_count, average_response_ms }),
    {
        Ping::at(clock_now(), retry_count, average_response_ms)
    }

    /// The line that describes the sample where `datetime` is the text of
    /// its date and time, see [`ping_text`].
    pub fn text_with(&self, datetime: &str) -> (text: String)
        ensures
            text@ == ping_text(*self, datetime@),
    {
        let mut out = String::new();
        out.append("Ping: datetime: ");
        out.append(datetime);
        out.append(", retry_count: ");
        push_signed_decimal(&mut out, self.retry_count as i64);
        out.append(", average_response_ms: ");
        push_signed_decimal(&mut out, self.average_response_ms as i64);
        assert(out@ =~= ping_text(*self, datetime@));
        out
    }

    /// The line that describes the sample, with its date and time in
    /// RFC 3339 form; none where the date and time have no such form.
    pub fn to_text(&self) -> (text: Option<String>)
        ensures
            match text {
                Some(s) => rfc3339_text(self.datetime.secs, self.datetime.nanos) matches Some(d)
                    && s@ == ping_text(*self, d),
                None => rfc3339_text(self.datetime.secs, self.datetime.nanos) is None,
            },
    {
        match format_rfc3339(self.datetime.secs, self.datetime.nanos) {
            Some(datetime) => Some(self.text_with(datetime.as_str())),
            None => None,
        }
    }
}

} // verus!
