//! The aggregate of one burst: the record that is kept for a target.

use vstd::prelude::*;
use vstd::string::*;
use crate::address::{host_text, HostAddr};
use crate::burst::{
    average_latency, elapsed_at_last_reply, leading_replies, Burst, EchoOutcome, ProbeError,
};
use crate::text::{decimal, push_decimal};
use crate::timestamp::{clock_now, Timestamp};

verus! {

/// What one burst against `host` came to.
#[derive(Clone, Copy, Debug, PartialEq, Eq)]
pub struct PingResult {
    /// When the aggregate was made.
    pub datetime: Timestamp,
    /// How many probes were answered before the burst stopped.
    pub success_call: u32,
    /// The mean latency in milliseconds, see [`average_latency`].
    pub average_response_ms: u64,
    /// The target.
    pub host: HostAddr,
}

/// The aggregate of the recorded `outcomes`, made at `datetime` for `host`:
/// the number of leading replies and their mean latency. Outcomes without a
/// leading reply have no aggregate.
pub open spec fn burst_result(
    datetime: Timestamp,
    host: HostAddr,
    outcomes: Seq<EchoOutcome>,
) -> Result<PingResult, ProbeError> {
    let successes = leading_replies(outcomes);
    if successes == 0 {
        Err(ProbeError::NoSuccessfulProbe)
    } else {
        Ok(
            PingResult {
                datetime,
                success_call: successes as u32,
                average_response_ms: average_latency(
                    elapsed_at_last_reply(outcomes),
                    successes,
                ) as u64,
                host,
            },
        )
    }
}

/// The line that describes `r`.
pub open spec fn ping_result_text(r: PingResult) -> Seq<char> {
    "PingResult: IpAddr: "@ + host_text(r.host) + ", success_call: "@ + decimal(
        r.success_call as nat,
    ) + ", average_response_ms: "@ + decimal(r.average_response_ms as nat)
}

impl PingResult {
    /// A record with the given values, made at `datetime`.
    pub fn at(
        datetime: Timestamp,
        host: HostAddr,
        success_call: u32,
        average_response_ms: u64,
    ) -> (r: PingResult)
        ensures
            r == (PingResult { datetime, success_call, average_response_ms, host }),
    {
        PingResult { datetime, success_call, average_response_ms, host }
    }

    /// A record with the given values, stamped with the reading of the
    /// system clock.
    pub fn new(host: HostAddr, success_call: u32, average_response_ms: u64) -> (r: PingResult)
        ensures
            r == (PingResult { datetime: r.datetime, success_call, average_response_ms, host }),
    {
        PingResult::at(clock_now(), host, success_call, average_response_ms)
    }

    /// The aggregate of `burst`, made at `datetime`, see [`burst_result`].
    pub fn of_burst(datetime: Timestamp, host: HostAddr, burst: &Burst) -> (r: Result<
        PingResult,
        ProbeError,
    >)
        ensures
            r == burst_result(datetime, host, burst.outcomes()),
            r matches Ok(p) ==> 1 <= p.success_call <= burst.attempts(),
    {
        let successes = burst.success_count();
        match burst.average_latency_ms() {
            Ok(average) => Ok(PingResult::at(datetime, host, successes, average)),
            Err(e) => Err(e),
        }
    }

    /// The aggregate of `burst`, stamped with the reading of the system
    /// clock. It fails if and only if no probe of the burst was answered.
    pub fn ping(host: HostAddr, burst: &Burst) -> (r: Result<PingResult, ProbeError>)
        ensures
            match r {
                Ok(p) => burst_result(p.datetime, host, burst.outcomes()) == Ok::<
                    PingResult,
                    ProbeError,
                >(p) && 1 <= p.success_call <= burst.attempts(),
                Err(e) => e == ProbeError::NoSuccessfulProbe && leading_replies(burst.outcomes())
                    == 0,
            },
    {
        PingResult::of_burst(clock_now(), host, burst)
    }

    /// The line that describes the record, see [`ping_result_text`].
    pub fn to_text(&self) -> (text: String)
        ensures
            text@ == ping_result_text(*self),
    {
        let mut out = String::new();
        out.append("PingResult: IpAddr: ");
        let host = self.host.to_text();
        out.append(host.as_str());
        out.append(", success_call: ");
        push_decimal(&mut out, self.success_call as u64);
        out.append(", average_response_ms: ");
        push_decimal(&mut out, self.average_response_ms);
        assert(out@ =~= ping_result_text(*self));
        out
    }
}

} // verus!
