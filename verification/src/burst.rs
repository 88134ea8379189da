//! A burst of echo probes against one target: which probe to send next, and
//! what the answers so far add up to.

use vstd::prelude::*;

verus! {

/// The number of probes in a burst unless another is asked for.
pub const DEFAULT_ATTEMPTS: u32 = 32;

/// The seconds that one probe waits for its answer unless another time is
/// asked for.
pub const DEFAULT_TIMEOUT_SECS: u64 = 1;

/// Why a single echo probe got no answer.
#[derive(Clone, Copy, Debug, PartialEq, Eq, Structural)]
pub enum TransportError {
    Timeout,
    Unreachable,
    Other,
}

/// Why probing a target gave no aggregate, or why one attempt failed.
#[derive(Clone, Copy, Debug, PartialEq, Eq, Structural)]
pub enum ProbeError {
    /// The first attempt of the burst already failed.
    NoSuccessfulProbe,
    /// One attempt failed, which ended the burst.
    Transport(TransportError),
}

/// The answer to one echo probe.
#[derive(Clone, Copy, Debug, PartialEq, Eq, Structural)]
pub enum EchoOutcome {
    /// A reply came; `elapsed_ms` is the time since the burst began, read
    /// when the reply arrived.
    Reply { elapsed_ms: u64 },
    /// No reply came.
    Failed(TransportError),
}

/// How many replies stand in front of the first failure.
pub open spec fn leading_replies(outcomes: Seq<EchoOutcome>) -> nat
    decreases outcomes.len(),
{
    if outcomes.len() == 0 || outcomes.first() is Failed {
        0
    } else {
        1 + leading_replies(outcomes.drop_first())
    }
}

/// The elapsed time carried by the last reply in front of the first failure;
/// zero without such a reply.
pub open spec fn elapsed_at_last_reply(outcomes: Seq<EchoOutcome>) -> nat {
    let k = leading_replies(outcomes);
    if k == 0 {
        0
    } else {
        outcomes[k - 1]->elapsed_ms as nat
    }
}

/// The failure that follows the leading replies, if there is one.
pub open spec fn first_failure(outcomes: Seq<EchoOutcome>) -> Option<TransportError> {
    let k = leading_replies(outcomes) as int;
    if k < outcomes.len() {
        Some(outcomes[k]->Failed_0)
    } else {
        None
    }
}

/// Mean latency of a burst: the milliseconds elapsed at the last success,
/// divided by the number of successes.
pub open spec fn average_latency(elapsed_ms: nat, successes: nat) -> nat
    recommends
        successes > 0,
{
    elapsed_ms / successes
}

/// The outcomes that a burst of `attempts` probes takes from `script`, the
/// answers the network would give in turn: those up to the first failure,
/// the failure included, and never more than `attempts`.
pub open spec fn burst_prefix(script: Seq<EchoOutcome>, attempts: nat) -> Seq<EchoOutcome> {
    let upto_failure = leading_replies(script) + 1;
    let n = if upto_failure <= attempts {
        upto_failure
    } else {
        attempts
    };
    if n <= script.len() {
        script.take(n as int)
    } else {
        script
    }
}

/// The leading replies are replies, and what follows them, if anything, is a
/// failure.
pub proof fn leading_replies_shape(outcomes: Seq<EchoOutcome>)
    ensures
        leading_replies(outcomes) <= outcomes.len(),
        forall|i: int| 0 <= i < leading_replies(outcomes) ==> outcomes[i] is Reply,
        leading_replies(outcomes) < outcomes.len() ==> outcomes[leading_replies(
            outcomes,
        ) as int] is Failed,
    decreases outcomes.len(),
{
    if outcomes.len() == 0 || outcomes.first() is Failed {
    } else {
        let rest = outcomes.drop_first();
        leading_replies_shape(rest);
        assert forall|i: int| 0 <= i < leading_replies(outcomes) implies outcomes[i] is Reply by {
            if i > 0 {
                assert(outcomes[i] == rest[i - 1]);
            }
        }
        if leading_replies(outcomes) < outcomes.len() {
            let k = leading_replies(rest) as int;
            assert(outcomes[k + 1] == rest[k]);
        }
    }
}

/// A sequence that begins with `k` replies, and then ends or goes on with a
/// failure, has `k` leading replies.
pub proof fn leading_replies_unique(outcomes: Seq<EchoOutcome>, k: nat)
    requires
        k <= outcomes.len(),
        forall|i: int| 0 <= i < k ==> outcomes[i] is Reply,
        k < outcomes.len() ==> outcomes[k as int] is Failed,
    ensures
        leading_replies(outcomes) == k,
    decreases k,
{
    if k == 0 {
    } else {
        let rest = outcomes.drop_first();
        assert(outcomes[0] is Reply);
        assert forall|i: int| 0 <= i < k - 1 implies rest[i] is Reply by {
            assert(rest[i] == outcomes[i + 1]);
        }
        if k < outcomes.len() {
            assert(rest[k - 1] == outcomes[k as int]);
        }
        leading_replies_unique(rest, (k - 1) as nat);
    }
}

/// The state of one burst: the configured number of attempts and the
/// outcomes recorded so far.
pub struct Burst {
    attempts: u32,
    sent: u32,
    successes: u32,
    elapsed_ms: u64,
    failure: Option<TransportError>,
    log: Ghost<Seq<EchoOutcome>>,
}

impl Burst {
    #[verifier::type_invariant]
    spec fn coherent(self) -> bool {
        &&& self.sent == self.log@.len()
        &&& self.sent <= self.attempts
        &&& self.successes == leading_replies(self.log@)
        &&& self.sent <= self.successes + 1
        &&& self.elapsed_ms == elapsed_at_last_reply(self.log@)
        &&& self.failure == first_failure(self.log@)
    }

    /// The configured size of the burst.
    pub closed spec fn attempts(&self) -> nat {
        self.attempts as nat
    }

    /// The outcomes recorded so far, oldest first.
    pub closed spec fn outcomes(&self) -> Seq<EchoOutcome> {
        self.log@
    }

    /// Whether another probe is to be sent: no attempt has failed and fewer
    /// than `attempts()` were made.
    pub open spec fn wants(&self) -> bool {
        &&& self.outcomes().len() < self.attempts()
        &&& leading_replies(self.outcomes()) == self.outcomes().len()
    }

    /// A burst of `attempts` probes of which none has been sent.
    pub fn new(attempts: u32) -> (burst: Burst)
        ensures
            burst.attempts() == attempts,
            burst.outcomes() == Seq::<EchoOutcome>::empty(),
    {
        Burst {
            attempts,
            sent: 0,
            successes: 0,
            elapsed_ms: 0,
            failure: None,
            log: Ghost(Seq::empty()),
        }
    }

    /// Says whether another probe is to be sent.
    pub fn wants_echo(&self) -> (wanted: bool)
        ensures
            wanted == self.wants(),
    {
        proof {
            use_type_invariant(self);
            leading_replies_shape(self.log@);
        }
        self.sent < self.attempts && self.failure.is_none()
    }

    /// Takes the outcome of the probe that was sent last. An outcome that
    /// was not asked for is ignored.
    pub fn record(&mut self, outcome: EchoOutcome)
        ensures
            final(self).attempts() == old(self).attempts(),
            final(self).outcomes() == if old(self).wants() {
                old(self).outcomes().push(outcome)
            } else {
                old(self).outcomes()
            },
    {
        if !self.wants_echo() {
            return ;
        }
        proof {
            use_type_invariant(&*self);
            leading_replies_shape(self.log@);
        }
        let ghost before = self.log@;
        let ghost after = before.push(outcome);
        match outcome {
            EchoOutcome::Reply { elapsed_ms } => {
                proof {
                    leading_replies_unique(after, after.len());
                }
                *self = Burst {
                    attempts: self.attempts,
                    sent: self.sent + 1,
                    successes: self.successes + 1,
                    elapsed_ms,
                    failure: None,
                    log: Ghost(after),
                };
            },
            EchoOutcome::Failed(cause) => {
                proof {
                    leading_replies_unique(after, before.len());
                }
                *self = Burst {
                    attempts: self.attempts,
                    sent: self.sent + 1,
                    successes: self.successes,
                    elapsed_ms: self.elapsed_ms,
                    failure: Some(cause),
                    log: Ghost(after),
                };
            },
        }
    }

    /// Runs a burst of `attempts` probes against the answers in `script`,
    /// taken in turn for as long as the burst asks for another probe.
    pub fn replay(attempts: u32, script: &Vec<EchoOutcome>) -> (burst: Burst)
        ensures
            burst.attempts() == attempts,
            burst.outcomes() == burst_prefix(script@, attempts as nat),
    {
        let mut burst = Burst::new(attempts);
        let mut i: usize = 0;
        while i < script.len() && burst.wants_echo()
            invariant
                i <= script.len(),
                burst.attempts() == attempts,
                burst.outcomes() == script@.take(i as int),
            decreases script.len() - i,
        {
            burst.record(script[i]);
            assert(script@.take(i as int).push(script@[i as int]) =~= script@.take(i + 1));
            i += 1;
        }
        proof {
            use_type_invariant(&burst);
            let taken = script@.take(i as int);
            leading_replies_shape(taken);
            leading_replies_shape(script@);
            if i < script.len() {
                if leading_replies(taken) == taken.len() {
                    // the burst is full
                    assert(i == attempts);
                    if leading_replies(script@) < i {
                        assert(taken[leading_replies(script@) as int] is Reply);
                    }
                } else {
                    let k = leading_replies(taken);
                    assert(taken[k as int] is Failed);
                    leading_replies_unique(script@, k);
                }
            } else {
                assert(taken =~= script@);
            }
        }
        burst
    }

    /// The number of probes whose outcome was recorded.
    pub fn attempts_made(&self) -> (n: u32)
        ensures
            n == self.outcomes().len(),
            n <= self.attempts(),
    {
        proof {
            use_type_invariant(self);
        }
        self.sent
    }

    /// The number of probes that were answered.
    pub fn success_count(&self) -> (n: u32)
        ensures
            n == leading_replies(self.outcomes()),
            n <= self.attempts(),
    {
        proof {
            use_type_invariant(self);
            leading_replies_shape(self.log@);
        }
        self.successes
    }

    /// The milliseconds that had elapsed when the last answer came; zero
    /// before the first answer.
    pub fn elapsed_ms(&self) -> (ms: u64)
        ensures
            ms == elapsed_at_last_reply(self.outcomes()),
    {
        proof {
            use_type_invariant(self);
        }
        self.elapsed_ms
    }

    /// The failure that ended the burst, if one did.
    pub fn failure(&self) -> (cause: Option<ProbeError>)
        ensures
            cause == match first_failure(self.outcomes()) {
                Some(e) => Some(ProbeError::Transport(e)),
                None => None,
            },
    {
        proof {
            use_type_invariant(self);
        }
        match self.failure {
            Some(e) => Some(ProbeError::Transport(e)),
            None => None,
        }
    }

    /// The mean latency of the burst, see [`average_latency`]. A burst
    /// without a single answer has none.
    pub fn average_latency_ms(&self) -> (avg: Result<u64, ProbeError>)
        ensures
            avg == if leading_replies(self.outcomes()) == 0 {
                Err::<u64, ProbeError>(ProbeError::NoSuccessfulProbe)
            } else {
                Ok(
                    average_latency(
                        elapsed_at_last_reply(self.outcomes()),
                        leading_replies(self.outcomes()),
                    ) as u64,
                )
            },
    {
        proof {
            use_type_invariant(self);
        }
        if self.successes == 0 {
            Err(ProbeError::NoSuccessfulProbe)
        } else {
            Ok(self.elapsed_ms / (self.successes as u64))
        }
    }
}

/// A burst counts the replies in front of the first failure of the script,
/// and never more than its attempts: what follows a failure counts for
/// nothing.
pub proof fn burst_prefix_successes(script: Seq<EchoOutcome>, attempts: nat)
    ensures
        leading_replies(burst_prefix(script, attempts)) == if leading_replies(script) <= attempts {
            leading_replies(script)
        } else {
            attempts
        },
        burst_prefix(script, attempts).len() <= attempts,
        burst_prefix(script, attempts).len() <= leading_replies(script) + 1,
{
    let taken = burst_prefix(script, attempts);
    let k = leading_replies(script);
    leading_replies_shape(script);
    if k <= attempts {
        if k < taken.len() {
            assert(taken[k as int] == script[k as int]);
        }
        assert forall|i: int| 0 <= i < k implies taken[i] is Reply by {
            assert(taken[i] == script[i]);
        }
        leading_replies_unique(taken, k);
    } else {
        assert forall|i: int| 0 <= i < attempts implies taken[i] is Reply by {
            assert(taken[i] == script[i]);
        }
        leading_replies_unique(taken, attempts);
    }
}

/// The mean latency is never negative and never above the elapsed time it
/// was computed from.
pub proof fn average_latency_bounds(elapsed_ms: nat, successes: nat)
    requires
        successes > 0,
    ensures
        0 <= average_latency(elapsed_ms, successes) <= elapsed_ms,
        average_latency(elapsed_ms, successes) * successes <= elapsed_ms,
        elapsed_ms < (average_latency(elapsed_ms, successes) + 1) * successes,
{
    assert(0 <= elapsed_ms / successes <= elapsed_ms
        && (elapsed_ms / successes) * successes <= elapsed_ms
        && elapsed_ms < (elapsed_ms / successes + 1) * successes) by (nonlinear_arith)
        requires
            successes > 0,
    ;
}

} // verus!
