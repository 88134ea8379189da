//! One sweep over the list of targets: what is to be done for each line of
//! the list, and the pause that follows.

use vstd::prelude::*;
use crate::address::{address_of, parse_ip_in, HostAddr};
use crate::config::Config;
use crate::text::{
    chars_of, lines, split, split_at_separator, split_without_separator, without_return,
};

verus! {

/// A line of the list of targets that reads as no address.
#[derive(Clone, Copy, Debug, PartialEq, Eq, Structural)]
pub struct ParseError {
    /// The index of the line, the first line having index zero.
    pub line: usize,
}

/// One step of a sweep.
#[derive(Clone, Copy, Debug, PartialEq, Eq)]
pub enum SweepStep {
    /// Probe this target and append the aggregate.
    Probe(HostAddr),
    /// Report the line that reads as no address, and go on.
    Report(ParseError),
    /// Wait this many seconds before the next sweep.
    Pause(u64),
}

/// The step for the line of index `i`: the target is probed if the line
/// reads as an address, else the line is reported.
pub open spec fn step_for(line: Seq<char>, i: int) -> SweepStep {
    match address_of(line) {
        Some(host) => SweepStep::Probe(host),
        None => SweepStep::Report(ParseError { line: i as usize }),
    }
}

/// The steps of one sweep over the list of targets `list`, which names one
/// target on each line: one step for each line, in the order of the lines,
/// and then the pause.
pub open spec fn sweep_steps(list: Seq<char>, interval: u64) -> Seq<SweepStep> {
    Seq::new(
        lines(list).len() + 1,
        |i: int|
            if i < lines(list).len() {
                step_for(lines(list)[i], i)
            } else {
                SweepStep::Pause(interval)
            },
    )
}

/// Plans one sweep over the list of targets, see [`sweep_steps`]. The
/// pause is the interval of the configuration.
pub fn plan_sweep(cfg: &Config, list: &str) -> (steps: Vec<SweepStep>)
    ensures
        steps@ == sweep_steps(list@, cfg.app.ping_interval),
{
    let chars = chars_of(list);
    let n = chars.len();
    let ghost text = chars@;
    let ghost mut done: Seq<Seq<char>> = Seq::empty();
    let mut steps: Vec<SweepStep> = Vec::new();
    let mut start: usize = 0;
    let mut i: usize = 0;
    assert(text.skip(0) =~= text);
    while i < n
        invariant
            start <= i <= n,
            n == chars.len(),
            text == chars@,
            forall|j: int| start <= j < i ==> chars@[j] != '\n',
            split(text, '\n') == done + split(text.skip(start as int), '\n'),
            steps.len() == done.len(),
            forall|j: int|
                0 <= j < done.len() ==> steps@[j] == step_for(
                    without_return(#[trigger] done[j]),
                    j,
                ),
        decreases n - i,
    {
        if chars[i] == '\n' {
            let ghost rest = text.skip(start as int);
            let ghost part = chars@.subrange(start as int, i as int);
            proof {
                assert forall|j: int| 0 <= j < i - start implies rest[j] != '\n' by {
                    assert(rest[j] == chars@[start + j]);
                }
                assert(rest[i - start] == '\n');
                split_at_separator(rest, '\n', i - start);
                assert(rest.take(i - start) =~= part);
                assert(rest.skip(i - start + 1) =~= text.skip(i + 1));
                assert(split(text, '\n') =~= done.push(part) + split(text.skip(i + 1), '\n'));
            }
            let end: usize = if i > start && chars[i - 1] == '\r' {
                i - 1
            } else {
                i
            };
            assert(chars@.subrange(start as int, end as int) =~= without_return(part));
            match parse_ip_in(&chars, start, end) {
                Some(host) => steps.push(SweepStep::Probe(host)),
                None => steps.push(SweepStep::Report(ParseError { line: steps.len() })),
            }
            proof {
                done = done.push(part);
            }
            start = i + 1;
        }
        i += 1;
    }
    let ghost last = chars@.subrange(start as int, n as int);
    proof {
        let rest = text.skip(start as int);
        assert(rest =~= last);
        split_without_separator(rest, '\n');
        assert(split(text, '\n') =~= done.push(last));
        assert(split(text, '\n').drop_last() =~= done);
        assert(split(text, '\n').last() == last);
    }
    if start < n {
        match parse_ip_in(&chars, start, n) {
            Some(host) => steps.push(SweepStep::Probe(host)),
            None => steps.push(SweepStep::Report(ParseError { line: steps.len() })),
        }
    }
    steps.push(SweepStep::Pause(cfg.app.ping_interval));
    assert(steps@ =~= sweep_steps(list@, cfg.app.ping_interval));
    steps
}

/// No target is probed that was not read from a line of the list: a line
/// that reads as no address is reported and never probed.
pub proof fn only_addresses_are_probed(list: Seq<char>, interval: u64, i: int)
    requires
        0 <= i < lines(list).len(),
    ensures
        sweep_steps(list, interval)[i] matches SweepStep::Probe(host) ==> address_of(lines(list)[i])
            == Some(host),
        address_of(lines(list)[i]) is None ==> sweep_steps(list, interval)[i] == SweepStep::Report(
            ParseError { line: i as usize },
        ),
{
}

} // verus!
