use ping_monitor::address::HostAddr;
use ping_monitor::burst::{
    Burst, EchoOutcome, ProbeError, TransportError, DEFAULT_ATTEMPTS, DEFAULT_TIMEOUT_SECS,
};
use ping_monitor::ping_result::PingResult;
use ping_monitor::timestamp::Timestamp;

fn reply(elapsed_ms: u64) -> EchoOutcome {
    EchoOutcome::Reply { elapsed_ms }
}

#[test]
fn test_ping_ping() {
    let localhost = HostAddr::V4([127, 0, 0, 1]);
    let mut script = Vec::new();
    for i in 0..32 {
        script.push(reply(i + 1));
    }
    let burst = Burst::replay(32, &script);
    let ping_result = PingResult::ping(localhost, &burst).unwrap();
    assert_eq!(ping_result.success_call, 32);
    assert!(ping_result.average_response_ms < 100);
    assert_eq!(ping_result.average_response_ms, 1);
    assert_eq!(ping_result.host, localhost);
}

#[test]
fn burst_stops_at_the_first_failure() {
    let script = vec![
        reply(10),
        reply(18),
        reply(25),
        EchoOutcome::Failed(TransportError::Timeout),
        reply(30),
    ];
    let burst = Burst::replay(5, &script);
    assert_eq!(burst.success_count(), 3);
    assert_eq!(burst.elapsed_ms(), 25);
    assert_eq!(burst.average_latency_ms(), Ok(8));
    assert_eq!(burst.attempts_made(), 4);
    assert!(!burst.wants_echo());
    assert_eq!(burst.failure(), Some(ProbeError::Transport(TransportError::Timeout)));

    let at = Timestamp { secs: 1_700_000_000, nanos: 5 };
    let host = HostAddr::V4([192, 0, 2, 7]);
    let result = PingResult::of_burst(at, host, &burst).unwrap();
    assert_eq!(
        result,
        PingResult { datetime: at, success_call: 3, average_response_ms: 8, host }
    );
}

#[test]
fn burst_is_driven_one_probe_at_a_time() {
    let mut burst = Burst::new(5);
    let mut sent = 0;
    let answers = [Some(10u64), Some(18), Some(25), None, Some(30)];
    while burst.wants_echo() {
        let outcome = match answers[sent] {
            Some(elapsed_ms) => reply(elapsed_ms),
            None => EchoOutcome::Failed(TransportError::Unreachable),
        };
        sent += 1;
        burst.record(outcome);
    }
    assert_eq!(sent, 4);
    assert_eq!(burst.success_count(), 3);
    assert_eq!(burst.average_latency_ms(), Ok(8));
    assert_eq!(burst.failure(), Some(ProbeError::Transport(TransportError::Unreachable)));
}

#[test]
fn burst_without_answer_has_no_aggregate() {
    let script = vec![EchoOutcome::Failed(TransportError::Other), reply(3), reply(4)];
    let burst = Burst::replay(32, &script);
    assert_eq!(burst.success_count(), 0);
    assert_eq!(burst.attempts_made(), 1);
    assert_eq!(burst.elapsed_ms(), 0);
    assert_eq!(burst.average_latency_ms(), Err(ProbeError::NoSuccessfulProbe));
    let host = HostAddr::V6([0, 0, 0, 0, 0, 0, 0, 1]);
    assert_eq!(PingResult::ping(host, &burst), Err(ProbeError::NoSuccessfulProbe));
    let at = Timestamp { secs: 0, nanos: 0 };
    assert_eq!(PingResult::of_burst(at, host, &burst), Err(ProbeError::NoSuccessfulProbe));
}

#[test]
fn burst_of_no_attempts_sends_nothing() {
    let mut burst = Burst::new(0);
    assert!(!burst.wants_echo());
    burst.record(reply(7));
    assert_eq!(burst.attempts_made(), 0);
    assert_eq!(burst.success_count(), 0);
    assert_eq!(burst.average_latency_ms(), Err(ProbeError::NoSuccessfulProbe));
    assert_eq!(burst.failure(), None);
}

#[test]
fn burst_takes_no_more_than_its_attempts() {
    let script = vec![reply(1), reply(2), reply(9), reply(100)];
    let burst = Burst::replay(3, &script);
    assert_eq!(burst.attempts_made(), 3);
    assert_eq!(burst.success_count(), 3);
    assert_eq!(burst.elapsed_ms(), 9);
    assert_eq!(burst.average_latency_ms(), Ok(3));
    assert!(!burst.wants_echo());
    assert_eq!(burst.failure(), None);
}

#[test]
fn burst_waits_for_more_when_the_script_ends_early() {
    let script = vec![reply(4), reply(11)];
    let burst = Burst::replay(5, &script);
    assert_eq!(burst.attempts_made(), 2);
    assert!(burst.wants_echo());
    assert_eq!(burst.average_latency_ms(), Ok(5));
}

#[test]
fn outcomes_after_the_end_are_ignored() {
    let mut burst = Burst::new(4);
    burst.record(reply(20));
    burst.record(EchoOutcome::Failed(TransportError::Timeout));
    burst.record(reply(1000));
    burst.record(EchoOutcome::Failed(TransportError::Other));
    assert_eq!(burst.attempts_made(), 2);
    assert_eq!(burst.success_count(), 1);
    assert_eq!(burst.elapsed_ms(), 20);
    assert_eq!(burst.average_latency_ms(), Ok(20));
    assert_eq!(burst.failure(), Some(ProbeError::Transport(TransportError::Timeout)));
}

#[test]
fn average_is_elapsed_at_last_success_over_successes() {
    let cases: Vec<(Vec<u64>, u64)> = vec![
        (vec![0], 0),
        (vec![7], 7),
        (vec![3, 7], 3),
        (vec![1, 2, 3, 4, 5, 6, 7, 8, 9, 99], 9),
        (vec![5, u64::MAX], u64::MAX / 2),
    ];
    for (elapsed, average) in cases {
        let script: Vec<EchoOutcome> = elapsed.iter().map(|ms| reply(*ms)).collect();
        let burst = Burst::replay(32, &script);
        assert_eq!(burst.success_count() as usize, elapsed.len());
        assert_eq!(burst.average_latency_ms(), Ok(average));
    }
}

#[test]
fn full_burst_of_thirty_two() {
    let mut burst = Burst::new(32);
    let mut n = 0u64;
    while burst.wants_echo() {
        n += 1;
        burst.record(reply(n * 10));
    }
    assert_eq!(n, 32);
    assert_eq!(burst.success_count(), 32);
    assert_eq!(burst.elapsed_ms(), 320);
    assert_eq!(burst.average_latency_ms(), Ok(10));
}

#[test]
fn a_burst_has_thirty_two_probes_of_one_second_by_default() {
    assert_eq!(DEFAULT_ATTEMPTS, 32);
    assert_eq!(DEFAULT_TIMEOUT_SECS, 1);
    let mut burst = Burst::new(DEFAULT_ATTEMPTS);
    let mut sent = 0;
    while burst.wants_echo() {
        burst.record(reply(sent));
        sent += 1;
    }
    assert_eq!(sent, 32);
}
