use ping_monitor::address::HostAddr;
use ping_monitor::config::{AppConfig, Config};
use ping_monitor::sweep::{plan_sweep, ParseError, SweepStep};

fn config(ping_interval: u64) -> Config {
    Config {
        app: AppConfig {
            database_path: "./out/result.sqlite".to_string(),
            whitelist_path: "./out/whitelist.txt".to_string(),
            ping_interval,
        },
    }
}

fn report(line: usize) -> SweepStep {
    SweepStep::Report(ParseError { line })
}

fn localhost() -> SweepStep {
    SweepStep::Probe(HostAddr::V4([127, 0, 0, 1]))
}

#[test]
fn a_sweep_probes_each_address_and_reports_the_rest() {
    let list = "127.0.0.1\ndfkgjhsd\n::1\n\n8.0.8.0 \n";
    assert_eq!(
        plan_sweep(&config(60), list),
        vec![
            localhost(),
            report(1),
            SweepStep::Probe(HostAddr::V6([0, 0, 0, 0, 0, 0, 0, 1])),
            report(3),
            report(4),
            SweepStep::Pause(60),
        ]
    );
}

#[test]
fn a_sweep_over_nothing_only_pauses() {
    assert_eq!(plan_sweep(&config(5), ""), vec![SweepStep::Pause(5)]);
}

#[test]
fn the_last_line_needs_no_line_ending() {
    let pause = SweepStep::Pause(1);
    assert_eq!(plan_sweep(&config(1), "127.0.0.1"), vec![localhost(), pause]);
    assert_eq!(plan_sweep(&config(1), "127.0.0.1\n"), vec![localhost(), pause]);
    assert_eq!(
        plan_sweep(&config(1), "127.0.0.1\n\n"),
        vec![localhost(), report(1), pause]
    );
    assert_eq!(plan_sweep(&config(1), "\n"), vec![report(0), pause]);
    assert_eq!(
        plan_sweep(&config(1), "\n127.0.0.1"),
        vec![report(0), localhost(), pause]
    );
}

#[test]
fn a_carriage_return_belongs_to_the_line_ending() {
    let pause = SweepStep::Pause(1);
    assert_eq!(
        plan_sweep(&config(1), "127.0.0.1\r\n127.0.0.1\r\n"),
        vec![localhost(), localhost(), pause]
    );
    assert_eq!(plan_sweep(&config(1), "127.0.0.1\r"), vec![report(0), pause]);
    assert_eq!(plan_sweep(&config(1), "127.0.0.1\r\r\n"), vec![report(0), pause]);
    assert_eq!(plan_sweep(&config(1), "\r\n"), vec![report(0), pause]);
    assert_eq!(plan_sweep(&config(1), "\r"), vec![report(0), pause]);
    assert_eq!(
        plan_sweep(&config(1), "127.0.0.1\r\n127.0.0.1"),
        vec![localhost(), localhost(), pause]
    );
}

#[test]
fn the_steps_agree_with_the_lines_of_the_text() {
    let list = "10.0.0.1\r\nnot an address\n\n::ffff:10.0.0.2\r\nfe80::1%eth0\n10.0.0.3";
    let steps = plan_sweep(&config(30), list);
    let lines: Vec<&str> = list.lines().collect();
    assert_eq!(steps.len(), lines.len() + 1);
    assert_eq!(
        steps,
        vec![
            SweepStep::Probe(HostAddr::V4([10, 0, 0, 1])),
            report(1),
            report(2),
            SweepStep::Probe(HostAddr::V6([0, 0, 0, 0, 0, 0xffff, 0xa00, 0x2])),
            report(4),
            SweepStep::Probe(HostAddr::V4([10, 0, 0, 3])),
            SweepStep::Pause(30),
        ]
    );
    assert_eq!(lines[1], "not an address");
    assert_eq!(lines[4], "fe80::1%eth0");
}

#[test]
fn the_configuration_holds_its_three_options() {
    let cfg = config(60);
    assert_eq!(cfg.app.database_path, "./out/result.sqlite");
    assert_eq!(cfg.app.whitelist_path, "./out/whitelist.txt");
    assert_eq!(cfg.app.ping_interval, 60);
}
