use github_hosts::executor::{
    after_failure, probe_address, probe_delay, Executor, ProbeOutcome, Resolution, RetryStep,
    MAX_FAILURES, RETRY_PAUSE_MS, TIMED_OUT, UNMEASURED, UNREACHABLE,
};

fn s(x: &str) -> String {
    x.to_string()
}

fn ips(xs: &[&str]) -> Vec<String> {
    xs.iter().map(|x| x.to_string()).collect()
}

#[test]
fn new_executor_answers_nothing() {
    let e = Executor::new();
    assert!(e.best_answer().is_empty());
    assert!(e.probe_targets().is_empty());
    let d = Executor::default();
    assert!(d.best_answer().is_empty());
}

#[test]
fn every_resolved_domain_answered() {
    let domains = ["github.com", "api.github.com", "raw.githubusercontent.com"];
    let mut e = Executor::default();
    e.record_resolved(s(domains[0]), ips(&["140.82.112.3", "140.82.112.4"]));
    e.record_resolved(s(domains[1]), ips(&["140.82.112.6"]));
    e.record_resolved(s(domains[2]), ips(&["185.199.108.133", "185.199.109.133"]));
    for ip in e.probe_targets() {
        e.record_delay(&ip, 1000);
    }
    let hosts = e.best_answer();
    assert_eq!(hosts.len(), domains.len());
}

#[test]
fn answers_sorted_by_domain() {
    let mut e = Executor::new();
    e.record_resolved(s("b.com"), ips(&["2.2.2.2"]));
    e.record_resolved(s("a.com"), ips(&["1.1.1.1"]));
    e.record_resolved(s("c.com"), ips(&["3.3.3.3"]));
    let got = e.best_answer();
    assert_eq!(
        got,
        vec![
            (s("a.com"), (s("1.1.1.1"), UNMEASURED)),
            (s("b.com"), (s("2.2.2.2"), UNMEASURED)),
            (s("c.com"), (s("3.3.3.3"), UNMEASURED)),
        ]
    );
}

#[test]
fn chooses_greatest_delay_last_of_ties() {
    let mut e = Executor::new();
    e.record_resolved(s("x.com"), ips(&["1.0.0.1", "1.0.0.2", "1.0.0.3", "1.0.0.4"]));
    e.record_delay(&s("1.0.0.1"), 50);
    e.record_delay(&s("1.0.0.2"), 900);
    e.record_delay(&s("1.0.0.3"), 10);
    e.record_delay(&s("1.0.0.4"), 900);
    assert_eq!(e.best_answer(), vec![(s("x.com"), (s("1.0.0.4"), 900))]);
    e.record_delay(&s("1.0.0.4"), 20);
    assert_eq!(e.best_answer(), vec![(s("x.com"), (s("1.0.0.2"), 900))]);
}

#[test]
fn fresh_domain_answers_last_address_unmeasured() {
    let mut e = Executor::new();
    e.record_resolved(s("x.com"), ips(&["1.0.0.1", "1.0.0.2"]));
    assert_eq!(e.best_answer(), vec![(s("x.com"), (s("1.0.0.2"), UNMEASURED))]);
}

#[test]
fn domain_without_addresses_is_left_out() {
    let mut e = Executor::new();
    e.record_resolved(s("empty.com"), vec![]);
    e.record_resolved(s("full.com"), ips(&["9.9.9.9"]));
    assert_eq!(e.best_answer(), vec![(s("full.com"), (s("9.9.9.9"), UNMEASURED))]);
}

#[test]
fn resolving_again_replaces_addresses_and_resets_delays() {
    let mut e = Executor::new();
    e.record_resolved(s("x.com"), ips(&["1.0.0.1", "1.0.0.2"]));
    e.record_delay(&s("1.0.0.1"), 5);
    e.record_delay(&s("1.0.0.2"), 7);
    e.record_resolved(s("y.com"), ips(&["1.0.0.2"]));
    assert_eq!(e.delay_of(&s("1.0.0.1")), Some(5));
    assert_eq!(e.delay_of(&s("1.0.0.2")), Some(UNMEASURED));
    e.record_resolved(s("x.com"), ips(&["1.0.0.3"]));
    assert_eq!(
        e.best_answer(),
        vec![
            (s("x.com"), (s("1.0.0.3"), UNMEASURED)),
            (s("y.com"), (s("1.0.0.2"), UNMEASURED)),
        ]
    );
}

#[test]
fn record_delay_ignores_unknown_address() {
    let mut e = Executor::new();
    e.record_resolved(s("x.com"), ips(&["1.0.0.1"]));
    e.record_delay(&s("8.8.8.8"), 3);
    assert_eq!(e.delay_of(&s("8.8.8.8")), None);
    assert_eq!(e.probe_targets(), vec![s("1.0.0.1")]);
}

#[test]
fn probe_targets_lists_each_address_once() {
    let mut e = Executor::new();
    e.record_resolved(s("x.com"), ips(&["1.0.0.1", "1.0.0.2"]));
    e.record_resolved(s("y.com"), ips(&["1.0.0.2", "1.0.0.3"]));
    let mut t = e.probe_targets();
    t.sort();
    assert_eq!(t, ips(&["1.0.0.1", "1.0.0.2", "1.0.0.3"]));
}

#[test]
fn absorb_stops_at_first_failure() {
    let mut e = Executor::new();
    assert!(e.absorb(Resolution::Resolved(s("x.com"), ips(&["1.0.0.1"]))));
    assert!(!e.absorb(Resolution::Failed));
    assert_eq!(e.best_answer(), vec![(s("x.com"), (s("1.0.0.1"), UNMEASURED))]);
}

#[test]
fn probe_delays() {
    assert_eq!(probe_delay(ProbeOutcome::Connected(1234)), 1234);
    assert_eq!(probe_delay(ProbeOutcome::Connected(0x1_0000_0005)), 5);
    assert_eq!(probe_delay(ProbeOutcome::Failed), UNREACHABLE);
    assert_eq!(probe_delay(ProbeOutcome::TimedOut), TIMED_OUT);
    assert_eq!(UNMEASURED, u32::MAX);
    assert_eq!(TIMED_OUT, u32::MAX - 1);
    assert_eq!(UNREACHABLE, u32::MAX - 2);
}

#[test]
fn probe_address_uses_port_443() {
    assert_eq!(probe_address("140.82.112.3"), "140.82.112.3:443");
}

#[test]
fn four_attempts_then_give_up() {
    assert_eq!(MAX_FAILURES, 4);
    let mut failures = 0;
    let mut attempts = 1;
    loop {
        match after_failure(failures) {
            RetryStep::Retry { failures: f, pause_ms } => {
                assert_eq!(pause_ms, RETRY_PAUSE_MS);
                assert_eq!(pause_ms, 500);
                assert_eq!(f, failures + 1);
                failures = f;
                attempts += 1;
            }
            RetryStep::GiveUp => break,
        }
    }
    assert_eq!(attempts, 4);
    assert!(matches!(after_failure(u32::MAX), RetryStep::GiveUp));
}

#[test]
fn unlisted_address_delay_changes_nothing() {
    let mut e = Executor::new();
    e.record_resolved(s("x.com"), ips(&["1.0.0.1", "1.0.0.2"]));
    e.record_resolved(s("x.com"), ips(&["1.0.0.3"]));
    let before = e.best_answer();
    e.record_delay(&s("1.0.0.1"), 7);
    assert_eq!(e.delay_of(&s("1.0.0.1")), Some(7));
    assert_eq!(e.best_answer(), before);
}

#[test]
fn probing_every_target_clears_unmeasured() {
    let mut e = Executor::new();
    e.record_resolved(s("x.com"), ips(&["1.0.0.1", "1.0.0.2"]));
    e.record_resolved(s("y.com"), ips(&["1.0.0.3"]));
    let outcomes = [ProbeOutcome::Connected(120), ProbeOutcome::Failed, ProbeOutcome::TimedOut];
    for (ip, o) in e.probe_targets().into_iter().zip(outcomes) {
        e.record_delay(&ip, probe_delay(o));
    }
    for ip in ["1.0.0.1", "1.0.0.2", "1.0.0.3"] {
        assert_ne!(e.delay_of(&s(ip)), Some(UNMEASURED));
    }
}

#[test]
fn clone_keeps_table() {
    let mut e = Executor::new();
    e.record_resolved(s("x.com"), ips(&["1.0.0.1"]));
    e.record_delay(&s("1.0.0.1"), 9);
    let c = e.clone();
    assert_eq!(c.best_answer(), e.best_answer());
    assert_eq!(c.delay_of(&s("1.0.0.1")), Some(9));
}
