use std::collections::BTreeMap;

use oboe::{
    DnsPosture, ExpectKind, FallbackPolicy, HealthConfig, IpAddr, ProbeOutcome, ServerHealth,
    StateMachine,
};

fn posture(ips: Vec<IpAddr>) -> DnsPosture {
    DnsPosture {
        label: "test".into(),
        description: String::new(),
        posture_id: "test".into(),
        upstream_servers: ips,
        addresses: BTreeMap::new(),
        health: HealthConfig {
            query: "example.com".into(),
            expect: ExpectKind::AnswerNonempty,
            interval_ms: 1000,
            timeout_ms: 500,
            failures_before_unhealthy: 3,
            successes_before_healthy: 2,
        },
        fallback: FallbackPolicy::PromoteSecondary,
    }
}

fn outcome(ip: IpAddr, ok: bool) -> ProbeOutcome {
    ProbeOutcome {
        upstream: ip,
        ok,
        rtt_ms: 50,
        error: if ok { None } else { Some("test".into()) },
    }
}

fn one() -> IpAddr {
    IpAddr::v4(1, 1, 1, 1)
}

fn nine() -> IpAddr {
    IpAddr::v4(9, 9, 9, 9)
}

fn eight() -> IpAddr {
    IpAddr::v4(8, 8, 8, 8)
}

fn health_of(sm: &StateMachine, ip: IpAddr) -> ServerHealth {
    let snap = sm.snapshot();
    snap.servers.iter().find(|(a, _)| *a == ip).map(|(_, s)| s.health).unwrap()
}

#[test]
fn unhealthy_after_threshold() {
    let mut sm = StateMachine::new(&posture(vec![one(), nine()]));
    assert_eq!(sm.effective_chain(), vec![one(), nine()]);
    assert!(!sm.observe(outcome(one(), false))); // 1 failure, still Probing: usable, no change
    assert!(!sm.observe(outcome(one(), false))); // 2 failures
    assert!(sm.observe(outcome(one(), false))); // 3 failures: Unhealthy, chain changed
    // 1.1.1.1 moves to tail
    assert_eq!(sm.effective_chain(), vec![nine(), one()]);
}

#[test]
fn recovery_after_successes() {
    let mut sm = StateMachine::new(&posture(vec![one(), nine()]));
    sm.observe(outcome(one(), false));
    sm.observe(outcome(one(), false));
    assert!(sm.observe(outcome(one(), false)));
    assert_eq!(sm.effective_chain()[0], nine());
    // One success: Probing, which is usable, so already re-promoted.
    assert!(sm.observe(outcome(one(), true)));
    assert_eq!(sm.effective_chain()[0], one());
}

#[test]
fn probing_then_healthy_after_success_threshold() {
    let mut sm = StateMachine::new(&posture(vec![one(), nine()]));
    for _ in 0..3 {
        sm.observe(outcome(one(), false));
    }
    assert_eq!(health_of(&sm, one()), ServerHealth::Unhealthy);
    assert!(sm.observe(outcome(one(), true)));
    assert_eq!(health_of(&sm, one()), ServerHealth::Probing);
    assert!(!sm.observe(outcome(one(), true)));
    assert_eq!(health_of(&sm, one()), ServerHealth::Healthy);
}

#[test]
fn counters_and_last_observation_are_recorded() {
    let mut sm = StateMachine::new(&posture(vec![one()]));
    sm.observe(ProbeOutcome { upstream: one(), ok: false, rtt_ms: 77, error: Some("boom".into()) });
    sm.observe(ProbeOutcome { upstream: one(), ok: false, rtt_ms: 12, error: Some("bang".into()) });
    let snap = sm.snapshot();
    let st = &snap.servers[0].1;
    assert_eq!(st.consecutive_failures, 2);
    assert_eq!(st.consecutive_successes, 0);
    assert_eq!(st.last_rtt_ms, Some(12));
    assert_eq!(st.last_error.as_deref(), Some("bang"));
    assert_eq!(st.health, ServerHealth::Probing);
    sm.observe(ProbeOutcome { upstream: one(), ok: true, rtt_ms: 5, error: None });
    let snap = sm.snapshot();
    let st = &snap.servers[0].1;
    assert_eq!(st.consecutive_failures, 0);
    assert_eq!(st.consecutive_successes, 1);
    assert_eq!(st.last_rtt_ms, Some(5));
    assert_eq!(st.last_error, None);
    assert_eq!(st.health, ServerHealth::Probing);
}

#[test]
fn new_machine_tracks_every_upstream_as_healthy() {
    let sm = StateMachine::new(&posture(vec![nine(), one(), eight()]));
    let snap = sm.snapshot();
    assert_eq!(snap.posture_label, "test");
    assert_eq!(snap.posture_id, "test");
    assert_eq!(snap.ordered_upstreams, vec![nine(), one(), eight()]);
    assert_eq!(snap.effective_chain, vec![nine(), one(), eight()]);
    assert_eq!(snap.servers.len(), 3);
    for (_, st) in &snap.servers {
        assert_eq!(st.health, ServerHealth::Healthy);
        assert_eq!(st.consecutive_failures, 0);
        assert_eq!(st.consecutive_successes, 0);
        assert_eq!(st.last_rtt_ms, None);
        assert_eq!(st.last_error, None);
    }
}

#[test]
fn snapshot_lists_servers_in_address_order() {
    let v6 = IpAddr::V6(1);
    let sm = StateMachine::new(&posture(vec![v6, nine(), one(), eight()]));
    let snap = sm.snapshot();
    let addrs: Vec<IpAddr> = snap.servers.iter().map(|(a, _)| *a).collect();
    assert_eq!(addrs, vec![one(), eight(), nine(), v6]);
}

#[test]
fn unknown_upstream_is_tracked_but_not_chained() {
    let mut sm = StateMachine::new(&posture(vec![one()]));
    assert!(!sm.observe(outcome(nine(), false)));
    let snap = sm.snapshot();
    assert_eq!(snap.servers.len(), 2);
    assert_eq!(snap.effective_chain, vec![one()]);
}

#[test]
fn zero_failure_threshold_flips_on_first_failure() {
    let mut p = posture(vec![one(), nine()]);
    p.health.failures_before_unhealthy = 0;
    let mut sm = StateMachine::new(&p);
    assert!(sm.observe(outcome(one(), false)));
    assert_eq!(sm.effective_chain(), vec![nine(), one()]);
}

#[test]
fn chain_keeps_posture_order_within_head_and_tail() {
    let mut sm = StateMachine::new(&posture(vec![one(), nine(), eight()]));
    for _ in 0..3 {
        sm.observe(outcome(one(), false));
        sm.observe(outcome(eight(), false));
    }
    assert_eq!(sm.effective_chain(), vec![nine(), one(), eight()]);
}

#[test]
fn chain_is_a_permutation_with_duplicates() {
    let mut sm = StateMachine::new(&posture(vec![one(), nine(), one()]));
    for _ in 0..3 {
        sm.observe(outcome(one(), false));
    }
    assert_eq!(sm.effective_chain(), vec![nine(), one(), one()]);
}

#[test]
fn quiet_observation_keeps_chain() {
    let mut sm = StateMachine::new(&posture(vec![one(), nine()]));
    for _ in 0..3 {
        sm.observe(outcome(one(), false));
    }
    let before = sm.effective_chain();
    assert!(!sm.observe(outcome(one(), false)));
    assert!(!sm.observe(outcome(nine(), true)));
    assert_eq!(sm.effective_chain(), before);
}

#[test]
fn crossing_without_reorder_still_reports_change() {
    // A single upstream: the chain reads the same either way, but the
    // upstream crossed the boundary, so the effector is told to re-apply.
    let mut sm = StateMachine::new(&posture(vec![one()]));
    sm.observe(outcome(one(), false));
    sm.observe(outcome(one(), false));
    assert!(sm.observe(outcome(one(), false)));
    assert_eq!(sm.effective_chain(), vec![one()]);
}

#[test]
fn on_probe_hands_back_chain_only_on_change() {
    let mut sm = StateMachine::new(&posture(vec![one(), nine()]));
    assert_eq!(sm.on_probe(outcome(one(), false)), None);
    assert_eq!(sm.on_probe(outcome(one(), false)), None);
    assert_eq!(sm.on_probe(outcome(one(), false)), Some(vec![nine(), one()]));
    assert_eq!(sm.on_probe(outcome(one(), true)), Some(vec![one(), nine()]));
}

#[test]
fn switch_posture_fallback_orders_the_same_way() {
    let mut p = posture(vec![one(), nine()]);
    p.fallback = FallbackPolicy::SwitchPosture { label: "vpn-active".into() };
    let mut sm = StateMachine::new(&p);
    for _ in 0..3 {
        sm.observe(outcome(one(), false));
    }
    assert_eq!(sm.effective_chain(), vec![nine(), one()]);
}

#[test]
fn recovery_run_crosses_once_and_heals_at_threshold() {
    let mut p = posture(vec![one(), nine()]);
    p.health.failures_before_unhealthy = 1;
    p.health.successes_before_healthy = 3;
    let mut sm = StateMachine::new(&p);
    assert!(sm.observe(outcome(one(), false)));
    assert_eq!(health_of(&sm, one()), ServerHealth::Unhealthy);
    assert!(sm.observe(outcome(one(), true)));
    assert_eq!(health_of(&sm, one()), ServerHealth::Probing);
    assert!(!sm.observe(outcome(one(), true)));
    assert_eq!(health_of(&sm, one()), ServerHealth::Probing);
    assert!(!sm.observe(outcome(one(), true)));
    assert_eq!(health_of(&sm, one()), ServerHealth::Healthy);
    assert!(!sm.observe(outcome(one(), true)));
    assert_eq!(health_of(&sm, one()), ServerHealth::Healthy);
}

#[test]
fn failure_run_crosses_only_at_threshold() {
    let mut p = posture(vec![one()]);
    p.health.failures_before_unhealthy = 4;
    let mut sm = StateMachine::new(&p);
    let crossings: Vec<bool> = (0..6).map(|_| sm.observe(outcome(one(), false))).collect();
    assert_eq!(crossings, vec![false, false, false, true, false, false]);
    assert_eq!(health_of(&sm, one()), ServerHealth::Unhealthy);
}

#[test]
fn fallback_policy_does_not_change_the_run() {
    let p1 = posture(vec![one(), nine(), eight()]);
    let mut p2 = posture(vec![one(), nine(), eight()]);
    p2.fallback = FallbackPolicy::SwitchPosture { label: "vpn-active".into() };
    let mut sm1 = StateMachine::new(&p1);
    let mut sm2 = StateMachine::new(&p2);
    let run = [(one(), false), (nine(), false), (one(), false), (one(), false), (eight(), true), (one(), true)];
    for (ip, ok) in run {
        assert_eq!(sm1.observe(outcome(ip, ok)), sm2.observe(outcome(ip, ok)));
        assert_eq!(sm1.effective_chain(), sm2.effective_chain());
    }
}
