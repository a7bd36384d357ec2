use oboe::probe::{judge_answer, probe_outcome};
use oboe::{ExpectKind, HealthConfig, IpAddr, ProbeEngine, ProbeReply};

#[test]
fn answered_probe_is_ok_with_its_time() {
    let o = probe_outcome(IpAddr::v4(1, 1, 1, 1), ProbeReply::Answered, 42, 2000);
    assert_eq!(o.upstream, IpAddr::v4(1, 1, 1, 1));
    assert!(o.ok);
    assert_eq!(o.rtt_ms, 42);
    assert_eq!(o.error, None);
}

#[test]
fn failed_probe_keeps_the_error() {
    let o = probe_outcome(IpAddr::v4(9, 9, 9, 9), ProbeReply::Failed("refused".into()), 7, 2000);
    assert!(!o.ok);
    assert_eq!(o.rtt_ms, 7);
    assert_eq!(o.error.as_deref(), Some("refused"));
}

#[test]
fn timed_out_probe_is_charged_the_timeout() {
    let o = probe_outcome(IpAddr::v4(9, 9, 9, 9), ProbeReply::TimedOut, 2500, 2000);
    assert!(!o.ok);
    assert_eq!(o.rtt_ms, 2000);
    assert_eq!(o.error.as_deref(), Some("timeout"));
}

#[test]
fn huge_elapsed_time_saturates() {
    let o = probe_outcome(IpAddr::v4(9, 9, 9, 9), ProbeReply::Answered, u128::from(u64::MAX) + 5, 2000);
    assert_eq!(o.rtt_ms, u64::MAX);
}

#[test]
fn answer_expectations() {
    assert_eq!(judge_answer(ExpectKind::AnswerNonempty, true), Ok(()));
    assert_eq!(judge_answer(ExpectKind::AnswerNonempty, false), Err("empty answer".to_string()));
    assert_eq!(judge_answer(ExpectKind::RcodeOk, false), Ok(()));
    assert_eq!(judge_answer(ExpectKind::RcodeOk, true), Ok(()));
}

#[test]
fn engine_hands_back_its_configuration() {
    let health = HealthConfig {
        query: "cloudflare.com".into(),
        expect: ExpectKind::RcodeOk,
        interval_ms: 5000,
        timeout_ms: 2000,
        failures_before_unhealthy: 3,
        successes_before_healthy: 2,
    };
    let engine = ProbeEngine::new(health, vec![IpAddr::v4(1, 1, 1, 1), IpAddr::v4(9, 9, 9, 9)]);
    let (h, ups) = engine.into_parts();
    assert_eq!(h.query, "cloudflare.com");
    assert_eq!(h.interval_ms, 5000);
    assert_eq!(ups, vec![IpAddr::v4(1, 1, 1, 1), IpAddr::v4(9, 9, 9, 9)]);
}
