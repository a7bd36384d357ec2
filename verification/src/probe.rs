//! Probe bookkeeping: how the answer to one probe of one upstream becomes
//! a [`ProbeOutcome`], and the engine's configuration. Sending the
//! queries, timing them and running one task per upstream is the
//! binary's work; it hands the results to the functions here.

use vstd::prelude::*;

use crate::net::IpAddr;
use crate::types::{ExpectKind, HealthConfig};

verus! {

/// The result of one probe of one upstream.
#[derive(Clone, Debug)]
pub struct ProbeOutcome {
    pub upstream: IpAddr,
    pub ok: bool,
    pub rtt_ms: u64,
    pub error: Option<String>,
}

/// How one probe ended, before it is timed.
#[derive(Clone, Debug)]
pub enum ProbeReply {
    /// The query completed and the answer met the expectation.
    Answered,
    /// The query completed with an error, or an answer that failed the
    /// expectation; the text says why.
    Failed(String),
    /// No answer within the per-probe timeout.
    TimedOut,
}

/// A round-trip time in milliseconds as a `u64`, saturating at `u64::MAX`.
pub open spec fn clamp_millis(elapsed_ms: u128) -> u64 {
    if elapsed_ms > u64::MAX as u128 {
        u64::MAX
    } else {
        elapsed_ms as u64
    }
}

/// Whether a completed lookup meets the expectation: `AnswerNonempty`
/// asks for at least one answer record, `RcodeOk` only for a
/// successful response code (which a completed lookup already has).
/// A lookup that fails the expectation is reported as "empty answer".
pub fn judge_answer(expect: ExpectKind, has_answer: bool) -> (r: Result<(), String>)
    ensures
        r is Ok <==> (expect is RcodeOk || has_answer),
        r matches Err(e) ==> e@ == "empty answer"@,
{
    match expect {
        ExpectKind::AnswerNonempty => {
            if has_answer {
                Ok(())
            } else {
                Err("empty answer".to_owned())
            }
        },
        ExpectKind::RcodeOk => Ok(()),
    }
}

/// The outcome of one probe of `upstream`, given how it ended, how many
/// milliseconds it took and the per-probe timeout in milliseconds. A
/// probe that timed out is charged the whole timeout.
pub fn probe_outcome(upstream: IpAddr, reply: ProbeReply, elapsed_ms: u128, timeout_ms: u64) -> (o:
    ProbeOutcome)
    ensures
        o.upstream == upstream,
        o.ok == (reply is Answered),
        match reply {
            ProbeReply::Answered => o.rtt_ms == clamp_millis(elapsed_ms) && o.error is None,
            ProbeReply::Failed(e) => o.rtt_ms == clamp_millis(elapsed_ms) && o.error == Some(e),
            ProbeReply::TimedOut => o.rtt_ms == timeout_ms && (o.error matches Some(e) && e@
                == "timeout"@),
        },
{
    let rtt: u64 = if elapsed_ms > u64::MAX as u128 {
        u64::MAX
    } else {
        elapsed_ms as u64
    };
    match reply {
        ProbeReply::Answered => ProbeOutcome { upstream, ok: true, rtt_ms: rtt, error: None },
        ProbeReply::Failed(e) => ProbeOutcome { upstream, ok: false, rtt_ms: rtt, error: Some(e) },
        ProbeReply::TimedOut => ProbeOutcome {
            upstream,
            ok: false,
            rtt_ms: timeout_ms,
            error: Some("timeout".to_owned()),
        },
    }
}

/// The probe engine's configuration: how to probe, and which upstreams.
pub struct ProbeEngine {
    health: HealthConfig,
    upstreams: Vec<IpAddr>,
}

impl ProbeEngine {
    /// The probe configuration.
    pub closed spec fn config(&self) -> HealthConfig {
        self.health
    }

    /// The upstreams probed, one task each.
    pub closed spec fn targets(&self) -> Seq<IpAddr> {
        self.upstreams@
    }

    pub fn new(health: HealthConfig, upstreams: Vec<IpAddr>) -> (e: ProbeEngine)
        ensures
            e.config() == health,
            e.targets() == upstreams@,
    {
        ProbeEngine { health, upstreams }
    }

    /// The configuration and the upstreams, handed to whoever runs the probes.
    pub fn into_parts(self) -> (r: (HealthConfig, Vec<IpAddr>))
        ensures
            r.0 == self.config(),
            r.1@ == self.targets(),
    {
        (self.health, self.upstreams)
    }
}

} // verus!
