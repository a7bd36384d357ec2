//! The posture model: what the posture file says about the upstreams,
//! how they are probed and what to do when the primary chain fails.

use std::collections::BTreeMap;
use vstd::prelude::*;

use crate::net::IpAddr;

verus! {

/// A whole posture: its label and id, the upstream resolvers in
/// preference order, named addresses, the probe configuration and the
/// fallback policy.
#[derive(Debug)]
pub struct DnsPosture {
    pub label: String,
    pub description: String,
    pub posture_id: String,
    pub upstream_servers: Vec<IpAddr>,
    pub addresses: BTreeMap<String, IpAddr>,
    pub health: HealthConfig,
    pub fallback: FallbackPolicy,
}

/// Probe configuration the orchestrator uses to decide health.
#[derive(Clone, Debug)]
pub struct HealthConfig {
    /// Name to query, e.g. "cloudflare.com".
    pub query: String,
    /// What constitutes a healthy answer.
    pub expect: ExpectKind,
    /// Probe period.
    pub interval_ms: u64,
    /// Per-probe timeout.
    pub timeout_ms: u64,
    /// Consecutive failures before flipping to Unhealthy.
    pub failures_before_unhealthy: u32,
    /// Consecutive successes before flipping back to Healthy.
    pub successes_before_healthy: u32,
}

/// The number of consecutive successes that brings an upstream back to
/// Healthy when the posture file does not say.
pub fn default_successes() -> (n: u32)
    ensures
        n == 2,
{
    2
}

/// What makes a probe answer healthy.
#[derive(Clone, Copy, Debug, PartialEq, Eq, Structural)]
pub enum ExpectKind {
    /// At least one answer record present.
    AnswerNonempty,
    /// DNS response code is `NoError`.
    RcodeOk,
}

/// Action taken when the primary chain is fully Unhealthy.
#[derive(Clone, Debug)]
pub enum FallbackPolicy {
    /// Rotate Unhealthy entries to the back of the resolver list.
    PromoteSecondary,
    /// Switch to a different authored posture by label.
    SwitchPosture { label: String },
}

impl FallbackPolicy {
    /// A copy of this policy, equal to it.
    pub(crate) fn duplicate(&self) -> (r: FallbackPolicy)
        ensures
            r == *self,
    {
        match self {
            FallbackPolicy::PromoteSecondary => FallbackPolicy::PromoteSecondary,
            FallbackPolicy::SwitchPosture { label } => FallbackPolicy::SwitchPosture { label: label.clone() },
        }
    }
}

/// Per-server probe state.
#[derive(Clone, Copy, Debug, PartialEq, Eq, Structural)]
pub enum ServerHealth {
    /// Probes passing.
    Healthy,
    /// One or more consecutive failures, but not yet at threshold.
    Probing,
    /// Failures at or past the threshold; kept only as a last resort.
    Unhealthy,
}

impl ServerHealth {
    /// Whether a server in this state is used ahead of the unhealthy tail.
    pub open spec fn usable(self) -> bool {
        self is Healthy || self is Probing
    }

    pub fn is_healthy(self) -> (r: bool)
        ensures
            r == (self is Healthy),
    {
        match self {
            ServerHealth::Healthy => true,
            _ => false,
        }
    }

    pub fn is_usable(self) -> (r: bool)
        ensures
            r == self.usable(),
            r == !(self is Unhealthy),
    {
        match self {
            ServerHealth::Healthy | ServerHealth::Probing => true,
            ServerHealth::Unhealthy => false,
        }
    }
}

} // verus!
