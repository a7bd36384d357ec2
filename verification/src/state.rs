//! Per-upstream health state machine. Consumes probe outcomes, derives
//! each upstream's health, and produces the effective resolver chain the
//! effector should install.

use std::collections::BTreeMap;
use vstd::prelude::*;

use vstd::std_specs::btree::{increasing_seq, spec_btree_map_iter};
use vstd::std_specs::cmp::OrdSpec;
use vstd::std_specs::iter::IteratorSpec;

use crate::net::{valid_key, IpAddr};
use crate::probe::ProbeOutcome;
use crate::types::{DnsPosture, FallbackPolicy, ServerHealth};

verus! {

/// What the machine knows of one upstream.
#[derive(Clone, Debug)]
pub struct ServerState {
    pub health: ServerHealth,
    pub consecutive_failures: u32,
    pub consecutive_successes: u32,
    pub last_rtt_ms: Option<u64>,
    pub last_error: Option<String>,
}

impl ServerState {
    /// A server that has not been probed yet: assumed healthy, no counts,
    /// nothing observed.
    pub open spec fn initial() -> ServerState {
        ServerState {
            health: ServerHealth::Healthy,
            consecutive_failures: 0,
            consecutive_successes: 0,
            last_rtt_ms: None,
            last_error: None,
        }
    }

    pub fn unknown() -> (s: ServerState)
        ensures
            s == ServerState::initial(),
    {
        ServerState {
            health: ServerHealth::Healthy,
            consecutive_failures: 0,
            consecutive_successes: 0,
            last_rtt_ms: None,
            last_error: None,
        }
    }

    /// A copy of this state, equal to it.
    pub(crate) fn duplicate(&self) -> (r: ServerState)
        ensures
            r == *self,
    {
        let last_error = match &self.last_error {
            Some(e) => Some(e.clone()),
            None => None,
        };
        ServerState {
            health: self.health,
            consecutive_failures: self.consecutive_failures,
            consecutive_successes: self.consecutive_successes,
            last_rtt_ms: self.last_rtt_ms,
            last_error,
        }
    }
}

/// A counter incremented by one, saturating at `u32::MAX`.
pub open spec fn bumped(n: u32) -> u32 {
    if n == u32::MAX {
        n
    } else {
        (n + 1) as u32
    }
}

/// The state of a server after one more probe outcome, given the number
/// of consecutive failures that make it Unhealthy (`fail_limit`) and of
/// consecutive successes that make it Healthy again (`success_limit`).
///
/// A success clears the failure count, counts one more success, clears
/// the last error, and makes the server Healthy once the successes reach
/// the limit; below the limit an Unhealthy server becomes Probing and any
/// other keeps its health. A failure clears the success count, counts one
/// more failure, records the error, and makes the server Unhealthy once
/// the failures reach the limit and Probing below it. Either way the
/// round-trip time is recorded.
pub open spec fn after_probe(st: ServerState, outcome: ProbeOutcome, fail_limit: u32, success_limit: u32) -> ServerState {
    if outcome.ok {
        let successes = bumped(st.consecutive_successes);
        ServerState {
            health: if successes >= success_limit {
                ServerHealth::Healthy
            } else if st.health is Unhealthy {
                ServerHealth::Probing
            } else {
                st.health
            },
            consecutive_failures: 0,
            consecutive_successes: successes,
            last_rtt_ms: Some(outcome.rtt_ms),
            last_error: None,
        }
    } else {
        let failures = bumped(st.consecutive_failures);
        ServerState {
            health: if failures >= fail_limit {
                ServerHealth::Unhealthy
            } else {
                ServerHealth::Probing
            },
            consecutive_failures: failures,
            consecutive_successes: 0,
            last_rtt_ms: Some(outcome.rtt_ms),
            last_error: outcome.error,
        }
    }
}

/// The state of a server after a run of probe outcomes, in order.
pub open spec fn after_probes(st: ServerState, outcomes: Seq<ProbeOutcome>, fail_limit: u32, success_limit: u32) -> ServerState
    decreases outcomes.len(),
{
    if outcomes.len() == 0 {
        st
    } else {
        after_probe(
            after_probes(st, outcomes.drop_last(), fail_limit, success_limit),
            outcomes.last(),
            fail_limit,
            success_limit,
        )
    }
}

/// A server's health agrees with its counters: at most one counter runs;
/// after failures the server is Unhealthy exactly when they reach the
/// limit, and Probing below it; after successes it is never Unhealthy,
/// and Healthy once they reach the limit; with no counts it is Healthy;
/// and an error is recorded only while failures are being counted.
pub open spec fn counters_agree(st: ServerState, fail_limit: u32, success_limit: u32) -> bool {
    &&& (st.consecutive_failures == 0 || st.consecutive_successes == 0)
    &&& st.consecutive_failures > 0 ==> st.health == (if st.consecutive_failures >= fail_limit {
        ServerHealth::Unhealthy
    } else {
        ServerHealth::Probing
    })
    &&& st.consecutive_successes > 0 ==> (!(st.health is Unhealthy) && (st.consecutive_successes
        >= success_limit ==> st.health is Healthy))
    &&& (st.consecutive_failures == 0 && st.consecutive_successes == 0) ==> st.health is Healthy
    &&& st.last_error is Some ==> st.consecutive_failures >= 1
}

/// Whether `ip` goes in the head of the chain: a server the machine does
/// not track counts as usable.
pub open spec fn usable_in(servers: Map<IpAddr, ServerState>, ip: IpAddr) -> bool {
    !servers.contains_key(ip) || servers[ip].health.usable()
}

pub open spec fn usable_pred(servers: Map<IpAddr, ServerState>) -> spec_fn(IpAddr) -> bool {
    |ip: IpAddr| usable_in(servers, ip)
}

pub open spec fn unusable_pred(servers: Map<IpAddr, ServerState>) -> spec_fn(IpAddr) -> bool {
    |ip: IpAddr| !usable_in(servers, ip)
}

/// The resolver chain for a posture order: the usable upstreams in
/// posture order, then the unusable ones in posture order.
pub open spec fn chain_order(order: Seq<IpAddr>, servers: Map<IpAddr, ServerState>) -> Seq<IpAddr> {
    order.filter(usable_pred(servers)) + order.filter(unusable_pred(servers))
}

/// The abstract state of a [`StateMachine`].
pub struct MachineView {
    pub posture_label: Seq<char>,
    pub posture_id: Seq<char>,
    pub order: Seq<IpAddr>,
    pub servers: Map<IpAddr, ServerState>,
    pub failures_before_unhealthy: u32,
    pub successes_before_healthy: u32,
    pub fallback: FallbackPolicy,
}

impl MachineView {
    /// What the machine holds for `ip`, or the initial state if it holds nothing.
    pub open spec fn server_or_initial(self, ip: IpAddr) -> ServerState {
        if self.servers.contains_key(ip) {
            self.servers[ip]
        } else {
            ServerState::initial()
        }
    }

    /// Every posture upstream is tracked, and every tracked server's
    /// health agrees with its counters.
    pub open spec fn consistent(self) -> bool {
        &&& forall|i: int| 0 <= i < self.order.len() ==> self.servers.contains_key(#[trigger] self.order[i])
        &&& forall|ip: IpAddr| #[trigger] self.servers.contains_key(ip) ==> counters_agree(
            self.servers[ip],
            self.failures_before_unhealthy,
            self.successes_before_healthy,
        )
    }

    /// The machine after one probe outcome.
    pub open spec fn observed(self, outcome: ProbeOutcome) -> MachineView {
        MachineView {
            servers: self.servers.insert(
                outcome.upstream,
                after_probe(
                    self.server_or_initial(outcome.upstream),
                    outcome,
                    self.failures_before_unhealthy,
                    self.successes_before_healthy,
                ),
            ),
            ..self
        }
    }

    /// Whether one probe outcome moves its upstream across the
    /// Unhealthy boundary.
    pub open spec fn crosses_boundary(self, outcome: ProbeOutcome) -> bool {
        let prior = self.server_or_initial(outcome.upstream);
        let next = after_probe(prior, outcome, self.failures_before_unhealthy, self.successes_before_healthy);
        (prior.health is Unhealthy) != (next.health is Unhealthy)
    }

    /// The resolver chain the machine asks for.
    pub open spec fn chain(self) -> Seq<IpAddr> {
        chain_order(self.order, self.servers)
    }
}

/// The per-upstream health state machine of one posture.
pub struct StateMachine {
    posture_label: String,
    posture_id: String,
    /// The posture order, preserved for the fallback: usable
    /// upstreams come first in this order, unhealthy ones after.
    order: Vec<IpAddr>,
    servers: BTreeMap<(u8, u128), ServerState>,
    failures_before_unhealthy: u32,
    successes_before_healthy: u32,
    fallback: FallbackPolicy,
}

impl View for StateMachine {
    type V = MachineView;

    closed spec fn view(&self) -> MachineView {
        MachineView {
            posture_label: self.posture_label@,
            posture_id: self.posture_id@,
            order: self.order@,
            servers: Map::new(
                |ip: IpAddr| self.servers@.contains_key(ip.addr_key()),
                |ip: IpAddr| self.servers@[ip.addr_key()],
            ),
            failures_before_unhealthy: self.failures_before_unhealthy,
            successes_before_healthy: self.successes_before_healthy,
            fallback: self.fallback,
        }
    }
}

impl StateMachine {
    /// The machine's internal well-formedness: every tracked key names an
    /// address, and the abstract state is consistent.
    pub closed spec fn wf(&self) -> bool {
        &&& forall|k: (u8, u128)| #[trigger] self.servers@.contains_key(k) ==> valid_key(k)
        &&& self@.consistent()
    }

    /// A well-formed machine is consistent.
    pub proof fn lemma_wf_consistent(&self)
        requires
            self.wf(),
        ensures
            self@.consistent(),
    {
    }

    /// A machine for `posture`: its upstreams in posture order, each in
    /// the initial state, with the posture's thresholds and fallback.
    pub fn new(posture: &DnsPosture) -> (sm: StateMachine)
        ensures
            sm.wf(),
            sm@.consistent(),
            sm@.posture_label == posture.label@,
            sm@.posture_id == posture.posture_id@,
            sm@.order == posture.upstream_servers@,
            sm@.servers == Map::new(
                |ip: IpAddr| posture.upstream_servers@.contains(ip),
                |ip: IpAddr| ServerState::initial(),
            ),
            sm@.failures_before_unhealthy == posture.health.failures_before_unhealthy,
            sm@.successes_before_healthy == posture.health.successes_before_healthy,
            sm@.fallback == posture.fallback,
    {
        let ups = &posture.upstream_servers;
        let mut servers: BTreeMap<(u8, u128), ServerState> = BTreeMap::new();
        let mut order: Vec<IpAddr> = Vec::new();
        let n = ups.len();
        let mut i: usize = 0;
        while i < n
            invariant
                n == ups@.len(),
                i <= n,
                order@ == ups@.take(i as int),
                forall|k: (u8, u128)| #[trigger] servers@.contains_key(k) <==> exists|j: int|
                    0 <= j < i && (#[trigger] ups@[j]).addr_key() == k,
                forall|k: (u8, u128)| #[trigger] servers@.contains_key(k) ==> servers@[k]
                    == ServerState::initial(),
            decreases n - i,
        {
            let ip = ups[i];
            servers.insert(ip.key(), ServerState::unknown());
            order.push(ip);
            proof {
                assert(ups@.take(i + 1) =~= ups@.take(i as int).push(ip));
                assert forall|k: (u8, u128)| #[trigger] servers@.contains_key(k) <==> exists|j: int|
                    0 <= j < i + 1 && (#[trigger] ups@[j]).addr_key() == k by {
                    if k == ip.addr_key() {
                        assert(ups@[i as int].addr_key() == k);
                    }
                }
            }
            i = i + 1;
        }
        proof {
            assert(order@ =~= ups@);
        }
        let sm = StateMachine {
            posture_label: posture.label.clone(),
            posture_id: posture.posture_id.clone(),
            order,
            servers,
            failures_before_unhealthy: posture.health.failures_before_unhealthy,
            successes_before_healthy: posture.health.successes_before_healthy,
            fallback: posture.fallback.duplicate(),
        };
        proof {
            assert forall|ip: IpAddr| #[trigger] sm@.servers.contains_key(ip) <==> ups@.contains(ip) by {
                if sm@.servers.contains_key(ip) {
                    let j = choose|j: int| 0 <= j < n && (#[trigger] ups@[j]).addr_key() == ip.addr_key();
                    IpAddr::lemma_key_injective(ups@[j], ip);
                }
                if ups@.contains(ip) {
                    let j = choose|j: int| 0 <= j < n && ups@[j] == ip;
                    assert(ups@[j].addr_key() == ip.addr_key());
                }
            }
            assert(sm@.servers =~= Map::new(
                |ip: IpAddr| posture.upstream_servers@.contains(ip),
                |ip: IpAddr| ServerState::initial(),
            ));
            assert forall|i: int| 0 <= i < sm@.order.len() implies sm@.servers.contains_key(
                #[trigger] sm@.order[i],
            ) by {
                assert(ups@.contains(ups@[i]));
            }
        }
        sm
    }
    /// Apply one probe outcome. The outcome's upstream takes the state
    /// [`after_probe`] gives (an upstream the machine did not track
    /// starts from the initial state and is tracked from now on); nothing
    /// else changes. Returns `true` exactly when the upstream crossed the
    /// Unhealthy boundary, which is when the effector should re-apply.
    pub fn observe(&mut self, outcome: ProbeOutcome) -> (changed: bool)
        requires
            old(self).wf(),
        ensures
            final(self).wf(),
            final(self)@.consistent(),
            final(self)@ == old(self)@.observed(outcome),
            changed == old(self)@.crosses_boundary(outcome),
    {
        let ghost pre = self@;
        let key = outcome.upstream.key();
        let prior = match self.servers.remove(&key) {
            Some(st) => st,
            None => ServerState::unknown(),
        };
        proof {
            assert(prior == pre.server_or_initial(outcome.upstream));
        }
        let prior_health = prior.health;
        let mut entry = prior;
        entry.last_rtt_ms = Some(outcome.rtt_ms);
        if outcome.ok {
            entry.consecutive_failures = 0;
            entry.consecutive_successes = entry.consecutive_successes.saturating_add(1);
            entry.last_error = None;
            if entry.consecutive_successes >= self.successes_before_healthy {
                entry.health = ServerHealth::Healthy;
            } else if entry.health == ServerHealth::Unhealthy {
                entry.health = ServerHealth::Probing;
            }
        } else {
            entry.consecutive_successes = 0;
            entry.consecutive_failures = entry.consecutive_failures.saturating_add(1);
            entry.last_error = outcome.error;
            if entry.consecutive_failures >= self.failures_before_unhealthy {
                entry.health = ServerHealth::Unhealthy;
            } else {
                entry.health = ServerHealth::Probing;
            }
        }
        let now_unhealthy = match entry.health {
            ServerHealth::Unhealthy => true,
            _ => false,
        };
        let was_unhealthy = match prior_health {
            ServerHealth::Unhealthy => true,
            _ => false,
        };
        proof {
            assert(entry == after_probe(
                pre.server_or_initial(outcome.upstream),
                outcome,
                pre.failures_before_unhealthy,
                pre.successes_before_healthy,
            ));
        }
        self.servers.insert(key, entry);
        proof {
            let post = self@;
            let expect = pre.observed(outcome);
            assert forall|ip: IpAddr| #[trigger] post.servers.contains_key(ip) <==> expect.servers.contains_key(ip) by {
                IpAddr::lemma_key_injective(ip, outcome.upstream);
            }
            assert forall|ip: IpAddr| #[trigger] post.servers.contains_key(ip) implies post.servers[ip]
                == expect.servers[ip] by {
                IpAddr::lemma_key_injective(ip, outcome.upstream);
            }
            assert(post.servers =~= expect.servers);
            assert(post == expect);
            assert forall|ip: IpAddr| #[trigger] post.servers.contains_key(ip) implies counters_agree(
                post.servers[ip],
                post.failures_before_unhealthy,
                post.successes_before_healthy,
            ) by {
                IpAddr::lemma_key_injective(ip, outcome.upstream);
                if ip != outcome.upstream {
                    assert(pre.servers.contains_key(ip));
                }
            }
            assert forall|i: int| 0 <= i < post.order.len() implies post.servers.contains_key(
                #[trigger] post.order[i],
            ) by {
                assert(pre.servers.contains_key(pre.order[i]));
            }
        }
        now_unhealthy != was_unhealthy
    }

    /// One turn of the daemon's loop: observe the outcome, and when its
    /// upstream crossed the Unhealthy boundary hand back the chain the
    /// effector should now install; otherwise hand back nothing.
    pub fn on_probe(&mut self, outcome: ProbeOutcome) -> (apply: Option<Vec<IpAddr>>)
        requires
            old(self).wf(),
        ensures
            final(self).wf(),
            final(self)@.consistent(),
            final(self)@ == old(self)@.observed(outcome),
            match apply {
                Some(chain) => old(self)@.crosses_boundary(outcome) && chain@ == final(self)@.chain(),
                None => !old(self)@.crosses_boundary(outcome),
            },
    {
        if self.observe(outcome) {
            Some(self.effective_chain())
        } else {
            None
        }
    }

    /// The resolver chain the effector should install: the usable
    /// upstreams (Healthy or Probing) first, in posture order, then the
    /// Unhealthy ones, in posture order, as a last-resort tail so that a
    /// wedged primary does not black-hole DNS.
    pub fn effective_chain(&self) -> (chain: Vec<IpAddr>)
        ensures
            chain@ == self@.chain(),
    {
        match &self.fallback {
            FallbackPolicy::PromoteSecondary | FallbackPolicy::SwitchPosture { .. } => {
                let ghost servers = self@.servers;
                let ghost p = usable_pred(servers);
                let ghost q = unusable_pred(servers);
                let mut head: Vec<IpAddr> = Vec::new();
                let mut tail: Vec<IpAddr> = Vec::new();
                let n = self.order.len();
                let mut i: usize = 0;
                while i < n
                    invariant
                        n == self.order@.len(),
                        i <= n,
                        servers == self@.servers,
                        p == usable_pred(servers),
                        q == unusable_pred(servers),
                        head@ == self.order@.take(i as int).filter(p),
                        tail@ == self.order@.take(i as int).filter(q),
                    decreases n - i,
                {
                    let ip = self.order[i];
                    let usable = match self.servers.get(&ip.key()) {
                        Some(s) => s.health.is_usable(),
                        None => true,
                    };
                    proof {
                        assert(usable == usable_in(servers, ip));
                        assert(self.order@.take(i + 1) =~= self.order@.take(i as int).push(ip));
                        self.order@.take(i as int).lemma_filter_push(ip, p);
                        self.order@.take(i as int).lemma_filter_push(ip, q);
                    }
                    if usable {
                        head.push(ip);
                    } else {
                        tail.push(ip);
                    }
                    i = i + 1;
                }
                proof {
                    assert(self.order@.take(n as int) =~= self.order@);
                }
                head.append(&mut tail);
                head
            },
        }
    }
}



/// The state of a machine at one moment, as the daemon persists it.
#[derive(Debug)]
pub struct StateSnapshot {
    pub posture_label: String,
    pub posture_id: String,
    pub ordered_upstreams: Vec<IpAddr>,
    /// Every tracked server with its state, once each, in ascending address order.
    pub servers: Vec<(IpAddr, ServerState)>,
    pub effective_chain: Vec<IpAddr>,
}

/// Address order: IPv4 before IPv6, then by value.
pub open spec fn addr_less(a: IpAddr, b: IpAddr) -> bool {
    ||| a.addr_key().0 < b.addr_key().0
    ||| (a.addr_key().0 == b.addr_key().0 && a.addr_key().1 < b.addr_key().1)
}

/// `list` holds every server of `servers` exactly once, with its state,
/// in ascending address order.
pub open spec fn lists_servers(list: Seq<(IpAddr, ServerState)>, servers: Map<IpAddr, ServerState>) -> bool {
    &&& forall|i: int|
        0 <= i < list.len() ==> {
            &&& servers.contains_key((#[trigger] list[i]).0)
            &&& list[i].1 == servers[list[i].0]
        }
    &&& forall|ip: IpAddr|
        #[trigger] servers.contains_key(ip) ==> exists|i: int|
            0 <= i < list.len() && (#[trigger] list[i]).0 == ip
    &&& forall|i: int, j: int|
        0 <= i < j < list.len() ==> addr_less((#[trigger] list[i]).0, (#[trigger] list[j]).0)
}

impl StateMachine {
    /// Every tracked server with its state, in ascending address order.
    fn server_list(&self) -> (list: Vec<(IpAddr, ServerState)>)
        requires
            self.wf(),
        ensures
            lists_servers(list@, self@.servers),
    {
        let ghost m = self.servers@;
        let ghost items = spec_btree_map_iter(&self.servers).remaining();
        let mut out: Vec<(IpAddr, ServerState)> = Vec::new();
        for kv in it: self.servers.iter()
            invariant
                m == self.servers@,
                forall|k: (u8, u128)| #[trigger] m.contains_key(k) ==> valid_key(k),
                it.seq() == items,
                increasing_seq(items.map_values(|kv: (&(u8, u128), &ServerState)| *kv.0)),
                out.len() == it.index(),
                forall|j: int|
                    0 <= j < out.len() ==> (#[trigger] out@[j]).0.addr_key() == *items[j].0
                        && out@[j].1 == *items[j].1,
        {
            let (k, v) = kv;
            proof {
                assert(m.contains_key(*k));
            }
            out.push((IpAddr::from_key(*k), v.duplicate()));
        }
        proof {
            let keys = items.map_values(|kv: (&(u8, u128), &ServerState)| *kv.0);
            assert(out.len() == items.len());
            assert forall|i: int, j: int| 0 <= i < j < out.len() implies addr_less(
                (#[trigger] out@[i]).0,
                (#[trigger] out@[j]).0,
            ) by {
                assert(keys[i] == *items[i].0);
                assert(keys[j] == *items[j].0);
                assert(keys[i].cmp_spec(&keys[j]) is Less);
            }
            assert forall|ip: IpAddr| #[trigger] self@.servers.contains_key(ip) implies exists|i: int|
                0 <= i < out.len() && (#[trigger] out@[i]).0 == ip by {
                let k = ip.addr_key();
                assert(m.contains_key(k));
                assert(items.contains((&k, &m[k])));
                let i = choose|i: int| 0 <= i < items.len() && items[i] == (&k, &m[k]);
                IpAddr::lemma_key_injective(out@[i].0, ip);
            }
        }
        out
    }

    /// A snapshot of this machine: its posture label and id, the posture
    /// order, every tracked server once with its state in ascending
    /// address order, and the effective chain.
    pub fn snapshot(&self) -> (snap: StateSnapshot)
        requires
            self.wf(),
        ensures
            snap.posture_label@ == self@.posture_label,
            snap.posture_id@ == self@.posture_id,
            snap.ordered_upstreams@ == self@.order,
            lists_servers(snap.servers@, self@.servers),
            snap.effective_chain@ == self@.chain(),
    {
        let mut ordered: Vec<IpAddr> = Vec::new();
        let n = self.order.len();
        let mut i: usize = 0;
        while i < n
            invariant
                n == self.order@.len(),
                i <= n,
                ordered@ == self.order@.take(i as int),
            decreases n - i,
        {
            ordered.push(self.order[i]);
            proof {
                assert(self.order@.take(i + 1) =~= self.order@.take(i as int).push(self.order@[i as int]));
            }
            i = i + 1;
        }
        proof {
            assert(self.order@.take(n as int) =~= self.order@);
        }
        StateSnapshot {
            posture_label: self.posture_label.clone(),
            posture_id: self.posture_id.clone(),
            ordered_upstreams: ordered,
            servers: self.server_list(),
            effective_chain: self.effective_chain(),
        }
    }
}

} // verus!

verus! {

/// Every outcome of the run is a failure.
pub open spec fn all_failures(outcomes: Seq<ProbeOutcome>) -> bool {
    forall|i: int| 0 <= i < outcomes.len() ==> !(#[trigger] outcomes[i]).ok
}

/// Every outcome of the run is a success.
pub open spec fn all_successes(outcomes: Seq<ProbeOutcome>) -> bool {
    forall|i: int| 0 <= i < outcomes.len() ==> (#[trigger] outcomes[i]).ok
}

/// A run of `k` failures counts at least `k` failures (up to the
/// counter's ceiling), and exactly `k` from a server with none.
proof fn lemma_failure_count(st: ServerState, outcomes: Seq<ProbeOutcome>, f: u32, s: u32)
    requires
        all_failures(outcomes),
        outcomes.len() >= 1,
    ensures
        ({
            let r = after_probes(st, outcomes, f, s);
            &&& r.consecutive_failures >= outcomes.len() || r.consecutive_failures == u32::MAX
            &&& r.consecutive_failures >= 1
            &&& r.consecutive_failures >= f ==> r.health is Unhealthy
            &&& r.consecutive_failures < f ==> r.health is Probing
            &&& (st.consecutive_failures == 0 && outcomes.len() <= u32::MAX) ==> r.consecutive_failures
                == outcomes.len()
        }),
    decreases outcomes.len(),
{
    let prefix = outcomes.drop_last();
    assert(!outcomes.last().ok);
    if prefix.len() >= 1 {
        assert forall|i: int| 0 <= i < prefix.len() implies !(#[trigger] prefix[i]).ok by {
            assert(prefix[i] == outcomes[i]);
        }
        lemma_failure_count(st, prefix, f, s);
    }
}

/// A run of `k` successes counts at least `k` successes (up to the
/// counter's ceiling).
proof fn lemma_success_count(st: ServerState, outcomes: Seq<ProbeOutcome>, f: u32, s: u32)
    requires
        all_successes(outcomes),
        outcomes.len() >= 1,
    ensures
        ({
            let r = after_probes(st, outcomes, f, s);
            &&& r.consecutive_successes >= outcomes.len() || r.consecutive_successes == u32::MAX
            &&& r.consecutive_successes >= s ==> r.health is Healthy
        }),
    decreases outcomes.len(),
{
    let prefix = outcomes.drop_last();
    assert(outcomes.last().ok);
    if prefix.len() >= 1 {
        assert forall|i: int| 0 <= i < prefix.len() implies (#[trigger] prefix[i]).ok by {
            assert(prefix[i] == outcomes[i]);
        }
        lemma_success_count(st, prefix, f, s);
    }
}

/// Consecutive failures before flipping to Unhealthy: from any state, a
/// run of at least `fail_limit` failures (and at least one) leaves the
/// server Unhealthy.
pub proof fn lemma_failures_reach_unhealthy(
    st: ServerState,
    outcomes: Seq<ProbeOutcome>,
    fail_limit: u32,
    success_limit: u32,
)
    requires
        all_failures(outcomes),
        outcomes.len() >= 1,
        outcomes.len() >= fail_limit,
    ensures
        after_probes(st, outcomes, fail_limit, success_limit).health is Unhealthy,
{
    lemma_failure_count(st, outcomes, fail_limit, success_limit);
}

/// Below the threshold a server is only Probing, and so still used ahead
/// of the unhealthy tail: from a state with no failures counted, a run of
/// failures shorter than `fail_limit` leaves the server Probing.
pub proof fn lemma_failures_below_limit_keep_probing(
    st: ServerState,
    outcomes: Seq<ProbeOutcome>,
    fail_limit: u32,
    success_limit: u32,
)
    requires
        st.consecutive_failures == 0,
        all_failures(outcomes),
        1 <= outcomes.len() < fail_limit,
    ensures
        after_probes(st, outcomes, fail_limit, success_limit).health is Probing,
        after_probes(st, outcomes, fail_limit, success_limit).health.usable(),
{
    lemma_failure_count(st, outcomes, fail_limit, success_limit);
}

/// Consecutive successes before flipping back to Healthy: from any state,
/// a run of at least `success_limit` successes (and at least one) leaves
/// the server Healthy.
pub proof fn lemma_successes_reach_healthy(
    st: ServerState,
    outcomes: Seq<ProbeOutcome>,
    fail_limit: u32,
    success_limit: u32,
)
    requires
        all_successes(outcomes),
        outcomes.len() >= 1,
        outcomes.len() >= success_limit,
    ensures
        after_probes(st, outcomes, fail_limit, success_limit).health is Healthy,
{
    lemma_success_count(st, outcomes, fail_limit, success_limit);
}

/// One success takes a server out of the unhealthy tail: after a
/// successful probe a server is never Unhealthy.
pub proof fn lemma_success_restores_usable(st: ServerState, outcome: ProbeOutcome, fail_limit: u32, success_limit: u32)
    requires
        outcome.ok,
    ensures
        after_probe(st, outcome, fail_limit, success_limit).health.usable(),
{
}

/// A probe outcome keeps a server's health in agreement with its counters.
pub proof fn lemma_probe_keeps_counters_agreeing(st: ServerState, outcome: ProbeOutcome, fail_limit: u32, success_limit: u32)
    requires
        counters_agree(st, fail_limit, success_limit),
    ensures
        counters_agree(after_probe(st, outcome, fail_limit, success_limit), fail_limit, success_limit),
{
}

/// Every state the machine reaches is consistent: observing an outcome
/// keeps every posture upstream tracked and every tracked server's health
/// in agreement with its counters.
pub proof fn lemma_observe_keeps_consistent(v: MachineView, outcome: ProbeOutcome)
    requires
        v.consistent(),
    ensures
        v.observed(outcome).consistent(),
{
    let w = v.observed(outcome);
    assert forall|ip: IpAddr| #[trigger] w.servers.contains_key(ip) implies counters_agree(
        w.servers[ip],
        w.failures_before_unhealthy,
        w.successes_before_healthy,
    ) by {
        if ip != outcome.upstream {
            assert(v.servers.contains_key(ip));
        }
    }
    assert forall|i: int| 0 <= i < w.order.len() implies w.servers.contains_key(#[trigger] w.order[i]) by {
        assert(v.servers.contains_key(v.order[i]));
    }
}

/// In a consistent machine a tracked server is Unhealthy exactly when its
/// last probes were failures at least as many as the threshold, and
/// Healthy whenever its last probes were successes at least as many as
/// the success threshold. Spelled out per health: at most one counter
/// runs; a Healthy server counts no failures; a Probing server counts
/// failures below the failure threshold or successes below the success
/// threshold; an Unhealthy server counts at least the failure threshold,
/// and at least one; and a recorded error means failures are counted.
pub proof fn lemma_health_reflects_counters(v: MachineView, ip: IpAddr)
    requires
        v.consistent(),
        v.servers.contains_key(ip),
    ensures
        v.servers[ip].health is Unhealthy <==> (v.servers[ip].consecutive_failures > 0
            && v.servers[ip].consecutive_failures >= v.failures_before_unhealthy),
        (v.servers[ip].consecutive_successes > 0 && v.servers[ip].consecutive_successes
            >= v.successes_before_healthy) ==> v.servers[ip].health is Healthy,
        ({
            let st = v.servers[ip];
            let cf = st.consecutive_failures;
            let cs = st.consecutive_successes;
            &&& (cf == 0 || cs == 0)
            &&& st.health is Healthy ==> cf == 0
            &&& st.health is Probing ==> ((1 <= cf < v.failures_before_unhealthy) || (1 <= cs
                < v.successes_before_healthy))
            &&& st.health is Unhealthy ==> (cf >= v.failures_before_unhealthy && cf >= 1)
            &&& st.last_error is Some ==> cf >= 1
        }),
{
}

/// Appending to the second half of a concatenation.
proof fn lemma_add_push<A>(a: Seq<A>, b: Seq<A>, x: A)
    ensures
        a + b.push(x) == (a + b).push(x),
{
    assert(a + b.push(x) =~= (a + b).push(x));
}

/// The multiset of a concatenation is the sum of the multisets.
proof fn lemma_add_to_multiset<A>(a: Seq<A>, b: Seq<A>)
    ensures
        (a + b).to_multiset() =~= a.to_multiset().add(b.to_multiset()),
    decreases b.len(),
{
    broadcast use vstd::seq_lib::group_to_multiset_ensures;

    if b.len() == 0 {
        assert(a + b =~= a);
        assert(b.to_multiset() =~= vstd::multiset::Multiset::empty());
    } else {
        let c = b.drop_last();
        let x = b.last();
        assert(b =~= c.push(x));
        lemma_add_to_multiset(a, c);
        lemma_add_push(a, c, x);
    }
}

/// Splitting a sequence by a predicate and its negation loses and adds nothing.
proof fn lemma_partition_to_multiset(s: Seq<IpAddr>, servers: Map<IpAddr, ServerState>)
    ensures
        chain_order(s, servers).to_multiset() =~= s.to_multiset(),
    decreases s.len(),
{
    broadcast use vstd::seq_lib::group_to_multiset_ensures;

    let p = usable_pred(servers);
    let q = unusable_pred(servers);
    if s.len() == 0 {
        assert(s.filter(p) =~= s);
        assert(s.filter(q) =~= s);
        assert(chain_order(s, servers) =~= s);
    } else {
        let t = s.drop_last();
        let x = s.last();
        assert(s =~= t.push(x));
        lemma_partition_to_multiset(t, servers);
        t.lemma_filter_push(x, p);
        t.lemma_filter_push(x, q);
        lemma_add_to_multiset(t.filter(p), t.filter(q));
        lemma_add_to_multiset(s.filter(p), s.filter(q));
    }
}

/// The effective chain is a reordering of the posture order: it holds
/// every upstream exactly as often as the posture lists it.
pub proof fn lemma_chain_is_permutation(v: MachineView)
    ensures
        v.chain().to_multiset() == v.order.to_multiset(),
        v.chain().len() == v.order.len(),
{
    broadcast use vstd::seq_lib::group_to_multiset_ensures;

    lemma_partition_to_multiset(v.order, v.servers);
    assert(v.chain().len() == v.chain().to_multiset().len());
}

/// An observation that does not move its upstream across the Unhealthy
/// boundary leaves the effective chain as it was, so the effector has
/// nothing to re-apply.
pub proof fn lemma_quiet_observation_keeps_chain(v: MachineView, outcome: ProbeOutcome)
    requires
        !v.crosses_boundary(outcome),
    ensures
        v.observed(outcome).chain() == v.chain(),
{
    let w = v.observed(outcome);
    assert forall|ip: IpAddr| usable_in(w.servers, ip) == usable_in(v.servers, ip) by {
        if ip == outcome.upstream {
            let prior = v.server_or_initial(ip);
            assert(!v.servers.contains_key(ip) ==> prior.health.usable());
        }
    }
    assert(usable_pred(w.servers) =~= usable_pred(v.servers));
    assert(unusable_pred(w.servers) =~= unusable_pred(v.servers));
}

/// Filtering by usability keeps everything and drops nothing when every
/// element is usable.
proof fn lemma_all_usable_filters(order: Seq<IpAddr>, servers: Map<IpAddr, ServerState>)
    requires
        forall|i: int| 0 <= i < order.len() ==> usable_in(servers, #[trigger] order[i]),
    ensures
        order.filter(usable_pred(servers)) == order,
        order.filter(unusable_pred(servers)) == Seq::<IpAddr>::empty(),
    decreases order.len(),
{
    let p = usable_pred(servers);
    let q = unusable_pred(servers);
    if order.len() == 0 {
        assert(order.filter(p) =~= order);
        assert(order.filter(q) =~= Seq::<IpAddr>::empty());
    } else {
        let t = order.drop_last();
        let x = order.last();
        assert(order =~= t.push(x));
        assert forall|i: int| 0 <= i < t.len() implies usable_in(servers, #[trigger] t[i]) by {
            assert(t[i] == order[i]);
        }
        lemma_all_usable_filters(t, servers);
        assert(usable_in(servers, order[order.len() - 1]));
        t.lemma_filter_push(x, p);
        t.lemma_filter_push(x, q);
    }
}

/// While every upstream is usable the chain is the posture order itself.
pub proof fn lemma_all_usable_chain_is_order(order: Seq<IpAddr>, servers: Map<IpAddr, ServerState>)
    requires
        forall|i: int| 0 <= i < order.len() ==> usable_in(servers, #[trigger] order[i]),
    ensures
        chain_order(order, servers) == order,
{
    lemma_all_usable_filters(order, servers);
    assert(order + Seq::<IpAddr>::empty() =~= order);
}

/// A fresh machine installs the posture's own chain.
pub proof fn lemma_fresh_chain_is_posture_order(order: Seq<IpAddr>)
    ensures
        chain_order(order, Map::new(|ip: IpAddr| order.contains(ip), |ip: IpAddr| ServerState::initial()))
            == order,
{
    let servers = Map::new(|ip: IpAddr| order.contains(ip), |ip: IpAddr| ServerState::initial());
    assert forall|i: int| 0 <= i < order.len() implies usable_in(servers, #[trigger] order[i]) by {
        assert(order.contains(order[i]));
    }
    lemma_all_usable_chain_is_order(order, servers);
}

/// The machine after a run of probe outcomes, observed in order.
pub open spec fn after_run(v: MachineView, outcomes: Seq<ProbeOutcome>) -> MachineView
    decreases outcomes.len(),
{
    if outcomes.len() == 0 {
        v
    } else {
        after_run(v, outcomes.drop_last()).observed(outcomes.last())
    }
}

/// Whether the `i`-th observation of a run (counting from 0) moved its
/// upstream across the Unhealthy boundary, that is, whether that
/// `observe` call returned `true`.
pub open spec fn crossed_at(v: MachineView, outcomes: Seq<ProbeOutcome>, i: int) -> bool {
    after_run(v, outcomes.take(i)).crosses_boundary(outcomes[i])
}

/// Every outcome of the run is about `ip`.
pub open spec fn all_about(outcomes: Seq<ProbeOutcome>, ip: IpAddr) -> bool {
    forall|i: int| 0 <= i < outcomes.len() ==> (#[trigger] outcomes[i]).upstream == ip
}

/// The number of consecutive failures at which a server first turns
/// Unhealthy: the threshold, but never fewer than one.
pub open spec fn first_unhealthy_failure(fail_limit: u32) -> int {
    if fail_limit == 0 {
        1
    } else {
        fail_limit as int
    }
}

/// A run changes only the servers: posture, order, thresholds and
/// fallback stay as they were.
proof fn lemma_run_keeps_config(v: MachineView, outcomes: Seq<ProbeOutcome>)
    ensures
        after_run(v, outcomes).posture_label == v.posture_label,
        after_run(v, outcomes).posture_id == v.posture_id,
        after_run(v, outcomes).order == v.order,
        after_run(v, outcomes).failures_before_unhealthy == v.failures_before_unhealthy,
        after_run(v, outcomes).successes_before_healthy == v.successes_before_healthy,
        after_run(v, outcomes).fallback == v.fallback,
    decreases outcomes.len(),
{
    if outcomes.len() > 0 {
        lemma_run_keeps_config(v, outcomes.drop_last());
    }
}

/// In a run about one upstream, that upstream goes through the per-server
/// transition once per outcome, and ends up tracked.
proof fn lemma_run_tracks_one(v: MachineView, outcomes: Seq<ProbeOutcome>, ip: IpAddr)
    requires
        all_about(outcomes, ip),
    ensures
        after_run(v, outcomes).server_or_initial(ip) == after_probes(
            v.server_or_initial(ip),
            outcomes,
            v.failures_before_unhealthy,
            v.successes_before_healthy,
        ),
        outcomes.len() >= 1 ==> after_run(v, outcomes).servers.contains_key(ip),
    decreases outcomes.len(),
{
    if outcomes.len() > 0 {
        let prefix = outcomes.drop_last();
        assert forall|i: int| 0 <= i < prefix.len() implies (#[trigger] prefix[i]).upstream == ip by {
            assert(prefix[i] == outcomes[i]);
        }
        assert(outcomes.last() == outcomes[outcomes.len() - 1]);
        lemma_run_tracks_one(v, prefix, ip);
        lemma_run_keeps_config(v, prefix);
    }
}

/// The prefix of a run that ends just after its `i`-th outcome.
proof fn lemma_take_succ(outcomes: Seq<ProbeOutcome>, i: int)
    requires
        0 <= i < outcomes.len(),
    ensures
        outcomes.take(i + 1).drop_last() == outcomes.take(i),
        outcomes.take(i + 1).last() == outcomes[i],
        outcomes.take(i + 1).len() == i + 1,
{
    assert(outcomes.take(i + 1).drop_last() =~= outcomes.take(i));
}

/// A prefix of a run about one upstream is about that upstream, and keeps
/// the run's kind of outcome.
proof fn lemma_take_about(outcomes: Seq<ProbeOutcome>, ip: IpAddr, i: int)
    requires
        all_about(outcomes, ip),
        0 <= i <= outcomes.len(),
    ensures
        all_about(outcomes.take(i), ip),
        all_failures(outcomes) ==> all_failures(outcomes.take(i)),
        all_successes(outcomes) ==> all_successes(outcomes.take(i)),
{
    assert forall|j: int| 0 <= j < outcomes.take(i).len() implies (#[trigger] outcomes.take(i)[j]).upstream
        == ip by {
        assert(outcomes.take(i)[j] == outcomes[j]);
    }
    if all_failures(outcomes) {
        assert forall|j: int| 0 <= j < outcomes.take(i).len() implies !(#[trigger] outcomes.take(i)[j]).ok by {
            assert(outcomes.take(i)[j] == outcomes[j]);
        }
    }
    if all_successes(outcomes) {
        assert forall|j: int| 0 <= j < outcomes.take(i).len() implies (#[trigger] outcomes.take(i)[j]).ok by {
            assert(outcomes.take(i)[j] == outcomes[j]);
        }
    }
}

/// From a server that counts no failures, a run of `k >= 1` failures
/// leaves it Unhealthy when `k` reaches the threshold and Probing below it.
proof fn lemma_failure_health(st: ServerState, outcomes: Seq<ProbeOutcome>, f: u32, s: u32)
    requires
        st.consecutive_failures == 0,
        all_failures(outcomes),
        outcomes.len() >= 1,
    ensures
        after_probes(st, outcomes, f, s).health == (if outcomes.len() >= f {
            ServerHealth::Unhealthy
        } else {
            ServerHealth::Probing
        }),
{
    lemma_failure_count(st, outcomes, f, s);
}

/// From an Unhealthy server that counts no successes, a run of `j >= 1`
/// successes leaves it Healthy when `j` reaches the success threshold and
/// Probing below it.
proof fn lemma_recovery_health(st: ServerState, outcomes: Seq<ProbeOutcome>, f: u32, s: u32)
    requires
        st.health is Unhealthy,
        st.consecutive_successes == 0,
        all_successes(outcomes),
        outcomes.len() >= 1,
    ensures
        ({
            let r = after_probes(st, outcomes, f, s);
            &&& outcomes.len() <= u32::MAX ==> r.consecutive_successes == outcomes.len()
            &&& outcomes.len() > u32::MAX ==> r.consecutive_successes == u32::MAX
            &&& r.health == (if outcomes.len() >= s {
                ServerHealth::Healthy
            } else {
                ServerHealth::Probing
            })
        }),
    decreases outcomes.len(),
{
    let prefix = outcomes.drop_last();
    assert(outcomes.last().ok);
    if prefix.len() >= 1 {
        assert forall|i: int| 0 <= i < prefix.len() implies (#[trigger] prefix[i]).ok by {
            assert(prefix[i] == outcomes[i]);
        }
        lemma_recovery_health(st, prefix, f, s);
    }
}

/// A run of `k >= 1` failures of one upstream that starts with no
/// failures counted and the upstream not Unhealthy (as every upstream of
/// a fresh machine starts): after the run the upstream is Unhealthy when
/// `k` reaches the failure threshold and Probing below it, and of the `k`
/// `observe` calls exactly the one numbered `max(threshold, 1)` (counting
/// from 1) returns `true`, if the run gets that far.
pub proof fn lemma_failure_run(v: MachineView, outcomes: Seq<ProbeOutcome>, ip: IpAddr)
    requires
        outcomes.len() >= 1,
        all_about(outcomes, ip),
        all_failures(outcomes),
        v.server_or_initial(ip).consecutive_failures == 0,
        !(v.server_or_initial(ip).health is Unhealthy),
    ensures
        after_run(v, outcomes).servers.contains_key(ip),
        after_run(v, outcomes).servers[ip].health == (if outcomes.len() >= v.failures_before_unhealthy {
            ServerHealth::Unhealthy
        } else {
            ServerHealth::Probing
        }),
        forall|i: int|
            0 <= i < outcomes.len() ==> (#[trigger] crossed_at(v, outcomes, i) <==> i + 1
                == first_unhealthy_failure(v.failures_before_unhealthy)),
{
    let f = v.failures_before_unhealthy;
    let s = v.successes_before_healthy;
    let st0 = v.server_or_initial(ip);
    lemma_run_tracks_one(v, outcomes, ip);
    lemma_failure_health(st0, outcomes, f, s);
    assert forall|i: int| 0 <= i < outcomes.len() implies (#[trigger] crossed_at(v, outcomes, i) <==> i + 1
        == first_unhealthy_failure(f)) by {
        let pre = outcomes.take(i);
        let post = outcomes.take(i + 1);
        lemma_take_succ(outcomes, i);
        lemma_take_about(outcomes, ip, i);
        lemma_take_about(outcomes, ip, i + 1);
        lemma_run_tracks_one(v, pre, ip);
        lemma_run_keeps_config(v, pre);
        let w = after_run(v, pre);
        let prior = w.server_or_initial(ip);
        assert(outcomes[i].upstream == ip);
        assert(after_probe(prior, outcomes[i], f, s) == after_probes(st0, post, f, s));
        lemma_failure_health(st0, post, f, s);
        if i >= 1 {
            lemma_failure_health(st0, pre, f, s);
        } else {
            assert(pre.len() == 0);
            assert(prior == st0);
        }
    }
}

/// A run of `j >= 1` successes of an Unhealthy upstream of a consistent
/// machine: the first `observe` call returns `true` (the upstream leaves
/// the unhealthy tail at once, as Probing or Healthy) and the others
/// return `false`; after the run the upstream is Healthy when `j` reaches
/// the success threshold and Probing below it.
pub proof fn lemma_recovery_run(v: MachineView, outcomes: Seq<ProbeOutcome>, ip: IpAddr)
    requires
        v.consistent(),
        v.servers.contains_key(ip),
        v.servers[ip].health is Unhealthy,
        outcomes.len() >= 1,
        all_about(outcomes, ip),
        all_successes(outcomes),
    ensures
        after_run(v, outcomes).servers.contains_key(ip),
        after_run(v, outcomes).servers[ip].health == (if outcomes.len() >= v.successes_before_healthy {
            ServerHealth::Healthy
        } else {
            ServerHealth::Probing
        }),
        forall|i: int| 0 <= i < outcomes.len() ==> (#[trigger] crossed_at(v, outcomes, i) <==> i == 0),
{
    let f = v.failures_before_unhealthy;
    let s = v.successes_before_healthy;
    let st0 = v.server_or_initial(ip);
    assert(st0.consecutive_successes == 0);
    lemma_run_tracks_one(v, outcomes, ip);
    lemma_recovery_health(st0, outcomes, f, s);
    assert forall|i: int| 0 <= i < outcomes.len() implies (#[trigger] crossed_at(v, outcomes, i) <==> i
        == 0) by {
        let pre = outcomes.take(i);
        let post = outcomes.take(i + 1);
        lemma_take_succ(outcomes, i);
        lemma_take_about(outcomes, ip, i);
        lemma_take_about(outcomes, ip, i + 1);
        lemma_run_tracks_one(v, pre, ip);
        lemma_run_keeps_config(v, pre);
        let w = after_run(v, pre);
        let prior = w.server_or_initial(ip);
        assert(outcomes[i].upstream == ip);
        assert(after_probe(prior, outcomes[i], f, s) == after_probes(st0, post, f, s));
        lemma_recovery_health(st0, post, f, s);
        if i >= 1 {
            lemma_recovery_health(st0, pre, f, s);
        } else {
            assert(pre.len() == 0);
            assert(prior == st0);
        }
    }
}

/// The fallback policy does not steer the machine: two machines that
/// differ only in their fallback, fed the same run, differ afterwards only
/// in their fallback, report the same boundary crossings, and ask for the
/// same chain.
pub proof fn lemma_fallback_does_not_steer(v: MachineView, fallback: FallbackPolicy, outcomes: Seq<ProbeOutcome>)
    ensures
        after_run(MachineView { fallback, ..v }, outcomes) == (MachineView {
            fallback,
            ..after_run(v, outcomes)
        }),
        after_run(MachineView { fallback, ..v }, outcomes).chain() == after_run(v, outcomes).chain(),
        forall|i: int|
            0 <= i < outcomes.len() ==> #[trigger] crossed_at(MachineView { fallback, ..v }, outcomes, i)
                == crossed_at(v, outcomes, i),
    decreases outcomes.len(),
{
    let u = MachineView { fallback, ..v };
    if outcomes.len() > 0 {
        lemma_fallback_does_not_steer(v, fallback, outcomes.drop_last());
    }
    assert forall|i: int| 0 <= i < outcomes.len() implies #[trigger] crossed_at(u, outcomes, i) == crossed_at(
        v,
        outcomes,
        i,
    ) by {
        lemma_take_succ(outcomes, i);
        lemma_fallback_does_not_steer(v, fallback, outcomes.take(i));
    }
}

/// Health ordered from worst to best: Unhealthy, Probing, Healthy.
pub open spec fn health_rank(h: ServerHealth) -> int {
    match h {
        ServerHealth::Unhealthy => 0,
        ServerHealth::Probing => 1,
        ServerHealth::Healthy => 2,
    }
}

/// A passing probe never makes a server worse: its health does not drop,
/// a Healthy server stays Healthy, and below the success threshold a
/// server that was not Unhealthy keeps exactly the health it had (only
/// an Unhealthy one changes, to Probing). It clears the failure count
/// and the last error, and counts one more success.
pub proof fn lemma_success_never_demotes(st: ServerState, outcome: ProbeOutcome, fail_limit: u32, success_limit: u32)
    requires
        outcome.ok,
    ensures
        ({
            let r = after_probe(st, outcome, fail_limit, success_limit);
            &&& health_rank(r.health) >= health_rank(st.health)
            &&& st.health is Healthy ==> r.health is Healthy
            &&& (!(st.health is Unhealthy) && r.consecutive_successes < success_limit) ==> r.health
                == st.health
            &&& (st.health is Unhealthy && r.consecutive_successes < success_limit) ==> r.health is Probing
            &&& r.consecutive_failures == 0
            &&& r.last_error is None
            &&& (r.consecutive_successes == st.consecutive_successes + 1 || r.consecutive_successes
                == u32::MAX)
        }),
{
}

/// A failing probe never makes a server better: for a server whose health
/// agrees with its counters, its health does not rise. It clears the
/// success count, records the error, and counts one more failure.
pub proof fn lemma_failure_never_promotes(st: ServerState, outcome: ProbeOutcome, fail_limit: u32, success_limit: u32)
    requires
        !outcome.ok,
        counters_agree(st, fail_limit, success_limit),
    ensures
        ({
            let r = after_probe(st, outcome, fail_limit, success_limit);
            &&& health_rank(r.health) <= health_rank(st.health)
            &&& st.health is Unhealthy ==> r.health is Unhealthy
            &&& !(r.health is Healthy)
            &&& r.consecutive_successes == 0
            &&& r.last_error == outcome.error
            &&& (r.consecutive_failures == st.consecutive_failures + 1 || r.consecutive_failures
                == u32::MAX)
        }),
{
}

/// Observing a passing probe of a Healthy upstream (every upstream of a
/// fresh machine is Healthy) leaves it Healthy, and changes no other server.
pub proof fn lemma_observe_success_keeps_healthy(v: MachineView, outcome: ProbeOutcome)
    requires
        outcome.ok,
        v.server_or_initial(outcome.upstream).health is Healthy,
    ensures
        v.observed(outcome).servers[outcome.upstream].health is Healthy,
        forall|ip: IpAddr|
            ip != outcome.upstream ==> (#[trigger] v.observed(outcome).servers.contains_key(ip)
                == v.servers.contains_key(ip) && (v.servers.contains_key(ip) ==> v.observed(
                outcome,
            ).servers[ip] == v.servers[ip])),
{
    lemma_success_never_demotes(
        v.server_or_initial(outcome.upstream),
        outcome,
        v.failures_before_unhealthy,
        v.successes_before_healthy,
    );
}

/// `observe` reports a change exactly when the observed upstream goes from
/// usable to unusable or back, that is, exactly when it moves between the
/// head and the tail of the chain; an observation after which the
/// upstream is as usable as before reports none.
pub proof fn lemma_crossing_is_usability_flip(v: MachineView, outcome: ProbeOutcome)
    ensures
        v.crosses_boundary(outcome) == (usable_in(v.servers, outcome.upstream) != usable_in(
            v.observed(outcome).servers,
            outcome.upstream,
        )),
{
}

/// Every element kept.
proof fn lemma_filter_keeps_all<A>(s: Seq<A>, p: spec_fn(A) -> bool)
    requires
        forall|i: int| 0 <= i < s.len() ==> p(#[trigger] s[i]),
    ensures
        s.filter(p) == s,
    decreases s.len(),
{
    if s.len() == 0 {
        assert(s.filter(p) =~= s);
    } else {
        let t = s.drop_last();
        assert forall|i: int| 0 <= i < t.len() implies p(#[trigger] t[i]) by {
            assert(t[i] == s[i]);
        }
        lemma_filter_keeps_all(t, p);
        assert(p(s[s.len() - 1]));
        assert(s =~= t.push(s.last()));
        t.lemma_filter_push(s.last(), p);
    }
}

/// Every element dropped.
proof fn lemma_filter_drops_all<A>(s: Seq<A>, p: spec_fn(A) -> bool)
    requires
        forall|i: int| 0 <= i < s.len() ==> !p(#[trigger] s[i]),
    ensures
        s.filter(p) == Seq::<A>::empty(),
    decreases s.len(),
{
    if s.len() == 0 {
        assert(s.filter(p) =~= Seq::<A>::empty());
    } else {
        let t = s.drop_last();
        assert forall|i: int| 0 <= i < t.len() implies !p(#[trigger] t[i]) by {
            assert(t[i] == s[i]);
        }
        lemma_filter_drops_all(t, p);
        assert(!p(s[s.len() - 1]));
        assert(s =~= t.push(s.last()));
        t.lemma_filter_push(s.last(), p);
    }
}

/// The chain is the posture order split in two, each half kept in order:
/// no unusable upstream comes before a usable one; the usable upstreams of
/// the chain, read in chain order, are exactly the usable upstreams of the
/// posture order, in posture order; and likewise for the unusable ones.
pub proof fn lemma_chain_is_stable_partition(v: MachineView)
    ensures
        forall|i: int, j: int|
            0 <= i < j < v.chain().len() && !usable_in(v.servers, #[trigger] v.chain()[i]) ==> !usable_in(
                v.servers,
                #[trigger] v.chain()[j],
            ),
        v.chain().filter(usable_pred(v.servers)) == v.order.filter(usable_pred(v.servers)),
        v.chain().filter(unusable_pred(v.servers)) == v.order.filter(unusable_pred(v.servers)),
{
    broadcast use vstd::seq_lib::group_filter_ensures;

    let p = usable_pred(v.servers);
    let q = unusable_pred(v.servers);
    let a = v.order.filter(p);
    let b = v.order.filter(q);
    let c = v.chain();
    assert(c == a + b);
    assert forall|i: int| 0 <= i < a.len() implies p(#[trigger] a[i]) by {
        v.order.lemma_filter_pred(p, i);
    }
    assert forall|i: int| 0 <= i < b.len() implies q(#[trigger] b[i]) by {
        v.order.lemma_filter_pred(q, i);
    }
    assert forall|i: int, j: int|
        0 <= i < j < c.len() && !usable_in(v.servers, #[trigger] c[i]) implies !usable_in(
        v.servers,
        #[trigger] c[j],
    ) by {
        if i < a.len() {
            assert(c[i] == a[i]);
            assert(p(a[i]));
        } else {
            assert(c[j] == b[j - a.len()]);
            assert(q(b[j - a.len()]));
        }
    }
    Seq::filter_distributes_over_add(a, b, p);
    Seq::filter_distributes_over_add(a, b, q);
    lemma_filter_keeps_all(a, p);
    lemma_filter_keeps_all(b, q);
    assert forall|i: int| 0 <= i < b.len() implies !p(#[trigger] b[i]) by {
        assert(q(b[i]));
    }
    assert forall|i: int| 0 <= i < a.len() implies !q(#[trigger] a[i]) by {
        assert(p(a[i]));
    }
    lemma_filter_drops_all(b, p);
    lemma_filter_drops_all(a, q);
    assert(a + Seq::<IpAddr>::empty() =~= a);
    assert(Seq::<IpAddr>::empty() + b =~= b);
}

/// When every upstream is down the chain is the posture order itself: the
/// whole chain is the last-resort tail, kept in posture order.
pub proof fn lemma_all_down_chain_is_order(v: MachineView)
    requires
        forall|i: int| 0 <= i < v.order.len() ==> !usable_in(v.servers, #[trigger] v.order[i]),
    ensures
        v.chain() == v.order,
{
    let p = usable_pred(v.servers);
    let q = unusable_pred(v.servers);
    assert forall|i: int| 0 <= i < v.order.len() implies !p(#[trigger] v.order[i]) by {}
    assert forall|i: int| 0 <= i < v.order.len() implies q(#[trigger] v.order[i]) by {}
    lemma_filter_drops_all(v.order, p);
    lemma_filter_keeps_all(v.order, q);
    assert(Seq::<IpAddr>::empty() + v.order =~= v.order);
}

/// The snapshot's address order is the standard one: every IPv4 address
/// before every IPv6 address, and within a family by numeric value.
pub proof fn lemma_address_order(a: IpAddr, b: IpAddr)
    ensures
        addr_less(a, b) <==> match (a, b) {
            (IpAddr::V4(x), IpAddr::V4(y)) => x < y,
            (IpAddr::V6(x), IpAddr::V6(y)) => x < y,
            (IpAddr::V4(_), IpAddr::V6(_)) => true,
            (IpAddr::V6(_), IpAddr::V4(_)) => false,
        },
{
}

} // verus!
