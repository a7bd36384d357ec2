//! oboe — adaptive DNS posture orchestrator.
//!
//! The verified core: the posture model, the per-upstream health state
//! machine that turns probe outcomes into an effective resolver chain,
//! the probe-outcome bookkeeping, and the effector's chain assembly.
//! Everything that touches the network, processes, files or the clock
//! lives in the `app/` binary around this library.

pub mod net;
pub mod types;
pub mod probe;
pub mod state;
pub mod effector;

pub use net::IpAddr;
pub use types::{default_successes, DnsPosture, ExpectKind, FallbackPolicy, HealthConfig, ServerHealth};

pub use state::{MachineView, ServerState, StateMachine, StateSnapshot};
pub use probe::{ProbeEngine, ProbeOutcome, ProbeReply};
pub use effector::MacosEffector;
