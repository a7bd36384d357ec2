# oboe

Adaptive DNS posture orchestrator for macOS nodes. It probes the
upstream resolvers named in a posture file
(`/etc/blackmatter/dns-posture.json`) and rewrites the system resolver
chain (`networksetup -setdnsservers`) whenever an upstream crosses the
Healthy/Unhealthy boundary.

## Layout

- `src/` — the verified library (Verus):
  - `net.rs` — addresses as plain values and their order;
  - `types.rs` — the posture model and per-server health;
  - `probe.rs` — turning one probe's answer into an outcome;
  - `state.rs` — the health state machine, the effective chain, the
    snapshot, and the laws they obey;
  - `effector.rs` — the chain each network service receives, which
    services count as enabled, and which error an installation reports.
- `app/` — the `oboe` binary: command line, posture file and state
  file I/O, the DNS probe tasks, and the `networksetup` calls.
- `tests/` — tests of the library.

## CLI

| Command | What |
|---|---|
| `oboe daemon` | Run the probe loop + effector |
| `oboe status` | Print `/var/lib/oboe/state.json` |
| `oboe probe <ip>` | One-shot probe of a single upstream |
