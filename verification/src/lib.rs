//! Post-consensus structural ordering of committed DAG slices.
//!
//! The consensus commits one slice of vertices after the other. For each slice the executor
//! collects which creators have seen which vertices in which round, and once the committed prefix
//! has passed the window of the slice it fixes an order of its vertices: causal edges are hard,
//! one-sided visibility adds edges between causally unrelated vertices, strongly connected
//! components are ordered topologically, and a fixed key decides what is left open.
//!
//! - `types`, `state`: certificates and what the executor holds; `model` and `invariants` say what
//!   it stands for and what holds of it.
//! - `visibility`, `tie_break`: ancestry, evidence, verdicts on pairs, and the fixed key.
//! - `relation`, `scc`, `topology`, `linearize`, `determinism`: graphs and their one
//!   linearization.
//! - `ordering`, `metrics`, `counting`: the order of a slice and what is counted of it.
//! - `lifecycle`, `executor`, `fingerprint`: registration, sealing, release, and fingerprints.
//! - `workload`, `client`, `session`: the transactions of a benchmark client, and what it does when.
//! - `graph_laws`, `key_laws`, `visibility_laws`, `metrics_laws`, `commit_laws`,
//!   `fingerprint_laws`, `workload_laws`: what each of the steps gives, for every input.
//! - `ordering_laws`, `evidence_laws`, `executor_laws`, `run_laws`, `causality_laws`,
//!   `client_laws`: what holds of the steps together.

pub mod causality_laws;
pub mod client;
pub mod client_laws;
pub mod commit_laws;
pub mod counting;
pub mod determinism;
pub mod evidence_laws;
pub mod executor;
pub mod executor_laws;
pub mod fingerprint;
pub mod fingerprint_laws;
pub mod graph_laws;
pub mod invariants;
pub mod key_laws;
pub mod lifecycle;
pub mod linearize;
pub mod metrics;
pub mod metrics_laws;
pub mod model;
pub mod ordered;
pub mod ordering;
pub mod ordering_laws;
pub mod relation;
pub mod run_laws;
pub mod scc;
pub mod session;
pub mod state;
pub mod tie_break;
pub mod topology;
pub mod types;
pub mod visibility;
pub mod visibility_laws;
pub mod workload;
pub mod workload_laws;
