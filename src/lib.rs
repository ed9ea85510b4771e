//! Health checking for interdependent services: probe results are recorded
//! on a service's status and propagated along the graph of its dependents,
//! breaking or healing the dependency edges that subscribe to its checks.
pub mod types;
pub mod probe;
pub mod graph;
pub mod store;
pub mod propagate;
pub mod cycle;
