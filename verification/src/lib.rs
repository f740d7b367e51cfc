//! Cache-aware request routing.
//!
//! Requests are routed to workers by two strategies. While the load is balanced, a request goes to
//! the worker that has the longest prefix of it cached, if that prefix is a large enough share of the
//! request and the worker is healthy and has room for it. If the share is too small, the request goes
//! to the worker with the smallest tree. If the share is large enough but the worker cannot take the
//! request, it goes to the least busy worker. So do small requests, and all requests while the load
//! is not balanced. What the workers have cached is estimated from the requests that they were
//! given: every model has a prefix tree of request texts ([`tree`]), in which the workers are the
//! tenants.
//!
//! [`policy`] holds the routing policy. Its contracts speak of the model of a tree ([`model`] and
//! [`tree::TreeModel`]) and of what a routing decision is ([`routing`]). What follows from them is
//! stated in [`tree_laws`], [`choice`], [`routing_laws`] and [`decision_laws`].

pub mod choice;
pub mod config;
pub mod decision_laws;
pub mod eviction_timer;
pub mod float_order;
pub mod model;
pub mod model_key;
pub mod policy;
pub mod routing;
pub mod routing_laws;
pub mod tree;
pub mod tree_laws;
pub mod worker;

mod counts;
mod node;
mod node_count;
mod node_evict;
mod node_insert;
mod node_match;
mod node_remove;
mod owners;
mod prefix;
mod random;
mod tree_map;
