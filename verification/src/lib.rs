//! A single node of a simulated distributed cluster that serves one
//! workload: generation of globally unique integer identifiers, with no
//! coordination between nodes after cluster initialization.
//!
//! The crate has two components:
//! - the message envelope and its line-oriented wire codec ([`msg`], [`codec`]),
//! - the stateful protocol handler ([`node`]).
//!
//! Identifiers are unique across the cluster because every node answers
//! `generate` requests from its own residue class: the `k`-th identifier a
//! node of rank `r` in a cluster of `n` nodes hands out is `k * n + r`.

pub mod codec;
pub mod digits;
pub mod msg;
pub mod node;
pub mod order;
