//! Decisions of a Quickwit node, verified: who is a member of the cluster, which members serve
//! what, and what a leaf search has to load before it runs and answers after it ran.
//!
//! Each function states in its contract what it returns. What relates several of them is stated
//! by the public proof functions beside them.

pub mod address;
pub mod cluster;
pub mod footer;
pub mod gossip;
pub mod leaf;
mod lists;
pub mod member;
pub mod schema;
pub mod service;
pub mod text;
pub mod warmup;
