//! Peer-manager core of a peer-to-peer node: the peer registry, per-peer
//! reputation, admission and eviction policy, and the outbound dial schedule.

pub mod addr;
pub mod consensus;
pub mod manager;
pub mod peer;
pub mod registry;
pub mod schema;
pub mod tags;
pub mod trust;

use vstd::prelude::*;

verus! {

} // verus!
