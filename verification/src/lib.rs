//! ERTW: a zero-reward, agent-agnostic plane world of tensors.

pub mod actuation;
pub mod agents;
pub mod binary32;
pub mod components;
pub mod draws;
pub mod economy;
pub mod evaluator;
pub mod fields;
pub mod fragmentation;
pub mod genesis;
pub mod interface;
pub mod laws;
pub mod lineage;
pub mod render;
pub mod server;
pub mod snapshot;
pub mod spatial_hash;
pub mod tags;
pub mod tick;
pub mod traps;
pub mod world;

use vstd::prelude::*;

verus! {

/// Version in the header of every frame. Version 3 is self-describing, carries
/// full 64-bit step and entity identifiers, and encodes tags losslessly as four
/// 16-bit channels.
pub const PROTOCOL_VERSION: u8 = 3;

} // verus!
