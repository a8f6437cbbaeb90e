//! What the parts of a step do, as statements about the numbers involved.

pub mod actuators;
pub mod births;
pub mod bodies;
pub mod climate;
pub mod commands;
pub mod damage;
pub mod energy;
pub mod exposure;
pub mod forces;
pub mod fragments;
pub mod heat;
pub mod magnetism;
pub mod motion;
pub mod outcomes;
pub mod places;
pub mod records;
pub mod sight;
pub mod traps;
pub mod vectors;
