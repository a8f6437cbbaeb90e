//! Single-precision arithmetic on bit patterns.
//!
//! Every number of the simulation is an IEEE 754 `binary32`. The operations here
//! work on the bit pattern with integers alone, so a result depends on nothing
//! but its operands: no rounding mode, no fused instruction and no vector unit
//! of the machine can change it. Each operation is specified by the exact value
//! that it rounds, and proved to return the nearest number of the format.

pub mod model;
pub mod rounding;
pub mod order;
pub mod arith;
pub mod convert;
pub mod errors;
pub mod bounds;
pub mod shares;
pub mod value;
pub mod whole;

pub use model::Binary32;
pub use order::num;
