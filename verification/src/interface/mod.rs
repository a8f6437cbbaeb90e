//! The whole surface that the world shows to an agent: one observation tensor,
//! one action tensor and the frame header. There is no reward, no score and no
//! goal in it.

pub mod action;
pub mod config;
pub mod header;
pub mod observation;
pub mod session;
pub mod shortening;
pub mod vector;

pub use action::ActionTensor;
pub use action::ACTION_STRIDE;
pub use config::InterfaceConfig;
pub use config::FIELD_COUNT;
pub use config::NEIGHBOR_STRIDE;
pub use config::SELF_STRIDE;
pub use header::wire_header;
pub use header::WireHeader;
pub use header::WIRE_HEADER_LEN;
pub use header::WIRE_MAGIC;
pub use observation::NeighborView;
pub use observation::ObservationTensor;
pub use vector::Vec2Lite;
