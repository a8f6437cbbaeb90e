//! The bridge to agents that live outside the process.

pub mod arguments;
pub mod lockstep;
pub mod remote;
pub mod wire;

pub use lockstep::LockstepAgent;
pub use lockstep::LockstepConfig;
pub use lockstep::LockstepSession;
pub use lockstep::ObservationExtension;
pub use lockstep::ResumeRequest;
pub use remote::RemoteAgent;
pub use wire::decode_action;
pub use wire::encode_action;
pub use wire::encode_hello;
pub use wire::encode_observation;
