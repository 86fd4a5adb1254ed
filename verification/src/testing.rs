//! Things needed for integration tests.

pub use crate::jitter_pipe::{JitterPipe, JitterPipeConfig};
pub use crate::test_utils::{
    random_payload, random_payload_max_frags, MessageTestHarness, ProtocolTestHarness,
    TransmissionStats,
};
