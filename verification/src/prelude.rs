//! Easy importing of all the important bits.

pub use crate::address::PeerAddr;
pub use crate::buffer_pool::{BufHandle, PoolConfig};
pub use crate::client::{ClientState, PicklebackClient};
pub use crate::config::PicklebackConfig;
pub use crate::error::{Backpressure, PicklebackError};
pub use crate::pickleback::Pickleback;
pub use crate::received_message::ReceivedMessage;
pub use crate::server::PicklebackServer;
pub use crate::{MessageId, PicklebackStats};
