//! A WebSocket (RFC 6455) protocol library: frame header parsing and
//! formatting, payload masking, message reassembly, a callback-driven server
//! framing engine, extension negotiation and the opening handshake. The
//! library decides; reading from and writing to sockets is the caller's.
pub mod accept;
pub mod buffer;
pub mod error;
pub mod extensions;
pub mod fragment;
pub mod frame;
pub mod handshake;
pub mod line_handshake;
pub mod mask;
pub mod permessage_deflate;
pub mod reactor;
pub mod reassembly;
pub mod recv;
pub mod sync_server;
mod text;
pub mod upgrade;
pub mod websocket;

pub use crate::error::WebSocketError;
pub use crate::fragment::{FragmentCollector, FragmentCollectorRead};
pub use crate::frame::{is_control, parse_header, Frame, Header, HeaderParse, OpCode, Payload};
pub use crate::mask::unmask;
pub use crate::sync_server::{ServerEngine, ServerResponse};
pub use crate::websocket::{
    after_handshake_split, ReadHalf, Role, WebSocket, WebSocketRead, WebSocketWrite, WriteHalf,
};
