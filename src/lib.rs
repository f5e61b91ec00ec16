//! End-to-end encryption engine: X3DH key agreement, the double ratchet,
//! session and pre-key management, safety numbers, and the framing of
//! the messages exchanged with the push service.

mod bytes;
pub mod error;
mod keyed;
mod primitives;
pub mod keys;
pub mod kdf;
pub mod bundle;
pub mod x3dh;
pub mod ratchet;
pub mod fingerprint;
pub mod address;
pub mod protocol;
pub mod websocket;
pub mod types;

pub use address::ProtocolAddress;
pub use bundle::PreKeyBundle;
pub use error::SignalError;
pub use fingerprint::calculate_fingerprint;
pub use kdf::{MessageKeys, SignalCipher, SignalHkdf};
pub use keys::{DhKeyPair, IdentityKeyPair, IdentityPublicKey, PreKey, SignedPreKey};
pub use protocol::SignalProtocol;
pub use ratchet::{MessageHeader, RatchetMessage, SessionState};
pub use types::{
    Attachment, ContactInfo, GroupAccessControl, GroupRole, MessageStatus, SignalServers, TypingAction,
};
pub use websocket::{
    IncomingMessage, ProvisioningMessage, SignalEndpoints, WebSocketCredentials, WebSocketRequest,
    WebSocketResponse,
};
pub use x3dh::{x3dh_initiate, x3dh_respond, InitialMessage, X3dhResult};
