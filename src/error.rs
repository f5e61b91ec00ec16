use vstd::prelude::*;

verus! {

/// Failures reported by the engine. Every failure is returned as a value;
/// nothing in the engine panics.
#[derive(Clone, Copy, Debug, PartialEq, Eq, Structural)]
pub enum SignalError {
    /// A signature or pre-key bundle did not verify.
    VerificationFailure,
    /// A public key was not a valid encoding.
    InvalidKey,
    /// The peer presented an identity key other than the trusted one.
    IdentityMismatch,
    /// No identity is trusted for the peer.
    UntrustedIdentity,
    /// No session exists for the address.
    UnknownSession,
    /// The session has no sending chain yet.
    NoSendingChain,
    /// The session has no receiving chain.
    NoReceivingChain,
    /// Authenticated decryption failed.
    DecryptionFailure,
    /// The plaintext is too long to be encrypted.
    EncryptionFailure,
    /// The message lies too far ahead of the receiving chain.
    TooManySkippedMessages,
    /// The bytes do not follow the wire format.
    MalformedMessage,
    /// No signed pre-key has been generated.
    NoSignedPreKey,
    /// The signed pre-key named by a message is not ours.
    UnknownSignedPreKey,
    /// The one-time pre-key named by a message is not in the pool.
    UnknownPreKey,
    /// Key derivation was asked for more output than it can give.
    KeyDerivationFailure,
}

} // verus!
