use vstd::prelude::*;

verus! {

/// Why a handshake could not complete.
#[derive(Clone, Copy, Debug, PartialEq, Eq, Structural)]
pub enum HandshakeError {
    /// No bank was requested, or the two sides asked for different ones.
    BadOptions,
    /// The peer's algorithm choice differs from ours.
    AlgorithmMismatch,
    /// A transfer message has the wrong shape for this handshake.
    MalformedTransfer,
    /// The key-encapsulation provider failed.
    KeyExchange,
    /// The step was called in the wrong stage.
    WrongStage,
    /// Not every bank has agreed on a key yet.
    Incomplete,
}

/// Why a toolset operation was refused.
#[derive(Clone, Copy, Debug, PartialEq, Eq, Structural)]
pub enum ToolsetError {
    /// No ratchet of that version is held.
    NotFound,
    /// The ratchet belongs to another connection.
    WrongConnection,
    /// The new ratchet's version does not follow the most recent one.
    VersionNotNext,
    /// The oldest held version is not the one named.
    OldestMismatch,
    /// The toolset does not hold more than its bound: nothing may be culled.
    AtCapacityFloor,
}

/// Errors of the cryptographic core.
#[derive(Clone, Copy, Debug, PartialEq, Eq, Structural)]
pub enum CryptError {
    /// The ratchet holds fewer entropy banks than the level asks for.
    LevelInsufficient,
    /// A packet is shorter than its header, or fails authentication.
    Validation,
    /// The cipher refused the input (too long).
    Encryption,
    /// The operating system's random source failed.
    RandomSource,
    Handshake(HandshakeError),
    Toolset(ToolsetError),
    /// Persisted bytes are truncated or corrupt.
    Serialization,
    /// A payload exceeds what one group may carry.
    Oversized,
    /// A header inscriber wrote a header of the wrong length.
    BadHeader,
}

} // verus!
