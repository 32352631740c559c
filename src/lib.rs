//! Cryptographic core of a secure transport: a forward-secure ratchet with
//! layered encryption, a bounded versioned toolset of ratchets, and a group
//! codec that splits, encrypts and reassembles payloads.

pub mod bytes;
pub mod constructor;
pub mod error;
pub mod ffi;
pub mod group;
pub mod ordered_channel;
pub mod protocol;
pub mod provider;
pub mod ratchet;
pub mod register;
pub mod secure_buffer;
pub mod security_level;
pub mod toolset;
