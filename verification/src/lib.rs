//! Transport and session layer of a client for a binary, multiplexed RPC
//! protocol: message framing, stream obfuscation, the pool of server salts
//! and the request dispatch discipline built on top of it.

pub mod abridged;
pub mod codec;
pub mod dispatcher;
pub mod full;
pub mod intermediate;
pub mod keystream;
pub mod obfuscated;
pub mod salt;
pub mod transport;
