//! The mock backend.

pub mod conduct;
pub mod emit;
pub mod inspect;
pub mod request;
pub mod response;
pub mod schedule;
pub mod server;
pub mod shard;
pub mod stats;
