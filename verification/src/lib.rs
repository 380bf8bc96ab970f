//! Verified core of a load-testing pair for streaming chat-completion
//! services: a mock backend and a load generator.

pub mod chars;
pub mod histogram;
pub mod http;
pub mod loadgen;
pub mod mock;
pub mod sorted;
pub mod text;
pub mod time;
pub mod wire;
