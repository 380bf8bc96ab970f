//! The load generator.

pub mod censor;
pub mod cli;
pub mod compare;
pub mod diagnostics;
pub mod errors;
pub mod flight;
pub mod ledger;
pub mod output;
pub mod planned;
pub mod ramp;
pub mod report;
pub mod request;
pub mod response;
pub mod run;
pub mod schedule;
pub mod shard;
pub mod target;
pub mod tracker;
pub mod validity;
