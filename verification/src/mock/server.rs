//! Server startup decisions: limits, configuration checks, CPU assignment
//! and which failure of a stopped server is reported.

use crate::mock::emit::{EmitPolicy, DEFAULT_COMMIT_WINDOW_US};
use crate::wire::BenchParams;
use vstd::prelude::*;
use vstd::string::StringExecFns;

verus! {

/// Largest accepted `chunk_bytes`. Every chunk is built in memory before its
/// write, so a mistyped directive must not make a shard allocate gigabytes.
pub const MAX_CHUNK_BYTES: u32 = 1_048_576;

/// Largest accepted `resp_bytes`, for the same reason as [`MAX_CHUNK_BYTES`].
pub const MAX_RESP_BYTES: u32 = 67_108_864;

/// Parameters that are valid on the wire but exceed what the mock serves.
#[derive(Debug, Clone, Copy, PartialEq, Eq, Structural)]
pub enum ParamsError {
    /// `chunk_bytes` exceeds [`MAX_CHUNK_BYTES`].
    ChunkBytes(u32),
    /// `resp_bytes` exceeds [`MAX_RESP_BYTES`].
    RespBytes(u32),
}

impl ParamsError {
    /// What the error says.
    pub open spec fn text(self) -> Seq<char> {
        match self {
            ParamsError::ChunkBytes(n) => "chunk_bytes "@ + crate::text::decimal_chars(n as nat)
                + " exceeds the limit of 1048576"@,
            ParamsError::RespBytes(n) => "resp_bytes "@ + crate::text::decimal_chars(n as nat)
                + " exceeds the limit of 67108864"@,
        }
    }

    /// The error as a sentence.
    pub fn message(self) -> (r: String)
        ensures
            r@ == self.text(),
    {
        match self {
            ParamsError::ChunkBytes(n) => {
                let mut out = String::from_str("chunk_bytes ");
                crate::text::push_decimal(&mut out, n as u64);
                out.append(" exceeds the limit of 1048576");
                out
            },
            ParamsError::RespBytes(n) => {
                let mut out = String::from_str("resp_bytes ");
                crate::text::push_decimal(&mut out, n as u64);
                out.append(" exceeds the limit of 67108864");
                out
            },
        }
    }
}

/// The limit that `params` exceeds, if any.
pub open spec fn exceeded(params: BenchParams) -> Option<ParamsError> {
    if params.chunk_bytes > MAX_CHUNK_BYTES {
        Some(ParamsError::ChunkBytes(params.chunk_bytes))
    } else if params.resp_bytes > MAX_RESP_BYTES {
        Some(ParamsError::RespBytes(params.resp_bytes))
    } else {
        None
    }
}

/// Checks the size limits of the mock on top of the wire format's own.
pub fn check_limits(params: &BenchParams) -> (r: Result<(), ParamsError>)
    ensures
        r == (match exceeded(*params) {
            Some(e) => Err::<(), ParamsError>(e),
            None => Ok::<(), ParamsError>(()),
        }),
{
    if params.chunk_bytes > MAX_CHUNK_BYTES {
        Err(ParamsError::ChunkBytes(params.chunk_bytes))
    } else if params.resp_bytes > MAX_RESP_BYTES {
        Err(ParamsError::RespBytes(params.resp_bytes))
    } else {
        Ok(())
    }
}

/// Why a configuration cannot be served.
#[derive(Debug, PartialEq, Eq)]
pub enum ServerError {
    /// Zero shards requested.
    NoShards,
    /// Several shards need one `SO_REUSEPORT` listener each.
    ShardsUnsupported(usize),
    /// The default parameters are invalid, for this reason.
    Defaults(String),
    /// The default parameters exceed the size limits.
    DefaultsOutOfRange(ParamsError),
    /// An empty CPU list was given.
    EmptyCpuList,
}

impl ServerError {
    /// What the error says.
    pub open spec fn text(self) -> Seq<char> {
        match self {
            ServerError::NoShards => "at least one shard is required"@,
            ServerError::ShardsUnsupported(n) => crate::text::decimal_chars(n as nat)
                + " shards requested, but multiple shards need SO_REUSEPORT (Linux only)"@,
            ServerError::Defaults(why) => "invalid default parameters: "@ + why@,
            ServerError::DefaultsOutOfRange(e) => "default parameters out of range: "@ + e.text(),
            ServerError::EmptyCpuList => "the CPU list is empty"@,
        }
    }

    /// The error as a sentence.
    pub fn message(&self) -> (r: String)
        ensures
            r@ == self.text(),
    {
        match self {
            ServerError::NoShards => String::from_str("at least one shard is required"),
            ServerError::ShardsUnsupported(n) => {
                let mut out = String::from_str("");
                proof {
                    reveal_strlit("");
                }
                crate::text::push_decimal(&mut out, *n as u64);
                out.append(" shards requested, but multiple shards need SO_REUSEPORT (Linux only)");
                assert(out@ =~= self.text());
                out
            },
            ServerError::Defaults(why) => {
                let mut out = String::from_str("invalid default parameters: ");
                out.append(why.as_str());
                out
            },
            ServerError::DefaultsOutOfRange(e) => {
                let mut out = String::from_str("default parameters out of range: ");
                out.append(e.message().as_str());
                out
            },
            ServerError::EmptyCpuList => String::from_str("the CPU list is empty"),
        }
    }
}

/// What a server is started with.
#[derive(Debug)]
pub struct MockConfig {
    /// Number of shard threads. More than one requires Linux
    /// (`SO_REUSEPORT`).
    pub shards: usize,
    /// How close to an emission a shard keeps serving sockets.
    pub emit_policy: EmitPolicy,
    /// Commit window of the fixed policy, in microseconds: how close the next
    /// emission may come before a shard stops serving sockets and spins to
    /// it. Capped at the spin window.
    pub commit_us: u64,
    /// CPUs to pin shards to; shard `i` gets `cpus[i % cpus.len()]`.
    /// Unpinned when `None`.
    pub cpus: Option<Vec<usize>>,
    /// Parameters for requests without a `bench:v1;` directive. Their `sid`
    /// is echoed in the markers of such requests.
    pub defaults: BenchParams,
    /// Model name reported in responses and by `/v1/models`.
    pub model: String,
}

/// The first reason for which a configuration cannot be served.
/// `reuse_port` tells whether the platform lets several listeners share a
/// port, `fault` why the wire format refuses the default parameters, if it
/// does.
pub open spec fn refused(
    config: MockConfig,
    reuse_port: bool,
    fault: Option<String>,
) -> Option<ServerError> {
    if config.shards == 0 {
        Some(ServerError::NoShards)
    } else if config.shards > 1 && !reuse_port {
        Some(ServerError::ShardsUnsupported(config.shards))
    } else if config.cpus is Some && config.cpus->0@.len() == 0 {
        Some(ServerError::EmptyCpuList)
    } else if fault is Some {
        Some(ServerError::Defaults(fault->Some_0))
    } else {
        match exceeded(config.defaults) {
            Some(e) => Some(ServerError::DefaultsOutOfRange(e)),
            None => None,
        }
    }
}

impl MockConfig {
    /// A single-shard configuration with the given defaults and the fixed
    /// emission policy.
    pub fn new(defaults: BenchParams) -> (r: Self)
        ensures
            r.shards == 1,
            r.emit_policy == EmitPolicy::Fixed,
            r.commit_us == DEFAULT_COMMIT_WINDOW_US,
            r.cpus is None,
            r.defaults == defaults,
            r.model@ == "brisk-mock"@,
    {
        MockConfig {
            shards: 1,
            emit_policy: EmitPolicy::Fixed,
            commit_us: DEFAULT_COMMIT_WINDOW_US,
            cpus: None,
            defaults,
            model: String::from_str("brisk-mock"),
        }
    }

    /// Checks the configuration before anything is bound or started. Returns
    /// whether the listeners have to share their port.
    pub fn check(&self, reuse_port: bool, fault: Option<String>) -> (r: Result<bool, ServerError>)
        ensures
            match refused(*self, reuse_port, fault) {
                Some(e) => r == Err::<bool, ServerError>(e),
                None => r == Ok::<bool, ServerError>(self.shards > 1),
            },
    {
        if self.shards == 0 {
            return Err(ServerError::NoShards);
        }
        if self.shards > 1 && !reuse_port {
            return Err(ServerError::ShardsUnsupported(self.shards));
        }
        if let Some(cpus) = &self.cpus {
            if cpus.len() == 0 {
                return Err(ServerError::EmptyCpuList);
            }
        }
        if let Some(why) = fault {
            return Err(ServerError::Defaults(why));
        }
        match check_limits(&self.defaults) {
            Ok(()) => Ok(self.shards > 1),
            Err(e) => Err(ServerError::DefaultsOutOfRange(e)),
        }
    }

    /// The CPU shard `index` is pinned to, if any.
    pub fn cpu_of(&self, index: usize) -> (r: Option<usize>)
        requires
            self.cpus matches Some(cpus) ==> cpus@.len() > 0,
        ensures
            match self.cpus {
                Some(cpus) => r == Some(cpus@[index as int % cpus@.len() as int]),
                None => r is None,
            },
    {
        match &self.cpus {
            Some(cpus) => Some(cpus[index % cpus.len()]),
            None => None,
        }
    }
}

/// How a shard thread ended.
#[derive(Debug, Clone, Copy, PartialEq, Eq, Structural)]
pub enum Exit {
    /// It stopped as asked.
    Stopped,
    /// Its event loop failed.
    Failed,
    /// It panicked.
    Panicked,
}

/// Index of the first shard that did not stop as asked.
pub open spec fn first_failure(exits: Seq<Exit>) -> Option<int>
    decreases exits.len(),
{
    if exits.len() == 0 {
        None
    } else {
        match first_failure(exits.drop_last()) {
            Some(i) => Some(i),
            None => if exits.last() == Exit::Stopped {
                None
            } else {
                Some(exits.len() - 1)
            },
        }
    }
}

/// Follows the shards of a server as they are joined in order: the first
/// failure is the one reported, and any failure stops the rest.
#[derive(Debug, Clone, Copy, PartialEq, Eq, Structural)]
pub struct Join {
    /// Shards joined so far.
    pub joined: usize,
    /// The first shard that failed.
    pub first_failed: Option<usize>,
}

impl Join {
    /// The state after joining shards that ended like this.
    pub open spec fn after(self, exits: Seq<Exit>) -> bool {
        &&& self.joined == exits.len()
        &&& match first_failure(exits) {
            Some(i) => self.first_failed == Some(i as usize),
            None => self.first_failed is None,
        }
    }

    /// Before any shard is joined.
    pub fn new() -> (r: Self)
        ensures
            r.after(Seq::empty()),
    {
        Join { joined: 0, first_failed: None }
    }

    /// Takes in how the next shard ended. Returns whether every shard has to
    /// be told to stop now.
    pub fn next(&mut self, exit: Exit) -> (stop: bool)
        requires
            old(self).joined < usize::MAX,
        ensures
            stop == (exit != Exit::Stopped),
            forall|exits: Seq<Exit>| #[trigger]
                old(self).after(exits) ==> final(self).after(exits.push(exit)),
    {
        let failed = exit != Exit::Stopped;
        if failed && self.first_failed.is_none() {
            self.first_failed = Some(self.joined);
        }
        self.joined += 1;
        proof {
            assert forall|exits: Seq<Exit>| #[trigger] old(self).after(exits) implies self.after(
                exits.push(exit),
            ) by {
                assert(exits.push(exit).drop_last() =~= exits);
            }
        }
        failed
    }
}

} // verus!
