//! Emission policies: how a shard divides the time before a scheduled
//! emission between serving sockets and spinning to it.
//!
//! A shard is one thread and an event handler cannot be interrupted, so a
//! handler still running when an emission comes due makes that emission
//! late. The policies differ in how close to an emission they keep serving
//! sockets:
//!
//! - [`EmitPolicy::FullSpin`] stops as soon as an emission is within the spin
//!   window and spins to it. Nothing is overshot by more than one loop pass,
//!   but at tens of thousands of chunks per second one spin chains into the
//!   next and inbound requests wait for the whole chain.
//! - [`EmitPolicy::Fixed`] serves sockets until the emission is within the
//!   commit window, however long the event takes: a TLS handshake or a large
//!   receive that outlasts the commit window overshoots the emission. The
//!   commit window has to cover at least one pass of the loop, a zero-timeout
//!   poll plus the bookkeeping around it, or the emission would be overshot
//!   while polling; any longer trades request read delay for write precision.

use std::time::Duration;
use vstd::prelude::*;

verus! {

/// Default commit window of the fixed policy, in microseconds.
///
/// On an 8-vCPU host 5 us let a TLS handshake overshoot emissions by up to
/// 19.7 us at p99, while 10 us kept the worst write-lag p99 at 14.4 us over
/// 12 repetitions; the extra 5 us of request read delay is the cheaper side.
pub const DEFAULT_COMMIT_WINDOW_US: u64 = 10;

/// How a shard divides the time before each emission between socket events
/// and the final spin.
#[derive(Debug, Clone, Copy, PartialEq, Eq, Structural)]
pub enum EmitPolicy {
    /// Commit to spinning for the whole spin window: the best write
    /// precision, while inbound requests wait during chains of emissions.
    FullSpin,
    /// Commit to spinning for the commit window only, whatever the events
    /// served before it cost.
    Fixed,
}

impl Default for EmitPolicy {
    fn default() -> (r: Self)
        ensures
            r == EmitPolicy::Fixed,
    {
        EmitPolicy::Fixed
    }
}

impl EmitPolicy {
    /// The policy's name on the command line and in the statistics.
    pub fn as_str(self) -> (r: &'static str)
        ensures
            r@ == (match self {
                EmitPolicy::FullSpin => "full-spin"@,
                EmitPolicy::Fixed => "fixed"@,
            }),
    {
        match self {
            EmitPolicy::FullSpin => "full-spin",
            EmitPolicy::Fixed => "fixed",
        }
    }
}

/// Emission settings shared by every shard of a server.
#[derive(Debug, Clone, Copy)]
pub struct EmitSettings {
    /// How the time before an emission is divided.
    pub policy: EmitPolicy,
    /// Busy-wait window before each emission.
    pub spin_window: Duration,
    /// Commit window of the fixed policy, capped at the spin window.
    pub commit_window: Duration,
}

/// The whole nanoseconds of a duration.
pub uninterp spec fn duration_nanos(d: Duration) -> u128;

/// `std::time::Duration::as_nanos`: the whole nanoseconds of `d`.
#[verifier::external_body]
fn as_nanos(d: Duration) -> (r: u128)
    ensures
        r == duration_nanos(d),
{
    d.as_nanos()
}

/// `nanos`, or `u64::MAX` where it is larger.
pub open spec fn saturated(nanos: u128) -> u64 {
    if nanos > u64::MAX {
        u64::MAX
    } else {
        nanos as u64
    }
}

/// The commit window in effect for these windows.
pub open spec fn committed(policy: EmitPolicy, spin_ns: u64, commit_ns: u64) -> u64 {
    match policy {
        EmitPolicy::FullSpin => spin_ns,
        EmitPolicy::Fixed => if commit_ns < spin_ns {
            commit_ns
        } else {
            spin_ns
        },
    }
}

/// Nanoseconds saturated at `u64::MAX`.
pub fn saturate_ns(nanos: u128) -> (r: u64)
    ensures
        r == saturated(nanos),
{
    if nanos > u64::MAX as u128 {
        u64::MAX
    } else {
        nanos as u64
    }
}

/// Converts a duration to whole nanoseconds, saturating at `u64::MAX`.
pub fn duration_ns(d: Duration) -> (r: u64)
    ensures
        r == saturated(duration_nanos(d)),
{
    saturate_ns(as_nanos(d))
}

/// The commit window in effect: the whole spin window for
/// [`EmitPolicy::FullSpin`], the configured commit window capped at the spin
/// window for [`EmitPolicy::Fixed`].
pub fn commit_window(policy: EmitPolicy, spin_ns: u64, commit_ns: u64) -> (r: u64)
    ensures
        r == committed(policy, spin_ns, commit_ns),
        r <= spin_ns,
{
    match policy {
        EmitPolicy::FullSpin => spin_ns,
        EmitPolicy::Fixed => if commit_ns < spin_ns {
            commit_ns
        } else {
            spin_ns
        },
    }
}

impl EmitSettings {
    /// The spin window in nanoseconds.
    pub fn spin_window_ns(&self) -> (r: u64)
        ensures
            r == saturated(duration_nanos(self.spin_window)),
    {
        duration_ns(self.spin_window)
    }

    /// The commit window in effect, in nanoseconds: how close the next
    /// emission may come before a shard stops serving sockets and spins to
    /// it. That is the whole spin window for [`EmitPolicy::FullSpin`] and
    /// the configured commit window capped at the spin window for
    /// [`EmitPolicy::Fixed`].
    pub fn commit_window_ns(&self) -> (r: u64)
        ensures
            r == committed(
                self.policy,
                saturated(duration_nanos(self.spin_window)),
                saturated(duration_nanos(self.commit_window)),
            ),
    {
        commit_window(self.policy, self.spin_window_ns(), duration_ns(self.commit_window))
    }
}

} // verus!
