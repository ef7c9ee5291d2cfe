//! The daemon loop's decisions as a state machine: binding the control
//! channel with one retry on a stale artifact, serving, shutting down on
//! the out-of-band signal, and removing the artifact on the way out. The
//! I/O that carries these decisions out lives outside the library.

use vstd::prelude::*;

verus! {

/// Where the daemon stands.
#[derive(Debug, Clone, Copy, PartialEq, Eq, Structural)]
pub enum DaemonState {
    /// Binding the control channel; `retried` once a stale artifact was
    /// removed and the bind tried a second time.
    Starting { retried: bool },
    /// Accepting connections; the timer task runs alongside.
    Running,
    /// The shutdown channel fired; the accept loop has stopped.
    ShuttingDown,
    /// The process is done; its exit status is success.
    Terminated,
}

/// What the daemon observes.
#[derive(Debug, Clone, Copy, PartialEq, Eq, Structural)]
pub enum DaemonEvent {
    /// The control channel bound at its fixed path.
    BindOk,
    /// The bind failed; `addr_in_use` when a previous run's artifact still
    /// holds the path.
    BindFailed { addr_in_use: bool },
    /// The shutdown channel fired: an interrupt or a Kill request.
    Shutdown,
    /// The channel artifact was removed, or its removal failed and was
    /// logged; either way the daemon goes on.
    Cleaned,
}

/// What the daemon must do next.
#[derive(Debug, Clone, Copy, PartialEq, Eq, Structural)]
pub enum DaemonAction {
    /// Remove the stale artifact and bind once more.
    RemoveAndRebind,
    /// Abort the process at once: a bind failure no retry answers.
    Abort,
    /// Serve: accept connections and run the timer task.
    Serve,
    /// Stop accepting and remove the channel artifact.
    Cleanup,
    /// Exit with success, whatever the cleanup reported.
    Exit,
    /// Nothing: the event does not concern this state.
    Ignore,
}

/// The daemon's next state and action for one observed event: a stale
/// artifact is removed and the bind retried exactly once, any other bind
/// failure aborts, shutdown stops the accept loop, and cleanup failure
/// never changes the exit status.
pub open spec fn step_model(s: DaemonState, e: DaemonEvent) -> (DaemonState, DaemonAction) {
    match (s, e) {
        (DaemonState::Starting { retried }, DaemonEvent::BindOk) => (
            DaemonState::Running,
            DaemonAction::Serve,
        ),
        (DaemonState::Starting { retried }, DaemonEvent::BindFailed { addr_in_use }) => if (
        addr_in_use && !retried) {
            (DaemonState::Starting { retried: true }, DaemonAction::RemoveAndRebind)
        } else {
            (DaemonState::Terminated, DaemonAction::Abort)
        },
        (DaemonState::Running, DaemonEvent::Shutdown) => (
            DaemonState::ShuttingDown,
            DaemonAction::Cleanup,
        ),
        (DaemonState::ShuttingDown, DaemonEvent::Cleaned) => (
            DaemonState::Terminated,
            DaemonAction::Exit,
        ),
        _ => (s, DaemonAction::Ignore),
    }
}

/// Advances the daemon by one observed event.
pub fn daemon_step(s: DaemonState, e: DaemonEvent) -> (r: (DaemonState, DaemonAction))
    ensures
        r == step_model(s, e),
{
    match (s, e) {
        (DaemonState::Starting { retried }, DaemonEvent::BindOk) => (
            DaemonState::Running,
            DaemonAction::Serve,
        ),
        (DaemonState::Starting { retried }, DaemonEvent::BindFailed { addr_in_use }) => if
        addr_in_use && !retried {
            (DaemonState::Starting { retried: true }, DaemonAction::RemoveAndRebind)
        } else {
            (DaemonState::Terminated, DaemonAction::Abort)
        },
        (DaemonState::Running, DaemonEvent::Shutdown) => (
            DaemonState::ShuttingDown,
            DaemonAction::Cleanup,
        ),
        (DaemonState::ShuttingDown, DaemonEvent::Cleaned) => (
            DaemonState::Terminated,
            DaemonAction::Exit,
        ),
        _ => (s, DaemonAction::Ignore),
    }
}

/// The fixed-delay, unbounded retry policy for the first fetch and for
/// refreshes: a configuration value, not hard-coded control flow.
#[derive(Debug, Clone, Copy, PartialEq, Eq, Structural)]
pub struct RetryPolicy {
    pub delay_secs: u64,
}

impl Default for RetryPolicy {
    /// Five seconds between attempts, as the daemon ships.
    fn default() -> (r: Self)
        ensures
            r.delay_secs == 5,
    {
        RetryPolicy { delay_secs: 5 }
    }
}

} // verus!
