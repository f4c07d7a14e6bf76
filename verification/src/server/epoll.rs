//! Connections that workers take in turn, as readiness is signalled for them.

use vstd::prelude::*;

verus! {

/// The token of the listener's own events; no address of a connection handle is equal to it.
pub const LISTENER_TOKEN: u64 = 1;

/// What an event is about.
#[derive(Debug, Clone, Copy, PartialEq, Eq, Structural)]
pub enum EventSource {
    Listener,
    Connection,
}

/// What to do once waiting for events has returned.
#[derive(Debug, Clone, Copy, PartialEq, Eq, Structural)]
pub enum WaitStep {
    /// Wait again.
    Retry,
    /// Give up with the error.
    Fail,
    /// Handle this many events.
    Process(usize),
}

/// What to do with a connection that an event has come for.
#[derive(Debug, Clone, Copy, PartialEq, Eq, Structural)]
pub enum ReadyStep {
    /// Free the handle, once the events at hand have been gone through.
    Retire,
    /// Try to claim the connection for a worker.
    Claim,
}

/// What to do after an attempt to claim a connection.
#[derive(Debug, Clone, Copy, PartialEq, Eq, Structural)]
pub enum ClaimStep {
    /// Hand the connection to a worker.
    Dispatch,
    /// Leave it to the worker that has it.
    Ignore,
}

/// What a worker does with its connection once a request has been handled.
#[derive(Debug, Clone, Copy, PartialEq, Eq, Structural)]
pub enum JobEnd {
    /// Give the claim back.
    Release,
    /// Take the connection out of the event queue, close it and mark it as closed.
    Close,
}

/// Decides what an event is about.
pub fn event_source(token: u64) -> (r: EventSource)
    ensures
        r == if token == LISTENER_TOKEN {
            EventSource::Listener
        } else {
            EventSource::Connection
        },
{
    if token == LISTENER_TOKEN {
        EventSource::Listener
    } else {
        EventSource::Connection
    }
}

/// Decides what follows a wait that returned `n`: a count of events, or -1 for a failure, which
/// `interrupted` says to be the mere arrival of a signal.
pub fn after_wait(n: i32, interrupted: bool) -> (r: WaitStep)
    requires
        n >= -1,
    ensures
        r == if n >= 0 {
            WaitStep::Process(n as usize)
        } else if interrupted {
            WaitStep::Retry
        } else {
            WaitStep::Fail
        },
{
    if n == -1 {
        if interrupted {
            WaitStep::Retry
        } else {
            WaitStep::Fail
        }
    } else {
        WaitStep::Process(n as usize)
    }
}

/// Decides what to do with a connection that an event has come for, by its mark.
pub fn on_ready(closed: bool) -> (r: ReadyStep)
    ensures
        r == ready_step(closed),
{
    if closed {
        ReadyStep::Retire
    } else {
        ReadyStep::Claim
    }
}

/// Decides what follows an attempt to claim a connection.
pub fn on_claim(claimed: bool) -> (r: ClaimStep)
    ensures
        r == claim_step(claimed),
{
    if claimed {
        ClaimStep::Dispatch
    } else {
        ClaimStep::Ignore
    }
}

/// Decides what a worker does with its connection; `keep_alive` is `None` where the request could
/// not be handled for a failure of the stream.
pub fn after_job(keep_alive: Option<bool>) -> (r: JobEnd)
    ensures
        r == job_end(keep_alive),
{
    match keep_alive {
        Some(true) => JobEnd::Release,
        _ => JobEnd::Close,
    }
}

pub open spec fn ready_step(closed: bool) -> ReadyStep {
    if closed {
        ReadyStep::Retire
    } else {
        ReadyStep::Claim
    }
}

pub open spec fn claim_step(claimed: bool) -> ClaimStep {
    if claimed {
        ClaimStep::Dispatch
    } else {
        ClaimStep::Ignore
    }
}

pub open spec fn job_end(keep_alive: Option<bool>) -> JobEnd {
    if keep_alive == Some(true) {
        JobEnd::Release
    } else {
        JobEnd::Close
    }
}

/// A connection as the event loop and the workers see it: its two marks, the number of workers that
/// have it, whether the event loop is about to claim it, and whether its handle may be freed.
pub struct Shared {
    pub in_flight: bool,
    pub closed: bool,
    pub workers: int,
    pub claiming: bool,
    pub retired: bool,
}

/// One atomic step on a connection. The event loop looks at the mark and claims in two steps,
/// between which workers may take theirs.
pub enum SharedStep {
    /// The event loop looks at the mark `closed`.
    Look,
    /// The event loop tries to set `in_flight`.
    TryClaim,
    /// A worker that was not to keep the connection has closed it, and marks it.
    MarkClosed,
    /// A worker gives its claim back.
    GiveBack,
}

/// A connection that has just been accepted.
pub open spec fn fresh() -> Shared {
    Shared { in_flight: false, closed: false, workers: 0, claiming: false, retired: false }
}

/// Whether `step` can be taken: the event loop claims only what it has looked at, and workers act
/// only on a connection that they have.
pub open spec fn enabled(s: Shared, step: SharedStep) -> bool {
    match step {
        SharedStep::Look => !s.claiming && !s.retired,
        SharedStep::TryClaim => s.claiming,
        SharedStep::MarkClosed => s.workers > 0 && !s.closed,
        SharedStep::GiveBack => s.workers > 0 && !s.closed,
    }
}

/// The step that a worker ends its job with, deciding as `after_job` does.
pub open spec fn end_step(keep_alive: Option<bool>) -> SharedStep {
    match job_end(keep_alive) {
        JobEnd::Release => SharedStep::GiveBack,
        JobEnd::Close => SharedStep::MarkClosed,
    }
}

/// The connection after `step`, the event loop deciding as `on_ready` and `on_claim` do. Which of
/// its two steps a worker takes is left open here: `end_step` tells.
pub open spec fn after_step(s: Shared, step: SharedStep) -> Shared {
    match step {
        SharedStep::Look => match ready_step(s.closed) {
            ReadyStep::Retire => Shared { retired: true, ..s },
            ReadyStep::Claim => Shared { claiming: true, ..s },
        },
        SharedStep::TryClaim => match claim_step(!s.in_flight) {
            ClaimStep::Dispatch => Shared { in_flight: true, workers: s.workers + 1, claiming: false, ..s },
            ClaimStep::Ignore => Shared { claiming: false, ..s },
        },
        SharedStep::MarkClosed => Shared { closed: true, workers: s.workers - 1, ..s },
        SharedStep::GiveBack => Shared { in_flight: false, workers: s.workers - 1, ..s },
    }
}

/// Whether the steps can be taken one after the other.
pub open spec fn all_enabled(s: Shared, steps: Seq<SharedStep>) -> bool
    decreases steps.len(),
{
    steps.len() > 0 ==> enabled(s, steps[0]) && all_enabled(after_step(s, steps[0]), steps.drop_first())
}

/// The connection after all of the steps.
pub open spec fn after_steps(s: Shared, steps: Seq<SharedStep>) -> Shared
    decreases steps.len(),
{
    if steps.len() == 0 {
        s
    } else {
        after_steps(after_step(s, steps[0]), steps.drop_first())
    }
}

/// What holds of a connection after any steps: at most one worker has it, a worker has it exactly
/// while it is claimed and open, and a closed one stays claimed.
pub open spec fn exclusive(s: Shared) -> bool {
    &&& s.workers == (if s.in_flight && !s.closed {
        1int
    } else {
        0int
    })
    &&& s.closed ==> s.in_flight
    &&& s.retired ==> s.closed
}

/// However the event loop and the workers take turns, at most one worker has a connection at a
/// time, none has one that is closed, and a handle is freed only when its connection is closed.
pub proof fn law_one_worker_at_a_time(steps: Seq<SharedStep>)
    requires
        all_enabled(fresh(), steps),
    ensures
        exclusive(after_steps(fresh(), steps)),
        after_steps(fresh(), steps).workers <= 1,
{
    lemma_exclusive(fresh(), steps);
}

proof fn lemma_exclusive(s: Shared, steps: Seq<SharedStep>)
    requires
        exclusive(s),
        all_enabled(s, steps),
    ensures
        exclusive(after_steps(s, steps)),
    decreases steps.len(),
{
    if steps.len() > 0 {
        lemma_exclusive(after_step(s, steps[0]), steps.drop_first());
    }
}

/// An event on an open connection that no worker has hands it to one.
pub proof fn law_free_connection_is_dispatched(s: Shared)
    requires
        exclusive(s),
        s.workers == 0,
        !s.closed,
        !s.claiming,
    ensures
        all_enabled(s, seq![SharedStep::Look, SharedStep::TryClaim]),
        after_steps(s, seq![SharedStep::Look, SharedStep::TryClaim]).workers == 1,
{
    let steps = seq![SharedStep::Look, SharedStep::TryClaim];
    reveal_with_fuel(all_enabled, 3);
    reveal_with_fuel(after_steps, 3);
    assert(steps.drop_first() =~= seq![SharedStep::TryClaim]);
    assert(steps.drop_first().drop_first() =~= Seq::empty());
}

/// Once the one worker that has a connection has ended its job, no worker has it. It is free for
/// another where it is to be kept, and closed for good where it is not or the job has failed.
pub proof fn law_job_end_frees_or_closes(s: Shared, keep_alive: Option<bool>)
    requires
        exclusive(s),
        s.workers == 1,
    ensures
        enabled(s, end_step(keep_alive)),
        exclusive(after_step(s, end_step(keep_alive))),
        after_step(s, end_step(keep_alive)).workers == 0,
        keep_alive == Some(true) ==> after_step(s, end_step(keep_alive)) == (Shared {
            in_flight: false,
            workers: 0,
            ..s
        }) && !s.closed,
        keep_alive != Some(true) ==> forall|steps: Seq<SharedStep>|
            #![trigger after_steps(after_step(s, end_step(keep_alive)), steps)]
            all_enabled(after_step(s, end_step(keep_alive)), steps) ==> {
                let later = after_steps(after_step(s, end_step(keep_alive)), steps);
                later.closed && later.workers == 0
            },
{
    let t = after_step(s, end_step(keep_alive));
    if keep_alive != Some(true) {
        assert forall|steps: Seq<SharedStep>| all_enabled(t, steps) implies {
            let later = #[trigger] after_steps(t, steps);
            later.closed && later.workers == 0
        } by {
            law_closed_for_good(t, steps);
        }
    }
}

/// Once closed, a connection is never handed to a worker again.
pub proof fn law_closed_for_good(s: Shared, steps: Seq<SharedStep>)
    requires
        exclusive(s),
        s.closed,
        all_enabled(s, steps),
    ensures
        after_steps(s, steps).closed,
        after_steps(s, steps).workers == 0,
    decreases steps.len(),
{
    if steps.len() > 0 {
        law_closed_for_good(after_step(s, steps[0]), steps.drop_first());
    }
}

} // verus!
