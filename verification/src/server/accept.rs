//! What follows an attempt to accept a connection.

use crate::server::ConnectionSetupAction;
use vstd::prelude::*;

verus! {

/// The outcome of an attempt to accept a connection: what the setup hook made of it, or, where no
/// hook is set, the connection, if there is one.
#[derive(Debug)]
pub enum Accepted<S> {
    Hooked(ConnectionSetupAction<S>),
    Plain(Option<S>),
}

/// What an accepting loop does next.
#[derive(Debug)]
pub enum AcceptStep<S> {
    /// Hands the connection to a worker and goes on.
    Serve(S),
    /// Goes on.
    Skip,
    /// Waits until connections are signalled again.
    Wait,
    /// Stops serving.
    Stop,
}

/// The next step of a loop that blocks in accepting.
pub open spec fn blocking_step<S>(accepted: Accepted<S>) -> AcceptStep<S> {
    match accepted {
        Accepted::Hooked(ConnectionSetupAction::Proceed(s)) => AcceptStep::Serve(s),
        Accepted::Hooked(ConnectionSetupAction::Drop) => AcceptStep::Skip,
        Accepted::Hooked(ConnectionSetupAction::StopAccepting) => AcceptStep::Stop,
        Accepted::Plain(Some(s)) => AcceptStep::Serve(s),
        Accepted::Plain(None) => AcceptStep::Skip,
    }
}

/// The next step of a loop that drains the connections that have been signalled. A failed attempt
/// ends it before a hook sees it.
pub open spec fn draining_step<S>(accepted: Accepted<S>) -> AcceptStep<S> {
    match accepted {
        Accepted::Plain(None) => AcceptStep::Wait,
        _ => blocking_step(accepted),
    }
}

/// Decides the next step of a loop that blocks in accepting: without a hook a failed attempt is
/// passed over.
pub fn after_blocking_accept<S>(accepted: Accepted<S>) -> (r: AcceptStep<S>)
    ensures
        r == blocking_step(accepted),
{
    match accepted {
        Accepted::Hooked(ConnectionSetupAction::Proceed(s)) => AcceptStep::Serve(s),
        Accepted::Hooked(ConnectionSetupAction::Drop) => AcceptStep::Skip,
        Accepted::Hooked(ConnectionSetupAction::StopAccepting) => AcceptStep::Stop,
        Accepted::Plain(Some(s)) => AcceptStep::Serve(s),
        Accepted::Plain(None) => AcceptStep::Skip,
    }
}

/// Decides the next step of a loop that drains the connections that have been signalled.
pub fn after_draining_accept<S>(accepted: Accepted<S>) -> (r: AcceptStep<S>)
    ensures
        r == draining_step(accepted),
{
    match accepted {
        Accepted::Plain(None) => AcceptStep::Wait,
        other => after_blocking_accept(other),
    }
}

/// The connections that a loop that blocks in accepting serves, of these attempts.
pub open spec fn served<S>(attempts: Seq<Accepted<S>>) -> Seq<S>
    decreases attempts.len(),
{
    if attempts.len() == 0 {
        Seq::empty()
    } else {
        match blocking_step(attempts[0]) {
            AcceptStep::Serve(s) => seq![s] + served(attempts.drop_first()),
            AcceptStep::Skip => served(attempts.drop_first()),
            AcceptStep::Wait => served(attempts.drop_first()),
            AcceptStep::Stop => Seq::empty(),
        }
    }
}

/// Until a hook stops the accepting, every connection is served that a hook lets pass or that comes
/// without a hook, in the order in which they came; and none after that.
pub proof fn law_serves_until_stopped<S>(before: Seq<Accepted<S>>, after: Seq<Accepted<S>>)
    requires
        forall|i: int|
            0 <= i < before.len() ==> #[trigger] before[i] != Accepted::Hooked(
                ConnectionSetupAction::<S>::StopAccepting,
            ),
    ensures
        served(before + seq![Accepted::Hooked(ConnectionSetupAction::StopAccepting)] + after) == served(before),
        served(before) == before.filter(|a: Accepted<S>| blocking_step(a) is Serve).map_values(
            |a: Accepted<S>| blocking_step(a)->Serve_0,
        ),
    decreases before.len(),
{
    let stop = seq![Accepted::Hooked(ConnectionSetupAction::<S>::StopAccepting)];
    let serves = |a: Accepted<S>| blocking_step(a) is Serve;
    let stream = |a: Accepted<S>| blocking_step(a)->Serve_0;
    let all = before + stop + after;
    reveal(Seq::filter);
    if before.len() == 0 {
        assert(all[0] == stop[0]);
        assert(before.filter(serves).map_values(stream) =~= Seq::empty());
    } else {
        let rest = before.drop_first();
        assert(all.drop_first() =~= rest + stop + after);
        assert(all[0] == before[0]);
        assert forall|i: int| 0 <= i < rest.len() implies #[trigger] rest[i] != Accepted::Hooked(
            ConnectionSetupAction::<S>::StopAccepting,
        ) by {
            assert(rest[i] == before[i + 1]);
        }
        law_serves_until_stopped(rest, after);
        assert(before =~= seq![before[0]] + rest);
        Seq::filter_distributes_over_add(seq![before[0]], rest, serves);
        lemma_filter_one(before[0], serves);
        assert(before.filter(serves).map_values(stream) =~= seq![before[0]].filter(serves).map_values(stream)
            + rest.filter(serves).map_values(stream));
        assert(seq![before[0]].filter(serves).map_values(stream) =~= if serves(before[0]) {
            seq![stream(before[0])]
        } else {
            Seq::empty()
        });
    }
}

/// The connections that a loop that drains what has been signalled hands on, of these attempts.
pub open spec fn drained<S>(attempts: Seq<Accepted<S>>) -> Seq<S>
    decreases attempts.len(),
{
    if attempts.len() == 0 {
        Seq::empty()
    } else {
        match draining_step(attempts[0]) {
            AcceptStep::Serve(s) => seq![s] + drained(attempts.drop_first()),
            AcceptStep::Skip => drained(attempts.drop_first()),
            AcceptStep::Wait => Seq::empty(),
            AcceptStep::Stop => Seq::empty(),
        }
    }
}

/// Whether a draining loop ends with this attempt: nothing is left to accept, or a hook stops the
/// accepting.
pub open spec fn ends_drain<S>(attempt: Accepted<S>) -> bool {
    attempt == Accepted::Plain(None::<S>) || attempt == Accepted::Hooked(ConnectionSetupAction::<S>::StopAccepting)
}

/// Until nothing is left to accept or a hook stops the accepting, every connection is handed on that
/// a hook lets pass or that comes without a hook, in the order in which they came; and none after
/// that.
pub proof fn law_drains_until_nothing_is_left<S>(before: Seq<Accepted<S>>, end: Accepted<S>, after: Seq<Accepted<S>>)
    requires
        forall|i: int| 0 <= i < before.len() ==> !ends_drain(#[trigger] before[i]),
        ends_drain(end),
    ensures
        drained(before + seq![end] + after) == drained(before),
        drained(before) == before.filter(|a: Accepted<S>| draining_step(a) is Serve).map_values(
            |a: Accepted<S>| draining_step(a)->Serve_0,
        ),
    decreases before.len(),
{
    let serves = |a: Accepted<S>| draining_step(a) is Serve;
    let stream = |a: Accepted<S>| draining_step(a)->Serve_0;
    let all = before + seq![end] + after;
    reveal(Seq::filter);
    if before.len() == 0 {
        assert(all[0] == end);
        assert(before.filter(serves).map_values(stream) =~= Seq::empty());
    } else {
        let rest = before.drop_first();
        assert(all.drop_first() =~= rest + seq![end] + after);
        assert(all[0] == before[0]);
        assert(!ends_drain(before[0]));
        assert forall|i: int| 0 <= i < rest.len() implies !ends_drain(#[trigger] rest[i]) by {
            assert(rest[i] == before[i + 1]);
        }
        law_drains_until_nothing_is_left(rest, end, after);
        assert(before =~= seq![before[0]] + rest);
        Seq::filter_distributes_over_add(seq![before[0]], rest, serves);
        lemma_filter_one(before[0], serves);
        assert(before.filter(serves).map_values(stream) =~= seq![before[0]].filter(serves).map_values(stream)
            + rest.filter(serves).map_values(stream));
        assert(seq![before[0]].filter(serves).map_values(stream) =~= if serves(before[0]) {
            seq![stream(before[0])]
        } else {
            Seq::empty()
        });
    }
}

proof fn lemma_filter_one<A>(a: A, keep: spec_fn(A) -> bool)
    ensures
        seq![a].filter(keep) == if keep(a) {
            seq![a]
        } else {
            Seq::empty()
        },
{
    reveal(Seq::filter);
    assert(seq![a].drop_last() =~= Seq::empty());
    reveal_with_fuel(Seq::filter, 2);
    assert(seq![a].filter(keep) =~= if keep(a) {
        seq![a]
    } else {
        Seq::empty()
    });
}

} // verus!
