//! One request and its answer, and whether the connection is kept for the next.

use crate::server::read::ReadRequestError;
use crate::server::PreRoutingAction;
use vstd::prelude::*;

verus! {

pub const BAD_REQUEST: u16 = 400;

pub const REQUEST_HEADER_FIELDS_TOO_LARGE: u16 = 431;

/// What is to be done next for a request.
#[derive(Debug, Clone, Copy, PartialEq, Eq, Structural)]
pub enum ExchangeStep {
    /// Read a request head.
    ReadHead,
    /// Answer with this status, no body and the announcement that the connection closes.
    Refuse(u16),
    /// Run the hook that comes before routing.
    PreRoute,
    /// Find the route of the request and run its handler.
    Route,
    /// The exchange is over; whether the connection is kept.
    Done(bool),
    /// The exchange has failed with the error of the stream or of the handler.
    Fail,
}

/// What has come of the last step.
#[derive(Debug, Clone, Copy, PartialEq, Eq, Structural)]
pub enum ExchangeEvent {
    HeadRead,
    HeadRefused(ReadRequestError),
    /// The refusal was sent.
    RefusalSent,
    PreRouted(PreRoutingAction),
    /// The handler has run; whether the client had asked for the connection to be closed.
    Routed { client_requested_close: bool },
    /// The refusal was not sent, or the handler came back with an error.
    Failed,
}

/// Whether `event` can come of `step`.
pub open spec fn answers(step: ExchangeStep, event: ExchangeEvent) -> bool {
    match step {
        ExchangeStep::ReadHead => event is HeadRead || event is HeadRefused,
        ExchangeStep::Refuse(_) => event is RefusalSent || event is Failed,
        ExchangeStep::PreRoute => event is PreRouted,
        ExchangeStep::Route => event is Routed || event is Failed,
        ExchangeStep::Done(_) => false,
        ExchangeStep::Fail => false,
    }
}

/// The step that follows `event`. `has_hook` says whether there is a hook before routing, and
/// `keep_alive` whether no response so far has announced that the connection closes.
pub open spec fn next_step(event: ExchangeEvent, has_hook: bool, keep_alive: bool) -> ExchangeStep {
    match event {
        ExchangeEvent::HeadRead => if has_hook {
            ExchangeStep::PreRoute
        } else {
            ExchangeStep::Route
        },
        ExchangeEvent::HeadRefused(ReadRequestError::InvalidRequestHead) => ExchangeStep::Refuse(400),
        ExchangeEvent::HeadRefused(ReadRequestError::RequestHeadTooLarge) => ExchangeStep::Refuse(431),
        ExchangeEvent::HeadRefused(_) => ExchangeStep::Done(false),
        ExchangeEvent::RefusalSent => ExchangeStep::Done(false),
        ExchangeEvent::PreRouted(PreRoutingAction::Proceed) => ExchangeStep::Route,
        ExchangeEvent::PreRouted(PreRoutingAction::Drop) => ExchangeStep::Done(keep_alive),
        ExchangeEvent::Routed { client_requested_close } => ExchangeStep::Done(
            keep_alive && !client_requested_close,
        ),
        ExchangeEvent::Failed => ExchangeStep::Fail,
    }
}

/// A request on its way to its answer.
#[derive(Debug)]
pub struct Exchange {
    step: ExchangeStep,
    has_hook: bool,
}

impl Exchange {
    pub closed spec fn step(&self) -> ExchangeStep {
        self.step
    }

    pub closed spec fn has_hook(&self) -> bool {
        self.has_hook
    }

    pub fn new(has_hook: bool) -> (r: Self)
        ensures
            r.step() == ExchangeStep::ReadHead,
            r.has_hook() == has_hook,
    {
        Exchange { step: ExchangeStep::ReadHead, has_hook }
    }

    /// What is to be done now.
    pub fn current(&self) -> (r: ExchangeStep)
        ensures
            r == self.step(),
    {
        self.step
    }

    /// Goes on to the step that follows `event`.
    pub fn advance(&mut self, event: ExchangeEvent, keep_alive: bool) -> (r: ExchangeStep)
        requires
            answers(old(self).step(), event),
        ensures
            r == next_step(event, old(self).has_hook(), keep_alive),
            final(self).step() == r,
            final(self).has_hook() == old(self).has_hook(),
    {
        let step = match event {
            ExchangeEvent::HeadRead => if self.has_hook {
                ExchangeStep::PreRoute
            } else {
                ExchangeStep::Route
            },
            ExchangeEvent::HeadRefused(e) => match e {
                ReadRequestError::InvalidRequestHead => ExchangeStep::Refuse(BAD_REQUEST),
                ReadRequestError::RequestHeadTooLarge => ExchangeStep::Refuse(REQUEST_HEADER_FIELDS_TOO_LARGE),
                ReadRequestError::ReadEof => ExchangeStep::Done(false),
                ReadRequestError::IOError => ExchangeStep::Done(false),
            },
            ExchangeEvent::RefusalSent => ExchangeStep::Done(false),
            ExchangeEvent::PreRouted(PreRoutingAction::Proceed) => ExchangeStep::Route,
            ExchangeEvent::PreRouted(PreRoutingAction::Drop) => ExchangeStep::Done(keep_alive),
            ExchangeEvent::Routed { client_requested_close } => if client_requested_close {
                ExchangeStep::Done(false)
            } else {
                ExchangeStep::Done(keep_alive)
            },
            ExchangeEvent::Failed => ExchangeStep::Fail,
        };
        self.step = step;
        step
    }
}

/// What becomes of the connection once an exchange is over.
#[derive(Debug, Clone, Copy, PartialEq, Eq, Structural)]
pub enum ConnectionStep {
    NextRequest,
    Close,
    /// Close with the error of the exchange.
    CloseWithError,
}

/// What becomes of the connection after the last step of an exchange.
pub open spec fn connection_step(last: ExchangeStep) -> ConnectionStep {
    match last {
        ExchangeStep::Done(true) => ConnectionStep::NextRequest,
        ExchangeStep::Done(false) => ConnectionStep::Close,
        _ => ConnectionStep::CloseWithError,
    }
}

/// Decides what becomes of the connection after the last step of an exchange.
pub fn after_exchange(last: ExchangeStep) -> (r: ConnectionStep)
    requires
        last is Done || last is Fail,
    ensures
        r == connection_step(last),
{
    match last {
        ExchangeStep::Done(true) => ConnectionStep::NextRequest,
        ExchangeStep::Done(false) => ConnectionStep::Close,
        _ => ConnectionStep::CloseWithError,
    }
}

/// Whether no response on a connection has announced that it closes.
#[derive(Debug)]
pub struct KeepAlive {
    keep_alive: bool,
}

impl KeepAlive {
    pub closed spec fn kept(&self) -> bool {
        self.keep_alive
    }

    pub fn new() -> (r: Self)
        ensures
            r.kept(),
    {
        KeepAlive { keep_alive: true }
    }

    /// Takes note of a response; `close` says whether its headers announce that the connection closes.
    pub fn on_send(&mut self, close: bool)
        ensures
            final(self).kept() == after_send(old(self).kept(), close),
    {
        if close {
            self.keep_alive = false;
        }
    }

    pub fn get(&self) -> (r: bool)
        ensures
            r == self.kept(),
    {
        self.keep_alive
    }
}

pub open spec fn after_send(kept: bool, close: bool) -> bool {
    kept && !close
}

pub open spec fn after_sends(kept: bool, closes: Seq<bool>) -> bool
    decreases closes.len(),
{
    if closes.len() == 0 {
        kept
    } else {
        after_sends(after_send(kept, closes[0]), closes.drop_first())
    }
}

/// One response that announces the end of the connection is enough, and nothing takes it back.
pub proof fn law_one_close_is_enough(kept: bool, closes: Seq<bool>)
    ensures
        after_sends(kept, closes) == (kept && !closes.contains(true)),
    decreases closes.len(),
{
    if closes.len() > 0 {
        let rest = closes.drop_first();
        law_one_close_is_enough(after_send(kept, closes[0]), rest);
        if rest.contains(true) {
            let i = choose|i: int| 0 <= i < rest.len() && rest[i] == true;
            assert(closes[i + 1] == true);
        }
        if closes.contains(true) && !closes[0] {
            let i = choose|i: int| 0 <= i < closes.len() && closes[i] == true;
            assert(rest[i - 1] == true);
        }
    }
}

/// The last step of an exchange in which these events come, each with the state of `keep_alive` at
/// that time.
pub open spec fn last_step(step: ExchangeStep, has_hook: bool, events: Seq<(ExchangeEvent, bool)>) -> ExchangeStep
    decreases events.len(),
{
    if events.len() == 0 {
        step
    } else {
        last_step(next_step(events[0].0, has_hook, events[0].1), has_hook, events.drop_first())
    }
}

/// Whether each of the events can come of the step before it.
pub open spec fn all_answer(step: ExchangeStep, has_hook: bool, events: Seq<(ExchangeEvent, bool)>) -> bool
    decreases events.len(),
{
    events.len() > 0 ==> answers(step, events[0].0) && all_answer(
        next_step(events[0].0, has_hook, events[0].1),
        has_hook,
        events.drop_first(),
    )
}

/// A head that is no request is answered with 400, one that is too large with 431, and either way
/// nothing is routed and the connection is not kept.
pub proof fn law_refused_head_is_answered_and_closed(
    error: ReadRequestError,
    has_hook: bool,
    events: Seq<(ExchangeEvent, bool)>,
)
    requires
        error is InvalidRequestHead || error is RequestHeadTooLarge,
        events.len() > 0,
        events[0].0 == ExchangeEvent::HeadRefused(error),
        all_answer(ExchangeStep::ReadHead, has_hook, events),
    ensures
        next_step(events[0].0, has_hook, events[0].1) == ExchangeStep::Refuse(
            if error is InvalidRequestHead {
                400
            } else {
                431
            },
        ),
        events.len() > 1 ==> ({
            let last = last_step(ExchangeStep::ReadHead, has_hook, events);
            last == ExchangeStep::Done(false) || last == ExchangeStep::Fail
        }),
        events.len() <= 2,
{
    reveal_with_fuel(last_step, 4);
    reveal_with_fuel(all_answer, 4);
}

/// The connection is kept exactly where a head was read, no response has announced its end, and
/// either the hook dropped the request or the handler ran for a client that did not ask for the end.
pub proof fn law_kept_only_if_all_agree(has_hook: bool, events: Seq<(ExchangeEvent, bool)>)
    requires
        all_answer(ExchangeStep::ReadHead, has_hook, events),
    ensures
        last_step(ExchangeStep::ReadHead, has_hook, events) == ExchangeStep::Done(true) <==> {
            &&& events.len() > 0
            &&& events[0].0 is HeadRead
            &&& events.last().1
            &&& events.last().0 == ExchangeEvent::PreRouted(PreRoutingAction::Drop) || events.last().0
                == (ExchangeEvent::Routed { client_requested_close: false })
        },
{
    lemma_short(ExchangeStep::ReadHead, has_hook, events);
    reveal_with_fuel(last_step, 5);
    reveal_with_fuel(all_answer, 5);
}

/// An exchange is over after three events at most.
pub proof fn lemma_short(step: ExchangeStep, has_hook: bool, events: Seq<(ExchangeEvent, bool)>)
    requires
        all_answer(step, has_hook, events),
    ensures
        step is ReadHead ==> events.len() <= 3,
{
    reveal_with_fuel(all_answer, 5);
    if events.len() >= 3 {
        let (a, b, c) = (events.drop_first(), events.drop_first().drop_first(), events.drop_first().drop_first().drop_first());
        assert(a[0] == events[1] && b[0] == events[2]);
        if events.len() > 3 {
            assert(c[0] == events[3]);
        }
    }
}

} // verus!
