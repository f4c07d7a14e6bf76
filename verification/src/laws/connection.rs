//! Reading, exchanges, accepting and sharing, step by step.

use crate::parser::request;
use crate::parser::request::RequestView;
use crate::parser::HttpParsingError;
use crate::server::accept;
use crate::server::accept::{AcceptStep, Accepted};
use crate::server::epoll;
use crate::server::epoll::{ClaimStep, JobEnd, ReadyStep, Shared, SharedStep};
use crate::server::exchange;
use crate::server::exchange::{ConnectionStep, ExchangeEvent, ExchangeStep};
use crate::server::read;
use crate::server::read::{HeadBuffer, ReadEvent, ReadEventView, ReadOutcome, ReadRequestError};
use crate::server::{ConnectionSetupAction, PreRoutingAction};
use vstd::prelude::*;

verus! {

/// Whatever has been read before, a read of no bytes is the end of the stream and a failed read is an
/// I/O error.
pub proof fn law_stream_ends(filled: Seq<u8>)
    ensures
        read::after_read(filled, ReadEventView::Bytes(Seq::empty())) == ReadOutcome::Refused(ReadRequestError::ReadEof),
        read::after_read(filled, ReadEventView::Failed) == ReadOutcome::Refused(ReadRequestError::IOError),
{
}

/// Bytes that are read go behind those that were read before, and the whole is parsed: it is a
/// request, or more bytes are needed, or it is invalid.
pub proof fn law_bytes_are_parsed(filled: Seq<u8>, more: Seq<u8>)
    requires
        more.len() > 0,
    ensures
        request::request(filled + more) matches Ok(head) ==> read::after_read(filled, ReadEventView::Bytes(more))
            == ReadOutcome::Head(head, filled + more),
        request::request(filled + more) == Err::<RequestView, HttpParsingError>(HttpParsingError::UnexpectedEof)
            ==> read::after_read(filled, ReadEventView::Bytes(more)) == ReadOutcome::Pending(filled + more),
        request::request(filled + more) is Err && request::request(filled + more) != Err::<
            RequestView,
            HttpParsingError,
        >(HttpParsingError::UnexpectedEof) ==> read::after_read(filled, ReadEventView::Bytes(more))
            == ReadOutcome::Refused(ReadRequestError::InvalidRequestHead),
{
}

/// Reading goes on only after a read that brought something, and with more bytes than before.
pub proof fn law_reading_goes_on_with_more(filled: Seq<u8>, event: ReadEventView)
    requires
        read::after_read(filled, event) is Pending,
    ensures
        event is Bytes,
        event->Bytes_0.len() > 0,
        read::after_read(filled, event)->Pending_0 == filled + event->Bytes_0,
        read::after_read(filled, event)->Pending_0.len() > filled.len(),
{
}

/// A full buffer is refused before anything else is read, and a buffer with room waits for a read.
pub proof fn law_full_buffer(max_size: int, filled: Seq<u8>, events: Seq<ReadEventView>)
    ensures
        filled.len() >= max_size ==> read::after_reads(max_size, filled, events) == ReadOutcome::Refused(
            ReadRequestError::RequestHeadTooLarge,
        ),
        filled.len() < max_size ==> read::after_reads(max_size, filled, Seq::empty()) == ReadOutcome::Pending(filled),
{
}

/// Reads are taken one after the other: with room left, what follows from the first is final, or the
/// others go on from there.
pub proof fn law_reads_in_turn(max_size: int, filled: Seq<u8>, first: ReadEventView, rest: Seq<ReadEventView>)
    requires
        filled.len() < max_size,
    ensures
        read::after_reads(max_size, filled, seq![first] + rest) == match read::after_read(filled, first) {
            ReadOutcome::Pending(more) => read::after_reads(max_size, more, rest),
            outcome => outcome,
        },
{
    let events = seq![first] + rest;
    assert(events[0] == first);
    assert(events.drop_first() =~= rest);
}

/// A stream that ends before a request has come is the end of the stream, in whatever reads what
/// there was of the request came.
pub proof fn law_stream_that_ends_early(max_size: int, filled: Seq<u8>, events: Seq<ReadEventView>)
    requires
        filled.len() < max_size,
        read::after_reads(max_size, filled, events) is Pending,
    ensures
        read::after_reads(max_size, filled, events.push(ReadEventView::Bytes(Seq::empty()))) == ReadOutcome::Refused(
            ReadRequestError::ReadEof,
        ),
        read::after_reads(max_size, filled, events.push(ReadEventView::Failed)) == ReadOutcome::Refused(
            ReadRequestError::IOError,
        ),
    decreases events.len(),
{
    let ended = ReadEventView::Bytes(Seq::empty());
    if events.len() == 0 {
        assert(events.push(ended)[0] == ended);
        assert(events.push(ReadEventView::Failed)[0] is Failed);
    } else {
        let rest = events.drop_first();
        let more = read::after_read(filled, events[0])->Pending_0;
        assert(events.push(ended).drop_first() =~= rest.push(ended));
        assert(events.push(ReadEventView::Failed).drop_first() =~= rest.push(ReadEventView::Failed));
        assert(events.push(ended)[0] == events[0]);
        assert(events.push(ReadEventView::Failed)[0] == events[0]);
        law_stream_that_ends_early(max_size, more, rest);
    }
}

/// A read stands for the bytes that it brought, and a buffer is in order while it holds no more than
/// it may.
pub proof fn law_reads_by_their_bytes(event: ReadEvent<'_>, buffer: HeadBuffer)
    ensures
        event matches ReadEvent::Bytes(b) ==> event@ == ReadEventView::Bytes(b@),
        event is Failed <==> event@ is Failed,
        buffer.wf() <==> buffer.filled().len() <= buffer.max_size(),
{
}

/// An exchange comes to each of its steps in one way only. The hook runs where there is one and a
/// head was read. The handler runs where a head was read and the hook, if there is one, lets the
/// request pass. A refusal is sent for a head that is invalid or too large, with 400 or 431.
pub proof fn law_steps_of_an_exchange(has_hook: bool, events: Seq<(ExchangeEvent, bool)>, last: ExchangeStep)
    requires
        exchange::all_answer(ExchangeStep::ReadHead, has_hook, events),
        last == exchange::last_step(ExchangeStep::ReadHead, has_hook, events),
    ensures
        events.len() == 0 <==> last is ReadHead,
        last is PreRoute <==> has_hook && events.len() == 1 && events[0].0 is HeadRead,
        last is Route <==> {
            ||| !has_hook && events.len() == 1 && events[0].0 is HeadRead
            ||| has_hook && events.len() == 2 && events[0].0 is HeadRead && events[1].0 == ExchangeEvent::PreRouted(
                PreRoutingAction::Proceed,
            )
        },
        last == ExchangeStep::Refuse(400) <==> events.len() == 1 && events[0].0 == ExchangeEvent::HeadRefused(
            ReadRequestError::InvalidRequestHead,
        ),
        last == ExchangeStep::Refuse(431) <==> events.len() == 1 && events[0].0 == ExchangeEvent::HeadRefused(
            ReadRequestError::RequestHeadTooLarge,
        ),
        last matches ExchangeStep::Refuse(code) ==> code == 400 || code == 431,
        last is Fail <==> events.len() > 0 && events.last().0 is Failed,
        last is Done <==> events.len() > 0 && ({
            let event = events.last().0;
            ||| event == ExchangeEvent::HeadRefused(ReadRequestError::ReadEof)
            ||| event == ExchangeEvent::HeadRefused(ReadRequestError::IOError)
            ||| event is RefusalSent
            ||| event == ExchangeEvent::PreRouted(PreRoutingAction::Drop)
            ||| event is Routed
        }),
        last == ExchangeStep::Done(true) ==> events.last().1 && events[0].0 is HeadRead && events.last().0
            != (ExchangeEvent::Routed { client_requested_close: true }),
        last == ExchangeStep::Done(false) && events.last().1 ==> !(events.last().0 is PreRouted) && events.last().0
            != (ExchangeEvent::Routed { client_requested_close: false }),
{
    exchange::lemma_short(ExchangeStep::ReadHead, has_hook, events);
    reveal_with_fuel(exchange::last_step, 5);
    reveal_with_fuel(exchange::all_answer, 5);
    let (a, b) = (events.drop_first(), events.drop_first().drop_first());
    if events.len() > 1 {
        assert(a[0] == events[1]);
    }
    if events.len() > 2 {
        assert(b[0] == events[2]);
    }
}

/// What can come of a step: a head or why there is none, a refusal sent or not, the hook's choice,
/// the end of the handler or its failure. Nothing comes after the end.
pub proof fn law_answers(step: ExchangeStep, event: ExchangeEvent)
    ensures
        exchange::answers(step, event) <==> {
            ||| step is ReadHead && (event is HeadRead || event is HeadRefused)
            ||| step is Refuse && (event is RefusalSent || event is Failed)
            ||| step is PreRoute && event is PreRouted
            ||| step is Route && (event is Routed || event is Failed)
        },
{
}

/// The connection waits for the next request exactly where the exchange keeps it, and closes with an
/// error exactly where the exchange has failed.
pub proof fn law_connection_after_exchange(last: ExchangeStep)
    requires
        last is Done || last is Fail,
    ensures
        exchange::connection_step(last) == ConnectionStep::NextRequest <==> last == ExchangeStep::Done(true),
        exchange::connection_step(last) == ConnectionStep::Close <==> last == ExchangeStep::Done(false),
        exchange::connection_step(last) == ConnectionStep::CloseWithError <==> last is Fail,
{
}

/// A response that announces the end of the connection ends it; any other one leaves things as they
/// were.
pub proof fn law_response_and_keep_alive(kept: bool)
    ensures
        !exchange::after_send(kept, true),
        exchange::after_send(kept, false) == kept,
{
}

/// Of each attempt to accept, a loop that blocks serves the connection that a hook lets pass or that
/// came without a hook; it passes over one that a hook drops and a failed one; and it serves none of
/// those behind the one at which a hook stops the accepting.
pub proof fn law_blocking_loop<S>(s: S, rest: Seq<Accepted<S>>)
    ensures
        accept::served(Seq::<Accepted<S>>::empty()) == Seq::<S>::empty(),
        accept::served(seq![Accepted::Hooked(ConnectionSetupAction::Proceed(s))] + rest) == seq![s] + accept::served(
            rest,
        ),
        accept::served(seq![Accepted::Plain(Some(s))] + rest) == seq![s] + accept::served(rest),
        accept::served(seq![Accepted::Hooked(ConnectionSetupAction::Drop)] + rest) == accept::served(rest),
        accept::served(seq![Accepted::Plain(None)] + rest) == accept::served(rest),
        accept::served(seq![Accepted::Hooked(ConnectionSetupAction::StopAccepting)] + rest) == Seq::<S>::empty(),
        accept::blocking_step(Accepted::Hooked(ConnectionSetupAction::Proceed(s))) == AcceptStep::Serve(s),
        accept::blocking_step(Accepted::Plain(Some(s))) == AcceptStep::Serve(s),
        accept::blocking_step::<S>(Accepted::Hooked(ConnectionSetupAction::Drop)) is Skip,
        accept::blocking_step::<S>(Accepted::Plain(None)) is Skip,
        accept::blocking_step::<S>(Accepted::Hooked(ConnectionSetupAction::StopAccepting)) is Stop,
{
    assert forall|a: Accepted<S>| #![trigger seq![a]] (seq![a] + rest)[0] == a && (seq![a] + rest).drop_first() == rest by {
        assert((seq![a] + rest).drop_first() =~= rest);
    }
}

/// A loop that drains does the same, but for a failed attempt, which says that nothing is left: it
/// ends there, and waits.
pub proof fn law_draining_loop<S>(s: S, rest: Seq<Accepted<S>>)
    ensures
        accept::drained(Seq::<Accepted<S>>::empty()) == Seq::<S>::empty(),
        accept::drained(seq![Accepted::Hooked(ConnectionSetupAction::Proceed(s))] + rest) == seq![s] + accept::drained(
            rest,
        ),
        accept::drained(seq![Accepted::Plain(Some(s))] + rest) == seq![s] + accept::drained(rest),
        accept::drained(seq![Accepted::Hooked(ConnectionSetupAction::Drop)] + rest) == accept::drained(rest),
        accept::drained(seq![Accepted::Plain(None)] + rest) == Seq::<S>::empty(),
        accept::drained(seq![Accepted::Hooked(ConnectionSetupAction::StopAccepting)] + rest) == Seq::<S>::empty(),
        accept::draining_step(Accepted::Hooked(ConnectionSetupAction::Proceed(s))) == AcceptStep::Serve(s),
        accept::draining_step(Accepted::Plain(Some(s))) == AcceptStep::Serve(s),
        accept::draining_step::<S>(Accepted::Hooked(ConnectionSetupAction::Drop)) is Skip,
        accept::draining_step::<S>(Accepted::Plain(None)) is Wait,
        accept::draining_step::<S>(Accepted::Hooked(ConnectionSetupAction::StopAccepting)) is Stop,
{
    assert forall|a: Accepted<S>| #![trigger seq![a]] (seq![a] + rest)[0] == a && (seq![a] + rest).drop_first() == rest by {
        assert((seq![a] + rest).drop_first() =~= rest);
    }
}

/// No address of a connection handle, each of which is a multiple of 64, is the listener's token.
pub proof fn law_no_handle_is_the_listener(address: u64)
    requires
        address % 64 == 0,
    ensures
        address != epoll::LISTENER_TOKEN,
{
}

/// An event on a closed connection frees its handle and hands it to no worker; one on an open
/// connection frees nothing, and hands it to a worker exactly where none has it.
pub proof fn law_event_on_a_connection(s: Shared)
    requires
        epoll::exclusive(s),
        epoll::enabled(s, SharedStep::Look),
    ensures
        epoll::after_step(s, SharedStep::Look).retired <==> s.closed,
        epoll::after_step(s, SharedStep::Look).claiming <==> !s.closed,
        epoll::after_step(s, SharedStep::Look).workers == s.workers,
        !s.closed ==> ({
            let t = epoll::after_step(epoll::after_step(s, SharedStep::Look), SharedStep::TryClaim);
            &&& t.in_flight && !t.closed && !t.claiming && !t.retired
            &&& t.workers == 1
            &&& t.workers == s.workers + 1 <==> !s.in_flight
        }),
{
}

/// The decisions on a connection, by what they are made of.
pub proof fn law_decisions_on_a_connection(mark: bool, keep_alive: Option<bool>)
    ensures
        epoll::ready_step(mark) == ReadyStep::Retire <==> mark,
        epoll::claim_step(mark) == ClaimStep::Dispatch <==> mark,
        epoll::job_end(keep_alive) == JobEnd::Release <==> (keep_alive is Some && keep_alive->Some_0),
{
}

} // verus!
