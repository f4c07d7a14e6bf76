use khttp::parser::request::Request;
use khttp::server::accept::{after_blocking_accept, after_draining_accept, AcceptStep, Accepted};
use khttp::server::epoll::{
    after_job, after_wait, event_source, on_claim, on_ready, ClaimStep, EventSource, JobEnd, ReadyStep, WaitStep,
    LISTENER_TOKEN,
};
use khttp::server::exchange::{
    after_exchange, ConnectionStep, Exchange, ExchangeEvent, ExchangeStep, KeepAlive,
};
use khttp::server::read::{body_start, HeadBuffer, ReadEvent, ReadRequestError};
use khttp::server::{ConnectionSetupAction, PreRoutingAction};
use khttp::threadpool::Task;
use std::sync::mpsc;

/// Reads the chunks until the head is there or refused.
fn read_chunks(max_size: usize, chunks: &[&[u8]]) -> Result<Option<usize>, ReadRequestError> {
    let mut buffer = HeadBuffer::new(max_size);
    for chunk in chunks {
        let mut chunk = *chunk;
        loop {
            let room = buffer.room()?;
            let n = room.min(chunk.len());
            if buffer.on_read(ReadEvent::Bytes(&chunk[..n]))? {
                return Ok(Some(Request::parse(buffer.bytes()).unwrap().buf_offset));
            }
            chunk = &chunk[n..];
            if chunk.is_empty() {
                break;
            }
        }
    }
    buffer.room()?;
    Ok(None)
}

#[test]
fn head_is_found_in_any_chunks() {
    let head = b"GET /a HTTP/1.1\r\nHost: h\r\n\r\n";
    for k in 1..head.len() {
        assert_eq!(read_chunks(64, &[&head[..k], &head[k..]]), Ok(Some(head.len())));
    }
    let bytes: Vec<&[u8]> = head.chunks(1).collect();
    assert_eq!(read_chunks(head.len(), &bytes), Ok(Some(head.len())));
}

#[test]
fn head_that_fills_the_buffer_is_found() {
    let head = b"GET / HTTP/1.1\r\n\r\n";
    assert_eq!(read_chunks(head.len(), &[head]), Ok(Some(head.len())));
    assert_eq!(read_chunks(head.len() - 1, &[head]), Err(ReadRequestError::RequestHeadTooLarge));
}

#[test]
fn empty_buffer_is_too_small_for_any_head() {
    assert_eq!(HeadBuffer::new(0).room(), Err(ReadRequestError::RequestHeadTooLarge));
    assert_eq!(HeadBuffer::new(7).room(), Ok(7));
}

#[test]
fn malformed_head_is_refused_in_any_chunks() {
    let head = b"GET / HTTP/9.9\r\n\r\n";
    for k in 1..head.len() {
        assert_eq!(read_chunks(64, &[&head[..k], &head[k..]]), Err(ReadRequestError::InvalidRequestHead));
    }
}

#[test]
fn chunk_that_ends_in_an_authority_is_refused() {
    let head = b"GET http://host/ HTTP/1.1\r\n\r\n";
    assert_eq!(read_chunks(64, &[head]), Ok(Some(head.len())));
    assert_eq!(read_chunks(64, &[&head[..8], &head[8..]]), Err(ReadRequestError::InvalidRequestHead));
}

#[test]
fn end_and_failure_of_the_stream() {
    let mut buffer = HeadBuffer::new(16);
    assert_eq!(buffer.on_read(ReadEvent::Bytes(b"GET ")), Ok(false));
    assert_eq!(buffer.on_read(ReadEvent::Bytes(b"")), Err(ReadRequestError::ReadEof));
    assert_eq!(buffer.on_read(ReadEvent::Failed), Err(ReadRequestError::IOError));
    assert_eq!(buffer.bytes(), b"GET ");
    assert_eq!(buffer.room(), Ok(12));
}

#[test]
fn body_starts_behind_the_head() {
    let buf = b"POST / HTTP/1.1\r\n\r\nhello";
    let request = Request::parse(buf).unwrap();
    assert_eq!(body_start(buf, &request), b"hello");
}

#[test]
fn refused_heads_are_answered_and_closed() {
    for (error, status) in
        [(ReadRequestError::InvalidRequestHead, 400), (ReadRequestError::RequestHeadTooLarge, 431)]
    {
        let mut exchange = Exchange::new(true);
        assert_eq!(exchange.current(), ExchangeStep::ReadHead);
        assert_eq!(exchange.advance(ExchangeEvent::HeadRefused(error), true), ExchangeStep::Refuse(status));
        assert_eq!(exchange.advance(ExchangeEvent::RefusalSent, true), ExchangeStep::Done(false));
        let mut exchange = Exchange::new(false);
        exchange.advance(ExchangeEvent::HeadRefused(error), true);
        assert_eq!(exchange.advance(ExchangeEvent::Failed, true), ExchangeStep::Fail);
    }
}

#[test]
fn ended_and_failed_streams_are_dropped_silently() {
    for error in [ReadRequestError::ReadEof, ReadRequestError::IOError] {
        let mut exchange = Exchange::new(true);
        assert_eq!(exchange.advance(ExchangeEvent::HeadRefused(error), true), ExchangeStep::Done(false));
    }
}

#[test]
fn request_is_routed_and_the_connection_kept() {
    for keep_alive in [true, false] {
        for client_requested_close in [true, false] {
            let mut exchange = Exchange::new(false);
            assert_eq!(exchange.advance(ExchangeEvent::HeadRead, true), ExchangeStep::Route);
            let last = exchange.advance(ExchangeEvent::Routed { client_requested_close }, keep_alive);
            assert_eq!(last, ExchangeStep::Done(keep_alive && !client_requested_close));
            assert_eq!(exchange.current(), last);
        }
    }
}

#[test]
fn hook_decides_whether_a_request_is_routed() {
    let mut exchange = Exchange::new(true);
    assert_eq!(exchange.advance(ExchangeEvent::HeadRead, true), ExchangeStep::PreRoute);
    assert_eq!(
        exchange.advance(ExchangeEvent::PreRouted(PreRoutingAction::Proceed), true),
        ExchangeStep::Route
    );
    assert_eq!(exchange.advance(ExchangeEvent::Failed, true), ExchangeStep::Fail);
    for keep_alive in [true, false] {
        let mut exchange = Exchange::new(true);
        exchange.advance(ExchangeEvent::HeadRead, true);
        assert_eq!(
            exchange.advance(ExchangeEvent::PreRouted(PreRoutingAction::Drop), keep_alive),
            ExchangeStep::Done(keep_alive)
        );
    }
}

#[test]
fn connection_after_an_exchange() {
    assert_eq!(after_exchange(ExchangeStep::Done(true)), ConnectionStep::NextRequest);
    assert_eq!(after_exchange(ExchangeStep::Done(false)), ConnectionStep::Close);
    assert_eq!(after_exchange(ExchangeStep::Fail), ConnectionStep::CloseWithError);
}

#[test]
fn one_close_is_enough() {
    let mut keep_alive = KeepAlive::new();
    assert!(keep_alive.get());
    keep_alive.on_send(false);
    assert!(keep_alive.get());
    keep_alive.on_send(true);
    keep_alive.on_send(false);
    assert!(!keep_alive.get());
}

#[test]
fn blocking_accept() {
    assert!(matches!(after_blocking_accept(Accepted::Plain(Some(7))), AcceptStep::Serve(7)));
    assert!(matches!(after_blocking_accept::<u8>(Accepted::Plain(None)), AcceptStep::Skip));
    assert!(matches!(
        after_blocking_accept(Accepted::Hooked(ConnectionSetupAction::Proceed(8))),
        AcceptStep::Serve(8)
    ));
    assert!(matches!(
        after_blocking_accept::<u8>(Accepted::Hooked(ConnectionSetupAction::Drop)),
        AcceptStep::Skip
    ));
    assert!(matches!(
        after_blocking_accept::<u8>(Accepted::Hooked(ConnectionSetupAction::StopAccepting)),
        AcceptStep::Stop
    ));
}

#[test]
fn draining_accept() {
    assert!(matches!(after_draining_accept::<u8>(Accepted::Plain(None)), AcceptStep::Wait));
    assert!(matches!(after_draining_accept(Accepted::Plain(Some(7))), AcceptStep::Serve(7)));
    assert!(matches!(
        after_draining_accept::<u8>(Accepted::Hooked(ConnectionSetupAction::Drop)),
        AcceptStep::Skip
    ));
    assert!(matches!(
        after_draining_accept::<u8>(Accepted::Hooked(ConnectionSetupAction::StopAccepting)),
        AcceptStep::Stop
    ));
}

#[test]
fn serving_ends_where_a_hook_stops_it() {
    let limit = 6;
    let mut served = Vec::new();
    for n in 0.. {
        let action = if n < limit {
            ConnectionSetupAction::Proceed(n)
        } else {
            ConnectionSetupAction::StopAccepting
        };
        match after_blocking_accept(Accepted::Hooked(action)) {
            AcceptStep::Serve(s) => served.push(s),
            AcceptStep::Stop => break,
            _ => {}
        }
    }
    assert_eq!(served, vec![0, 1, 2, 3, 4, 5]);
}

#[test]
fn draining_ends_where_nothing_is_left() {
    let attempts = [
        Accepted::Plain(Some(1)),
        Accepted::Hooked(ConnectionSetupAction::Drop),
        Accepted::Hooked(ConnectionSetupAction::Proceed(2)),
        Accepted::Plain(None),
        Accepted::Plain(Some(3)),
    ];
    let mut handed_on = Vec::new();
    for attempt in attempts {
        match after_draining_accept(attempt) {
            AcceptStep::Serve(s) => handed_on.push(s),
            AcceptStep::Skip => {}
            AcceptStep::Wait | AcceptStep::Stop => break,
        }
    }
    assert_eq!(handed_on, vec![1, 2]);
}

#[test]
fn waiting_for_events() {
    assert_eq!(after_wait(-1, true), WaitStep::Retry);
    assert_eq!(after_wait(-1, false), WaitStep::Fail);
    assert_eq!(after_wait(0, false), WaitStep::Process(0));
    assert_eq!(after_wait(3, true), WaitStep::Process(3));
}

#[test]
fn events_by_token() {
    assert_eq!(event_source(LISTENER_TOKEN), EventSource::Listener);
    assert_eq!(event_source(64), EventSource::Connection);
}

#[test]
fn one_worker_at_a_time() {
    let (mut in_flight, mut closed) = (false, false);
    let mut claim = |in_flight: &mut bool, closed: bool| match on_ready(closed) {
        ReadyStep::Retire => None,
        ReadyStep::Claim => {
            let claimed = !*in_flight;
            *in_flight = true;
            Some(on_claim(claimed))
        }
    };
    assert_eq!(claim(&mut in_flight, closed), Some(ClaimStep::Dispatch));
    assert_eq!(claim(&mut in_flight, closed), Some(ClaimStep::Ignore));
    assert_eq!(after_job(Some(true)), JobEnd::Release);
    in_flight = false;
    assert_eq!(claim(&mut in_flight, closed), Some(ClaimStep::Dispatch));
    assert_eq!(after_job(Some(false)), JobEnd::Close);
    assert_eq!(after_job(None), JobEnd::Close);
    closed = true;
    assert_eq!(claim(&mut in_flight, closed), None);
}

struct Report(mpsc::Sender<u8>);

impl Task for Report {
    fn run(self) {
        self.0.send(9).unwrap();
    }
}

#[test]
fn task_runs() {
    let (sender, receiver) = mpsc::channel();
    Report(sender).run();
    assert_eq!(receiver.recv(), Ok(9));
}
