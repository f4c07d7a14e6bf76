//! Reading a request head from a stream, piece by piece, into a bounded buffer.

use crate::bytes;
use crate::parser::request;
use crate::parser::request::{Request, RequestView};
use crate::parser::stability;
use crate::parser::HttpParsingError;
use vstd::prelude::*;

verus! {

/// Why no request head was read.
#[derive(Debug, Clone, Copy, PartialEq, Eq, Structural)]
pub enum ReadRequestError {
    /// The buffer is full, and the head has not ended.
    RequestHeadTooLarge,
    /// What has been read is no beginning of a request head.
    InvalidRequestHead,
    /// The stream has ended.
    ReadEof,
    /// The stream has failed.
    IOError,
}

/// What a read from the stream came back with.
#[derive(Debug, Clone, Copy)]
pub enum ReadEvent<'e> {
    /// The bytes that were read; none at the end of the stream.
    Bytes(&'e [u8]),
    Failed,
}

/// What a read from the stream came back with.
pub enum ReadEventView {
    Bytes(Seq<u8>),
    Failed,
}

impl<'e> View for ReadEvent<'e> {
    type V = ReadEventView;

    open spec fn view(&self) -> ReadEventView {
        match self {
            ReadEvent::Bytes(b) => ReadEventView::Bytes(b@),
            ReadEvent::Failed => ReadEventView::Failed,
        }
    }
}

/// How far reading has come.
pub enum ReadOutcome {
    /// These bytes have been read, and more are needed.
    Pending(Seq<u8>),
    /// A head has been read; the bytes that have been read begin with it.
    Head(RequestView, Seq<u8>),
    Refused(ReadRequestError),
}

/// What follows from the bytes that have been read.
pub open spec fn parsed(filled: Seq<u8>) -> ReadOutcome {
    match request::request(filled) {
        Ok(head) => ReadOutcome::Head(head, filled),
        Err(HttpParsingError::UnexpectedEof) => ReadOutcome::Pending(filled),
        Err(_) => ReadOutcome::Refused(ReadRequestError::InvalidRequestHead),
    }
}

/// What follows from one more read, where `filled` has been read so far.
pub open spec fn after_read(filled: Seq<u8>, event: ReadEventView) -> ReadOutcome {
    match event {
        ReadEventView::Failed => ReadOutcome::Refused(ReadRequestError::IOError),
        ReadEventView::Bytes(more) => if more.len() == 0 {
            ReadOutcome::Refused(ReadRequestError::ReadEof)
        } else {
            parsed(filled + more)
        },
    }
}

/// What follows from the reads `events`, one after the other, into a buffer of `max_size` bytes of
/// which `filled` have been read before. A full buffer is refused before the stream is read again.
pub open spec fn after_reads(max_size: int, filled: Seq<u8>, events: Seq<ReadEventView>) -> ReadOutcome
    decreases events.len(),
{
    if filled.len() >= max_size {
        ReadOutcome::Refused(ReadRequestError::RequestHeadTooLarge)
    } else if events.len() == 0 {
        ReadOutcome::Pending(filled)
    } else {
        match after_read(filled, events[0]) {
            ReadOutcome::Pending(more) => after_reads(max_size, more, events.drop_first()),
            outcome => outcome,
        }
    }
}

/// A buffer that a request head is read into.
#[derive(Debug)]
pub struct HeadBuffer {
    filled: Vec<u8>,
    max_size: usize,
}

impl HeadBuffer {
    /// The bytes that have been read.
    pub closed spec fn filled(&self) -> Seq<u8> {
        self.filled@
    }

    pub closed spec fn max_size(&self) -> int {
        self.max_size as int
    }

    /// No more has been read than the buffer holds.
    pub open spec fn wf(&self) -> bool {
        self.filled().len() <= self.max_size()
    }

    pub fn new(max_size: usize) -> (r: Self)
        ensures
            r.wf(),
            r.filled() == Seq::<u8>::empty(),
            r.max_size() == max_size,
    {
        HeadBuffer { filled: Vec::new(), max_size }
    }

    /// How many bytes to ask the stream for, or that the buffer is full.
    pub fn room(&self) -> (r: Result<usize, ReadRequestError>)
        requires
            self.wf(),
        ensures
            match r {
                Ok(n) => n > 0 && self.filled().len() + n == self.max_size(),
                Err(e) => self.filled().len() == self.max_size() && e == ReadRequestError::RequestHeadTooLarge,
            },
    {
        if self.filled.len() == self.max_size {
            Err(ReadRequestError::RequestHeadTooLarge)
        } else {
            Ok(self.max_size - self.filled.len())
        }
    }

    /// Takes in what a read came back with: whether the head is complete now, or why there will be
    /// none.
    pub fn on_read(&mut self, event: ReadEvent<'_>) -> (r: Result<bool, ReadRequestError>)
        requires
            old(self).wf(),
            event matches ReadEvent::Bytes(b) ==> old(self).filled().len() + b@.len() <= old(self).max_size(),
        ensures
            final(self).wf(),
            final(self).max_size() == old(self).max_size(),
            match event@ {
                ReadEventView::Bytes(b) => final(self).filled() == old(self).filled() + b,
                ReadEventView::Failed => final(self).filled() == old(self).filled(),
            },
            match after_read(old(self).filled(), event@) {
                ReadOutcome::Pending(_) => r == Ok::<bool, ReadRequestError>(false),
                ReadOutcome::Head(_, _) => r == Ok::<bool, ReadRequestError>(true),
                ReadOutcome::Refused(e) => r == Err::<bool, ReadRequestError>(e),
            },
    {
        match event {
            ReadEvent::Failed => Err(ReadRequestError::IOError),
            ReadEvent::Bytes(more) => {
                self.filled.extend_from_slice(more);
                assert(self.filled@ =~= old(self).filled@ + more@);
                if more.len() == 0 {
                    return Err(ReadRequestError::ReadEof);
                }
                match Request::parse(self.filled.as_slice()) {
                    Ok(_) => Ok(true),
                    Err(HttpParsingError::UnexpectedEof) => Ok(false),
                    Err(_) => Err(ReadRequestError::InvalidRequestHead),
                }
            },
        }
    }

    /// The bytes that have been read.
    pub fn bytes(&self) -> (r: &[u8])
        ensures
            r@ == self.filled(),
    {
        self.filled.as_slice()
    }
}

/// The bytes behind the head of `request` that were read along with it: the beginning of its body.
pub fn body_start<'a>(buf: &'a [u8], request: &Request<'_>) -> (r: &'a [u8])
    requires
        request.buf_offset <= buf@.len(),
    ensures
        r@ == buf@.skip(request.buf_offset as int),
{
    bytes::tail(buf, request.buf_offset)
}

/// Chunks one after the other.
pub open spec fn joined(chunks: Seq<Seq<u8>>) -> Seq<u8>
    decreases chunks.len(),
{
    if chunks.len() == 0 {
        Seq::empty()
    } else {
        chunks[0] + joined(chunks.drop_first())
    }
}

/// The reads that bring the chunks.
pub open spec fn reads_of(chunks: Seq<Seq<u8>>) -> Seq<ReadEventView> {
    Seq::new(chunks.len(), |i: int| ReadEventView::Bytes(chunks[i]))
}

/// Whether one of the reads leaves the input broken off in the authority of a target.
pub open spec fn breaks_authority(filled: Seq<u8>, chunks: Seq<Seq<u8>>) -> bool
    decreases chunks.len(),
{
    chunks.len() > 0 && (stability::request_cut_short(filled + chunks[0]) || breaks_authority(
        filled + chunks[0],
        chunks.drop_first(),
    ))
}

proof fn lemma_one_read(filled: Seq<u8>, chunks: Seq<Seq<u8>>)
    requires
        chunks.len() > 0,
    ensures
        reads_of(chunks)[0] == ReadEventView::Bytes(chunks[0]),
        reads_of(chunks).drop_first() == reads_of(chunks.drop_first()),
        filled + joined(chunks) == (filled + chunks[0]) + joined(chunks.drop_first()),
{
    assert(reads_of(chunks).drop_first() =~= reads_of(chunks.drop_first()));
    assert(filled + joined(chunks) =~= (filled + chunks[0]) + joined(chunks.drop_first()));
}

proof fn lemma_head_is_found(max_size: int, filled: Seq<u8>, chunks: Seq<Seq<u8>>)
    requires
        forall|i: int| 0 <= i < chunks.len() ==> (#[trigger] chunks[i]).len() > 0,
        request::request(filled + joined(chunks)) is Ok,
        request::request(filled) is Err,
        filled.len() + joined(chunks).len() <= max_size,
        !breaks_authority(filled, chunks),
    ensures
        after_reads(max_size, filled, reads_of(chunks)) matches ReadOutcome::Head(head, read) && Ok::<
            RequestView,
            HttpParsingError,
        >(head) == request::request(filled + joined(chunks)) && read.is_prefix_of(filled + joined(chunks)),
    decreases chunks.len(),
{
    if chunks.len() == 0 {
        assert(filled + joined(chunks) =~= filled);
    } else {
        let rest = chunks.drop_first();
        let now = filled + chunks[0];
        lemma_one_read(filled, chunks);
        assert(chunks[0].len() > 0);
        if request::request(now) is Ok {
            stability::law_request_extends(now, joined(rest));
            assert(now =~= (now + joined(rest)).take(now.len() as int));
        } else {
            if request::request(now) != Err::<RequestView, HttpParsingError>(HttpParsingError::UnexpectedEof) {
                stability::law_request_refusal_is_final(now, joined(rest));
            }
            assert forall|i: int| 0 <= i < rest.len() implies (#[trigger] rest[i]).len() > 0 by {
                assert(rest[i] == chunks[i + 1]);
            }
            lemma_head_is_found(max_size, now, rest);
        }
    }
}

/// A head that fits is found, and the same one, in whatever chunks it comes, unless one of them ends
/// in the authority of its target.
pub proof fn law_head_is_found_in_any_chunks(max_size: int, chunks: Seq<Seq<u8>>)
    requires
        forall|i: int| 0 <= i < chunks.len() ==> (#[trigger] chunks[i]).len() > 0,
        request::request(joined(chunks)) is Ok,
        joined(chunks).len() <= max_size,
        !breaks_authority(Seq::empty(), chunks),
    ensures
        after_reads(max_size, Seq::empty(), reads_of(chunks)) matches ReadOutcome::Head(head, read) && Ok::<
            RequestView,
            HttpParsingError,
        >(head) == request::request(joined(chunks)) && read.is_prefix_of(joined(chunks)),
{
    let none = Seq::<u8>::empty();
    assert(none + joined(chunks) =~= joined(chunks));
    if request::request(none) is Ok {
        stability::law_request_extends(none, Seq::empty());
    }
    lemma_head_is_found(max_size, none, chunks);
}

proof fn lemma_malformed_is_refused(max_size: int, filled: Seq<u8>, chunks: Seq<Seq<u8>>)
    requires
        chunks.len() > 0,
        forall|i: int| 0 <= i < chunks.len() ==> (#[trigger] chunks[i]).len() > 0,
        request::request(filled + joined(chunks)) is Err,
        request::request(filled + joined(chunks)) != Err::<RequestView, HttpParsingError>(
            HttpParsingError::UnexpectedEof,
        ),
        filled.len() + joined(chunks).len() <= max_size,
    ensures
        after_reads(max_size, filled, reads_of(chunks)) == ReadOutcome::Refused(
            ReadRequestError::InvalidRequestHead,
        ),
    decreases chunks.len(),
{
    let rest = chunks.drop_first();
    let now = filled + chunks[0];
    lemma_one_read(filled, chunks);
    assert(chunks[0].len() > 0);
    if request::request(now) is Ok {
        stability::law_request_extends(now, joined(rest));
    }
    if rest.len() == 0 {
        assert(now + joined(rest) =~= now);
    } else if request::request(now) == Err::<RequestView, HttpParsingError>(HttpParsingError::UnexpectedEof) {
        assert forall|i: int| 0 <= i < rest.len() implies (#[trigger] rest[i]).len() > 0 by {
            assert(rest[i] == chunks[i + 1]);
        }
        lemma_malformed_is_refused(max_size, now, rest);
    }
}

/// What is no beginning of a request is refused as invalid, in whatever chunks it comes.
pub proof fn law_malformed_is_refused_in_any_chunks(max_size: int, chunks: Seq<Seq<u8>>)
    requires
        forall|i: int| 0 <= i < chunks.len() ==> (#[trigger] chunks[i]).len() > 0,
        request::request(joined(chunks)) is Err,
        request::request(joined(chunks)) != Err::<RequestView, HttpParsingError>(HttpParsingError::UnexpectedEof),
        joined(chunks).len() <= max_size,
    ensures
        after_reads(max_size, Seq::empty(), reads_of(chunks)) == ReadOutcome::Refused(
            ReadRequestError::InvalidRequestHead,
        ),
{
    let none = Seq::<u8>::empty();
    assert(none + joined(chunks) =~= joined(chunks));
    if chunks.len() == 0 {
        bytes::lemma_run_end(none, 0, bytes::other_than(bytes::SP));
    } else {
        lemma_malformed_is_refused(max_size, none, chunks);
    }
}

proof fn lemma_unfinished_is_too_large(max_size: int, filled: Seq<u8>, chunks: Seq<Seq<u8>>)
    requires
        forall|i: int| 0 <= i < chunks.len() ==> (#[trigger] chunks[i]).len() > 0,
        request::request(filled + joined(chunks)) == Err::<RequestView, HttpParsingError>(
            HttpParsingError::UnexpectedEof,
        ),
        filled.len() + joined(chunks).len() == max_size,
        !breaks_authority(filled, chunks),
    ensures
        after_reads(max_size, filled, reads_of(chunks)) == ReadOutcome::Refused(
            ReadRequestError::RequestHeadTooLarge,
        ),
    decreases chunks.len(),
{
    if chunks.len() > 0 {
        let rest = chunks.drop_first();
        let now = filled + chunks[0];
        lemma_one_read(filled, chunks);
        assert(chunks[0].len() > 0);
        if request::request(now) is Ok {
            stability::law_request_extends(now, joined(rest));
        } else if request::request(now) != Err::<RequestView, HttpParsingError>(HttpParsingError::UnexpectedEof) {
            stability::law_request_refusal_is_final(now, joined(rest));
        }
        assert forall|i: int| 0 <= i < rest.len() implies (#[trigger] rest[i]).len() > 0 by {
            assert(rest[i] == chunks[i + 1]);
        }
        lemma_unfinished_is_too_large(max_size, now, rest);
    }
}

/// A head that has not ended when the buffer is full is refused as too large, in whatever chunks it
/// comes, unless one of them ends in the authority of its target.
pub proof fn law_unfinished_is_too_large_in_any_chunks(max_size: int, chunks: Seq<Seq<u8>>)
    requires
        forall|i: int| 0 <= i < chunks.len() ==> (#[trigger] chunks[i]).len() > 0,
        request::request(joined(chunks)) == Err::<RequestView, HttpParsingError>(HttpParsingError::UnexpectedEof),
        joined(chunks).len() == max_size,
        !breaks_authority(Seq::empty(), chunks),
    ensures
        after_reads(max_size, Seq::empty(), reads_of(chunks)) == ReadOutcome::Refused(
            ReadRequestError::RequestHeadTooLarge,
        ),
{
    let none = Seq::<u8>::empty();
    assert(none + joined(chunks) =~= joined(chunks));
    lemma_unfinished_is_too_large(max_size, none, chunks);
}

/// A head that is found is what the bytes read parse to, and it ends inside of them.
pub proof fn law_found_head_was_read(max_size: int, filled: Seq<u8>, events: Seq<ReadEventView>)
    requires
        after_reads(max_size, filled, events) is Head,
    ensures
        after_reads(max_size, filled, events) matches ReadOutcome::Head(head, read) && filled.is_prefix_of(read)
            && request::request(read) == Ok::<RequestView, HttpParsingError>(head) && 0 < head.buf_offset
            <= read.len(),
    decreases events.len(),
{
    match after_read(filled, events[0]) {
        ReadOutcome::Pending(more) => {
            law_found_head_was_read(max_size, more, events.drop_first());
            let read = after_reads(max_size, filled, events)->Head_1;
            assert(filled =~= read.take(filled.len() as int)) by {
                assert(filled =~= more.take(filled.len() as int));
                assert(more =~= read.take(more.len() as int));
            }
        },
        ReadOutcome::Head(_, read) => {
            assert(filled =~= read.take(filled.len() as int));
            stability::law_request_extends(read, Seq::empty());
        },
        _ => {},
    }
}

} // verus!
