//! What reading on does to a stream, in terms of how its bytes are spelled.

use crate::bytes;
use crate::bytes::ascii;
use crate::connections;
use crate::connections::Waiting;
use crate::head;
use crate::laws;
use crate::reading_laws;
use crate::reading_laws::may_have_body;
use crate::spelling;
use crate::spelling::Line;
use crate::stream;
use crate::stream::{Phase, Step, Stepped, StreamView};
use crate::written;
use crate::written::{Chunk, Written};
use vstd::prelude::*;

verus! {

/// A message with its head spelled out: the first line and the lines behind it.
pub struct Spelled {
    pub message: Written,
    pub start: Seq<u8>,
    pub lines: Seq<Line>,
}

impl Spelled {
    /// The head of an HTTP/1.x message, with no empty line in it.
    pub open spec fn has_head(self) -> bool {
        let head = self.message.head;
        &&& spelling::is_spelled(head, self.start, self.lines)
        &&& spelling::is_whole_head(head)
        &&& spelling::begins_message(head + spelling::empty_line())
    }
}

/// The first request that waits is a HEAD request.
pub open spec fn head_is_next(waiting: Waiting) -> bool {
    waiting matches Some(queue) && queue.len() > 0 && queue[0]
}

/// What waits behind a message: a request waits behind all others, and a response takes the first.
pub open spec fn queue_behind(head: Seq<u8>, waiting: Waiting) -> Waiting {
    if !spelling::begins(head, ascii("HTTP/"@)) {
        Some(laws::queue_of(waiting).push(spelling::begins(head, ascii("HEAD "@))))
    } else {
        match waiting {
            Some(queue) => Some(
                if queue.len() > 0 {
                    queue.skip(1)
                } else {
                    queue
                },
            ),
            None => None,
        }
    }
}

/// A request waits behind all others, noted as one with the method HEAD or not. A response takes
/// the first.
pub proof fn law_queue_is_kept_as_written(head: Seq<u8>, waiting: Waiting)
    ensures
        stream::waiting_after(head, waiting) == queue_behind(head, waiting),
        connections::answers_head(waiting) == head_is_next(waiting),
{
    reading_laws::law_heads_are_told_apart_as_written(head);
    if let Some(queue) = waiting {
        if queue.len() > 0 {
            assert(queue.skip(1) =~= queue.drop_first());
        }
    } else {
        let is_head = spelling::begins(head, ascii("HEAD "@));
        assert(Seq::<bool>::empty().push(is_head) =~= seq![is_head]);
    }
}

/// A stream holds a head of an HTTP/1.x message that the bytes behind it follow.
pub open spec fn holds_head(text: Seq<u8>, x: Spelled, rest: Seq<u8>) -> bool {
    x.has_head() && text == x.message.head + spelling::empty_line() + rest
}

/// The head of the text is found, and the framing is what the head says.
pub proof fn lemma_holds_head(text: Seq<u8>, x: Spelled, rest: Seq<u8>)
    requires
        holds_head(text, x, rest),
    ensures
        ({
            let end: int = x.message.head.len() as int;
            &&& bytes::position(text, head::blank_line()) == Some(end)
            &&& text.take(end) == x.message.head
            &&& text.skip(end + 4) == rest
            &&& head::looks_like_http1(text)
        }),
{
    let head = x.message.head;
    let top = head + head::blank_line();
    assert(spelling::empty_line() =~= head::blank_line());
    reading_laws::law_heads_are_recognised_as_written(head);
    bytes::lemma_position_extended(top, rest, head::blank_line());
    head::lemma_blank_line_ends_line(top);
    head::lemma_looks_like_extended(top, rest);
    assert(text.take(head.len() as int) =~= head);
    assert(text.skip(head.len() as int + 4) =~= rest);
}

/// Nothing more can come of these unread bytes, in this phase and behind this much of a body.
pub open spec fn is_unreadable(phase: Phase, buf: Seq<u8>, body: nat) -> bool {
    match phase {
        Phase::Head => {
            ||| spelling::nowhere(buf, spelling::empty_line()) && buf.len() > 65536
            ||| !spelling::nowhere(buf, spelling::empty_line()) && !spelling::begins_message(buf)
        },
        Phase::ChunkSize => {
            ||| spelling::nowhere(buf, spelling::line_end()) && buf.len() > 1024
            ||| exists|end: int| #[trigger]
                spelling::first(buf, end, spelling::line_end()) && is_bad_size(
                    buf.take(end),
                    body,
                )
        },
        Phase::ChunkDataEnd => buf.len() >= 2 && !spelling::begins(buf, spelling::line_end()),
        _ => false,
    }
}

/// The line gives no size, or one that makes the body larger than the largest.
pub open spec fn is_bad_size(line: Seq<u8>, body: nat) -> bool {
    forall|n: nat| #[trigger] spelling::says_size(line, n) ==> body + n > 33554432
}

/// Bytes are waited for, and none was read, where a head or the line of a chunk is not whole and
/// not too long, or where an end of a chunk or trailers are not whole.
pub open spec fn is_awaited(phase: Phase, buf: Seq<u8>) -> bool {
    match phase {
        Phase::Head => spelling::nowhere(buf, spelling::empty_line()) && buf.len() <= 65536,
        Phase::ChunkSize => spelling::nowhere(buf, spelling::line_end()) && buf.len() <= 1024,
        Phase::ChunkDataEnd => buf.len() < 2,
        Phase::Trailers => !spelling::begins(buf, spelling::line_end()) && spelling::nowhere(
            buf,
            spelling::empty_line(),
        ),
        _ => false,
    }
}

/// A body of which `n` bytes are missing takes what is there of them, and is complete once all are.
pub proof fn law_fixed_body_is_read(s: StreamView, waiting: Waiting, n: usize)
    requires
        s.phase == Phase::Fixed(n),
    ensures
        stream::stepped(s, waiting) == (if n <= s.buf.len() {
            Stepped {
                step: Step::Complete,
                stream: StreamView {
                    buf: s.buf.skip(n as int),
                    body: s.body + s.buf.take(n as int),
                    ..s
                },
                waiting,
            }
        } else {
            Stepped {
                step: Step::NeedMore,
                stream: StreamView {
                    buf: Seq::empty(),
                    body: s.body + s.buf,
                    phase: Phase::Fixed((n - s.buf.len()) as usize),
                    ..s
                },
                waiting,
            }
        }),
{
    if n > s.buf.len() {
        assert(s.buf.skip(s.buf.len() as int) =~= Seq::<u8>::empty());
        assert(s.buf.take(s.buf.len() as int) =~= s.buf);
    }
}

/// The data of a chunk of which `n` bytes are missing take what is there of them; once all are, the
/// line end behind them is next.
pub proof fn law_chunk_data_is_read(s: StreamView, waiting: Waiting, n: usize)
    requires
        s.phase == Phase::ChunkData(n),
    ensures
        stream::stepped(s, waiting) == (if n <= s.buf.len() {
            stream::stepped(
                StreamView {
                    buf: s.buf.skip(n as int),
                    body: s.body + s.buf.take(n as int),
                    phase: Phase::ChunkDataEnd,
                    ..s
                },
                waiting,
            )
        } else {
            Stepped {
                step: Step::NeedMore,
                stream: StreamView {
                    buf: Seq::empty(),
                    body: s.body + s.buf,
                    phase: Phase::ChunkData((n - s.buf.len()) as usize),
                    ..s
                },
                waiting,
            }
        }),
{
    if n > s.buf.len() {
        assert(s.buf.skip(s.buf.len() as int) =~= Seq::<u8>::empty());
        assert(s.buf.take(s.buf.len() as int) =~= s.buf);
    }
}

/// The line of a chunk gives the size of the data that are next; behind the size zero the end of
/// the message is next.
pub proof fn law_chunk_line_is_read(s: StreamView, waiting: Waiting, end: int, n: nat)
    requires
        s.phase is ChunkSize,
        spelling::first(s.buf, end, spelling::line_end()),
        spelling::says_size(s.buf.take(end), n),
        s.body.len() + n <= 33554432,
    ensures
        stream::stepped(s, waiting) == stream::stepped(
            StreamView {
                buf: s.buf.skip(end + 2),
                phase: if n == 0 {
                    Phase::Trailers
                } else {
                    Phase::ChunkData(n as usize)
                },
                ..s
            },
            waiting,
        ),
{
    assert(spelling::line_end() =~= head::crlf());
    reading_laws::law_first_occurrence_is_found(s.buf, head::crlf());
    assert(bytes::position(s.buf, head::crlf()) == Some(end));
    reading_laws::law_chunk_sizes_are_read_as_written(s.buf.take(end));
}

/// The line end behind the data of a chunk is passed, and the line of a chunk is next.
pub proof fn law_chunk_end_is_read(s: StreamView, waiting: Waiting)
    requires
        s.phase is ChunkDataEnd,
        spelling::begins(s.buf, spelling::line_end()),
    ensures
        stream::stepped(s, waiting) == stream::stepped(
            StreamView { buf: s.buf.skip(2), phase: Phase::ChunkSize, ..s },
            waiting,
        ),
{
    assert(spelling::line_end() =~= head::crlf());
    reading_laws::lemma_begins(s.buf, head::crlf());
}

/// The message ends with the line end behind its last chunk, or with the first empty line where
/// other lines come before. They are passed.
pub proof fn law_trailers_are_passed(s: StreamView, waiting: Waiting, end: int)
    requires
        s.phase is Trailers,
        spelling::begins(s.buf, spelling::line_end()) || spelling::first(
            s.buf,
            end,
            spelling::empty_line(),
        ),
    ensures
        stream::stepped(s, waiting) == (Stepped {
            step: Step::Complete,
            stream: StreamView {
                buf: if spelling::begins(s.buf, spelling::line_end()) {
                    s.buf.skip(2)
                } else {
                    s.buf.skip(end + 4)
                },
                ..s
            },
            waiting,
        }),
{
    assert(spelling::line_end() =~= head::crlf());
    assert(spelling::empty_line() =~= head::blank_line());
    reading_laws::lemma_begins(s.buf, head::crlf());
    reading_laws::law_first_occurrence_is_found(s.buf, head::blank_line());
    if !spelling::begins(s.buf, spelling::line_end()) {
        assert(bytes::position(s.buf, head::blank_line()) == Some(end));
    }
}

/// A head that is too long or of no HTTP/1.x message, the line of a chunk that is too long or gives
/// no size or one too large, and data of a chunk with no line end behind cannot be read.
pub proof fn law_unreadable_bytes_fail(s: StreamView, waiting: Waiting)
    requires
        is_unreadable(s.phase, s.buf, s.body.len()),
    ensures
        stream::stepped(s, waiting).step is Error,
        stream::stepped(s, waiting).waiting == waiting,
{
    assert(spelling::line_end() =~= head::crlf());
    assert(spelling::empty_line() =~= head::blank_line());
    reading_laws::law_first_occurrence_is_found(s.buf, head::crlf());
    reading_laws::law_first_occurrence_is_found(s.buf, head::blank_line());
    reading_laws::law_starts_are_recognised_as_written(s.buf);
    reading_laws::lemma_begins(s.buf, head::crlf());
    if s.phase is ChunkSize && bytes::position(s.buf, head::crlf()) is Some {
        let end: int = bytes::position(s.buf, head::crlf())->0;
        assert(spelling::first(s.buf, end, head::crlf()));
        let other: int = choose|other: int| #[trigger]
            spelling::first(s.buf, other, spelling::line_end()) && is_bad_size(
                s.buf.take(other),
                s.body.len(),
            );
        assert(bytes::position(s.buf, head::crlf()) == Some(other));
        let line = s.buf.take(end);
        reading_laws::law_chunk_sizes_are_read_as_written(line);
        if head::chunk_size(line) is Some {
            let n: nat = choose|n: nat| #[trigger] spelling::says_size(line, n);
            assert(s.body.len() + n > 33554432);
        }
    }
}

/// A head, a line of a chunk, an end of a chunk and trailers that are not whole are waited for.
pub proof fn law_parts_wait(s: StreamView, waiting: Waiting)
    requires
        is_awaited(s.phase, s.buf),
    ensures
        stream::stepped(s, waiting) == (Stepped { step: Step::NeedMore, stream: s, waiting }),
{
    assert(spelling::line_end() =~= head::crlf());
    assert(spelling::empty_line() =~= head::blank_line());
    reading_laws::law_first_occurrence_is_found(s.buf, head::crlf());
    reading_laws::law_first_occurrence_is_found(s.buf, head::blank_line());
    reading_laws::lemma_begins(s.buf, head::crlf());
}

/// The body begins: more is needed where no byte of it is there, else reading goes on.
pub open spec fn goes_on(s: StreamView, waiting: Waiting) -> Stepped {
    if s.buf.len() == 0 {
        Stepped { step: Step::NeedMore, stream: s, waiting }
    } else {
        stream::stepped(s, waiting)
    }
}

/// A head that has come whole is taken in, and what waits on the connection changes with it. The
/// body that follows is what the head says: for a request, by its header fields; for a response, by
/// what it answers, its status and its header fields.
pub proof fn law_head_is_read(
    s: StreamView,
    waiting: Waiting,
    x: Spelled,
    rest: Seq<u8>,
    n: nat,
)
    requires
        s.phase is Head,
        holds_head(s.buf, x, rest),
    ensures
        ({
            let head = x.message.head;
            let after = queue_behind(head, waiting);
            let is_response = spelling::begins(head, ascii("HTTP/"@));
            let bodiless = is_response && (head_is_next(waiting) || !may_have_body(head));
            let opened = StreamView { buf: rest, head, is_request: !is_response, ..s };
            let r = stream::stepped(s, waiting);
            let complete = Stepped { step: Step::Complete, stream: opened, waiting: after };
            &&& bodiless ==> r == complete
            &&& !bodiless && spelling::names_chunked(x.lines) ==> r == goes_on(
                StreamView { phase: Phase::ChunkSize, chunked: true, ..opened },
                after,
            )
            &&& !bodiless && !spelling::names_chunked(x.lines) ==> {
                &&& spelling::says_length(x.lines, 0) ==> r == complete
                &&& spelling::says_length(x.lines, n) && 0 < n <= 33554432 ==> r == goes_on(
                    StreamView { phase: Phase::Fixed(n as usize), ..opened },
                    after,
                )
                &&& spelling::says_length(x.lines, n) && n > 33554432 ==> r.step is Error
                    && r.waiting == after
                &&& spelling::says_no_length(x.lines) && !is_response ==> r == complete
                &&& spelling::says_no_length(x.lines) && is_response && rest.len() <= 33554432
                    ==> r == (Stepped {
                    step: Step::Complete,
                    stream: StreamView { buf: Seq::empty(), body: rest, ..opened },
                    waiting: after,
                })
                &&& spelling::says_no_length(x.lines) && is_response && rest.len() > 33554432
                    ==> r.step is Error && r.waiting == after
            }
        }),
{
    let head = x.message.head;
    lemma_holds_head(s.buf, x, rest);
    law_queue_is_kept_as_written(head, waiting);
    reading_laws::law_heads_are_told_apart_as_written(head);
    reading_laws::lemma_chunked(head, x.start, x.lines);
    reading_laws::lemma_length(head, x.start, x.lines);
    reading_laws::lemma_status_bodiless(head);
}

/// A line that the line end behind it ends.
pub open spec fn is_ended_line(line: Seq<u8>) -> bool {
    spelling::first(line + spelling::line_end(), line.len() as int, spelling::line_end())
}

/// A chunk whose line gives the size of its data.
pub open spec fn is_true_chunk(c: Chunk) -> bool {
    is_ended_line(c.line) && c.data.len() > 0 && spelling::says_size(c.line, c.data.len())
}

/// The line end that ends a line is the first, whatever follows.
proof fn lemma_ended_line_first(line: Seq<u8>, rest: Seq<u8>)
    requires
        is_ended_line(line),
    ensures
        ({
            let text = line + spelling::line_end() + rest;
            &&& spelling::first(text, line.len() as int, spelling::line_end())
            &&& text.take(line.len() as int) == line
            &&& text.skip(line.len() as int + 2) == rest
        }),
{
    let top = line + spelling::line_end();
    let text = top + rest;
    reading_laws::law_first_occurrence_is_found(top, spelling::line_end());
    reading_laws::law_first_occurrence_is_found(text, spelling::line_end());
    bytes::lemma_position_extended(top, rest, spelling::line_end());
    assert(bytes::position(top, spelling::line_end()) == Some(line.len() as int));
    assert(text.take(line.len() as int) =~= line);
    assert(text.skip(line.len() as int + 2) =~= rest);
}

/// The line of a chunk is read, and its data are next.
proof fn lemma_chunk_line_read(s: StreamView, waiting: Waiting, c: Chunk, rest: Seq<u8>)
    requires
        s.phase is ChunkSize,
        is_true_chunk(c),
        s.buf == c.line + spelling::line_end() + rest,
        s.body.len() + c.data.len() <= 33554432,
    ensures
        stream::stepped(s, waiting) == stream::stepped(
            StreamView { buf: rest, phase: Phase::ChunkData(c.data.len() as usize), ..s },
            waiting,
        ),
{
    lemma_ended_line_first(c.line, rest);
    law_chunk_line_is_read(s, waiting, c.line.len() as int, c.data.len());
}

/// The data of a chunk are read, and the line end behind them is next.
proof fn lemma_data_read(s: StreamView, waiting: Waiting, c: Chunk, rest: Seq<u8>)
    requires
        c.data.len() <= 33554432,
        s.phase == Phase::ChunkData(c.data.len() as usize),
        s.buf == c.data + rest,
    ensures
        stream::stepped(s, waiting) == stream::stepped(
            StreamView { buf: rest, body: s.body + c.data, phase: Phase::ChunkDataEnd, ..s },
            waiting,
        ),
{
    law_chunk_data_is_read(s, waiting, c.data.len() as usize);
    assert(s.buf.skip(c.data.len() as int) =~= rest);
    assert(s.buf.take(c.data.len() as int) =~= c.data);
}

/// A chunk is read: its data go to the body, and the line of the next chunk is next.
pub proof fn law_chunk_is_read(s: StreamView, waiting: Waiting, c: Chunk, rest: Seq<u8>)
    requires
        s.phase is ChunkSize,
        is_true_chunk(c),
        s.buf == c.line + spelling::line_end() + c.data + spelling::line_end() + rest,
        s.body.len() + c.data.len() <= 33554432,
    ensures
        stream::stepped(s, waiting) == stream::stepped(
            StreamView { buf: rest, body: s.body + c.data, ..s },
            waiting,
        ),
{
    let end = spelling::line_end() + rest;
    let tail = c.data + end;
    assert(s.buf =~= c.line + spelling::line_end() + tail);
    lemma_chunk_line_read(s, waiting, c, tail);
    let s1 = StreamView { buf: tail, phase: Phase::ChunkData(c.data.len() as usize), ..s };
    lemma_data_read(s1, waiting, c, end);
    let s2 = StreamView { buf: end, body: s.body + c.data, phase: Phase::ChunkDataEnd, ..s };
    assert(spelling::begins(end, spelling::line_end()));
    law_chunk_end_is_read(s2, waiting);
    assert(end.skip(2) =~= rest);
}

/// Chunks are read one behind the other, and their data are joined.
pub proof fn law_chunks_are_joined(
    s: StreamView,
    waiting: Waiting,
    chunks: Seq<Chunk>,
    rest: Seq<u8>,
)
    requires
        s.phase is ChunkSize,
        forall|i: int| 0 <= i < chunks.len() ==> is_true_chunk(#[trigger] chunks[i]),
        s.buf == written::chunks_wire(chunks) + rest,
        s.body.len() + written::chunks_data(chunks).len() <= 33554432,
    ensures
        stream::stepped(s, waiting) == stream::stepped(
            StreamView { buf: rest, body: s.body + written::chunks_data(chunks), ..s },
            waiting,
        ),
    decreases chunks.len(),
{
    if chunks.len() == 0 {
        assert(s.buf =~= rest);
        assert(s.body + written::chunks_data(chunks) =~= s.body);
    } else {
        let c = chunks[0];
        let others = chunks.drop_first();
        let tail = written::chunks_wire(others) + rest;
        assert(is_true_chunk(c));
        assert forall|i: int| 0 <= i < others.len() implies is_true_chunk(#[trigger] others[i]) by {
            assert(others[i] == chunks[i + 1]);
        }
        assert(head::crlf() =~= spelling::line_end());
        assert(s.buf =~= c.line + spelling::line_end() + c.data + spelling::line_end() + tail);
        law_chunk_is_read(s, waiting, c, tail);
        let next = StreamView { buf: tail, body: s.body + c.data, ..s };
        law_chunks_are_joined(next, waiting, others, rest);
        assert(s.body + c.data + written::chunks_data(others) =~= s.body + written::chunks_data(
            chunks,
        ));
    }
}

/// A chunk with anything but a line end behind its data cannot be read.
pub proof fn law_chunk_without_end_fails(
    s: StreamView,
    waiting: Waiting,
    c: Chunk,
    rest: Seq<u8>,
)
    requires
        s.phase is ChunkSize,
        is_true_chunk(c),
        s.buf == c.line + spelling::line_end() + c.data + rest,
        s.body.len() + c.data.len() <= 33554432,
        rest.len() >= 2,
        !spelling::begins(rest, spelling::line_end()),
    ensures
        stream::stepped(s, waiting).step is Error,
        stream::stepped(s, waiting).waiting == waiting,
{
    assert(s.buf =~= c.line + spelling::line_end() + (c.data + rest));
    lemma_chunk_line_read(s, waiting, c, c.data + rest);
    let s1 = StreamView {
        buf: c.data + rest,
        phase: Phase::ChunkData(c.data.len() as usize),
        ..s
    };
    lemma_data_read(s1, waiting, c, rest);
    let s2 = StreamView { buf: rest, body: s.body + c.data, phase: Phase::ChunkDataEnd, ..s };
    law_unreadable_bytes_fail(s2, waiting);
}

} // verus!
