use http1_stream::stream::{MAX_HTTP1_HEAD_BYTES, MAX_HTTP1_MESSAGE_BYTES};
use http1_stream::tracker::MAX_HTTP1_STREAMS;
use http1_stream::{Event, Feed, Http1Message, Http1Tracker};

fn at(ts: u64) -> Event {
    Event::new_with_timestamp(ts, "ssl".into(), 1, "t".into(), "{}".into())
}

fn messages(f: Feed) -> Vec<Http1Message> {
    match f {
        Feed::Consumed(m) => m,
        Feed::NotHttp1 => panic!("expected Consumed"),
    }
}

fn refused(f: Feed) -> bool {
    matches!(f, Feed::NotHttp1)
}

const CHUNKED: &[u8] = b"HTTP/1.1 200 OK\r\nTransfer-Encoding: chunked\r\n\r\n5;x=y\r\nhello\r\n6\r\n world\r\n0\r\nSum: 1\r\n\r\n";

#[test]
fn message_in_any_two_pieces() {
    for cut in 7..CHUNKED.len() {
        let mut t = Http1Tracker::default();
        assert!(messages(t.feed(&at(1), 3, 0, &CHUNKED[..cut])).is_empty());
        let done = messages(t.feed(&at(2), 3, 0, &CHUNKED[cut..]));
        assert_eq!(done.len(), 1);
        assert_eq!(done[0].head, b"HTTP/1.1 200 OK\r\nTransfer-Encoding: chunked");
        assert_eq!(done[0].body, b"hello world");
        assert_eq!(done[0].first_event.timestamp, 1);
        assert_eq!(done[0].last_timestamp, 2);
        assert!(done[0].was_chunked);
        assert!(!done[0].is_request);
    }
}

#[test]
fn message_byte_by_byte() {
    let mut t = Http1Tracker::default();
    let mut done = messages(t.feed(&at(0), 3, 0, &CHUNKED[..7]));
    for (i, b) in CHUNKED[7..].iter().enumerate() {
        done.extend(messages(t.feed(&at(1 + i as u64), 3, 0, &[*b])));
    }
    assert_eq!(done.len(), 1);
    assert_eq!(done[0].body, b"hello world");
    assert_eq!(done[0].first_event.timestamp, 0);
    assert_eq!(done[0].last_timestamp, (CHUNKED.len() - 7) as u64);
}

#[test]
fn upload_is_answered_before_it_is_complete() {
    for answer in [
        &b"HTTP/1.1 100 Continue\r\n\r\n"[..],
        b"HTTP/1.1 413 Too Large\r\nContent-Length: 2\r\n\r\nno",
    ] {
        let mut t = Http1Tracker::default();
        let start = b"POST / HTTP/1.1\r\nExpect: 100-continue\r\nContent-Length: 6\r\n\r\n";
        assert!(messages(t.feed(&at(1), 3, 1, start)).is_empty());
        assert_eq!(messages(t.feed(&at(2), 3, 0, answer)).len(), 1);
        assert!(messages(t.feed(&at(3), 3, 1, b"abc")).is_empty());
        let done = messages(t.feed(&at(4), 3, 1, b"def"));
        assert_eq!(done.len(), 1);
        assert_eq!(done[0].body, b"abcdef");
        assert_eq!(done[0].first_event.timestamp, 1);
        assert_eq!(done[0].last_timestamp, 4);
    }
}

#[test]
fn next_request_is_sent_while_a_response_streams() {
    let mut t = Http1Tracker::default();
    assert_eq!(messages(t.feed(&at(1), 3, 1, b"GET /a HTTP/1.1\r\n\r\n")).len(), 1);
    assert!(messages(t.feed(&at(2), 3, 0, &CHUNKED[..60])).is_empty());
    assert_eq!(messages(t.feed(&at(3), 3, 1, b"HEAD /b HTTP/1.1\r\n\r\n")).len(), 1);
    let done = messages(t.feed(&at(4), 3, 0, &CHUNKED[60..]));
    assert_eq!(done.len(), 1);
    assert_eq!(done[0].body, b"hello world");
    // The next response, its head in two events, answers the request that was sent meanwhile.
    assert!(messages(t.feed(&at(5), 3, 0, b"HTTP/1.1 200 OK\r\nContent-")).is_empty());
    assert_eq!(messages(t.feed(&at(6), 3, 1, b"GET /c HTTP/1.1\r\n\r\n")).len(), 1);
    let done = messages(t.feed(&at(7), 3, 0, b"Length: 9\r\n\r\n"));
    assert_eq!(done.len(), 1);
    assert!(done[0].body.is_empty());
}

#[test]
fn head_request_is_sent_while_the_head_of_its_response_comes() {
    // What waits counts when the head is complete.
    let mut t = Http1Tracker::default();
    assert!(messages(t.feed(&at(1), 3, 0, b"HTTP/1.1 200 OK\r\n")).is_empty());
    assert_eq!(messages(t.feed(&at(2), 3, 1, b"HEAD / HTTP/1.1\r\n\r\n")).len(), 1);
    let done = messages(t.feed(&at(3), 3, 0, b"Content-Length: 9\r\n\r\n"));
    assert_eq!(done.len(), 1);
    assert!(done[0].body.is_empty());
}

#[test]
fn messages_agree_with_their_heads() {
    let mut t = Http1Tracker::default();
    assert!(messages(t.feed(&at(1), 3, 0, b"HTTP/1.1 200 OK\r\nContent-Length: 3\r\n\r\na")).is_empty());
    let done = messages(t.feed(&at(2), 3, 0, &[&b"bc"[..], CHUNKED].concat()));
    assert_eq!(done.len(), 2);
    for m in &done {
        assert_eq!(m.last_timestamp, 2);
        assert!(!m.is_request);
        assert!(m.head.starts_with(b"HTTP/1.1 200 OK"));
    }
    assert_eq!(done[0].first_event.timestamp, 1);
    assert_eq!(done[1].first_event.timestamp, 2);
    assert!(!done[0].was_chunked);
    assert!(done[1].was_chunked);
}

#[test]
fn events_carry_on_what_they_hold() {
    let mut t = Http1Tracker::default();
    let event = Event::new_with_timestamp(9, "ssl".into(), 77, "curl".into(), "{\"a\":1}".into());
    let done = messages(t.feed(&event, 3, 1, b"GET / HTTP/1.1\r\n\r\n"));
    assert_eq!(done[0].first_event.timestamp, 9);
    assert_eq!(done[0].first_event.source, "ssl");
    assert_eq!(done[0].first_event.pid, 77);
    assert_eq!(done[0].first_event.comm, "curl");
    assert_eq!(done[0].first_event.data, "{\"a\":1}");
}

#[test]
fn split_and_whole_give_the_same_messages() {
    let bytes = b"GET /a HTTP/1.1\r\n\r\nPOST /b HTTP/1.1\r\nContent-Length: 3\r\n\r\nabcHEAD /c HTTP/1.1\r\n\r\n";
    for cut in [10, 19, 30, 58, 60, 70] {
        let mut whole = Http1Tracker::default();
        let all = messages(whole.feed(&at(1), 3, 1, bytes));
        let mut split = Http1Tracker::default();
        let mut parts = messages(split.feed(&at(1), 3, 1, &bytes[..cut]));
        parts.extend(messages(split.feed(&at(2), 3, 1, &bytes[cut..])));
        assert_eq!(all.len(), 3);
        assert_eq!(parts.len(), 3);
        for i in 0..3 {
            assert_eq!(all[i].head, parts[i].head);
            assert_eq!(all[i].body, parts[i].body);
            assert_eq!(all[i].is_request, parts[i].is_request);
            assert_eq!(all[i].was_chunked, parts[i].was_chunked);
        }
    }
}

#[test]
fn pipelined_message_starts_in_the_event_that_brought_it() {
    let mut t = Http1Tracker::default();
    assert!(messages(t.feed(&at(1), 3, 1, b"POST /a HTTP/1.1\r\nContent-Length: 3\r\n\r\na")).is_empty());
    let done = messages(t.feed(&at(2), 3, 1, b"bcGET /b HTTP/1.1\r\nHost"));
    assert_eq!(done.len(), 1);
    assert_eq!(done[0].first_event.timestamp, 1);
    let done = messages(t.feed(&at(3), 3, 1, b": h\r\n\r\n"));
    assert_eq!(done.len(), 1);
    assert_eq!(done[0].head, b"GET /b HTTP/1.1\r\nHost: h");
    assert_eq!(done[0].first_event.timestamp, 2);
    assert_eq!(done[0].last_timestamp, 3);
}

#[test]
fn begun_message_goes_on_over_several_events() {
    let mut t = Http1Tracker::default();
    let done = messages(t.feed(&at(1), 3, 0, &[&b"HTTP/1.1 204 No Content\r\n\r\n"[..], &CHUNKED[..3]].concat()));
    assert_eq!(done.len(), 1);
    assert!(messages(t.feed(&at(2), 3, 0, &CHUNKED[3..50])).is_empty());
    assert!(messages(t.feed(&at(3), 3, 0, &CHUNKED[50..70])).is_empty());
    let done = messages(t.feed(&at(4), 3, 0, &CHUNKED[70..]));
    assert_eq!(done.len(), 1);
    assert_eq!(done[0].body, b"hello world");
    assert_eq!(done[0].first_event.timestamp, 1);
    assert_eq!(done[0].last_timestamp, 4);
}

#[test]
fn refused_bytes_leave_no_trace() {
    let mut t = Http1Tracker::default();
    assert!(refused(t.feed(&at(1), 3, 0, b"HTTP/2 200\r\n\r\n")));
    assert!(refused(t.feed(&at(1), 3, 0, b"")));
    let done = messages(t.feed(&at(2), 3, 0, b"HTTP/1.1 204 No Content\r\n\r\n"));
    assert_eq!(done.len(), 1);
    assert_eq!(done[0].first_event.timestamp, 2);
    assert!(refused(t.feed(&at(3), 3, 0, b"left over")));
}

#[test]
fn empty_event_in_the_middle_changes_nothing() {
    let mut t = Http1Tracker::default();
    assert!(messages(t.feed(&at(1), 3, 0, b"HTTP/1.1 200 OK\r\nContent-Length: 2\r\n\r\n")).is_empty());
    assert!(messages(t.feed(&at(2), 3, 0, b"")).is_empty());
    let done = messages(t.feed(&at(3), 3, 0, b"ok"));
    assert_eq!(done[0].body, b"ok");
    assert_eq!(done[0].first_event.timestamp, 1);
}

#[test]
fn body_of_unknown_length_is_what_came_with_the_head() {
    let mut t = Http1Tracker::default();
    let done = messages(t.feed(&at(1), 3, 0, b"HTTP/1.1 200 OK\r\n\r\npart"));
    assert_eq!(done.len(), 1);
    assert_eq!(done[0].body, b"part");
    assert!(refused(t.feed(&at(2), 3, 0, b"more")));
}

#[test]
fn announced_body_above_the_largest_is_dropped_whole() {
    for length in [
        (MAX_HTTP1_MESSAGE_BYTES + 1).to_string(),
        "99999999999999999999999999".to_string(),
    ] {
        let mut t = Http1Tracker::default();
        let head = format!("HTTP/1.1 200 OK\r\nContent-Length: {length}\r\n\r\nstart");
        assert!(messages(t.feed(&at(1), 3, 0, head.as_bytes())).is_empty());
        assert!(refused(t.feed(&at(2), 3, 0, b"and so on")));
        let done = messages(t.feed(&at(3), 3, 0, b"HTTP/1.1 200 OK\r\nContent-Length: 1\r\n\r\nx"));
        assert_eq!(done.len(), 1);
    }
}

#[test]
fn largest_body_is_kept() {
    let mut t = Http1Tracker::default();
    let head = format!("HTTP/1.1 200 OK\r\nContent-Length: {MAX_HTTP1_MESSAGE_BYTES}\r\n\r\n");
    assert!(messages(t.feed(&at(1), 3, 0, head.as_bytes())).is_empty());
    let half = vec![7u8; MAX_HTTP1_MESSAGE_BYTES / 2];
    assert!(messages(t.feed(&at(2), 3, 0, &half)).is_empty());
    let done = messages(t.feed(&at(3), 3, 0, &half));
    assert_eq!(done.len(), 1);
    assert_eq!(done[0].body.len(), MAX_HTTP1_MESSAGE_BYTES);
}

#[test]
fn chunk_above_the_largest_body_is_dropped_whole() {
    for size in [
        format!("{:x}", MAX_HTTP1_MESSAGE_BYTES),
        "ffffffffffffffff".to_string(),
        "fffffffffffffffffffffff".to_string(),
    ] {
        let mut t = Http1Tracker::default();
        let bytes = format!(
            "HTTP/1.1 200 OK\r\nTransfer-Encoding: chunked\r\n\r\n1\r\nx\r\n{size}\r\nabc"
        );
        assert!(messages(t.feed(&at(1), 3, 0, bytes.as_bytes())).is_empty());
        assert!(refused(t.feed(&at(2), 3, 0, b"0\r\n\r\n")));
    }
}

#[test]
fn more_than_a_stream_may_hold_is_dropped() {
    let mut t = Http1Tracker::default();
    assert!(messages(t.feed(&at(1), 3, 0, b"HTTP/1.1 200 OK\r\nContent-Length: 5\r\n\r\n")).is_empty());
    let flood = vec![b'x'; MAX_HTTP1_MESSAGE_BYTES + MAX_HTTP1_HEAD_BYTES + 1];
    assert!(messages(t.feed(&at(2), 3, 0, &flood)).is_empty());
    assert!(refused(t.feed(&at(3), 3, 0, b"hello")));
}

#[test]
fn unreadable_streams_start_over() {
    let long_head = [b"GET /".to_vec(), vec![b'a'; MAX_HTTP1_HEAD_BYTES]].concat();
    let chunked = b"HTTP/1.1 200 OK\r\nTransfer-Encoding: chunked\r\n\r\n";
    let long_line = [chunked.to_vec(), vec![b'1'; 1025]].concat();
    let bad_end = [chunked.to_vec(), b"2\r\nabXY".to_vec()].concat();
    let bad_size = [chunked.to_vec(), b"-1\r\n".to_vec()].concat();
    for bytes in [long_head, long_line, bad_end, bad_size] {
        let mut t = Http1Tracker::default();
        assert!(messages(t.feed(&at(1), 3, 0, &bytes)).is_empty());
        let done = messages(t.feed(&at(2), 3, 0, b"HTTP/1.1 200 OK\r\nContent-Length: 1\r\n\r\nx"));
        assert_eq!(done.len(), 1);
        assert_eq!(done[0].body, b"x");
        assert_eq!(done[0].first_event.timestamp, 2);
    }
    // What follows a message must be a message.
    let mut t = Http1Tracker::default();
    let done = messages(t.feed(&at(1), 3, 1, b"GET / HTTP/1.1\r\n\r\nnonsense\r\n\r\n"));
    assert_eq!(done.len(), 1);
    assert!(refused(t.feed(&at(2), 3, 1, b"nonsense")));
}

#[test]
fn lines_at_their_bounds_are_waited_for() {
    let chunked = b"HTTP/1.1 200 OK\r\nTransfer-Encoding: chunked\r\n\r\n".to_vec();
    let mut t = Http1Tracker::default();
    let line = [b"1;".to_vec(), vec![b'e'; 1022]].concat();
    assert!(messages(t.feed(&at(1), 3, 0, &[chunked, line].concat())).is_empty());
    let done = messages(t.feed(&at(2), 3, 0, b"\r\nz\r\n0\r\n\r\n"));
    assert_eq!(done[0].body, b"z");

    let mut t = Http1Tracker::default();
    let start = b"GET / HTTP/1.1\r\nX: ".to_vec();
    let fill = vec![b'y'; MAX_HTTP1_HEAD_BYTES - start.len()];
    assert!(messages(t.feed(&at(1), 3, 1, &[start, fill].concat())).is_empty());
    assert_eq!(messages(t.feed(&at(2), 3, 1, b"\r\n\r\n")).len(), 1);
}

#[test]
fn responses_answer_requests_in_order() {
    let mut t = Http1Tracker::default();
    let asked = messages(t.feed(
        &at(1),
        3,
        1,
        b"GET /a HTTP/1.1\r\n\r\nHEAD /b HTTP/1.1\r\n\r\nGET /c HTTP/1.1\r\n\r\n",
    ));
    assert_eq!(asked.len(), 3);
    let answered = messages(t.feed(
        &at(2),
        3,
        0,
        b"HTTP/1.1 200 OK\r\nContent-Length: 1\r\n\r\naHTTP/1.1 200 OK\r\nContent-Length: 9\r\n\r\nHTTP/1.1 200 OK\r\nContent-Length: 1\r\n\r\nc",
    ));
    assert_eq!(answered.len(), 3);
    assert_eq!(answered[0].body, b"a");
    assert_eq!(answered[1].body, b"");
    assert_eq!(answered[2].body, b"c");
}

#[test]
fn upgraded_connection_is_left_in_both_directions() {
    let mut t = Http1Tracker::default();
    assert!(messages(t.feed(&at(1), 3, 1, b"POST /half HTTP/1.1\r\nContent-Length: 9\r\n\r\n")).is_empty());
    let done = messages(t.feed(&at(2), 3, 0, b"HTTP/1.1 101 Switching Protocols\r\n\r\n\x81\x05"));
    assert_eq!(done.len(), 1);
    assert!(done[0].body.is_empty());
    assert!(refused(t.feed(&at(3), 3, 1, b"123456789")));
    assert!(refused(t.feed(&at(4), 3, 0, b"HTTP/1.1 200 OK\r\n\r\n")));
    // Another connection is not touched.
    assert_eq!(messages(t.feed(&at(5), 4, 1, b"GET / HTTP/1.1\r\n\r\n")).len(), 1);
    // A request that looks like such a response is none.
    let mut t = Http1Tracker::default();
    assert_eq!(messages(t.feed(&at(1), 3, 1, b"GET 101 HTTP/1.1\r\n\r\n")).len(), 1);
    assert!(!refused(t.feed(&at(2), 3, 1, b"GET / HTTP/1.1\r\n\r\n")));
}

#[test]
fn directions_and_connections_are_kept_apart() {
    let mut t = Http1Tracker::default();
    let half = b"POST / HTTP/1.1\r\nContent-Length: 2\r\n\r\n";
    assert!(messages(t.feed(&at(1), 3, 1, half)).is_empty());
    assert!(messages(t.feed(&at(2), 4, 1, half)).is_empty());
    assert!(messages(t.feed(&at(3), 3, 0, b"HTTP/1.1 200 OK\r\nContent-Length: 2\r\n\r\n")).is_empty());
    let mut other_pid = at(4);
    other_pid.pid = 2;
    assert!(refused(t.feed(&other_pid, 3, 1, b"zz")));
    assert_eq!(messages(t.feed(&at(5), 4, 1, b"bb"))[0].body, b"bb");
    assert_eq!(messages(t.feed(&at(6), 3, 0, b"cc"))[0].body, b"cc");
    assert_eq!(messages(t.feed(&at(7), 3, 1, b"aa"))[0].body, b"aa");
}

#[test]
fn oldest_stream_makes_room() {
    let mut t = Http1Tracker::default();
    let half = b"POST / HTTP/1.1\r\nContent-Length: 2\r\n\r\n";
    for conn in 0..MAX_HTTP1_STREAMS as u64 {
        assert!(messages(t.feed(&at(100 + conn), conn, 1, half)).is_empty());
    }
    // The first stream is seen again, so the second is the oldest.
    assert!(messages(t.feed(&at(5000), 0, 1, b"a")).is_empty());
    assert!(messages(t.feed(&at(5001), 9999, 1, half)).is_empty());
    assert!(refused(t.feed(&at(5002), 1, 1, b"bb")));
    assert_eq!(messages(t.feed(&at(5003), 0, 1, b"b"))[0].body, b"ab");
    assert_eq!(messages(t.feed(&at(5004), 2, 1, b"cc"))[0].body, b"cc");
    assert_eq!(messages(t.feed(&at(5005), 9999, 1, b"dd"))[0].body, b"dd");
}

#[test]
fn queues_of_too_many_connections_are_dropped_with_a_stream() {
    let mut t = Http1Tracker::default();
    let n = MAX_HTTP1_STREAMS as u64;
    for conn in 0..n + 1 {
        assert_eq!(messages(t.feed(&at(conn), conn, 1, b"HEAD / HTTP/1.1\r\n\r\n")).len(), 1);
    }
    // Queues are kept for one connection too many; the next new stream drops them all.
    let answer = b"HTTP/1.1 200 OK\r\nContent-Length: 1\r\n\r\nx";
    let done = messages(t.feed(&at(n + 1), n, 0, answer));
    assert_eq!(done.len(), 1);
    assert_eq!(done[0].body, b"x");
}
