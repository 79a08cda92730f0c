use http1_stream::head::starts_like_http1;
use http1_stream::{Event, Feed, Http1Message, Http1Tracker};

fn ev(ts: u64) -> Event {
    Event::new_with_timestamp(ts, "ssl".into(), 1, "t".into(), "{}".into())
}

fn consumed(f: Feed) -> Vec<Http1Message> {
    match f {
        Feed::Consumed(m) => m,
        Feed::NotHttp1 => panic!("expected Consumed"),
    }
}

#[test]
fn request_body_split_across_writes() {
    let mut t = Http1Tracker::default();
    let body = vec![0xC3u8; 40_000];
    let mut bytes = format!(
        "POST /v1/messages HTTP/1.1\r\nContent-Length: {}\r\n\r\n",
        body.len()
    )
    .into_bytes();
    bytes.extend(&body);
    let mut out = Vec::new();
    for (i, part) in bytes.chunks(16384).enumerate() {
        out.extend(consumed(t.feed(&ev(i as u64), 7, 1, part)));
    }
    assert_eq!(out.len(), 1);
    assert!(out[0].is_request);
    assert_eq!(out[0].body, body);
    assert_eq!(out[0].first_event.timestamp, 0);
}

#[test]
fn chunked_response_interleaved_with_other_connection() {
    let mut t = Http1Tracker::default();
    let a = b"HTTP/1.1 200 OK\r\nTransfer-Encoding: chunked\r\n\r\n5\r\nhello\r\n";
    let b = b"HTTP/1.1 200 OK\r\nContent-Length: 2\r\n\r\n{}";
    let a2 = b"6\r\n world\r\n0\r\n\r\n";
    assert!(consumed(t.feed(&ev(1), 10, 0, a)).is_empty());
    let other = consumed(t.feed(&ev(2), 20, 0, b));
    assert_eq!(other.len(), 1);
    assert_eq!(other[0].body, b"{}");
    let done = consumed(t.feed(&ev(3), 10, 0, a2));
    assert_eq!(done.len(), 1);
    assert_eq!(done[0].body, b"hello world");
    assert!(done[0].was_chunked);
    assert_eq!(done[0].last_timestamp, 3);
}

#[test]
fn head_response_and_no_body_statuses() {
    let mut t = Http1Tracker::default();
    assert_eq!(
        consumed(t.feed(&ev(1), 5, 1, b"HEAD /x HTTP/1.1\r\nHost: h\r\n\r\n")).len(),
        1
    );
    let r = consumed(t.feed(
        &ev(2),
        5,
        0,
        b"HTTP/1.1 200 OK\r\nContent-Length: 99\r\n\r\n",
    ));
    assert_eq!(r.len(), 1);
    assert!(r[0].body.is_empty());
    let r = consumed(t.feed(&ev(3), 5, 0, b"HTTP/1.1 304 Not Modified\r\n\r\n"));
    assert_eq!(r.len(), 1);
}

#[test]
fn pipelined_messages_in_one_event() {
    let mut t = Http1Tracker::default();
    let bytes =
        b"GET /a HTTP/1.1\r\nHost: h\r\n\r\nPOST /b HTTP/1.1\r\nContent-Length: 3\r\n\r\nabc";
    let out = consumed(t.feed(&ev(1), 5, 1, bytes));
    assert_eq!(out.len(), 2);
    assert_eq!(out[1].body, b"abc");
}

#[test]
fn mid_stream_and_http2_are_not_http1() {
    let mut t = Http1Tracker::default();
    assert!(matches!(t.feed(&ev(1), 5, 0, b"\x1f\x8b\x08garbage"), Feed::NotHttp1));
    assert!(matches!(
        t.feed(&ev(2), 5, 1, b"PRI * HTTP/2.0\r\n\r\nSM\r\n\r\n"),
        Feed::NotHttp1
    ));
    assert!(!starts_like_http1(b"GET / HTTP/2\r\n"));
}

#[test]
fn upgrade_hands_connection_back() {
    let mut t = Http1Tracker::default();
    consumed(t.feed(&ev(1), 5, 1, b"GET /ws HTTP/1.1\r\nUpgrade: websocket\r\n\r\n"));
    let r = consumed(t.feed(&ev(2), 5, 0, b"HTTP/1.1 101 Switching Protocols\r\n\r\n"));
    assert_eq!(r.len(), 1);
    assert!(matches!(
        t.feed(&ev(3), 5, 1, b"GET /not-http-anymore HTTP/1.1\r\n\r\n"),
        Feed::NotHttp1
    ));
}

#[test]
fn bad_chunk_size_resets_stream() {
    let mut t = Http1Tracker::default();
    let out = consumed(t.feed(
        &ev(1),
        5,
        0,
        b"HTTP/1.1 200 OK\r\nTransfer-Encoding: chunked\r\n\r\nzz\r\n",
    ));
    assert!(out.is_empty());
    // Next message on the connection is framed normally again.
    let out = consumed(t.feed(&ev(2), 5, 0, b"HTTP/1.1 200 OK\r\nContent-Length: 1\r\n\r\nx"));
    assert_eq!(out.len(), 1);
}
