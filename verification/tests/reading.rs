use http1_stream::bytes::{
    eq_ignore_case, find, last_part, read_number, starts_with, to_lower, trim, SPACE,
};
use http1_stream::connections::{HeadRequests, Upgraded};
use http1_stream::head::{
    frame_request, frame_response, head_is_head_request, head_is_request, header_value,
    read_chunk_size, starts_like_http1, status_code, Framing,
};
use http1_stream::stream::{Phase, Step, Stream};
use http1_stream::streams::Streams;
use http1_stream::Http1Tracker;

#[test]
fn find_gives_the_first_occurrence() {
    assert_eq!(find(b"abcabc", b"bc"), Some(1));
    assert_eq!(find(b"\r\r\n\r\n", b"\r\n\r\n"), Some(1));
    assert_eq!(find(b"abc", b"abcd"), None);
    assert_eq!(find(b"", b"a"), None);
    assert_eq!(find(b"abc", b"abc"), Some(0));
}

#[test]
fn trim_takes_blanks_and_tabs_off_both_ends() {
    assert_eq!(trim(b" \t a b\t "), b"a b");
    assert_eq!(trim(b"\t \t"), b"");
    assert_eq!(trim(b"\ra\n"), b"\ra\n");
}

#[test]
fn last_part_is_what_follows_the_last_separator() {
    assert_eq!(last_part(b"/ HTTP/1.1", SPACE), b"HTTP/1.1");
    assert_eq!(last_part(b"a b c", SPACE), b"c");
    assert_eq!(last_part(b"abc", SPACE), b"abc");
    assert_eq!(last_part(b"a ", SPACE), b"");
    assert_eq!(last_part(b"", SPACE), b"");
}

#[test]
fn numbers_are_read_as_std_reads_them() {
    assert_eq!(read_number(b"0042", 10), Some(42));
    assert_eq!(read_number(b"+7", 10), Some(7));
    assert_eq!(read_number(b"+", 10), None);
    assert_eq!(read_number(b"", 10), None);
    assert_eq!(read_number(b"-1", 10), None);
    assert_eq!(read_number(b"1 ", 10), None);
    assert_eq!(read_number(b"12a", 10), None);
    assert_eq!(read_number(b"fF", 16), Some(255));
    assert_eq!(read_number(b"+A", 16), Some(10));
    assert_eq!(read_number(b"g", 16), None);
    assert_eq!(read_number(b"18446744073709551615", 10), Some(usize::MAX));
    assert_eq!(read_number(b"18446744073709551616", 10), Some(usize::MAX));
    assert_eq!(read_number(b"99999999999999999999x", 10), None);
}

#[test]
fn letters_are_lowered_and_compared_without_case() {
    assert_eq!(to_lower(b"AZaz@[09\xC3"), b"azaz@[09\xC3");
    assert!(eq_ignore_case(b"Content-Length", b"content-LENGTH"));
    assert!(!eq_ignore_case(b"content-length", b"content-lengths"));
    assert!(!eq_ignore_case(b"@", b"`"));
    assert!(starts_with(b"HEAD /", b"HEAD "));
    assert!(!starts_with(b"HEA", b"HEAD "));
    assert!(starts_with(b"", b""));
}

#[test]
fn http1_is_recognised_by_its_start() {
    for method in [
        "GET", "POST", "PUT", "PATCH", "DELETE", "HEAD", "OPTIONS", "CONNECT", "TRACE",
    ] {
        assert!(starts_like_http1(format!("{method} / HTTP/1.1\r\nHost: h").as_bytes()));
        assert!(!starts_like_http1(format!("{method} / HTTP/2\r\nHost: h").as_bytes()));
        // The request line has not come whole.
        assert!(starts_like_http1(format!("{method} /pa").as_bytes()));
        assert!(!starts_like_http1(method.as_bytes()));
    }
    // The last word of the request line must name the version, wherever else it names one.
    assert!(!starts_like_http1(b"GET /HTTP/1.1 HTTP/2 \r\n"));
    assert!(!starts_like_http1(b"GET /HTTP/1.1 HTTP/2\r\n"));
    assert!(!starts_like_http1(b"GET / HTTP/1.1 HTTP/2\r\n\r\n"));
    assert!(!starts_like_http1(b"GET /HTTP/1.1 x\r\n"));
    assert!(!starts_like_http1(b"GET / HTTP/2\r\nX: HTTP/1.1\r\n\r\n"));
    assert!(starts_like_http1(b"GET /HTTP/2 HTTP/1.0\r\n"));
    assert!(starts_like_http1(b"GET / HTTP/1.1 \t \r\n"));
    assert!(starts_like_http1(b"GET /xHTTP/1.1\r\n"));
    assert!(starts_like_http1(b"GET /\tHTTP/1.1\r\n"));
    assert!(starts_like_http1(b"GET /a b HTTP/1.1\r\n"));
    assert!(starts_like_http1(b"GET /HTTP/1.1 HTTP/2"));
    assert!(starts_like_http1(b"HTTP/1.0 200 OK\r\n"));
    assert!(!starts_like_http1(b"HTTP/2 200\r\n"));
    assert!(!starts_like_http1(b"BREW /pot HTTP/1.1\r\n"));
    assert!(!starts_like_http1(b""));
    assert!(!starts_like_http1(b"get / HTTP/1.1\r\n"));
}

#[test]
fn header_values_are_found() {
    let head = b"GET /x:y HTTP/1.1\r\nHOST:  example.org \t\r\nno colon here\r\nHost: other\r\nEmpty:\r\nLast: 1";
    assert_eq!(header_value(head, "host"), Some(&b"example.org"[..]));
    assert_eq!(header_value(head, "Empty"), Some(&b""[..]));
    assert_eq!(header_value(head, "last"), Some(&b"1"[..]));
    assert_eq!(header_value(head, "get /x"), None);
    assert_eq!(header_value(head, "missing"), None);
    assert_eq!(header_value(b"A: b", "a"), None);
    assert_eq!(header_value(b"x\nA: b\n", "a"), Some(&b"b"[..]));
}

#[test]
fn status_codes_are_read() {
    assert_eq!(status_code(b"HTTP/1.1 204 No Content\r\nA: b"), Some(204));
    assert_eq!(status_code(b"HTTP/1.1 304"), Some(304));
    assert_eq!(status_code(b"HTTP/1.1 +101 X"), Some(101));
    assert_eq!(status_code(b"HTTP/1.1"), None);
    assert_eq!(status_code(b"HTTP/1.1  200"), None);
    assert_eq!(status_code(b"HTTP/1.1 65535"), Some(65535));
    assert_eq!(status_code(b"HTTP/1.1 65536"), None);
    assert_eq!(status_code(b"HTTP/1.1\r\n200 OK"), None);
}

#[test]
fn chunk_sizes_are_read() {
    assert_eq!(read_chunk_size(b"5"), Some(5));
    assert_eq!(read_chunk_size(b" 1F\t;name=value;x"), Some(31));
    assert_eq!(read_chunk_size(b"0"), Some(0));
    assert_eq!(read_chunk_size(b""), None);
    assert_eq!(read_chunk_size(b";5"), None);
    assert_eq!(read_chunk_size(b"zz"), None);
}

#[test]
fn framing_follows_the_head() {
    assert!(matches!(frame_request(b"GET / HTTP/1.1"), Framing::Empty));
    assert!(matches!(
        frame_request(b"POST / HTTP/1.1\r\nContent-Length: 0"),
        Framing::Empty
    ));
    assert!(matches!(
        frame_request(b"POST / HTTP/1.1\r\nContent-Length: 12"),
        Framing::Length(12)
    ));
    assert!(matches!(
        frame_request(b"POST / HTTP/1.1\r\nContent-Length: x"),
        Framing::Empty
    ));
    assert!(matches!(
        frame_request(b"POST / HTTP/1.1\r\nContent-Length: 1\r\nTransfer-Encoding: gzip, Chunked"),
        Framing::Chunked
    ));
    assert!(matches!(
        frame_response(b"HTTP/1.1 200 OK", false),
        Framing::UntilClose
    ));
    assert!(matches!(
        frame_response(b"HTTP/1.1 what\r\nContent-Length: 3", false),
        Framing::Length(3)
    ));
    assert!(matches!(
        frame_response(b"HTTP/1.1 200 OK\r\nContent-Length: 0", false),
        Framing::Empty
    ));
    assert!(matches!(
        frame_response(b"HTTP/1.1 200 OK\r\nTransfer-Encoding: chunked", false),
        Framing::Chunked
    ));
    for code in [100, 101, 199, 204, 304] {
        let head = format!("HTTP/1.1 {code} X\r\nContent-Length: 9");
        assert!(matches!(frame_response(head.as_bytes(), false), Framing::Empty));
    }
    assert!(matches!(
        frame_response(b"HTTP/1.1 200 OK\r\nContent-Length: 9", true),
        Framing::Empty
    ));
    assert!(head_is_request(b"GET / HTTP/1.1"));
    assert!(!head_is_request(b"HTTP/1.1 200 OK"));
    assert!(head_is_head_request(b"HEAD / HTTP/1.1"));
    assert!(!head_is_head_request(b"GET / HTTP/1.1"));
}

#[test]
fn queues_give_back_in_order() {
    let conn = (1, 2);
    let mut requests = HeadRequests::new();
    assert!(!requests.pop(conn));
    assert_eq!(requests.len(), 0);
    requests.push(conn, false);
    requests.push(conn, true);
    requests.push((1, 3), true);
    assert_eq!(requests.len(), 2);
    assert!(!requests.pop(conn));
    assert!(requests.pop(conn));
    assert!(!requests.pop(conn));
    assert_eq!(requests.len(), 2);
    requests.clear();
    assert_eq!(requests.len(), 0);
    assert!(!requests.pop((1, 3)));
}

#[test]
fn upgraded_connections_are_told_apart() {
    let mut upgraded = Upgraded::new();
    upgraded.insert((1, u64::MAX));
    assert!(upgraded.contains((1, u64::MAX)));
    assert!(!upgraded.contains((2, u64::MAX)));
    assert!(!upgraded.contains((1, 0)));
    assert!(!upgraded.contains((2, 0)));
}

#[test]
fn streams_are_kept_by_key() {
    let mut streams = Streams::new();
    for (key, seen) in [((1, 2, 0), 9), ((1, 2, 255), 4), ((1, 3, 0), 7)] {
        let mut stream = Stream::new();
        stream.last_seen = seen;
        streams.put(key, stream);
    }
    assert_eq!(streams.len(), 3);
    assert!(streams.is_idle((1, 2, 0)));
    assert!(streams.is_idle((9, 9, 9)));
    streams.remove_oldest();
    assert!(!streams.contains((1, 2, 255)));
    streams.remove_connection((1, 2));
    assert!(!streams.contains((1, 2, 0)));
    assert!(streams.contains((1, 3, 0)));
    assert_eq!(streams.take((1, 3, 0)).last_seen, 7);
    assert_eq!(streams.len(), 0);
    assert_eq!(streams.take((1, 3, 0)).last_seen, 0);
}

#[test]
fn a_reset_stream_keeps_when_it_was_seen() {
    let mut stream = Stream::new();
    assert!(stream.idle());
    stream.buf.extend_from_slice(b"GET");
    stream.last_seen = 5;
    assert!(!stream.idle());
    stream.phase = Phase::ChunkSize;
    stream.chunked = true;
    stream.reset();
    assert!(stream.idle());
    assert!(!stream.chunked);
    assert_eq!(stream.last_seen, 5);
}

#[test]
fn a_step_reads_as_far_as_the_bytes_go() {
    let conn = (1, 2);
    let mut requests = HeadRequests::new();
    let mut stream = Stream::new();
    stream.buf.extend_from_slice(b"POST / HTTP/1.1\r\nContent-Length: 4\r\n\r\nab");
    let step = Http1Tracker::step(&mut stream, &mut requests, conn);
    assert!(matches!(step, Step::NeedMore));
    assert!(matches!(stream.phase, Phase::Fixed(2)));
    assert_eq!(stream.body, b"ab");
    assert_eq!(requests.len(), 1);
    stream.buf.extend_from_slice(b"cdGET");
    let step = Http1Tracker::step(&mut stream, &mut requests, conn);
    assert!(matches!(step, Step::Complete));
    assert_eq!(stream.body, b"abcd");
    assert_eq!(stream.buf, b"GET");

    let mut stream = Stream::new();
    stream.buf.extend_from_slice(b"nonsense\r\n\r\n");
    let step = Http1Tracker::step(&mut stream, &mut requests, conn);
    assert!(matches!(step, Step::Error));
}

#[test]
fn a_step_holds_chunks_to_the_largest_body() {
    let conn = (1, 5);
    let mut requests = HeadRequests::new();
    let mut stream = Stream::new();
    stream.phase = Phase::ChunkSize;
    stream.buf.extend_from_slice(b"2000000\r\n");
    let step = Http1Tracker::step(&mut stream, &mut requests, conn);
    assert!(matches!(step, Step::NeedMore));
    assert!(matches!(stream.phase, Phase::ChunkData(33554432)));

    let mut stream = Stream::new();
    stream.phase = Phase::ChunkSize;
    stream.buf.extend_from_slice(b"2000001\r\n");
    let step = Http1Tracker::step(&mut stream, &mut requests, conn);
    assert!(matches!(step, Step::Error));

    let mut stream = Stream::new();
    stream.phase = Phase::ChunkSize;
    stream.body.extend_from_slice(b"x");
    stream.buf.extend_from_slice(b"2000000\r\n");
    let step = Http1Tracker::step(&mut stream, &mut requests, conn);
    assert!(matches!(step, Step::Error));
}
