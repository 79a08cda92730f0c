//! What the head of a message (its start line and header fields) says.

use crate::bytes;
use crate::bytes::{eq_ignore_case, find, last_part, literal, read_number, starts_with};
use crate::bytes::{to_lower, trim};
use crate::bytes::{COLON, CR, LF, SEMICOLON, SPACE};
use vstd::prelude::*;

verus! {

/// The bytes that end a line.
pub open spec fn crlf() -> Seq<u8> {
    seq![CR, LF]
}

/// The bytes that end a head: the end of its last line and a blank line.
pub open spec fn blank_line() -> Seq<u8> {
    seq![CR, LF, CR, LF]
}

/// The methods that a request line may begin with.
pub open spec fn methods() -> Seq<Seq<char>> {
    seq![
        "GET "@,
        "POST "@,
        "PUT "@,
        "PATCH "@,
        "DELETE "@,
        "HEAD "@,
        "OPTIONS "@,
        "CONNECT "@,
        "TRACE "@,
    ]
}

/// The last word of `line`, which blanks may follow, names HTTP/1.x.
pub open spec fn ends_in_http1(line: Seq<u8>) -> bool {
    bytes::occurs(
        bytes::split(bytes::trimmed(line), SPACE).last(),
        bytes::ascii("HTTP/1."@),
    )
}

/// `text` begins with `method`, and the last word of its first line, if the line is complete, names
/// HTTP/1.x.
pub open spec fn requests_by(text: Seq<u8>, method: Seq<u8>) -> bool {
    &&& method.is_prefix_of(text)
    &&& match bytes::position(text, crlf()) {
        Some(end) => ends_in_http1(text.subrange(method.len() as int, end)),
        None => true,
    }
}

/// `text` looks like the start of an HTTP/1.x response or request.
pub open spec fn looks_like_http1(text: Seq<u8>) -> bool {
    ||| bytes::ascii("HTTP/1."@).is_prefix_of(text)
    ||| exists|k: int|
        0 <= k < methods().len() && requests_by(text, bytes::ascii(#[trigger] methods()[k]))
}

/// `head` is the head of an HTTP/1.x message: a blank line behind it is the first one.
pub open spec fn is_head(head: Seq<u8>) -> bool {
    &&& bytes::position(head + blank_line(), blank_line()) == Some(head.len() as int)
    &&& looks_like_http1(head + blank_line())
}

/// A method is not empty, and no line ends in it.
proof fn lemma_methods()
    ensures
        methods().len() == 9,
        forall|k: int|
            #![trigger methods()[k]]
            0 <= k < 9 ==> bytes::ascii(methods()[k]).len() > 0 && !bytes::ascii(
                methods()[k],
            ).contains(CR) && vstd::utf8::is_ascii_chars(methods()[k]),
{
    reveal_strlit("GET ");
    reveal_strlit("POST ");
    reveal_strlit("PUT ");
    reveal_strlit("PATCH ");
    reveal_strlit("DELETE ");
    reveal_strlit("HEAD ");
    reveal_strlit("OPTIONS ");
    reveal_strlit("CONNECT ");
    reveal_strlit("TRACE ");
}

/// No bytes at all begin no message.
pub proof fn lemma_empty_is_no_message()
    ensures
        !looks_like_http1(Seq::empty()),
{
    reveal_strlit("HTTP/1.");
    lemma_methods();
}

proof fn lemma_prefix_extended(prefix: Seq<u8>, text: Seq<u8>, more: Seq<u8>, i: int)
    requires
        !prefix.contains(CR),
        0 <= i < text.len(),
        text[i] == CR,
    ensures
        prefix.is_prefix_of(text + more) == prefix.is_prefix_of(text),
{
    if prefix.len() <= text.len() {
        assert((text + more).subrange(0, prefix.len() as int) =~= text.subrange(
            0,
            prefix.len() as int,
        ));
    } else if prefix.is_prefix_of(text + more) {
        assert(prefix[i] == (text + more).subrange(0, prefix.len() as int)[i]);
        assert(prefix.contains(CR));
    }
}

/// Once the first line is complete, bytes that follow do not change what it looks like.
pub proof fn lemma_looks_like_extended(text: Seq<u8>, more: Seq<u8>)
    requires
        bytes::position(text, crlf()) is Some,
    ensures
        looks_like_http1(text + more) == looks_like_http1(text),
{
    reveal_strlit("HTTP/1.");
    lemma_methods();
    bytes::lemma_position(text, crlf());
    bytes::lemma_position_extended(text, more, crlf());
    let end: int = bytes::position(text, crlf())->0;
    assert(text.subrange(end, end + 2)[0] == CR);
    lemma_prefix_extended(bytes::ascii("HTTP/1."@), text, more, end);
    assert forall|k: int| 0 <= k < methods().len() implies requests_by(
        text + more,
        bytes::ascii(#[trigger] methods()[k]),
    ) == requests_by(text, bytes::ascii(methods()[k])) by {
        let method = bytes::ascii(methods()[k]);
        lemma_prefix_extended(method, text, more, end);
        if method.is_prefix_of(text) {
            if end < method.len() {
                assert(method[end] == text.subrange(0, method.len() as int)[end]);
                assert(method.contains(CR));
            }
            assert((text + more).subrange(method.len() as int, end) =~= text.subrange(
                method.len() as int,
                end,
            ));
        }
    }
}

/// A blank line ends a line too.
pub proof fn lemma_blank_line_ends_line(text: Seq<u8>)
    ensures
        bytes::position(text, blank_line()) is Some ==> bytes::position(text, crlf()) is Some,
{
    bytes::lemma_position(text, blank_line());
    bytes::lemma_position(text, crlf());
    if let Some(i) = bytes::position(text, blank_line()) {
        assert(text.subrange(i, i + 2) =~= text.subrange(i, i + 4).subrange(0, 2));
        assert(blank_line().subrange(0, 2) =~= crlf());
        assert(bytes::occurs_at(text, crlf(), i));
    }
}

/// What stands before the first blank line of a message is its head.
pub proof fn lemma_head_before_blank_line(text: Seq<u8>, end: int)
    requires
        bytes::position(text, blank_line()) == Some(end),
        looks_like_http1(text),
    ensures
        is_head(text.take(end)),
{
    bytes::lemma_position(text, blank_line());
    let top = text.take(end) + blank_line();
    let rest = text.skip(end + 4);
    assert(top =~= text.take(end + 4)) by {
        assert(text.take(end + 4).skip(end) =~= text.subrange(end, end + 4));
        assert(text.take(end + 4) =~= text.take(end) + text.take(end + 4).skip(end));
    }
    assert(text =~= top + rest);
    assert(top.subrange(end, end + 4) =~= blank_line());
    assert forall|j: int| 0 <= j < end implies !bytes::occurs_at(top, blank_line(), j) by {
        bytes::lemma_occurs_at_extended(top, rest, blank_line(), j);
    }
    bytes::lemma_position_is(top, blank_line(), end);
    lemma_blank_line_ends_line(top);
    lemma_looks_like_extended(top, rest);
}

/// The method with index `k`.
fn method(k: usize) -> (r: &'static [u8])
    requires
        k < 9,
    ensures
        r@ == bytes::ascii(methods()[k as int]),
        !r@.contains(CR),
{
    proof {
        lemma_methods();
        let _ = methods()[k as int];
    }
    if k == 0 {
        literal("GET ")
    } else if k == 1 {
        literal("POST ")
    } else if k == 2 {
        literal("PUT ")
    } else if k == 3 {
        literal("PATCH ")
    } else if k == 4 {
        literal("DELETE ")
    } else if k == 5 {
        literal("HEAD ")
    } else if k == 6 {
        literal("OPTIONS ")
    } else if k == 7 {
        literal("CONNECT ")
    } else {
        literal("TRACE ")
    }
}

/// Whether these bytes look like the start of an HTTP/1.x message. The last word of a request line
/// that has come whole must name HTTP/1.x.
pub fn starts_like_http1(bytes: &[u8]) -> (r: bool)
    ensures
        r == looks_like_http1(bytes@),
{
    proof {
        reveal_strlit("HTTP/1.");
    }
    let version: &[u8] = literal("HTTP/1.");
    if starts_with(bytes, version) {
        return true;
    }
    let line_end: Option<usize> = find(bytes, &[CR, LF]);
    proof {
        bytes::lemma_position(bytes@, crlf());
    }
    let mut k: usize = 0;
    while k < 9
        invariant
            k <= 9,
            version@ == bytes::ascii("HTTP/1."@),
            version@.len() > 0,
            !version@.is_prefix_of(bytes@),
            bytes::position(bytes@, crlf()) == (match line_end {
                Some(i) => Some(i as int),
                None => None,
            }),
            line_end matches Some(i) ==> bytes::occurs_at(bytes@, crlf(), i as int),
            forall|j: int|
                0 <= j < k ==> !requests_by(bytes@, bytes::ascii(#[trigger] methods()[j])),
        decreases 9 - k,
    {
        let m: &[u8] = method(k);
        if starts_with(bytes, m) {
            match line_end {
                Some(end) => {
                    proof {
                        assert(bytes@.subrange(end as int, end + 2)[0] == CR);
                        if end < m@.len() {
                            assert(m@[end as int] == bytes@[end as int]);
                            assert(m@.contains(CR));
                        }
                    }
                    let line: &[u8] = &bytes[m.len()..end];
                    let word: &[u8] = last_part(trim(line), SPACE);
                    proof {
                        bytes::lemma_position(word@, version@);
                    }
                    if find(word, version).is_some() {
                        assert(requests_by(bytes@, bytes::ascii(methods()[k as int])));
                        return true;
                    }
                },
                None => {
                    assert(requests_by(bytes@, bytes::ascii(methods()[k as int])));
                    return true;
                },
            }
        }
        k = k + 1;
    }
    false
}

/// `line` without the carriage return at its end.
pub open spec fn without_cr(line: Seq<u8>) -> Seq<u8> {
    if line.len() > 0 && line.last() == CR {
        line.drop_last()
    } else {
        line
    }
}

/// The value in a header line, if the line is for the field `name`.
pub open spec fn line_value(line: Seq<u8>, name: Seq<u8>) -> Option<Seq<u8>> {
    match bytes::position(line, seq![COLON]) {
        Some(colon) => if bytes::lowered(line.take(colon)) == bytes::lowered(name) {
            Some(bytes::trimmed(line.skip(colon + 1)))
        } else {
            None
        },
        None => None,
    }
}

/// The value in the first of `lines` that is for the field `name`.
pub open spec fn first_value(lines: Seq<Seq<u8>>, name: Seq<u8>) -> Option<Seq<u8>>
    decreases lines.len(),
{
    if lines.len() == 0 {
        None
    } else {
        match line_value(without_cr(lines[0]), name) {
            Some(value) => Some(value),
            None => first_value(lines.drop_first(), name),
        }
    }
}

/// The value of the field `name` in a head: that of the first line for it behind the start line.
pub open spec fn field_value(head: Seq<u8>, name: Seq<u8>) -> Option<Seq<u8>> {
    first_value(bytes::split(head, LF).drop_first(), name)
}

/// The value in a header line, if the line is for the field `name`.
fn value_in_line<'a>(line: &'a [u8], name: &[u8]) -> (r: Option<&'a [u8]>)
    ensures
        line_value(line@, name@) == (match r {
            Some(value) => Some(value@),
            None => None,
        }),
{
    proof {
        bytes::lemma_position(line@, seq![COLON]);
    }
    assert([COLON]@ =~= seq![COLON]);
    match find(line, &[COLON]) {
        Some(colon) => {
            assert(colon < line.len());
            let before: &[u8] = &line[0..colon];
            let after: &[u8] = &line[colon + 1..line.len()];
            assert(before@ =~= line@.take(colon as int));
            assert(after@ =~= line@.skip(colon + 1));
            if eq_ignore_case(before, name) {
                Some(trim(after))
            } else {
                None
            }
        },
        None => None,
    }
}

/// The value of a header field, without the blanks around it.
pub fn header_value<'a>(head: &'a [u8], name: &str) -> (r: Option<&'a [u8]>)
    ensures
        field_value(head@, vstd::utf8::encode_utf8(name@)) == (match r {
            Some(value) => Some(value@),
            None => None,
        }),
{
    let key: &[u8] = name.as_bytes();
    let mut rest: &[u8] = head;
    let mut in_fields: bool = false;
    assert([LF]@ =~= seq![LF]);
    loop
        invariant
            [LF]@ == seq![LF],
            key@ == vstd::utf8::encode_utf8(name@),
            in_fields ==> field_value(head@, key@) == first_value(
                bytes::split(rest@, LF),
                key@,
            ),
            !in_fields ==> rest@ == head@,
        decreases rest@.len(),
    {
        proof {
            bytes::lemma_position(rest@, seq![LF]);
        }
        let next: Option<usize> = find(rest, &[LF]);
        let end: usize = match next {
            Some(i) => i,
            None => rest.len(),
        };
        let whole: &[u8] = &rest[0..end];
        assert(whole@ =~= rest@.take(end as int));
        assert(next is None ==> whole@ =~= rest@);
        assert(bytes::split(rest@, LF)[0] == whole@);
        if in_fields {
            let line: &[u8] = if end > 0 && whole[end - 1] == CR {
                &whole[0..end - 1]
            } else {
                whole
            };
            assert(line@ =~= without_cr(whole@));
            let value: Option<&[u8]> = value_in_line(line, key);
            if value.is_some() {
                return value;
            }
        }
        match next {
            Some(i) => {
                assert(i < rest.len());
                let after: &[u8] = &rest[i + 1..rest.len()];
                assert(after@ =~= rest@.skip(i + 1));
                assert(bytes::split(rest@, LF).drop_first() =~= bytes::split(after@, LF));
                rest = after;
                in_fields = true;
            },
            None => {
                assert(bytes::split(rest@, LF).drop_first() =~= Seq::<Seq<u8>>::empty());
                assert(first_value(Seq::<Seq<u8>>::empty(), key@) is None);
                return None;
            },
        }
    }
}

/// The first line of a head.
pub open spec fn start_line(head: Seq<u8>) -> Seq<u8> {
    match bytes::position(head, crlf()) {
        Some(end) => head.take(end),
        None => head,
    }
}

/// The status code of a response: the number behind the first space of its start line.
pub open spec fn status(head: Seq<u8>) -> Option<u16> {
    let parts = bytes::split(start_line(head), SPACE);
    if parts.len() < 2 {
        None
    } else {
        match bytes::number(parts[1], 10) {
            Some(n) => if n <= u16::MAX {
                Some(n as u16)
            } else {
                None
            },
            None => None,
        }
    }
}

/// The part of `text` before the first byte `separator`.
fn before<'a>(text: &'a [u8], separator: u8) -> (r: &'a [u8])
    ensures
        r@ == bytes::split(text@, separator)[0],
{
    proof {
        bytes::lemma_position(text@, seq![separator]);
    }
    assert([separator]@ =~= seq![separator]);
    match find(text, &[separator]) {
        Some(i) => {
            let r: &[u8] = &text[0..i];
            assert(r@ =~= text@.take(i as int));
            r
        },
        None => text,
    }
}

/// The status code of a response.
pub fn status_code(head: &[u8]) -> (r: Option<u16>)
    ensures
        r == status(head@),
{
    proof {
        bytes::lemma_position(head@, crlf());
    }
    assert([CR, LF]@ =~= crlf());
    let line_end: usize = match find(head, &[CR, LF]) {
        Some(end) => end,
        None => head.len(),
    };
    let line: &[u8] = &head[0..line_end];
    assert(line@ =~= start_line(head@));
    proof {
        bytes::lemma_position(line@, seq![SPACE]);
    }
    assert([SPACE]@ =~= seq![SPACE]);
    match find(line, &[SPACE]) {
        Some(space) => {
            let rest: &[u8] = &line[space + 1..line.len()];
            assert(rest@ =~= line@.skip(space + 1));
            let code: &[u8] = before(rest, SPACE);
            assert(bytes::split(line@, SPACE)[1] == bytes::split(rest@, SPACE)[0]);
            match read_number(code, 10) {
                Some(n) => if n <= 65535 {
                    Some(n as u16)
                } else {
                    None
                },
                None => None,
            }
        },
        None => None,
    }
}

/// The size that the first line of a chunk gives, in hexadecimal and before any extension.
pub open spec fn chunk_size(line: Seq<u8>) -> Option<usize> {
    match bytes::number(bytes::trimmed(bytes::split(line, SEMICOLON)[0]), 16) {
        Some(n) => Some(bytes::saturated(n)),
        None => None,
    }
}

/// Reads the size that the first line of a chunk gives.
pub fn read_chunk_size(line: &[u8]) -> (r: Option<usize>)
    ensures
        r == chunk_size(line@),
{
    read_number(trim(before(line, SEMICOLON)), 16)
}

/// How the end of a message is known from its head.
pub enum Framing {
    /// It ends with its head.
    Empty,
    /// A body of that many bytes follows.
    Length(usize),
    /// A body in the chunked transfer encoding follows.
    Chunked,
    /// A body follows that ends when the connection closes.
    UntilClose,
}

/// The head is that of a request.
pub open spec fn is_request_head(head: Seq<u8>) -> bool {
    !bytes::ascii("HTTP/"@).is_prefix_of(head)
}

/// The head is that of a request with the method HEAD.
pub open spec fn is_head_request(head: Seq<u8>) -> bool {
    bytes::ascii("HEAD "@).is_prefix_of(head)
}

/// The head announces the chunked transfer encoding.
pub open spec fn is_chunked(head: Seq<u8>) -> bool {
    match field_value(head, bytes::ascii("transfer-encoding"@)) {
        Some(value) => bytes::occurs(bytes::lowered(value), bytes::ascii("chunked"@)),
        None => false,
    }
}

/// The length of the body that the head announces. One that a `usize` cannot hold counts as
/// `usize::MAX`, so that the message is too large rather than of no known length.
pub open spec fn content_length(head: Seq<u8>) -> Option<usize> {
    match field_value(head, bytes::ascii("content-length"@)) {
        Some(value) => match bytes::number(value, 10) {
            Some(n) => Some(bytes::saturated(n)),
            None => None,
        },
        None => None,
    }
}

/// A response with such a status has no body.
pub open spec fn is_bodiless(status: u16) -> bool {
    100 <= status < 200 || status == 204 || status == 304
}

/// How the end of a request is known.
pub open spec fn request_framing(head: Seq<u8>) -> Framing {
    if is_chunked(head) {
        Framing::Chunked
    } else {
        match content_length(head) {
            Some(n) => if n > 0 {
                Framing::Length(n)
            } else {
                Framing::Empty
            },
            None => Framing::Empty,
        }
    }
}

/// How the end of a response is known. `to_head`: it answers a request with the method HEAD.
pub open spec fn response_framing(head: Seq<u8>, to_head: bool) -> Framing {
    let code: u16 = match status(head) {
        Some(code) => code,
        None => 200,
    };
    if to_head || is_bodiless(code) {
        Framing::Empty
    } else if is_chunked(head) {
        Framing::Chunked
    } else {
        match content_length(head) {
            Some(n) => if n > 0 {
                Framing::Length(n)
            } else {
                Framing::Empty
            },
            None => Framing::UntilClose,
        }
    }
}

/// Whether the head is that of a request.
pub fn head_is_request(head: &[u8]) -> (r: bool)
    ensures
        r == is_request_head(head@),
{
    proof {
        reveal_strlit("HTTP/");
    }
    !starts_with(head, literal("HTTP/"))
}

/// Whether the head is that of a request with the method HEAD.
pub fn head_is_head_request(head: &[u8]) -> (r: bool)
    ensures
        r == is_head_request(head@),
{
    proof {
        reveal_strlit("HEAD ");
    }
    starts_with(head, literal("HEAD "))
}

/// Whether the head announces the chunked transfer encoding.
fn announces_chunked(head: &[u8]) -> (r: bool)
    ensures
        r == is_chunked(head@),
{
    proof {
        reveal_strlit("transfer-encoding");
        reveal_strlit("chunked");
        vstd::string::is_ascii_spec_bytes("transfer-encoding");
    }
    assert(vstd::utf8::encode_utf8("transfer-encoding"@) =~= bytes::ascii("transfer-encoding"@));
    match header_value(head, "transfer-encoding") {
        Some(value) => {
            let value: Vec<u8> = to_lower(value);
            let word: &[u8] = literal("chunked");
            proof {
                bytes::lemma_position(value@, word@);
            }
            find(value.as_slice(), word).is_some()
        },
        None => false,
    }
}

/// The length of the body that the head announces.
fn announced_length(head: &[u8]) -> (r: Option<usize>)
    ensures
        r == content_length(head@),
{
    proof {
        reveal_strlit("content-length");
        vstd::string::is_ascii_spec_bytes("content-length");
    }
    assert(vstd::utf8::encode_utf8("content-length"@) =~= bytes::ascii("content-length"@));
    match header_value(head, "content-length") {
        Some(value) => read_number(value, 10),
        None => None,
    }
}

/// How the end of a request is known.
pub fn frame_request(head: &[u8]) -> (r: Framing)
    ensures
        r == request_framing(head@),
{
    if announces_chunked(head) {
        return Framing::Chunked;
    }
    match announced_length(head) {
        Some(n) => if n > 0 {
            Framing::Length(n)
        } else {
            Framing::Empty
        },
        None => Framing::Empty,
    }
}

/// How the end of a response is known. `to_head`: it answers a request with the method HEAD.
pub fn frame_response(head: &[u8], to_head: bool) -> (r: Framing)
    ensures
        r == response_framing(head@, to_head),
{
    let code: u16 = match status_code(head) {
        Some(code) => code,
        None => 200,
    };
    if to_head || (100 <= code && code < 200) || code == 204 || code == 304 {
        return Framing::Empty;
    }
    if announces_chunked(head) {
        return Framing::Chunked;
    }
    match announced_length(head) {
        Some(n) => if n > 0 {
            Framing::Length(n)
        } else {
            Framing::Empty
        },
        None => Framing::UntilClose,
    }
}

} // verus!
