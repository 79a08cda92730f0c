//! Texts spelled out byte by byte: words, lines, numbers and header fields as they are written.
//! None of this speaks of how a text is read.

use crate::bytes::ascii;
use vstd::prelude::*;

verus! {

/// `word` stands in `text` from index `i` on, byte for byte.
pub open spec fn at(text: Seq<u8>, i: int, word: Seq<u8>) -> bool {
    &&& 0 <= i
    &&& i + word.len() <= text.len()
    &&& forall|k: int| 0 <= k < word.len() ==> #[trigger] word[k] == text[i + k]
}

/// `i` is the first index from which `word` stands in `text`.
pub open spec fn first(text: Seq<u8>, i: int, word: Seq<u8>) -> bool {
    at(text, i, word) && forall|j: int| 0 <= j < i ==> !#[trigger] at(text, j, word)
}

/// `word` stands nowhere in `text`.
pub open spec fn nowhere(text: Seq<u8>, word: Seq<u8>) -> bool {
    forall|j: int| !#[trigger] at(text, j, word)
}

/// `text` begins with `word`.
pub open spec fn begins(text: Seq<u8>, word: Seq<u8>) -> bool {
    at(text, 0, word)
}

/// A carriage return and a line feed.
pub open spec fn line_end() -> Seq<u8> {
    seq![13u8, 10u8]
}

/// The end of a line and an empty line.
pub open spec fn empty_line() -> Seq<u8> {
    seq![13u8, 10u8, 13u8, 10u8]
}

/// A space or a tab.
pub open spec fn is_gap(b: u8) -> bool {
    b == 32 || b == 9
}

/// Spaces and tabs only, from index `i` up to `j`.
pub open spec fn gap(text: Seq<u8>, i: int, j: int) -> bool {
    forall|k: int| i <= k < j ==> is_gap(#[trigger] text[k])
}

/// The byte `b` does not stand in `text` from index `i` up to `j`.
pub open spec fn lacks(text: Seq<u8>, b: u8, i: int, j: int) -> bool {
    forall|k: int| i <= k < j ==> #[trigger] text[k] != b
}

/// The same letter, in whichever case, or the same byte.
pub open spec fn same_letter(a: u8, b: u8) -> bool {
    ||| a == b
    ||| 65 <= a <= 90 && b == a + 32
    ||| 65 <= b <= 90 && a == b + 32
}

/// The same text but for the case of its letters.
pub open spec fn same_letters(a: Seq<u8>, b: Seq<u8>) -> bool {
    a.len() == b.len() && forall|i: int| 0 <= i < a.len() ==> same_letter(#[trigger] a[i], b[i])
}

/// `word` stands in `text`, in whichever case.
pub open spec fn holds_word(text: Seq<u8>, word: Seq<u8>) -> bool {
    exists|i: int|
        0 <= i <= text.len() - word.len() && same_letters(
            #[trigger] text.subrange(i, i + word.len()),
            word,
        )
}

/// `c` is the digit for `v`.
pub open spec fn is_digit(c: u8, v: nat) -> bool {
    &&& v < 16
    &&& {
        ||| c == ascii("0123456789abcdef"@)[v as int]
        ||| c == ascii("0123456789ABCDEF"@)[v as int]
    }
}

/// What digits stand for, the most significant first.
pub open spec fn amount(digits: Seq<nat>, radix: nat) -> nat
    decreases digits.len(),
{
    if digits.len() == 0 {
        0
    } else {
        amount(digits.drop_last(), radix) * radix + digits.last()
    }
}

/// `text` is the digits, one at least, behind a plus sign or not.
pub open spec fn is_numeral(text: Seq<u8>, radix: nat, digits: Seq<nat>, plus: bool) -> bool {
    let from: int = if plus {
        1
    } else {
        0
    };
    &&& digits.len() > 0
    &&& text.len() == from + digits.len()
    &&& plus ==> text[0] == 43
    &&& forall|i: int|
        0 <= i < digits.len() ==> #[trigger] digits[i] < radix && is_digit(
            text[from + i],
            digits[i],
        )
}

/// `text` writes the number `n`.
pub open spec fn says(text: Seq<u8>, radix: nat, n: nat) -> bool {
    exists|digits: Seq<nat>, plus: bool| #[trigger]
        is_numeral(text, radix, digits, plus) && amount(digits, radix) == n
}

/// The digits of `n`, with no zero in front.
pub open spec fn digits_of(n: nat, radix: nat) -> Seq<nat>
    decreases n,
        when radix >= 2
{
    if n < radix {
        seq![n]
    } else {
        proof {
            assert(n / radix < n) by (nonlinear_arith)
                requires
                    n >= radix >= 2,
            ;
        }
        digits_of(n / radix, radix).push(n % radix)
    }
}

/// `digits` as text, with small or capital letters.
pub open spec fn digits_text(digits: Seq<nat>, capital: bool) -> Seq<u8> {
    digits.map_values(
        |v: nat|
            if capital {
                ascii("0123456789ABCDEF"@)[v as int]
            } else {
                ascii("0123456789abcdef"@)[v as int]
            },
    )
}

/// The line of a chunk gives the size `n`: in hexadecimal, with gaps around it, before any
/// semicolon.
pub open spec fn says_size(line: Seq<u8>, n: nat) -> bool {
    exists|s: int, e: int, q: int| #[trigger] size_stands(line, s, e, q) && says(
        line.subrange(s, e),
        16,
        n,
    )
}

/// What stands from `s` up to `e` is the part of the line before any semicolon, but for gaps.
pub open spec fn size_stands(line: Seq<u8>, s: int, e: int, q: int) -> bool {
    &&& 0 <= s <= e <= q <= line.len()
    &&& q < line.len() ==> line[q] == 59
    &&& lacks(line, 59, 0, q)
    &&& gap(line, 0, s)
    &&& gap(line, e, q)
}

/// The first line ends at `end`: there is the first line end, or none and the text is over.
pub open spec fn line_stops(text: Seq<u8>, end: int) -> bool {
    first(text, end, line_end()) || nowhere(text, line_end()) && end == text.len()
}

/// The second word of the first line, from `i` up to `j`.
pub open spec fn second_word(head: Seq<u8>, end: int, i: int, j: int) -> bool {
    &&& line_stops(head, end)
    &&& 0 < i <= j <= end
    &&& lacks(head, 32, 0, i - 1)
    &&& head[i - 1] == 32
    &&& lacks(head, 32, i, j)
    &&& j < end ==> head[j] == 32
}

/// The second word of the first line writes the number `code`.
pub open spec fn says_status(head: Seq<u8>, code: nat) -> bool {
    exists|end: int, i: int, j: int| #[trigger]
        second_word(head, end, i, j) && says(head.subrange(i, j), 10, code)
}

/// A line of a head behind the first.
pub enum Line {
    /// A header field: its name, a colon, and its value with gaps before and behind it.
    Field { name: Seq<u8>, before: Seq<u8>, value: Seq<u8>, behind: Seq<u8>, cr: bool },
    /// A line without a colon.
    Other { text: Seq<u8>, cr: bool },
}

/// A carriage return, or nothing.
pub open spec fn cr_text(cr: bool) -> Seq<u8> {
    if cr {
        seq![13u8]
    } else {
        Seq::empty()
    }
}

impl Line {
    /// The line but for the carriage return at its end.
    pub open spec fn bare(self) -> Seq<u8> {
        match self {
            Line::Field { name, before, value, behind, .. } => {
                name + seq![58u8] + (before + value + behind)
            },
            Line::Other { text, .. } => text,
        }
    }

    pub open spec fn cr(self) -> bool {
        match self {
            Line::Field { cr, .. } => cr,
            Line::Other { cr, .. } => cr,
        }
    }

    pub open spec fn text(self) -> Seq<u8> {
        self.bare() + cr_text(self.cr())
    }

    /// The line is what it seems to be.
    pub open spec fn wf(self) -> bool {
        &&& lacks(self.text(), 10, 0, self.text().len() as int)
        &&& !self.cr() && self.bare().len() > 0 ==> self.bare().last() != 13
        &&& match self {
            Line::Field { name, before, value, behind, .. } => {
                &&& lacks(name, 58, 0, name.len() as int)
                &&& gap(before, 0, before.len() as int)
                &&& gap(behind, 0, behind.len() as int)
                &&& value.len() > 0 ==> !is_gap(value[0]) && !is_gap(value.last())
            },
            Line::Other { text, .. } => lacks(text, 58, 0, text.len() as int),
        }
    }

    /// The line is for the field `name`.
    pub open spec fn is_for(self, wanted: Seq<u8>) -> bool {
        self matches Line::Field { name, .. } && same_letters(name, wanted)
    }
}

/// The lines behind the first, each behind a line feed.
pub open spec fn lines_text(lines: Seq<Line>) -> Seq<u8>
    decreases lines.len(),
{
    if lines.len() == 0 {
        Seq::empty()
    } else {
        seq![10u8] + lines[0].text() + lines_text(lines.drop_first())
    }
}

/// `head` is the first line and the lines behind it.
pub open spec fn is_spelled(head: Seq<u8>, start: Seq<u8>, lines: Seq<Line>) -> bool {
    &&& head == start + lines_text(lines)
    &&& lacks(start, 10, 0, start.len() as int)
    &&& forall|i: int| 0 <= i < lines.len() ==> (#[trigger] lines[i]).wf()
}

/// The line with index `k` is the first for the field `name`.
pub open spec fn is_first_for(lines: Seq<Line>, k: int, name: Seq<u8>) -> bool {
    &&& 0 <= k < lines.len()
    &&& lines[k].is_for(name)
    &&& forall|j: int| 0 <= j < k ==> !(#[trigger] lines[j]).is_for(name)
}

/// The first Transfer-Encoding field names the chunked encoding.
pub open spec fn names_chunked(lines: Seq<Line>) -> bool {
    exists|k: int| #[trigger]
        is_first_for(lines, k, ascii("transfer-encoding"@)) && holds_word(
            lines[k]->value,
            ascii("chunked"@),
        )
}

/// The first Content-Length field writes the number `n`.
pub open spec fn says_length(lines: Seq<Line>, n: nat) -> bool {
    exists|k: int| #[trigger]
        is_first_for(lines, k, ascii("content-length"@)) && says(lines[k]->value, 10, n)
}

/// No Content-Length field comes first that writes a number.
pub open spec fn says_no_length(lines: Seq<Line>) -> bool {
    forall|n: nat| !#[trigger] says_length(lines, n)
}

/// The methods of requests, each with the space behind it.
pub open spec fn method_words() -> Seq<Seq<u8>> {
    seq![
        ascii("GET "@),
        ascii("POST "@),
        ascii("PUT "@),
        ascii("PATCH "@),
        ascii("DELETE "@),
        ascii("HEAD "@),
        ascii("OPTIONS "@),
        ascii("CONNECT "@),
        ascii("TRACE "@),
    ]
}

/// `HTTP/1.` stands in the last word of `line`: with no space behind it, but for gaps at the end.
pub open spec fn version_last(line: Seq<u8>) -> bool {
    exists|i: int, j: int| #[trigger] version_stands(line, i, j)
}

/// `HTTP/1.` stands at `i`, its word goes up to `j`, and only gaps follow.
pub open spec fn version_stands(line: Seq<u8>, i: int, j: int) -> bool {
    &&& at(line, i, ascii("HTTP/1."@))
    &&& i + 7 <= j <= line.len()
    &&& lacks(line, 32, i, j)
    &&& gap(line, j, line.len() as int)
}

/// A request with this method begins `text`: its first line has not come whole, or ends in a
/// version 1.x.
pub open spec fn begins_request(text: Seq<u8>, method: Seq<u8>) -> bool {
    &&& begins(text, method)
    &&& nowhere(text, line_end()) || exists|end: int| #[trigger]
        first(text, end, line_end()) && version_last(text.subrange(method.len() as int, end))
}

/// `text` begins an HTTP/1.x message.
pub open spec fn begins_message(text: Seq<u8>) -> bool {
    ||| begins(text, ascii("HTTP/1."@))
    ||| exists|k: int|
        0 <= k < 9 && begins_request(text, #[trigger] method_words()[k])
}

/// `head` and the empty line behind it: no empty line comes earlier.
pub open spec fn is_whole_head(head: Seq<u8>) -> bool {
    forall|j: int| 0 <= j < head.len() ==> !#[trigger] at(head + empty_line(), j, empty_line())
}

} // verus!
