//! What is read of texts, in terms of how they are spelled.

use crate::bytes;
use crate::bytes::ascii;
use crate::head;
use crate::head::Framing;
use crate::spelling;
use crate::spelling::Line;
use vstd::prelude::*;

verus! {

proof fn lemma_at(text: Seq<u8>, i: int, word: Seq<u8>)
    ensures
        spelling::at(text, i, word) <==> bytes::occurs_at(text, word, i),
{
    if 0 <= i && i + word.len() <= text.len() {
        let window = text.subrange(i, i + word.len());
        if spelling::at(text, i, word) {
            assert(window =~= word);
        }
        if window == word {
            assert forall|k: int| 0 <= k < word.len() implies #[trigger] word[k] == text[i + k] by {
                assert(window[k] == text[i + k]);
            }
        }
    }
}

/// A word is found where it first stands, and is not found only where it stands nowhere.
pub proof fn law_first_occurrence_is_found(text: Seq<u8>, word: Seq<u8>)
    ensures
        forall|i: int|
            bytes::position(text, word) == Some(i) <==> #[trigger] spelling::first(text, i, word),
        bytes::position(text, word) is None <==> spelling::nowhere(text, word),
{
    bytes::lemma_position(text, word);
    assert forall|i: int| spelling::at(text, i, word) == bytes::occurs_at(text, word, i) by {
        lemma_at(text, i, word);
    }
    assert forall|i: int|
        bytes::position(text, word) == Some(i) <==> #[trigger] spelling::first(text, i, word) by {
        if spelling::first(text, i, word) {
            assert forall|j: int| 0 <= j < i implies !bytes::occurs_at(text, word, j) by {
                assert(!spelling::at(text, j, word));
            }
            bytes::lemma_position_is(text, word, i);
        }
        if bytes::position(text, word) == Some(i) {
            assert forall|j: int| 0 <= j < i implies !#[trigger] spelling::at(text, j, word) by {
                assert(!bytes::occurs_at(text, word, j));
            }
        }
    }
    if bytes::position(text, word) is None {
        assert forall|j: int| !#[trigger] spelling::at(text, j, word) by {
            assert(!bytes::occurs_at(text, word, j));
        }
    } else {
        assert(spelling::at(text, bytes::position(text, word)->0, word));
    }
}

pub proof fn lemma_begins(text: Seq<u8>, word: Seq<u8>)
    ensures
        word.is_prefix_of(text) <==> spelling::begins(text, word),
{
    lemma_at(text, 0, word);
}

/// A byte is found where it first stands.
proof fn lemma_byte_found(text: Seq<u8>, b: u8)
    ensures
        match bytes::position(text, seq![b]) {
            Some(i) => 0 <= i < text.len() && text[i] == b && spelling::lacks(text, b, 0, i),
            None => spelling::lacks(text, b, 0, text.len() as int),
        },
{
    law_first_occurrence_is_found(text, seq![b]);
    assert forall|i: int| 0 <= i < text.len() implies spelling::at(text, i, seq![b]) == (
    #[trigger] text[i] == b) by {
        if spelling::at(text, i, seq![b]) {
            assert(seq![b][0] == text[i + 0]);
        }
    }
    if let Some(i) = bytes::position(text, seq![b]) {
        assert(spelling::first(text, i, seq![b]));
        assert(spelling::at(text, i, seq![b]));
        assert(text[i] == b);
    }
}

proof fn lemma_trimmed_start(text: Seq<u8>) -> (s: int)
    ensures
        0 <= s <= text.len(),
        bytes::trimmed_start(text) == text.skip(s),
        spelling::gap(text, 0, s),
        s < text.len() ==> !spelling::is_gap(text[s]),
    decreases text.len(),
{
    if text.len() > 0 && spelling::is_gap(text[0]) {
        let rest = text.drop_first();
        let k: int = lemma_trimmed_start(rest);
        assert(rest.skip(k) =~= text.skip(k + 1));
        assert forall|i: int| 0 <= i < k + 1 implies spelling::is_gap(#[trigger] text[i]) by {
            if i > 0 {
                assert(rest[i - 1] == text[i]);
            }
        }
        k + 1
    } else {
        assert(text.skip(0) =~= text);
        0
    }
}

proof fn lemma_trimmed_end(text: Seq<u8>) -> (e: int)
    ensures
        0 <= e <= text.len(),
        bytes::trimmed_end(text) == text.take(e),
        spelling::gap(text, e, text.len() as int),
        e > 0 ==> !spelling::is_gap(text[e - 1]),
    decreases text.len(),
{
    if text.len() > 0 && spelling::is_gap(text.last()) {
        let rest = text.drop_last();
        let e: int = lemma_trimmed_end(rest);
        assert(rest.take(e) =~= text.take(e));
        assert forall|i: int| e <= i < text.len() implies spelling::is_gap(#[trigger] text[i]) by {
            if i < rest.len() {
                assert(rest[i] == text[i]);
            }
        }
        e
    } else {
        assert(text.take(text.len() as int) =~= text);
        text.len() as int
    }
}

/// What trimming leaves.
proof fn lemma_trimmed(text: Seq<u8>) -> (r: (int, int))
    ensures
        0 <= r.0 <= r.1 <= text.len(),
        bytes::trimmed(text) == text.subrange(r.0, r.1),
        spelling::gap(text, 0, r.0),
        spelling::gap(text, r.1, text.len() as int),
        r.0 < r.1 ==> !spelling::is_gap(text[r.0]) && !spelling::is_gap(text[r.1 - 1]),
{
    let s: int = lemma_trimmed_start(text);
    let rest = text.skip(s);
    let k: int = lemma_trimmed_end(rest);
    assert(rest.take(k) =~= text.subrange(s, s + k));
    assert forall|i: int| s + k <= i < text.len() implies spelling::is_gap(#[trigger] text[i]) by {
        assert(rest[i - s] == text[i]);
    }
    (s, s + k)
}

/// Trimming takes off all gaps at both ends, and nothing else.
pub proof fn law_gaps_are_trimmed(before: Seq<u8>, word: Seq<u8>, behind: Seq<u8>)
    requires
        spelling::gap(before, 0, before.len() as int),
        spelling::gap(behind, 0, behind.len() as int),
        word.len() > 0 ==> !spelling::is_gap(word[0]) && !spelling::is_gap(word.last()),
    ensures
        bytes::trimmed(before + word + behind) == word,
{
    let text = before + word + behind;
    let (s, e) = lemma_trimmed(text);
    let a: int = before.len() as int;
    let b: int = a + word.len();
    assert forall|i: int| 0 <= i < text.len() && !(a <= i < b) implies spelling::is_gap(
        #[trigger] text[i],
    ) by {
        if i < a {
            assert(text[i] == before[i]);
        } else {
            assert(text[i] == behind[i - b]);
        }
    }
    if word.len() > 0 {
        assert(text[a] == word[0]);
        assert(text[b - 1] == word.last());
        assert(s <= a && b <= e);
        assert(s == a && e == b);
        assert(text.subrange(s, e) =~= word);
    } else {
        if s < e {
            assert(spelling::is_gap(text[s]));
        }
        assert(text.subrange(s, e) =~= word);
    }
}

/// What is left behind the last separator.
proof fn lemma_split_last(text: Seq<u8>, b: u8) -> (p: int)
    ensures
        0 <= p <= text.len(),
        bytes::split(text, b).last() == text.skip(p),
        bytes::split(text, b).len() > 0,
        spelling::lacks(text, b, p, text.len() as int),
        p > 0 ==> text[p - 1] == b,
    decreases text.len(),
{
    lemma_byte_found(text, b);
    match bytes::position(text, seq![b]) {
        Some(i) => {
            let rest = text.skip(i + 1);
            let k: int = lemma_split_last(rest, b);
            assert(rest.skip(k) =~= text.skip(i + 1 + k));
            assert forall|j: int| i + 1 + k <= j < text.len() implies #[trigger] text[j] != b by {
                assert(rest[j - i - 1] == text[j]);
            }
            if k > 0 {
                assert(rest[k - 1] == text[i + k]);
            }
            i + 1 + k
        },
        None => {
            assert(text.skip(0) =~= text);
            0
        },
    }
}

/// A text without the separator is one piece.
proof fn lemma_split_none(text: Seq<u8>, b: u8)
    requires
        spelling::lacks(text, b, 0, text.len() as int),
    ensures
        bytes::split(text, b) == seq![text],
{
    lemma_byte_found(text, b);
}

/// What stands before the first separator is the first piece.
proof fn lemma_split_first(piece: Seq<u8>, rest: Seq<u8>, b: u8)
    requires
        spelling::lacks(piece, b, 0, piece.len() as int),
    ensures
        bytes::split(piece + seq![b] + rest, b) == seq![piece] + bytes::split(rest, b),
{
    let text = piece + seq![b] + rest;
    let n: int = piece.len() as int;
    lemma_byte_found(text, b);
    assert(text[n] == b);
    let i: int = bytes::position(text, seq![b])->0;
    if i < n {
        assert(text[i] == piece[i]);
    }
    assert(i == n);
    assert(text.take(n) =~= piece);
    assert(text.skip(n + 1) =~= rest);
}

/// The pieces of a text, put together again.
pub open spec fn rejoined(pieces: Seq<Seq<u8>>, b: u8) -> Seq<u8>
    decreases pieces.len(),
{
    if pieces.len() <= 1 {
        pieces[0]
    } else {
        pieces[0] + seq![b] + rejoined(pieces.drop_first(), b)
    }
}

/// Splitting undoes joining: pieces without the separator, joined by it, are what splitting gives.
pub proof fn law_split_undoes_joining(pieces: Seq<Seq<u8>>, b: u8)
    requires
        pieces.len() > 0,
        forall|i: int|
            0 <= i < pieces.len() ==> spelling::lacks(
                #[trigger] pieces[i],
                b,
                0,
                pieces[i].len() as int,
            ),
    ensures
        bytes::split(rejoined(pieces, b), b) == pieces,
    decreases pieces.len(),
{
    assert(spelling::lacks(pieces[0], b, 0, pieces[0].len() as int));
    if pieces.len() == 1 {
        lemma_split_none(pieces[0], b);
        assert(seq![pieces[0]] =~= pieces);
    } else {
        let others = pieces.drop_first();
        assert forall|i: int| 0 <= i < others.len() implies spelling::lacks(
            #[trigger] others[i],
            b,
            0,
            others[i].len() as int,
        ) by {
            assert(others[i] == pieces[i + 1]);
        }
        law_split_undoes_joining(others, b);
        lemma_split_first(pieces[0], rejoined(others, b), b);
        assert(seq![pieces[0]] + others =~= pieces);
    }
}

proof fn lemma_digit(c: u8, v: nat)
    ensures
        spelling::is_digit(c, v) <==> v < 16 && if v < 10 {
            c == 48 + v
        } else {
            c == 87 + v || c == 55 + v
        },
{
    reveal_strlit("0123456789abcdef");
    reveal_strlit("0123456789ABCDEF");
}

proof fn lemma_digits_read(text: Seq<u8>, digits: Seq<nat>, radix: nat)
    requires
        2 <= radix <= 16,
        text.len() == digits.len(),
        forall|i: int|
            0 <= i < digits.len() ==> #[trigger] digits[i] < radix && spelling::is_digit(
                text[i],
                digits[i],
            ),
    ensures
        bytes::digits_value(text, radix) == Some(spelling::amount(digits, radix)),
    decreases text.len(),
{
    if text.len() > 0 {
        let front = digits.drop_last();
        assert forall|i: int| 0 <= i < front.len() implies #[trigger] front[i] < radix
            && spelling::is_digit(text.drop_last()[i], front[i]) by {
            assert(front[i] == digits[i]);
        }
        lemma_digits_read(text.drop_last(), front, radix);
        let v: nat = digits[digits.len() - 1];
        lemma_digit(text.last(), v);
        assert(bytes::digit_value(text.last(), radix) == Some(v));
    }
}

proof fn lemma_digits_written(text: Seq<u8>, radix: nat) -> (digits: Seq<nat>)
    requires
        2 <= radix <= 16,
        bytes::digits_value(text, radix) is Some,
    ensures
        text.len() == digits.len(),
        forall|i: int|
            0 <= i < digits.len() ==> #[trigger] digits[i] < radix && spelling::is_digit(
                text[i],
                digits[i],
            ),
    decreases text.len(),
{
    if text.len() == 0 {
        Seq::empty()
    } else {
        let front = lemma_digits_written(text.drop_last(), radix);
        let v: nat = bytes::digit_value(text.last(), radix)->0;
        lemma_digit(text.last(), v);
        let digits = front.push(v);
        assert forall|i: int| 0 <= i < digits.len() implies #[trigger] digits[i] < radix
            && spelling::is_digit(text[i], digits[i]) by {
            if i < front.len() {
                assert(digits[i] == front[i]);
                assert(text.drop_last()[i] == text[i]);
            }
        }
        digits
    }
}

/// A text is read as a number exactly where it is digits behind a plus sign or not, and as the
/// number that the digits stand for.
pub proof fn law_numbers_are_read_as_written(text: Seq<u8>, radix: nat, n: nat)
    requires
        2 <= radix <= 16,
    ensures
        bytes::number(text, radix) == Some(n) <==> spelling::says(text, radix, n),
{
    let signed = text.len() > 0 && text[0] == 43;
    let body = if signed {
        text.skip(1)
    } else {
        text
    };
    if spelling::says(text, radix, n) {
        let (digits, plus) = choose|digits: Seq<nat>, plus: bool| #[trigger]
            spelling::is_numeral(text, radix, digits, plus) && spelling::amount(digits, radix) == n;
        if !plus {
            assert(digits[0] < radix);
            lemma_digit(text[0], digits[0]);
        }
        assert(plus == signed);
        lemma_digits_read(body, digits, radix);
    }
    if bytes::number(text, radix) == Some(n) {
        let digits = lemma_digits_written(body, radix);
        lemma_digits_read(body, digits, radix);
        assert(spelling::is_numeral(text, radix, digits, signed));
    }
}

proof fn lemma_digits_of(n: nat, radix: nat)
    requires
        2 <= radix <= 16,
    ensures
        spelling::digits_of(n, radix).len() > 0,
        spelling::amount(spelling::digits_of(n, radix), radix) == n,
        forall|i: int|
            0 <= i < spelling::digits_of(n, radix).len() ==> #[trigger] spelling::digits_of(
                n,
                radix,
            )[i] < radix,
    decreases n,
{
    let digits = spelling::digits_of(n, radix);
    if n < radix {
        assert(digits.drop_last() =~= Seq::<nat>::empty());
        assert(spelling::amount(digits.drop_last(), radix) == 0);
        assert(0 * radix == 0) by (nonlinear_arith);
    } else {
        assert(n / radix < n) by (nonlinear_arith)
            requires
                n >= radix >= 2,
        ;
        lemma_digits_of(n / radix, radix);
        let high = spelling::digits_of(n / radix, radix);
        assert(digits.drop_last() =~= high);
        assert((n / radix) * radix + n % radix == n) by (nonlinear_arith)
            requires
                radix >= 2,
        ;
    }
}

/// Every number can be written: its digits, with small or capital letters, say it.
pub proof fn law_numbers_are_written(n: nat, radix: nat, capital: bool)
    requires
        2 <= radix <= 16,
    ensures
        spelling::says(
            spelling::digits_text(spelling::digits_of(n, radix), capital),
            radix,
            n,
        ),
{
    lemma_digits_of(n, radix);
    let digits = spelling::digits_of(n, radix);
    let text = spelling::digits_text(digits, capital);
    assert(spelling::is_numeral(text, radix, digits, false));
}

/// A text that writes a number has no gap and no semicolon in it, and is not empty.
proof fn lemma_says(text: Seq<u8>, radix: nat, n: nat)
    requires
        2 <= radix <= 16,
        spelling::says(text, radix, n),
    ensures
        text.len() > 0,
        forall|i: int|
            0 <= i < text.len() ==> !spelling::is_gap(#[trigger] text[i]) && text[i] != 59,
{
    let (digits, plus) = choose|digits: Seq<nat>, plus: bool| #[trigger]
        spelling::is_numeral(text, radix, digits, plus) && spelling::amount(digits, radix) == n;
    let from: int = if plus {
        1
    } else {
        0
    };
    assert forall|i: int| 0 <= i < text.len() implies !spelling::is_gap(#[trigger] text[i])
        && text[i] != 59 by {
        if i >= from {
            assert(digits[i - from] < radix);
            lemma_digit(text[i], digits[i - from]);
        }
    }
}

/// The part of a chunk's line that gives the size.
proof fn lemma_size_part(line: Seq<u8>) -> (r: (int, int, int))
    ensures
        spelling::size_stands(line, r.0, r.1, r.2),
        bytes::trimmed(bytes::split(line, bytes::SEMICOLON)[0]) == line.subrange(r.0, r.1),
        r.0 < r.1 ==> !spelling::is_gap(line[r.0]) && !spelling::is_gap(line[r.1 - 1]),
{
    lemma_byte_found(line, 59);
    let q: int = match bytes::position(line, seq![59u8]) {
        Some(i) => i,
        None => line.len() as int,
    };
    let part = line.take(q);
    assert(bytes::split(line, 59)[0] =~= part);
    let (s, e) = lemma_trimmed(part);
    assert(part.subrange(s, e) =~= line.subrange(s, e));
    assert forall|k: int| 0 <= k < s || e <= k < q implies spelling::is_gap(#[trigger] line[k]) by {
        assert(part[k] == line[k]);
    }
    (s, e, q)
}

/// The size of a chunk is read exactly where its line gives one, and as the line gives it. A size
/// that a `usize` cannot hold is read as the largest that it can.
pub proof fn law_chunk_sizes_are_read_as_written(line: Seq<u8>)
    ensures
        forall|n: nat| #[trigger]
            spelling::says_size(line, n) ==> head::chunk_size(line) == Some(
                if n <= usize::MAX {
                    n as usize
                } else {
                    usize::MAX
                },
            ),
        head::chunk_size(line) is Some ==> exists|n: nat| #[trigger] spelling::says_size(line, n),
{
    let (s, e, q) = lemma_size_part(line);
    let size = line.subrange(s, e);
    assert forall|n: nat| #[trigger] spelling::says_size(line, n) implies head::chunk_size(line)
        == Some(
        if n <= usize::MAX {
            n as usize
        } else {
            usize::MAX
        },
    ) by {
        let (s2, e2, q2) = choose|s2: int, e2: int, q2: int| #[trigger]
            spelling::size_stands(line, s2, e2, q2) && spelling::says(
                line.subrange(s2, e2),
                16,
                n,
            );
        let other = line.subrange(s2, e2);
        lemma_says(other, 16, n);
        assert(q2 == q);
        assert(other[0] == line[s2]);
        assert(other[e2 - s2 - 1] == line[e2 - 1]);
        assert(s <= s2 && e2 <= e);
        assert(s2 <= s && e <= e2);
        law_numbers_are_read_as_written(size, 16, n);
    }
    if head::chunk_size(line) is Some {
        let n: nat = bytes::number(size, 16)->0;
        law_numbers_are_read_as_written(size, 16, n);
        assert(spelling::says_size(line, n));
    }
}

/// Reading the line of a chunk undoes writing it: the size in hexadecimal digits, small or capital,
/// gaps around it, and a semicolon with an extension behind it or not.
pub proof fn law_chunk_line_is_read_back(
    n: nat,
    capital: bool,
    before: Seq<u8>,
    behind: Seq<u8>,
    extension: Seq<u8>,
)
    requires
        n <= usize::MAX,
        spelling::gap(before, 0, before.len() as int),
        spelling::gap(behind, 0, behind.len() as int),
        extension.len() > 0 ==> extension[0] == 59,
    ensures
        head::chunk_size(
            before + spelling::digits_text(spelling::digits_of(n, 16), capital) + behind
                + extension,
        ) == Some(n as usize),
{
    let digits = spelling::digits_text(spelling::digits_of(n, 16), capital);
    let line = before + digits + behind + extension;
    law_numbers_are_written(n, 16, capital);
    lemma_says(digits, 16, n);
    let s: int = before.len() as int;
    let e: int = s + digits.len();
    let q: int = e + behind.len();
    assert(line.subrange(s, e) =~= digits);
    assert forall|k: int| 0 <= k < q implies #[trigger] line[k] != 59 && (k < s || e <= k
        ==> spelling::is_gap(line[k])) by {
        if k < s {
            assert(line[k] == before[k]);
        } else if k < e {
            assert(line[k] == digits[k - s]);
        } else {
            assert(line[k] == behind[k - e]);
        }
    }
    assert(spelling::size_stands(line, s, e, q));
    assert(spelling::says_size(line, n));
    law_chunk_sizes_are_read_as_written(line);
}

proof fn lemma_same_letters(a: Seq<u8>, b: Seq<u8>)
    ensures
        bytes::lowered(a) == bytes::lowered(b) <==> spelling::same_letters(a, b),
{
    let x = bytes::lowered(a);
    let y = bytes::lowered(b);
    if x == y {
        assert(x.len() == y.len());
        assert forall|i: int| 0 <= i < a.len() implies spelling::same_letter(
            #[trigger] a[i],
            b[i],
        ) by {
            assert(x[i] == y[i]);
        }
    }
    if spelling::same_letters(a, b) {
        assert forall|i: int| 0 <= i < a.len() implies x[i] == y[i] by {
            assert(spelling::same_letter(a[i], b[i]));
        }
        assert(x =~= y);
    }
}

/// Two texts are read as equal but for case exactly where each letter of the one is, in whichever
/// case, the letter of the other, and each other byte the same.
pub proof fn law_case_is_ignored(a: Seq<u8>, b: Seq<u8>)
    ensures
        bytes::lowered(a) == bytes::lowered(b) <==> spelling::same_letters(a, b),
        spelling::same_letters(bytes::lowered(a), a),
        forall|i: int| 0 <= i < a.len() ==> !(65 <= #[trigger] bytes::lowered(a)[i] <= 90),
{
    lemma_same_letters(a, b);
}

/// A word in small letters stands in the lowered text exactly where it stands in the text, in
/// whichever case.
proof fn lemma_holds_word(text: Seq<u8>, word: Seq<u8>)
    requires
        bytes::lowered(word) == word,
    ensures
        bytes::occurs(bytes::lowered(text), word) <==> spelling::holds_word(text, word),
{
    let low = bytes::lowered(text);
    assert forall|i: int| 0 <= i <= text.len() - word.len() implies low.subrange(
        i,
        i + word.len(),
    ) == bytes::lowered(#[trigger] text.subrange(i, i + word.len())) by {
        assert(low.subrange(i, i + word.len()) =~= bytes::lowered(
            text.subrange(i, i + word.len()),
        ));
    }
    if bytes::occurs(low, word) {
        let i: int = choose|i: int| bytes::occurs_at(low, word, i);
        lemma_same_letters(text.subrange(i, i + word.len()), word);
    }
    if spelling::holds_word(text, word) {
        let i: int = choose|i: int|
            0 <= i <= text.len() - word.len() && spelling::same_letters(
                #[trigger] text.subrange(i, i + word.len()),
                word,
            );
        lemma_same_letters(text.subrange(i, i + word.len()), word);
        assert(bytes::occurs_at(low, word, i));
    }
}

/// A line of a head without its carriage return.
proof fn lemma_line_bare(line: Line)
    requires
        line.wf(),
    ensures
        head::without_cr(line.text()) == line.bare(),
{
    if line.cr() {
        assert(line.text().last() == 13);
        assert(line.text().drop_last() =~= line.bare());
    } else {
        assert(line.text() =~= line.bare());
    }
}

proof fn lemma_line_value(line: Line, name: Seq<u8>)
    requires
        line.wf(),
    ensures
        head::line_value(line.bare(), name) == (if line.is_for(name) {
            Some(line->value)
        } else {
            None
        }),
{
    let text = line.bare();
    lemma_byte_found(text, 58);
    match line {
        Line::Field { name: own, before, value, behind, .. } => {
            let n: int = own.len() as int;
            let rest = before + value + behind;
            assert(text[n] == 58);
            let i: int = bytes::position(text, seq![58u8])->0;
            if i < n {
                assert(text[i] == own[i]);
            }
            assert(i == n);
            assert(text.take(n) =~= own);
            assert(text.skip(n + 1) =~= rest);
            lemma_same_letters(own, name);
            law_gaps_are_trimmed(before, value, behind);
        },
        Line::Other { .. } => {},
    }
}

proof fn lemma_split_lines(start: Seq<u8>, lines: Seq<Line>)
    requires
        spelling::lacks(start, 10, 0, start.len() as int),
        forall|i: int| 0 <= i < lines.len() ==> (#[trigger] lines[i]).wf(),
    ensures
        bytes::split(start + spelling::lines_text(lines), 10) == seq![start] + lines.map_values(
            |line: Line| line.text(),
        ),
    decreases lines.len(),
{
    let all = seq![start] + lines.map_values(|line: Line| line.text());
    if lines.len() == 0 {
        lemma_split_none(start, 10);
        assert(start + spelling::lines_text(lines) =~= start);
        assert(all =~= seq![start]);
    } else {
        let others = lines.drop_first();
        let next = lines[0].text();
        let rest = next + spelling::lines_text(others);
        assert forall|i: int| 0 <= i < others.len() implies (#[trigger] others[i]).wf() by {
            assert(others[i] == lines[i + 1]);
        }
        assert(lines[0].wf());
        lemma_split_lines(next, others);
        lemma_split_first(start, rest, 10);
        assert(start + spelling::lines_text(lines) =~= start + seq![10u8] + rest);
        assert(all =~= seq![start] + (seq![next] + others.map_values(|line: Line| line.text())));
    }
}

proof fn lemma_first_value(lines: Seq<Line>, name: Seq<u8>, k: int)
    requires
        forall|i: int| 0 <= i < lines.len() ==> (#[trigger] lines[i]).wf(),
        spelling::is_first_for(lines, k, name) || k == lines.len() && forall|j: int|
            0 <= j < k ==> !(#[trigger] lines[j]).is_for(name),
    ensures
        head::first_value(lines.map_values(|line: Line| line.text()), name) == (if k
            < lines.len() {
            Some(lines[k]->value)
        } else {
            None
        }),
    decreases lines.len(),
{
    let texts = lines.map_values(|line: Line| line.text());
    if lines.len() > 0 {
        assert(lines[0].wf());
        lemma_line_bare(lines[0]);
        lemma_line_value(lines[0], name);
        let others = lines.drop_first();
        assert(texts.drop_first() =~= others.map_values(|line: Line| line.text()));
        if k > 0 {
            assert(!lines[0].is_for(name));
            assert forall|i: int| 0 <= i < others.len() implies (#[trigger] others[i]).wf() by {
                assert(others[i] == lines[i + 1]);
            }
            assert forall|j: int| 0 <= j < k - 1 implies !(#[trigger] others[j]).is_for(name) by {
                assert(others[j] == lines[j + 1]);
            }
            lemma_first_value(others, name, k - 1);
        }
    }
}

/// The value of a header field is that of the first line for it, without the gaps around it,
/// whatever the other lines are and in whichever case the name is written. No line for it, no
/// value.
pub proof fn law_field_values_are_read_as_written(
    head: Seq<u8>,
    start: Seq<u8>,
    lines: Seq<Line>,
    name: Seq<u8>,
)
    requires
        spelling::is_spelled(head, start, lines),
    ensures
        forall|k: int| #[trigger]
            spelling::is_first_for(lines, k, name) ==> head::field_value(head, name) == Some(
                lines[k]->value,
            ),
        (forall|k: int| 0 <= k < lines.len() ==> !(#[trigger] lines[k]).is_for(name))
            ==> head::field_value(head, name) is None,
{
    lemma_split_lines(start, lines);
    let texts = lines.map_values(|line: Line| line.text());
    assert((seq![start] + texts).drop_first() =~= texts);
    assert forall|k: int| #[trigger] spelling::is_first_for(lines, k, name) implies head::field_value(
        head,
        name,
    ) == Some(lines[k]->value) by {
        lemma_first_value(lines, name, k);
    }
    if forall|k: int| 0 <= k < lines.len() ==> !(#[trigger] lines[k]).is_for(name) {
        lemma_first_value(lines, name, lines.len() as int);
    }
}

/// Some line is the first for a field, or none is for it.
proof fn lemma_first_for(lines: Seq<Line>, name: Seq<u8>) -> (k: Option<int>)
    ensures
        match k {
            Some(k) => spelling::is_first_for(lines, k, name),
            None => forall|j: int| 0 <= j < lines.len() ==> !(#[trigger] lines[j]).is_for(name),
        },
    decreases lines.len(),
{
    if lines.len() == 0 {
        None
    } else {
        let front = lines.drop_last();
        match lemma_first_for(front, name) {
            Some(k) => {
                assert forall|j: int| 0 <= j < k implies !(#[trigger] lines[j]).is_for(name) by {
                    assert(lines[j] == front[j]);
                }
                assert(lines[k] == front[k]);
                Some(k)
            },
            None => {
                let n: int = lines.len() - 1;
                assert forall|j: int| 0 <= j < n implies !(#[trigger] lines[j]).is_for(name) by {
                    assert(lines[j] == front[j]);
                }
                if lines[n].is_for(name) {
                    Some(n)
                } else {
                    None
                }
            },
        }
    }
}

pub proof fn lemma_chunked(head: Seq<u8>, start: Seq<u8>, lines: Seq<Line>)
    requires
        spelling::is_spelled(head, start, lines),
    ensures
        head::is_chunked(head) <==> spelling::names_chunked(lines),
{
    let name = ascii("transfer-encoding"@);
    let word = ascii("chunked"@);
    reveal_strlit("chunked");
    assert(bytes::lowered(word) =~= word);
    law_field_values_are_read_as_written(head, start, lines, name);
    match lemma_first_for(lines, name) {
        Some(k) => {
            lemma_holds_word(lines[k]->value, word);
            if spelling::names_chunked(lines) {
                let j: int = choose|j: int| #[trigger]
                    spelling::is_first_for(lines, j, name) && spelling::holds_word(
                        lines[j]->value,
                        word,
                    );
                assert(!(j < k) && !(k < j));
            }
        },
        None => {
            if spelling::names_chunked(lines) {
                let j: int = choose|j: int| #[trigger]
                    spelling::is_first_for(lines, j, name) && spelling::holds_word(
                        lines[j]->value,
                        word,
                    );
                assert(lines[j].is_for(name));
            }
        },
    }
}

pub proof fn lemma_length(head: Seq<u8>, start: Seq<u8>, lines: Seq<Line>)
    requires
        spelling::is_spelled(head, start, lines),
    ensures
        forall|n: nat| #[trigger]
            spelling::says_length(lines, n) ==> head::content_length(head) == Some(
                bytes::saturated(n),
            ),
        spelling::says_no_length(lines) ==> head::content_length(head) is None,
{
    let name = ascii("content-length"@);
    law_field_values_are_read_as_written(head, start, lines, name);
    assert forall|n: nat| #[trigger] spelling::says_length(lines, n) implies head::content_length(
        head,
    ) == Some(bytes::saturated(n)) by {
        let k: int = choose|k: int| #[trigger]
            spelling::is_first_for(lines, k, name) && spelling::says(lines[k]->value, 10, n);
        law_numbers_are_read_as_written(lines[k]->value, 10, n);
    }
    if spelling::says_no_length(lines) {
        if let Some(k) = lemma_first_for(lines, name) {
            let value = lines[k]->value;
            if let Some(n) = bytes::number(value, 10) {
                law_numbers_are_read_as_written(value, 10, n);
                assert(spelling::says_length(lines, n));
            }
        }
    }
}

/// The end of a request is known from its header fields alone, whatever its method: the chunked
/// encoding where the first Transfer-Encoding field names it, else the length that the first
/// Content-Length field writes. Where it writes none, or zero, the request ends with its head.
pub proof fn law_requests_are_framed_by_their_fields(
    head: Seq<u8>,
    start: Seq<u8>,
    lines: Seq<Line>,
    n: nat,
)
    requires
        spelling::is_spelled(head, start, lines),
        n <= usize::MAX,
    ensures
        spelling::names_chunked(lines) ==> head::request_framing(head) == Framing::Chunked,
        !spelling::names_chunked(lines) ==> {
            &&& spelling::says_length(lines, n) && n > 0 ==> head::request_framing(head)
                == Framing::Length(n as usize)
            &&& spelling::says_length(lines, 0) ==> head::request_framing(head) == Framing::Empty
            &&& spelling::says_no_length(lines) ==> head::request_framing(head) == Framing::Empty
        },
{
    lemma_chunked(head, start, lines);
    lemma_length(head, start, lines);
}

/// No status is written, or none that means that no body follows.
pub open spec fn may_have_body(head: Seq<u8>) -> bool {
    forall|code: nat| #[trigger]
        spelling::says_status(head, code) ==> code < 100 || 200 <= code && code != 204 && code
            != 304
}

proof fn lemma_line_stops(head: Seq<u8>) -> (end: int)
    ensures
        0 <= end <= head.len(),
        spelling::line_stops(head, end),
        head::start_line(head) == head.take(end),
        forall|other: int| #[trigger] spelling::line_stops(head, other) ==> other == end,
{
    law_first_occurrence_is_found(head, head::crlf());
    assert(head::crlf() =~= spelling::line_end());
    match bytes::position(head, head::crlf()) {
        Some(end) => {
            assert(spelling::first(head, end, spelling::line_end()));
            assert(spelling::at(head, end, spelling::line_end()));
            assert forall|other: int| #[trigger] spelling::line_stops(head, other) implies other
                == end by {}
            end
        },
        None => {
            assert(head.take(head.len() as int) =~= head);
            assert forall|other: int| #[trigger] spelling::line_stops(head, other) implies other
                == head.len() by {
                if spelling::first(head, other, spelling::line_end()) {
                    assert(spelling::at(head, other, spelling::line_end()));
                }
            }
            head.len() as int
        },
    }
}

/// The second word of a line, as splitting gives it.
proof fn lemma_second_word(line: Seq<u8>) -> (r: Option<(int, int)>)
    ensures
        match r {
            Some((i, j)) => {
                &&& 0 < i <= j <= line.len()
                &&& spelling::lacks(line, 32, 0, i - 1)
                &&& line[i - 1] == 32
                &&& spelling::lacks(line, 32, i, j)
                &&& j < line.len() ==> line[j] == 32
                &&& bytes::split(line, 32).len() >= 2
                &&& bytes::split(line, 32)[1] == line.subrange(i, j)
            },
            None => {
                &&& spelling::lacks(line, 32, 0, line.len() as int)
                &&& bytes::split(line, 32).len() == 1
            },
        },
{
    lemma_byte_found(line, 32);
    match bytes::position(line, seq![32u8]) {
        Some(space) => {
            let rest = line.skip(space + 1);
            lemma_byte_found(rest, 32);
            let n: int = match bytes::position(rest, seq![32u8]) {
                Some(k) => k,
                None => rest.len() as int,
            };
            assert(bytes::split(rest, 32)[0] =~= rest.take(n));
            assert(bytes::split(line, 32)[1] == bytes::split(rest, 32)[0]);
            let i: int = space + 1;
            assert(rest.take(n) =~= line.subrange(i, i + n));
            assert forall|k: int| i <= k < i + n implies #[trigger] line[k] != 32 by {
                assert(rest[k - i] == line[k]);
            }
            if i + n < line.len() {
                assert(rest[n] == line[i + n]);
            }
            Some((i, i + n))
        },
        None => None,
    }
}

/// The status is read exactly where the second word of the first line writes a number that it can
/// be, and as this number.
pub proof fn law_status_is_read_as_written(head: Seq<u8>, code: u16)
    ensures
        head::status(head) == Some(code) <==> spelling::says_status(head, code as nat),
{
    let end: int = lemma_line_stops(head);
    let line = head.take(end);
    let found = lemma_second_word(line);
    if let Some((i, j)) = found {
        let word = line.subrange(i, j);
        assert(word =~= head.subrange(i, j));
        assert forall|k: int| 0 <= k < end implies line[k] == #[trigger] head[k] by {}
        assert(spelling::second_word(head, end, i, j));
        law_numbers_are_read_as_written(word, 10, code as nat);
        if head::status(head) == Some(code) {
            assert(bytes::number(word, 10) == Some(code as nat));
        }
    }
    if spelling::says_status(head, code as nat) {
        let (e2, i2, j2) = choose|e2: int, i2: int, j2: int| #[trigger]
            spelling::second_word(head, e2, i2, j2) && spelling::says(
                head.subrange(i2, j2),
                10,
                code as nat,
            );
        assert(e2 == end);
        assert(line[i2 - 1] == 32);
        let (i, j) = found->0;
        assert(line[i - 1] == head[i - 1]);
        assert(i2 == i);
        if j < j2 {
            assert(line[j] == head[j]);
        }
        if j2 < j {
            assert(line[j2] == head[j2]);
        }
        assert(j2 == j);
    }
}

pub proof fn lemma_status_bodiless(head: Seq<u8>)
    ensures
        may_have_body(head) <==> (match head::status(head) {
            Some(code) => !head::is_bodiless(code),
            None => true,
        }),
{
    assert forall|code: u16| head::status(head) == Some(code) <==> spelling::says_status(
        head,
        code as nat,
    ) by {
        law_status_is_read_as_written(head, code);
    }
    if let Some(code) = head::status(head) {
        assert(spelling::says_status(head, code as nat));
        assert forall|other: nat| #[trigger] spelling::says_status(head, other) implies other
            == code || other > 65535 by {
            if other <= 65535 {
                law_status_is_read_as_written(head, other as u16);
            }
        }
    } else {
        assert forall|other: nat| #[trigger] spelling::says_status(head, other) implies other
            > 65535 by {
            if other <= 65535 {
                law_status_is_read_as_written(head, other as u16);
            }
        }
    }
}

/// The end of a response is known from what it answers, its status and its header fields: one to a
/// HEAD request, or with a status of 100 to 199, 204 or 304, ends with its head, and no other but
/// one that writes the length zero. Else it is in the chunked encoding where the first
/// Transfer-Encoding field names it, or has the length that the first Content-Length field writes,
/// or runs until the connection closes where that field writes none.
pub proof fn law_responses_are_framed_by_status_and_fields(
    head: Seq<u8>,
    start: Seq<u8>,
    lines: Seq<Line>,
    to_head: bool,
    n: nat,
)
    requires
        spelling::is_spelled(head, start, lines),
        n <= usize::MAX,
    ensures
        ({
            let framing = head::response_framing(head, to_head);
            &&& to_head || !may_have_body(head) ==> framing == Framing::Empty
            &&& !to_head && may_have_body(head) ==> {
                &&& spelling::names_chunked(lines) ==> framing == Framing::Chunked
                &&& !spelling::names_chunked(lines) ==> {
                    &&& spelling::says_length(lines, n) && n > 0 ==> framing == Framing::Length(
                        n as usize,
                    )
                    &&& spelling::says_length(lines, 0) ==> framing == Framing::Empty
                    &&& spelling::says_no_length(lines) ==> framing == Framing::UntilClose
                }
            }
        }),
{
    lemma_chunked(head, start, lines);
    lemma_length(head, start, lines);
    lemma_status_bodiless(head);
}

proof fn lemma_version_last(line: Seq<u8>)
    ensures
        head::ends_in_http1(line) <==> spelling::version_last(line),
{
    reveal_strlit("HTTP/1.");
    let version = ascii("HTTP/1."@);
    let (s, e) = lemma_trimmed(line);
    let core = line.subrange(s, e);
    let p: int = lemma_split_last(core, 32);
    let word = core.skip(p);
    if spelling::version_last(line) {
        let (i, j) = choose|i: int, j: int| #[trigger] spelling::version_stands(line, i, j);
        assert(version[0] == line[i + 0]);
        assert(version[6] == line[i + 6]);
        assert(s <= i && i + 7 <= e);
        if j < e {
            assert(spelling::is_gap(line[e - 1]));
        }
        if p > i - s {
            assert(core[p - 1] == line[s + p - 1]);
        }
        assert(p <= i - s);
        let k: int = i - s - p;
        assert(spelling::at(word, k, version)) by {
            assert forall|x: int| 0 <= x < version.len() implies #[trigger] version[x] == word[k
                + x] by {
                assert(word[k + x] == line[i + x]);
            }
        }
        lemma_at(word, k, version);
    }
    if head::ends_in_http1(line) {
        let k: int = choose|k: int| bytes::occurs_at(word, version, k);
        lemma_at(word, k, version);
        let i: int = s + p + k;
        assert(spelling::at(line, i, version)) by {
            assert forall|x: int| 0 <= x < version.len() implies #[trigger] version[x] == line[i
                + x] by {
                assert(word[k + x] == line[i + x]);
            }
        }
        assert forall|x: int| i <= x < e implies #[trigger] line[x] != 32 by {
            assert(core[x - s] == line[x]);
        }
        assert(spelling::version_stands(line, i, e));
    }
}

proof fn lemma_method_words()
    ensures
        head::methods().len() == 9,
        forall|k: int|
            #![trigger head::methods()[k]]
            #![trigger spelling::method_words()[k]]
            0 <= k < 9 ==> ascii(head::methods()[k]) == spelling::method_words()[k],
{
}

proof fn lemma_begins_request(text: Seq<u8>, method: Seq<u8>)
    ensures
        head::requests_by(text, method) <==> spelling::begins_request(text, method),
{
    lemma_begins(text, method);
    law_first_occurrence_is_found(text, head::crlf());
    assert(head::crlf() =~= spelling::line_end());
    match bytes::position(text, head::crlf()) {
        Some(end) => {
            assert(spelling::first(text, end, spelling::line_end()));
            assert(spelling::at(text, end, spelling::line_end()));
            lemma_version_last(text.subrange(method.len() as int, end));
        },
        None => {},
    }
}

/// Bytes are taken for the start of an HTTP/1.x message exactly where they begin with `HTTP/1.`, or
/// with one of the nine methods and the first line has not come whole or has `HTTP/1.` in its last
/// word.
pub proof fn law_starts_are_recognised_as_written(text: Seq<u8>)
    ensures
        head::looks_like_http1(text) <==> spelling::begins_message(text),
{
    lemma_method_words();
    lemma_begins(text, ascii("HTTP/1."@));
    assert forall|k: int| 0 <= k < 9 implies head::requests_by(
        text,
        ascii(#[trigger] head::methods()[k]),
    ) == spelling::begins_request(text, spelling::method_words()[k]) by {
        lemma_begins_request(text, ascii(head::methods()[k]));
    }
    if head::looks_like_http1(text) && !spelling::begins(text, ascii("HTTP/1."@)) {
        let k: int = choose|k: int|
            0 <= k < head::methods().len() && head::requests_by(
                text,
                ascii(#[trigger] head::methods()[k]),
            );
        assert(spelling::begins_request(text, spelling::method_words()[k]));
    }
    if spelling::begins_message(text) && !spelling::begins(text, ascii("HTTP/1."@)) {
        let k: int = choose|k: int|
            0 <= k < 9 && spelling::begins_request(text, #[trigger] spelling::method_words()[k]);
        assert(head::requests_by(text, ascii(head::methods()[k])));
    }
}

/// A request line begins an HTTP/1.x message whatever its target holds: one of the nine methods,
/// the target, `HTTP/1.` with its minor version behind a space, and the line end, whatever follows.
pub proof fn law_any_target_is_recognised(
    k: int,
    target: Seq<u8>,
    minor: Seq<u8>,
    rest: Seq<u8>,
)
    requires
        0 <= k < 9,
        spelling::lacks(target, 10, 0, target.len() as int),
        spelling::lacks(minor, 10, 0, minor.len() as int),
        spelling::lacks(minor, 32, 0, minor.len() as int),
    ensures
        head::looks_like_http1(
            spelling::method_words()[k] + target + ascii(" HTTP/1."@) + minor
                + spelling::line_end() + rest,
        ),
{
    reveal_strlit(" HTTP/1.");
    reveal_strlit("HTTP/1.");
    lemma_method_words();
    lemma_method_bytes(k);
    let method = spelling::method_words()[k];
    let line = target + ascii(" HTTP/1."@) + minor;
    let text = method + target + ascii(" HTTP/1."@) + minor + spelling::line_end() + rest;
    let n: int = method.len() as int;
    let end: int = n + line.len();
    assert(text.subrange(n, end) =~= line);
    assert(spelling::at(text, end, spelling::line_end())) by {
        assert(text[end] == 13 && text[end + 1] == 10);
    }
    assert forall|j: int| 0 <= j < end implies !#[trigger] spelling::at(
        text,
        j,
        spelling::line_end(),
    ) by {
        if spelling::at(text, j, spelling::line_end()) {
            assert(spelling::line_end()[1] == text[j + 1]);
            assert(text[j + 1] == 10);
            if j + 1 < n {
                assert(text[j + 1] == method[j + 1]);
            } else if j + 1 < end {
                let x: int = j + 1 - n;
                assert(text[j + 1] == line[x]);
                if x < target.len() {
                    assert(line[x] == target[x]);
                } else if x < target.len() + 8 {
                    assert(line[x] == ascii(" HTTP/1."@)[x - target.len()]);
                } else {
                    assert(line[x] == minor[x - target.len() - 8]);
                }
            }
        }
    }
    assert(spelling::first(text, end, spelling::line_end()));
    let i: int = target.len() as int + 1;
    assert(spelling::at(line, i, ascii("HTTP/1."@))) by {
        assert forall|x: int| 0 <= x < 7 implies #[trigger] ascii("HTTP/1."@)[x] == line[i + x] by {
            assert(line[i + x] == ascii(" HTTP/1."@)[x + 1]);
        }
    }
    assert forall|x: int| i <= x < line.len() implies #[trigger] line[x] != 32 by {
        if x < i + 7 {
            assert(line[x] == ascii(" HTTP/1."@)[x - target.len()]);
        } else {
            assert(line[x] == minor[x - i - 7]);
        }
    }
    assert(spelling::version_stands(line, i, line.len() as int));
    assert(spelling::begins(text, method)) by {
        assert forall|x: int| 0 <= x < method.len() implies #[trigger] method[x] == text[0 + x] by {}
    }
    assert(spelling::begins_request(text, spelling::method_words()[k]));
    law_starts_are_recognised_as_written(text);
}

proof fn lemma_method_bytes(k: int)
    requires
        0 <= k < 9,
    ensures
        spelling::lacks(
            spelling::method_words()[k],
            10,
            0,
            spelling::method_words()[k].len() as int,
        ),
{
    reveal_strlit("GET ");
    reveal_strlit("POST ");
    reveal_strlit("PUT ");
    reveal_strlit("PATCH ");
    reveal_strlit("DELETE ");
    reveal_strlit("HEAD ");
    reveal_strlit("OPTIONS ");
    reveal_strlit("CONNECT ");
    reveal_strlit("TRACE ");
}

/// A head is that of a response exactly where it begins with `HTTP/`, and of a HEAD request where
/// it begins with `HEAD` and a space.
pub proof fn law_heads_are_told_apart_as_written(head: Seq<u8>)
    ensures
        head::is_request_head(head) <==> !spelling::begins(head, ascii("HTTP/"@)),
        head::is_head_request(head) <==> spelling::begins(head, ascii("HEAD "@)),
{
    lemma_begins(head, ascii("HTTP/"@));
    lemma_begins(head, ascii("HEAD "@));
}

/// A head is whole with the first empty line behind it, and begins an HTTP/1.x message.
pub proof fn law_heads_are_recognised_as_written(head: Seq<u8>)
    ensures
        head::is_head(head) <==> spelling::is_whole_head(head) && spelling::begins_message(
            head + spelling::empty_line(),
        ),
{
    let text = head + spelling::empty_line();
    let n: int = head.len() as int;
    assert(head::blank_line() =~= spelling::empty_line());
    law_first_occurrence_is_found(text, head::blank_line());
    law_starts_are_recognised_as_written(text);
    assert(spelling::at(text, n, spelling::empty_line()));
    assert(spelling::first(text, n, spelling::empty_line()) <==> spelling::is_whole_head(head));
}

} // verus!
