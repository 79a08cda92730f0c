//! Searching, splitting and reading numbers in byte strings.

use vstd::prelude::*;

verus! {

pub const TAB: u8 = 9;

pub const LF: u8 = 10;

pub const CR: u8 = 13;

pub const SPACE: u8 = 32;

pub const PLUS: u8 = 43;

pub const COLON: u8 = 58;

pub const SEMICOLON: u8 = 59;

/// The bytes of a text that holds ASCII characters only.
pub open spec fn ascii(text: Seq<char>) -> Seq<u8> {
    text.map_values(|c: char| c as u8)
}

/// The bytes of an ASCII string literal.
pub(crate) fn literal(text: &str) -> (r: &[u8])
    requires
        text.is_ascii(),
    ensures
        r@ == ascii(text@),
{
    proof {
        vstd::string::is_ascii_spec_bytes(text);
    }
    let r: &[u8] = text.as_bytes();
    assert(r@ =~= ascii(text@));
    r
}

/// `pattern` stands in `text` from index `i` on.
pub open spec fn occurs_at(text: Seq<u8>, pattern: Seq<u8>, i: int) -> bool {
    0 <= i <= text.len() - pattern.len() && text.subrange(i, i + pattern.len()) == pattern
}

/// `pattern` stands somewhere in `text`.
pub open spec fn occurs(text: Seq<u8>, pattern: Seq<u8>) -> bool {
    exists|i: int| occurs_at(text, pattern, i)
}

/// `i` is where `pattern` first stands in `text`.
pub open spec fn first_at(text: Seq<u8>, pattern: Seq<u8>, i: int) -> bool {
    occurs_at(text, pattern, i) && forall|j: int| 0 <= j < i ==> !occurs_at(text, pattern, j)
}

/// Where `pattern` first stands in `text`, if it does.
pub open spec fn position(text: Seq<u8>, pattern: Seq<u8>) -> Option<int> {
    if exists|i: int| first_at(text, pattern, i) {
        Some(choose|i: int| first_at(text, pattern, i))
    } else {
        None
    }
}

proof fn lemma_first_exists(text: Seq<u8>, pattern: Seq<u8>, i: int)
    requires
        occurs_at(text, pattern, i),
    ensures
        exists|k: int| first_at(text, pattern, k),
    decreases i,
{
    if exists|j: int| 0 <= j < i && occurs_at(text, pattern, j) {
        let j: int = choose|j: int| 0 <= j < i && occurs_at(text, pattern, j);
        lemma_first_exists(text, pattern, j);
    } else {
        assert(first_at(text, pattern, i));
    }
}

/// What `position` returns is the first occurrence, and it returns nothing only where there is none.
pub proof fn lemma_position(text: Seq<u8>, pattern: Seq<u8>)
    ensures
        match position(text, pattern) {
            Some(i) => first_at(text, pattern, i),
            None => !occurs(text, pattern),
        },
{
    if occurs(text, pattern) {
        lemma_first_exists(text, pattern, choose|i: int| occurs_at(text, pattern, i));
    }
}

/// A first occurrence is what `position` returns.
pub proof fn lemma_position_is(text: Seq<u8>, pattern: Seq<u8>, i: int)
    requires
        first_at(text, pattern, i),
    ensures
        position(text, pattern) == Some(i),
{
    let k: int = choose|k: int| first_at(text, pattern, k);
    assert(first_at(text, pattern, k));
    assert(!(k < i) && !(i < k));
}

/// An occurrence inside `text` stays the same occurrence when bytes follow.
pub proof fn lemma_occurs_at_extended(text: Seq<u8>, more: Seq<u8>, pattern: Seq<u8>, i: int)
    ensures
        occurs_at(text, pattern, i) ==> occurs_at(text + more, pattern, i),
        i + pattern.len() <= text.len() && occurs_at(text + more, pattern, i) ==> occurs_at(
            text,
            pattern,
            i,
        ),
{
    if 0 <= i && i + pattern.len() <= text.len() {
        assert((text + more).subrange(i, i + pattern.len()) =~= text.subrange(
            i,
            i + pattern.len(),
        ));
    }
}

/// Bytes that follow do not move a first occurrence, and bring a new one only past the old text.
pub proof fn lemma_position_extended(text: Seq<u8>, more: Seq<u8>, pattern: Seq<u8>)
    ensures
        position(text, pattern) is Some ==> position(text + more, pattern) == position(
            text,
            pattern,
        ),
        position(text, pattern) is None ==> match position(text + more, pattern) {
            Some(i) => i + pattern.len() > text.len(),
            None => true,
        },
{
    lemma_position(text, pattern);
    lemma_position(text + more, pattern);
    match position(text, pattern) {
        Some(i) => {
            lemma_occurs_at_extended(text, more, pattern, i);
            assert forall|j: int| 0 <= j < i implies !occurs_at(text + more, pattern, j) by {
                lemma_occurs_at_extended(text, more, pattern, j);
            }
            lemma_position_is(text + more, pattern, i);
        },
        None => {
            if let Some(i) = position(text + more, pattern) {
                lemma_occurs_at_extended(text, more, pattern, i);
            }
        },
    }
}

/// Whether `pattern` stands in `text` at `at`.
fn matches_at(text: &[u8], pattern: &[u8], at: usize) -> (r: bool)
    requires
        at + pattern@.len() <= text@.len(),
    ensures
        r == occurs_at(text@, pattern@, at as int),
{
    let mut k: usize = 0;
    while k < pattern.len()
        invariant
            k <= pattern@.len(),
            at + pattern@.len() <= text.len(),
            forall|j: int| 0 <= j < k ==> text@[at + j] == pattern@[j],
        decreases pattern@.len() - k,
    {
        if text[at + k] != pattern[k] {
            proof {
                let window = text@.subrange(at as int, at + pattern@.len());
                assert(window[k as int] == text@[at + k]);
            }
            return false;
        }
        k = k + 1;
    }
    assert(text@.subrange(at as int, at + pattern@.len()) =~= pattern@);
    true
}

/// Where `needle` first stands in `haystack`.
pub fn find(haystack: &[u8], needle: &[u8]) -> (r: Option<usize>)
    requires
        needle@.len() > 0,
    ensures
        position(haystack@, needle@) == (match r {
            Some(i) => Some(i as int),
            None => None,
        }),
{
    if needle.len() > haystack.len() {
        proof {
            lemma_position(haystack@, needle@);
        }
        return None;
    }
    let last: usize = haystack.len() - needle.len();
    let mut i: usize = 0;
    loop
        invariant
            i <= last,
            last == haystack@.len() - needle@.len(),
            forall|j: int| 0 <= j < i ==> !occurs_at(haystack@, needle@, j),
        decreases last - i,
    {
        if matches_at(haystack, needle, i) {
            proof {
                lemma_position_is(haystack@, needle@, i as int);
            }
            return Some(i);
        }
        if i == last {
            proof {
                lemma_position(haystack@, needle@);
            }
            return None;
        }
        i = i + 1;
    }
}

/// Whether `text` begins with `prefix`.
pub fn starts_with(text: &[u8], prefix: &[u8]) -> (r: bool)
    ensures
        r == prefix@.is_prefix_of(text@),
{
    prefix.len() <= text.len() && matches_at(text, prefix, 0)
}

/// The pieces of `text` between the bytes `separator`.
pub open spec fn split(text: Seq<u8>, separator: u8) -> Seq<Seq<u8>>
    decreases text.len(),
{
    match position(text, seq![separator]) {
        Some(i) => {
            proof {
                lemma_position(text, seq![separator]);
            }
            seq![text.take(i)] + split(text.skip(i + 1), separator)
        },
        None => seq![text],
    }
}

/// The piece of `text` behind the last byte `separator`.
pub fn last_part(text: &[u8], separator: u8) -> (r: &[u8])
    ensures
        r@ == split(text@, separator).last(),
{
    let mut rest: &[u8] = text;
    assert([separator]@ =~= seq![separator]);
    loop
        invariant
            [separator]@ == seq![separator],
            split(rest@, separator).last() == split(text@, separator).last(),
        decreases rest@.len(),
    {
        proof {
            lemma_position(rest@, seq![separator]);
        }
        match find(rest, &[separator]) {
            Some(i) => {
                assert(i < rest.len());
                let after: &[u8] = &rest[i + 1..rest.len()];
                assert(after@ =~= rest@.skip(i + 1));
                assert(split(after@, separator).len() > 0);
                rest = after;
            },
            None => {
                return rest;
            },
        }
    }
}

/// Blanks and tabs.
pub open spec fn is_blank(b: u8) -> bool {
    b == SPACE || b == TAB
}

/// `text` without the blanks at its front.
pub open spec fn trimmed_start(text: Seq<u8>) -> Seq<u8>
    decreases text.len(),
{
    if text.len() > 0 && is_blank(text[0]) {
        trimmed_start(text.drop_first())
    } else {
        text
    }
}

/// `text` without the blanks at its back.
pub open spec fn trimmed_end(text: Seq<u8>) -> Seq<u8>
    decreases text.len(),
{
    if text.len() > 0 && is_blank(text.last()) {
        trimmed_end(text.drop_last())
    } else {
        text
    }
}

/// `text` without the blanks at either end.
pub open spec fn trimmed(text: Seq<u8>) -> Seq<u8> {
    trimmed_end(trimmed_start(text))
}

/// Takes the blanks and tabs off both ends.
pub fn trim(s: &[u8]) -> (r: &[u8])
    ensures
        r@ == trimmed(s@),
{
    let mut start: usize = 0;
    assert(s@.skip(0) =~= s@);
    while start < s.len() && (s[start] == SPACE || s[start] == TAB)
        invariant
            start <= s@.len(),
            trimmed_start(s@.skip(start as int)) == trimmed_start(s@),
        decreases s@.len() - start,
    {
        assert(s@.skip(start as int).drop_first() =~= s@.skip(start + 1));
        start = start + 1;
    }
    assert(trimmed_start(s@) == s@.skip(start as int));
    let mut end: usize = s.len();
    assert(s@.subrange(start as int, end as int) =~= s@.skip(start as int));
    while end > start && (s[end - 1] == SPACE || s[end - 1] == TAB)
        invariant
            start <= end <= s@.len(),
            trimmed_end(s@.subrange(start as int, end as int)) == trimmed(s@),
        decreases end,
    {
        assert(s@.subrange(start as int, end as int).drop_last() =~= s@.subrange(
            start as int,
            end - 1,
        ));
        end = end - 1;
    }
    &s[start..end]
}

/// The value of a digit in base `radix`.
pub open spec fn digit_value(b: u8, radix: nat) -> Option<nat> {
    let v: int = if 48 <= b <= 57 {
        b - 48
    } else if 65 <= b <= 70 {
        b - 55
    } else if 97 <= b <= 102 {
        b - 87
    } else {
        radix as int
    };
    if v < radix {
        Some(v as nat)
    } else {
        None
    }
}

/// The value of a run of digits in base `radix`, the most significant first.
pub open spec fn digits_value(digits: Seq<u8>, radix: nat) -> Option<nat>
    decreases digits.len(),
{
    if digits.len() == 0 {
        Some(0)
    } else {
        match (digits_value(digits.drop_last(), radix), digit_value(digits.last(), radix)) {
            (Some(high), Some(low)) => Some(high * radix + low),
            _ => None,
        }
    }
}

/// The value of a written number: one digit or more, behind a plus sign or not.
pub open spec fn number(text: Seq<u8>, radix: nat) -> Option<nat> {
    let digits = if text.len() > 0 && text[0] == PLUS {
        text.skip(1)
    } else {
        text
    };
    if digits.len() == 0 {
        None
    } else {
        digits_value(digits, radix)
    }
}

/// `n`, or `usize::MAX` where a `usize` cannot hold it.
pub open spec fn saturated(n: nat) -> usize {
    if n <= usize::MAX {
        n as usize
    } else {
        usize::MAX
    }
}

/// The value of a digit in base `radix`.
fn read_digit(b: u8, radix: u8) -> (r: Option<u8>)
    requires
        radix <= 16,
    ensures
        digit_value(b, radix as nat) == (match r {
            Some(v) => Some(v as nat),
            None => None,
        }),
{
    let v: u8 = if 48 <= b && b <= 57 {
        b - 48
    } else if 65 <= b && b <= 70 {
        b - 55
    } else if 97 <= b && b <= 102 {
        b - 87
    } else {
        radix
    };
    if v < radix {
        Some(v)
    } else {
        None
    }
}

proof fn lemma_digits_value_prefix(digits: Seq<u8>, radix: nat, k: int)
    requires
        0 <= k <= digits.len(),
        digits_value(digits.take(k), radix) is None,
    ensures
        digits_value(digits, radix) is None,
    decreases digits.len(),
{
    if k == digits.len() {
        assert(digits.take(k) =~= digits);
    } else {
        assert(digits.drop_last().take(k) =~= digits.take(k));
        lemma_digits_value_prefix(digits.drop_last(), radix, k);
    }
}

/// Reads a number in base `radix`. One that a `usize` cannot hold is read as `usize::MAX`.
pub fn read_number(text: &[u8], radix: u8) -> (r: Option<usize>)
    requires
        2 <= radix <= 16,
    ensures
        match number(text@, radix as nat) {
            Some(n) => r == Some(saturated(n)),
            None => r is None,
        },
{
    let start: usize = if text.len() > 0 && text[0] == PLUS { 1 } else { 0 };
    if start == text.len() {
        return None;
    }
    let ghost digits = text@.skip(start as int);
    assert(start == 0 ==> digits =~= text@);
    let mut value: u128 = 0;
    let mut i: usize = start;
    assert(digits.take(0) =~= Seq::<u8>::empty());
    while i < text.len()
        invariant
            2 <= radix <= 16,
            start <= i <= text@.len(),
            start <= 1,
            start < text@.len(),
            digits == text@.skip(start as int),
            number(text@, radix as nat) == digits_value(digits, radix as nat),
            digits_value(digits.take(i - start), radix as nat) matches Some(n) && value
                == saturated(n),
        decreases text@.len() - i,
    {
        let ghost before = digits.take(i - start);
        let ghost after = digits.take(i - start + 1);
        assert(after.drop_last() =~= before);
        assert(after.last() == text@[i as int]);
        match read_digit(text[i], radix) {
            Some(d) => {
                proof {
                    let high: nat = digits_value(before, radix as nat)->0;
                    let r: int = radix as int;
                    let v: int = value as int;
                    assert(v * r <= 0xffff_ffff_ffff_ffff * 16) by (nonlinear_arith)
                        requires
                            0 <= v <= 0xffff_ffff_ffff_ffff,
                            2 <= r <= 16,
                    ;
                    assert(v * r >= v) by (nonlinear_arith)
                        requires
                            0 <= v,
                            2 <= r <= 16,
                    ;
                    assert(high * r >= high) by (nonlinear_arith)
                        requires
                            0 <= high,
                            2 <= r <= 16,
                    ;
                }
                let next: u128 = value * (radix as u128) + (d as u128);
                value = if next <= usize::MAX as u128 {
                    next
                } else {
                    usize::MAX as u128
                };
            },
            None => {
                proof {
                    lemma_digits_value_prefix(digits, radix as nat, i - start + 1);
                }
                return None;
            },
        }
        i = i + 1;
    }
    assert(digits.take(i - start) =~= digits);
    Some(value as usize)
}

/// A letter in lower case; any other byte as it is.
pub open spec fn lower(b: u8) -> u8 {
    if 65 <= b <= 90 {
        (b + 32) as u8
    } else {
        b
    }
}

/// `text` with its letters in lower case.
pub open spec fn lowered(text: Seq<u8>) -> Seq<u8> {
    text.map_values(|b: u8| lower(b))
}

/// `text` with its letters in lower case.
pub fn to_lower(text: &[u8]) -> (r: Vec<u8>)
    ensures
        r@ == lowered(text@),
{
    let mut r: Vec<u8> = Vec::new();
    let mut i: usize = 0;
    while i < text.len()
        invariant
            i <= text@.len(),
            r@.len() == i,
            forall|j: int| 0 <= j < i ==> r@[j] == lower(text@[j]),
        decreases text@.len() - i,
    {
        let b: u8 = text[i];
        r.push(if 65 <= b && b <= 90 { b + 32 } else { b });
        i = i + 1;
    }
    assert(r@ =~= lowered(text@));
    r
}

/// Whether two texts are equal but for the case of their letters.
pub fn eq_ignore_case(a: &[u8], b: &[u8]) -> (r: bool)
    ensures
        r == (lowered(a@) == lowered(b@)),
{
    if a.len() != b.len() {
        assert(lowered(a@).len() != lowered(b@).len());
        return false;
    }
    let x: Vec<u8> = to_lower(a);
    let y: Vec<u8> = to_lower(b);
    assert(x@.subrange(0, y@.len() as int) =~= x@);
    matches_at(x.as_slice(), y.as_slice(), 0)
}

} // verus!
