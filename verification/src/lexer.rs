//! Tokenizing primitives: byte classes, maximal runs, and the tokens built
//! from them. Every token may be preceded by whitespace, which is skipped.

use vstd::prelude::*;

verus! {

pub const TAB: u8 = 0x09;

pub const LINE_FEED: u8 = 0x0a;

pub const CARRIAGE_RETURN: u8 = 0x0d;

pub const SPACE: u8 = 0x20;

pub const QUOTE: u8 = 0x22;

pub const OPEN_PAREN: u8 = 0x28;

pub const CLOSE_PAREN: u8 = 0x29;

pub const PLUS: u8 = 0x2b;

pub const MINUS: u8 = 0x2d;

pub const LESS: u8 = 0x3c;

pub const EQUALS: u8 = 0x3d;

pub const GREATER: u8 = 0x3e;

pub const OPEN_BRACE: u8 = 0x7b;

pub const CLOSE_BRACE: u8 = 0x7d;

/// A set of bytes; a token is a maximal run of the bytes of one class.
#[derive(Clone, Copy, Debug)]
pub enum ByteClass {
    /// Space, tab, line feed, carriage return.
    Space,
    /// Anything but whitespace, `(){}"`, `-`, `>` and `<`.
    Identifier,
    /// Anything but whitespace and `(){}"`.
    Value,
    /// Anything but `"`.
    Quoted,
    /// ASCII letters and digits.
    Alphanumeric,
}

pub open spec fn is_space(b: u8) -> bool {
    b == SPACE || b == TAB || b == LINE_FEED || b == CARRIAGE_RETURN
}

pub open spec fn is_delimiter(b: u8) -> bool {
    b == OPEN_PAREN || b == CLOSE_PAREN || b == OPEN_BRACE || b == CLOSE_BRACE || b == QUOTE
}

impl ByteClass {
    /// Whether the class holds the byte.
    pub open spec fn admits(self, b: u8) -> bool {
        match self {
            ByteClass::Space => is_space(b),
            ByteClass::Identifier => !is_space(b) && !is_delimiter(b) && b != MINUS && b != GREATER
                && b != LESS,
            ByteClass::Value => !is_space(b) && !is_delimiter(b),
            ByteClass::Quoted => b != QUOTE,
            ByteClass::Alphanumeric => (0x41 <= b <= 0x5a) || (0x61 <= b <= 0x7a) || (0x30 <= b
                <= 0x39),
        }
    }

    pub fn contains(self, b: u8) -> (r: bool)
        ensures
            r == self.admits(b),
    {
        let space = b == SPACE || b == TAB || b == LINE_FEED || b == CARRIAGE_RETURN;
        let delimiter = b == OPEN_PAREN || b == CLOSE_PAREN || b == OPEN_BRACE || b == CLOSE_BRACE
            || b == QUOTE;
        match self {
            ByteClass::Space => space,
            ByteClass::Identifier => !space && !delimiter && b != MINUS && b != GREATER && b
                != LESS,
            ByteClass::Value => !space && !delimiter,
            ByteClass::Quoted => b != QUOTE,
            ByteClass::Alphanumeric => (0x41 <= b && b <= 0x5a) || (0x61 <= b && b <= 0x7a) || (0x30
                <= b && b <= 0x39),
        }
    }
}

/// Where the maximal run of bytes of `class` that starts at `from` ends.
/// Outside the input the run is empty.
pub open spec fn run_end(s: Seq<u8>, from: int, class: ByteClass) -> int
    decreases s.len() - from,
{
    if 0 <= from < s.len() && class.admits(s[from]) {
        run_end(s, from + 1, class)
    } else {
        from
    }
}

/// A run stays inside the input, holds only bytes of its class, and is
/// followed by a byte outside the class or by the end of the input.
pub proof fn lemma_run_end(s: Seq<u8>, from: int, class: ByteClass)
    ensures
        from <= run_end(s, from, class),
        from <= s.len() ==> run_end(s, from, class) <= s.len(),
        forall|i: int| 0 <= from <= i < run_end(s, from, class) ==> class.admits(#[trigger] s[i]),
        0 <= from && run_end(s, from, class) < s.len() ==> !class.admits(
            s[run_end(s, from, class)],
        ),
    decreases s.len() - from,
{
    if 0 <= from < s.len() && class.admits(s[from]) {
        lemma_run_end(s, from + 1, class);
    }
}

/// A run within the tail of the input is the run within the input.
pub proof fn lemma_run_end_of_tail(s: Seq<u8>, start: int, i: int, class: ByteClass)
    requires
        0 <= start <= s.len(),
        0 <= i <= s.len() - start,
    ensures
        run_end(s.subrange(start, s.len() as int), i, class) + start == run_end(
            s,
            start + i,
            class,
        ),
    decreases s.len() - start - i,
{
    let tail = s.subrange(start, s.len() as int);
    if i < tail.len() && class.admits(tail[i]) {
        lemma_run_end_of_tail(s, start, i + 1, class);
    }
}

/// Scans the maximal run of bytes of `class` from `from`.
pub fn scan(input: &[u8], from: usize, class: ByteClass) -> (end: usize)
    ensures
        end == run_end(input@, from as int, class),
        from <= end,
        from <= input@.len() ==> end <= input@.len(),
{
    let mut p: usize = from;
    while p < input.len() && class.contains(input[p])
        invariant
            from <= p,
            from <= input@.len() ==> p <= input@.len(),
            run_end(input@, p as int, class) == run_end(input@, from as int, class),
        decreases input@.len() - p,
    {
        p += 1;
    }
    p
}

/// A token and the position behind it, as the grammar's functions return them.
pub open spec fn token_is(r: Option<(&[u8], usize)>, m: Option<(Seq<u8>, int)>) -> bool {
    match r {
        Some((token, end)) => m == Some((token@, end as int)),
        None => m.is_none(),
    }
}

/// A position, as the grammar's functions return it.
pub open spec fn position_is(r: Option<usize>, m: Option<int>) -> bool {
    match r {
        Some(end) => m == Some(end as int),
        None => m.is_none(),
    }
}

/// Whitespace, then a nonempty maximal run of bytes of `class`.
pub open spec fn spec_word(s: Seq<u8>, pos: int, class: ByteClass) -> Option<(Seq<u8>, int)> {
    let start = run_end(s, pos, ByteClass::Space);
    let end = run_end(s, start, class);
    if start < end {
        Some((s.subrange(start, end), end))
    } else {
        None
    }
}

/// A word is a nonempty run of bytes of its class, and no byte of the class
/// follows it.
pub proof fn lemma_word(s: Seq<u8>, pos: int, class: ByteClass)
    ensures
        spec_word(s, pos, class) matches Some((token, end)) ==> {
            &&& token.len() > 0
            &&& forall|i: int| 0 <= i < token.len() ==> class.admits(#[trigger] token[i])
            &&& end < s.len() ==> !class.admits(s[end])
        },
{
    if let Some((token, end)) = spec_word(s, pos, class) {
        let start = run_end(s, pos, ByteClass::Space);
        lemma_run_end(s, pos, ByteClass::Space);
        lemma_run_end(s, start, class);
        assert forall|i: int| 0 <= i < token.len() implies class.admits(#[trigger] token[i]) by {
            assert(token[i] == s[start + i]);
        }
    }
}

/// An identifier: a nonempty maximal run of bytes other than whitespace,
/// `(){}"`, `-`, `>` and `<`.
pub open spec fn spec_identifier(s: Seq<u8>, pos: int) -> Option<(Seq<u8>, int)> {
    spec_word(s, pos, ByteClass::Identifier)
}

/// An attribute's key: a nonempty maximal run of ASCII letters and digits.
pub open spec fn spec_key(s: Seq<u8>, pos: int) -> Option<(Seq<u8>, int)> {
    spec_word(s, pos, ByteClass::Alphanumeric)
}

/// A string literal: `"`, any bytes but `"`, and `"`. The token is what
/// stands between the quotes; there is no escape for a quote inside.
pub open spec fn spec_stringlit(s: Seq<u8>, pos: int) -> Option<(Seq<u8>, int)> {
    let open = run_end(s, pos, ByteClass::Space);
    if 0 <= open < s.len() && s[open] == QUOTE {
        let close = run_end(s, open + 1, ByteClass::Quoted);
        if close < s.len() {
            Some((s.subrange(open + 1, close), close + 1))
        } else {
            None
        }
    } else {
        None
    }
}

/// An attribute's value: a string literal, or else a nonempty maximal run of
/// bytes other than whitespace and `(){}"`.
pub open spec fn spec_value(s: Seq<u8>, pos: int) -> Option<(Seq<u8>, int)> {
    match spec_stringlit(s, pos) {
        Some(found) => Some(found),
        None => spec_word(s, pos, ByteClass::Value),
    }
}

/// Whitespace, then the byte `b`.
pub open spec fn spec_byte(s: Seq<u8>, pos: int, b: u8) -> Option<int> {
    let at = run_end(s, pos, ByteClass::Space);
    if 0 <= at < s.len() && s[at] == b {
        Some(at + 1)
    } else {
        None
    }
}

/// Whitespace, then the bytes `b1` and `b2`.
pub open spec fn spec_pair(s: Seq<u8>, pos: int, b1: u8, b2: u8) -> Option<int> {
    let at = run_end(s, pos, ByteClass::Space);
    if 0 <= at && at + 1 < s.len() && s[at] == b1 && s[at + 1] == b2 {
        Some(at + 2)
    } else {
        None
    }
}

/// Whether a result, where there is one, ends behind `pos` and inside the input.
pub open spec fn advances<T>(m: Option<(T, int)>, pos: int, len: nat) -> bool {
    match m {
        Some((_, end)) => 0 <= pos < end <= len,
        None => true,
    }
}

/// Whether a position, where there is one, lies behind `pos` and inside the input.
pub open spec fn position_advances(m: Option<int>, pos: int, len: nat) -> bool {
    match m {
        Some(end) => 0 <= pos < end <= len,
        None => true,
    }
}

/// Every token ends behind the position it was looked for at, inside the
/// input; outside the input there is no token.
pub proof fn lemma_tokens_advance(s: Seq<u8>, pos: int)
    ensures
        0 <= pos <= s.len() ==> pos <= run_end(s, pos, ByteClass::Space) <= s.len(),
        forall|class: ByteClass| advances(#[trigger] spec_word(s, pos, class), pos, s.len()),
        advances(spec_identifier(s, pos), pos, s.len()),
        advances(spec_key(s, pos), pos, s.len()),
        advances(spec_stringlit(s, pos), pos, s.len()),
        advances(spec_value(s, pos), pos, s.len()),
        forall|b: u8| position_advances(#[trigger] spec_byte(s, pos, b), pos, s.len()),
        forall|b1: u8, b2: u8|
            position_advances(#[trigger] spec_pair(s, pos, b1, b2), pos, s.len()),
{
    let start = run_end(s, pos, ByteClass::Space);
    lemma_run_end(s, pos, ByteClass::Space);
    lemma_run_end(s, start + 1, ByteClass::Quoted);
    assert forall|class: ByteClass| advances(#[trigger] spec_word(s, pos, class), pos, s.len()) by {
        lemma_run_end(s, start, class);
    }
}

/// Skips whitespace.
pub fn skip_spaces(input: &[u8], pos: usize) -> (end: usize)
    ensures
        end == run_end(input@, pos as int, ByteClass::Space),
        pos <= end,
        pos <= input@.len() ==> end <= input@.len(),
{
    scan(input, pos, ByteClass::Space)
}

/// Whitespace, then a nonempty run of bytes of `class`.
pub fn word<'a>(input: &'a [u8], pos: usize, class: ByteClass) -> (r: Option<(&'a [u8], usize)>)
    ensures
        token_is(r, spec_word(input@, pos as int, class)),
{
    let start = skip_spaces(input, pos);
    let end = scan(input, start, class);
    if start < end {
        proof {
            lemma_run_end(input@, start as int, class);
        }
        Some((&input[start..end], end))
    } else {
        None
    }
}

/// Reads an identifier.
pub fn identifier<'a>(input: &'a [u8], pos: usize) -> (r: Option<(&'a [u8], usize)>)
    ensures
        token_is(r, spec_identifier(input@, pos as int)),
{
    word(input, pos, ByteClass::Identifier)
}

/// `nom::alphanumeric` on a byte slice: the longest prefix of ASCII letters
/// and digits, or nothing where the input is empty or starts with another
/// byte. Trusted: nom's code is not verified here.
#[verifier::external_body]
fn alphanumeric<'a>(input: &'a [u8]) -> (r: Option<&'a [u8]>)
    ensures
        match r {
            Some(run) => run@.len() > 0 && run@ == input@.subrange(
                0,
                run_end(input@, 0, ByteClass::Alphanumeric),
            ),
            None => run_end(input@, 0, ByteClass::Alphanumeric) == 0,
        },
{
    match nom::alphanumeric(input) {
        nom::IResult::Done(_, run) => Some(run),
        nom::IResult::Error(_) => None,
        nom::IResult::Incomplete(_) => None,
    }
}

/// Reads an attribute's key.
pub fn key<'a>(input: &'a [u8], pos: usize) -> (r: Option<(&'a [u8], usize)>)
    ensures
        token_is(r, spec_key(input@, pos as int)),
{
    let start = skip_spaces(input, pos);
    if start > input.len() {
        return None;
    }
    let tail = &input[start..input.len()];
    proof {
        lemma_run_end_of_tail(input@, start as int, 0, ByteClass::Alphanumeric);
        lemma_run_end(input@, start as int, ByteClass::Alphanumeric);
    }
    match alphanumeric(tail) {
        Some(run) => {
            let end = start + run.len();
            assert(run@ =~= input@.subrange(start as int, end as int));
            Some((run, end))
        },
        None => None,
    }
}

/// Reads a string literal and returns what stands between its quotes.
pub fn stringlit<'a>(input: &'a [u8], pos: usize) -> (r: Option<(&'a [u8], usize)>)
    ensures
        token_is(r, spec_stringlit(input@, pos as int)),
{
    let open = skip_spaces(input, pos);
    if open < input.len() && input[open] == QUOTE {
        let close = scan(input, open + 1, ByteClass::Quoted);
        if close < input.len() {
            Some((&input[open + 1..close], close + 1))
        } else {
            None
        }
    } else {
        None
    }
}

/// Reads an attribute's value, quoted or bare.
pub fn value<'a>(input: &'a [u8], pos: usize) -> (r: Option<(&'a [u8], usize)>)
    ensures
        token_is(r, spec_value(input@, pos as int)),
{
    match stringlit(input, pos) {
        Some(found) => Some(found),
        None => word(input, pos, ByteClass::Value),
    }
}

/// Whitespace, then the byte `b`.
pub fn byte(input: &[u8], pos: usize, b: u8) -> (r: Option<usize>)
    ensures
        position_is(r, spec_byte(input@, pos as int, b)),
{
    let at = skip_spaces(input, pos);
    if at < input.len() && input[at] == b {
        Some(at + 1)
    } else {
        None
    }
}

/// Whitespace, then the bytes `b1` and `b2`.
pub fn pair(input: &[u8], pos: usize, b1: u8, b2: u8) -> (r: Option<usize>)
    ensures
        position_is(r, spec_pair(input@, pos as int, b1, b2)),
{
    let at = skip_spaces(input, pos);
    if at < input.len() && input.len() - at >= 2 && input[at] == b1 && input[at + 1] == b2 {
        Some(at + 2)
    } else {
        None
    }
}

} // verus!
