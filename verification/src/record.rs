//! The grammar of one collapsed stack line.
//!
//! A line is its frame path, one space and a count. The path is a list of
//! labels joined by `;`. Whatever follows a second space is ignored. The
//! grammar is stated over the line's UTF-8 bytes: every delimiter is an ASCII
//! byte, so that each field is itself well-formed text.

use vstd::prelude::*;
use vstd::string::StringSliceAdditionalSpecFns;
use vstd::utf8::*;

verus! {

/// The byte between the frame path and the count.
pub const SPACE: u8 = 0x20;

/// The byte between two labels of a frame path.
pub const SEMICOLON: u8 = 0x3b;

/// The sign that may stand before the digits of a count.
pub const PLUS: u8 = 0x2b;

/// What one line says: the labels from the outermost frame inwards, and how
/// often that stack was sampled.
pub struct Record {
    pub frames: Seq<Seq<char>>,
    pub count: nat,
}

/// Index of the first `b` in `s`, or the length of `s` where there is none.
pub open spec fn find(s: Seq<u8>, b: u8) -> int
    decreases s.len(),
{
    if s.len() == 0 || s[0] == b {
        0
    } else {
        1 + find(s.skip(1), b)
    }
}

/// `find` is characterised by what it returns: no `b` before that index, and
/// a `b` at it unless it is the end.
pub proof fn lemma_find_unique(s: Seq<u8>, b: u8, i: int)
    requires
        0 <= i <= s.len(),
        forall|j: int| 0 <= j < i ==> s[j] != b,
        i < s.len() ==> s[i] == b,
    ensures
        find(s, b) == i,
    decreases i,
{
    if i > 0 {
        lemma_find_unique(s.skip(1), b, i - 1);
    }
}

pub proof fn lemma_find_bounds(s: Seq<u8>, b: u8)
    ensures
        0 <= find(s, b) <= s.len(),
        find(s, b) < s.len() ==> s[find(s, b)] == b,
        forall|j: int| 0 <= j < find(s, b) ==> s[j] != b,
    decreases s.len(),
{
    if s.len() == 0 || s[0] == b {
    } else {
        lemma_find_bounds(s.skip(1), b);
        assert forall|j: int| 0 <= j < find(s, b) implies s[j] != b by {
            if j > 0 {
                assert(s.skip(1)[j - 1] == s[j]);
            }
        }
    }
}

/// The fields of `s` between occurrences of `b`. There is always at least
/// one field; two adjacent delimiters enclose an empty one.
pub open spec fn split(s: Seq<u8>, b: u8) -> Seq<Seq<u8>>
    decreases s.len(),
{
    let i = find(s, b);
    if 0 <= i < s.len() {
        seq![s.take(i)] + split(s.skip(i + 1), b)
    } else {
        seq![s]
    }
}

pub open spec fn is_digit(b: u8) -> bool {
    0x30 <= b <= 0x39
}

/// The number that a string of decimal digits denotes.
pub open spec fn digits_value(s: Seq<u8>) -> nat
    decreases s.len(),
{
    if s.len() == 0 {
        0
    } else {
        digits_value(s.drop_last()) * 10 + (s.last() - 0x30) as nat
    }
}

/// The digits of a count token: the token without a leading `+`.
pub open spec fn digits_of(token: Seq<u8>) -> Seq<u8> {
    if token.len() > 0 && token[0] == PLUS {
        token.skip(1)
    } else {
        token
    }
}

/// The count that a token denotes: an optional `+` and at least one decimal
/// digit, nothing else, and a value that fits the machine word.
pub open spec fn number(token: Seq<u8>) -> Option<nat> {
    let digits = digits_of(token);
    if digits.len() > 0 && (forall|i: int| 0 <= i < digits.len() ==> is_digit(#[trigger] digits[i]))
        && digits_value(digits) <= usize::MAX {
        Some(digits_value(digits))
    } else {
        None
    }
}

/// The text of each field.
pub open spec fn decoded(fields: Seq<Seq<u8>>) -> Seq<Seq<char>> {
    Seq::new(fields.len(), |i: int| decode_utf8(fields[i]))
}

/// The frame path of a line: what stands before the first space.
pub open spec fn path_field(line: Seq<u8>) -> Seq<u8> {
    line.take(find(line, SPACE))
}

/// The count token of a line: what stands between the first space and the
/// second, where the line has a space at all.
pub open spec fn count_field(line: Seq<u8>) -> Option<Seq<u8>> {
    let i = find(line, SPACE);
    if 0 <= i < line.len() {
        let rest = line.skip(i + 1);
        Some(rest.take(find(rest, SPACE)))
    } else {
        None
    }
}

/// The labels of a line. An empty path has no frame at all; any other path
/// has one label per field, empty fields included.
pub open spec fn frames_of(line: Seq<u8>) -> Seq<Seq<char>> {
    let path = path_field(line);
    if path.len() == 0 {
        Seq::empty()
    } else {
        decoded(split(path, SEMICOLON))
    }
}

/// The count of a line: 1 where the token is missing or denotes no number.
pub open spec fn count_of(line: Seq<u8>) -> nat {
    match count_field(line) {
        Some(token) => match number(token) {
            Some(n) => n,
            None => 1,
        },
        None => 1,
    }
}

pub open spec fn record_of(line: Seq<u8>) -> Record {
    Record { frames: frames_of(line), count: count_of(line) }
}

/// The labels that a list of string slices holds.
pub open spec fn labels(frames: Seq<&str>) -> Seq<Seq<char>> {
    Seq::new(frames.len(), |i: int| frames[i]@)
}

/// One parsed line. The labels borrow from the line.
#[derive(Debug)]
pub struct StackLine<'a> {
    pub frames: Vec<&'a str>,
    pub count: usize,
}

impl<'a> View for StackLine<'a> {
    type V = Record;

    open spec fn view(&self) -> Record {
        Record { frames: labels(self.frames@), count: self.count as nat }
    }
}

proof fn lemma_boundary_at_ascii(bytes: Seq<u8>, at: int)
    requires
        valid_utf8(bytes),
        0 <= at <= bytes.len(),
        at < bytes.len() ==> bytes[at] < 0x80,
    ensures
        is_char_boundary(bytes, at),
{
    if at < bytes.len() {
        is_char_boundary_iff_not_is_continuation_byte(bytes, at);
    } else {
        is_char_boundary_start_end_of_seq(bytes);
    }
}

proof fn lemma_boundary_after_ascii(bytes: Seq<u8>)
    requires
        valid_utf8(bytes),
        bytes.len() >= 1,
        bytes[0] < 0x80,
    ensures
        is_char_boundary(bytes, 1),
{
    reveal_with_fuel(is_char_boundary, 2);
    reveal_with_fuel(valid_utf8, 2);
}

proof fn lemma_digits_prefix(s: Seq<u8>, k: int)
    requires
        0 <= k <= s.len(),
    ensures
        digits_value(s.take(k)) <= digits_value(s),
    decreases s.len(),
{
    if k == s.len() {
        assert(s.take(k) =~= s);
    } else {
        lemma_digits_prefix(s.drop_last(), k);
        assert(s.drop_last().take(k) =~= s.take(k));
    }
}

/// Index of the first `b` in the text, or its length in bytes.
fn find_byte(text: &str, b: u8) -> (i: usize)
    ensures
        i == find(text.spec_bytes(), b),
{
    let bytes = text.as_bytes();
    let n: usize = bytes.len();
    let mut i: usize = 0;
    while i < n && bytes[i] != b
        invariant
            n == bytes@.len(),
            0 <= i <= n,
            forall|j: int| 0 <= j < i ==> bytes@[j] != b,
        decreases n - i,
    {
        i += 1;
    }
    proof {
        lemma_find_unique(bytes@, b, i as int);
    }
    i
}

/// Cuts the text at the first `b`: what stands before it, and what stands
/// after it where there is one.
fn cut<'a>(text: &'a str, b: u8) -> (parts: (&'a str, Option<&'a str>))
    requires
        b < 0x80,
    ensures
        parts.0.spec_bytes() == text.spec_bytes().take(find(text.spec_bytes(), b)),
        find(text.spec_bytes(), b) < text.spec_bytes().len() ==> parts.1 is Some
            && parts.1->0.spec_bytes() == text.spec_bytes().skip(find(text.spec_bytes(), b) + 1),
        find(text.spec_bytes(), b) >= text.spec_bytes().len() ==> parts.1 is None,
{
    let at = find_byte(text, b);
    let ghost bytes = text.spec_bytes();
    proof {
        lemma_find_bounds(bytes, b);
        encode_utf8_valid_utf8(text@);
        lemma_boundary_at_ascii(bytes, at as int);
    }
    let (head, tail) = text.split_at(at);
    if at < text.as_bytes().len() {
        proof {
            assert(tail.spec_bytes()[0] == bytes[at as int]);
            encode_utf8_valid_utf8(tail@);
            lemma_boundary_after_ascii(tail.spec_bytes());
        }
        let halves = tail.split_at(1);
        let rest: &'a str = halves.1;
        assert(rest.spec_bytes() =~= bytes.skip(at + 1));
        (head, Some(rest))
    } else {
        (head, None)
    }
}

/// Reads a count token.
pub fn parse_count(token: &str) -> (r: Option<usize>)
    ensures
        match r {
            Some(n) => number(token.spec_bytes()) == Some(n as nat),
            None => number(token.spec_bytes()) is None,
        },
{
    let bytes = token.as_bytes();
    let n: usize = bytes.len();
    let start: usize = if n > 0 && bytes[0] == PLUS {
        1
    } else {
        0
    };
    if start == n {
        return None;
    }
    let ghost digits = digits_of(bytes@);
    assert(digits =~= bytes@.skip(start as int));
    let mut acc: usize = 0;
    let mut i: usize = start;
    assert(digits.take(0) =~= Seq::<u8>::empty());
    while i < n
        invariant
            bytes@ == token.spec_bytes(),
            n == bytes@.len(),
            start <= i <= n,
            start < n,
            digits == bytes@.skip(start as int),
            digits == digits_of(bytes@),
            forall|j: int| 0 <= j < i - start ==> is_digit(#[trigger] digits[j]),
            acc == digits_value(digits.take(i - start)),
        decreases n - i,
    {
        let b: u8 = bytes[i];
        let ghost k = i - start;
        proof {
            assert(digits[k] == b);
            assert(digits.take(k + 1).drop_last() =~= digits.take(k));
            assert(digits.take(k + 1).last() == b);
            lemma_digits_prefix(digits, k + 1);
        }
        if b < 0x30 || b > 0x39 {
            assert(!is_digit(digits[k]));
            return None;
        }
        let d: usize = (b - 0x30) as usize;
        match acc.checked_mul(10) {
            None => {
                return None;
            },
            Some(tens) => match tens.checked_add(d) {
                None => {
                    return None;
                },
                Some(next) => {
                    acc = next;
                },
            },
        }
        i += 1;
    }
    assert(digits.take(n - start) =~= digits);
    Some(acc)
}

/// Splits a frame path into its labels.
fn split_path<'a>(path: &'a str) -> (frames: Vec<&'a str>)
    ensures
        labels(frames@) == decoded(split(path.spec_bytes(), SEMICOLON)),
{
    let ghost whole = split(path.spec_bytes(), SEMICOLON);
    let mut frames: Vec<&'a str> = Vec::new();
    let mut rest: &'a str = path;
    let mut open: bool = true;
    let ghost mut done: Seq<Seq<u8>> = Seq::empty();
    assert(done + whole =~= whole);
    assert(labels(frames@) =~= decoded(done));
    while open
        invariant
            open ==> done + split(rest.spec_bytes(), SEMICOLON) == whole,
            !open ==> done == whole,
            labels(frames@) == decoded(done),
        decreases
                (if open {
                    rest.spec_bytes().len() + 1
                } else {
                    0
                }),
    {
        let ghost before = rest.spec_bytes();
        let ghost had = frames@;
        let ghost had_done = done;
        let (field, more) = cut(rest, SEMICOLON);
        frames.push(field);
        proof {
            lemma_find_bounds(before, SEMICOLON);
            encode_utf8_decode_utf8(field@);
            done = had_done.push(field.spec_bytes());
            assert(labels(had).len() == decoded(had_done).len());
            assert(labels(frames@) =~= decoded(done)) by {
                assert forall|i: int| 0 <= i < frames@.len() implies labels(frames@)[i] == decoded(
                    done,
                )[i] by {
                    if i < had.len() {
                        assert(labels(had)[i] == decoded(had_done)[i]);
                    }
                }
            }
            if more is Some {
                assert(done + split(more->0.spec_bytes(), SEMICOLON) =~= had_done + split(
                    before,
                    SEMICOLON,
                ));
            } else {
                assert(before.take(before.len() as int) =~= before);
                assert(done =~= had_done + split(before, SEMICOLON));
            }
        }
        match more {
            Some(tail) => {
                rest = tail;
            },
            None => {
                open = false;
            },
        }
    }
    frames
}

/// Reads one collapsed stack line.
pub fn parse_line<'a>(line: &'a str) -> (rec: StackLine<'a>)
    ensures
        rec@ == record_of(line.spec_bytes()),
{
    let (path, rest) = cut(line, SPACE);
    proof {
        lemma_find_bounds(line.spec_bytes(), SPACE);
    }
    let count: usize = match rest {
        Some(rest) => {
            let (token, _) = cut(rest, SPACE);
            match parse_count(token) {
                Some(n) => n,
                None => 1,
            }
        },
        None => 1,
    };
    let frames: Vec<&'a str> = if path.as_bytes().len() == 0 {
        Vec::new()
    } else {
        split_path(path)
    };
    let rec = StackLine { frames, count };
    assert(rec@.frames =~= frames_of(line.spec_bytes()));
    assert(rec@.count == count_of(line.spec_bytes()));
    rec
}

} // verus!
