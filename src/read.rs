//! Byte readers with position tracking, and the two scans that the lexer
//! delegates to them: numbers and string bodies.
use crate::grammar::{
    all_hex, digits_end, escape_from, exponent_from, fraction_from, hex4, hex_val, integer_from,
    is_hex, lemma_escape_advances, lemma_prepend_assoc, number_from, number_tail, prepend,
    string_from, ws_end,
};
use vstd::prelude::*;
use vstd::string::StringSliceAdditionalSpecFns;
use vstd::utf8::{encode_scalar, is_scalar};

verus! {

/// Where the reader stands in the input.
#[derive(Debug, Clone, Copy, PartialEq, Eq, Structural)]
pub struct Position {
    /// Line number, starting from `1`.
    pub line: usize,
    /// Column number, starting from `0`; reset after each newline.
    pub column: usize,
    /// Number of bytes consumed since the beginning of the input.
    pub offset: usize,
}

/// The position after consuming the first `i` bytes of `s`.
pub open spec fn pos_at(s: Seq<u8>, i: int) -> Position
    decreases i,
{
    if i <= 0 {
        Position { line: 1, column: 0, offset: 0 }
    } else {
        let p = pos_at(s, i - 1);
        if s[i - 1] == 0x0Au8 {
            Position { line: (p.line + 1) as usize, column: 0, offset: (p.offset + 1) as usize }
        } else {
            Position { line: p.line, column: (p.column + 1) as usize, offset: (p.offset + 1) as usize }
        }
    }
}

/// Positions grow with the number of bytes consumed, and fit their fields.
pub proof fn lemma_pos_bounds(s: Seq<u8>, i: int)
    requires
        0 <= i < usize::MAX,
    ensures
        pos_at(s, i).offset == i,
        1 <= pos_at(s, i).line <= i + 1,
        pos_at(s, i).column <= i,
    decreases i,
{
    if i > 0 {
        lemma_pos_bounds(s, i - 1);
    }
}

impl Default for Position {
    /// The position before any byte is consumed.
    fn default() -> (r: Position)
        ensures
            r == pos_at(Seq::<u8>::empty(), 0),
    {
        Position { line: 1, column: 0, offset: 0 }
    }
}

/// An error raised while reading bytes.
#[derive(Debug, Clone, Copy, PartialEq, Eq, Structural)]
pub enum ReadError {
    /// The input ended in the middle of a value.
    UnexpectedEndOfInput(Position),
    /// The input ended before the closing quote of a string.
    UnclosedString(Position),
    /// A backslash escape is malformed.
    InvalidEscapeSequence(Position),
    /// A raw control character (`0x00..=0x1F`) appears in a string.
    ControlCharacterInString(Position),
    /// One of the four bytes after `\u` is not a hexadecimal digit; reported
    /// after those four bytes.
    NonHexCharacterInUnicodeEscape(Position),
    /// A minus sign is not followed by a digit.
    NoNumberCharactersAfterMinusSign(Position),
    /// A number starts with `0` followed by another digit.
    LeadingZerosInNumber(Position),
    /// A decimal point is not followed by a digit.
    NoNumberCharactersAfterFraction(Position),
    /// An exponent marker is not followed by a digit.
    NoNumberCharactersAfterExponent(Position),
}

/// Appends the UTF-8 encoding of a Unicode scalar value.
fn push_utf8(buf: &mut Vec<u8>, cp: u32)
    requires
        is_scalar(cp),
    ensures
        final(buf)@ == old(buf)@ + encode_scalar(cp),
{
    if cp <= 0x7F {
        buf.push((cp & 0x7F) as u8);
    } else if cp <= 0x7FF {
        buf.push(0xC0 | ((cp >> 6) & 0x1F) as u8);
        buf.push(0x80 | (cp & 0x3F) as u8);
    } else if cp <= 0xFFFF {
        buf.push(0xE0 | ((cp >> 12) & 0x0F) as u8);
        buf.push(0x80 | ((cp >> 6) & 0x3F) as u8);
        buf.push(0x80 | (cp & 0x3F) as u8);
    } else {
        buf.push(0xF0 | ((cp >> 18) & 0x7) as u8);
        buf.push(0x80 | ((cp >> 12) & 0x3F) as u8);
        buf.push(0x80 | ((cp >> 6) & 0x3F) as u8);
        buf.push(0x80 | (cp & 0x3F) as u8);
    }
    assert(buf@ =~= old(buf)@ + encode_scalar(cp));
}

fn hex_digit(b: u8) -> (r: u32)
    requires
        is_hex(b),
    ensures
        r == hex_val(b),
{
    if b >= 0x30 && b <= 0x39 {
        (b - 0x30) as u32
    } else if b >= 0x61 && b <= 0x66 {
        (b - 0x61 + 10) as u32
    } else {
        (b - 0x41 + 10) as u32
    }
}

fn check_hex(b: u8) -> (r: bool)
    ensures
        r == is_hex(b),
{
    (b >= 0x30 && b <= 0x39) || (b >= 0x61 && b <= 0x66) || (b >= 0x41 && b <= 0x46)
}

/// Decodes four hexadecimal digits into their 16-bit value.
pub fn decode_hex_sequence(hexes: &[u8; 4]) -> (r: u16)
    requires
        all_hex(hexes@, 0),
    ensures
        r == hex4(hexes@, 0),
{
    let v = hex_digit(hexes[0]) * 4096 + hex_digit(hexes[1]) * 256 + hex_digit(hexes[2]) * 16
        + hex_digit(hexes[3]);
    v as u16
}

/// A reader over the bytes of a string.
pub struct StrRead<'a> {
    slice_read: SliceRead<'a>,
}

impl<'a> StrRead<'a> {
    /// A reader at the start of `string`.
    pub fn new(string: &'a str) -> (r: StrRead<'a>)
        requires
            string.spec_bytes().len() < usize::MAX,
        ensures
            r.wf(),
            r.input() == string.spec_bytes(),
            r.index() == 0,
    {
        StrRead { slice_read: SliceRead::new(string.as_bytes()) }
    }
}

impl<'a> Read for StrRead<'a> {
    closed spec fn input(&self) -> Seq<u8> {
        self.slice_read.input()
    }

    closed spec fn index(&self) -> int {
        self.slice_read.index()
    }

    closed spec fn wf(&self) -> bool {
        self.slice_read.wf()
    }

    proof fn lemma_wf(&self) {
        self.slice_read.lemma_wf();
    }

    fn position(&self) -> (r: Position) {
        self.slice_read.position()
    }

    fn peek(&self) -> (r: Option<u8>) {
        self.slice_read.peek()
    }

    fn next(&mut self) -> (r: Option<u8>) {
        self.slice_read.next()
    }

    fn next3(&mut self) -> (r: Result<(u8, u8, u8), ReadError>) {
        self.slice_read.next3()
    }

    fn next4(&mut self) -> (r: Result<(u8, u8, u8, u8), ReadError>) {
        self.slice_read.next4()
    }

    fn skip_whitespace(&mut self) -> (r: Option<u8>) {
        self.slice_read.skip_whitespace()
    }

    fn next_number(&mut self, first: u8) -> (r: Result<(), ReadError>) {
        self.slice_read.next_number(first)
    }

    fn next_likely_string(&mut self, buf: &mut Vec<u8>) -> (r: Result<(), ReadError>) {
        self.slice_read.next_likely_string(buf)
    }
}

/// A cursor over bytes that keeps the line, the column and the offset of the
/// bytes consumed.
pub struct LineColumnIterator<'a> {
    bytes: &'a [u8],
    index: usize,
    position: Position,
}

impl<'a> LineColumnIterator<'a> {
    /// The whole input.
    pub closed spec fn input(&self) -> Seq<u8> {
        self.bytes@
    }

    /// The number of bytes consumed.
    pub closed spec fn index(&self) -> int {
        self.index as int
    }

    pub closed spec fn wf(&self) -> bool {
        &&& self.index <= self.bytes@.len() < usize::MAX
        &&& self.position == pos_at(self.bytes@, self.index as int)
    }

    /// A cursor at the start of `bytes`.
    pub fn new(bytes: &'a [u8]) -> (r: LineColumnIterator<'a>)
        requires
            bytes@.len() < usize::MAX,
        ensures
            r.wf(),
            r.input() == bytes@,
            r.index() == 0,
    {
        LineColumnIterator {
            bytes,
            index: 0,
            position: Position { line: 1, column: 0, offset: 0 },
        }
    }

    /// Consumes the next byte, keeping the position; `None` at the end.
    pub fn next(&mut self) -> (r: Option<u8>)
        requires
            old(self).wf(),
        ensures
            final(self).wf(),
            final(self).input() == old(self).input(),
            old(self).index() < old(self).input().len() ==> r == Some(old(self).input()[old(self).index()])
                && final(self).index() == old(self).index() + 1,
            old(self).index() == old(self).input().len() ==> r is None && final(self).index()
                == old(self).index(),
    {
        if self.index == self.bytes.len() {
            return None;
        }
        proof {
            lemma_pos_bounds(self.bytes@, self.index as int);
        }
        let b = self.bytes[self.index];
        if b == 0x0A {
            self.position = Position { line: self.position.line + 1, column: 0, offset: self.position.offset + 1 };
        } else {
            self.position = Position {
                line: self.position.line,
                column: self.position.column + 1,
                offset: self.position.offset + 1,
            };
        }
        self.index = self.index + 1;
        Some(b)
    }

    /// Consumes the next byte, which must exist.
    pub fn discard(&mut self)
        requires
            old(self).wf(),
            old(self).index() < old(self).input().len(),
        ensures
            final(self).wf(),
            final(self).input() == old(self).input(),
            final(self).index() == old(self).index() + 1,
    {
        self.next();
    }

    /// The next byte, not consumed; `None` at the end.
    pub fn peek(&self) -> (r: Option<u8>)
        requires
            self.wf(),
        ensures
            self.index() < self.input().len() ==> r == Some(self.input()[self.index()]),
            self.index() == self.input().len() ==> r is None,
    {
        if self.index == self.bytes.len() {
            None
        } else {
            Some(self.bytes[self.index])
        }
    }

    /// The position after the bytes consumed so far.
    pub fn position(&self) -> (r: Position)
        requires
            self.wf(),
        ensures
            r == pos_at(self.input(), self.index()),
    {
        self.position
    }
}

/// The position that an error reports.
pub open spec fn read_error_position(e: ReadError) -> Position {
    match e {
        ReadError::UnexpectedEndOfInput(p) => p,
        ReadError::UnclosedString(p) => p,
        ReadError::InvalidEscapeSequence(p) => p,
        ReadError::ControlCharacterInString(p) => p,
        ReadError::NonHexCharacterInUnicodeEscape(p) => p,
        ReadError::NoNumberCharactersAfterMinusSign(p) => p,
        ReadError::LeadingZerosInNumber(p) => p,
        ReadError::NoNumberCharactersAfterFraction(p) => p,
        ReadError::NoNumberCharactersAfterExponent(p) => p,
    }
}

/// `p` comes no later than `q`: by offset, and by line then column.
pub open spec fn pos_le(p: Position, q: Position) -> bool {
    &&& p.offset <= q.offset
    &&& (p.line < q.line || (p.line == q.line && p.column <= q.column))
}

/// Consuming more bytes never moves the position back.
pub proof fn lemma_pos_monotone(s: Seq<u8>, i: int, j: int)
    requires
        0 <= i <= j < usize::MAX,
    ensures
        pos_le(pos_at(s, i), pos_at(s, j)),
    decreases j - i,
{
    lemma_pos_bounds(s, j);
    if i < j {
        lemma_pos_monotone(s, i, j - 1);
        lemma_pos_bounds(s, j - 1);
    }
}

/// Within the input, the offset of a position is the number of bytes consumed.
pub proof fn lemma_offsets(s: Seq<u8>)
    requires
        s.len() < usize::MAX,
    ensures
        forall|k: int| 0 <= k <= s.len() ==> #[trigger] pos_at(s, k).offset == k,
{
    assert forall|k: int| 0 <= k <= s.len() implies #[trigger] pos_at(s, k).offset == k by {
        lemma_pos_bounds(s, k);
    }
}

/// A source of bytes that the lexer reads from: a cursor with peek and
/// next, and the two scans of numbers and string bodies.
pub trait Read {
    /// The whole input.
    spec fn input(&self) -> Seq<u8>;

    /// The number of bytes consumed.
    spec fn index(&self) -> int;

    /// Whether the cursor stands within the input, whose length fits the
    /// position fields.
    spec fn wf(&self) -> bool;

    /// What a well-formed reader guarantees of its cursor.
    proof fn lemma_wf(&self)
        requires
            self.wf(),
        ensures
            0 <= self.index() <= self.input().len() < usize::MAX,
    ;

    /// The position after the bytes consumed so far.
    fn position(&self) -> (r: Position)
        requires
            self.wf(),
        ensures
            r == pos_at(self.input(), self.index()),
    ;

    /// The next byte, not consumed; `None` at the end of the input.
    fn peek(&self) -> (r: Option<u8>)
        requires
            self.wf(),
        ensures
            self.index() < self.input().len() ==> r == Some(self.input()[self.index()]),
            self.index() == self.input().len() ==> r is None,
    ;

    /// Consumes and returns the next byte; `None` at the end of the input.
    fn next(&mut self) -> (r: Option<u8>)
        requires
            old(self).wf(),
        ensures
            final(self).wf(),
            final(self).input() == old(self).input(),
            old(self).index() < old(self).input().len() ==> r == Some(old(self).input()[old(self).index()])
                && final(self).index() == old(self).index() + 1,
            old(self).index() == old(self).input().len() ==> r is None && final(self).index()
                == old(self).index(),
    ;

    /// Consumes the next three bytes, or fails without consuming if fewer remain.
    fn next3(&mut self) -> (r: Result<(u8, u8, u8), ReadError>)
        requires
            old(self).wf(),
        ensures
            final(self).wf(),
            final(self).input() == old(self).input(),
            ({
                let s = old(self).input();
                let i = old(self).index();
                if s.len() - i < 3 {
                    r == Err::<(u8, u8, u8), ReadError>(ReadError::UnexpectedEndOfInput(pos_at(s, i)))
                        && final(self).index() == i
                } else {
                    r == Ok::<(u8, u8, u8), ReadError>((s[i], s[i + 1], s[i + 2]))
                        && final(self).index() == i + 3
                }
            }),
    ;

    /// Consumes the next four bytes, or fails without consuming if fewer remain.
    fn next4(&mut self) -> (r: Result<(u8, u8, u8, u8), ReadError>)
        requires
            old(self).wf(),
        ensures
            final(self).wf(),
            final(self).input() == old(self).input(),
            ({
                let s = old(self).input();
                let i = old(self).index();
                if s.len() - i < 4 {
                    r == Err::<(u8, u8, u8, u8), ReadError>(ReadError::UnexpectedEndOfInput(pos_at(s, i)))
                        && final(self).index() == i
                } else {
                    r == Ok::<(u8, u8, u8, u8), ReadError>((s[i], s[i + 1], s[i + 2], s[i + 3]))
                        && final(self).index() == i + 4
                }
            }),
    ;

    /// Consumes a run of whitespace and the byte after it, which is returned;
    /// `None` when the input ends first.
    fn skip_whitespace(&mut self) -> (r: Option<u8>)
        requires
            old(self).wf(),
        ensures
            final(self).wf(),
            final(self).input() == old(self).input(),
            ({
                let s = old(self).input();
                let j = ws_end(s, old(self).index());
                if j < s.len() {
                    r == Some(s[j]) && final(self).index() == j + 1
                } else {
                    r is None && final(self).index() == j
                }
            }),
    ;

    /// Scans a number whose first byte `first` (a minus sign or a digit) was
    /// consumed. Any precision is accepted; no value is produced.
    fn next_number(&mut self, first: u8) -> (r: Result<(), ReadError>)
        requires
            old(self).wf(),
        ensures
            final(self).wf(),
            final(self).input() == old(self).input(),
            match number_from(old(self).input(), old(self).index(), first) {
                Ok(e) => r is Ok && final(self).index() == e,
                Err(err) => r == Err::<(), ReadError>(err) && final(self).index()
                    == read_error_position(err).offset,
            },
    ;

    /// Scans a string body whose opening quote was consumed, up to and
    /// including the closing quote. `buf` is cleared, then receives the
    /// decoded bytes.
    fn next_likely_string(&mut self, buf: &mut Vec<u8>) -> (r: Result<(), ReadError>)
        requires
            old(self).wf(),
        ensures
            final(self).wf(),
            final(self).input() == old(self).input(),
            match string_from(old(self).input(), old(self).index()) {
                Ok((d, e)) => r is Ok && final(self).index() == e && final(buf)@ == d,
                Err(err) => r == Err::<(), ReadError>(err) && final(self).index()
                    == read_error_position(err).offset,
            },
    ;
}

/// A reader over borrowed bytes held in memory; nothing is copied.
pub struct SliceRead<'a> {
    bytes: &'a [u8],
    index: usize,
}

impl<'a> SliceRead<'a> {
    /// A reader at the start of `slice`.
    pub fn new(slice: &'a [u8]) -> (r: SliceRead<'a>)
        requires
            slice@.len() < usize::MAX,
        ensures
            r.wf(),
            r.input() == slice@,
            r.index() == 0,
    {
        SliceRead { bytes: slice, index: 0 }
    }

    fn is_eof(&self) -> (r: bool)
        requires
            self.wf(),
        ensures
            r == (self.index() == self.input().len()),
    {
        self.index == self.bytes.len()
    }

    fn remaining(&self) -> (r: usize)
        requires
            self.wf(),
        ensures
            r == self.input().len() - self.index(),
    {
        self.bytes.len() - self.index
    }

    /// Consumes digits while there are any.
    fn skip_digits(&mut self)
        requires
            old(self).wf(),
        ensures
            final(self).wf(),
            final(self).input() == old(self).input(),
            final(self).index() == digits_end(old(self).input(), old(self).index()),
    {
        while self.index < self.bytes.len() && self.bytes[self.index] >= 0x30u8 && self.bytes[self.index] <= 0x39u8
            invariant
                self.wf(),
                self.bytes@ == old(self).bytes@,
                old(self).index <= self.index,
                digits_end(self.bytes@, old(self).index as int) == digits_end(self.bytes@, self.index as int),
            decreases self.bytes@.len() - self.index,
        {
            self.index = self.index + 1;
        }
    }

    fn parse_integer(&mut self, lead: u8) -> (r: Result<(), ReadError>)
        requires
            old(self).wf(),
        ensures
            final(self).wf(),
            final(self).input() == old(self).input(),
            match integer_from(old(self).input(), old(self).index(), lead) {
                Ok(e) => r is Ok && final(self).index() == e,
                Err(err) => r == Err::<(), ReadError>(err) && final(self).index()
                    == read_error_position(err).offset,
            },
    {
        proof {
            self.lemma_wf();
            lemma_offsets(self.input());
        }
        match self.peek() {
            None => return Ok(()),
            Some(b) => {
                if lead == 0x30u8 && b >= 0x30u8 && b <= 0x39u8 {
                    return Err(ReadError::LeadingZerosInNumber(self.position()));
                }
            },
        }
        self.skip_digits();
        self.parse_number_tail()
    }

    fn parse_number_tail(&mut self) -> (r: Result<(), ReadError>)
        requires
            old(self).wf(),
        ensures
            final(self).wf(),
            final(self).input() == old(self).input(),
            match number_tail(old(self).input(), old(self).index()) {
                Ok(e) => r is Ok && final(self).index() == e,
                Err(err) => r == Err::<(), ReadError>(err) && final(self).index()
                    == read_error_position(err).offset,
            },
    {
        proof {
            self.lemma_wf();
            lemma_offsets(self.input());
        }
        match self.peek() {
            Some(0x2Eu8) => {
                self.next();
                self.parse_fraction()
            },
            Some(0x65u8) | Some(0x45u8) => {
                self.next();
                self.parse_exponent()
            },
            _ => Ok(()),
        }
    }

    fn parse_fraction(&mut self) -> (r: Result<(), ReadError>)
        requires
            old(self).wf(),
        ensures
            final(self).wf(),
            final(self).input() == old(self).input(),
            match fraction_from(old(self).input(), old(self).index()) {
                Ok(e) => r is Ok && final(self).index() == e,
                Err(err) => r == Err::<(), ReadError>(err) && final(self).index()
                    == read_error_position(err).offset,
            },
    {
        proof {
            self.lemma_wf();
            lemma_offsets(self.input());
        }
        match self.peek() {
            None => return Err(ReadError::UnexpectedEndOfInput(self.position())),
            Some(b) => {
                if !(b >= 0x30u8 && b <= 0x39u8) {
                    return Err(ReadError::NoNumberCharactersAfterFraction(self.position()));
                }
            },
        }
        self.next();
        self.skip_digits();
        match self.peek() {
            Some(0x65u8) | Some(0x45u8) => {
                self.next();
                self.parse_exponent()
            },
            _ => Ok(()),
        }
    }

    fn parse_exponent(&mut self) -> (r: Result<(), ReadError>)
        requires
            old(self).wf(),
        ensures
            final(self).wf(),
            final(self).input() == old(self).input(),
            match exponent_from(old(self).input(), old(self).index()) {
                Ok(e) => r is Ok && final(self).index() == e,
                Err(err) => r == Err::<(), ReadError>(err) && final(self).index()
                    == read_error_position(err).offset,
            },
    {
        proof {
            self.lemma_wf();
            lemma_offsets(self.input());
        }
        match self.peek() {
            Some(0x2Bu8) | Some(0x2Du8) => {
                self.next();
            },
            _ => {},
        }
        match self.peek() {
            None => Err(ReadError::UnexpectedEndOfInput(self.position())),
            Some(b) => {
                if b >= 0x30u8 && b <= 0x39u8 {
                    self.next();
                    self.skip_digits();
                    Ok(())
                } else {
                    Err(ReadError::NoNumberCharactersAfterExponent(self.position()))
                }
            },
        }
    }

    /// Reads the four hexadecimal digits of a `\u` escape as one value.
    fn next_hex4(&mut self) -> (r: Result<u32, ReadError>)
        requires
            old(self).wf(),
        ensures
            final(self).wf(),
            final(self).input() == old(self).input(),
            ({
                let s = old(self).input();
                let j = old(self).index();
                if s.len() - j < 4 {
                    r == Err::<u32, ReadError>(ReadError::UnexpectedEndOfInput(pos_at(s, j)))
                        && final(self).index() == j
                } else if !all_hex(s, j) {
                    r == Err::<u32, ReadError>(ReadError::NonHexCharacterInUnicodeEscape(pos_at(s, j + 4)))
                        && final(self).index() == j + 4
                } else {
                    r == Ok::<u32, ReadError>(hex4(s, j) as u32) && final(self).index() == j + 4
                }
            }),
    {
        proof {
            self.lemma_wf();
            lemma_offsets(self.input());
        }
        let (a, b, c, d) = self.next4()?;
        if !(check_hex(a) && check_hex(b) && check_hex(c) && check_hex(d)) {
            return Err(ReadError::NonHexCharacterInUnicodeEscape(self.position()));
        }
        let hexes = [a, b, c, d];
        assert(hexes@[0] == a && hexes@[1] == b && hexes@[2] == c && hexes@[3] == d);
        let v = decode_hex_sequence(&hexes);
        Ok(v as u32)
    }

    /// Decodes the escape whose backslash was consumed, appending its bytes.
    fn parse_escape(&mut self, buf: &mut Vec<u8>) -> (r: Result<(), ReadError>)
        requires
            old(self).wf(),
        ensures
            final(self).wf(),
            final(self).input() == old(self).input(),
            match escape_from(old(self).input(), old(self).index()) {
                Ok((d, e)) => r is Ok && final(self).index() == e && final(buf)@ == old(buf)@ + d,
                Err(err) => r == Err::<(), ReadError>(err) && final(self).index()
                    == read_error_position(err).offset,
            },
    {
        proof {
            self.lemma_wf();
            lemma_offsets(self.input());
        }
        let c = match self.next() {
            None => return Err(ReadError::UnexpectedEndOfInput(self.position())),
            Some(c) => c,
        };
        let simple: u8 = if c == 0x22 || c == 0x5C || c == 0x2F {
            c
        } else if c == 0x62 {
            0x08
        } else if c == 0x66 {
            0x0C
        } else if c == 0x6E {
            0x0A
        } else if c == 0x72 {
            0x0D
        } else if c == 0x74 {
            0x09
        } else if c == 0x75 {
            0
        } else {
            return Err(ReadError::InvalidEscapeSequence(self.position()));
        };
        if c != 0x75 {
            buf.push(simple);
            assert(buf@ =~= old(buf)@ + seq![simple]);
            return Ok(());
        }
        let high = self.next_hex4()?;
        if high >= 0xDC00 && high <= 0xDFFF {
            return Err(ReadError::InvalidEscapeSequence(self.position()));
        }
        if high >= 0xD800 && high <= 0xDBFF {
            if self.remaining() < 6 {
                return Err(ReadError::UnexpectedEndOfInput(self.position()));
            }
            if self.next() != Some(0x5Cu8) {
                return Err(ReadError::InvalidEscapeSequence(self.position()));
            }
            if self.next() != Some(0x75u8) {
                return Err(ReadError::InvalidEscapeSequence(self.position()));
            }
            let low = self.next_hex4()?;
            if !(low >= 0xDC00 && low <= 0xDFFF) {
                return Err(ReadError::InvalidEscapeSequence(self.position()));
            }
            let cp = 0x10000u32 + (high - 0xD800) * 0x400 + (low - 0xDC00);
            push_utf8(buf, cp);
        } else {
            push_utf8(buf, high);
        }
        Ok(())
    }
}

impl<'a> Read for SliceRead<'a> {
    /// The whole input.
    closed spec fn input(&self) -> Seq<u8> {
        self.bytes@
    }

    /// The number of bytes consumed.
    closed spec fn index(&self) -> int {
        self.index as int
    }

    closed spec fn wf(&self) -> bool {
        &&& self.index <= self.bytes@.len()
        &&& self.bytes@.len() < usize::MAX
    }

    proof fn lemma_wf(&self) {
    }

    fn position(&self) -> (r: Position) {
        let mut pos = Position { line: 1, column: 0, offset: 0 };
        let mut k: usize = 0;
        while k < self.index
            invariant
                self.wf(),
                k <= self.index,
                pos == pos_at(self.bytes@, k as int),
            decreases self.index - k,
        {
            proof {
                lemma_pos_bounds(self.bytes@, k as int);
            }
            if self.bytes[k] == 0x0Au8 {
                pos = Position { line: pos.line + 1, column: 0, offset: pos.offset + 1 };
            } else {
                pos = Position { line: pos.line, column: pos.column + 1, offset: pos.offset + 1 };
            }
            k = k + 1;
        }
        pos
    }

    fn peek(&self) -> (r: Option<u8>) {
        if self.is_eof() {
            None
        } else {
            Some(self.bytes[self.index])
        }
    }

    fn next(&mut self) -> (r: Option<u8>) {
        if self.is_eof() {
            None
        } else {
            let b = self.bytes[self.index];
            self.index = self.index + 1;
            Some(b)
        }
    }

    fn next3(&mut self) -> (r: Result<(u8, u8, u8), ReadError>) {
        if self.remaining() < 3 {
            return Err(ReadError::UnexpectedEndOfInput(self.position()));
        }
        let i = self.index;
        self.index = i + 3;
        Ok((self.bytes[i], self.bytes[i + 1], self.bytes[i + 2]))
    }

    fn next4(&mut self) -> (r: Result<(u8, u8, u8, u8), ReadError>) {
        if self.remaining() < 4 {
            return Err(ReadError::UnexpectedEndOfInput(self.position()));
        }
        let i = self.index;
        self.index = i + 4;
        Ok((self.bytes[i], self.bytes[i + 1], self.bytes[i + 2], self.bytes[i + 3]))
    }

    fn skip_whitespace(&mut self) -> (r: Option<u8>) {
        while self.index < self.bytes.len()
            invariant
                self.wf(),
                self.bytes@ == old(self).bytes@,
                old(self).index <= self.index,
                ws_end(self.bytes@, old(self).index as int) == ws_end(self.bytes@, self.index as int),
            decreases self.bytes@.len() - self.index,
        {
            let b = self.bytes[self.index];
            self.index = self.index + 1;
            if !(b == 0x20u8 || b == 0x09u8 || b == 0x0Au8 || b == 0x0Du8) {
                return Some(b);
            }
        }
        None
    }

    fn next_number(&mut self, first: u8) -> (r: Result<(), ReadError>) {
        proof {
            self.lemma_wf();
            lemma_offsets(self.input());
        }
        let mut lead = first;
        if first == 0x2Du8 {
            match self.next() {
                None => return Err(ReadError::UnexpectedEndOfInput(self.position())),
                Some(b) => {
                    if b >= 0x30u8 && b <= 0x39u8 {
                        lead = b;
                    } else {
                        return Err(ReadError::NoNumberCharactersAfterMinusSign(self.position()));
                    }
                },
            }
        }
        self.parse_integer(lead)
    }

    fn next_likely_string(&mut self, buf: &mut Vec<u8>) -> (r: Result<(), ReadError>) {
        buf.clear();
        assert(string_from(self.bytes@, self.index as int) == prepend(buf@, string_from(self.bytes@, self.index as int))) by {
            if let Ok((x, e)) = string_from(self.bytes@, self.index as int) {
                assert(buf@ + x =~= x);
            }
        }
        while self.index < self.bytes.len()
            invariant
                self.wf(),
                self.bytes@ == old(self).bytes@,
                old(self).index <= self.index,
                string_from(self.bytes@, old(self).index as int) == prepend(buf@, string_from(self.bytes@, self.index as int)),
            decreases self.bytes@.len() - self.index,
        {
            let ghost s = self.bytes@;
            let ghost i = self.index as int;
            let ghost b0 = buf@;
            let byte = self.bytes[self.index];
            self.index = self.index + 1;
            if !(byte < 0x20 || byte == 0x22 || byte == 0x5C) {
                buf.push(byte);
                proof {
                    lemma_prepend_assoc(b0, seq![byte], string_from(s, i + 1));
                    assert(b0.push(byte) =~= b0 + seq![byte]);
                }
            } else if byte == 0x22 {
                proof {
                    assert(b0 + Seq::<u8>::empty() =~= b0);
                }
                return Ok(());
            } else if byte == 0x5C {
                proof {
                    lemma_escape_advances(s, i + 1);
                }
                self.parse_escape(buf)?;
                proof {
                    let (d, j) = escape_from(s, i + 1)->Ok_0;
                    lemma_prepend_assoc(b0, d, string_from(s, j));
                }
            } else {
                proof {
                    lemma_pos_bounds(s, i + 1);
                }
                return Err(ReadError::ControlCharacterInString(self.position()));
            }
        }
        proof {
            lemma_pos_bounds(self.bytes@, self.index as int);
        }
        Err(ReadError::UnclosedString(self.position()))
    }
}

/// A reader over the bytes taken from a blocking source, which it owns.
pub struct IoRead {
    bytes: Vec<u8>,
    index: usize,
}

impl IoRead {
    /// A reader at the start of `bytes`, the content drawn from a source.
    pub fn new(bytes: Vec<u8>) -> (r: IoRead)
        requires
            bytes@.len() < usize::MAX,
        ensures
            r.wf(),
            r.input() == bytes@,
            r.index() == 0,
    {
        IoRead { bytes, index: 0 }
    }

    /// A borrowing reader at the same place.
    fn cursor(&self) -> (r: SliceRead<'_>)
        requires
            self.wf(),
        ensures
            r.wf(),
            r.input() == self.input(),
            r.index() == self.index(),
    {
        SliceRead { bytes: self.bytes.as_slice(), index: self.index }
    }
}

impl Read for IoRead {
    closed spec fn input(&self) -> Seq<u8> {
        self.bytes@
    }

    closed spec fn index(&self) -> int {
        self.index as int
    }

    closed spec fn wf(&self) -> bool {
        &&& self.index <= self.bytes@.len()
        &&& self.bytes@.len() < usize::MAX
    }

    proof fn lemma_wf(&self) {
    }

    fn position(&self) -> (r: Position) {
        self.cursor().position()
    }

    fn peek(&self) -> (r: Option<u8>) {
        self.cursor().peek()
    }

    fn next(&mut self) -> (r: Option<u8>) {
        let mut c = self.cursor();
        let r = c.next();
        let i = c.index;
        self.index = i;
        r
    }

    fn next3(&mut self) -> (r: Result<(u8, u8, u8), ReadError>) {
        let mut c = self.cursor();
        let r = c.next3();
        let i = c.index;
        self.index = i;
        r
    }

    fn next4(&mut self) -> (r: Result<(u8, u8, u8, u8), ReadError>) {
        let mut c = self.cursor();
        let r = c.next4();
        let i = c.index;
        self.index = i;
        r
    }

    fn skip_whitespace(&mut self) -> (r: Option<u8>) {
        let mut c = self.cursor();
        let r = c.skip_whitespace();
        let i = c.index;
        self.index = i;
        r
    }

    fn next_number(&mut self, first: u8) -> (r: Result<(), ReadError>) {
        let mut c = self.cursor();
        let r = c.next_number(first);
        let i = c.index;
        self.index = i;
        r
    }

    fn next_likely_string(&mut self, buf: &mut Vec<u8>) -> (r: Result<(), ReadError>) {
        let mut c = self.cursor();
        let r = c.next_likely_string(buf);
        let i = c.index;
        self.index = i;
        r
    }
}

} // verus!
