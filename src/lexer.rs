//! A one-token-lookahead lexer over a byte reader.
use crate::grammar::{
    is_digit, lemma_number_ends, lemma_number_error_after, lemma_string_ends,
    lemma_string_error_after, lemma_ws_end, number_from, string_from, ws_end,
};
use crate::read::{lemma_offsets, lemma_pos_monotone, pos_at, pos_le, read_error_position, Position, Read, ReadError};
use vstd::prelude::*;
use vstd::utf8::valid_utf8;

verus! {

/// An error raised while splitting the input into tokens.
#[derive(Debug, Clone, Copy, PartialEq, Eq, Structural)]
pub enum LexerError {
    /// The decoded bytes of a string are not well-formed UTF-8.
    InvalidUtf8Sequence(Position),
    /// A byte that starts no token, or a misspelt literal.
    UnexpectedByte(Position),
    /// An error of the reader below.
    ReadError(ReadError),
}

/// A JSON token. A string's decoded bytes travel beside it, in the buffer
/// handed to [`Lexer::peek`] and [`Lexer::next`].
#[derive(Debug, Clone, Copy, PartialEq, Eq, Structural)]
pub enum Token {
    /// `{`
    LBrace,
    /// `}`
    RBrace,
    /// `[`
    LBracket,
    /// `]`
    RBracket,
    /// `,`
    Comma,
    /// `:`
    Colon,
    /// A number of any precision.
    Number,
    /// A string; its decoded bytes are in the string buffer.
    String,
    /// `true`
    True,
    /// `false`
    False,
    /// `null`
    Null,
}

/// Relies on `std::str::from_utf8`: it succeeds exactly on well-formed UTF-8.
#[verifier::external_body]
fn is_utf8(bytes: &Vec<u8>) -> (r: bool)
    ensures
        r == valid_utf8(bytes@),
{
    std::str::from_utf8(bytes.as_slice()).is_ok()
}

/// A literal whose first letter sits just before `k` and whose other letters
/// are `a b c`.
pub open spec fn literal3_from(s: Seq<u8>, k: int, a: u8, b: u8, c: u8, t: Token) -> Result<
    Option<(Token, Seq<u8>, int)>,
    LexerError,
> {
    if s.len() - k < 3 {
        Err(LexerError::ReadError(ReadError::UnexpectedEndOfInput(pos_at(s, k))))
    } else if s[k] == a && s[k + 1] == b && s[k + 2] == c {
        Ok(Some((t, Seq::empty(), k + 3)))
    } else {
        Err(LexerError::UnexpectedByte(pos_at(s, k + 3)))
    }
}

/// The token that follows index `i` after any whitespace: its kind, its
/// decoded bytes (empty but for strings) and the index just past it. `None`
/// when only whitespace is left.
pub open spec fn token_from(s: Seq<u8>, i: int) -> Result<Option<(Token, Seq<u8>, int)>, LexerError> {
    let j = ws_end(s, i);
    if j >= s.len() {
        Ok(None)
    } else {
        let b = s[j];
        let k = j + 1;
        if b == 0x7Bu8 {
            Ok(Some((Token::LBrace, Seq::empty(), k)))
        } else if b == 0x7Du8 {
            Ok(Some((Token::RBrace, Seq::empty(), k)))
        } else if b == 0x5Bu8 {
            Ok(Some((Token::LBracket, Seq::empty(), k)))
        } else if b == 0x5Du8 {
            Ok(Some((Token::RBracket, Seq::empty(), k)))
        } else if b == 0x2Cu8 {
            Ok(Some((Token::Comma, Seq::empty(), k)))
        } else if b == 0x3Au8 {
            Ok(Some((Token::Colon, Seq::empty(), k)))
        } else if b == 0x22u8 {
            match string_from(s, k) {
                Ok((d, e)) => if valid_utf8(d) {
                    Ok(Some((Token::String, d, e)))
                } else {
                    Err(LexerError::InvalidUtf8Sequence(pos_at(s, e)))
                },
                Err(err) => Err(LexerError::ReadError(err)),
            }
        } else if b == 0x74u8 {
            literal3_from(s, k, 0x72u8, 0x75u8, 0x65u8, Token::True)
        } else if b == 0x6Eu8 {
            literal3_from(s, k, 0x75u8, 0x6Cu8, 0x6Cu8, Token::Null)
        } else if b == 0x66u8 {
            if s.len() - k < 4 {
                Err(LexerError::ReadError(ReadError::UnexpectedEndOfInput(pos_at(s, k))))
            } else if s[k] == 0x61u8 && s[k + 1] == 0x6Cu8 && s[k + 2] == 0x73u8 && s[k + 3] == 0x65u8 {
                Ok(Some((Token::False, Seq::empty(), k + 4)))
            } else {
                Err(LexerError::UnexpectedByte(pos_at(s, k + 4)))
            }
        } else if b == 0x2Du8 || is_digit(b) {
            match number_from(s, k, b) {
                Ok(e) => Ok(Some((Token::Number, Seq::empty(), e))),
                Err(err) => Err(LexerError::ReadError(err)),
            }
        } else {
            Err(LexerError::UnexpectedByte(pos_at(s, k)))
        }
    }
}

/// A token spans at least one byte, and only a string carries decoded bytes.
pub proof fn lemma_token_text(s: Seq<u8>, i: int)
    requires
        0 <= i <= s.len(),
    ensures
        token_from(s, i) matches Ok(Some((t, d, e))) ==> i < e <= s.len() && (t != Token::String
            ==> d == Seq::<u8>::empty()) && (t == Token::String ==> valid_utf8(d)),
        token_from(s, i) matches Ok(None) ==> ws_end(s, i) == s.len(),
{
    lemma_ws_end(s, i);
    let j = ws_end(s, i);
    if j < s.len() && s[j] == 0x22u8 {
        lemma_string_ends(s, j + 1);
    } else if j < s.len() && (s[j] == 0x2Du8 || is_digit(s[j])) {
        lemma_number_ends(s, j + 1, s[j]);
    }
}

/// The position that an error reports.
pub open spec fn error_position(e: LexerError) -> Position {
    match e {
        LexerError::InvalidUtf8Sequence(p) => p,
        LexerError::UnexpectedByte(p) => p,
        LexerError::ReadError(r) => read_error_position(r),
    }
}

/// A token that fails reports a position at or after where it was scanned from.
pub proof fn lemma_token_error_after(s: Seq<u8>, i: int)
    requires
        0 <= i <= s.len() < usize::MAX,
    ensures
        token_from(s, i) matches Err(e) ==> i <= error_position(e).offset <= s.len() && error_position(e)
            == pos_at(s, error_position(e).offset as int),
{
    lemma_offsets(s);
    lemma_ws_end(s, i);
    let j = ws_end(s, i);
    if j < s.len() {
        lemma_string_ends(s, j + 1);
        lemma_string_error_after(s, j + 1);
        lemma_number_error_after(s, j + 1, s[j]);
    }
}

/// Positions never go back: a successful `next` or `peek` leaves the reader
/// at or after where it was, and an error reports a position at or after it,
/// by offset and by line then column.
pub proof fn lemma_positions_grow<R: Read>(
    l0: Lexer<R>,
    l1: Lexer<R>,
    b0: Seq<u8>,
    b1: Seq<u8>,
    r: Result<Option<Token>, LexerError>,
)
    requires
        l0.wf(),
        next_post(l0, l1, b0, b1, r) || peek_post(l0, l1, b0, b1, r),
    ensures
        r matches Err(e) ==> pos_le(pos_at(l0.input(), l0.cursor()), error_position(e)),
        r is Ok ==> l1.cursor() >= l0.cursor(),
        r is Ok ==> pos_le(pos_at(l0.input(), l0.cursor()), pos_at(l1.input(), l1.cursor())),
{
    l0.lemma_wf();
    l1.lemma_wf();
    let s = l0.input();
    lemma_offsets(s);
    lemma_token_text(s, l0.at());
    lemma_token_error_after(s, l0.at());
    if l0.has_peeked() {
        l0.lemma_peeked();
    }
    if let Err(e) = r {
        lemma_pos_monotone(s, l0.cursor(), error_position(e).offset as int);
    } else if l1.cursor() >= l0.cursor() {
        lemma_pos_monotone(s, l0.cursor(), l1.cursor());
    }
}

/// Two peeks in a row, the first successful, return the same token and the
/// same string bytes, and leave the position where the first put it.
pub proof fn lemma_peek_idempotent<R: Read>(
    l0: Lexer<R>,
    l1: Lexer<R>,
    l2: Lexer<R>,
    b0: Seq<u8>,
    b1: Seq<u8>,
    b2: Seq<u8>,
    r1: Result<Option<Token>, LexerError>,
    r2: Result<Option<Token>, LexerError>,
)
    requires
        l0.wf(),
        peek_post(l0, l1, b0, b1, r1),
        peek_post(l1, l2, b1, b2, r2),
        r1 is Ok,
    ensures
        r2 == r1,
        b2 == b1,
        l2.cursor() == l1.cursor(),
        l2.at() == l1.at(),
{
    l0.lemma_wf();
    l1.lemma_wf();
    l2.lemma_wf();
    let s = l0.input();
    lemma_ws_end(s, s.len() as int);
}

/// A JSON lexer, which reads an input and produces a stream of tokens.
pub struct Lexer<R: Read> {
    reader: R,
    peeked_str_buf: Vec<u8>,
    peeked: Option<Token>,
    /// Where the peeked token was scanned from.
    peek_start: Ghost<int>,
}

/// Replaces the contents of `dst` by those of `src`, reusing its storage.
fn copy_into(dst: &mut Vec<u8>, src: &Vec<u8>)
    ensures
        final(dst)@ == src@,
{
    dst.clear();
    let mut k: usize = 0;
    while k < src.len()
        invariant
            k <= src@.len(),
            dst@ == src@.subrange(0, k as int),
        decreases src@.len() - k,
    {
        dst.push(src[k]);
        k = k + 1;
        assert(dst@ =~= src@.subrange(0, k as int));
    }
    assert(dst@ =~= src@);
}

/// A copy of `src`.
pub(crate) fn copy_of(src: &Vec<u8>) -> (r: Vec<u8>)
    ensures
        r@ == src@,
{
    let mut dst: Vec<u8> = Vec::new();
    copy_into(&mut dst, src);
    dst
}

/// The relation between the lexer before and after [`Lexer::next`], and its result.
pub open spec fn next_post<R: Read>(
    l0: Lexer<R>,
    l1: Lexer<R>,
    b0: Seq<u8>,
    b1: Seq<u8>,
    r: Result<Option<Token>, LexerError>,
) -> bool {
    let s = l0.input();
    &&& l1.wf()
    &&& l1.input() == s
    &&& match token_from(s, l0.at()) {
        Ok(None) => r == Ok::<Option<Token>, LexerError>(None) && l1.at() == s.len()
            && !l1.has_peeked() && b1 == b0,
        Ok(Some((t, d, e))) => r == Ok::<Option<Token>, LexerError>(Some(t)) && l1.at() == e
            && !l1.has_peeked() && (t == Token::String ==> b1 == d) && (t != Token::String ==> b1
            == b0),
        Err(err) => r == Err::<Option<Token>, LexerError>(err),
    }
}

/// The relation between the lexer before and after [`Lexer::peek`], and its result.
pub open spec fn peek_post<R: Read>(
    l0: Lexer<R>,
    l1: Lexer<R>,
    b0: Seq<u8>,
    b1: Seq<u8>,
    r: Result<Option<Token>, LexerError>,
) -> bool {
    let s = l0.input();
    &&& l1.wf()
    &&& l1.input() == s
    &&& match token_from(s, l0.at()) {
        Ok(None) => r == Ok::<Option<Token>, LexerError>(None) && l1.at() == s.len()
            && !l1.has_peeked() && b1 == b0,
        Ok(Some((t, d, e))) => r == Ok::<Option<Token>, LexerError>(Some(t)) && l1.at() == l0.at()
            && l1.has_peeked() && l1.cursor() == e && (t == Token::String ==> b1 == d) && (t
            != Token::String ==> b1 == b0),
        Err(err) => r == Err::<Option<Token>, LexerError>(err),
    }
}

impl<R: Read> Lexer<R> {
    /// The whole input.
    pub closed spec fn input(&self) -> Seq<u8> {
        self.reader.input()
    }

    /// The number of bytes the reader consumed.
    pub closed spec fn cursor(&self) -> int {
        self.reader.index()
    }

    /// Whether a token was peeked and not yet taken.
    pub closed spec fn has_peeked(&self) -> bool {
        self.peeked is Some
    }

    /// Where the next token is scanned from: before a peeked token, if any.
    pub closed spec fn at(&self) -> int {
        if self.peeked is Some {
            self.peek_start@
        } else {
            self.reader.index()
        }
    }

    pub closed spec fn wf(&self) -> bool {
        &&& self.reader.wf()
        &&& self.peeked is Some ==> 0 <= self.peek_start@ <= self.reader.index()
        &&& self.peeked matches Some(t) ==> token_from(self.reader.input(), self.peek_start@)
            == Ok::<Option<(Token, Seq<u8>, int)>, LexerError>(
            Some((t, self.peeked_str_buf@, self.reader.index())),
        )
    }

    /// A peeked token ends where the reader stands.
    pub proof fn lemma_peeked(&self)
        requires
            self.wf(),
            self.has_peeked(),
        ensures
            token_from(self.input(), self.at()) matches Ok(Some((t, d, e))) && e == self.cursor(),
    {
    }

    pub proof fn lemma_wf(&self)
        requires
            self.wf(),
        ensures
            0 <= self.at() <= self.cursor() <= self.input().len() < usize::MAX,
            !self.has_peeked() ==> self.at() == self.cursor(),
    {
        self.reader.lemma_wf();
    }

    /// A lexer at the current index of `reader`.
    pub fn new(reader: R) -> (r: Lexer<R>)
        requires
            reader.wf(),
        ensures
            r.wf(),
            r.input() == reader.input(),
            r.at() == reader.index(),
            r.cursor() == reader.index(),
            !r.has_peeked(),
    {
        Lexer {
            reader,
            peeked_str_buf: Vec::new(),
            peeked: None,
            peek_start: Ghost(reader.index()),
        }
    }

    /// The position of the reader: after a peeked token, if any.
    pub fn position(&self) -> (r: Position)
        requires
            self.wf(),
        ensures
            r == pos_at(self.input(), self.cursor()),
    {
        self.reader.position()
    }

    /// The next token, not consumed. A second call returns the same token and
    /// leaves the position where it is. A string's decoded bytes go to `str_buf`.
    pub fn peek(&mut self, str_buf: &mut Vec<u8>) -> (r: Result<Option<Token>, LexerError>)
        requires
            old(self).wf(),
        ensures
            peek_post(*old(self), *final(self), old(str_buf)@, final(str_buf)@, r),
            old(self).has_peeked() ==> final(self).cursor() == old(self).cursor(),
    {
        if let Some(t) = self.peeked {
            if t == Token::String {
                copy_into(str_buf, &self.peeked_str_buf);
            }
            return Ok(Some(t));
        }
        let ghost start = self.reader.index();
        proof {
            self.reader.lemma_wf();
        }
        let t = match self.next(str_buf) {
            Ok(t) => t,
            Err(e) => return Err(e),
        };
        proof {
            lemma_token_text(self.input(), start);
        }
        if let Some(tok) = t {
            self.peeked = Some(tok);
            self.peek_start = Ghost(start);
            if tok == Token::String {
                copy_into(&mut self.peeked_str_buf, str_buf);
            } else {
                self.peeked_str_buf.clear();
                proof {
                    assert(self.peeked_str_buf@ =~= Seq::<u8>::empty());
                }
            }
        }
        Ok(t)
    }

    /// Consumes and returns the next token: the peeked one, if any. A string's
    /// decoded bytes go to `str_buf`.
    pub fn next(&mut self, str_buf: &mut Vec<u8>) -> (r: Result<Option<Token>, LexerError>)
        requires
            old(self).wf(),
        ensures
            next_post(*old(self), *final(self), old(str_buf)@, final(str_buf)@, r),
            r matches Ok(Some(_)) ==> final(self).cursor() == final(self).at(),
    {
        if let Some(t) = self.peeked {
            self.peeked = None;
            if t == Token::String {
                copy_into(str_buf, &self.peeked_str_buf);
            }
            return Ok(Some(t));
        }
        let ghost s = self.reader.input();
        let ghost i = self.reader.index();
        proof {
            self.reader.lemma_wf();
            lemma_ws_end(s, i);
        }
        let b = match self.reader.skip_whitespace() {
            None => {
                return Ok(None);
            },
            Some(b) => b,
        };
        proof {
            lemma_ws_end(s, i);
            assert(ws_end(s, i) == self.reader.index() - 1);
            assert(s[self.reader.index() - 1] == b);
        }
        if b == 0x7B {
            Ok(Some(Token::LBrace))
        } else if b == 0x7D {
            Ok(Some(Token::RBrace))
        } else if b == 0x5B {
            Ok(Some(Token::LBracket))
        } else if b == 0x5D {
            Ok(Some(Token::RBracket))
        } else if b == 0x2C {
            Ok(Some(Token::Comma))
        } else if b == 0x3A {
            Ok(Some(Token::Colon))
        } else if b == 0x22 {
            match self.parse_string(str_buf) {
                Ok(tok) => Ok(Some(tok)),
                Err(e) => Err(e),
            }
        } else if b == 0x74 {
            let (x, y, z) = match self.reader.next3() {
                Ok(v) => v,
                Err(e) => return Err(LexerError::ReadError(e)),
            };
            if x == 0x72 && y == 0x75 && z == 0x65 {
                Ok(Some(Token::True))
            } else {
                Err(LexerError::UnexpectedByte(self.position()))
            }
        } else if b == 0x6E {
            let (x, y, z) = match self.reader.next3() {
                Ok(v) => v,
                Err(e) => return Err(LexerError::ReadError(e)),
            };
            if x == 0x75 && y == 0x6C && z == 0x6C {
                Ok(Some(Token::Null))
            } else {
                Err(LexerError::UnexpectedByte(self.position()))
            }
        } else if b == 0x66 {
            let (w, x, y, z) = match self.reader.next4() {
                Ok(v) => v,
                Err(e) => return Err(LexerError::ReadError(e)),
            };
            if w == 0x61 && x == 0x6C && y == 0x73 && z == 0x65 {
                Ok(Some(Token::False))
            } else {
                Err(LexerError::UnexpectedByte(self.position()))
            }
        } else if b == 0x2D || (b >= 0x30 && b <= 0x39) {
            match self.reader.next_number(b) {
                Ok(()) => Ok(Some(Token::Number)),
                Err(e) => Err(LexerError::ReadError(e)),
            }
        } else {
            Err(LexerError::UnexpectedByte(self.position()))
        }
    }

    fn parse_string(&mut self, str_buf: &mut Vec<u8>) -> (r: Result<Token, LexerError>)
        requires
            old(self).wf(),
            !old(self).has_peeked(),
        ensures
            final(self).wf(),
            final(self).input() == old(self).input(),
            !final(self).has_peeked(),
            match string_from(old(self).input(), old(self).cursor()) {
                Ok((d, e)) => if valid_utf8(d) {
                    r == Ok::<Token, LexerError>(Token::String) && final(self).cursor() == e
                        && final(str_buf)@ == d
                } else {
                    r == Err::<Token, LexerError>(
                        LexerError::InvalidUtf8Sequence(pos_at(old(self).input(), e)),
                    )
                },
                Err(err) => r == Err::<Token, LexerError>(LexerError::ReadError(err)),
            },
    {
        match self.reader.next_likely_string(str_buf) {
            Ok(()) => {},
            Err(e) => return Err(LexerError::ReadError(e)),
        }
        if !is_utf8(str_buf) {
            return Err(LexerError::InvalidUtf8Sequence(self.position()));
        }
        Ok(Token::String)
    }
}

} // verus!
