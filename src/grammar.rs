//! The byte-level grammar of JSON numbers and strings, as spec functions
//! over the input, and the facts about them that the readers and the
//! lexer rely on.
use crate::read::{lemma_offsets, pos_at, read_error_position, ReadError};
use vstd::prelude::*;
use vstd::utf8::{
    encode_scalar, encode_utf8, encode_utf8_valid_utf8, is_scalar, valid_utf8, valid_utf8_concat,
};

verus! {

pub open spec fn is_digit(b: u8) -> bool {
    0x30u8 <= b <= 0x39u8
}

pub open spec fn is_ws(b: u8) -> bool {
    b == 0x20u8 || b == 0x09u8 || b == 0x0Au8 || b == 0x0Du8
}

/// The first index at or after `i` that holds no digit.
pub open spec fn digits_end(s: Seq<u8>, i: int) -> int
    decreases s.len() - i,
{
    if 0 <= i < s.len() && is_digit(s[i]) {
        digits_end(s, i + 1)
    } else {
        i
    }
}

/// The first index at or after `i` that holds no whitespace.
pub open spec fn ws_end(s: Seq<u8>, i: int) -> int
    decreases s.len() - i,
{
    if 0 <= i < s.len() && is_ws(s[i]) {
        ws_end(s, i + 1)
    } else {
        i
    }
}

pub proof fn lemma_digits_end(s: Seq<u8>, i: int)
    requires
        0 <= i <= s.len(),
    ensures
        i <= digits_end(s, i) <= s.len(),
        forall|k: int| i <= k < digits_end(s, i) ==> is_digit(#[trigger] s[k]),
        digits_end(s, i) < s.len() ==> !is_digit(s[digits_end(s, i)]),
    decreases s.len() - i,
{
    if i < s.len() && is_digit(s[i]) {
        lemma_digits_end(s, i + 1);
    }
}

pub proof fn lemma_ws_end(s: Seq<u8>, i: int)
    requires
        0 <= i <= s.len(),
    ensures
        i <= ws_end(s, i) <= s.len(),
        ws_end(s, i) < s.len() ==> !is_ws(s[ws_end(s, i)]),
    decreases s.len() - i,
{
    if i < s.len() && is_ws(s[i]) {
        lemma_ws_end(s, i + 1);
    }
}

/// After the integer digits of a number, at `j`: an optional fraction or exponent.
pub open spec fn number_tail(s: Seq<u8>, j: int) -> Result<int, ReadError> {
    if j < s.len() && s[j] == 0x2Eu8 {
        fraction_from(s, j + 1)
    } else if j < s.len() && (s[j] == 0x65u8 || s[j] == 0x45u8) {
        exponent_from(s, j + 1)
    } else {
        Ok(j)
    }
}

/// A number whose leading digit `lead` was consumed; `i` is the next index.
/// On success, the index just past the number.
pub open spec fn integer_from(s: Seq<u8>, i: int, lead: u8) -> Result<int, ReadError> {
    if i >= s.len() {
        Ok(i)
    } else if lead == 0x30u8 && is_digit(s[i]) {
        Err(ReadError::LeadingZerosInNumber(pos_at(s, i)))
    } else {
        number_tail(s, digits_end(s, i))
    }
}

/// The digits after a decimal point that sits just before `i`.
pub open spec fn fraction_from(s: Seq<u8>, i: int) -> Result<int, ReadError> {
    if i >= s.len() {
        Err(ReadError::UnexpectedEndOfInput(pos_at(s, i)))
    } else if !is_digit(s[i]) {
        Err(ReadError::NoNumberCharactersAfterFraction(pos_at(s, i)))
    } else {
        let j = digits_end(s, i + 1);
        if j < s.len() && (s[j] == 0x65u8 || s[j] == 0x45u8) {
            exponent_from(s, j + 1)
        } else {
            Ok(j)
        }
    }
}

/// The optional sign and the digits after an exponent marker that sits just before `i`.
pub open spec fn exponent_from(s: Seq<u8>, i: int) -> Result<int, ReadError> {
    let k = if i < s.len() && (s[i] == 0x2Bu8 || s[i] == 0x2Du8) {
        i + 1
    } else {
        i
    };
    if k >= s.len() {
        Err(ReadError::UnexpectedEndOfInput(pos_at(s, k)))
    } else if !is_digit(s[k]) {
        Err(ReadError::NoNumberCharactersAfterExponent(pos_at(s, k)))
    } else {
        Ok(digits_end(s, k + 1))
    }
}

/// A number whose first byte `first` (a minus sign or a digit) sits just before `i`.
/// On success, the index just past the number; any precision is accepted.
pub open spec fn number_from(s: Seq<u8>, i: int, first: u8) -> Result<int, ReadError> {
    if first == 0x2Du8 {
        if i >= s.len() {
            Err(ReadError::UnexpectedEndOfInput(pos_at(s, i)))
        } else if !is_digit(s[i]) {
            Err(ReadError::NoNumberCharactersAfterMinusSign(pos_at(s, i + 1)))
        } else {
            integer_from(s, i + 1, s[i])
        }
    } else {
        integer_from(s, i, first)
    }
}

pub open spec fn is_hex(b: u8) -> bool {
    is_digit(b) || (0x61u8 <= b <= 0x66u8) || (0x41u8 <= b <= 0x46u8)
}

/// The value of a hexadecimal digit.
pub open spec fn hex_val(b: u8) -> int {
    if is_digit(b) {
        b - 0x30
    } else if 0x61u8 <= b <= 0x66u8 {
        b - 0x61 + 10
    } else {
        b - 0x41 + 10
    }
}

pub open spec fn all_hex(s: Seq<u8>, j: int) -> bool {
    is_hex(s[j]) && is_hex(s[j + 1]) && is_hex(s[j + 2]) && is_hex(s[j + 3])
}

/// The value of the four hexadecimal digits that start at `j`.
pub open spec fn hex4(s: Seq<u8>, j: int) -> int {
    hex_val(s[j]) * 4096 + hex_val(s[j + 1]) * 256 + hex_val(s[j + 2]) * 16 + hex_val(s[j + 3])
}

/// Bytes that may not stand for themselves in a string: controls, `"` and `\`.
pub open spec fn needs_escape(b: u8) -> bool {
    b < 0x20u8 || b == 0x22u8 || b == 0x5Cu8
}

/// The byte that a one-letter escape `\c` stands for.
pub open spec fn simple_escape(c: u8) -> Option<u8> {
    if c == 0x22u8 || c == 0x5Cu8 || c == 0x2Fu8 {
        Some(c)
    } else if c == 0x62u8 {
        Some(0x08u8)
    } else if c == 0x66u8 {
        Some(0x0Cu8)
    } else if c == 0x6Eu8 {
        Some(0x0Au8)
    } else if c == 0x72u8 {
        Some(0x0Du8)
    } else if c == 0x74u8 {
        Some(0x09u8)
    } else {
        None
    }
}

/// The escape whose backslash sits just before `i`: the decoded bytes and the
/// index just past the escape.
pub open spec fn escape_from(s: Seq<u8>, i: int) -> Result<(Seq<u8>, int), ReadError> {
    if i >= s.len() {
        Err(ReadError::UnexpectedEndOfInput(pos_at(s, i)))
    } else if simple_escape(s[i]) is Some {
        Ok((seq![simple_escape(s[i])->Some_0], i + 1))
    } else if s[i] != 0x75u8 {
        Err(ReadError::InvalidEscapeSequence(pos_at(s, i + 1)))
    } else {
        let j = i + 1;
        if s.len() - j < 4 {
            Err(ReadError::UnexpectedEndOfInput(pos_at(s, j)))
        } else if !all_hex(s, j) {
            Err(ReadError::NonHexCharacterInUnicodeEscape(pos_at(s, j + 4)))
        } else {
            let h = hex4(s, j);
            let k = j + 4;
            if 0xDC00 <= h <= 0xDFFF {
                Err(ReadError::InvalidEscapeSequence(pos_at(s, k)))
            } else if 0xD800 <= h <= 0xDBFF {
                if s.len() - k < 6 {
                    Err(ReadError::UnexpectedEndOfInput(pos_at(s, k)))
                } else if s[k] != 0x5Cu8 {
                    Err(ReadError::InvalidEscapeSequence(pos_at(s, k + 1)))
                } else if s[k + 1] != 0x75u8 {
                    Err(ReadError::InvalidEscapeSequence(pos_at(s, k + 2)))
                } else if !all_hex(s, k + 2) {
                    Err(ReadError::NonHexCharacterInUnicodeEscape(pos_at(s, k + 6)))
                } else {
                    let l = hex4(s, k + 2);
                    if !(0xDC00 <= l <= 0xDFFF) {
                        Err(ReadError::InvalidEscapeSequence(pos_at(s, k + 6)))
                    } else {
                        Ok(
                            (
                                encode_scalar((0x10000 + (h - 0xD800) * 0x400 + (l - 0xDC00)) as u32),
                                k + 6,
                            ),
                        )
                    }
                }
            } else {
                Ok((encode_scalar(h as u32), k))
            }
        }
    }
}

/// `d` put in front of the decoded bytes of a successful scan.
pub open spec fn prepend(d: Seq<u8>, r: Result<(Seq<u8>, int), ReadError>) -> Result<(Seq<u8>, int), ReadError> {
    match r {
        Ok((x, e)) => Ok((d + x, e)),
        Err(err) => Err(err),
    }
}

/// The body of a string whose opening quote sits just before `i`: the decoded
/// bytes and the index just past the closing quote.
pub open spec fn string_from(s: Seq<u8>, i: int) -> Result<(Seq<u8>, int), ReadError>
    decreases s.len() - i,
{
    if i < 0 || i >= s.len() {
        Err(ReadError::UnclosedString(pos_at(s, s.len() as int)))
    } else if !needs_escape(s[i]) {
        prepend(seq![s[i]], string_from(s, i + 1))
    } else if s[i] == 0x22u8 {
        Ok((Seq::empty(), i + 1))
    } else if s[i] == 0x5Cu8 {
        match escape_from(s, i + 1) {
            Ok((d, j)) => if j > i {
                prepend(d, string_from(s, j))
            } else {
                Err(ReadError::UnclosedString(pos_at(s, s.len() as int)))
            },
            Err(err) => Err(err),
        }
    } else {
        Err(ReadError::ControlCharacterInString(pos_at(s, i + 1)))
    }
}

pub proof fn lemma_escape_advances(s: Seq<u8>, i: int)
    requires
        0 <= i,
    ensures
        escape_from(s, i) matches Ok((d, j)) ==> i < j <= s.len(),
{
}

pub proof fn lemma_prepend_assoc(a: Seq<u8>, b: Seq<u8>, r: Result<(Seq<u8>, int), ReadError>)
    ensures
        prepend(a, prepend(b, r)) == prepend(a + b, r),
{
    if let Ok((x, e)) = r {
        assert(a + (b + x) =~= (a + b) + x);
    }
}

pub proof fn lemma_exponent_ends(s: Seq<u8>, i: int)
    requires
        0 <= i <= s.len(),
    ensures
        exponent_from(s, i) matches Ok(e) ==> i < e <= s.len(),
{
    let k = if i < s.len() && (s[i] == 0x2Bu8 || s[i] == 0x2Du8) { i + 1 } else { i };
    if k < s.len() {
        lemma_digits_end(s, k + 1);
    }
}

pub proof fn lemma_fraction_ends(s: Seq<u8>, i: int)
    requires
        0 <= i <= s.len(),
    ensures
        fraction_from(s, i) matches Ok(e) ==> i < e <= s.len(),
{
    if i < s.len() {
        lemma_digits_end(s, i + 1);
        let j = digits_end(s, i + 1);
        if j < s.len() {
            lemma_exponent_ends(s, j + 1);
        }
    }
}

/// A number ends within the input, at or after the index it starts from.
pub proof fn lemma_number_ends(s: Seq<u8>, i: int, first: u8)
    requires
        0 <= i <= s.len(),
    ensures
        number_from(s, i, first) matches Ok(e) ==> i <= e <= s.len(),
{
    let i2 = if first == 0x2Du8 { i + 1 } else { i };
    if i2 <= s.len() {
        lemma_digits_end(s, i2);
        let j = digits_end(s, i2);
        if j < s.len() {
            lemma_fraction_ends(s, j + 1);
            lemma_exponent_ends(s, j + 1);
        }
    }
}

/// A string ends within the input, after the index it starts from.
pub proof fn lemma_string_ends(s: Seq<u8>, i: int)
    requires
        0 <= i <= s.len(),
    ensures
        string_from(s, i) matches Ok((d, e)) ==> i < e <= s.len(),
    decreases s.len() - i,
{
    if i < s.len() {
        if !needs_escape(s[i]) {
            lemma_string_ends(s, i + 1);
        } else if s[i] == 0x5Cu8 {
            lemma_escape_advances(s, i + 1);
            if let Ok((d, j)) = escape_from(s, i + 1) {
                lemma_string_ends(s, j);
            }
        }
    }
}

/// A number that fails reports a position at or after where it was scanned from.
pub proof fn lemma_number_error_after(s: Seq<u8>, i: int, first: u8)
    requires
        0 <= i <= s.len() < usize::MAX,
    ensures
        number_from(s, i, first) matches Err(r) ==> i <= read_error_position(r).offset <= s.len()
            && read_error_position(r) == pos_at(s, read_error_position(r).offset as int),
{
    lemma_offsets(s);
    let i2 = if first == 0x2Du8 { i + 1 } else { i };
    if i2 <= s.len() {
        lemma_digits_end(s, i2);
        let j = digits_end(s, i2);
        if j < s.len() {
            lemma_digits_end(s, j + 1);
            if j + 2 <= s.len() {
                lemma_digits_end(s, j + 2);
            }
        }
    }
}

/// An escape that fails reports a position at or after where it was scanned from.
pub proof fn lemma_escape_error_after(s: Seq<u8>, i: int)
    requires
        0 <= i <= s.len() < usize::MAX,
    ensures
        escape_from(s, i) matches Err(r) ==> i <= read_error_position(r).offset <= s.len()
            && read_error_position(r) == pos_at(s, read_error_position(r).offset as int),
{
    lemma_offsets(s);
}

/// A string that fails reports a position at or after where it was scanned from.
pub proof fn lemma_string_error_after(s: Seq<u8>, i: int)
    requires
        0 <= i <= s.len() < usize::MAX,
    ensures
        string_from(s, i) matches Err(r) ==> i <= read_error_position(r).offset <= s.len()
            && read_error_position(r) == pos_at(s, read_error_position(r).offset as int),
    decreases s.len() - i,
{
    lemma_offsets(s);
    if i < s.len() {
        if !needs_escape(s[i]) {
            lemma_string_error_after(s, i + 1);
        } else if s[i] == 0x5Cu8 {
            lemma_escape_advances(s, i + 1);
            lemma_escape_error_after(s, i + 1);
            if let Ok((d, j)) = escape_from(s, i + 1) {
                lemma_string_error_after(s, j);
            }
        }
    }
}

/// The encoding of a Unicode scalar value is well-formed UTF-8.
pub proof fn lemma_scalar_utf8(cp: u32)
    requires
        is_scalar(cp),
    ensures
        valid_utf8(encode_scalar(cp)),
{
    let c = cp as char;
    assert((c as u32) == cp);
    let cs = seq![c];
    assert(cs.drop_first() =~= Seq::<char>::empty());
    assert(encode_utf8(cs.drop_first()) == Seq::<u8>::empty());
    assert(encode_utf8(cs) =~= encode_scalar(cp));
    encode_utf8_valid_utf8(cs);
}

/// A single ASCII byte is well-formed UTF-8.
pub proof fn lemma_ascii_utf8(b: u8)
    requires
        b < 0x80u8,
    ensures
        valid_utf8(seq![b]),
{
    assert((((b as u32) & 0x7Fu32) as u8) == b) by (bit_vector)
        requires
            b < 0x80u8,
    ;
    lemma_scalar_utf8(b as u32);
    assert(encode_scalar(b as u32) =~= seq![b]);
}

pub proof fn lemma_hex4_range(s: Seq<u8>, j: int)
    requires
        0 <= j,
        j + 4 <= s.len(),
        all_hex(s, j),
    ensures
        0 <= hex4(s, j) <= 0xFFFF,
{
}

/// The bytes an escape stands for are well-formed UTF-8.
pub proof fn lemma_escape_utf8(s: Seq<u8>, i: int)
    requires
        0 <= i,
    ensures
        escape_from(s, i) matches Ok((d, e)) ==> valid_utf8(d),
{
    if i < s.len() {
        if simple_escape(s[i]) is Some {
            lemma_ascii_utf8(simple_escape(s[i])->Some_0);
        } else if s[i] == 0x75u8 && s.len() - (i + 1) >= 4 && all_hex(s, i + 1) {
            let j = i + 1;
            lemma_hex4_range(s, j);
            let h = hex4(s, j);
            let k = j + 4;
            if 0xD800 <= h <= 0xDBFF {
                if s.len() - k >= 6 && all_hex(s, k + 2) {
                    lemma_hex4_range(s, k + 2);
                    let l = hex4(s, k + 2);
                    if 0xDC00 <= l <= 0xDFFF {
                        lemma_scalar_utf8((0x10000 + (h - 0xD800) * 0x400 + (l - 0xDC00)) as u32);
                    }
                }
            } else if !(0xDC00 <= h <= 0xDFFF) {
                lemma_scalar_utf8(h as u32);
            }
        }
    }
}

/// A string whose raw bytes are all ASCII decodes to well-formed UTF-8: its
/// escapes, surrogate pairs included, only ever produce Unicode scalar values.
pub proof fn lemma_ascii_string_utf8(s: Seq<u8>, i: int)
    requires
        0 <= i <= s.len(),
    ensures
        string_from(s, i) matches Ok((d, e)) ==> ((forall|k: int| i <= k < e ==> s[k] < 0x80u8)
            ==> valid_utf8(d)),
    decreases s.len() - i,
{
    if i < s.len() {
        if let Ok((d, e)) = string_from(s, i) {
            if forall|k: int| i <= k < e ==> s[k] < 0x80u8 {
                if !needs_escape(s[i]) {
                    lemma_string_ends(s, i + 1);
                    lemma_ascii_string_utf8(s, i + 1);
                    let (d2, e2) = string_from(s, i + 1)->Ok_0;
                    assert(s[i] < 0x80u8);
                    lemma_ascii_utf8(s[i]);
                    valid_utf8_concat(seq![s[i]], d2);
                } else if s[i] == 0x22u8 {
                } else if s[i] == 0x5Cu8 {
                    lemma_escape_advances(s, i + 1);
                    lemma_escape_utf8(s, i + 1);
                    let (d1, j) = escape_from(s, i + 1)->Ok_0;
                    lemma_ascii_string_utf8(s, j);
                    let (d2, e2) = string_from(s, j)->Ok_0;
                    valid_utf8_concat(d1, d2);
                }
            }
        }
    }
}

/// A string body made of ASCII bytes and `\u` escapes, read up to its closing
/// quote at `e`, leaves well-formed UTF-8 in the buffer: escapes, surrogate
/// pairs included, only ever decode to Unicode scalar values.
pub proof fn lemma_ascii_body_utf8(s: Seq<u8>, i: int, d: Seq<u8>, e: int)
    requires
        0 <= i <= s.len(),
        string_from(s, i) == Ok::<(Seq<u8>, int), ReadError>((d, e)),
        forall|k: int| i <= k < e ==> s[k] < 0x80u8,
    ensures
        valid_utf8(d),
{
    lemma_ascii_string_utf8(s, i);
}

} // verus!
