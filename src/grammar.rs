//! The Rison grammar as spec functions over the whole input `s` and a byte offset `i`.
//!
//! Each function says what one scan or one decision of the decoder yields when it starts at `i`:
//! the result and the offset just past what it consumed, or the error and its position.
use vstd::prelude::*;
use vstd::utf8::{decode_utf8, valid_utf8};
use crate::error::{at, Code, Error};

verus! {

/// The byte ` `.
pub const SPACE: u8 = 0x20;

/// The byte `'`.
pub const QUOTE: u8 = 0x27;

/// The byte `!`.
pub const BANG: u8 = 0x21;

/// The byte `:`.
pub const COLON: u8 = 0x3a;

/// The byte `(`.
pub const OPEN: u8 = 0x28;

/// The byte `)`.
pub const CLOSE: u8 = 0x29;

/// The byte `,`.
pub const COMMA: u8 = 0x2c;

/// The byte `*`.
pub const STAR: u8 = 0x2a;

/// The byte `@`.
pub const AT_SIGN: u8 = 0x40;

/// The byte `$`.
pub const DOLLAR: u8 = 0x24;

/// The byte `-`.
pub const MINUS: u8 = 0x2d;

/// The byte `.`.
pub const DOT: u8 = 0x2e;

/// The byte `0`.
pub const ZERO: u8 = 0x30;

/// The byte `9`.
pub const NINE: u8 = 0x39;

/// The byte `e`.
pub const LOWER_E: u8 = 0x65;

/// The byte `n`.
pub const LOWER_N: u8 = 0x6e;

/// The byte `t`.
pub const LOWER_T: u8 = 0x74;

/// The byte `f`.
pub const LOWER_F: u8 = 0x66;

/// The byte at `i`, or `None` past the end of the input.
pub open spec fn byte_at(s: Seq<u8>, i: int) -> Option<u8> {
    if 0 <= i < s.len() {
        Some(s[i])
    } else {
        None
    }
}

/// Bytes that may stand in a bare identifier: all but `space ' ! : ( ) , * @ $`.
pub open spec fn is_ident_byte(b: u8) -> bool {
    !(b == SPACE || b == QUOTE || b == BANG || b == COLON || b == OPEN || b == CLOSE
        || b == COMMA || b == STAR || b == AT_SIGN || b == DOLLAR)
}

pub open spec fn is_digit(b: u8) -> bool {
    ZERO <= b <= NINE
}

/// Bytes that a numeric literal is made of: `-`, digits, `.` and `e`.
pub open spec fn is_number_byte(b: u8) -> bool {
    b == MINUS || is_digit(b) || b == DOT || b == LOWER_E
}

/// End of the run of identifier bytes that starts at `i`.
pub open spec fn ident_end(s: Seq<u8>, i: int) -> int
    decreases s.len() - i,
{
    if 0 <= i < s.len() && is_ident_byte(s[i]) {
        ident_end(s, i + 1)
    } else {
        i
    }
}

/// End of the run of number bytes that starts at `i`.
pub open spec fn number_end(s: Seq<u8>, i: int) -> int
    decreases s.len() - i,
{
    if 0 <= i < s.len() && is_number_byte(s[i]) {
        number_end(s, i + 1)
    } else {
        i
    }
}

/// End of the run of decimal digits of `t` that starts at `i`.
pub open spec fn digits_end(t: Seq<u8>, i: int) -> int
    decreases t.len() - i,
{
    if 0 <= i < t.len() && is_digit(t[i]) {
        digits_end(t, i + 1)
    } else {
        i
    }
}

/// The exponent part at `c` of a number literal: `e`, an optional `-`, then one digit or more.
pub open spec fn exponent_ok(t: Seq<u8>, c: int) -> bool {
    let d = if c + 1 < t.len() && t[c + 1] == MINUS { c + 2 } else { c + 1 };
    c < t.len() && t[c] == LOWER_E && digits_end(t, d) > d && digits_end(t, d) == t.len()
}

/// A numeric literal: `-`? digits (`.` digits)? (`e` `-`? digits)?, with at least one digit
/// before the exponent (`1.` and `-.5` are numbers, `-`, `1e` and `1-2` are not).
pub open spec fn number_syntax(t: Seq<u8>) -> bool {
    let a = if t.len() > 0 && t[0] == MINUS { 1int } else { 0int };
    let b = digits_end(t, a);
    let dot = b < t.len() && t[b] == DOT;
    let c = if dot { digits_end(t, b + 1) } else { b };
    let n_digits = if dot { (b - a) + (c - (b + 1)) } else { b - a };
    n_digits > 0 && (c == t.len() || exponent_ok(t, c))
}

/// Length of the longest prefix of `b` that is valid UTF-8.
pub open spec fn valid_prefix_len(b: Seq<u8>) -> int
    decreases b.len(),
{
    if valid_utf8(b) || b.len() == 0 {
        b.len() as int
    } else {
        valid_prefix_len(b.drop_last())
    }
}

/// The characters that the bytes `t` spell, where `t` began at offset `start`.
pub open spec fn utf8_text(t: Seq<u8>, start: int) -> Result<Seq<char>, Error> {
    if valid_utf8(t) {
        Ok(decode_utf8(t))
    } else {
        Err(at(Code::InvalidUnicode, start + valid_prefix_len(t)))
    }
}

/// The bytes of a quoted string whose body starts at `i` (just past the opening quote), with
/// `!!` and `!'` undone, and the offset just past the closing quote.
pub open spec fn unquote(s: Seq<u8>, i: int) -> Result<(Seq<u8>, int), Error>
    decreases s.len() - i,
{
    if i < 0 || i >= s.len() {
        Err(at(Code::EofString, s.len() as int))
    } else if s[i] == QUOTE {
        Ok((Seq::empty(), i + 1))
    } else if s[i] == BANG {
        if i + 1 >= s.len() {
            Err(at(Code::EofString, s.len() as int))
        } else if s[i + 1] == BANG || s[i + 1] == QUOTE {
            match unquote(s, i + 2) {
                Ok((t, e)) => Ok((seq![s[i + 1]] + t, e)),
                Err(x) => Err(x),
            }
        } else {
            Err(at(Code::InvalidEscape, i + 2))
        }
    } else {
        match unquote(s, i + 1) {
            Ok((t, e)) => Ok((seq![s[i]] + t, e)),
            Err(x) => Err(x),
        }
    }
}

/// Whether the quoted string whose body starts at `i` holds no escape, so that its text is
/// the input itself between the quotes.
pub open spec fn unescaped(s: Seq<u8>, i: int) -> bool {
    match unquote(s, i) {
        Ok((t, e)) => t == s.subrange(i, e - 1),
        Err(_) => false,
    }
}

/// A quoted string whose body starts at `i`: its text and the offset past the closing quote.
pub open spec fn quoted(s: Seq<u8>, i: int) -> Result<(Seq<char>, int), Error> {
    match unquote(s, i) {
        Ok((t, e)) => match utf8_text(t, i) {
            Ok(c) => Ok((c, e)),
            Err(x) => Err(x),
        },
        Err(x) => Err(x),
    }
}

/// A bare identifier at `i`: its text and its end. It may be empty, and may run to the end
/// of the input.
pub open spec fn ident(s: Seq<u8>, i: int) -> Result<(Seq<char>, int), Error> {
    let e = ident_end(s, i);
    match utf8_text(s.subrange(i, e), i) {
        Ok(c) => Ok((c, e)),
        Err(x) => Err(x),
    }
}

/// A numeric literal at `i`: its bytes and its end.
pub open spec fn number(s: Seq<u8>, i: int) -> Result<(Seq<u8>, int), Error> {
    let e = number_end(s, i);
    let t = s.subrange(i, e);
    if number_syntax(t) {
        Ok((t, e))
    } else {
        Err(at(Code::InvalidNumber, e))
    }
}

/// One step of what a document holds, in the order the decoder meets it.
pub enum Tok {
    /// `!n`.
    Unit,
    /// `!t` or `!f`.
    Bool(bool),
    /// A numeric literal, as written.
    Number(Seq<u8>),
    /// A quoted string or a bare identifier.
    Str(Seq<char>),
    /// `!(`, the start of a sequence.
    SeqStart,
    /// `(`, the start of an object.
    MapStart,
    /// `)`, the end of the innermost sequence or object.
    End,
}

/// The value that a `!` marker selects, where `j` is just past the `!`.
pub open spec fn marker(s: Seq<u8>, j: int) -> Result<(Tok, int), Error> {
    match byte_at(s, j) {
        None => Err(at(Code::EofMarker, j)),
        Some(b) => if b == LOWER_N {
            Ok((Tok::Unit, j + 1))
        } else if b == LOWER_T {
            Ok((Tok::Bool(true), j + 1))
        } else if b == LOWER_F {
            Ok((Tok::Bool(false), j + 1))
        } else if b == OPEN {
            Ok((Tok::SeqStart, j + 1))
        } else {
            Err(at(Code::InvalidMarker, j))
        },
    }
}

/// The start of the value at `i`, chosen by its first byte: a scalar whole, or the opening
/// of a container.
pub open spec fn value_event(s: Seq<u8>, i: int) -> Result<(Tok, int), Error> {
    match byte_at(s, i) {
        None => Err(at(Code::EofValue, i)),
        Some(b) => if b == BANG {
            marker(s, i + 1)
        } else if b == MINUS || is_digit(b) {
            match number(s, i) {
                Ok((t, e)) => Ok((Tok::Number(t), e)),
                Err(x) => Err(x),
            }
        } else if b == QUOTE {
            match quoted(s, i + 1) {
                Ok((c, e)) => Ok((Tok::Str(c), e)),
                Err(x) => Err(x),
            }
        } else if b == OPEN {
            Ok((Tok::MapStart, i + 1))
        } else {
            match ident(s, i) {
                Ok((c, e)) => Ok((Tok::Str(c), e)),
                Err(x) => Err(x),
            }
        },
    }
}

/// Whether an element follows at `i` in a sequence, `first` telling whether none has yet;
/// a separating comma is consumed, the closing parenthesis is not.
pub open spec fn seq_step(s: Seq<u8>, i: int, first: bool) -> Result<(bool, int), Error> {
    match byte_at(s, i) {
        None => Err(at(Code::EofList, i)),
        Some(b) => if b == CLOSE {
            Ok((false, i))
        } else if b == COMMA {
            if first { Err(at(Code::ExpectedListSepOrEnd, i)) } else { Ok((true, i + 1)) }
        } else {
            if first { Ok((true, i)) } else { Err(at(Code::ExpectedListSepOrEnd, i)) }
        },
    }
}

/// Whether an entry follows at `i` in an object, as [`seq_step`] is for a sequence.
pub open spec fn key_step(s: Seq<u8>, i: int, first: bool) -> Result<(bool, int), Error> {
    match byte_at(s, i) {
        None => Err(at(Code::EofObject, i)),
        Some(b) => if b == CLOSE {
            Ok((false, i))
        } else if b == COMMA {
            if first { Err(at(Code::ExpectedObjectSepOrEnd, i)) } else { Ok((true, i + 1)) }
        } else {
            if first { Ok((true, i)) } else { Err(at(Code::ExpectedObjectSepOrEnd, i)) }
        },
    }
}

/// The colon between a key and its value.
pub open spec fn colon_step(s: Seq<u8>, i: int) -> Result<int, Error> {
    if byte_at(s, i) == Some(COLON) {
        Ok(i + 1)
    } else {
        Err(at(Code::ExpectedColon, i))
    }
}

/// The closing parenthesis of a container; `eof` is the code for an input that ends first.
pub open spec fn close_step(s: Seq<u8>, i: int, eof: Code) -> Result<int, Error> {
    match byte_at(s, i) {
        None => Err(at(eof, i)),
        Some(b) => if b == CLOSE { Ok(i + 1) } else { Err(at(Code::TrailingChars, i)) },
    }
}

/// The end of the input, after the one top-level value.
pub open spec fn end_step(s: Seq<u8>, i: int) -> Result<(), Error> {
    match byte_at(s, i) {
        None => Ok(()),
        Some(_) => Err(at(Code::TrailingChars, i)),
    }
}

} // verus!
