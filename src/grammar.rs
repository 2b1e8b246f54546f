//! The accepted grammar, stated over the bytes of the input.
//!
//! Each function reads from a byte position and yields either what it recognised,
//! with the position just after it, or the error the parser reports there.
use vstd::prelude::*;

use crate::json::Json;
use crate::parse::Error;

verus! {

pub const SPACE: u8 = 0x20;
pub const TAB: u8 = 0x09;
pub const LINE_FEED: u8 = 0x0a;
pub const CARRIAGE_RETURN: u8 = 0x0d;
pub const BACKSPACE: u8 = 0x08;
pub const FORM_FEED: u8 = 0x0c;
pub const QUOTE: u8 = 0x22;
pub const BACKSLASH: u8 = 0x5c;
pub const SLASH: u8 = 0x2f;
pub const COMMA: u8 = 0x2c;
pub const COLON: u8 = 0x3a;
pub const OPEN_BRACE: u8 = 0x7b;
pub const CLOSE_BRACE: u8 = 0x7d;
pub const OPEN_BRACKET: u8 = 0x5b;
pub const CLOSE_BRACKET: u8 = 0x5d;
pub const MINUS: u8 = 0x2d;
pub const PLUS: u8 = 0x2b;
pub const DOT: u8 = 0x2e;
pub const DIGIT_ZERO: u8 = 0x30;
pub const DIGIT_NINE: u8 = 0x39;
pub const UPPER_E: u8 = 0x45;
pub const LOWER_A: u8 = 0x61;
pub const LOWER_B: u8 = 0x62;
pub const LOWER_E: u8 = 0x65;
pub const LOWER_F: u8 = 0x66;
pub const LOWER_L: u8 = 0x6c;
pub const LOWER_N: u8 = 0x6e;
pub const LOWER_R: u8 = 0x72;
pub const LOWER_S: u8 = 0x73;
pub const LOWER_T: u8 = 0x74;
pub const LOWER_U: u8 = 0x75;

/// Insignificant whitespace: space, tab, line feed, carriage return.
pub open spec fn is_ws(c: u8) -> bool {
    c == SPACE || c == TAB || c == LINE_FEED || c == CARRIAGE_RETURN
}

pub open spec fn is_digit(c: u8) -> bool {
    DIGIT_ZERO <= c <= DIGIT_NINE
}

/// The bytes a number literal is scanned over: digits, signs, the fraction point and
/// the exponent letters.
pub open spec fn is_number_byte(c: u8) -> bool {
    is_digit(c) || c == MINUS || c == PLUS || c == DOT || c == LOWER_E || c == UPPER_E
}

/// The first position at or after `p` that is not whitespace.
pub open spec fn skip_ws(s: Seq<u8>, p: int) -> int
    decreases s.len() - p,
{
    if 0 <= p < s.len() && is_ws(s[p]) {
        skip_ws(s, p + 1)
    } else {
        p
    }
}

/// The end of the maximal run of number bytes that starts at `p`.
pub open spec fn number_end(s: Seq<u8>, p: int) -> int
    decreases s.len() - p,
{
    if 0 <= p < s.len() && is_number_byte(s[p]) {
        number_end(s, p + 1)
    } else {
        p
    }
}

/// The end of the maximal run of digits that starts at `i`.
pub open spec fn digits_end(t: Seq<u8>, i: int) -> int
    decreases t.len() - i,
{
    if 0 <= i < t.len() && is_digit(t[i]) {
        digits_end(t, i + 1)
    } else {
        i
    }
}

/// The end of a run of one or more digits that starts at `i`, if there is one.
pub open spec fn some_digits(t: Seq<u8>, i: int) -> Option<int> {
    if digits_end(t, i) > i {
        Some(digits_end(t, i))
    } else {
        None
    }
}

/// The end of the longest prefix of `t` shaped as a number:
/// `-`? digits (`.` digits)? ((`e` | `E`) (`-` | `+`)? digits)?
pub open spec fn number_literal_end(t: Seq<u8>) -> Option<int> {
    let i0: int = if t.len() > 0 && t[0] == MINUS { 1 } else { 0 };
    match some_digits(t, i0) {
        None => None,
        Some(i1) => {
            let fraction = if i1 < t.len() && t[i1] == DOT {
                some_digits(t, i1 + 1)
            } else {
                Some(i1)
            };
            match fraction {
                None => None,
                Some(i2) => if i2 < t.len() && (t[i2] == LOWER_E || t[i2] == UPPER_E) {
                    let i3: int = if i2 + 1 < t.len() && (t[i2 + 1] == MINUS || t[i2 + 1] == PLUS) {
                        i2 + 2
                    } else {
                        i2 + 1
                    };
                    some_digits(t, i3)
                } else {
                    Some(i2)
                },
            }
        },
    }
}

/// `t` is, as a whole, a number literal.
pub open spec fn is_number_literal(t: Seq<u8>) -> bool {
    number_literal_end(t) == Some(t.len() as int)
}

/// The byte that an escape `\c` stands for, for the recognised escapes.
pub open spec fn unescape(c: u8) -> Option<u8> {
    if c == QUOTE || c == BACKSLASH || c == SLASH {
        Some(c)
    } else if c == LOWER_B {
        Some(BACKSPACE)
    } else if c == LOWER_F {
        Some(FORM_FEED)
    } else if c == LOWER_N {
        Some(LINE_FEED)
    } else if c == LOWER_R {
        Some(CARRIAGE_RETURN)
    } else if c == LOWER_T {
        Some(TAB)
    } else {
        None
    }
}

/// Decodes string content from `p` up to the first unescaped `token`, appending the
/// decoded bytes to `acc`; yields them with the position of that `token`.
pub open spec fn scan_text(s: Seq<u8>, p: int, token: u8, acc: Seq<u8>) -> Result<
    (Seq<u8>, int),
    Error,
>
    decreases s.len() - p,
{
    if p < 0 || p >= s.len() {
        Err(Error::UnexpectedEndOfInput)
    } else if s[p] == token {
        Ok((acc, p))
    } else if s[p] == BACKSLASH {
        if p + 1 >= s.len() {
            Err(Error::UnexpectedEndOfInput)
        } else {
            match unescape(s[p + 1]) {
                Some(c) => scan_text(s, p + 2, token, acc.push(c)),
                None => Err(Error::IllegalEscape { offset: (p + 1) as usize }),
            }
        }
    } else {
        scan_text(s, p + 1, token, acc.push(s[p]))
    }
}

/// A quoted string whose opening quote is at `p`: its decoded bytes, and the position
/// after the closing quote.
pub open spec fn quoted(s: Seq<u8>, p: int) -> Result<(Seq<u8>, int), Error> {
    if p < 0 || p >= s.len() {
        Err(Error::UnexpectedEndOfInput)
    } else if s[p] != QUOTE {
        Err(Error::UnexpectedByte { offset: p as usize })
    } else {
        match scan_text(s, p + 1, QUOTE, Seq::empty()) {
            Ok((t, e)) => Ok((t, e + 1)),
            Err(err) => Err(err),
        }
    }
}

/// Matches `lit` from its `i`-th byte on against the input at `p + i`; yields the
/// position after the literal.
pub open spec fn match_literal(s: Seq<u8>, p: int, lit: Seq<u8>, i: int) -> Result<int, Error>
    decreases lit.len() - i,
{
    if i < 0 || i >= lit.len() {
        Ok(p + lit.len())
    } else if p + i >= s.len() {
        Err(Error::UnexpectedEndOfInput)
    } else if s[p + i] != lit[i] {
        Err(Error::UnexpectedByte { offset: (p + i) as usize })
    } else {
        match_literal(s, p, lit, i + 1)
    }
}

pub open spec fn lit_true() -> Seq<u8> {
    seq![LOWER_T, LOWER_R, LOWER_U, LOWER_E]
}

pub open spec fn lit_false() -> Seq<u8> {
    seq![LOWER_F, LOWER_A, LOWER_L, LOWER_S, LOWER_E]
}

pub open spec fn lit_null() -> Seq<u8> {
    seq![LOWER_N, LOWER_U, LOWER_L, LOWER_L]
}

/// A number literal at `p`: the maximal run of number bytes, which must form a number.
pub open spec fn number_at(s: Seq<u8>, p: int) -> Result<(Json, int), Error> {
    let e = number_end(s, p);
    if is_number_literal(s.subrange(p, e)) {
        Ok((Json::Number(s.subrange(p, e)), e))
    } else {
        Err(Error::InvalidNumber { offset: p as usize })
    }
}

/// What follows a value: whitespace, then at most one comma.
pub open spec fn after_value(s: Seq<u8>, e: int) -> int {
    let w = skip_ws(s, e);
    if 0 <= w < s.len() && s[w] == COMMA {
        w + 1
    } else {
        w
    }
}

/// The byte at `p`, or the end of the input.
pub open spec fn byte_at(s: Seq<u8>, p: int) -> Result<u8, Error> {
    if 0 <= p < s.len() {
        Ok(s[p])
    } else {
        Err(Error::UnexpectedEndOfInput)
    }
}

/// The literal `lit` at `p`, standing for `v`.
pub open spec fn literal_at(s: Seq<u8>, p: int, lit: Seq<u8>, v: Json) -> Result<
    (Json, int),
    Error,
> {
    match match_literal(s, p, lit, 0) {
        Ok(e) => Ok((v, e)),
        Err(err) => Err(err),
    }
}

/// A text value: a quoted string at `p`.
pub open spec fn text_at(s: Seq<u8>, p: int) -> Result<(Json, int), Error> {
    match quoted(s, p) {
        Ok((t, e)) => Ok((Json::Text(t), e)),
        Err(err) => Err(err),
    }
}

/// A value whose first byte is at `q`, which chooses its kind; yields it with the
/// position just after it.
pub open spec fn value_body(s: Seq<u8>, q: int) -> Result<(Json, int), Error>
    decreases s.len() - q, 0int
{
    if q < 0 || q >= s.len() {
        Err(Error::UnexpectedEndOfInput)
    } else {
        let c = s[q];
        if is_digit(c) || c == MINUS {
            number_at(s, q)
        } else if c == LOWER_T {
            literal_at(s, q, lit_true(), Json::Bool(true))
        } else if c == LOWER_F {
            literal_at(s, q, lit_false(), Json::Bool(false))
        } else if c == LOWER_N {
            literal_at(s, q, lit_null(), Json::Null)
        } else if c == QUOTE {
            text_at(s, q)
        } else if c == OPEN_BRACKET {
            array_items(s, q + 1, Seq::empty())
        } else if c == OPEN_BRACE {
            object_members(s, q + 1, Map::empty())
        } else {
            Err(Error::UnexpectedByte { offset: q as usize })
        }
    }
}

/// A value at the first non-whitespace position from `p`; yields it with the
/// position after the whitespace and optional comma that follow it.
pub open spec fn value_at(s: Seq<u8>, p: int) -> Result<(Json, int), Error>
    decreases s.len() - p, 1int
    via value_at_decreases
{
    let q = skip_ws(s, p);
    if q < 0 || q >= s.len() {
        Err(Error::UnexpectedEndOfInput)
    } else {
        match value_body(s, q) {
            Ok((v, e)) => Ok((v, after_value(s, e))),
            Err(err) => Err(err),
        }
    }
}

/// The rest of an array from `p`, after the opening bracket and the items `acc`;
/// yields the array with the position after the closing bracket.
pub open spec fn array_items(s: Seq<u8>, p: int, acc: Seq<Json>) -> Result<(Json, int), Error>
    decreases s.len() - p, 2int
    via array_items_decreases
{
    let q = skip_ws(s, p);
    if q < 0 || q >= s.len() {
        Err(Error::UnexpectedEndOfInput)
    } else if s[q] == CLOSE_BRACKET {
        Ok((Json::Array(acc), q + 1))
    } else {
        match value_at(s, q) {
            // a value always consumes input; the bound only makes that evident here
            Ok((v, e)) => if q < e <= s.len() {
                array_items(s, e, acc.push(v))
            } else {
                Err(Error::UnexpectedEndOfInput)
            },
            Err(err) => Err(err),
        }
    }
}

/// One object member from `p`: a quoted key, a colon and a value.
pub open spec fn member_at(s: Seq<u8>, p: int) -> Result<((Seq<u8>, Json), int), Error>
    decreases s.len() - p, 1int
    via member_at_decreases
{
    let q = skip_ws(s, p);
    match quoted(s, q) {
        Ok((key, k)) => {
            let c = skip_ws(s, k);
            if c < 0 || c >= s.len() {
                Err(Error::UnexpectedEndOfInput)
            } else if s[c] != COLON {
                Err(Error::UnexpectedByte { offset: c as usize })
            } else {
                match value_at(s, c + 1) {
                    Ok((v, e)) => Ok(((key, v), e)),
                    Err(err) => Err(err),
                }
            }
        },
        Err(err) => Err(err),
    }
}

/// The rest of an object from `p`, after the opening brace and the members `acc`;
/// yields the object with the position after the closing brace. A repeated key takes
/// the later value.
pub open spec fn object_members(s: Seq<u8>, p: int, acc: Map<Seq<u8>, Json>) -> Result<
    (Json, int),
    Error,
>
    decreases s.len() - p, 2int
    via object_members_decreases
{
    let q = skip_ws(s, p);
    if q < 0 || q >= s.len() {
        Err(Error::UnexpectedEndOfInput)
    } else if s[q] == CLOSE_BRACE {
        Ok((Json::Object(acc), q + 1))
    } else {
        match member_at(s, q) {
            // a value always consumes input; the bound only makes that evident here
            Ok(((key, v), e)) => if q < e <= s.len() {
                object_members(s, e, acc.insert(key, v))
            } else {
                Err(Error::UnexpectedEndOfInput)
            },
            Err(err) => Err(err),
        }
    }
}

/// An object at the first non-whitespace position from `p`.
pub open spec fn object_at(s: Seq<u8>, p: int) -> Result<(Json, int), Error> {
    let q = skip_ws(s, p);
    if q < 0 || q >= s.len() {
        Err(Error::UnexpectedEndOfInput)
    } else if s[q] != OPEN_BRACE {
        Err(Error::UnexpectedByte { offset: q as usize })
    } else {
        object_members(s, q + 1, Map::empty())
    }
}

/// An array at the first non-whitespace position from `p`.
pub open spec fn array_at(s: Seq<u8>, p: int) -> Result<(Json, int), Error> {
    let q = skip_ws(s, p);
    if q < 0 || q >= s.len() {
        Err(Error::UnexpectedEndOfInput)
    } else if s[q] != OPEN_BRACKET {
        Err(Error::UnexpectedByte { offset: q as usize })
    } else {
        array_items(s, q + 1, Seq::empty())
    }
}

/// A document from `p`: an object or an array, whose first byte decides.
pub open spec fn document_at(s: Seq<u8>, p: int) -> Result<Json, Error> {
    let q = skip_ws(s, p);
    if 0 <= q < s.len() && (s[q] == OPEN_BRACE || s[q] == OPEN_BRACKET) {
        match value_at(s, p) {
            Ok((v, _)) => Ok(v),
            Err(err) => Err(err),
        }
    } else {
        Err(Error::InvalidDocument)
    }
}

/// Skipping whitespace stays within the input.
pub proof fn lemma_skip_ws_bounds(s: Seq<u8>, p: int)
    requires
        0 <= p <= s.len(),
    ensures
        p <= skip_ws(s, p) <= s.len(),
    decreases s.len() - p,
{
    if 0 <= p < s.len() && is_ws(s[p]) {
        lemma_skip_ws_bounds(s, p + 1);
    }
}

#[via_fn]
proof fn value_at_decreases(s: Seq<u8>, p: int) {
    if 0 <= p <= s.len() {
        lemma_skip_ws_bounds(s, p);
    }
}

#[via_fn]
proof fn array_items_decreases(s: Seq<u8>, p: int, acc: Seq<Json>) {
    if 0 <= p <= s.len() {
        lemma_skip_ws_bounds(s, p);
    }
}

/// Decoded string content ends at its `token`, within the input.
pub proof fn lemma_scan_text_bounds(s: Seq<u8>, p: int, token: u8, acc: Seq<u8>)
    requires
        0 <= p,
    ensures
        scan_text(s, p, token, acc) matches Ok((_, e)) ==> p <= e < s.len() && s[e] == token,
    decreases s.len() - p,
{
    if 0 <= p < s.len() && s[p] != token {
        if s[p] == BACKSLASH {
            if p + 1 < s.len() {
                if let Some(c) = unescape(s[p + 1]) {
                    lemma_scan_text_bounds(s, p + 2, token, acc.push(c));
                }
            }
        } else {
            lemma_scan_text_bounds(s, p + 1, token, acc.push(s[p]));
        }
    }
}

/// A quoted string ends after it starts, within the input.
pub proof fn lemma_quoted_bounds(s: Seq<u8>, p: int)
    requires
        0 <= p,
    ensures
        quoted(s, p) matches Ok((_, e)) ==> p < e <= s.len(),
{
    lemma_scan_text_bounds(s, p + 1, QUOTE, Seq::empty());
}

#[via_fn]
proof fn member_at_decreases(s: Seq<u8>, p: int) {
    if 0 <= p <= s.len() {
        lemma_skip_ws_bounds(s, p);
        let q = skip_ws(s, p);
        lemma_quoted_bounds(s, q);
        if let Ok((_, k)) = quoted(s, q) {
            lemma_skip_ws_bounds(s, k);
        }
    }
}

#[via_fn]
proof fn object_members_decreases(s: Seq<u8>, p: int, acc: Map<Seq<u8>, Json>) {
    if 0 <= p <= s.len() {
        lemma_skip_ws_bounds(s, p);
    }
}

/// Skipping whitespace twice is skipping it once.
pub proof fn lemma_skip_ws_idempotent(s: Seq<u8>, p: int)
    requires
        0 <= p <= s.len(),
    ensures
        skip_ws(s, skip_ws(s, p)) == skip_ws(s, p),
    decreases s.len() - p,
{
    if 0 <= p < s.len() && is_ws(s[p]) {
        lemma_skip_ws_idempotent(s, p + 1);
    }
}

} // verus!
