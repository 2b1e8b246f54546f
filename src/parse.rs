//! The parser: a byte cursor over the input text, with one method per grammar
//! production.
use vstd::prelude::*;
use vstd::string::{StringExecFns, StringSliceAdditionalSpecFns};
use vstd::utf8::{
    encode_utf8, encode_utf8_decode_utf8, encode_utf8_valid_utf8, is_ascii_chars,
    is_ascii_chars_encode_utf8,
};

use crate::grammar::{
    BACKSLASH, CARRIAGE_RETURN, CLOSE_BRACE, CLOSE_BRACKET, COLON, COMMA, DIGIT_NINE, DIGIT_ZERO,
    DOT, LINE_FEED, LOWER_B, LOWER_E, LOWER_F, LOWER_N, LOWER_R, LOWER_T, MINUS, OPEN_BRACE,
    OPEN_BRACKET, PLUS, QUOTE, SLASH, SPACE, TAB, UPPER_E, array_at, array_items, byte_at,
    digits_end, document_at, is_number_byte, is_number_literal, lemma_scan_text_bounds,
    lemma_skip_ws_idempotent, lit_false, lit_null, lit_true, match_literal, member_at,
    number_at, number_end, object_at, object_members, quoted, scan_text, skip_ws, text_at,
    unescape, value_at,
};
use crate::json::{
    Json, JSONValue, items_view, lemma_members_map_push, lemma_members_map_update, member_pairs,
    members_map, unique_keys,
};
use crate::utf8_facts::{ascii_cut, lemma_ascii_boundary, lemma_encode_utf8_concat};

verus! {

/// Why a parse failed. Offsets count bytes from the start of the input.
#[derive(Debug, Clone, Copy, PartialEq, Eq, Structural)]
pub enum Error {
    /// The input ended where more was required.
    UnexpectedEndOfInput,
    /// The byte at `offset` fits no alternative of the grammar there.
    UnexpectedByte { offset: usize },
    /// The byte at `offset` follows a backslash and names no known escape.
    IllegalEscape { offset: usize },
    /// The number literal that starts at `offset` is malformed.
    InvalidNumber { offset: usize },
    /// The input does not start with an object or an array.
    InvalidDocument,
}

/// A cursor over the bytes of one input text.
pub struct ParseContext<'a> {
    bytes: &'a [u8],
    text: &'a str,
    index: usize,
}

/// `r` is the text that the grammar result `g` decodes, and `pos` the position after it;
/// or `r` is the same error.
pub open spec fn text_result(
    g: Result<(Seq<u8>, int), Error>,
    r: Result<String, Error>,
    pos: int,
) -> bool {
    match g {
        Ok((t, e)) => r matches Ok(x) && encode_utf8(x@) == t && pos == e,
        Err(err) => r == Err::<String, Error>(err),
    }
}

/// `r` models the value of the grammar result `g`, lists each key of its objects once,
/// and `pos` is the position after it; or `r` is the same error.
pub open spec fn value_result(
    g: Result<(Json, int), Error>,
    r: Result<JSONValue, Error>,
    pos: int,
) -> bool {
    match g {
        Ok((v, e)) => r matches Ok(x) && x@ == v && x.keys_unique() && pos == e,
        Err(err) => r == Err::<JSONValue, Error>(err),
    }
}

/// The bytes of a one-character string.
proof fn lemma_single_ascii(s: &str, c: char)
    requires
        s@.len() == 1,
        s@[0] == c,
        (c as u32) < 0x80,
    ensures
        s.spec_bytes() == seq![c as u8],
{
    assert(s@ =~= seq![c]);
    assert(is_ascii_chars(s@));
    is_ascii_chars_encode_utf8(s@);
    assert(s.spec_bytes() =~= seq![c as u8]);
}

/// The text of the byte that the escape `\c` stands for, if `c` names a known escape.
fn unescaped_text(c: u8) -> (r: Option<&'static str>)
    ensures
        match unescape(c) {
            Some(u) => r matches Some(t) && t.spec_bytes() == seq![u],
            None => r is None,
        },
{
    if c == QUOTE {
        proof { reveal_strlit("\""); lemma_single_ascii("\"", '"'); }
        Some("\"")
    } else if c == BACKSLASH {
        proof { reveal_strlit("\\"); lemma_single_ascii("\\", '\\'); }
        Some("\\")
    } else if c == SLASH {
        proof { reveal_strlit("/"); lemma_single_ascii("/", '/'); }
        Some("/")
    } else if c == LOWER_B {
        proof { reveal_strlit("\u{8}"); lemma_single_ascii("\u{8}", '\u{8}'); }
        Some("\u{8}")
    } else if c == LOWER_F {
        proof { reveal_strlit("\u{c}"); lemma_single_ascii("\u{c}", '\u{c}'); }
        Some("\u{c}")
    } else if c == LOWER_N {
        proof { reveal_strlit("\n"); lemma_single_ascii("\n", '\n'); }
        Some("\n")
    } else if c == LOWER_R {
        proof { reveal_strlit("\r"); lemma_single_ascii("\r", '\r'); }
        Some("\r")
    } else if c == LOWER_T {
        proof { reveal_strlit("\t"); lemma_single_ascii("\t", '\t'); }
        Some("\t")
    } else {
        None
    }
}

/// Whether `b` is one of the bytes a number literal is scanned over.
fn number_byte(b: u8) -> (r: bool)
    ensures
        r == is_number_byte(b),
{
    (DIGIT_ZERO <= b && b <= DIGIT_NINE) || b == MINUS || b == PLUS || b == DOT || b == LOWER_E
        || b == UPPER_E
}

/// The end of the run of digits in `t` that starts at `i`.
fn digits_from(t: &[u8], i: usize) -> (r: usize)
    requires
        i <= t@.len(),
    ensures
        r == digits_end(t@, i as int),
        i <= r <= t@.len(),
{
    let mut j = i;
    while j < t.len() && DIGIT_ZERO <= t[j] && t[j] <= DIGIT_NINE
        invariant
            i <= j <= t@.len(),
            digits_end(t@, i as int) == digits_end(t@, j as int),
        decreases t@.len() - j,
    {
        j += 1;
    }
    j
}

/// Whether `t` as a whole is a number literal:
/// `-`? digits (`.` digits)? ((`e` | `E`) (`-` | `+`)? digits)?
/// A fraction point needs a digit on both sides, so `1.`, `.5` and `1.e5` are refused.
pub fn check_number_literal(t: &[u8]) -> (r: bool)
    ensures
        r == is_number_literal(t@),
{
    let n = t.len();
    let i0: usize = if n > 0 && t[0] == MINUS { 1 } else { 0 };
    let i1 = digits_from(t, i0);
    if i1 == i0 {
        return false;
    }
    let i2 = if i1 < n && t[i1] == DOT {
        let d = digits_from(t, i1 + 1);
        if d == i1 + 1 {
            return false;
        }
        d
    } else {
        i1
    };
    let end = if i2 < n && (t[i2] == LOWER_E || t[i2] == UPPER_E) {
        let i3: usize = if i2 + 1 < n && (t[i2 + 1] == MINUS || t[i2 + 1] == PLUS) {
            i2 + 2
        } else {
            i2 + 1
        };
        let g = digits_from(t, i3);
        if g == i3 {
            return false;
        }
        g
    } else {
        i2
    };
    end == n
}

/// The bytes of the three literal words.
proof fn lemma_literal_bytes()
    ensures
        "true".spec_bytes() == lit_true(),
        "false".spec_bytes() == lit_false(),
        "null".spec_bytes() == lit_null(),
{
    reveal_strlit("true");
    reveal_strlit("false");
    reveal_strlit("null");
    assert("true"@ =~= seq!['t', 'r', 'u', 'e']);
    assert("false"@ =~= seq!['f', 'a', 'l', 's', 'e']);
    assert("null"@ =~= seq!['n', 'u', 'l', 'l']);
    is_ascii_chars_encode_utf8("true"@);
    is_ascii_chars_encode_utf8("false"@);
    is_ascii_chars_encode_utf8("null"@);
    assert("true".spec_bytes() =~= lit_true());
    assert("false".spec_bytes() =~= lit_false());
    assert("null".spec_bytes() =~= lit_null());
}

/// Adds a member to an object's list, replacing the value of a member with the same
/// key.
fn insert_member(fields: &mut Vec<(String, JSONValue)>, key: String, value: JSONValue)
    requires
        unique_keys(member_pairs(old(fields)@)),
        forall|j: int| 0 <= j < old(fields)@.len() ==> (#[trigger] old(fields)@[j]).1.keys_unique(),
        value.keys_unique(),
    ensures
        unique_keys(member_pairs(final(fields)@)),
        forall|j: int|
            0 <= j < final(fields)@.len() ==> (#[trigger] final(fields)@[j]).1.keys_unique(),
        members_map(member_pairs(final(fields)@)) == members_map(member_pairs(old(fields)@)).insert(
            encode_utf8(key@),
            value@,
        ),
{
    let ghost k = encode_utf8(key@);
    let mut i: usize = 0;
    while i < fields.len()
        invariant
            fields == old(fields),
            unique_keys(member_pairs(fields@)),
            forall|j: int| 0 <= j < fields@.len() ==> (#[trigger] fields@[j]).1.keys_unique(),
            value.keys_unique(),
            i <= fields@.len(),
            forall|j: int| 0 <= j < i ==> fields@[j].0@ != key@,
        decreases fields@.len() - i,
    {
        if fields[i].0 == key {
            proof {
                let pairs = member_pairs(fields@);
                lemma_members_map_update(pairs, i as int, value@);
                assert(member_pairs(fields@.update(i as int, (key, value))) =~= pairs.update(
                    i as int,
                    (pairs[i as int].0, value@),
                ));
            }
            fields.set(i, (key, value));
            return;
        }
        i += 1;
    }
    proof {
        let pairs = member_pairs(fields@);
        assert forall|j: int| 0 <= j < pairs.len() implies pairs[j].0 != k by {
            encode_utf8_decode_utf8(fields@[j].0@);
            encode_utf8_decode_utf8(key@);
        }
        assert(member_pairs(fields@.push((key, value))) =~= pairs.push((k, value@)));
        lemma_members_map_push(pairs, (k, value@));
    }
    fields.push((key, value));
}

impl<'a> ParseContext<'a> {
    /// The bytes being parsed.
    pub closed spec fn input(&self) -> Seq<u8> {
        self.bytes@
    }

    /// The cursor: the position of the next byte to read.
    pub closed spec fn pos(&self) -> int {
        self.index as int
    }

    /// The bytes are those of the text, and the cursor lies within them.
    pub closed spec fn wf(&self) -> bool {
        &&& self.bytes@ == self.text.spec_bytes()
        &&& self.index <= self.bytes@.len()
    }

    /// The cursor of a well-formed context lies within its input.
    pub proof fn lemma_pos_bounds(&self)
        requires
            self.wf(),
        ensures
            0 <= self.pos() <= self.input().len(),
    {
    }

    /// A cursor at the start of `text`.
    pub fn new(text: &'a str) -> (r: ParseContext<'a>)
        ensures
            r.wf(),
            r.input() == text.spec_bytes(),
            r.pos() == 0,
    {
        ParseContext { bytes: text.as_bytes(), text, index: 0 }
    }

    /// The error for an unexpected byte at the cursor.
    fn fail<T>(&self) -> (r: Result<T, Error>)
        ensures
            r == Err::<T, Error>(Error::UnexpectedByte { offset: self.index }),
    {
        Err(Error::UnexpectedByte { offset: self.index })
    }

    /// The byte at the cursor, or the end of the input.
    pub fn current_byte(&self) -> (r: Result<u8, Error>)
        requires
            self.wf(),
        ensures
            r == byte_at(self.input(), self.pos()),
    {
        if self.index < self.bytes.len() {
            Ok(self.bytes[self.index])
        } else {
            Err(Error::UnexpectedEndOfInput)
        }
    }

    /// Moves the cursor past whitespace.
    pub fn skip_control_chars(&mut self)
        requires
            old(self).wf(),
        ensures
            final(self).wf(),
            final(self).input() == old(self).input(),
            final(self).pos() == skip_ws(old(self).input(), old(self).pos()),
            old(self).pos() <= final(self).pos(),
    {
        loop
            invariant
                self.wf(),
                self.input() == old(self).input(),
                skip_ws(self.input(), self.pos()) == skip_ws(old(self).input(), old(self).pos()),
                old(self).pos() <= self.pos(),
            ensures
                self.wf(),
                self.input() == old(self).input(),
                self.pos() == skip_ws(old(self).input(), old(self).pos()),
                old(self).pos() <= self.pos(),
            decreases self.input().len() - self.pos(),
        {
            match self.current_byte() {
                Ok(b) => {
                    if b == LINE_FEED || b == CARRIAGE_RETURN || b == TAB || b == SPACE {
                        self.accept();
                    } else {
                        break;
                    }
                },
                Err(_) => break,
            }
        }
    }

    /// Moves the cursor one byte on.
    pub fn accept(&mut self)
        requires
            old(self).wf(),
            old(self).pos() < old(self).input().len(),
        ensures
            final(self).wf(),
            final(self).input() == old(self).input(),
            final(self).pos() == old(self).pos() + 1,
    {
        let _ = self.bytes.len();
        self.index += 1;
    }

    /// Moves the cursor `n` bytes on.
    pub fn accept_n(&mut self, n: usize)
        requires
            old(self).wf(),
            old(self).pos() + n <= old(self).input().len(),
        ensures
            final(self).wf(),
            final(self).input() == old(self).input(),
            final(self).pos() == old(self).pos() + n,
    {
        let _ = self.bytes.len();
        self.index += n;
    }

    /// Moves the cursor past a comma, if one is there.
    pub fn skip_comma(&mut self)
        requires
            old(self).wf(),
        ensures
            final(self).wf(),
            final(self).input() == old(self).input(),
            final(self).pos() == if byte_at(old(self).input(), old(self).pos()) == Ok::<u8, Error>(
                COMMA,
            ) {
                old(self).pos() + 1
            } else {
                old(self).pos()
            },
    {
        if let Ok(b) = self.current_byte() {
            if b == COMMA {
                self.accept();
            }
        }
    }

    /// Consumes the byte `token`, which must be at the cursor.
    pub fn eat(&mut self, token: u8) -> (r: Result<(), Error>)
        requires
            old(self).wf(),
        ensures
            final(self).wf(),
            final(self).input() == old(self).input(),
            match byte_at(old(self).input(), old(self).pos()) {
                Ok(b) => if b == token {
                    r == Ok::<(), Error>(()) && final(self).pos() == old(self).pos() + 1
                } else {
                    r == Err::<(), Error>(
                        Error::UnexpectedByte { offset: old(self).pos() as usize },
                    )
                        && final(self).pos() == old(self).pos()
                },
                Err(err) => r == Err::<(), Error>(err) && final(self).pos() == old(self).pos(),
            },
    {
        let next = match self.current_byte() {
            Ok(b) => b,
            Err(err) => return Err(err),
        };
        if next == token {
            self.accept();
            Ok(())
        } else {
            self.fail()
        }
    }

    /// Consumes the literal `match_str`, which must start at the cursor. On a mismatch
    /// the cursor stays where it was.
    pub fn eat_str(&mut self, match_str: &'static str) -> (r: Result<&'static str, Error>)
        requires
            old(self).wf(),
        ensures
            final(self).wf(),
            final(self).input() == old(self).input(),
            match match_literal(old(self).input(), old(self).pos(), match_str.spec_bytes(), 0) {
                Ok(e) => r == Ok::<&'static str, Error>(match_str) && final(self).pos() == e
                    && e == old(self).pos() + match_str.spec_bytes().len(),
                Err(err) => r == Err::<&'static str, Error>(err) && final(self).pos() == old(
                    self,
                ).pos(),
            },
    {
        let match_bytes = match_str.as_bytes();
        let mut i: usize = 0;
        while i < match_bytes.len()
            invariant
                self == old(self),
                self.wf(),
                i <= match_bytes@.len(),
                match_bytes@ == match_str.spec_bytes(),
                self.pos() + i <= self.input().len(),
                match_literal(self.input(), self.pos(), match_bytes@, 0) == match_literal(
                    self.input(),
                    self.pos(),
                    match_bytes@,
                    i as int,
                ),
            decreases match_bytes@.len() - i,
        {
            if i >= self.bytes.len() - self.index {
                return Err(Error::UnexpectedEndOfInput);
            }
            if self.bytes[self.index + i] != match_bytes[i] {
                return Err(Error::UnexpectedByte { offset: self.index + i });
            }
            i += 1;
        }
        self.accept_n(match_bytes.len());
        Ok(match_str)
    }

    /// The text of the input between two cuts.
    fn slice(&self, start: usize, end: usize) -> (r: &'a str)
        requires
            self.wf(),
            start <= end <= self.input().len(),
            ascii_cut(self.input(), start as int),
            ascii_cut(self.input(), end as int),
        ensures
            r.spec_bytes() == self.input().subrange(start as int, end as int),
    {
        let ghost s = self.input();
        proof {
            encode_utf8_valid_utf8(self.text@);
            lemma_ascii_boundary(s, start as int);
        }
        let (_, rest) = self.text.split_at(start);
        proof {
            let t = rest.spec_bytes();
            encode_utf8_valid_utf8(rest@);
            assert(t == s.subrange(start as int, s.len() as int));
            if end > start {
                if end < s.len() {
                    assert(t[end - start] == s[end as int]);
                }
                assert(t[end - start - 1] == s[end - 1]);
                lemma_ascii_boundary(t, (end - start) as int);
            }
        }
        let (piece, _) = rest.split_at(end - start);
        proof {
            assert(piece.spec_bytes() =~= s.subrange(start as int, end as int));
        }
        piece
    }

    /// Appends the text of the input between two cuts to `out`.
    fn append_slice(&self, out: &mut String, start: usize, end: usize)
        requires
            self.wf(),
            start <= end <= self.input().len(),
            ascii_cut(self.input(), start as int),
            ascii_cut(self.input(), end as int),
        ensures
            encode_utf8(final(out)@) == encode_utf8(old(out)@) + self.input().subrange(
                start as int,
                end as int,
            ),
    {
        let piece = self.slice(start, end);
        proof {
            lemma_encode_utf8_concat(out@, piece@);
        }
        out.append(piece);
    }

    /// Consumes the content of a string up to the first unescaped `token`, which it
    /// leaves at the cursor. Without escapes the content is copied in one piece. The
    /// cursor must not split a character: it sits at or just after an ASCII byte, or at
    /// the end.
    pub fn eat_until(&mut self, token: u8) -> (r: Result<String, Error>)
        requires
            old(self).wf(),
            token < 0x80,
            ascii_cut(old(self).input(), old(self).pos()),
        ensures
            final(self).wf(),
            final(self).input() == old(self).input(),
            text_result(
                scan_text(old(self).input(), old(self).pos(), token, Seq::empty()),
                r,
                final(self).pos(),
            ),
    {
        let ghost s = self.input();
        let ghost start_pos = self.pos();
        let idx_start = self.index;
        proof {
            assert(s.subrange(start_pos, start_pos) =~= Seq::<u8>::empty());
        }
        loop
            invariant
                self.wf(),
                self.input() == s,
                s == old(self).input(),
                start_pos == old(self).pos(),
                idx_start == start_pos,
                token < 0x80,
                ascii_cut(s, start_pos),
                start_pos <= self.pos() <= s.len(),
                scan_text(s, start_pos, token, Seq::empty()) == scan_text(
                    s,
                    self.pos(),
                    token,
                    s.subrange(start_pos, self.pos()),
                ),
            ensures
                self.wf(),
                self.input() == s,
                start_pos <= self.pos() < s.len(),
                s[self.pos()] == token,
                scan_text(s, start_pos, token, Seq::empty()) == scan_text(
                    s,
                    self.pos(),
                    token,
                    s.subrange(start_pos, self.pos()),
                ),
            decreases s.len() - self.pos(),
        {
            let b = match self.current_byte() {
                Ok(b) => b,
                Err(err) => return Err(err),
            };
            if b == token {
                break;
            }
            if b == BACKSLASH {
                let initial_str = self.slice(idx_start, self.index);
                proof {
                    assert(s.subrange(start_pos, self.pos()) == initial_str.spec_bytes());
                }
                return self.eat_buffered_until(initial_str, token);
            }
            proof {
                assert(s.subrange(start_pos, self.pos() + 1) =~= s.subrange(
                    start_pos,
                    self.pos(),
                ).push(b));
            }
            self.accept();
        }
        let owned_str = self.slice(idx_start, self.index).to_owned();
        Ok(owned_str)
    }

    /// Continues string content from the cursor, decoding escapes into an owned buffer
    /// that starts with `initial_str`. The cursor must not split a character, as for
    /// `eat_until`.
    pub fn eat_buffered_until(&mut self, initial_str: &'a str, token: u8) -> (r: Result<
        String,
        Error,
    >)
        requires
            old(self).wf(),
            token < 0x80,
            ascii_cut(old(self).input(), old(self).pos()),
        ensures
            final(self).wf(),
            final(self).input() == old(self).input(),
            text_result(
                scan_text(old(self).input(), old(self).pos(), token, initial_str.spec_bytes()),
                r,
                final(self).pos(),
            ),
    {
        let ghost s = self.input();
        let ghost start_pos = self.pos();
        let ghost init = initial_str.spec_bytes();
        let mut buffer = String::from_str(initial_str);
        let mut seg = self.index;
        proof {
            assert(s.subrange(seg as int, seg as int) =~= Seq::<u8>::empty());
            assert(encode_utf8(buffer@) + s.subrange(seg as int, seg as int) =~= init);
        }
        loop
            invariant
                self.wf(),
                self.input() == s,
                s == old(self).input(),
                start_pos == old(self).pos(),
                token < 0x80,
                init == initial_str.spec_bytes(),
                seg <= self.pos() <= s.len(),
                ascii_cut(s, seg as int),
                scan_text(s, start_pos, token, init) == scan_text(
                    s,
                    self.pos(),
                    token,
                    encode_utf8(buffer@) + s.subrange(seg as int, self.pos()),
                ),
            ensures
                self.wf(),
                self.input() == s,
                seg <= self.pos() < s.len(),
                s[self.pos()] == token,
                ascii_cut(s, seg as int),
                scan_text(s, start_pos, token, init) == scan_text(
                    s,
                    self.pos(),
                    token,
                    encode_utf8(buffer@) + s.subrange(seg as int, self.pos()),
                ),
            decreases s.len() - self.pos(),
        {
            let b = match self.current_byte() {
                Ok(b) => b,
                Err(err) => return Err(err),
            };
            if b == token {
                break;
            }
            if b == BACKSLASH {
                let ghost before = encode_utf8(buffer@) + s.subrange(seg as int, self.pos());
                self.append_slice(&mut buffer, seg, self.index);
                self.accept();
                let following = match self.current_byte() {
                    Ok(c) => c,
                    Err(err) => return Err(err),
                };
                let piece = match unescaped_text(following) {
                    Some(t) => t,
                    None => return Err(Error::IllegalEscape { offset: self.index }),
                };
                proof {
                    lemma_encode_utf8_concat(buffer@, piece@);
                }
                buffer.append(piece);
                self.accept();
                seg = self.index;
                proof {
                    assert(s.subrange(seg as int, seg as int) =~= Seq::<u8>::empty());
                    assert(encode_utf8(buffer@) + s.subrange(seg as int, self.pos())
                        =~= before.push(
                        unescape(following)->0,
                    ));
                }
            } else {
                proof {
                    assert(encode_utf8(buffer@) + s.subrange(seg as int, self.pos() + 1) =~= (
                    encode_utf8(buffer@) + s.subrange(seg as int, self.pos())).push(b));
                }
                self.accept();
            }
        }
        self.append_slice(&mut buffer, seg, self.index);
        Ok(buffer)
    }

    /// Consumes a quoted string and yields its decoded content.
    pub fn string(&mut self) -> (r: Result<String, Error>)
        requires
            old(self).wf(),
        ensures
            final(self).wf(),
            final(self).input() == old(self).input(),
            text_result(quoted(old(self).input(), old(self).pos()), r, final(self).pos()),
            r is Ok ==> final(self).pos() > old(self).pos(),
            byte_at(old(self).input(), old(self).pos()) != Ok::<u8, Error>(QUOTE)
                ==> final(self).pos() == old(self).pos(),
    {
        match self.eat(QUOTE) {
            Ok(()) => {},
            Err(err) => return Err(err),
        }
        let s = match self.eat_until(QUOTE) {
            Ok(s) => s,
            Err(err) => return Err(err),
        };
        proof {
            lemma_scan_text_bounds(self.input(), old(self).pos() + 1, QUOTE, Seq::empty());
        }
        match self.eat(QUOTE) {
            Ok(()) => {},
            Err(err) => return Err(err),
        }
        Ok(s)
    }

    /// Consumes a text value.
    pub fn text(&mut self) -> (r: Result<JSONValue, Error>)
        requires
            old(self).wf(),
        ensures
            final(self).wf(),
            final(self).input() == old(self).input(),
            value_result(text_at(old(self).input(), old(self).pos()), r, final(self).pos()),
            r is Ok ==> final(self).pos() > old(self).pos(),
    {
        match self.string() {
            Ok(s) => Ok(JSONValue::Text(s)),
            Err(err) => Err(err),
        }
    }

    /// Consumes a number: the run of number bytes at the cursor, which must form a
    /// number literal. The value keeps the literal's text. A fraction point needs a
    /// digit on both sides, so `1.`, `-1.`, `.5` and `1.e5` are invalid numbers.
    pub fn number(&mut self) -> (r: Result<JSONValue, Error>)
        requires
            old(self).wf(),
        ensures
            final(self).wf(),
            final(self).input() == old(self).input(),
            value_result(number_at(old(self).input(), old(self).pos()), r, final(self).pos()),
            r is Ok ==> final(self).pos() > old(self).pos(),
    {
        let ghost s = self.input();
        let ghost start_pos = self.pos();
        let idx_start = self.index;
        loop
            invariant
                self.wf(),
                self.input() == s,
                s == old(self).input(),
                start_pos == old(self).pos(),
                idx_start == start_pos,
                start_pos <= self.pos() <= s.len(),
                number_end(s, start_pos) == number_end(s, self.pos()),
                self.pos() > start_pos ==> is_number_byte(s[self.pos() - 1]),
                self.pos() > start_pos ==> is_number_byte(s[start_pos]),
            ensures
                self.wf(),
                self.input() == s,
                start_pos <= self.pos() <= s.len(),
                self.pos() == number_end(s, start_pos),
                self.pos() > start_pos ==> is_number_byte(s[self.pos() - 1]),
                self.pos() > start_pos ==> is_number_byte(s[start_pos]),
            decreases s.len() - self.pos(),
        {
            match self.current_byte() {
                Ok(b) => {
                    if number_byte(b) {
                        self.accept();
                    } else {
                        break;
                    }
                },
                Err(_) => break,
            }
        }
        if self.index == idx_start {
            proof {
                assert(s.subrange(start_pos, start_pos) =~= Seq::<u8>::empty());
            }
            return Err(Error::InvalidNumber { offset: idx_start });
        }
        let literal = self.slice(idx_start, self.index);
        if check_number_literal(literal.as_bytes()) {
            Ok(JSONValue::Number(literal.to_owned()))
        } else {
            Err(Error::InvalidNumber { offset: idx_start })
        }
    }
    /// Consumes a value, chosen by its first byte after whitespace, and the whitespace
    /// and optional comma that follow it.
    pub fn value(&mut self) -> (r: Result<JSONValue, Error>)
        requires
            old(self).wf(),
        ensures
            final(self).wf(),
            final(self).input() == old(self).input(),
            value_result(value_at(old(self).input(), old(self).pos()), r, final(self).pos()),
            r is Ok ==> final(self).pos() > old(self).pos(),
        decreases old(self).input().len() - old(self).pos(), 2int,
    {
        let ghost s = self.input();
        let ghost start_pos = self.pos();
        self.skip_control_chars();
        proof {
            lemma_skip_ws_idempotent(s, start_pos);
            lemma_literal_bytes();
        }
        let next = match self.current_byte() {
            Ok(b) => b,
            Err(err) => return Err(err),
        };
        let res = if (DIGIT_ZERO <= next && next <= DIGIT_NINE) || next == MINUS {
            self.number()
        } else if next == LOWER_T {
            match self.eat_str("true") {
                Ok(_) => Ok(JSONValue::Bool(true)),
                Err(err) => Err(err),
            }
        } else if next == LOWER_F {
            match self.eat_str("false") {
                Ok(_) => Ok(JSONValue::Bool(false)),
                Err(err) => Err(err),
            }
        } else if next == LOWER_N {
            match self.eat_str("null") {
                Ok(_) => Ok(JSONValue::Null),
                Err(err) => Err(err),
            }
        } else if next == QUOTE {
            self.text()
        } else if next == OPEN_BRACKET {
            self.array()
        } else if next == OPEN_BRACE {
            self.object()
        } else {
            self.fail()
        };
        match res {
            Ok(v) => {
                // commas may trail
                self.skip_control_chars();
                self.skip_comma();
                Ok(v)
            },
            Err(err) => Err(err),
        }
    }

    /// Consumes an object.
    pub fn object(&mut self) -> (r: Result<JSONValue, Error>)
        requires
            old(self).wf(),
        ensures
            final(self).wf(),
            final(self).input() == old(self).input(),
            value_result(object_at(old(self).input(), old(self).pos()), r, final(self).pos()),
            r is Ok ==> final(self).pos() > old(self).pos(),
        decreases old(self).input().len() - old(self).pos(), 1int,
    {
        self.skip_control_chars();
        match self.eat(OPEN_BRACE) {
            Ok(()) => {},
            Err(err) => return Err(err),
        }
        let fields = match self.object_fields() {
            Ok(fields) => fields,
            Err(err) => return Err(err),
        };
        proof {
            let t = self.input();
            assert(t[self.pos()] == CLOSE_BRACE);
            assert(skip_ws(t, self.pos()) == self.pos());
        }
        self.skip_control_chars();
        match self.eat(CLOSE_BRACE) {
            Ok(()) => {},
            Err(err) => return Err(err),
        }
        Ok(JSONValue::Object(fields))
    }

    /// Consumes an object's members, up to the closing brace, which it leaves at the
    /// cursor.
    pub fn object_fields(&mut self) -> (r: Result<Vec<(String, JSONValue)>, Error>)
        requires
            old(self).wf(),
        ensures
            final(self).wf(),
            final(self).input() == old(self).input(),
            match object_members(old(self).input(), old(self).pos(), Map::empty()) {
                Ok((v, e)) => r matches Ok(fields) && v == Json::Object(
                    members_map(member_pairs(fields@)),
                ) && unique_keys(member_pairs(fields@)) && (forall|j: int|
                    0 <= j < fields@.len() ==> (#[trigger] fields@[j]).1.keys_unique())
                    && final(self).pos() + 1 == e && final(self).pos() < final(self).input().len()
                    && final(self).input()[final(self).pos()] == CLOSE_BRACE,
                Err(err) => r == Err::<Vec<(String, JSONValue)>, Error>(err),
            },
            r is Ok ==> final(self).pos() >= old(self).pos(),
        decreases old(self).input().len() - old(self).pos(), 2int,
    {
        let ghost s = self.input();
        let ghost start_pos = self.pos();
        let mut fields: Vec<(String, JSONValue)> = Vec::new();
        proof {
            assert(member_pairs(fields@) =~= Seq::empty());
            assert(members_map(member_pairs(fields@)) =~= Map::empty());
        }
        loop
            invariant
                self.wf(),
                self.input() == s,
                s == old(self).input(),
                start_pos == old(self).pos(),
                start_pos <= self.pos() <= s.len(),
                unique_keys(member_pairs(fields@)),
                forall|j: int| 0 <= j < fields@.len() ==> (#[trigger] fields@[j]).1.keys_unique(),
                object_members(s, start_pos, Map::empty()) == object_members(
                    s,
                    self.pos(),
                    members_map(member_pairs(fields@)),
                ),
            decreases s.len() - self.pos(),
        {
            self.skip_control_chars();
            let b = match self.current_byte() {
                Ok(b) => b,
                Err(err) => return Err(err),
            };
            if b == CLOSE_BRACE {
                return Ok(fields);
            }
            let (id, value) = match self.object_field() {
                Ok(kv) => kv,
                Err(err) => return Err(err),
            };
            insert_member(&mut fields, id, value);
        }
    }

    /// Consumes one member: a key, a colon and a value.
    pub fn object_field(&mut self) -> (r: Result<(String, JSONValue), Error>)
        requires
            old(self).wf(),
        ensures
            final(self).wf(),
            final(self).input() == old(self).input(),
            match member_at(old(self).input(), old(self).pos()) {
                Ok(((k, v), e)) => r matches Ok(kv) && encode_utf8(kv.0@) == k && kv.1@ == v
                    && kv.1.keys_unique() && final(self).pos() == e,
                Err(err) => r == Err::<(String, JSONValue), Error>(err),
            },
            r is Ok ==> final(self).pos() > old(self).pos(),
        decreases old(self).input().len() - old(self).pos(), 1int,
    {
        self.skip_control_chars();
        let id = match self.string() {
            Ok(s) => s,
            Err(err) => return Err(err),
        };
        self.skip_control_chars();
        match self.eat(COLON) {
            Ok(()) => {},
            Err(err) => return Err(err),
        }
        let val = match self.value() {
            Ok(v) => v,
            Err(err) => return Err(err),
        };
        Ok((id, val))
    }

    /// Consumes an array.
    pub fn array(&mut self) -> (r: Result<JSONValue, Error>)
        requires
            old(self).wf(),
        ensures
            final(self).wf(),
            final(self).input() == old(self).input(),
            value_result(array_at(old(self).input(), old(self).pos()), r, final(self).pos()),
            r is Ok ==> final(self).pos() > old(self).pos(),
        decreases old(self).input().len() - old(self).pos(), 1int,
    {
        self.skip_control_chars();
        match self.eat(OPEN_BRACKET) {
            Ok(()) => {},
            Err(err) => return Err(err),
        }
        let values = match self.array_values() {
            Ok(values) => values,
            Err(err) => return Err(err),
        };
        proof {
            let t = self.input();
            assert(t[self.pos()] == CLOSE_BRACKET);
            assert(skip_ws(t, self.pos()) == self.pos());
        }
        self.skip_control_chars();
        match self.eat(CLOSE_BRACKET) {
            Ok(()) => {},
            Err(err) => return Err(err),
        }
        Ok(JSONValue::Array(values))
    }

    /// Consumes an array's items, up to the closing bracket, which it leaves at the
    /// cursor.
    pub fn array_values(&mut self) -> (r: Result<Vec<JSONValue>, Error>)
        requires
            old(self).wf(),
        ensures
            final(self).wf(),
            final(self).input() == old(self).input(),
            match array_items(old(self).input(), old(self).pos(), Seq::empty()) {
                Ok((v, e)) => r matches Ok(items) && v == Json::Array(items_view(items@))
                    && (forall|j: int|
                    0 <= j < items@.len() ==> (#[trigger] items@[j]).keys_unique())
                    && final(self).pos() + 1 == e && final(self).pos() < final(self).input().len()
                    && final(self).input()[final(self).pos()] == CLOSE_BRACKET,
                Err(err) => r == Err::<Vec<JSONValue>, Error>(err),
            },
            r is Ok ==> final(self).pos() >= old(self).pos(),
        decreases old(self).input().len() - old(self).pos(), 3int,
    {
        let ghost s = self.input();
        let ghost start_pos = self.pos();
        let mut vals: Vec<JSONValue> = Vec::new();
        proof {
            assert(items_view(vals@) =~= Seq::empty());
        }
        loop
            invariant
                self.wf(),
                self.input() == s,
                s == old(self).input(),
                start_pos == old(self).pos(),
                start_pos <= self.pos() <= s.len(),
                array_items(s, start_pos, Seq::empty()) == array_items(
                    s,
                    self.pos(),
                    items_view(vals@),
                ),
                forall|j: int| 0 <= j < vals@.len() ==> (#[trigger] vals@[j]).keys_unique(),
            decreases s.len() - self.pos(),
        {
            self.skip_control_chars();
            let b = match self.current_byte() {
                Ok(b) => b,
                Err(err) => return Err(err),
            };
            if b == CLOSE_BRACKET {
                return Ok(vals);
            }
            let value = match self.value() {
                Ok(v) => v,
                Err(err) => return Err(err),
            };
            proof {
                assert(items_view(vals@.push(value)) =~= items_view(vals@).push(value@));
            }
            vals.push(value);
        }
    }

    /// Parses a document from the cursor: an object or an array.
    pub fn parse(&mut self) -> (r: Result<JSONValue, Error>)
        requires
            old(self).wf(),
        ensures
            final(self).wf(),
            final(self).input() == old(self).input(),
            match document_at(old(self).input(), old(self).pos()) {
                Ok(v) => r matches Ok(x) && x@ == v && x.keys_unique(),
                Err(err) => r == Err::<JSONValue, Error>(err),
            },
    {
        let ghost s = self.input();
        let ghost start_pos = self.pos();
        self.skip_control_chars();
        proof {
            lemma_skip_ws_idempotent(s, start_pos);
        }
        // valid json starts with object or array
        match self.current_byte() {
            Ok(b) => {
                if b != OPEN_BRACE && b != OPEN_BRACKET {
                    return Err(Error::InvalidDocument);
                }
            },
            Err(_) => return Err(Error::InvalidDocument),
        }
        self.value()
    }
}

} // verus!
