//! General laws of the parser, proved from the grammar that its contracts
//! are stated over.
use vstd::prelude::*;

use crate::grammar::{
    BACKSLASH, BACKSPACE, CARRIAGE_RETURN, CLOSE_BRACE, CLOSE_BRACKET, COLON, COMMA, DOT,
    FORM_FEED, LINE_FEED, LOWER_B, LOWER_E, LOWER_F, LOWER_N, LOWER_R, LOWER_T, MINUS, PLUS,
    QUOTE, SLASH, TAB, UPPER_E, array_items, digits_end, is_digit, is_number_byte,
    is_number_literal, lemma_quoted_bounds, lemma_skip_ws_bounds, lemma_skip_ws_idempotent,
    member_at, number_at, number_end, object_members, quoted, scan_text, skip_ws, unescape,
    value_at, value_body,
};
use crate::json::{Json, JSONValue, parsed_from};
use crate::parse::Error;

verus! {

/// Parsing the same text twice yields structurally equal trees, or the same error.
pub proof fn lemma_parse_twice(
    s: Seq<u8>,
    r1: Result<JSONValue, Error>,
    r2: Result<JSONValue, Error>,
)
    requires
        parsed_from(s, r1),
        parsed_from(s, r2),
    ensures
        match r1 {
            Ok(a) => r2 matches Ok(b) && a@ == b@,
            Err(e) => r2 == Err::<JSONValue, Error>(e),
        },
{
}

/// An array item followed by a comma and then the closing bracket ends the array:
/// the trailing comma is accepted. The item's first byte is at `q`, it ends at `e`,
/// the comma is at `m` and the bracket at `z`, with only whitespace between.
pub proof fn lemma_array_trailing_comma(
    s: Seq<u8>,
    p: int,
    acc: Seq<Json>,
    v: Json,
    q: int,
    e: int,
    m: int,
    z: int,
)
    requires
        0 <= p,
        q == skip_ws(s, p),
        q < s.len(),
        s[q] != CLOSE_BRACKET,
        value_body(s, q) == Ok::<(Json, int), Error>((v, e)),
        q < e,
        m == skip_ws(s, e),
        m < s.len(),
        s[m] == COMMA,
        z == skip_ws(s, m + 1),
        z < s.len(),
        s[z] == CLOSE_BRACKET,
    ensures
        array_items(s, p, acc) == Ok::<(Json, int), Error>((Json::Array(acc.push(v)), z + 1)),
{
    lemma_skip_ws_bounds(s, p);
    lemma_skip_ws_idempotent(s, p);
    lemma_skip_ws_bounds(s, e);
    lemma_skip_ws_bounds(s, m + 1);
    lemma_skip_ws_idempotent(s, m + 1);
    assert(value_at(s, q) == Ok::<(Json, int), Error>((v, m + 1)));
    assert(array_items(s, m + 1, acc.push(v)) == Ok::<(Json, int), Error>(
        (Json::Array(acc.push(v)), z + 1),
    ));
}

/// An object member followed by a comma and then the closing brace ends the object:
/// the trailing comma is accepted. The member's key is quoted from `q` to `k`, the
/// colon is at `c`, its value runs from `w` to `e`, the comma is at `m` and the brace
/// at `z`, with only whitespace between.
pub proof fn lemma_object_trailing_comma(
    s: Seq<u8>,
    p: int,
    acc: Map<Seq<u8>, Json>,
    key: Seq<u8>,
    v: Json,
    q: int,
    k: int,
    c: int,
    w: int,
    e: int,
    m: int,
    z: int,
)
    requires
        0 <= p,
        q == skip_ws(s, p),
        q < s.len(),
        s[q] != CLOSE_BRACE,
        quoted(s, q) == Ok::<(Seq<u8>, int), Error>((key, k)),
        c == skip_ws(s, k),
        c < s.len(),
        s[c] == COLON,
        w == skip_ws(s, c + 1),
        w < s.len(),
        value_body(s, w) == Ok::<(Json, int), Error>((v, e)),
        w < e,
        m == skip_ws(s, e),
        m < s.len(),
        s[m] == COMMA,
        z == skip_ws(s, m + 1),
        z < s.len(),
        s[z] == CLOSE_BRACE,
    ensures
        object_members(s, p, acc) == Ok::<(Json, int), Error>(
            (Json::Object(acc.insert(key, v)), z + 1),
        ),
{
    lemma_skip_ws_bounds(s, p);
    lemma_skip_ws_idempotent(s, p);
    lemma_quoted_bounds(s, q);
    lemma_skip_ws_bounds(s, k);
    lemma_skip_ws_bounds(s, c + 1);
    lemma_skip_ws_idempotent(s, c + 1);
    lemma_skip_ws_bounds(s, e);
    lemma_skip_ws_bounds(s, m + 1);
    lemma_skip_ws_idempotent(s, m + 1);
    assert(value_at(s, c + 1) == Ok::<(Json, int), Error>((v, m + 1)));
    assert(member_at(s, q) == Ok::<((Seq<u8>, Json), int), Error>(((key, v), m + 1)));
    assert(object_members(s, m + 1, acc.insert(key, v)) == Ok::<(Json, int), Error>(
        (Json::Object(acc.insert(key, v)), z + 1),
    ));
}

/// An array item followed by whitespace and the closing bracket ends the array.
proof fn lemma_array_last_item(
    s: Seq<u8>,
    p: int,
    acc: Seq<Json>,
    v: Json,
    q: int,
    e: int,
    z: int,
)
    requires
        0 <= p,
        q == skip_ws(s, p),
        q < s.len(),
        s[q] != CLOSE_BRACKET,
        value_body(s, q) == Ok::<(Json, int), Error>((v, e)),
        q < e,
        z == skip_ws(s, e),
        z < s.len(),
        s[z] == CLOSE_BRACKET,
    ensures
        array_items(s, p, acc) == Ok::<(Json, int), Error>((Json::Array(acc.push(v)), z + 1)),
{
    lemma_skip_ws_bounds(s, p);
    lemma_skip_ws_idempotent(s, p);
    lemma_skip_ws_bounds(s, e);
    lemma_skip_ws_idempotent(s, e);
    assert(value_at(s, q) == Ok::<(Json, int), Error>((v, z)));
    assert(array_items(s, z, acc.push(v)) == Ok::<(Json, int), Error>(
        (Json::Array(acc.push(v)), z + 1),
    ));
}

/// A trailing comma changes nothing: in two inputs whose last array item reads the
/// same, one closing the array right after the item and the other after a comma, the
/// array reads the same.
pub proof fn lemma_array_trailing_comma_optional(
    s1: Seq<u8>,
    s2: Seq<u8>,
    p: int,
    acc: Seq<Json>,
    v: Json,
    q: int,
    e: int,
    z1: int,
    m: int,
    z2: int,
)
    requires
        0 <= p,
        q == skip_ws(s1, p) && q == skip_ws(s2, p),
        q < s1.len() && q < s2.len(),
        s1[q] != CLOSE_BRACKET && s2[q] != CLOSE_BRACKET,
        value_body(s1, q) == Ok::<(Json, int), Error>((v, e)),
        value_body(s2, q) == Ok::<(Json, int), Error>((v, e)),
        q < e,
        z1 == skip_ws(s1, e),
        z1 < s1.len(),
        s1[z1] == CLOSE_BRACKET,
        m == skip_ws(s2, e),
        m < s2.len(),
        s2[m] == COMMA,
        z2 == skip_ws(s2, m + 1),
        z2 < s2.len(),
        s2[z2] == CLOSE_BRACKET,
    ensures
        array_items(s1, p, acc) matches Ok((a1, _)) && array_items(s2, p, acc) matches Ok((a2, _))
            && a1 == a2 && a1 == Json::Array(acc.push(v)),
{
    lemma_array_last_item(s1, p, acc, v, q, e, z1);
    lemma_array_trailing_comma(s2, p, acc, v, q, e, m, z2);
}

/// An object member followed by whitespace and the closing brace ends the object.
proof fn lemma_object_last_member(
    s: Seq<u8>,
    p: int,
    acc: Map<Seq<u8>, Json>,
    key: Seq<u8>,
    v: Json,
    q: int,
    k: int,
    c: int,
    w: int,
    e: int,
    z: int,
)
    requires
        0 <= p,
        q == skip_ws(s, p),
        q < s.len(),
        s[q] != CLOSE_BRACE,
        quoted(s, q) == Ok::<(Seq<u8>, int), Error>((key, k)),
        c == skip_ws(s, k),
        c < s.len(),
        s[c] == COLON,
        w == skip_ws(s, c + 1),
        w < s.len(),
        value_body(s, w) == Ok::<(Json, int), Error>((v, e)),
        w < e,
        z == skip_ws(s, e),
        z < s.len(),
        s[z] == CLOSE_BRACE,
    ensures
        object_members(s, p, acc) == Ok::<(Json, int), Error>(
            (Json::Object(acc.insert(key, v)), z + 1),
        ),
{
    lemma_skip_ws_bounds(s, p);
    lemma_skip_ws_idempotent(s, p);
    lemma_quoted_bounds(s, q);
    lemma_skip_ws_bounds(s, k);
    lemma_skip_ws_bounds(s, c + 1);
    lemma_skip_ws_idempotent(s, c + 1);
    lemma_skip_ws_bounds(s, e);
    lemma_skip_ws_idempotent(s, e);
    assert(value_at(s, c + 1) == Ok::<(Json, int), Error>((v, z)));
    assert(member_at(s, q) == Ok::<((Seq<u8>, Json), int), Error>(((key, v), z)));
    assert(object_members(s, z, acc.insert(key, v)) == Ok::<(Json, int), Error>(
        (Json::Object(acc.insert(key, v)), z + 1),
    ));
}

/// A trailing comma changes nothing: in two inputs whose last object member reads
/// the same, one closing the object right after the member and the other after a
/// comma, the object reads the same.
pub proof fn lemma_object_trailing_comma_optional(
    s1: Seq<u8>,
    s2: Seq<u8>,
    p: int,
    acc: Map<Seq<u8>, Json>,
    key: Seq<u8>,
    v: Json,
    q: int,
    k: int,
    c: int,
    w: int,
    e: int,
    z1: int,
    m: int,
    z2: int,
)
    requires
        0 <= p,
        q == skip_ws(s1, p) && q == skip_ws(s2, p),
        q < s1.len() && q < s2.len(),
        s1[q] != CLOSE_BRACE && s2[q] != CLOSE_BRACE,
        quoted(s1, q) == Ok::<(Seq<u8>, int), Error>((key, k)),
        quoted(s2, q) == Ok::<(Seq<u8>, int), Error>((key, k)),
        c == skip_ws(s1, k) && c == skip_ws(s2, k),
        c < s1.len() && c < s2.len(),
        s1[c] == COLON && s2[c] == COLON,
        w == skip_ws(s1, c + 1) && w == skip_ws(s2, c + 1),
        w < s1.len() && w < s2.len(),
        value_body(s1, w) == Ok::<(Json, int), Error>((v, e)),
        value_body(s2, w) == Ok::<(Json, int), Error>((v, e)),
        w < e,
        z1 == skip_ws(s1, e),
        z1 < s1.len(),
        s1[z1] == CLOSE_BRACE,
        m == skip_ws(s2, e),
        m < s2.len(),
        s2[m] == COMMA,
        z2 == skip_ws(s2, m + 1),
        z2 < s2.len(),
        s2[z2] == CLOSE_BRACE,
    ensures
        object_members(s1, p, acc) matches Ok((o1, _)) && object_members(s2, p, acc) matches Ok(
            (o2, _),
        ) && o1 == o2 && o1 == Json::Object(acc.insert(key, v)),
{
    lemma_object_last_member(s1, p, acc, key, v, q, k, c, w, e, z1);
    lemma_object_trailing_comma(s2, p, acc, key, v, q, k, c, w, e, m, z2);
}

proof fn lemma_number_end(s: Seq<u8>, p: int, n: int)
    requires
        0 <= p <= n <= s.len(),
        forall|i: int| p <= i < n ==> is_number_byte(#[trigger] s[i]),
        n == s.len() || !is_number_byte(s[n]),
    ensures
        number_end(s, p) == n,
    decreases n - p,
{
    if p < n {
        lemma_number_end(s, p + 1, n);
    }
}

/// A number literal, followed by the end or by a byte that cannot continue it, is
/// parsed as a number holding exactly that literal's text.
pub proof fn lemma_number_literal(s: Seq<u8>, p: int, t: Seq<u8>)
    requires
        0 <= p,
        p + t.len() <= s.len(),
        s.subrange(p, p + t.len()) == t,
        is_number_literal(t),
        p + t.len() == s.len() || !is_number_byte(s[p + t.len()]),
    ensures
        number_at(s, p) == Ok::<(Json, int), Error>((Json::Number(t), p + t.len())),
        value_body(s, p) == Ok::<(Json, int), Error>((Json::Number(t), p + t.len())),
{
    lemma_literal_bytes_scanned(t);
    assert forall|i: int| p <= i < p + t.len() implies is_number_byte(#[trigger] s[i]) by {
        assert(s[i] == t[i - p]);
    }
    lemma_number_end(s, p, p + t.len());
    lemma_number_literal_start(t);
    assert(s[p] == t[0]);
}

proof fn lemma_digits_run(t: Seq<u8>, i: int)
    requires
        0 <= i <= t.len(),
    ensures
        i <= digits_end(t, i) <= t.len(),
        forall|j: int| i <= j < digits_end(t, i) ==> is_digit(#[trigger] t[j]),
    decreases t.len() - i,
{
    if i < t.len() && is_digit(t[i]) {
        lemma_digits_run(t, i + 1);
    }
}

/// Every byte of a number literal is one the number scan reads.
pub proof fn lemma_literal_bytes_scanned(t: Seq<u8>)
    requires
        is_number_literal(t),
    ensures
        forall|i: int| 0 <= i < t.len() ==> is_number_byte(#[trigger] t[i]),
{
    let i0: int = if t.len() > 0 && t[0] == MINUS { 1 } else { 0 };
    lemma_digits_run(t, i0);
    let i1 = digits_end(t, i0);
    if i1 < t.len() && t[i1] == DOT {
        lemma_digits_run(t, i1 + 1);
    }
    let i2: int = if i1 < t.len() && t[i1] == DOT { digits_end(t, i1 + 1) } else { i1 };
    if i2 < t.len() && (t[i2] == LOWER_E || t[i2] == UPPER_E) {
        let i3: int = if i2 + 1 < t.len() && (t[i2 + 1] == MINUS || t[i2 + 1] == PLUS) {
            i2 + 2
        } else {
            i2 + 1
        };
        lemma_digits_run(t, i3);
    }
}

/// A number literal starts with a digit or a minus sign.
pub proof fn lemma_number_literal_start(t: Seq<u8>)
    requires
        is_number_literal(t),
    ensures
        t.len() > 0,
        is_digit(t[0]) || t[0] == MINUS,
{
    let i0: int = if t.len() > 0 && t[0] == MINUS { 1 } else { 0 };
    assert(digits_end(t, i0) > i0);
}

/// The bytes that stand for `b` inside a quoted string: an escape for a quote, a
/// backslash, a slash, a backspace, a form feed, a line feed, a carriage return or a
/// tab; `b` itself otherwise.
pub open spec fn escape_byte(b: u8) -> Seq<u8> {
    if b == QUOTE {
        seq![BACKSLASH, QUOTE]
    } else if b == BACKSLASH {
        seq![BACKSLASH, BACKSLASH]
    } else if b == SLASH {
        seq![BACKSLASH, SLASH]
    } else if b == BACKSPACE {
        seq![BACKSLASH, LOWER_B]
    } else if b == FORM_FEED {
        seq![BACKSLASH, LOWER_F]
    } else if b == LINE_FEED {
        seq![BACKSLASH, LOWER_N]
    } else if b == CARRIAGE_RETURN {
        seq![BACKSLASH, LOWER_R]
    } else if b == TAB {
        seq![BACKSLASH, LOWER_T]
    } else {
        seq![b]
    }
}

/// The content of a quoted string that stands for the bytes `t`.
pub open spec fn escaped(t: Seq<u8>) -> Seq<u8>
    decreases t.len(),
{
    if t.len() == 0 {
        Seq::empty()
    } else {
        escape_byte(t[0]) + escaped(t.drop_first())
    }
}

proof fn lemma_scan_escaped(s: Seq<u8>, p: int, t: Seq<u8>, acc: Seq<u8>)
    requires
        0 <= p,
        p + escaped(t).len() < s.len(),
        s.subrange(p, p + escaped(t).len()) == escaped(t),
        s[p + escaped(t).len()] == QUOTE,
    ensures
        scan_text(s, p, QUOTE, acc) == Ok::<(Seq<u8>, int), Error>(
            (acc + t, p + escaped(t).len()),
        ),
    decreases t.len(),
{
    let e = escaped(t);
    if t.len() == 0 {
        assert(acc + t =~= acc);
    } else {
        let b = t[0];
        let h = escape_byte(b);
        let rest = t.drop_first();
        let er = escaped(rest);
        assert(e == h + er);
        let k = h.len() as int;
        assert(forall|i: int| 0 <= i < e.len() ==> s[p + i] == #[trigger] e[i]) by {
            assert forall|i: int| 0 <= i < e.len() implies s[p + i] == #[trigger] e[i] by {
                assert(s.subrange(p, p + e.len())[i] == s[p + i]);
            }
        }
        assert(s.subrange(p + k, p + k + er.len()) =~= er) by {
            assert forall|i: int| 0 <= i < er.len() implies s.subrange(p + k, p + k + er.len())[i]
                == er[i] by {
                assert(e[k + i] == er[i]);
            }
        }
        assert(acc.push(b) + rest =~= acc + t);
        assert(s[p + 0] == e[0] && e[0] == h[0]);
        if k == 2 {
            assert(s[p + 1] == e[1] && e[1] == h[1]);
            assert(s[p] == BACKSLASH);
            assert(unescape(s[p + 1]) == Some(b));
            lemma_scan_escaped(s, p + 2, rest, acc.push(b));
        } else {
            assert(s[p] == b);
            lemma_scan_escaped(s, p + 1, rest, acc.push(b));
        }
    }
}

/// A quoted string whose content escapes quotes, backslashes, slashes, backspaces,
/// form feeds, line feeds, carriage returns and tabs decodes to the bytes it stands
/// for, each escape to its single byte.
pub proof fn lemma_escapes_decode(s: Seq<u8>, p: int, t: Seq<u8>)
    requires
        0 <= p,
        p + escaped(t).len() + 2 <= s.len(),
        s.subrange(p, p + escaped(t).len() + 2) == seq![QUOTE] + escaped(t) + seq![QUOTE],
    ensures
        quoted(s, p) == Ok::<(Seq<u8>, int), Error>((t, p + escaped(t).len() + 2)),
{
    let e = escaped(t);
    let w = seq![QUOTE] + e + seq![QUOTE];
    assert(s[p] == w[0]);
    assert(s[p + e.len() + 1] == w[e.len() + 1 as int]);
    assert(s.subrange(p + 1, p + 1 + e.len()) =~= e) by {
        assert forall|i: int| 0 <= i < e.len() implies s.subrange(p + 1, p + 1 + e.len())[i]
            == e[i] by {
            assert(s[p + 1 + i] == s.subrange(p, p + e.len() + 2)[i + 1]);
            assert(w[i + 1] == e[i]);
        }
    }
    lemma_scan_escaped(s, p + 1, t, Seq::empty());
    assert(Seq::<u8>::empty() + t =~= t);
}

} // verus!
