//! Documents as they are written: a syntax tree, its text with a chosen run of
//! whitespace between tokens, and the value it denotes. Parsing the text of an
//! escape-free document gives back that value.
use vstd::prelude::*;

use crate::grammar::{
    BACKSLASH, CLOSE_BRACE, CLOSE_BRACKET, COLON, COMMA, OPEN_BRACE, OPEN_BRACKET, QUOTE,
    array_items, document_at, is_number_byte, is_number_literal, is_ws, lit_false, lit_null,
    lemma_skip_ws_bounds, lemma_skip_ws_idempotent, lit_true, match_literal, member_at,
    object_members, quoted, scan_text, skip_ws, value_at, value_body,
};
use crate::json::{Json, JSONValue, members_map, parsed_from};
use crate::laws::{lemma_number_literal, lemma_number_literal_start};
use crate::parse::Error;

verus! {

/// A JSON document as written: object members in the order of the text, texts and
/// keys as the bytes between their quotes, numbers as their literals.
pub enum Written {
    Object(Seq<(Seq<u8>, Written)>),
    Array(Seq<Written>),
    Bool(bool),
    Text(Seq<u8>),
    Number(Seq<u8>),
    Null,
}

/// Text that needs no escape: no quote and no backslash.
pub open spec fn plain_text(t: Seq<u8>) -> bool {
    forall|i: int| 0 <= i < t.len() ==> #[trigger] t[i] != QUOTE && t[i] != BACKSLASH
}

/// Every text and key is plain, and every number is a number literal.
pub open spec fn well_written(w: Written) -> bool
    decreases w,
{
    match w {
        Written::Object(ms) => forall|i: int|
            0 <= i < ms.len() ==> plain_text(#[trigger] ms[i].0) && well_written(ms[i].1),
        Written::Array(items) => forall|i: int|
            0 <= i < items.len() ==> well_written(#[trigger] items[i]),
        Written::Text(t) => plain_text(t),
        Written::Number(t) => is_number_literal(t),
        _ => true,
    }
}

/// Whitespace only.
pub open spec fn is_gap(g: Seq<u8>) -> bool {
    forall|i: int| 0 <= i < g.len() ==> is_ws(#[trigger] g[i])
}

/// The text of a document, with the run `g` after each opening bracket or brace,
/// around each colon and comma, and before each closing bracket or brace.
pub open spec fn render(w: Written, g: Seq<u8>) -> Seq<u8>
    decreases w, 0nat,
{
    match w {
        Written::Object(ms) => seq![OPEN_BRACE] + render_members(ms, 0, g) + seq![CLOSE_BRACE],
        Written::Array(items) => seq![OPEN_BRACKET] + render_items(items, 0, g) + seq![
            CLOSE_BRACKET,
        ],
        Written::Bool(b) => if b {
            lit_true()
        } else {
            lit_false()
        },
        Written::Text(t) => seq![QUOTE] + t + seq![QUOTE],
        Written::Number(t) => t,
        Written::Null => lit_null(),
    }
}

/// The items from the `i`-th on, separated by commas.
pub open spec fn render_items(items: Seq<Written>, i: int, g: Seq<u8>) -> Seq<u8>
    decreases items, items.len() - i,
{
    if i < 0 || i >= items.len() {
        g
    } else if i == items.len() - 1 {
        g + render(items[i], g) + g
    } else {
        g + render(items[i], g) + g + seq![COMMA] + render_items(items, i + 1, g)
    }
}

/// One member: its quoted key, a colon and its value.
pub open spec fn render_member(key: Seq<u8>, w: Written, g: Seq<u8>) -> Seq<u8>
    decreases w, 1nat,
{
    g + seq![QUOTE] + key + seq![QUOTE] + g + seq![COLON] + g + render(w, g) + g
}

/// The members from the `i`-th on, separated by commas.
pub open spec fn render_members(ms: Seq<(Seq<u8>, Written)>, i: int, g: Seq<u8>) -> Seq<u8>
    decreases ms, ms.len() - i,
{
    if i < 0 || i >= ms.len() {
        g
    } else if i == ms.len() - 1 {
        render_member(ms[i].0, ms[i].1, g)
    } else {
        render_member(ms[i].0, ms[i].1, g) + seq![COMMA] + render_members(ms, i + 1, g)
    }
}

/// The value a written document denotes.
pub open spec fn meaning(w: Written) -> Json
    decreases w,
{
    match w {
        Written::Object(ms) => Json::Object(members_map(written_pairs(ms))),
        Written::Array(items) => Json::Array(written_items(items)),
        Written::Bool(b) => Json::Bool(b),
        Written::Text(t) => Json::Text(t),
        Written::Number(t) => Json::Number(t),
        Written::Null => Json::Null,
    }
}

pub open spec fn written_pairs(ms: Seq<(Seq<u8>, Written)>) -> Seq<(Seq<u8>, Json)>
    decreases ms,
{
    Seq::new(
        ms.len(),
        |i: int|
            if 0 <= i < ms.len() {
                (ms[i].0, meaning(ms[i].1))
            } else {
                (Seq::empty(), Json::Null)
            },
    )
}

pub open spec fn written_items(items: Seq<Written>) -> Seq<Json>
    decreases items,
{
    Seq::new(
        items.len(),
        |i: int|
            if 0 <= i < items.len() {
                meaning(items[i])
            } else {
                Json::Null
            },
    )
}

/// `t` occurs in `s` from position `p` on.
pub open spec fn occurs_at(s: Seq<u8>, p: int, t: Seq<u8>) -> bool {
    0 <= p && p + t.len() <= s.len() && s.subrange(p, p + t.len()) == t
}

proof fn lemma_occurs_split(s: Seq<u8>, p: int, a: Seq<u8>, b: Seq<u8>)
    requires
        occurs_at(s, p, a + b),
    ensures
        occurs_at(s, p, a),
        occurs_at(s, p + a.len(), b),
{
    assert(s.subrange(p, p + a.len()) =~= a) by {
        assert forall|i: int| 0 <= i < a.len() implies s.subrange(p, p + a.len())[i] == a[i] by {
            assert(s.subrange(p, p + a.len() + b.len())[i] == (a + b)[i]);
        }
    }
    assert(s.subrange(p + a.len(), p + a.len() + b.len()) =~= b) by {
        assert forall|i: int| 0 <= i < b.len() implies s.subrange(
            p + a.len(),
            p + a.len() + b.len(),
        )[i] == b[i] by {
            assert(s.subrange(p, p + a.len() + b.len())[a.len() + i] == (a + b)[a.len() + i]);
        }
    }
}

proof fn lemma_occurs_index(s: Seq<u8>, p: int, t: Seq<u8>, i: int)
    requires
        occurs_at(s, p, t),
        0 <= i < t.len(),
    ensures
        s[p + i] == t[i],
{
    assert(s.subrange(p, p + t.len())[i] == s[p + i]);
}

proof fn lemma_match_literal_at(s: Seq<u8>, p: int, lit: Seq<u8>, i: int)
    requires
        occurs_at(s, p, lit),
        0 <= i <= lit.len(),
    ensures
        match_literal(s, p, lit, i) == Ok::<int, Error>(p + lit.len()),
    decreases lit.len() - i,
{
    if i < lit.len() {
        lemma_occurs_index(s, p, lit, i);
        lemma_match_literal_at(s, p, lit, i + 1);
    }
}

proof fn lemma_scan_plain(s: Seq<u8>, p: int, t: Seq<u8>, k: int)
    requires
        plain_text(t),
        occurs_at(s, p, t),
        p + t.len() < s.len(),
        s[p + t.len()] == QUOTE,
        0 <= k <= t.len(),
    ensures
        scan_text(s, p + k, QUOTE, t.take(k)) == Ok::<(Seq<u8>, int), Error>((t, p + t.len())),
    decreases t.len() - k,
{
    if k == t.len() {
        assert(t.take(k) =~= t);
    } else {
        lemma_occurs_index(s, p, t, k);
        assert(t.take(k).push(t[k]) =~= t.take(k + 1));
        lemma_scan_plain(s, p, t, k + 1);
    }
}

proof fn lemma_skip_gap(s: Seq<u8>, p: int, g: Seq<u8>, k: int)
    requires
        is_gap(g),
        occurs_at(s, p, g),
        p + g.len() == s.len() || !is_ws(s[p + g.len()]),
        0 <= k <= g.len(),
    ensures
        skip_ws(s, p + k) == p + g.len(),
    decreases g.len() - k,
{
    if k < g.len() {
        lemma_occurs_index(s, p, g, k);
        lemma_skip_gap(s, p, g, k + 1);
    }
}

/// Reading an array's rest from inside the whitespace before it is reading it from
/// after that whitespace.
proof fn lemma_array_items_skip(s: Seq<u8>, p: int, acc: Seq<Json>)
    requires
        0 <= p <= s.len(),
    ensures
        array_items(s, p, acc) == array_items(s, skip_ws(s, p), acc),
{
    lemma_skip_ws_bounds(s, p);
    lemma_skip_ws_idempotent(s, p);
}

/// Reading an object's rest from inside the whitespace before it is reading it from
/// after that whitespace.
proof fn lemma_object_members_skip(s: Seq<u8>, p: int, acc: Map<Seq<u8>, Json>)
    requires
        0 <= p <= s.len(),
    ensures
        object_members(s, p, acc) == object_members(s, skip_ws(s, p), acc),
{
    lemma_skip_ws_bounds(s, p);
    lemma_skip_ws_idempotent(s, p);
}

/// A document's text is not empty, and its first byte is no whitespace and closes
/// nothing.
proof fn lemma_render_start(w: Written, g: Seq<u8>)
    requires
        well_written(w),
    ensures
        render(w, g).len() > 0,
        !is_ws(render(w, g)[0]),
        render(w, g)[0] != CLOSE_BRACKET,
{
    match w {
        Written::Number(t) => {
            lemma_number_literal_start(t);
        },
        Written::Text(t) => {
            assert((seq![QUOTE] + t + seq![QUOTE])[0] == QUOTE);
        },
        Written::Object(ms) => {
            assert((seq![OPEN_BRACE] + render_members(ms, 0, g) + seq![CLOSE_BRACE])[0]
                == OPEN_BRACE);
        },
        Written::Array(items) => {
            assert((seq![OPEN_BRACKET] + render_items(items, 0, g) + seq![CLOSE_BRACKET])[0]
                == OPEN_BRACKET);
        },
        _ => {},
    }
}

/// The text of a document, followed by the end or by a byte that cannot continue a
/// number, is read back as the value the document denotes.
proof fn lemma_value_written(s: Seq<u8>, p: int, w: Written, g: Seq<u8>)
    requires
        well_written(w),
        is_gap(g),
        occurs_at(s, p, render(w, g)),
        p + render(w, g).len() == s.len() || !is_number_byte(s[p + render(w, g).len()]),
    ensures
        value_body(s, p) == Ok::<(Json, int), Error>((meaning(w), p + render(w, g).len())),
    decreases w, 0nat,
{
    let r = render(w, g);
    lemma_render_start(w, g);
    lemma_occurs_index(s, p, r, 0);
    match w {
        Written::Object(ms) => {
            let inner = render_members(ms, 0, g);
            lemma_occurs_split(s, p, seq![OPEN_BRACE] + inner, seq![CLOSE_BRACE]);
            lemma_occurs_split(s, p, seq![OPEN_BRACE], inner);
            lemma_occurs_index(s, p + 1 + inner.len(), seq![CLOSE_BRACE], 0);
            lemma_members_written(s, p + 1, ms, 0, g);
            assert(written_pairs(ms).take(0) =~= Seq::<(Seq<u8>, Json)>::empty());
            assert(members_map(Seq::<(Seq<u8>, Json)>::empty()) =~= Map::<Seq<u8>, Json>::empty());
        },
        Written::Array(items) => {
            let inner = render_items(items, 0, g);
            lemma_occurs_split(s, p, seq![OPEN_BRACKET] + inner, seq![CLOSE_BRACKET]);
            lemma_occurs_split(s, p, seq![OPEN_BRACKET], inner);
            lemma_occurs_index(s, p + 1 + inner.len(), seq![CLOSE_BRACKET], 0);
            lemma_items_written(s, p + 1, items, 0, g);
            assert(written_items(items).take(0) =~= Seq::<Json>::empty());
        },
        Written::Bool(b) => {
            lemma_match_literal_at(s, p, r, 0);
        },
        Written::Null => {
            lemma_match_literal_at(s, p, r, 0);
        },
        Written::Text(t) => {
            lemma_occurs_split(s, p, seq![QUOTE] + t, seq![QUOTE]);
            lemma_occurs_split(s, p, seq![QUOTE], t);
            lemma_occurs_index(s, p + 1 + t.len(), seq![QUOTE], 0);
            lemma_scan_plain(s, p + 1, t, 0);
            assert(t.take(0) =~= Seq::<u8>::empty());
        },
        Written::Number(t) => {
            lemma_number_literal(s, p, t);
        },
    }
}

/// The items of an array from the `i`-th on, followed by the closing bracket, end
/// the array with all of its items.
proof fn lemma_items_written(s: Seq<u8>, p: int, items: Seq<Written>, i: int, g: Seq<u8>)
    requires
        0 <= i <= items.len(),
        forall|j: int| 0 <= j < items.len() ==> well_written(#[trigger] items[j]),
        is_gap(g),
        occurs_at(s, p, render_items(items, i, g)),
        p + render_items(items, i, g).len() < s.len(),
        s[p + render_items(items, i, g).len()] == CLOSE_BRACKET,
    ensures
        array_items(s, p, written_items(items).take(i)) == Ok::<(Json, int), Error>(
            (Json::Array(written_items(items)), p + render_items(items, i, g).len() + 1),
        ),
    decreases items, items.len() - i,
{
    let acc = written_items(items).take(i);
    let end = p + render_items(items, i, g).len();
    if i == items.len() {
        assert(acc =~= written_items(items));
        lemma_skip_gap(s, p, g, 0);
    } else {
        let w = items[i];
        let r = render(w, g);
        let m = meaning(w);
        let q = p + g.len();
        let e = q + r.len();
        let e2 = e + g.len();
        lemma_render_start(w, g);
        assert(acc.push(m) =~= written_items(items).take(i + 1));
        let region = g + r + g;
        if i == items.len() - 1 {
            assert(render_items(items, i, g) == region);
        } else {
            let rest = render_items(items, i + 1, g);
            assert(render_items(items, i, g) == region + seq![COMMA] + rest);
            lemma_occurs_split(s, p, region + seq![COMMA], rest);
            lemma_occurs_split(s, p, region, seq![COMMA]);
            lemma_occurs_index(s, e2, seq![COMMA], 0);
        }
        lemma_occurs_split(s, p, g + r, g);
        lemma_occurs_split(s, p, g, r);
        lemma_occurs_index(s, q, r, 0);
        lemma_skip_gap(s, p, g, 0);
        lemma_skip_gap(s, e, g, 0);
        if g.len() > 0 {
            lemma_occurs_index(s, e, g, 0);
        }
        lemma_value_written(s, q, w, g);
        if i == items.len() - 1 {
            assert(value_at(s, q) == Ok::<(Json, int), Error>((m, e2)));
            assert(s.subrange(e, e + g.len()) == render_items(items, i + 1, g));
            lemma_items_written(s, e, items, i + 1, g);
            lemma_array_items_skip(s, e, acc.push(m));
            assert(array_items(s, e2, acc.push(m)) == Ok::<(Json, int), Error>(
                (Json::Array(written_items(items)), end + 1),
            ));
        } else {
            assert(value_at(s, q) == Ok::<(Json, int), Error>((m, e2 + 1)));
            lemma_items_written(s, e2 + 1, items, i + 1, g);
        }
    }
}

/// One member, followed by a comma or a closing brace, is read as its key and value.
proof fn lemma_member_written(s: Seq<u8>, p: int, key: Seq<u8>, w: Written, g: Seq<u8>)
    requires
        plain_text(key),
        well_written(w),
        is_gap(g),
        occurs_at(s, p, render_member(key, w, g)),
        ({
            let e = p + render_member(key, w, g).len();
            e < s.len() && (s[e] == COMMA || s[e] == CLOSE_BRACE)
        }),
    ensures
        ({
            let e = p + render_member(key, w, g).len();
            &&& skip_ws(s, p) == p + g.len()
            &&& member_at(s, p + g.len()) == Ok::<((Seq<u8>, Json), int), Error>(
                ((key, meaning(w)), if s[e] == COMMA { e + 1 } else { e }),
            )
        }),
    decreases w, 2nat,
{
    let r = render(w, g);
    let q = p + g.len();
    let k = q + key.len() + 2;
    let c = k + g.len();
    let v0 = c + 1 + g.len();
    let e = v0 + r.len();
    let e2 = e + g.len();
    let a1 = g + seq![QUOTE] + key + seq![QUOTE];
    let a2 = a1 + g + seq![COLON];
    let a3 = a2 + g;
    let a4 = a3 + r;
    lemma_render_start(w, g);
    lemma_occurs_split(s, p, a4, g);
    lemma_occurs_split(s, p, a3, r);
    lemma_occurs_split(s, p, a2, g);
    lemma_occurs_split(s, p, a1 + g, seq![COLON]);
    lemma_occurs_split(s, p, a1, g);
    lemma_occurs_split(s, p, g + seq![QUOTE] + key, seq![QUOTE]);
    lemma_occurs_split(s, p, g + seq![QUOTE], key);
    lemma_occurs_split(s, p, g, seq![QUOTE]);
    lemma_occurs_index(s, q, seq![QUOTE], 0);
    lemma_occurs_index(s, q + 1 + key.len(), seq![QUOTE], 0);
    lemma_occurs_index(s, c, seq![COLON], 0);
    lemma_occurs_index(s, v0, r, 0);
    lemma_skip_gap(s, p, g, 0);
    lemma_skip_gap(s, k, g, 0);
    lemma_skip_gap(s, c + 1, g, 0);
    lemma_skip_gap(s, e, g, 0);
    if g.len() > 0 {
        lemma_occurs_index(s, e, g, 0);
    }
    lemma_scan_plain(s, q + 1, key, 0);
    assert(key.take(0) =~= Seq::<u8>::empty());
    assert(quoted(s, q) == Ok::<(Seq<u8>, int), Error>((key, k)));
    lemma_value_written(s, v0, w, g);
    assert(value_at(s, c + 1) == Ok::<(Json, int), Error>(
        (meaning(w), if s[e2] == COMMA { e2 + 1 } else { e2 }),
    ));
}

/// The members of an object from the `i`-th on, followed by the closing brace, end
/// the object with all of its members, a later member taking a repeated key.
proof fn lemma_members_written(
    s: Seq<u8>,
    p: int,
    ms: Seq<(Seq<u8>, Written)>,
    i: int,
    g: Seq<u8>,
)
    requires
        0 <= i <= ms.len(),
        forall|j: int|
            0 <= j < ms.len() ==> plain_text(#[trigger] ms[j].0) && well_written(ms[j].1),
        is_gap(g),
        occurs_at(s, p, render_members(ms, i, g)),
        p + render_members(ms, i, g).len() < s.len(),
        s[p + render_members(ms, i, g).len()] == CLOSE_BRACE,
    ensures
        object_members(s, p, members_map(written_pairs(ms).take(i))) == Ok::<(Json, int), Error>(
            (Json::Object(members_map(written_pairs(ms))), p + render_members(ms, i, g).len() + 1),
        ),
    decreases ms, ms.len() - i,
{
    let pairs = written_pairs(ms);
    let end = p + render_members(ms, i, g).len();
    if i == ms.len() {
        assert(pairs.take(i) =~= pairs);
        lemma_skip_gap(s, p, g, 0);
    } else {
        let key = ms[i].0;
        let w = ms[i].1;
        let m = meaning(w);
        let member = render_member(key, w, g);
        let acc = members_map(pairs.take(i));
        assert(plain_text(key) && well_written(w));
        assert(pairs.take(i + 1).drop_last() =~= pairs.take(i));
        assert(pairs.take(i + 1).last() == (key, m));
        assert(members_map(pairs.take(i + 1)) == acc.insert(key, m));
        let e = p + member.len();
        let q = p + g.len();
        if i == ms.len() - 1 {
            assert(render_members(ms, i, g) == member);
        } else {
            let rest = render_members(ms, i + 1, g);
            assert(render_members(ms, i, g) == member + seq![COMMA] + rest);
            lemma_occurs_split(s, p, member + seq![COMMA], rest);
            lemma_occurs_split(s, p, member, seq![COMMA]);
            lemma_occurs_index(s, e, seq![COMMA], 0);
        }
        lemma_member_written(s, p, key, w, g);
        assert(g + member.subrange(g.len() as int, member.len() as int) =~= member);
        lemma_occurs_split(s, p, g, member.subrange(g.len() as int, member.len() as int));
        lemma_occurs_index(s, p, member, g.len() as int);
        assert(member[g.len() as int] == QUOTE);
        if i == ms.len() - 1 {
            assert(member_at(s, q) == Ok::<((Seq<u8>, Json), int), Error>(((key, m), e)));
            let back = e - g.len();
            assert(member.subrange(0, member.len() - g.len()) + g =~= member);
            lemma_occurs_split(s, p, member.subrange(0, member.len() - g.len()), g);
            assert(s.subrange(back, e) == render_members(ms, i + 1, g));
            lemma_members_written(s, back, ms, i + 1, g);
            lemma_skip_gap(s, back, g, 0);
            lemma_object_members_skip(s, back, acc.insert(key, m));
        } else {
            assert(member_at(s, q) == Ok::<((Seq<u8>, Json), int), Error>(((key, m), e + 1)));
            lemma_members_written(s, e + 1, ms, i + 1, g);
        }
    }
}

/// Parsing the text of an escape-free object or array, written with one run of
/// whitespace before, after and between all of its tokens, yields exactly the value
/// it denotes: its nesting, the kind of every value, every key, text and number
/// literal.
pub proof fn lemma_round_trip(w: Written, g: Seq<u8>)
    requires
        well_written(w),
        w is Object || w is Array,
        is_gap(g),
    ensures
        document_at(g + render(w, g) + g, 0) == Ok::<Json, Error>(meaning(w)),
        forall|r: Result<JSONValue, Error>|
            parsed_from(g + render(w, g) + g, r) ==> (r matches Ok(x) && x@ == meaning(w)),
{
    let r = render(w, g);
    let s = g + r + g;
    let e = (g.len() + r.len()) as int;
    assert(s.subrange(0, s.len() as int) =~= s);
    lemma_occurs_split(s, 0, g + r, g);
    lemma_occurs_split(s, 0, g, r);
    lemma_render_start(w, g);
    lemma_occurs_index(s, g.len() as int, r, 0);
    lemma_skip_gap(s, 0, g, 0);
    if g.len() > 0 {
        lemma_occurs_index(s, e, g, 0);
    }
    lemma_value_written(s, g.len() as int, w, g);
}

} // verus!
