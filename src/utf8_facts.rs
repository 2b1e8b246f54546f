//! Facts about UTF-8 that let the parser cut the input text at ASCII bytes.
use vstd::prelude::*;
use vstd::utf8::*;

verus! {

/// Concatenation commutes with encoding.
pub proof fn lemma_encode_utf8_concat(a: Seq<char>, b: Seq<char>)
    ensures
        encode_utf8(a + b) == encode_utf8(a) + encode_utf8(b),
    decreases a.len(),
{
    if a.len() == 0 {
        assert(a + b =~= b);
        assert(encode_utf8(a) + encode_utf8(b) =~= encode_utf8(b));
    } else {
        assert((a + b).drop_first() =~= a.drop_first() + b);
        lemma_encode_utf8_concat(a.drop_first(), b);
        assert(encode_utf8(a + b) =~= encode_utf8(a) + encode_utf8(b));
    }
}

/// A boundary at an ASCII byte is followed by another boundary.
proof fn lemma_boundary_after_ascii(s: Seq<u8>, j: int)
    requires
        valid_utf8(s),
        0 <= j < s.len(),
        is_char_boundary(s, j),
        s[j] < 0x80,
    ensures
        is_char_boundary(s, j + 1),
    decreases s.len(),
{
    let l = length_of_first_scalar(s);
    let rest = pop_first_scalar(s);
    assert(valid_first_scalar(s) && valid_utf8(rest));
    if j == 0 {
        assert(l == 1);
        assert(is_char_boundary(rest, 0));
    } else {
        assert(is_char_boundary(rest, j - l));
        assert(rest[j - l] == s[j]);
        lemma_boundary_after_ascii(rest, j - l);
        assert(is_char_boundary(rest, j + 1 - l));
    }
}

/// A position where the text can be cut without splitting a character, recognisable
/// without decoding: the end, an ASCII byte, or the byte after one.
pub open spec fn ascii_cut(s: Seq<u8>, i: int) -> bool {
    ||| i == s.len()
    ||| 0 <= i < s.len() && s[i] < 0x80
    ||| 0 < i <= s.len() && s[i - 1] < 0x80
}

/// In valid UTF-8, every such cut is a character boundary.
pub proof fn lemma_ascii_boundary(s: Seq<u8>, i: int)
    requires
        valid_utf8(s),
        0 <= i <= s.len(),
        ascii_cut(s, i),
    ensures
        is_char_boundary(s, i),
{
    if i == s.len() {
        is_char_boundary_start_end_of_seq(s);
    } else if s[i] < 0x80 {
        is_char_boundary_iff_not_is_continuation_byte(s, i);
    } else {
        is_char_boundary_iff_not_is_continuation_byte(s, i - 1);
        lemma_boundary_after_ascii(s, i - 1);
    }
}

} // verus!
