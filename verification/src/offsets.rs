//! Positions counted in characters and positions counted in bytes.
//!
//! The matcher counts in characters. A Rust string is stored as UTF-8, and a
//! search on it is usually described by byte offsets. The two agree: the
//! first occurrence by characters is the first occurrence by byte offset.

use crate::matcher::{is_first_occurrence, occurs_at};
use vstd::prelude::*;
use vstd::utf8::{
    char_u32_cast, decode_first_scalar, encode_scalar, encode_utf8, encode_utf8_first_scalar,
    encode_utf8_valid_utf8, is_char_boundary, is_char_boundary_iff_not_is_continuation_byte,
    length_of_first_scalar, pop_first_scalar,
};

verus! {

/// `pattern` stands in `text` at byte offset `b`.
pub open spec fn bytes_occur_at(text: Seq<u8>, pattern: Seq<u8>, b: int) -> bool {
    &&& 0 <= b
    &&& b + pattern.len() <= text.len()
    &&& text.subrange(b, b + pattern.len()) == pattern
}

/// The byte offset in the UTF-8 encoding of `text` at which its character
/// number `i` begins.
pub open spec fn byte_offset(text: Seq<char>, i: int) -> int {
    encode_utf8(text.subrange(0, i)).len() as int
}

/// The encoding of two strings put together is their encodings put together.
pub proof fn lemma_encode_concat(a: Seq<char>, b: Seq<char>)
    ensures
        encode_utf8(a + b) == encode_utf8(a) + encode_utf8(b),
    decreases a.len(),
{
    if a.len() == 0 {
        assert(a + b =~= b);
        assert(encode_utf8(a) + encode_utf8(b) =~= encode_utf8(b));
    } else {
        lemma_encode_concat(a.drop_first(), b);
        assert((a + b).drop_first() =~= a.drop_first() + b);
        assert((a + b)[0] == a[0]);
        assert(encode_scalar(a[0] as u32) + (encode_utf8(a.drop_first()) + encode_utf8(b))
            =~= (encode_scalar(a[0] as u32) + encode_utf8(a.drop_first())) + encode_utf8(b));
    }
}

/// An occurrence by characters is an occurrence by bytes, at the byte offset
/// of its first character.
pub proof fn lemma_occurrence_in_bytes(text: Seq<char>, pattern: Seq<char>, i: int)
    requires
        occurs_at(text, pattern, i),
    ensures
        bytes_occur_at(encode_utf8(text), encode_utf8(pattern), byte_offset(text, i)),
{
    let before = text.subrange(0, i);
    let after = text.subrange(i + pattern.len(), text.len() as int);
    assert(text =~= (before + pattern) + after);
    lemma_encode_concat(before + pattern, after);
    lemma_encode_concat(before, pattern);
    let b = encode_utf8(before).len() as int;
    let p = encode_utf8(pattern);
    assert(encode_utf8(text) == (encode_utf8(before) + p) + encode_utf8(after));
    assert(encode_utf8(text).subrange(b, b + p.len()) =~= p);
}

/// Without its first character's bytes, the encoding of a string is the
/// encoding of the string without its first character.
proof fn lemma_encode_rest(text: Seq<char>)
    requires
        text.len() > 0,
    ensures
        pop_first_scalar(encode_utf8(text)) == encode_utf8(text.drop_first()),
        length_of_first_scalar(encode_utf8(text)) == encode_scalar(text[0] as u32).len(),
        encode_utf8(text).len() == encode_scalar(text[0] as u32).len() + encode_utf8(
            text.drop_first(),
        ).len(),
        1 <= encode_scalar(text[0] as u32).len(),
{
    encode_utf8_first_scalar(text);
    assert(pop_first_scalar(encode_utf8(text)) =~= encode_utf8(text.drop_first()));
}

/// A string whose encoding begins with the encoding of a pattern begins with
/// the pattern.
proof fn lemma_prefix_in_chars(text: Seq<char>, pattern: Seq<char>)
    requires
        bytes_occur_at(encode_utf8(text), encode_utf8(pattern), 0),
    ensures
        occurs_at(text, pattern, 0),
    decreases pattern.len(),
{
    if pattern.len() == 0 {
        assert(text.subrange(0, 0) =~= pattern);
    } else {
        let t = encode_utf8(text);
        let p = encode_utf8(pattern);
        lemma_encode_rest(pattern);
        encode_utf8_first_scalar(pattern);
        assert(text.len() > 0);
        lemma_encode_rest(text);
        encode_utf8_first_scalar(text);
        assert forall|k: int| 0 <= k < p.len() implies t[k] == p[k] by {
            assert(t.subrange(0, p.len() as int)[k] == p[k]);
        }
        assert(decode_first_scalar(t) == decode_first_scalar(p));
        char_u32_cast(text[0], decode_first_scalar(t));
        char_u32_cast(pattern[0], decode_first_scalar(p));
        assert(text[0] == pattern[0]);
        let len = length_of_first_scalar(t);
        assert(length_of_first_scalar(p) == len);
        let t_rest = encode_utf8(text.drop_first());
        let p_rest = encode_utf8(pattern.drop_first());
        assert(t_rest.subrange(0, p_rest.len() as int) =~= p_rest) by {
            assert forall|k: int| 0 <= k < p_rest.len() implies t_rest[k] == p_rest[k] by {
                assert(t_rest[k] == t[len + k]);
                assert(p_rest[k] == p[len + k]);
            }
        }
        lemma_prefix_in_chars(text.drop_first(), pattern.drop_first());
        assert(text.subrange(0, pattern.len() as int) =~= pattern) by {
            assert forall|k: int| 0 <= k < pattern.len() implies text[k] == pattern[k] by {
                if k > 0 {
                    let rest = text.drop_first().subrange(0, pattern.drop_first().len() as int);
                    assert(rest[k - 1] == pattern.drop_first()[k - 1]);
                }
            }
        }
    }
}

/// An occurrence by bytes of a pattern that is not empty is an occurrence by
/// characters: it begins where a character begins, and the pattern stands
/// there character by character.
proof fn lemma_byte_occurrence_in_chars(text: Seq<char>, pattern: Seq<char>, b: int) -> (j: int)
    requires
        pattern.len() > 0,
        bytes_occur_at(encode_utf8(text), encode_utf8(pattern), b),
    ensures
        occurs_at(text, pattern, j),
        byte_offset(text, j) == b,
    decreases text.len(),
{
    let t = encode_utf8(text);
    let p = encode_utf8(pattern);
    if b == 0 {
        lemma_prefix_in_chars(text, pattern);
        assert(text.subrange(0, 0) =~= Seq::<char>::empty());
        0
    } else {
        lemma_encode_rest(pattern);
        assert(text.len() > 0);
        lemma_encode_rest(text);
        encode_utf8_valid_utf8(text);
        encode_utf8_valid_utf8(pattern);
        encode_utf8_valid_utf8(text.drop_first());
        let len = length_of_first_scalar(t);
        let rest = text.drop_first();
        let t_rest = encode_utf8(rest);
        assert(t[b] == p[0]) by {
            assert(t.subrange(b, b + p.len())[0] == p[0]);
        }
        assert(is_char_boundary(p, 0));
        is_char_boundary_iff_not_is_continuation_byte(p, 0);
        is_char_boundary_iff_not_is_continuation_byte(t, b);
        assert(is_char_boundary(t, b));
        assert(is_char_boundary(t_rest, b - len));
        assert(b >= len);
        assert(t_rest.subrange(b - len, b - len + p.len()) =~= p) by {
            assert forall|k: int| 0 <= k < p.len() implies t_rest[b - len + k] == p[k] by {
                assert(t_rest[b - len + k] == t[b + k]);
                assert(t.subrange(b, b + p.len())[k] == p[k]);
            }
        }
        let below = lemma_byte_occurrence_in_chars(rest, pattern, b - len);
        let j = below + 1;
        assert(text.subrange(j, j + pattern.len()) =~= rest.subrange(
            below,
            below + pattern.len(),
        ));
        let upto = text.subrange(0, j);
        assert(upto.drop_first() =~= rest.subrange(0, below));
        assert(upto[0] == text[0]);
        lemma_encode_rest(upto);
        j
    }
}

/// Later characters begin at later byte offsets.
proof fn lemma_byte_offset_monotone(text: Seq<char>, j: int, i: int)
    requires
        0 <= j <= i <= text.len(),
    ensures
        byte_offset(text, j) <= byte_offset(text, i),
{
    assert(text.subrange(0, i) =~= text.subrange(0, j) + text.subrange(j, i));
    lemma_encode_concat(text.subrange(0, j), text.subrange(j, i));
}

/// The first occurrence by characters is the first occurrence by byte offset:
/// in the UTF-8 encoding of the text, the encoded pattern stands at the byte
/// offset of that character and at no smaller byte offset.
pub proof fn lemma_first_occurrence_by_byte_offset(text: Seq<char>, pattern: Seq<char>, i: int)
    requires
        is_first_occurrence(text, pattern, i),
    ensures
        bytes_occur_at(encode_utf8(text), encode_utf8(pattern), byte_offset(text, i)),
        forall|b: int|
            0 <= b < byte_offset(text, i) ==> !bytes_occur_at(
                encode_utf8(text),
                encode_utf8(pattern),
                b,
            ),
{
    lemma_occurrence_in_bytes(text, pattern, i);
    if pattern.len() == 0 {
        assert(text.subrange(0, 0) =~= pattern);
        assert(occurs_at(text, pattern, 0));
        assert(i == 0);
        assert(text.subrange(0, 0) =~= Seq::<char>::empty());
    } else {
        assert forall|b: int| 0 <= b < byte_offset(text, i) implies !bytes_occur_at(
            encode_utf8(text),
            encode_utf8(pattern),
            b,
        ) by {
            if bytes_occur_at(encode_utf8(text), encode_utf8(pattern), b) {
                let j = lemma_byte_occurrence_in_chars(text, pattern, b);
                if j >= i {
                    lemma_byte_offset_monotone(text, i, j);
                }
            }
        }
    }
}

} // verus!
