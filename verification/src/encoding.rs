//! Facts about UTF-8.
use vstd::prelude::*;
use vstd::utf8;

verus! {

/// A text is encoded part by part.
pub proof fn lemma_encode_concat(a: Seq<char>, b: Seq<char>)
    ensures
        utf8::encode_utf8(a + b) == utf8::encode_utf8(a) + utf8::encode_utf8(b),
    decreases a.len(),
{
    if a.len() == 0 {
        assert(a + b == b);
    } else {
        lemma_encode_concat(a.drop_first(), b);
        assert((a + b).drop_first() == a.drop_first() + b);
    }
}

proof fn lemma_code_differs(a: char, b: char)
    requires
        a != b,
    ensures
        a as u32 != b as u32,
{
}

/// An ASCII byte comes up in the encoding of a text only for the character that it encodes.
pub proof fn lemma_encode_lacks(s: Seq<char>, c: char)
    requires
        c <= '\u{7f}',
        forall|i: int| 0 <= i < s.len() ==> #[trigger] s[i] != c,
    ensures
        forall|j: int|
            0 <= j < utf8::encode_utf8(s).len() ==> #[trigger] utf8::encode_utf8(s)[j] != c as u8,
    decreases s.len(),
{
    if s.len() > 0 {
        lemma_encode_lacks(s.drop_first(), c);
        let u = s[0] as u32;
        utf8::char_is_scalar(s[0]);
        lemma_code_differs(s[0], c);
        if u <= 0x7f {
            assert((u & 0x7f) as u8 == u) by (bit_vector)
                requires
                    u <= 0x7f,
            ;
        }
        assert(0xc0 | ((u >> 6) & 0x1f) as u8 >= 0x80u8) by (bit_vector);
        assert(0xe0 | ((u >> 12) & 0x0f) as u8 >= 0x80u8) by (bit_vector);
        assert(0xf0 | ((u >> 18) & 0x7) as u8 >= 0x80u8) by (bit_vector);
        assert(0x80 | (u & 0x3f) as u8 >= 0x80u8) by (bit_vector);
        assert(0x80 | ((u >> 6) & 0x3f) as u8 >= 0x80u8) by (bit_vector);
        assert(0x80 | ((u >> 12) & 0x3f) as u8 >= 0x80u8) by (bit_vector);
        let first = utf8::encode_scalar(u);
        let rest = utf8::encode_utf8(s.drop_first());
        let whole = utf8::encode_utf8(s);
        assert(forall|j: int| 0 <= j < first.len() ==> #[trigger] first[j] != c as u8);
        assert(whole == first + rest);
        assert forall|j: int| 0 <= j < whole.len() implies #[trigger] whole[j] != c as u8 by {
            if j < first.len() {
                assert(whole[j] == first[j]);
            } else {
                assert(whole[j] == rest[j - first.len()]);
            }
        }
    }
}

}
