//! Text and its UTF-8 form: where the bytes of ASCII stand in it.

use vstd::prelude::*;
use vstd::utf8::{encode_scalar, encode_utf8, is_scalar};

verus! {

/// The UTF-8 form of a scalar below 128 is the one byte of that number; that
/// of any other scalar holds no byte below 128.
pub proof fn lemma_scalar_bytes(scalar: u32)
    requires
        is_scalar(scalar),
    ensures
        scalar < 0x80 ==> encode_scalar(scalar) == seq![scalar as u8],
        scalar >= 0x80 ==> forall|i: int|
            0 <= i < encode_scalar(scalar).len() ==> #[trigger] encode_scalar(scalar)[i] >= 0x80,
        1 <= encode_scalar(scalar).len() <= 4,
{
    assert(scalar < 0x80 ==> (scalar & 0x7F) as u8 == scalar as u8) by (bit_vector);
    assert(0xC0u8 | ((scalar >> 6) & 0x1F) as u8 >= 0x80) by (bit_vector);
    assert(0xE0u8 | ((scalar >> 12) & 0x0F) as u8 >= 0x80) by (bit_vector);
    assert(0xF0u8 | ((scalar >> 18) & 0x7) as u8 >= 0x80) by (bit_vector);
    assert(0x80u8 | (scalar & 0x3F) as u8 >= 0x80) by (bit_vector);
    assert(0x80u8 | ((scalar >> 6) & 0x3F) as u8 >= 0x80) by (bit_vector);
    assert(0x80u8 | ((scalar >> 12) & 0x3F) as u8 >= 0x80) by (bit_vector);
}

/// A character of ASCII stands in the UTF-8 form of its text as the byte of
/// its number.
pub proof fn lemma_char_is_byte(text: Seq<char>, k: int)
    requires
        0 <= k < text.len(),
        (text[k] as u32) < 0x80,
    ensures
        exists|j: int|
            0 <= j < encode_utf8(text).len() && #[trigger] encode_utf8(text)[j] as u32
                == text[k] as u32,
    decreases k,
{
    let first = encode_scalar(text[0] as u32);
    let others = encode_utf8(text.drop_first());
    assert(encode_utf8(text) == first + others);
    vstd::utf8::char_is_scalar(text[0]);
    lemma_scalar_bytes(text[0] as u32);
    if k == 0 {
        assert(encode_utf8(text)[0] as u32 == text[k] as u32);
    } else {
        lemma_char_is_byte(text.drop_first(), k - 1);
        let j = choose|j: int|
            0 <= j < others.len() && #[trigger] others[j] as u32 == text.drop_first()[k - 1] as u32;
        assert(encode_utf8(text)[first.len() + j] == others[j]);
    }
}

/// A byte below 128 in the UTF-8 form of a text is one of its characters.
pub proof fn lemma_byte_is_char(text: Seq<char>, j: int)
    requires
        0 <= j < encode_utf8(text).len(),
        encode_utf8(text)[j] < 0x80,
    ensures
        exists|k: int|
            0 <= k < text.len() && #[trigger] text[k] as u32 == encode_utf8(text)[j] as u32,
    decreases text.len(),
{
    let first = encode_scalar(text[0] as u32);
    let others = encode_utf8(text.drop_first());
    assert(encode_utf8(text) == first + others);
    vstd::utf8::char_is_scalar(text[0]);
    lemma_scalar_bytes(text[0] as u32);
    if j < first.len() {
        assert(encode_utf8(text)[j] == first[j]);
        assert(text[0] as u32 == encode_utf8(text)[j] as u32);
    } else {
        assert(encode_utf8(text)[j] == others[j - first.len()]);
        lemma_byte_is_char(text.drop_first(), j - first.len());
        let k = choose|k: int|
            0 <= k < text.drop_first().len() && #[trigger] text.drop_first()[k] as u32
                == others[j - first.len()] as u32;
        assert(text[k + 1] == text.drop_first()[k]);
    }
}

/// The first byte of the UTF-8 form of a text that starts with a character
/// of ASCII is that character; that of any other text is no byte below 128.
pub proof fn lemma_first_byte(text: Seq<char>)
    requires
        text.len() > 0,
    ensures
        encode_utf8(text).len() > 0,
        (text[0] as u32) < 0x80 ==> encode_utf8(text)[0] as u32 == text[0] as u32,
        (text[0] as u32) >= 0x80 ==> encode_utf8(text)[0] >= 0x80,
{
    let first = encode_scalar(text[0] as u32);
    assert(encode_utf8(text) == first + encode_utf8(text.drop_first()));
    vstd::utf8::char_is_scalar(text[0]);
    lemma_scalar_bytes(text[0] as u32);
    assert(encode_utf8(text)[0] == first[0]);
}

/// Whether two strings hold the same text.
pub fn same_text(a: &str, b: &str) -> (same: bool)
    ensures
        same == (a@ == b@),
{
    let a_bytes = a.as_bytes();
    let b_bytes = b.as_bytes();
    proof {
        vstd::utf8::encode_utf8_decode_utf8(a@);
        vstd::utf8::encode_utf8_decode_utf8(b@);
    }
    if a_bytes.len() != b_bytes.len() {
        return false;
    }
    let mut i: usize = 0;
    while i < a_bytes.len()
        invariant
            a_bytes@.len() == b_bytes@.len(),
            i <= a_bytes@.len(),
            forall|j: int| 0 <= j < i ==> a_bytes@[j] == b_bytes@[j],
            a@ == b@ ==> a_bytes@ == b_bytes@,
        decreases a_bytes@.len() - i,
    {
        if a_bytes[i] != b_bytes[i] {
            return false;
        }
        i += 1;
    }
    assert(a_bytes@ =~= b_bytes@);
    true
}

} // verus!
