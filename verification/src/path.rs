//! Dotted paths: the segments of a path, and the step from a path to its
//! first segment and the rest.

use vstd::prelude::*;
use vstd::string::StringSliceAdditionalSpecFns;
use vstd::utf8::{decode_utf8, encode_utf8, is_char_boundary, valid_utf8};

verus! {

/// The dot that parts the segments of a path.
pub const DOT: u8 = 0x2e;

/// The number of characters in front of the first dot of `path`; its length
/// if it has no dot.
pub open spec fn first_segment_len(path: Seq<char>) -> nat
    decreases path.len(),
{
    if path.len() == 0 || path[0] == '.' {
        0
    } else {
        1 + first_segment_len(path.skip(1))
    }
}

/// The segments of a dotted path: what stands between its dots, in front of
/// the first and behind the last. A path without a dot is one segment, the
/// empty path too.
pub open spec fn segments(path: Seq<char>) -> Seq<Seq<char>>
    decreases path.len(),
    via segments_decreases
{
    let n = first_segment_len(path);
    if n >= path.len() {
        seq![path]
    } else {
        seq![path.take(n as int)] + segments(path.skip(n as int + 1))
    }
}

#[via_fn]
proof fn segments_decreases(path: Seq<char>) {
}

/// A path without a dot is its only segment.
pub proof fn lemma_segments_one(path: Seq<char>)
    requires
        !path.contains('.'),
    ensures
        segments(path) == seq![path],
{
    lemma_first_segment_len(path, path.len());
}

/// The segments of a path with a dot: what stands in front of the first
/// dot, then the segments of what follows it.
pub proof fn lemma_segments_split(head: Seq<char>, rest: Seq<char>)
    requires
        !head.contains('.'),
    ensures
        segments(head + seq!['.'] + rest) == seq![head] + segments(rest),
{
    let path = head + seq!['.'] + rest;
    assert(path[head.len() as int] == '.');
    assert forall|i: int| 0 <= i < head.len() implies path[i] != '.' by {
        assert(path[i] == head[i]);
        assert(head.contains(head[i]));
    }
    lemma_first_segment_len(path, head.len());
    assert(path.take(head.len() as int) =~= head);
    assert(path.skip(head.len() as int + 1) =~= rest);
}

/// The first dot of a path ends its first segment.
pub proof fn lemma_first_segment_len(path: Seq<char>, n: nat)
    requires
        n <= path.len(),
        forall|i: int| 0 <= i < n ==> path[i] != '.',
        n < path.len() ==> path[n as int] == '.',
    ensures
        first_segment_len(path) == n,
    decreases n,
{
    if n > 0 {
        let rest = path.skip(1);
        assert(path[0] != '.');
        assert forall|i: int| 0 <= i < n - 1 implies rest[i] != '.' by {
            assert(rest[i] == path[i + 1]);
        }
        lemma_first_segment_len(rest, (n - 1) as nat);
    }
}

/// Text that holds a dot has the byte of a dot in its UTF-8 form.
pub proof fn lemma_dot_is_encoded(text: Seq<char>, k: int)
    requires
        0 <= k < text.len(),
        text[k] == '.',
    ensures
        exists|j: int| 0 <= j < encode_utf8(text).len() && encode_utf8(text)[j] == DOT,
{
    crate::text::lemma_char_is_byte(text, k);
    let j = choose|j: int|
        0 <= j < encode_utf8(text).len() && #[trigger] encode_utf8(text)[j] as u32
            == text[k] as u32;
    assert(encode_utf8(text)[j] == DOT);
}

/// The text that a single byte of a dot encodes.
proof fn lemma_decode_dot(bytes: Seq<u8>)
    requires
        bytes.len() == 1,
        bytes[0] == DOT,
    ensures
        valid_utf8(bytes),
        decode_utf8(bytes) == seq!['.'],
{
    assert(encode_utf8(seq!['.']) =~= bytes) by {
        reveal_with_fuel(encode_utf8, 2);
        assert((0x2eu32 & 0x7F) as u8 == 0x2eu8) by (bit_vector);
        assert(seq!['.'].drop_first() =~= Seq::<char>::empty());
    }
    vstd::utf8::encode_utf8_valid_utf8(seq!['.']);
    vstd::utf8::encode_utf8_decode_utf8(seq!['.']);
}

/// Parts a path at its first dot: gives the first segment and what follows
/// the dot, or `None` where the path has no dot.
pub fn split_first<'a>(path: &'a str) -> (parts: Option<(&'a str, &'a str)>)
    ensures
        match parts {
            Some((head, rest)) => {
                &&& !head@.contains('.')
                &&& path@ == head@ + seq!['.'] + rest@
                &&& rest@.len() < path@.len()
            },
            None => !path@.contains('.'),
        },
{
    let bytes = path.as_bytes();
    proof {
        vstd::utf8::encode_utf8_valid_utf8(path@);
        vstd::utf8::encode_utf8_decode_utf8(path@);
    }
    let mut n: usize = 0;
    while n < bytes.len() && bytes[n] != DOT
        invariant
            n <= bytes@.len(),
            forall|j: int| 0 <= j < n ==> bytes@[j] != DOT,
        decreases bytes@.len() - n,
    {
        n += 1;
    }
    if n == bytes.len() {
        proof {
            if path@.contains('.') {
                let k = choose|k: int| 0 <= k < path@.len() && path@[k] == '.';
                lemma_dot_is_encoded(path@, k);
            }
        }
        None
    } else {
        proof {
            vstd::utf8::is_char_boundary_iff_not_is_continuation_byte(bytes@, n as int);
            vstd::utf8::valid_utf8_split(bytes@, n as int);
            vstd::utf8::decode_utf8_split(bytes@, n as int);
        }
        let (head, tail) = path.split_at(n);
        proof {
            let tail_bytes = tail.spec_bytes();
            assert(tail_bytes[0] == DOT);
            assert(is_char_boundary(tail_bytes, 1)) by {
                reveal_with_fuel(is_char_boundary, 2);
            }
            vstd::utf8::valid_utf8_split(tail_bytes, 1);
            vstd::utf8::decode_utf8_split(tail_bytes, 1);
            lemma_decode_dot(tail_bytes.subrange(0, 1));
        }
        let (dot, rest) = tail.split_at(1);
        proof {
            vstd::utf8::encode_utf8_decode_utf8(head@);
            vstd::utf8::encode_utf8_decode_utf8(tail@);
            vstd::utf8::encode_utf8_decode_utf8(dot@);
            vstd::utf8::encode_utf8_decode_utf8(rest@);
            assert(dot@ == seq!['.']);
            assert(tail@ == dot@ + rest@);
            assert(path@ == head@ + tail@);
            assert(path@ =~= head@ + seq!['.'] + rest@);
            if head@.contains('.') {
                let k = choose|k: int| 0 <= k < head@.len() && head@[k] == '.';
                lemma_dot_is_encoded(head@, k);
            }
        }
        Some((head, rest))
    }
}

} // verus!
