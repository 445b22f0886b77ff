//! Bare tokens and their text: what the tokenizer gives back of a text that
//! was written without quotes, in front of a delimiter.

use crate::grammar::{
    is_delimiter, lemma_span_is, lemma_unescape_plain, next_token, span, text_of, with_text,
    Failure, Lexeme, Stop, BACKSLASH, HASH, SLASH,
};
use crate::text::{lemma_byte_is_char, lemma_first_byte};
use vstd::prelude::*;
use vstd::utf8::encode_utf8;

verus! {

/// Whether `c` can stand in a bare token as itself: it is no whitespace, no
/// brace, no quote and no backslash.
pub open spec fn is_bare_char(c: char) -> bool {
    c != ' ' && c != '\t' && c != '\n' && c != '\r' && c != '{' && c != '}' && c != '"' && c
        != '\\'
}

/// Whether `text` can be written as a bare token: it is not empty and every
/// character can stand in one.
pub open spec fn is_bare(text: Seq<char>) -> bool {
    text.len() > 0 && forall|i: int| 0 <= i < text.len() ==> is_bare_char(#[trigger] text[i])
}

/// What a run of bytes in front of a delimiter is, if it holds no delimiter
/// and starts with neither `#` nor `/`: an item with the text of the run.
/// The whitespace that follows is taken with it.
pub proof fn lemma_bare_item(raw: Seq<u8>, tail: Seq<u8>)
    requires
        raw.len() > 0,
        forall|i: int| 0 <= i < raw.len() ==> !is_delimiter(#[trigger] raw[i]),
        raw[0] != HASH,
        raw[0] != SLASH,
        tail.len() > 0,
        is_delimiter(tail[0]),
    ensures
        next_token(raw + tail) == with_text(raw.len() + span(tail, Stop::Text), raw, false),
{
    reveal(next_token);
    let s = raw + tail;
    let n = raw.len();
    assert(s[0] == raw[0]);
    assert(s.skip(0) =~= s);
    assert(s[n as int] == tail[0]);
    assert forall|i: int| 0 <= i < n implies !is_delimiter(#[trigger] s[i]) by {
        assert(s[i] == raw[i]);
    }
    lemma_span_is(s, Stop::Text, 0);
    lemma_span_is(s, Stop::Delimiter, n);
    assert(s.subrange(0, n as int) =~= raw);
    assert(s.skip(n as int) =~= tail);
}

/// What `#` and a run of bytes in front of a delimiter is, if the run holds
/// no delimiter and its text is valid: a statement with the text of the run.
pub proof fn lemma_bare_statement(raw: Seq<u8>, tail: Seq<u8>)
    requires
        raw.len() > 0,
        forall|i: int| 0 <= i < raw.len() ==> !is_delimiter(#[trigger] raw[i]),
        text_of(raw) is Some,
        tail.len() > 0,
        is_delimiter(tail[0]),
    ensures
        next_token(seq![HASH] + raw + tail) == with_text(
            raw.len() + 1 + span(tail, Stop::Text),
            raw,
            true,
        ),
{
    reveal(next_token);
    let s = seq![HASH] + raw + tail;
    let n = raw.len();
    assert(s[0] == HASH);
    assert(s.skip(0) =~= s);
    assert(s.skip(1) =~= raw + tail);
    assert(s.skip(1)[n as int] == tail[0]);
    assert forall|i: int| 0 <= i < n implies !is_delimiter(#[trigger] s.skip(1)[i]) by {
        assert(s.skip(1)[i] == raw[i]);
    }
    lemma_span_is(s, Stop::Text, 0);
    lemma_span_is(s.skip(1), Stop::Delimiter, n);
    assert(s.subrange(1, 1 + n as int) =~= raw);
    assert(s.skip(n as int + 1) =~= tail);
}

/// The characters that end a bare token or escape, by their numbers.
proof fn lemma_char_numbers(c: char)
    ensures
        is_bare_char(c) <==> !(c as u32 == 0x20 || c as u32 == 0x09 || c as u32 == 0x0a || c as u32
            == 0x0d || c as u32 == 0x7b || c as u32 == 0x7d || c as u32 == 0x22 || c as u32
            == 0x5c),
        c == '#' <==> c as u32 == 0x23,
        c == '/' <==> c as u32 == 0x2f,
{
    let n = c as u32;
    if n == 0x20 || n == 0x09 || n == 0x0a || n == 0x0d || n == 0x7b || n == 0x7d || n == 0x22
        || n == 0x5c || n == 0x23 || n == 0x2f {
        vstd::utf8::char_u32_cast(c, n);
    }
}

/// The bytes of a text that can be written bare hold no delimiter and no
/// backslash, and there is at least one.
proof fn lemma_bare_bytes(text: Seq<char>)
    requires
        is_bare(text),
    ensures
        encode_utf8(text).len() > 0,
        forall|j: int|
            0 <= j < encode_utf8(text).len() ==> !is_delimiter(#[trigger] encode_utf8(text)[j])
                && encode_utf8(text)[j] != BACKSLASH,
{
    let bytes = encode_utf8(text);
    lemma_first_byte(text);
    assert forall|j: int| 0 <= j < bytes.len() implies !is_delimiter(#[trigger] bytes[j])
        && bytes[j] != BACKSLASH by {
        if is_delimiter(bytes[j]) || bytes[j] == BACKSLASH {
            lemma_byte_is_char(text, j);
            let k = choose|k: int|
                0 <= k < text.len() && #[trigger] text[k] as u32 == bytes[j] as u32;
            lemma_char_numbers(text[k]);
        }
    }
}

/// A text written bare in front of a delimiter comes back unchanged: the
/// tokenizer makes of it the item with that text. This holds of every text
/// that can be written bare and starts with neither `#`, which would make it
/// a statement, nor `/`, which may start a comment.
pub proof fn theorem_bare_text(text: Seq<char>, tail: Seq<u8>)
    requires
        is_bare(text),
        text[0] != '#',
        text[0] != '/',
        tail.len() > 0,
        is_delimiter(tail[0]),
    ensures
        next_token(encode_utf8(text) + tail) == Ok::<(nat, Lexeme), Failure>(
            (encode_utf8(text).len() + span(tail, Stop::Text), Lexeme::Item(text)),
        ),
{
    let bytes = encode_utf8(text);
    lemma_bare_bytes(text);
    lemma_first_byte(text);
    lemma_char_numbers(text[0]);
    lemma_unescape_plain(bytes);
    vstd::utf8::encode_utf8_valid_utf8(text);
    vstd::utf8::encode_utf8_decode_utf8(text);
    lemma_bare_item(bytes, tail);
}

/// A text written bare behind `#`, in front of a delimiter, is a statement
/// with that text, for every text that can be written bare.
pub proof fn theorem_bare_statement(text: Seq<char>, tail: Seq<u8>)
    requires
        is_bare(text),
        tail.len() > 0,
        is_delimiter(tail[0]),
    ensures
        next_token(seq![HASH] + encode_utf8(text) + tail) == Ok::<(nat, Lexeme), Failure>(
            (encode_utf8(text).len() + 1 + span(tail, Stop::Text), Lexeme::Statement(text)),
        ),
{
    let bytes = encode_utf8(text);
    lemma_bare_bytes(text);
    lemma_unescape_plain(bytes);
    vstd::utf8::encode_utf8_valid_utf8(text);
    vstd::utf8::encode_utf8_decode_utf8(text);
    lemma_bare_statement(bytes, tail);
}

} // verus!
