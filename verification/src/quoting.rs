//! Quoted tokens and their text: what the tokenizer gives back of a text
//! that was put between quotes, as it stands or with its special bytes
//! escaped, and what it makes of a quote that is never closed.

use crate::assemble::{assemble, document, Frame};
use crate::error::Error;
use crate::grammar::{
    lemma_span_is, lemma_unescape_plain, next_token, quoted_span, span, text_of, unescape,
    with_text,
    Failure, Lexeme, Stop, BACKSLASH, CARRIAGE_RETURN, HASH, LETTER_N, LETTER_R, LETTER_T,
    LINE_FEED, QUOTE, TAB,
};
use crate::reader::{blank, event_of, EventView};
use crate::text::{lemma_byte_is_char, lemma_first_byte};
use vstd::prelude::*;
use vstd::utf8::encode_utf8;

verus! {

/// The escape sequence of a byte that has one; any other byte itself.
pub open spec fn escaped_byte(byte: u8) -> Seq<u8> {
    if byte == BACKSLASH {
        seq![BACKSLASH, BACKSLASH]
    } else if byte == LINE_FEED {
        seq![BACKSLASH, LETTER_N]
    } else if byte == TAB {
        seq![BACKSLASH, LETTER_T]
    } else if byte == CARRIAGE_RETURN {
        seq![BACKSLASH, LETTER_R]
    } else if byte == QUOTE {
        seq![BACKSLASH, QUOTE]
    } else {
        seq![byte]
    }
}

/// The escaped form of `raw`: backslash, line feed, tab, carriage return and
/// quote are written as their escape sequences.
pub open spec fn escape(raw: Seq<u8>) -> Seq<u8>
    decreases raw.len(),
{
    if raw.len() == 0 {
        seq![]
    } else {
        escaped_byte(raw[0]) + escape(raw.skip(1))
    }
}

/// `raw` between two quotes.
pub open spec fn quoted(raw: Seq<u8>) -> Seq<u8> {
    seq![QUOTE] + raw + seq![QUOTE]
}

/// Resolving the escape sequences of an escaped form gives back what was
/// escaped.
pub proof fn lemma_unescape_escape(raw: Seq<u8>)
    ensures
        unescape(escape(raw)) == raw,
    decreases raw.len(),
{
    if raw.len() > 0 {
        let head = escaped_byte(raw[0]);
        let tail = escape(raw.skip(1));
        lemma_unescape_escape(raw.skip(1));
        if head.len() == 1 {
            assert((head + tail).skip(1) =~= tail);
        } else {
            assert((head + tail).skip(2) =~= tail);
        }
        assert(unescape(head + tail) =~= seq![raw[0]] + raw.skip(1));
        assert(seq![raw[0]] + raw.skip(1) =~= raw);
    } else {
        assert(raw =~= seq![]);
    }
}

/// An escaped form holds no quote that would end a quoted token: the first
/// such quote behind it is the one that follows it, whatever comes then.
pub proof fn lemma_escape_has_no_free_quote(raw: Seq<u8>, tail: Seq<u8>)
    ensures
        quoted_span(escape(raw) + seq![QUOTE] + tail) == Some(escape(raw).len()),
    decreases raw.len(),
{
    let all = escape(raw) + seq![QUOTE] + tail;
    if raw.len() > 0 {
        let head = escaped_byte(raw[0]);
        let rest = escape(raw.skip(1));
        lemma_escape_has_no_free_quote(raw.skip(1), tail);
        assert(all[0] == head[0]);
        if head.len() == 1 {
            assert(all.skip(1) =~= rest + seq![QUOTE] + tail);
        } else {
            assert(all[1] == head[1]);
            assert(all.skip(2) =~= rest + seq![QUOTE] + tail);
        }
    } else {
        assert(all[0] == QUOTE);
    }
}

/// Bytes without quote and backslash hold no quote that would end a quoted
/// token.
pub proof fn lemma_plain_has_no_free_quote(raw: Seq<u8>, tail: Seq<u8>)
    requires
        forall|i: int| 0 <= i < raw.len() ==> raw[i] != QUOTE && raw[i] != BACKSLASH,
    ensures
        quoted_span(raw + seq![QUOTE] + tail) == Some(raw.len()),
    decreases raw.len(),
{
    let all = raw + seq![QUOTE] + tail;
    if raw.len() > 0 {
        lemma_plain_has_no_free_quote(raw.skip(1), tail);
        assert(all[0] == raw[0]);
        assert(all.skip(1) =~= raw.skip(1) + seq![QUOTE] + tail);
    } else {
        assert(all[0] == QUOTE);
    }
}

/// What a token between quotes is: an item with the text of the bytes
/// between the quotes, if these do not start with `#`, hold no quote but an
/// escaped one, and end with no half escape sequence. The whitespace that
/// follows the closing quote is taken with it.
pub proof fn lemma_quoted_item(raw: Seq<u8>, tail: Seq<u8>)
    requires
        quoted_span(raw + seq![QUOTE] + tail) == Some(raw.len()),
        raw.len() > 0 ==> raw[0] != HASH,
    ensures
        next_token(quoted(raw) + tail) == with_text(
            raw.len() + 2 + span(tail, Stop::Text),
            raw,
            false,
        ),
{
    reveal(next_token);
    let s = quoted(raw) + tail;
    let n = raw.len();
    assert(s[0] == QUOTE);
    assert(s.skip(0) =~= s);
    assert(s.skip(1) =~= raw + seq![QUOTE] + tail);
    assert(s.subrange(1, 1 + n as int) =~= raw);
    assert(s.skip(n as int + 2) =~= tail);
    lemma_span_is(s, Stop::Text, 0);
    lemma_span_is(s, Stop::Delimiter, 0);
    assert(s.skip(1)[0] != HASH);
    if text_of(raw) is None {
        assert(n > 0) by {
            if n == 0 {
                assert(raw =~= seq![]);
                assert(vstd::utf8::valid_utf8(unescape(raw)));
            }
        }
        assert(s.skip(1)[0] == raw[0]);
        assert(raw[0] != QUOTE);
        assert(s[1] == raw[0]);
    }
}

/// What a token between quotes is whose content starts with `#`: a
/// statement with the text of the bytes behind the `#`.
pub proof fn lemma_quoted_statement(raw: Seq<u8>, tail: Seq<u8>)
    requires
        quoted_span(raw + seq![QUOTE] + tail) == Some(raw.len()),
        text_of(raw) is Some,
    ensures
        next_token(quoted(seq![HASH] + raw) + tail) == with_text(
            raw.len() + 3 + span(tail, Stop::Text),
            raw,
            true,
        ),
{
    reveal(next_token);
    let s = quoted(seq![HASH] + raw) + tail;
    let n = raw.len();
    assert(s[0] == QUOTE);
    assert(s[1] == HASH);
    assert(s.skip(0) =~= s);
    assert(s.skip(1)[0] == HASH);
    assert(s.skip(2) =~= raw + seq![QUOTE] + tail);
    assert(s.subrange(2, 2 + n as int) =~= raw);
    assert(s.skip(n as int + 3) =~= tail);
    lemma_span_is(s, Stop::Text, 0);
    lemma_span_is(s, Stop::Delimiter, 0);
}

/// The bytes of a text without quote and backslash hold neither.
proof fn lemma_plain_bytes(text: Seq<char>)
    requires
        forall|i: int| 0 <= i < text.len() ==> text[i] != '"' && text[i] != '\\',
    ensures
        forall|j: int|
            0 <= j < encode_utf8(text).len() ==> encode_utf8(text)[j] != QUOTE && encode_utf8(
                text,
            )[j] != BACKSLASH,
{
    let bytes = encode_utf8(text);
    assert forall|j: int| 0 <= j < bytes.len() implies bytes[j] != QUOTE && bytes[j]
        != BACKSLASH by {
        if bytes[j] == QUOTE || bytes[j] == BACKSLASH {
            lemma_byte_is_char(text, j);
            let k = choose|k: int|
                0 <= k < text.len() && #[trigger] text[k] as u32 == bytes[j] as u32;
            lemma_char_numbers(text[k]);
        }
    }
}

/// The characters that the grammar knows, by their numbers.
proof fn lemma_char_numbers(c: char)
    ensures
        c == '"' <==> c as u32 == 0x22,
        c == '#' <==> c as u32 == 0x23,
        c == '\\' <==> c as u32 == 0x5c,
{
    if c as u32 == 0x22 {
        vstd::utf8::char_u32_cast(c, 0x22);
    }
    if c as u32 == 0x23 {
        vstd::utf8::char_u32_cast(c, 0x23);
    }
    if c as u32 == 0x5c {
        vstd::utf8::char_u32_cast(c, 0x5c);
    }
}

/// The bytes of a text that does not start with `#` do not start with it
/// either.
proof fn lemma_no_hash(text: Seq<char>)
    requires
        text.len() > 0 ==> text[0] != '#',
    ensures
        encode_utf8(text).len() > 0 ==> encode_utf8(text)[0] != HASH,
{
    if text.len() > 0 {
        lemma_first_byte(text);
        lemma_char_numbers(text[0]);
    }
}

/// A text between quotes comes back unchanged: the tokenizer makes of it the
/// item with that text, whatever follows the closing quote. This holds of
/// every text without quote and backslash that does not start with `#`, which
/// would make it a statement.
pub proof fn theorem_quoted_text(text: Seq<char>, tail: Seq<u8>)
    requires
        forall|i: int| 0 <= i < text.len() ==> text[i] != '"' && text[i] != '\\',
        text.len() > 0 ==> text[0] != '#',
    ensures
        next_token(quoted(encode_utf8(text)) + tail) == Ok::<(nat, Lexeme), Failure>(
            (encode_utf8(text).len() + 2 + span(tail, Stop::Text), Lexeme::Item(text)),
        ),
{
    let bytes = encode_utf8(text);
    lemma_plain_bytes(text);
    lemma_no_hash(text);
    lemma_plain_has_no_free_quote(bytes, tail);
    lemma_unescape_plain(bytes);
    vstd::utf8::encode_utf8_valid_utf8(text);
    vstd::utf8::encode_utf8_decode_utf8(text);
    lemma_quoted_item(bytes, tail);
}

/// The escaped form of a text between quotes comes back as the text itself:
/// the tokenizer makes of it the item with that text, whatever follows the
/// closing quote. This holds of every text that does not start with `#`.
pub proof fn theorem_escaped_text(text: Seq<char>, tail: Seq<u8>)
    requires
        text.len() > 0 ==> text[0] != '#',
    ensures
        next_token(quoted(escape(encode_utf8(text))) + tail) == Ok::<(nat, Lexeme), Failure>(
            (escape(encode_utf8(text)).len() + 2 + span(tail, Stop::Text), Lexeme::Item(text)),
        ),
{
    let bytes = encode_utf8(text);
    let raw = escape(bytes);
    lemma_no_hash(text);
    lemma_escape_has_no_free_quote(bytes, tail);
    lemma_unescape_escape(bytes);
    vstd::utf8::encode_utf8_valid_utf8(text);
    vstd::utf8::encode_utf8_decode_utf8(text);
    if bytes.len() > 0 {
        assert(raw[0] == escaped_byte(bytes[0])[0]);
    } else {
        assert(raw =~= seq![]);
    }
    lemma_quoted_item(raw, tail);
}

/// A text behind `#` between quotes is a statement with that text, for
/// every text without quote and backslash.
pub proof fn theorem_quoted_statement(text: Seq<char>, tail: Seq<u8>)
    requires
        forall|i: int| 0 <= i < text.len() ==> text[i] != '"' && text[i] != '\\',
    ensures
        next_token(quoted(seq![HASH] + encode_utf8(text)) + tail) == Ok::<(nat, Lexeme), Failure>(
            (encode_utf8(text).len() + 3 + span(tail, Stop::Text), Lexeme::Statement(text)),
        ),
{
    let bytes = encode_utf8(text);
    lemma_plain_bytes(text);
    lemma_plain_has_no_free_quote(bytes, tail);
    lemma_unescape_plain(bytes);
    vstd::utf8::encode_utf8_valid_utf8(text);
    vstd::utf8::encode_utf8_decode_utf8(text);
    lemma_quoted_statement(bytes, tail);
}

/// A quote that is never closed is no clean end of a document: the buffer
/// that starts with it gives no token, the reader reports the end of the
/// input, and no tree is made of the document, whatever groups are open.
pub proof fn theorem_unterminated_quote(s: Seq<u8>, stack: Seq<Frame>)
    requires
        s.len() > 0,
        s[0] == QUOTE,
        quoted_span(s.skip(1)) is None,
    ensures
        next_token(s) == Err::<(nat, Lexeme), Failure>(Failure::Incomplete),
        event_of(s) == (0nat, Err::<EventView, Error>(Error::Eof)),
        assemble(s, stack) == (0nat, Err::<crate::entry::Tree, Error>(Error::Eof)),
        document(s) == Err::<crate::entry::Tree, Error>(Error::Eof),
{
    reveal(next_token);
    assert(s.skip(0) =~= s);
    lemma_span_is(s, Stop::Text, 0);
    lemma_span_is(s, Stop::Delimiter, 0);
    if s.len() > 1 {
        assert(s.skip(1)[0] == s[1]);
        assert(s.skip(1).skip(1) =~= s.skip(2));
    }
    assert(!blank(s));
}

} // verus!
