//! The grammar of the format, stated on byte sequences.
//!
//! A rule takes the unread bytes and says how many of them form its token
//! and what the token is, or why it found none: the buffer ends before the
//! token does, or the bytes are not this token. Rules are tried in a fixed
//! order, and the first that does not say "not this token" decides.

use vstd::prelude::*;
use vstd::utf8::{decode_utf8, valid_utf8};

verus! {

/// The space.
pub const SPACE: u8 = 0x20;

/// The tab.
pub const TAB: u8 = 0x09;

/// The line feed, which ends a comment.
pub const LINE_FEED: u8 = 0x0a;

/// The carriage return.
pub const CARRIAGE_RETURN: u8 = 0x0d;

/// The quote, which encloses a quoted token.
pub const QUOTE: u8 = 0x22;

/// The sign in front of a statement.
pub const HASH: u8 = 0x23;

/// The slash, two of which start a comment.
pub const SLASH: u8 = 0x2f;

/// The backslash, which escapes the byte after it.
pub const BACKSLASH: u8 = 0x5c;

/// The brace that opens a group.
pub const OPEN_BRACE: u8 = 0x7b;

/// The brace that closes a group.
pub const CLOSE_BRACE: u8 = 0x7d;

/// The letter that stands for a line feed behind a backslash.
pub const LETTER_N: u8 = 0x6e;

/// The letter that stands for a tab behind a backslash.
pub const LETTER_T: u8 = 0x74;

/// The letter that stands for a carriage return behind a backslash.
pub const LETTER_R: u8 = 0x72;

/// Why no token could be produced.
#[derive(Clone, Copy, PartialEq, Eq, Debug, Structural)]
pub enum Failure {
    /// The buffer ends before the token does.
    Incomplete,
    /// The bytes at this position are not the token that was tried, or its
    /// text is not valid UTF-8.
    Malformed,
}

/// A token as a mathematical value: its kind and its decoded text.
pub ghost enum Lexeme {
    GroupStart,
    GroupEnd,
    Item(Seq<char>),
    Statement(Seq<char>),
    Comment(Seq<char>),
}

/// What a rule of the grammar makes of a byte sequence: the number of bytes
/// it takes from the front and the token they form, or why it takes none.
pub type Scan = Result<(nat, Lexeme), Failure>;

/// The bytes that a token's raw text stands for once every escape sequence is
/// resolved: `\\`, `\n`, `\t`, `\r` and `\"` give one byte each, any other
/// escaped byte stays as it is written, backslash included, and a backslash
/// that ends the text is dropped.
pub open spec fn unescape(raw: Seq<u8>) -> Seq<u8>
    decreases raw.len(),
{
    if raw.len() == 0 {
        seq![]
    } else if raw[0] != BACKSLASH {
        seq![raw[0]] + unescape(raw.skip(1))
    } else if raw.len() == 1 {
        seq![]
    } else {
        escape_value(raw[1]) + unescape(raw.skip(2))
    }
}

/// What a backslash followed by `byte` stands for.
pub open spec fn escape_value(byte: u8) -> Seq<u8> {
    if byte == BACKSLASH {
        seq![BACKSLASH]
    } else if byte == LETTER_N {
        seq![LINE_FEED]
    } else if byte == LETTER_T {
        seq![TAB]
    } else if byte == LETTER_R {
        seq![CARRIAGE_RETURN]
    } else if byte == QUOTE {
        seq![QUOTE]
    } else {
        seq![BACKSLASH, byte]
    }
}

/// The text of a token with the raw bytes `raw`, or `None` where the resolved
/// bytes are not UTF-8.
pub open spec fn text_of(raw: Seq<u8>) -> Option<Seq<char>> {
    if valid_utf8(unescape(raw)) {
        Some(decode_utf8(unescape(raw)))
    } else {
        None
    }
}

/// The bytes at which a run of bytes ends.
#[derive(Clone, Copy, PartialEq, Eq, Debug, Structural)]
pub enum Stop {
    /// Any byte that is not whitespace.
    Text,
    /// Whitespace, a brace or a quote.
    Delimiter,
    /// A line feed.
    LineFeed,
}

/// Space, tab, line feed and carriage return.
pub open spec fn is_space(byte: u8) -> bool {
    byte == SPACE || byte == TAB || byte == LINE_FEED || byte == CARRIAGE_RETURN
}

/// The bytes that cannot stand in a bare token.
pub open spec fn is_delimiter(byte: u8) -> bool {
    is_space(byte) || byte == OPEN_BRACE || byte == CLOSE_BRACE || byte == QUOTE
}

/// Whether a run that ends at `stop` ends at `byte`.
pub open spec fn stops(stop: Stop, byte: u8) -> bool {
    match stop {
        Stop::Text => !is_space(byte),
        Stop::Delimiter => is_delimiter(byte),
        Stop::LineFeed => byte == LINE_FEED,
    }
}

/// The number of bytes in front of the first byte of `s` at which a run ends;
/// the length of `s` if there is no such byte.
pub open spec fn span(s: Seq<u8>, stop: Stop) -> nat
    decreases s.len(),
{
    if s.len() == 0 || stops(stop, s[0]) {
        0
    } else {
        1 + span(s.skip(1), stop)
    }
}

/// A run that must end inside the buffer and must not be empty.
pub open spec fn run(s: Seq<u8>, stop: Stop) -> Result<nat, Failure> {
    let n = span(s, stop);
    if n == s.len() {
        Err(Failure::Incomplete)
    } else if n == 0 {
        Err(Failure::Malformed)
    } else {
        Ok(n)
    }
}

/// Whether `s` and `word` differ at a position that both have.
pub open spec fn differs(s: Seq<u8>, word: Seq<u8>) -> bool {
    exists|i: int| 0 <= i < s.len() && i < word.len() && s[i] != word[i]
}

/// The fixed bytes `word` at the front of `s`. A buffer that ends inside the
/// word, with all its bytes matching, is incomplete.
pub open spec fn literal(s: Seq<u8>, word: Seq<u8>) -> Result<nat, Failure> {
    if differs(s, word) {
        Err(Failure::Malformed)
    } else if s.len() < word.len() {
        Err(Failure::Incomplete)
    } else {
        Ok(word.len())
    }
}

/// The length of the content of a quoted token, `s` being what follows the
/// opening quote: the number of bytes in front of the first quote that no
/// backslash escapes. `None` where the buffer ends first.
pub open spec fn quoted_span(s: Seq<u8>) -> Option<nat>
    decreases s.len(),
{
    if s.len() == 0 {
        None
    } else if s[0] == QUOTE {
        Some(0)
    } else if s[0] != BACKSLASH {
        shift(quoted_span(s.skip(1)), 1)
    } else if s.len() == 1 {
        None
    } else {
        shift(quoted_span(s.skip(2)), 2)
    }
}

/// `length` moved on by `by`.
pub open spec fn shift(length: Option<nat>, by: nat) -> Option<nat> {
    match length {
        Some(n) => Some(n + by),
        None => None,
    }
}

/// The result of the first rule unless the bytes are not its token; then
/// that of the second.
pub open spec fn or_else(first: Scan, second: Scan) -> Scan {
    if first == Err::<(nat, Lexeme), Failure>(Failure::Malformed) {
        second
    } else {
        first
    }
}

/// A token of the given kind whose raw text is `raw`, taking `used` bytes.
pub open spec fn with_text(used: nat, raw: Seq<u8>, statement: bool) -> Scan {
    match text_of(raw) {
        None => Err(Failure::Malformed),
        Some(text) => if statement {
            Ok((used, Lexeme::Statement(text)))
        } else {
            Ok((used, Lexeme::Item(text)))
        },
    }
}

/// `//`, then at least one byte, up to the line feed.
pub open spec fn comment_token(s: Seq<u8>) -> Scan {
    match literal(s, seq![SLASH, SLASH]) {
        Err(failure) => Err(failure),
        Ok(_) => match run(s.skip(2), Stop::LineFeed) {
            Err(failure) => Err(failure),
            Ok(n) => match text_of(s.subrange(2, 2 + n as int)) {
                None => Err(Failure::Malformed),
                Some(text) => Ok((2 + n, Lexeme::Comment(text))),
            },
        },
    }
}

/// `{`.
pub open spec fn open_token(s: Seq<u8>) -> Scan {
    match literal(s, seq![OPEN_BRACE]) {
        Err(failure) => Err(failure),
        Ok(_) => Ok((1, Lexeme::GroupStart)),
    }
}

/// `}`.
pub open spec fn close_token(s: Seq<u8>) -> Scan {
    match literal(s, seq![CLOSE_BRACE]) {
        Err(failure) => Err(failure),
        Ok(_) => Ok((1, Lexeme::GroupEnd)),
    }
}

/// `#`, then a run of bytes up to a delimiter.
pub open spec fn bare_statement_token(s: Seq<u8>) -> Scan {
    match literal(s, seq![HASH]) {
        Err(failure) => Err(failure),
        Ok(_) => match run(s.skip(1), Stop::Delimiter) {
            Err(failure) => Err(failure),
            Ok(n) => with_text(1 + n, s.subrange(1, 1 + n as int), true),
        },
    }
}

/// A run of bytes up to a delimiter.
pub open spec fn bare_item_token(s: Seq<u8>) -> Scan {
    match run(s, Stop::Delimiter) {
        Err(failure) => Err(failure),
        Ok(n) => with_text(n, s.subrange(0, n as int), false),
    }
}

/// A bare token: a statement if it can be read as one, else an item.
pub open spec fn bare_token(s: Seq<u8>) -> Scan {
    or_else(bare_statement_token(s), bare_item_token(s))
}

/// The content of a quoted token, `s` being what follows the opening quote.
pub open spec fn enclosed_content_length(s: Seq<u8>) -> Result<nat, Failure> {
    match quoted_span(s) {
        Some(n) => Ok(n),
        None => Err(Failure::Incomplete),
    }
}

/// `"#`, the content, `"`.
pub open spec fn enclosed_statement_token(s: Seq<u8>) -> Scan {
    match literal(s, seq![QUOTE]) {
        Err(failure) => Err(failure),
        Ok(_) => match literal(s.skip(1), seq![HASH]) {
            Err(failure) => Err(failure),
            Ok(_) => match enclosed_content_length(s.skip(2)) {
                Err(failure) => Err(failure),
                Ok(n) => with_text(3 + n, s.subrange(2, 2 + n as int), true),
            },
        },
    }
}

/// `"`, the content, `"`.
pub open spec fn enclosed_item_token(s: Seq<u8>) -> Scan {
    match literal(s, seq![QUOTE]) {
        Err(failure) => Err(failure),
        Ok(_) => match enclosed_content_length(s.skip(1)) {
            Err(failure) => Err(failure),
            Ok(n) => with_text(2 + n, s.subrange(1, 1 + n as int), false),
        },
    }
}

/// `""`.
pub open spec fn empty_item_token(s: Seq<u8>) -> Scan {
    match literal(s, seq![QUOTE, QUOTE]) {
        Err(failure) => Err(failure),
        Ok(_) => Ok((2, Lexeme::Item(seq![]))),
    }
}

/// A quoted token: a statement if it can be read as one, else an item.
pub open spec fn enclosed_token(s: Seq<u8>) -> Scan {
    or_else(enclosed_statement_token(s), or_else(enclosed_item_token(s), empty_item_token(s)))
}

/// The token at the front of `s`: the rules are tried in the order comment,
/// opening brace, closing brace, bare token, quoted token.
pub open spec fn plain_token(s: Seq<u8>) -> Scan {
    or_else(
        comment_token(s),
        or_else(open_token(s), or_else(close_token(s), or_else(bare_token(s), enclosed_token(s)))),
    )
}

/// The next token of `s` with the whitespace around it.
#[verifier::opaque]
pub open spec fn next_token(s: Seq<u8>) -> Scan {
    let before = span(s, Stop::Text);
    match plain_token(s.skip(before as int)) {
        Err(failure) => Err(failure),
        Ok((used, lexeme)) => Ok(
            (before + used + span(s.skip((before + used) as int), Stop::Text), lexeme),
        ),
    }
}

/// Raw text without a backslash stands for itself.
pub proof fn lemma_unescape_plain(raw: Seq<u8>)
    requires
        forall|i: int| 0 <= i < raw.len() ==> raw[i] != BACKSLASH,
    ensures
        unescape(raw) == raw,
    decreases raw.len(),
{
    if raw.len() > 0 {
        lemma_unescape_plain(raw.skip(1));
        assert(seq![raw[0]] + raw.skip(1) =~= raw);
    } else {
        assert(raw =~= seq![]);
    }
}

/// What [`span`] is: it ends at the first byte at which the run ends.
pub proof fn lemma_span(s: Seq<u8>, stop: Stop)
    ensures
        span(s, stop) <= s.len(),
        forall|i: int| 0 <= i < span(s, stop) ==> !stops(stop, #[trigger] s[i]),
        span(s, stop) < s.len() ==> stops(stop, s[span(s, stop) as int]),
    decreases s.len(),
{
    if s.len() != 0 && !stops(stop, s[0]) {
        let rest = s.skip(1);
        lemma_span(rest, stop);
        assert forall|i: int| 0 <= i < span(s, stop) implies !stops(stop, #[trigger] s[i]) by {
            if i > 0 {
                assert(s[i] == rest[i - 1]);
            }
        }
        if span(s, stop) < s.len() {
            assert(rest[span(rest, stop) as int] == s[span(s, stop) as int]);
        }
    }
}

/// A position in front of which no run ends, and at which one does or the
/// buffer ends, is the [`span`].
pub proof fn lemma_span_is(s: Seq<u8>, stop: Stop, n: nat)
    requires
        n <= s.len(),
        forall|i: int| 0 <= i < n ==> !stops(stop, #[trigger] s[i]),
        n < s.len() ==> stops(stop, s[n as int]),
    ensures
        span(s, stop) == n,
    decreases s.len(),
{
    if n > 0 {
        let rest = s.skip(1);
        assert(!stops(stop, s[0]));
        assert forall|i: int| 0 <= i < n - 1 implies !stops(stop, #[trigger] rest[i]) by {
            assert(rest[i] == s[i + 1]);
        }
        lemma_span_is(rest, stop, (n - 1) as nat);
    }
}

/// Where [`quoted_span`] finds a quote, it stands there.
pub proof fn lemma_quoted_span(s: Seq<u8>)
    ensures
        match quoted_span(s) {
            Some(n) => n < s.len() && s[n as int] == QUOTE,
            None => true,
        },
    decreases s.len(),
{
    if s.len() == 0 || s[0] == QUOTE {
    } else if s[0] != BACKSLASH {
        lemma_quoted_span(s.skip(1));
    } else if s.len() > 1 {
        lemma_quoted_span(s.skip(2));
    }
}

/// A token without the whitespace around it is never empty and never longer
/// than the buffer.
pub proof fn lemma_plain_token_advances(s: Seq<u8>)
    ensures
        match plain_token(s) {
            Ok((used, _)) => 0 < used <= s.len(),
            Err(_) => true,
        },
{
    lemma_span(s.skip(2), Stop::LineFeed);
    lemma_span(s.skip(1), Stop::Delimiter);
    lemma_span(s, Stop::Delimiter);
    lemma_quoted_span(s.skip(1));
    lemma_quoted_span(s.skip(2));
}

/// A token is never empty and never longer than the buffer.
pub proof fn lemma_next_token_advances(s: Seq<u8>)
    ensures
        match next_token(s) {
            Ok((used, _)) => 0 < used <= s.len(),
            Err(_) => true,
        },
{
    reveal(next_token);
    let before = span(s, Stop::Text);
    lemma_span(s, Stop::Text);
    let t = s.skip(before as int);
    lemma_plain_token_advances(t);
    if let Ok((used, _)) = plain_token(t) {
        lemma_span(s.skip((before + used) as int), Stop::Text);
    }
}

} // verus!
