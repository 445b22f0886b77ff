//! The tokenizer: from a byte buffer to the next lexical token.
//!
//! Every function takes the unread bytes and, on success, hands back what is
//! left behind the token. Each is proved to compute what the rule of its
//! name in the grammar says.

use crate::grammar::{
    bare_item_token, bare_statement_token, bare_token, close_token, comment_token, differs,
    empty_item_token, enclosed_content_length, enclosed_item_token, enclosed_statement_token,
    enclosed_token, lemma_span, lemma_span_is, lemma_unescape_plain, literal, next_token,
    open_token, plain_token, quoted_span, run, shift, span, stops, text_of, unescape, Lexeme, Scan,
    Stop, BACKSLASH, CARRIAGE_RETURN, CLOSE_BRACE, HASH, LETTER_N, LETTER_R, LETTER_T, LINE_FEED,
    OPEN_BRACE, QUOTE, SLASH, SPACE, TAB,
};
use std::borrow::Cow;
use std::borrow::ToOwned;
use vstd::prelude::*;
use vstd::slice::slice_subrange;
use vstd::string::StringSliceAdditionalSpecFns;
use vstd::utf8::{encode_utf8, valid_utf8};

pub use crate::grammar::Failure;

verus! {

/// `Clone::clone` of `Cow`, which the derived `Clone` of [`Token`] calls.
/// Nothing is claimed of the copy.
pub assume_specification<'a, B>[ <Cow<'a, B> as Clone>::clone ](cow: &Cow<'a, B>) -> Cow<'a, B> where
    B: ToOwned + ?Sized,
;

/// Parser token.
#[derive(Clone, PartialEq, Eq, Debug)]
pub enum Token<'a> {
    /// A group is starting.
    GroupStart,
    /// A group is ending.
    GroupEnd,
    /// An enclosed or bare item.
    Item(Cow<'a, str>),
    /// An enclosed or bare statement.
    Statement(Cow<'a, str>),
    /// A commented out line.
    Comment(Cow<'a, str>),
}

impl<'a> View for Token<'a> {
    type V = Lexeme;

    open spec fn view(&self) -> Lexeme {
        match self {
            Token::GroupStart => Lexeme::GroupStart,
            Token::GroupEnd => Lexeme::GroupEnd,
            Token::Item(text) => Lexeme::Item(text@),
            Token::Statement(text) => Lexeme::Statement(text@),
            Token::Comment(text) => Lexeme::Comment(text@),
        }
    }
}

/// Whether a function's result is what the grammar says of its input: on
/// success the token, and the input without the bytes taken.
pub open spec fn agrees<'a>(
    result: Result<(&'a [u8], Token<'a>), Failure>,
    input: Seq<u8>,
    scan: Scan,
) -> bool {
    match scan {
        Ok((used, lexeme)) => {
            &&& result is Ok
            &&& used <= input.len()
            &&& result->Ok_0.0@ == input.skip(used as int)
            &&& result->Ok_0.1@ == lexeme
        },
        Err(failure) => result is Err && result->Err_0 == failure,
    }
}

/// `core::str::from_utf8`: the bytes are accepted exactly when they are valid
/// UTF-8, and the string slice then consists of these bytes.
#[verifier::external_body]
fn str_from_utf8<'a>(bytes: &'a [u8]) -> (text: Option<&'a str>)
    ensures
        text is Some <==> valid_utf8(bytes@),
        text is Some ==> text->0.spec_bytes() == bytes@,
{
    match core::str::from_utf8(bytes) {
        Ok(text) => Some(text),
        Err(_) => None,
    }
}

/// `String::from_utf8`: the bytes are accepted exactly when they are valid
/// UTF-8, and the string then consists of these bytes.
#[verifier::external_body]
fn string_from_utf8(bytes: Vec<u8>) -> (text: Option<String>)
    ensures
        text is Some <==> valid_utf8(bytes@),
        text is Some ==> encode_utf8(text->0@) == bytes@,
{
    match String::from_utf8(bytes) {
        Ok(text) => Some(text),
        Err(_) => None,
    }
}

/// Whether `buffer` holds a backslash.
fn has_escape(buffer: &[u8]) -> (found: bool)
    ensures
        found <==> exists|i: int| 0 <= i < buffer@.len() && buffer@[i] == BACKSLASH,
{
    let mut i: usize = 0;
    while i < buffer.len()
        invariant
            i <= buffer@.len(),
            forall|j: int| 0 <= j < i ==> buffer@[j] != BACKSLASH,
        decreases buffer@.len() - i,
    {
        if buffer[i] == BACKSLASH {
            return true;
        }
        i += 1;
    }
    false
}

/// Whether a run that ends at `stop` ends at `byte`.
fn at_stop(stop: Stop, byte: u8) -> (ends: bool)
    ensures
        ends == stops(stop, byte),
{
    let space = byte == SPACE || byte == TAB || byte == LINE_FEED || byte == CARRIAGE_RETURN;
    match stop {
        Stop::Text => !space,
        Stop::Delimiter => space || byte == OPEN_BRACE || byte == CLOSE_BRACE || byte == QUOTE,
        Stop::LineFeed => byte == LINE_FEED,
    }
}

/// Counts the bytes in front of the first one at which the run ends.
fn run_length(input: &[u8], stop: Stop) -> (n: usize)
    ensures
        n == span(input@, stop),
        n <= input@.len(),
{
    let mut i: usize = 0;
    while i < input.len() && !at_stop(stop, input[i])
        invariant
            i <= input@.len(),
            forall|j: int| 0 <= j < i ==> !stops(stop, #[trigger] input@[j]),
        decreases input@.len() - i,
    {
        i += 1;
    }
    proof {
        lemma_span_is(input@, stop, i as nat);
    }
    i
}

/// Splits off a run that ends inside the buffer and is not empty: gives what
/// follows the run, and the run.
fn split_run<'a>(input: &'a [u8], stop: Stop) -> (parts: Result<(&'a [u8], &'a [u8]), Failure>)
    ensures
        match run(input@, stop) {
            Ok(n) => {
                &&& parts is Ok
                &&& 0 < n < input@.len()
                &&& parts->Ok_0.0@ == input@.skip(n as int)
                &&& parts->Ok_0.1@ == input@.subrange(0, n as int)
            },
            Err(failure) => parts is Err && parts->Err_0 == failure,
        },
{
    let n = run_length(input, stop);
    if n == input.len() {
        Err(Failure::Incomplete)
    } else if n == 0 {
        Err(Failure::Malformed)
    } else {
        Ok((slice_subrange(input, n, input.len()), slice_subrange(input, 0, n)))
    }
}

/// Takes the fixed bytes `word` from the front of the input.
fn fixed<'a>(input: &'a [u8], word: &[u8]) -> (rest: Result<&'a [u8], Failure>)
    ensures
        match literal(input@, word@) {
            Ok(n) => rest is Ok && n == word@.len() <= input@.len() && rest->Ok_0@ == input@.skip(
                n as int,
            ),
            Err(failure) => rest is Err && rest->Err_0 == failure,
        },
{
    let mut i: usize = 0;
    while i < word.len() && i < input.len()
        invariant
            i <= word@.len(),
            i <= input@.len(),
            forall|j: int| 0 <= j < i ==> input@[j] == word@[j],
        decreases word@.len() - i,
    {
        if input[i] != word[i] {
            assert(differs(input@, word@));
            return Err(Failure::Malformed);
        }
        i += 1;
    }
    if input.len() < word.len() {
        Err(Failure::Incomplete)
    } else {
        Ok(slice_subrange(input, word.len(), input.len()))
    }
}

/// Skips whitespace: gives what follows it, and the whitespace.
pub fn whitespace<'a>(input: &'a [u8]) -> (parts: (&'a [u8], &'a [u8]))
    ensures
        parts.0@ == input@.skip(span(input@, Stop::Text) as int),
        parts.1@ == input@.take(span(input@, Stop::Text) as int),
{
    let n = run_length(input, Stop::Text);
    (slice_subrange(input, n, input.len()), slice_subrange(input, 0, n))
}

/// A comment: `//` and the rest of the line, which must not be empty.
pub fn comment<'a>(input: &'a [u8]) -> (result: Result<(&'a [u8], Token<'a>), Failure>)
    ensures
        agrees(result, input@, comment_token(input@)),
{
    let slashes: [u8; 2] = [SLASH, SLASH];
    assert(slashes@ =~= seq![SLASH, SLASH]);
    let input1 = fixed(input, slashes.as_slice())?;
    let (input2, raw) = split_run(input1, Stop::LineFeed)?;
    assert(raw@ =~= input@.subrange(2, 2 + raw@.len() as int));
    assert(input2@ =~= input@.skip(2 + raw@.len() as int));
    let text = string(raw)?;
    Ok((input2, Token::Comment(text)))
}

/// The opening brace of a group.
pub fn open<'a>(input: &'a [u8]) -> (result: Result<(&'a [u8], Token<'a>), Failure>)
    ensures
        agrees(result, input@, open_token(input@)),
{
    let brace: [u8; 1] = [OPEN_BRACE];
    assert(brace@ =~= seq![OPEN_BRACE]);
    let input1 = fixed(input, brace.as_slice())?;
    Ok((input1, Token::GroupStart))
}

/// The closing brace of a group.
pub fn close<'a>(input: &'a [u8]) -> (result: Result<(&'a [u8], Token<'a>), Failure>)
    ensures
        agrees(result, input@, close_token(input@)),
{
    let brace: [u8; 1] = [CLOSE_BRACE];
    assert(brace@ =~= seq![CLOSE_BRACE]);
    let input1 = fixed(input, brace.as_slice())?;
    Ok((input1, Token::GroupEnd))
}

/// Two quotes with nothing between them.
pub fn empty_item<'a>(input: &'a [u8]) -> (result: Result<(&'a [u8], Token<'a>), Failure>)
    ensures
        agrees(result, input@, empty_item_token(input@)),
{
    let quotes: [u8; 2] = [QUOTE, QUOTE];
    assert(quotes@ =~= seq![QUOTE, QUOTE]);
    let input1 = fixed(input, quotes.as_slice())?;
    proof {
        reveal_strlit("");
        assert(""@ =~= Seq::<char>::empty());
    }
    Ok((input1, Token::Item(Cow::Borrowed(""))))
}

/// A bare token: a statement if it can be read as one, else an item.
pub fn bare<'a>(input: &'a [u8]) -> (result: Result<(&'a [u8], Token<'a>), Failure>)
    ensures
        agrees(result, input@, bare_token(input@)),
{
    match bare_statement(input) {
        Err(Failure::Malformed) => bare_item(input),
        result => result,
    }
}

/// A bare statement: `#` and a run of bytes up to a delimiter.
pub fn bare_statement<'a>(input: &'a [u8]) -> (result: Result<(&'a [u8], Token<'a>), Failure>)
    ensures
        agrees(result, input@, bare_statement_token(input@)),
{
    let hash: [u8; 1] = [HASH];
    assert(hash@ =~= seq![HASH]);
    let input1 = fixed(input, hash.as_slice())?;
    let (input2, raw) = split_run(input1, Stop::Delimiter)?;
    assert(raw@ =~= input@.subrange(1, 1 + raw@.len() as int));
    assert(input2@ =~= input@.skip(1 + raw@.len() as int));
    let text = string(raw)?;
    Ok((input2, Token::Statement(text)))
}

/// A bare item: a run of bytes up to a delimiter.
pub fn bare_item<'a>(input: &'a [u8]) -> (result: Result<(&'a [u8], Token<'a>), Failure>)
    ensures
        agrees(result, input@, bare_item_token(input@)),
{
    let (input1, raw) = split_run(input, Stop::Delimiter)?;
    let text = string(raw)?;
    Ok((input1, Token::Item(text)))
}

/// A quoted token: a statement if it can be read as one, else an item.
pub fn enclosed<'a>(input: &'a [u8]) -> (result: Result<(&'a [u8], Token<'a>), Failure>)
    ensures
        agrees(result, input@, enclosed_token(input@)),
{
    match enclosed_statement(input) {
        Err(Failure::Malformed) => match enclosed_item(input) {
            Err(Failure::Malformed) => empty_item(input),
            result => result,
        },
        result => result,
    }
}

/// The content of a quoted token, the input being what follows the opening
/// quote: gives what follows the content, which starts with the closing
/// quote, and the content.
pub fn enclosed_content<'a>(input: &'a [u8]) -> (parts: Result<(&'a [u8], &'a [u8]), Failure>)
    ensures
        match enclosed_content_length(input@) {
            Ok(n) => {
                &&& parts is Ok
                &&& n < input@.len()
                &&& input@[n as int] == QUOTE
                &&& parts->Ok_0.0@ == input@.skip(n as int)
                &&& parts->Ok_0.1@ == input@.subrange(0, n as int)
            },
            Err(failure) => parts is Err && parts->Err_0 == failure,
        },
{
    let mut i: usize = 0;
    assert(input@.skip(0) =~= input@);
    while i < input.len()
        invariant
            i <= input@.len(),
            quoted_span(input@) == shift(quoted_span(input@.skip(i as int)), i as nat),
        decreases input@.len() - i,
    {
        let byte = input[i];
        proof {
            let rest = input@.skip(i as int);
            assert(rest[0] == byte);
            assert(rest.skip(1) =~= input@.skip(i + 1));
            if rest.len() >= 2 {
                assert(rest.skip(2) =~= input@.skip(i + 2));
            }
        }
        if byte == QUOTE {
            return Ok((slice_subrange(input, i, input.len()), slice_subrange(input, 0, i)));
        } else if byte != BACKSLASH {
            i += 1;
        } else if i + 1 == input.len() {
            return Err(Failure::Incomplete);
        } else {
            i += 2;
        }
    }
    Err(Failure::Incomplete)
}

/// A quoted statement: `"#`, the content and the closing quote.
pub fn enclosed_statement<'a>(input: &'a [u8]) -> (result: Result<(&'a [u8], Token<'a>), Failure>)
    ensures
        agrees(result, input@, enclosed_statement_token(input@)),
{
    let quote: [u8; 1] = [QUOTE];
    let hash: [u8; 1] = [HASH];
    assert(quote@ =~= seq![QUOTE]);
    assert(hash@ =~= seq![HASH]);
    let input1 = fixed(input, quote.as_slice())?;
    let input2 = fixed(input1, hash.as_slice())?;
    assert(input2@ =~= input@.skip(2));
    let (input3, raw) = enclosed_content(input2)?;
    assert(!differs(input3@, quote@)) by {
        assert(input3@[0] == QUOTE);
    }
    let input4 = fixed(input3, quote.as_slice())?;
    assert(raw@ =~= input@.subrange(2, 2 + raw@.len() as int));
    assert(input4@ =~= input@.skip(3 + raw@.len() as int));
    let text = string(raw)?;
    Ok((input4, Token::Statement(text)))
}

/// A quoted item: `"`, the content and the closing quote.
pub fn enclosed_item<'a>(input: &'a [u8]) -> (result: Result<(&'a [u8], Token<'a>), Failure>)
    ensures
        agrees(result, input@, enclosed_item_token(input@)),
{
    let quote: [u8; 1] = [QUOTE];
    assert(quote@ =~= seq![QUOTE]);
    let input1 = fixed(input, quote.as_slice())?;
    let (input2, raw) = enclosed_content(input1)?;
    assert(!differs(input2@, quote@)) by {
        assert(input2@[0] == QUOTE);
    }
    let input3 = fixed(input2, quote.as_slice())?;
    assert(raw@ =~= input@.subrange(1, 1 + raw@.len() as int));
    assert(input3@ =~= input@.skip(2 + raw@.len() as int));
    let text = string(raw)?;
    Ok((input3, Token::Item(text)))
}

/// The next token of the input, with the whitespace around it skipped. The
/// kinds are tried in the order comment, opening brace, closing brace, bare
/// token, quoted token.
pub fn next<'a>(input: &'a [u8]) -> (result: Result<(&'a [u8], Token<'a>), Failure>)
    ensures
        agrees(result, input@, next_token(input@)),
{
    proof {
        reveal(next_token);
    }
    let (input1, _) = whitespace(input);
    let found = match comment(input1) {
        Err(Failure::Malformed) => match open(input1) {
            Err(Failure::Malformed) => match close(input1) {
                Err(Failure::Malformed) => match bare(input1) {
                    Err(Failure::Malformed) => enclosed(input1),
                    result => result,
                },
                result => result,
            },
            result => result,
        },
        result => result,
    };
    let (input2, token) = found?;
    let (input3, _) = whitespace(input2);
    proof {
        reveal(next_token);
        let before = span(input@, Stop::Text);
        lemma_span(input@, Stop::Text);
        lemma_span(input2@, Stop::Text);
        let used = plain_token(input1@)->Ok_0.0;
        assert(input2@ =~= input@.skip((before + used) as int));
        assert(input3@ =~= input@.skip(
            (before + used + span(input@.skip((before + used) as int), Stop::Text)) as int,
        ));
    }
    Ok((input3, token))
}

/// Decodes the raw text of a token: resolves its escape sequences, if it has
/// any, and checks that the result is UTF-8. Text without a backslash is
/// borrowed from the buffer.
pub fn string<'a>(buffer: &'a [u8]) -> (text: Result<Cow<'a, str>, Failure>)
    ensures
        match text_of(buffer@) {
            Some(chars) => text is Ok && text->Ok_0@ == chars,
            None => text == Err::<Cow<'a, str>, Failure>(Failure::Malformed),
        },
        text matches Ok(decoded) ==> (decoded matches Cow::Borrowed(_) <==> forall|i: int|
            0 <= i < buffer@.len() ==> buffer@[i] != BACKSLASH),
{
    if has_escape(buffer) {
        let mut bytes: Vec<u8> = Vec::with_capacity(buffer.len());
        let mut i: usize = 0;
        assert(buffer@.skip(0) =~= buffer@);
        assert(bytes@ + unescape(buffer@) =~= unescape(buffer@));
        while i < buffer.len()
            invariant
                i <= buffer@.len(),
                unescape(buffer@) == bytes@ + unescape(buffer@.skip(i as int)),
            decreases buffer@.len() - i,
        {
            let byte = buffer[i];
            proof {
                let rest = buffer@.skip(i as int);
                assert(rest[0] == byte);
                assert(rest.skip(1) =~= buffer@.skip(i + 1));
                if rest.len() >= 2 {
                    assert(rest[1] == buffer@[i + 1]);
                    assert(rest.skip(2) =~= buffer@.skip(i + 2));
                }
            }
            if byte != BACKSLASH {
                bytes.push(byte);
                i += 1;
            } else if i + 1 == buffer.len() {
                i += 1;
            } else {
                let escaped = buffer[i + 1];
                if escaped == BACKSLASH {
                    bytes.push(BACKSLASH);
                } else if escaped == LETTER_N {
                    bytes.push(LINE_FEED);
                } else if escaped == LETTER_T {
                    bytes.push(TAB);
                } else if escaped == LETTER_R {
                    bytes.push(CARRIAGE_RETURN);
                } else if escaped == QUOTE {
                    bytes.push(QUOTE);
                } else {
                    bytes.push(BACKSLASH);
                    bytes.push(escaped);
                }
                i += 2;
            }
            assert(unescape(buffer@) =~= bytes@ + unescape(buffer@.skip(i as int)));
        }
        assert(bytes@ =~= unescape(buffer@));
        match string_from_utf8(bytes) {
            Some(owned) => {
                proof {
                    vstd::utf8::encode_utf8_decode_utf8(owned@);
                }
                Ok(Cow::Owned(owned))
            },
            None => Err(Failure::Malformed),
        }
    } else {
        proof {
            lemma_unescape_plain(buffer@);
        }
        match str_from_utf8(buffer) {
            Some(borrowed) => {
                proof {
                    vstd::utf8::encode_utf8_decode_utf8(borrowed@);
                }
                Ok(Cow::Borrowed(borrowed))
            },
            None => Err(Failure::Malformed),
        }
    }
}

} // verus!
