//! The event layer: pairs the tokens of a buffer into entries and group
//! boundaries, and leaves the comments out.

use crate::error::Error;
use crate::grammar::{self, next_token, span, Failure, Lexeme, Stop};
use crate::parser::{self, Token};
use std::borrow::Cow;
use std::ops::Deref;
use vstd::prelude::*;

verus! {

/// Kinds of item.
#[derive(Clone, PartialEq, Eq, Debug)]
pub enum Item {
    /// A statement, the ones starting with #.
    Statement(String),
    /// A value.
    Value(String),
}

/// An item as a mathematical value: its kind and its text.
pub ghost enum ItemView {
    Statement(Seq<char>),
    Value(Seq<char>),
}

impl ItemView {
    /// The text, whatever the kind.
    pub open spec fn text(self) -> Seq<char> {
        match self {
            ItemView::Statement(text) => text,
            ItemView::Value(text) => text,
        }
    }
}

impl View for Item {
    type V = ItemView;

    open spec fn view(&self) -> ItemView {
        match self {
            Item::Statement(text) => ItemView::Statement(text@),
            Item::Value(text) => ItemView::Value(text@),
        }
    }
}

impl From<Item> for String {
    fn from(item: Item) -> (text: String) {
        match item {
            Item::Statement(text) => text,
            Item::Value(text) => text,
        }
    }
}

impl vstd::std_specs::convert::FromSpecImpl<Item> for String {
    open spec fn obeys_from_spec() -> bool {
        true
    }

    open spec fn from_spec(item: Item) -> String {
        match item {
            Item::Statement(text) => text,
            Item::Value(text) => text,
        }
    }
}

impl Deref for Item {
    type Target = str;

    fn deref(&self) -> (text: &str)
        ensures
            text@ == self@.text(),
    {
        match self {
            Item::Statement(text) => text.as_str(),
            Item::Value(text) => text.as_str(),
        }
    }
}

/// Reader event.
#[derive(Clone, PartialEq, Eq, Debug)]
pub enum Event {
    /// A group with the given name is starting.
    GroupStart(String),
    /// A group has ended.
    GroupEnd,
    /// An entry.
    Entry(Item, Item),
    /// EOF has been reached.
    End,
}

/// An event as a mathematical value.
pub ghost enum EventView {
    GroupStart(Seq<char>),
    GroupEnd,
    Entry(ItemView, ItemView),
    End,
}

impl View for Event {
    type V = EventView;

    open spec fn view(&self) -> EventView {
        match self {
            Event::GroupStart(name) => EventView::GroupStart(name@),
            Event::GroupEnd => EventView::GroupEnd,
            Event::Entry(key, value) => EventView::Entry(key@, value@),
            Event::End => EventView::End,
        }
    }
}

/// Whether `s` holds nothing but whitespace.
pub open spec fn blank(s: Seq<u8>) -> bool {
    span(s, Stop::Text) == s.len()
}

/// The first token of `s` that is no comment: the number of bytes read, the
/// comments in front of it included, and the token or the failure that ended
/// the search. The bytes of a token that failed are not read.
pub open spec fn non_comment(s: Seq<u8>) -> (nat, Result<Lexeme, Failure>)
    decreases s.len(),
    via non_comment_decreases
{
    match next_token(s) {
        Err(failure) => (0, Err(failure)),
        Ok((used, Lexeme::Comment(_))) => {
            let (more, found) = non_comment(s.skip(used as int));
            (used + more, found)
        },
        Ok((used, lexeme)) => (used, Ok(lexeme)),
    }
}

#[via_fn]
proof fn non_comment_decreases(s: Seq<u8>) {
    grammar::lemma_next_token_advances(s);
}

/// The text of a key or a value token.
pub open spec fn item_of(lexeme: Lexeme) -> Option<ItemView> {
    match lexeme {
        Lexeme::Item(text) => Some(ItemView::Value(text)),
        Lexeme::Statement(text) => Some(ItemView::Statement(text)),
        _ => None,
    }
}

/// What the end of the buffer means where a token was looked for in `s`: the
/// end of the document if nothing but whitespace is left, a failure if the
/// buffer ends inside a token.
pub open spec fn at_end(s: Seq<u8>) -> Result<EventView, Error> {
    if blank(s) {
        Ok(EventView::End)
    } else {
        Err(Error::Eof)
    }
}

/// The next event of `s`: the number of bytes read and the event or the
/// failure.
///
/// The first token that is no comment is the key. A closing brace in its
/// place ends a group; an opening brace there has no name and is refused. The
/// token after the key decides: an opening brace starts the group that the
/// key names, an item or a statement is the key's value, a closing brace is
/// refused.
pub open spec fn event_of(s: Seq<u8>) -> (nat, Result<EventView, Error>) {
    let (used, first) = non_comment(s);
    match first {
        Err(Failure::Incomplete) => (used, at_end(s.skip(used as int))),
        Err(Failure::Malformed) => (used, Err(Error::Parse)),
        Ok(Lexeme::GroupEnd) => (used, Ok(EventView::GroupEnd)),
        Ok(lexeme) => match item_of(lexeme) {
            None => (used, Err(Error::Parse)),
            Some(key) => {
                let (more, second) = non_comment(s.skip(used as int));
                let result = match second {
                    Err(Failure::Incomplete) => at_end(s.skip((used + more) as int)),
                    Err(Failure::Malformed) => Err(Error::Parse),
                    Ok(Lexeme::GroupStart) => Ok(EventView::GroupStart(key.text())),
                    Ok(lexeme) => match item_of(lexeme) {
                        None => Err(Error::Parse),
                        Some(value) => Ok(EventView::Entry(key, value)),
                    },
                };
                (used + more, result)
            },
        },
    }
}

/// No comment comes out of [`non_comment`], and it reads no more than there
/// is.
pub proof fn lemma_non_comment(s: Seq<u8>)
    ensures
        non_comment(s).0 <= s.len(),
        !(non_comment(s).1 matches Ok(Lexeme::Comment(_))),
        non_comment(s).1 is Ok ==> non_comment(s).0 > 0,
    decreases s.len(),
{
    grammar::lemma_next_token_advances(s);
    if let Ok((used, Lexeme::Comment(_))) = next_token(s) {
        lemma_non_comment(s.skip(used as int));
    }
}

/// The text of a token as a string of its own.
fn into_owned(text: Cow<'_, str>) -> (owned: String)
    ensures
        owned@ == text@,
{
    match text {
        Cow::Borrowed(borrowed) => borrowed.to_owned(),
        Cow::Owned(owned) => owned,
    }
}

/// A VDF token reader.
pub struct Reader<'a> {
    buffer: &'a [u8],
    finished: bool,
}

impl<'a> From<&'a [u8]> for Reader<'a> {
    /// A reader at the start of `buffer`.
    fn from(buffer: &'a [u8]) -> (reader: Self)
        ensures
            reader.unread() == buffer@,
            !reader.finished(),
    {
        Reader { buffer, finished: false }
    }
}

impl<'a> vstd::std_specs::convert::FromSpecImpl<&'a [u8]> for Reader<'a> {
    open spec fn obeys_from_spec() -> bool {
        true
    }

    closed spec fn from_spec(buffer: &'a [u8]) -> Self {
        Reader { buffer, finished: false }
    }
}

impl<'a> Reader<'a> {
    /// The bytes that have not been read yet.
    pub closed spec fn unread(&self) -> Seq<u8> {
        self.buffer@
    }

    /// Whether the sequence of events has come to its end.
    pub closed spec fn finished(&self) -> bool {
        self.finished
    }

    /// Get the next parser token without doing any copies. A token that
    /// fails is not read: the reader stays where it was.
    pub fn token(&mut self) -> (result: Result<Token<'a>, Error>)
        ensures
            final(self).finished() == old(self).finished(),
            match next_token(old(self).unread()) {
                Ok((used, lexeme)) => {
                    &&& result is Ok
                    &&& result->Ok_0@ == lexeme
                    &&& final(self).unread() == old(self).unread().skip(used as int)
                },
                Err(failure) => {
                    &&& result is Err
                    &&& result->Err_0 == (match failure {
                        Failure::Incomplete => Error::Eof,
                        Failure::Malformed => Error::Parse,
                    })
                    &&& final(self).unread() == old(self).unread()
                },
            },
    {
        match parser::next(self.buffer) {
            Ok((remaining, token)) => {
                self.buffer = remaining;
                Ok(token)
            },
            Err(Failure::Incomplete) => Err(Error::Eof),
            Err(Failure::Malformed) => Err(Error::Parse),
        }
    }

    /// Get the next token that is no comment.
    pub fn non_comment_token(&mut self) -> (result: Result<Token<'a>, Error>)
        ensures
            final(self).finished() == old(self).finished(),
            final(self).unread() == old(self).unread().skip(
                non_comment(old(self).unread()).0 as int,
            ),
            match non_comment(old(self).unread()).1 {
                Ok(lexeme) => result is Ok && result->Ok_0@ == lexeme,
                Err(failure) => {
                    &&& result is Err
                    &&& result->Err_0 == (match failure {
                        Failure::Incomplete => Error::Eof,
                        Failure::Malformed => Error::Parse,
                    })
                },
            },
    {
        let ghost start = self.unread();
        let ghost read: nat = 0;
        assert(start.skip(0) =~= start);
        loop
            invariant
                self.finished() == old(self).finished(),
                start == old(self).unread(),
                read <= start.len(),
                self.unread() == start.skip(read as int),
                non_comment(start) == (
                    read + non_comment(self.unread()).0,
                    non_comment(self.unread()).1,
                ),
            decreases self.unread().len(),
        {
            let ghost here = self.unread();
            proof {
                grammar::lemma_next_token_advances(here);
            }
            match self.token() {
                Err(error) => {
                    return Err(error);
                },
                Ok(Token::Comment(_)) => {
                    proof {
                        let used = next_token(here)->Ok_0.0;
                        assert(start.skip(read as int).skip(used as int) =~= start.skip(
                            (read + used) as int,
                        ));
                        read = read + used;
                    }
                },
                Ok(token) => {
                    proof {
                        let used = next_token(here)->Ok_0.0;
                        assert(start.skip(read as int).skip(used as int) =~= start.skip(
                            (read + used) as int,
                        ));
                    }
                    return Ok(token);
                },
            }
        }
    }

    /// What the end of the buffer means at the place where the reader
    /// stands.
    fn end(&self) -> (result: Result<Event, Error>)
        ensures
            match at_end(self.unread()) {
                Ok(event) => result is Ok && result->Ok_0@ == event,
                Err(error) => result is Err && result->Err_0 == error,
            },
    {
        let (rest, _) = parser::whitespace(self.buffer);
        proof {
            grammar::lemma_span(self.buffer@, Stop::Text);
        }
        if rest.len() == 0 {
            Ok(Event::End)
        } else {
            Err(Error::Eof)
        }
    }

    /// Get the next event, this does copies.
    ///
    /// The end of the buffer is the end of the document where a key or the
    /// token after a key was to start; inside a token it is a failure.
    pub fn event(&mut self) -> (result: Result<Event, Error>)
        ensures
            final(self).finished() == old(self).finished(),
            final(self).unread() == old(self).unread().skip(event_of(old(self).unread()).0 as int),
            match event_of(old(self).unread()).1 {
                Ok(event) => result is Ok && result->Ok_0@ == event,
                Err(error) => result is Err && result->Err_0 == error,
            },
    {
        let ghost start = self.unread();
        proof {
            lemma_non_comment(start);
            lemma_non_comment(start.skip(non_comment(start).0 as int));
            assert(start.skip(non_comment(start).0 as int).skip(
                non_comment(start.skip(non_comment(start).0 as int)).0 as int,
            ) =~= start.skip(
                (non_comment(start).0 + non_comment(start.skip(non_comment(start).0 as int)).0) as int,
            ));
        }
        let key = match self.non_comment_token() {
            Err(Error::Eof) => {
                return self.end();
            },
            Err(error) => {
                return Err(error);
            },
            Ok(Token::GroupEnd) => {
                return Ok(Event::GroupEnd);
            },
            Ok(Token::GroupStart) => {
                return Err(Error::Parse);
            },
            Ok(Token::Item(text)) => Item::Value(into_owned(text)),
            Ok(Token::Statement(text)) => Item::Statement(into_owned(text)),
            Ok(Token::Comment(_)) => vstd::pervasive::unreached(),
        };
        let value = match self.non_comment_token() {
            Err(Error::Eof) => {
                return self.end();
            },
            Err(error) => {
                return Err(error);
            },
            Ok(Token::GroupEnd) => {
                return Err(Error::Parse);
            },
            Ok(Token::GroupStart) => {
                return Ok(Event::GroupStart(key.into()));
            },
            Ok(Token::Item(text)) => Item::Value(into_owned(text)),
            Ok(Token::Statement(text)) => Item::Statement(into_owned(text)),
            Ok(Token::Comment(_)) => vstd::pervasive::unreached(),
        };
        Ok(Event::Entry(key, value))
    }

    /// The next event of the sequence of events, or `None` where the sequence
    /// has ended: at the end of the document and at the first failure. Once
    /// it has ended it stays so, and the reader reads no further.
    pub fn next(&mut self) -> (event: Option<Event>)
        ensures
            final(self).unread() == old(self).unread().skip(
                next_event(old(self).finished(), old(self).unread()).0 as int,
            ),
            final(self).finished() == (event is None),
            match next_event(old(self).finished(), old(self).unread()).1 {
                Some(found) => event is Some && event->0@ == found,
                None => event is None,
            },
    {
        if self.finished {
            assert(self.unread().skip(0) =~= self.unread());
            return None;
        }
        match self.event() {
            Ok(Event::End) => {
                self.finished = true;
                None
            },
            Ok(event) => Some(event),
            Err(_) => {
                self.finished = true;
                None
            },
        }
    }
}

/// The next event of a sequence of events over the unread bytes `s`, with
/// the number of bytes read for it. There is none where the sequence has
/// ended before, where it ends with the document and where it ends with a
/// failure; one that has ended before reads nothing.
pub open spec fn next_event(finished: bool, s: Seq<u8>) -> (nat, Option<EventView>) {
    if finished {
        (0, None)
    } else {
        match event_of(s).1 {
            Ok(EventView::End) => (event_of(s).0, None),
            Ok(event) => (event_of(s).0, Some(event)),
            Err(_) => (event_of(s).0, None),
        }
    }
}

} // verus!
