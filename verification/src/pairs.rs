//! Documents of pairs of key and value, written one pair to a line with both
//! texts between quotes and escaped: what the reader and the assembly make
//! of them.

use crate::assemble::{
    distinct_keys, document, ending, entry_events, events, leaves, lemma_event_advances,
    theorem_pairs,
};
use crate::entry::Tree;
use crate::error::Error;
use crate::grammar::{is_space, lemma_span_is, next_token, Stop, LINE_FEED, QUOTE, SPACE};
use crate::quoting::{escape, quoted, theorem_escaped_text};
use crate::reader::{event_of, EventView, ItemView};
use vstd::prelude::*;
use vstd::utf8::encode_utf8;

verus! {

/// Whether `text` can be written as an item: a text that starts with `#`
/// would be read as a statement.
pub open spec fn writable(text: Seq<char>) -> bool {
    text.len() > 0 ==> text[0] != '#'
}

/// A text as an item: escaped and between quotes.
pub open spec fn written(text: Seq<char>) -> Seq<u8> {
    quoted(escape(encode_utf8(text)))
}

/// A pair as a line: key, space, value, line feed.
pub open spec fn line(key: Seq<char>, value: Seq<char>) -> Seq<u8> {
    written(key) + seq![SPACE] + written(value) + seq![LINE_FEED]
}

/// The pairs as a document, one line each.
pub open spec fn lines(pairs: Seq<(Seq<char>, Seq<char>)>) -> Seq<u8>
    decreases pairs.len(),
{
    if pairs.len() == 0 {
        seq![]
    } else {
        line(pairs[0].0, pairs[0].1) + lines(pairs.drop_first())
    }
}

/// The pairs as items: each key and each value an ordinary value.
pub open spec fn values(pairs: Seq<(Seq<char>, Seq<char>)>) -> Seq<(ItemView, ItemView)> {
    Seq::new(pairs.len(), |i: int| (ItemView::Value(pairs[i].0), ItemView::Value(pairs[i].1)))
}

/// Whether every key and every value can be written as an item.
pub open spec fn all_writable(pairs: Seq<(Seq<char>, Seq<char>)>) -> bool {
    forall|i: int|
        0 <= i < pairs.len() ==> writable((#[trigger] pairs[i]).0) && writable(pairs[i].1)
}

/// The line of a pair is read as the entry of that pair, and the whole line
/// is read for it, if no whitespace follows the line.
pub proof fn lemma_line_event(key: Seq<char>, value: Seq<char>, rest: Seq<u8>)
    requires
        writable(key),
        writable(value),
        rest.len() > 0 ==> !is_space(rest[0]),
    ensures
        event_of(line(key, value) + rest) == (
            line(key, value).len(),
            Ok::<EventView, Error>(
                EventView::Entry(ItemView::Value(key), ItemView::Value(value)),
            ),
        ),
{
    let s = line(key, value) + rest;
    let after_value = seq![LINE_FEED] + rest;
    let after_key = seq![SPACE] + written(value) + after_value;
    assert(s =~= written(key) + after_key);
    assert(after_key[1] == QUOTE);
    lemma_span_is(after_key, Stop::Text, 1);
    theorem_escaped_text(key, after_key);
    let used = written(key).len() + 1;
    assert(s.skip(used as int) =~= written(value) + after_value);
    lemma_span_is(after_value, Stop::Text, 1);
    theorem_escaped_text(value, after_value);
}

/// The empty document ends at once.
pub proof fn lemma_empty_document(s: Seq<u8>)
    requires
        s.len() == 0,
    ensures
        event_of(s) == (0nat, Ok::<EventView, Error>(EventView::End)),
{
    reveal(next_token);
    assert(s.skip(0) =~= s);
}

/// A document of lines starts with a quote or is empty.
pub proof fn lemma_lines_start(pairs: Seq<(Seq<char>, Seq<char>)>)
    ensures
        lines(pairs).len() > 0 ==> lines(pairs)[0] == QUOTE,
{
    if pairs.len() > 0 {
        assert(lines(pairs)[0] == written(pairs[0].0)[0]);
    }
}

/// The events of a document of lines are the entries of its pairs, and they
/// end with the document.
pub proof fn lemma_lines_events(pairs: Seq<(Seq<char>, Seq<char>)>)
    requires
        all_writable(pairs),
    ensures
        events(lines(pairs)) == entry_events(values(pairs)),
        ending(lines(pairs)) is None,
    decreases pairs.len(),
{
    let s = lines(pairs);
    if pairs.len() == 0 {
        lemma_empty_document(s);
        assert(entry_events(values(pairs)) =~= Seq::<EventView>::empty());
    } else {
        let rest = pairs.drop_first();
        let first = line(pairs[0].0, pairs[0].1);
        lemma_lines_start(rest);
        lemma_line_event(pairs[0].0, pairs[0].1, lines(rest));
        assert(s.skip(first.len() as int) =~= lines(rest));
        assert(all_writable(rest)) by {
            assert forall|i: int| 0 <= i < rest.len() implies writable((#[trigger] rest[i]).0)
                && writable(rest[i].1) by {
                assert(rest[i] == pairs[i + 1]);
            }
        }
        lemma_lines_events(rest);
        let event = EventView::Entry(ItemView::Value(pairs[0].0), ItemView::Value(pairs[0].1));
        assert(entry_events(values(pairs)) =~= seq![event] + entry_events(values(rest)));
    }
}

/// A document of pairs of key and value, each key of its own, has the tree
/// whose root holds exactly these keys, and under each the value of its pair
/// as a leaf: the texts come back as they were written, in whatever order
/// the pairs stand.
pub proof fn theorem_document_of_pairs(pairs: Seq<(Seq<char>, Seq<char>)>)
    requires
        all_writable(pairs),
        forall|i: int, j: int|
            0 <= i < j < pairs.len() ==> (#[trigger] pairs[i]).0 != (#[trigger] pairs[j]).0,
    ensures
        document(lines(pairs)) matches Ok(Tree::Table(entries)) && {
            &&& forall|key: Seq<char>| #[trigger]
                entries.contains_key(key) <==> exists|i: int|
                    0 <= i < pairs.len() && (#[trigger] pairs[i]).0 == key
            &&& forall|i: int|
                0 <= i < pairs.len() ==> entries[(#[trigger] pairs[i]).0] == Tree::Leaf(
                    pairs[i].1,
                )
        },
{
    let items = values(pairs);
    lemma_lines_events(pairs);
    assert(distinct_keys(items)) by {
        assert forall|i: int, j: int| 0 <= i < j < items.len() implies (#[trigger] items[i]).0.text()
            != (#[trigger] items[j]).0.text() by {
            assert(items[i].0.text() == pairs[i].0);
            assert(items[j].0.text() == pairs[j].0);
        }
    }
    theorem_pairs(lines(pairs), items);
    let entries = leaves(items);
    assert forall|key: Seq<char>| #[trigger]
        entries.contains_key(key) <==> exists|i: int|
            0 <= i < pairs.len() && (#[trigger] pairs[i]).0 == key by {
        if entries.contains_key(key) {
            let i = choose|i: int| 0 <= i < items.len() && (#[trigger] items[i]).0.text() == key;
            assert(pairs[i].0 == key);
        }
        if exists|i: int| 0 <= i < pairs.len() && (#[trigger] pairs[i]).0 == key {
            let i = choose|i: int| 0 <= i < pairs.len() && (#[trigger] pairs[i]).0 == key;
            assert(items[i].0.text() == key);
        }
    }
    assert forall|i: int| 0 <= i < pairs.len() implies entries[(#[trigger] pairs[i]).0]
        == Tree::Leaf(pairs[i].1) by {
        assert(items[i].0.text() == pairs[i].0);
        assert(items[i].1.text() == pairs[i].1);
    }
}

} // verus!
