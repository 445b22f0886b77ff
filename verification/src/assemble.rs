//! The assembly of a document's events into its tree.
//!
//! The groups that are open form a stack, the root at its bottom. An entry
//! goes into the group on top, a group that ends goes into the one below it
//! under its name, and at the end of the document the groups still open are
//! closed in turn.

use crate::entry::{inserted, Entry, Table, Tree};
use crate::error::Error;
use crate::reader::{
    event_of, lemma_non_comment, non_comment, Event, EventView, ItemView, Reader,
};
use vstd::prelude::*;

verus! {

/// A group that is open: its name and the entries it has so far.
pub ghost struct Frame {
    pub name: Seq<char>,
    pub entries: Map<Seq<char>, Tree>,
}

/// The stack at the start of a document: the root alone, without entries.
pub open spec fn root() -> Seq<Frame> {
    seq![Frame { name: seq![], entries: Map::empty() }]
}

/// The stack with `value` put under `key` in the group on top.
pub open spec fn put(stack: Seq<Frame>, key: Seq<char>, value: Tree) -> Seq<Frame>
    recommends
        stack.len() >= 1,
{
    stack.drop_last().push(
        Frame { name: stack.last().name, entries: inserted(stack.last().entries, key, value) },
    )
}

/// The stack with the group on top closed: it goes into the group below it,
/// under its name.
pub open spec fn close(stack: Seq<Frame>) -> Seq<Frame>
    recommends
        stack.len() >= 2,
{
    put(stack.drop_last(), stack.last().name, Tree::Table(stack.last().entries))
}

/// The root once every group that is still open has been closed.
pub open spec fn close_all(stack: Seq<Frame>) -> Tree
    recommends
        stack.len() >= 1,
    decreases stack.len(),
{
    if stack.len() <= 1 {
        Tree::Table(stack[0].entries)
    } else {
        close_all(close(stack))
    }
}

/// The stack after an event; `None` for the end of a group where none but
/// the root is open.
pub open spec fn step(stack: Seq<Frame>, event: EventView) -> Option<Seq<Frame>> {
    match event {
        EventView::Entry(key, value) => Some(put(stack, key.text(), Tree::Leaf(value.text()))),
        EventView::GroupStart(name) => Some(stack.push(Frame { name, entries: Map::empty() })),
        EventView::GroupEnd => if stack.len() <= 1 {
            None
        } else {
            Some(close(stack))
        },
        EventView::End => Some(stack),
    }
}

/// An event that is not the end of the document has read at least one byte,
/// and no event reads more than there is.
pub proof fn lemma_event_advances(s: Seq<u8>)
    ensures
        event_of(s).0 <= s.len(),
        event_of(s).1 is Ok && event_of(s).1 != Ok::<EventView, Error>(EventView::End)
            ==> event_of(s).0 > 0,
{
    lemma_non_comment(s);
    lemma_non_comment(s.skip(non_comment(s).0 as int));
}

/// The tree of the document `s`, read with the groups of `stack` open: the
/// number of bytes read, and the tree or the failure. The first failure ends
/// the reading: one of the reader, or the end of a group where none but the
/// root is open.
pub open spec fn assemble(s: Seq<u8>, stack: Seq<Frame>) -> (nat, Result<Tree, Error>)
    decreases s.len(),
    via assemble_decreases
{
    let (used, event) = event_of(s);
    match event {
        Err(error) => (used, Err(error)),
        Ok(EventView::End) => (used, Ok(close_all(stack))),
        Ok(event) => match step(stack, event) {
            None => (used, Err(Error::Parse)),
            Some(next) => {
                let (more, result) = assemble(s.skip(used as int), next);
                (used + more, result)
            },
        },
    }
}

#[via_fn]
proof fn assemble_decreases(s: Seq<u8>, stack: Seq<Frame>) {
    lemma_event_advances(s);
}

/// The tree of the document `s`, or why it has none.
pub open spec fn document(s: Seq<u8>) -> Result<Tree, Error> {
    assemble(s, root()).1
}

/// The events of the document `s` in front of its end or its first failure.
pub open spec fn events(s: Seq<u8>) -> Seq<EventView>
    decreases s.len(),
    via events_decreases
{
    match event_of(s).1 {
        Err(_) => seq![],
        Ok(EventView::End) => seq![],
        Ok(event) => seq![event] + events(s.skip(event_of(s).0 as int)),
    }
}

#[via_fn]
proof fn events_decreases(s: Seq<u8>) {
    lemma_event_advances(s);
}

/// The failure that ends the events of the document `s`; `None` where they
/// end with the document.
pub open spec fn ending(s: Seq<u8>) -> Option<Error>
    decreases s.len(),
    via ending_decreases
{
    match event_of(s).1 {
        Err(error) => Some(error),
        Ok(EventView::End) => None,
        Ok(_) => ending(s.skip(event_of(s).0 as int)),
    }
}

#[via_fn]
proof fn ending_decreases(s: Seq<u8>) {
    lemma_event_advances(s);
}

/// The stack after the events, one after the other; `None` where a group
/// ends that was not open.
pub open spec fn run(stack: Seq<Frame>, events: Seq<EventView>) -> Option<Seq<Frame>>
    decreases events.len(),
{
    if events.len() == 0 {
        Some(stack)
    } else {
        match step(stack, events[0]) {
            None => None,
            Some(next) => run(next, events.drop_first()),
        }
    }
}

/// The number of groups that are open after the events, `open` of them
/// being open before; `None` where a group ends that was not open.
pub open spec fn depth(open: nat, events: Seq<EventView>) -> Option<nat>
    decreases events.len(),
{
    if events.len() == 0 {
        Some(open)
    } else {
        match events[0] {
            EventView::GroupStart(_) => depth(open + 1, events.drop_first()),
            EventView::GroupEnd => if open == 0 {
                None
            } else {
                depth((open - 1) as nat, events.drop_first())
            },
            _ => depth(open, events.drop_first()),
        }
    }
}

/// The tree of a document is made of its events alone: of the stack that
/// they leave, if no group ends among them that was not open and no failure
/// ends them.
pub proof fn lemma_assemble_events(s: Seq<u8>, stack: Seq<Frame>)
    ensures
        assemble(s, stack).1 == (match run(stack, events(s)) {
            None => Err::<Tree, Error>(Error::Parse),
            Some(open) => match ending(s) {
                Some(error) => Err(error),
                None => Ok(close_all(open)),
            },
        }),
    decreases s.len(),
{
    lemma_event_advances(s);
    match event_of(s).1 {
        Err(_) => {},
        Ok(EventView::End) => {},
        Ok(event) => {
            let rest = s.skip(event_of(s).0 as int);
            assert((seq![event] + events(rest)).drop_first() =~= events(rest));
            match step(stack, event) {
                None => {},
                Some(next) => {
                    lemma_assemble_events(rest, next);
                },
            }
        },
    }
}

/// The events leave a stack exactly when no group ends among them that was
/// not open, and the stack then has the depth that they leave.
pub proof fn lemma_run_depth(stack: Seq<Frame>, events: Seq<EventView>)
    requires
        stack.len() >= 1,
    ensures
        run(stack, events) is None <==> depth((stack.len() - 1) as nat, events) is None,
        run(stack, events) matches Some(open) ==> open.len() == depth(
            (stack.len() - 1) as nat,
            events,
        )->0 + 1,
    decreases events.len(),
{
    if events.len() > 0 {
        match step(stack, events[0]) {
            None => {},
            Some(next) => {
                lemma_run_depth(next, events.drop_first());
            },
        }
    }
}

/// The events of one part and then those of another leave what the second
/// part makes of what the first has left.
pub proof fn lemma_run_concat(stack: Seq<Frame>, first: Seq<EventView>, second: Seq<EventView>)
    ensures
        run(stack, first + second) == (match run(stack, first) {
            None => None,
            Some(next) => run(next, second),
        }),
    decreases first.len(),
{
    if first.len() == 0 {
        assert(first + second =~= second);
    } else {
        assert((first + second)[0] == first[0]);
        assert((first + second).drop_first() =~= first.drop_first() + second);
        match step(stack, first[0]) {
            None => {},
            Some(next) => {
                lemma_run_concat(next, first.drop_first(), second);
            },
        }
    }
}

/// A document in which a group ends that was not open has no tree: it is a
/// parse failure, whatever stands in front of that place and behind it.
pub proof fn theorem_unbalanced_closer(s: Seq<u8>)
    requires
        depth(0, events(s)) is None,
    ensures
        document(s) == Err::<Tree, Error>(Error::Parse),
{
    lemma_assemble_events(s, root());
    lemma_run_depth(root(), events(s));
}

/// The entries that the pairs of key and value stand for, as events.
pub open spec fn entry_events(pairs: Seq<(ItemView, ItemView)>) -> Seq<EventView> {
    Seq::new(pairs.len(), |i: int| EventView::Entry(pairs[i].0, pairs[i].1))
}

/// The group whose entries are the pairs, each value a leaf under its key.
pub open spec fn leaves(pairs: Seq<(ItemView, ItemView)>) -> Map<Seq<char>, Tree>
    decreases pairs.len(),
{
    if pairs.len() == 0 {
        Map::empty()
    } else {
        leaves(pairs.drop_last()).insert(pairs.last().0.text(), Tree::Leaf(pairs.last().1.text()))
    }
}

/// Whether no two of the pairs have the same key.
pub open spec fn distinct_keys(pairs: Seq<(ItemView, ItemView)>) -> bool {
    forall|i: int, j: int|
        0 <= i < j < pairs.len() ==> (#[trigger] pairs[i]).0.text() != (#[trigger] pairs[j]).0.text()
}

/// What [`leaves`] holds: the keys of the pairs and no others, and under
/// each key the value of its pair.
pub proof fn lemma_leaves(pairs: Seq<(ItemView, ItemView)>)
    requires
        distinct_keys(pairs),
    ensures
        forall|key: Seq<char>| #[trigger]
            leaves(pairs).contains_key(key) <==> exists|i: int|
                0 <= i < pairs.len() && (#[trigger] pairs[i]).0.text() == key,
        forall|i: int|
            0 <= i < pairs.len() ==> leaves(pairs)[(#[trigger] pairs[i]).0.text()] == Tree::Leaf(
                pairs[i].1.text(),
            ),
    decreases pairs.len(),
{
    if pairs.len() > 0 {
        let init = pairs.drop_last();
        let last = pairs.last();
        assert(distinct_keys(init)) by {
            assert forall|i: int, j: int| 0 <= i < j < init.len() implies (#[trigger] init[i]).0.text()
                != (#[trigger] init[j]).0.text() by {
                assert(init[i] == pairs[i] && init[j] == pairs[j]);
            }
        }
        lemma_leaves(init);
        assert forall|key: Seq<char>| #[trigger]
            leaves(pairs).contains_key(key) <==> exists|i: int|
                0 <= i < pairs.len() && (#[trigger] pairs[i]).0.text() == key by {
            if leaves(pairs).contains_key(key) {
                if key == last.0.text() {
                    assert(pairs[pairs.len() - 1].0.text() == key);
                } else {
                    assert(leaves(init).contains_key(key));
                    let i = choose|i: int| 0 <= i < init.len() && (#[trigger] init[i]).0.text() == key;
                    assert(pairs[i].0.text() == key);
                }
            }
            if exists|i: int| 0 <= i < pairs.len() && (#[trigger] pairs[i]).0.text() == key {
                let i = choose|i: int| 0 <= i < pairs.len() && (#[trigger] pairs[i]).0.text() == key;
                if i < init.len() {
                    assert(init[i].0.text() == key);
                }
            }
        }
        assert forall|i: int| 0 <= i < pairs.len() implies leaves(pairs)[(#[trigger] pairs[i]).0.text()]
            == Tree::Leaf(pairs[i].1.text()) by {
            if i < init.len() {
                assert(init[i] == pairs[i]);
                assert(pairs[i].0.text() != pairs[pairs.len() - 1].0.text());
            }
        }
    }
}

/// A document of pairs of key and value, each key of its own, has the tree
/// whose root holds exactly these keys, and under each the value of its pair
/// as a leaf, in whatever order the pairs stand.
pub proof fn theorem_pairs(s: Seq<u8>, pairs: Seq<(ItemView, ItemView)>)
    requires
        events(s) == entry_events(pairs),
        ending(s) is None,
        distinct_keys(pairs),
    ensures
        document(s) == Ok::<Tree, Error>(Tree::Table(leaves(pairs))),
        forall|key: Seq<char>| #[trigger]
            leaves(pairs).contains_key(key) <==> exists|i: int|
                0 <= i < pairs.len() && (#[trigger] pairs[i]).0.text() == key,
        forall|i: int|
            0 <= i < pairs.len() ==> leaves(pairs)[(#[trigger] pairs[i]).0.text()] == Tree::Leaf(
                pairs[i].1.text(),
            ),
{
    lemma_assemble_events(s, root());
    lemma_run_above(Seq::<Frame>::empty(), seq![], pairs);
    assert(Seq::<Frame>::empty().push(Frame { name: seq![], entries: Map::empty() }) =~= root());
    assert(Seq::<Frame>::empty().push(Frame { name: seq![], entries: leaves(pairs) }) =~= seq![
        Frame { name: seq![], entries: leaves(pairs) },
    ]);
    lemma_leaves(pairs);
}

/// A group of pairs of key and value, each key of its own, stands in the
/// root under its name, as a table that holds the values as leaves under
/// their keys.
pub proof fn theorem_group(s: Seq<u8>, name: Seq<char>, pairs: Seq<(ItemView, ItemView)>)
    requires
        events(s) == seq![EventView::GroupStart(name)] + entry_events(pairs) + seq![
            EventView::GroupEnd,
        ],
        ending(s) is None,
        distinct_keys(pairs),
    ensures
        document(s) == Ok::<Tree, Error>(
            Tree::Table(map![name => Tree::Table(leaves(pairs))]),
        ),
{
    let start = seq![EventView::GroupStart(name)];
    let end = seq![EventView::GroupEnd];
    let inner = Frame { name, entries: Map::empty() };
    let full = Frame { name, entries: leaves(pairs) };
    let outer = root()[0];
    lemma_assemble_events(s, root());
    lemma_run_concat(root(), start + entry_events(pairs), end);
    lemma_run_concat(root(), start, entry_events(pairs));
    assert(start.drop_first() =~= Seq::<EventView>::empty());
    assert(run(root().push(inner), Seq::<EventView>::empty()) == Some(root().push(inner)));
    assert(run(root(), start) == Some(root().push(inner)));
    lemma_run_above(root(), name, pairs);
    let open = root().push(full);
    assert(open.drop_last() =~= root());
    assert(root().drop_last() =~= Seq::<Frame>::empty());
    let closed = seq![
        Frame { name: outer.name, entries: map![name => Tree::Table(leaves(pairs))] },
    ];
    assert(close(open) =~= closed) by {
        assert(inserted(outer.entries, name, Tree::Table(leaves(pairs))) =~= map![
            name => Tree::Table(leaves(pairs)),
        ]);
    }
    assert(end.drop_first() =~= Seq::<EventView>::empty());
    assert(run(closed, Seq::<EventView>::empty()) == Some(closed));
    assert(run(open, end) == Some(closed));
}

/// Entries go into the group on top of the stack and leave the groups
/// below it as they are.
pub proof fn lemma_run_above(below: Seq<Frame>, name: Seq<char>, pairs: Seq<(ItemView, ItemView)>)
    requires
        distinct_keys(pairs),
    ensures
        run(below.push(Frame { name, entries: Map::empty() }), entry_events(pairs)) == Some(
            below.push(Frame { name, entries: leaves(pairs) }),
        ),
    decreases pairs.len(),
{
    let start = below.push(Frame { name, entries: Map::empty() });
    if pairs.len() == 0 {
        assert(entry_events(pairs) =~= Seq::<EventView>::empty());
    } else {
        let init = pairs.drop_last();
        let last = pairs.last();
        assert(distinct_keys(init)) by {
            assert forall|i: int, j: int| 0 <= i < j < init.len() implies (#[trigger] init[i]).0.text()
                != (#[trigger] init[j]).0.text() by {
                assert(init[i] == pairs[i] && init[j] == pairs[j]);
            }
        }
        lemma_run_above(below, name, init);
        lemma_leaves(init);
        let event = EventView::Entry(last.0, last.1);
        assert(entry_events(pairs) =~= entry_events(init) + seq![event]);
        lemma_run_concat(start, entry_events(init), seq![event]);
        let middle = below.push(Frame { name, entries: leaves(init) });
        assert(!leaves(init).contains_key(last.0.text())) by {
            if leaves(init).contains_key(last.0.text()) {
                let i = choose|i: int|
                    0 <= i < init.len() && (#[trigger] init[i]).0.text() == last.0.text();
                assert(pairs[i].0.text() == pairs[pairs.len() - 1].0.text());
            }
        }
        assert(seq![event].drop_first() =~= Seq::<EventView>::empty());
        let after = put(middle, last.0.text(), Tree::Leaf(last.1.text()));
        assert(middle.drop_last() =~= below);
        assert(after =~= below.push(Frame { name, entries: leaves(pairs) }));
        assert(run(after, Seq::<EventView>::empty()) == Some(after));
        assert(seq![event][0] == event);
        assert(run(middle, seq![event]) == Some(after));
    }
}

/// A group that is open.
struct Scope {
    name: String,
    table: Table,
}

/// The stack of open groups as a mathematical value.
spec fn frames(scopes: Seq<Scope>) -> Seq<Frame> {
    Seq::new(
        scopes.len(),
        |i: int| Frame { name: scopes[i].name@, entries: scopes[i].table@->Table_0 },
    )
}

/// Whether every group of the stack is a group, none the values of a
/// repeated key.
spec fn all_groups(scopes: Seq<Scope>) -> bool {
    forall|i: int| 0 <= i < scopes.len() ==> (#[trigger] scopes[i]).table@ is Table
}

/// Puts `value` under `key` in the group on top of the stack.
fn put_top(scopes: &mut Vec<Scope>, key: String, value: Entry)
    requires
        old(scopes)@.len() >= 1,
        all_groups(old(scopes)@),
    ensures
        final(scopes)@.len() == old(scopes)@.len(),
        all_groups(final(scopes)@),
        frames(final(scopes)@) == put(frames(old(scopes)@), key@, value@),
{
    let mut top = scopes.pop().unwrap();
    top.table.insert(key, value);
    scopes.push(top);
    assert(frames(scopes@) =~= put(frames(old(scopes)@), key@, value@));
}

/// Closes the group on top of the stack.
fn close_top(scopes: &mut Vec<Scope>)
    requires
        old(scopes)@.len() >= 2,
        all_groups(old(scopes)@),
    ensures
        final(scopes)@.len() == old(scopes)@.len() - 1,
        all_groups(final(scopes)@),
        frames(final(scopes)@) == close(frames(old(scopes)@)),
{
    let top = scopes.pop().unwrap();
    let ghost below = scopes@;
    assert(frames(below) =~= frames(old(scopes)@).drop_last());
    put_top(scopes, top.name, Entry::Table(top.table));
}

impl Table {
    /// Reads the rest of a document into a table.
    pub fn load(reader: &mut Reader) -> (result: Result<Table, Error>)
        ensures
            final(reader).finished() == old(reader).finished(),
            final(reader).unread() == old(reader).unread().skip(
                assemble(old(reader).unread(), root()).0 as int,
            ),
            match assemble(old(reader).unread(), root()).1 {
                Ok(tree) => result is Ok && result->Ok_0@ == tree,
                Err(error) => result is Err && result->Err_0 == error,
            },
    {
        let ghost start = reader.unread();
        let ghost read: nat = 0;
        let mut scopes: Vec<Scope> = Vec::new();
        scopes.push(Scope { name: String::new(), table: Table::new() });
        proof {
            assert(start.skip(0) =~= start);
            assert(frames(scopes@) =~= root());
        }
        loop
            invariant
                reader.finished() == old(reader).finished(),
                start == old(reader).unread(),
                read <= start.len(),
                reader.unread() == start.skip(read as int),
                scopes@.len() >= 1,
                all_groups(scopes@),
                assemble(start, root()) == (
                    read + assemble(reader.unread(), frames(scopes@)).0,
                    assemble(reader.unread(), frames(scopes@)).1,
                ),
            decreases reader.unread().len(),
        {
            let ghost here = reader.unread();
            let ghost used = event_of(here).0;
            proof {
                lemma_event_advances(here);
                assert(start.skip(read as int).skip(used as int) =~= start.skip(
                    (read + used) as int,
                ));
            }
            match reader.event() {
                Err(error) => {
                    return Err(error);
                },
                Ok(Event::End) => {
                    let ghost open = scopes@;
                    while scopes.len() > 1
                        invariant
                            scopes@.len() >= 1,
                            all_groups(scopes@),
                            close_all(frames(scopes@)) == close_all(frames(open)),
                        decreases scopes@.len(),
                    {
                        close_top(&mut scopes);
                    }
                    let root = scopes.pop().unwrap();
                    return Ok(root.table);
                },
                Ok(Event::GroupEnd) => {
                    if scopes.len() <= 1 {
                        return Err(Error::Parse);
                    }
                    close_top(&mut scopes);
                },
                Ok(Event::GroupStart(name)) => {
                    let ghost before = scopes@;
                    scopes.push(Scope { name, table: Table::new() });
                    assert(frames(scopes@) =~= frames(before).push(
                        Frame { name: name@, entries: Map::empty() },
                    ));
                },
                Ok(Event::Entry(key, value)) => {
                    put_top(&mut scopes, key.into(), Entry::Leaf(value.into()));
                },
            }
            proof {
                read = read + used;
            }
        }
    }
}

} // verus!
