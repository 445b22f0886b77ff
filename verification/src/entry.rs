//! The tree that a document is read into, and the lookup of a dotted path in
//! it.

use crate::coerce::{bool_of, i64_of, parse_bool, parse_i64, parse_u64, u64_of};
use crate::path::{lemma_segments_one, lemma_segments_split, segments, split_first};
use crate::text::same_text;
use vstd::pervasive::VecAdditionalExecFns;
use vstd::prelude::*;
use vstd::string::StringExecFns;

verus! {

/// A node of the tree as a mathematical value.
pub ghost enum Tree {
    /// A scalar value.
    Leaf(Seq<char>),
    /// A group: its keys and what stands under each.
    Table(Map<Seq<char>, Tree>),
    /// What a key that occurs more than once holds: the values in the order
    /// in which they came.
    Indexed(Seq<Tree>),
}

/// The decimal digit `d`.
pub open spec fn digit(d: nat) -> char {
    ((48 + d) as u8) as char
}

/// The decimal numeral of `n`, without leading zeros.
pub open spec fn decimal(n: nat) -> Seq<char>
    decreases n,
{
    if n < 10 {
        seq![digit(n)]
    } else {
        decimal(n / 10).push(digit(n % 10))
    }
}

/// Two numbers with the same numeral are the same.
pub proof fn lemma_decimal_injective(a: nat, b: nat)
    requires
        decimal(a) == decimal(b),
    ensures
        a == b,
    decreases a,
{
    lemma_decimal_len(a);
    lemma_decimal_len(b);
    if a < 10 {
        assert(decimal(a)[0] == digit(a));
        assert(decimal(b)[0] == digit(b));
    } else {
        let da = decimal(a / 10);
        let db = decimal(b / 10);
        assert(decimal(a).last() == digit(a % 10));
        assert(decimal(b).last() == digit(b % 10));
        assert(da =~= decimal(a).drop_last());
        assert(db =~= decimal(b).drop_last());
        lemma_decimal_injective(a / 10, b / 10);
    }
}

/// A numeral has one digit exactly when the number is below ten.
pub proof fn lemma_decimal_len(n: nat)
    ensures
        decimal(n).len() >= 1,
        decimal(n).len() == 1 <==> n < 10,
    decreases n,
{
    if n >= 10 {
        lemma_decimal_len(n / 10);
    }
}

impl Tree {
    /// What stands under `key` in this node: in a group the entry of that
    /// key; among the values of a repeated key the one whose position has the
    /// numeral `key`; in a leaf nothing.
    pub open spec fn child(self, key: Seq<char>) -> Option<Tree> {
        match self {
            Tree::Leaf(_) => None,
            Tree::Table(entries) => if entries.contains_key(key) {
                Some(entries[key])
            } else {
                None
            },
            Tree::Indexed(items) => if exists|i: nat|
                i < items.len() && #[trigger] decimal(i) == key {
                Some(
                    items[(choose|i: nat| i < items.len() && #[trigger] decimal(i) == key) as int],
                )
            } else {
                None
            },
        }
    }
}

impl Tree {
    /// The node that is reached from this one by taking the segments as
    /// keys, one after the other; `None` as soon as a key is missing.
    pub open spec fn descend(self, segments: Seq<Seq<char>>) -> Option<Tree>
        decreases segments.len(),
    {
        if segments.len() == 0 {
            Some(self)
        } else {
            match self.child(segments[0]) {
                None => None,
                Some(child) => child.descend(segments.drop_first()),
            }
        }
    }

    /// The node at a dotted path below this one.
    pub open spec fn lookup(self, path: Seq<char>) -> Option<Tree> {
        self.descend(segments(path))
    }
}

/// A path in two parts leads where the second part leads from the node that
/// the first part reaches.
pub proof fn lemma_descend_concat(tree: Tree, first: Seq<Seq<char>>, second: Seq<Seq<char>>)
    ensures
        tree.descend(first + second) == (match tree.descend(first) {
            None => None,
            Some(node) => node.descend(second),
        }),
    decreases first.len(),
{
    if first.len() == 0 {
        assert(first + second =~= second);
    } else {
        assert((first + second)[0] == first[0]);
        assert((first + second).drop_first() =~= first.drop_first() + second);
        match tree.child(first[0]) {
            None => {},
            Some(child) => {
                lemma_descend_concat(child, first.drop_first(), second);
            },
        }
    }
}

/// A path with a segment that leads nowhere has no node, whatever follows
/// the segment: a key that is missing makes the lookup come back empty, it
/// does not make it fail.
pub proof fn theorem_missing_segment(
    tree: Tree,
    first: Seq<Seq<char>>,
    key: Seq<char>,
    rest: Seq<Seq<char>>,
)
    requires
        tree.descend(first) matches Some(node) && node.child(key) is None,
    ensures
        tree.descend(first + seq![key] + rest) is None,
{
    lemma_descend_concat(tree, first, seq![key] + rest);
    assert(first + (seq![key] + rest) =~= first + seq![key] + rest);
    assert((seq![key] + rest)[0] == key);
}

/// What a key holds once `value` has come under it: the value itself where
/// the key held nothing; what it held and the value, in this order, where it
/// held one entry; the values it held and then this one where it had been
/// repeated before.
pub open spec fn merged(existing: Option<Tree>, value: Tree) -> Tree {
    match existing {
        None => value,
        Some(Tree::Indexed(items)) => Tree::Indexed(items.push(value)),
        Some(single) => Tree::Indexed(seq![single, value]),
    }
}

/// The entries of a group once `value` has come under `key`.
pub open spec fn inserted(entries: Map<Seq<char>, Tree>, key: Seq<char>, value: Tree) -> Map<
    Seq<char>,
    Tree,
> {
    entries.insert(key, merged(Tree::Table(entries).child(key), value))
}

impl Tree {
    /// The entries of this node, each under the key that leads to it.
    pub open spec fn children(self) -> Map<Seq<char>, Tree> {
        Map::new(|key: Seq<char>| self.child(key) is Some, |key: Seq<char>| self.child(key)->0)
    }
}

/// The entries of a group once the values have come under `key`, one after
/// the other.
pub open spec fn inserted_all(
    entries: Map<Seq<char>, Tree>,
    key: Seq<char>,
    values: Seq<Tree>,
) -> Map<Seq<char>, Tree>
    decreases values.len(),
{
    if values.len() == 0 {
        entries
    } else {
        inserted(inserted_all(entries, key, values.drop_last()), key, values.last())
    }
}

/// Among the values of a repeated key, the numeral of a position leads to
/// the value at that position, and nothing else leads anywhere.
pub proof fn lemma_indexed_children(items: Seq<Tree>)
    ensures
        forall|i: nat|
            i < items.len() ==> Tree::Indexed(items).child(#[trigger] decimal(i)) == Some(
                items[i as int],
            ),
        forall|key: Seq<char>| #[trigger]
            Tree::Indexed(items).child(key) is Some ==> exists|i: nat|
                i < items.len() && #[trigger] decimal(i) == key,
{
    assert forall|i: nat| i < items.len() implies Tree::Indexed(items).child(
        #[trigger] decimal(i),
    ) == Some(items[i as int]) by {
        let key = decimal(i);
        let j = choose|j: nat| j < items.len() && #[trigger] decimal(j) == key;
        lemma_decimal_injective(i, j);
    }
}

/// A key that comes twice or more holds its values in the order in which
/// they came, whatever their number, if the key was free before and the
/// first value is no such collection itself.
pub proof fn theorem_repeated_key(entries: Map<Seq<char>, Tree>, key: Seq<char>, values: Seq<Tree>)
    requires
        !entries.contains_key(key),
        values.len() >= 2,
        !(values[0] is Indexed),
    ensures
        inserted_all(entries, key, values) == entries.insert(key, Tree::Indexed(values)),
    decreases values.len(),
{
    let init = values.drop_last();
    let first = seq![values[0]];
    assert(first.drop_last() =~= Seq::<Tree>::empty());
    assert(inserted_all(entries, key, Seq::<Tree>::empty()) == entries);
    assert(inserted_all(entries, key, first) == entries.insert(key, values[0]));
    if values.len() == 2 {
        assert(init =~= first);
        assert(seq![values[0], values[1]] =~= values);
        assert(inserted_all(entries, key, values) =~= entries.insert(key, Tree::Indexed(values)));
    } else {
        theorem_repeated_key(entries, key, init);
        assert(init.push(values.last()) =~= values);
        assert(inserted_all(entries, key, values) =~= entries.insert(key, Tree::Indexed(values)));
    }
}

/// A key that comes three times holds the three values under the keys `0`,
/// `1` and `2`, and nothing else.
pub proof fn theorem_three_values(
    entries: Map<Seq<char>, Tree>,
    key: Seq<char>,
    a: Tree,
    b: Tree,
    c: Tree,
)
    requires
        !entries.contains_key(key),
        !(a is Indexed),
    ensures
        inserted(inserted(inserted(entries, key, a), key, b), key, c) == entries.insert(
            key,
            Tree::Indexed(seq![a, b, c]),
        ),
        Tree::Indexed(seq![a, b, c]).children() == map![
            seq!['0'] => a,
            seq!['1'] => b,
            seq!['2'] => c,
        ],
{
    let once = inserted(entries, key, a);
    let twice = inserted(once, key, b);
    let thrice = inserted(twice, key, c);
    assert(once == entries.insert(key, a));
    assert(twice =~= entries.insert(key, Tree::Indexed(seq![a, b])));
    assert(seq![a, b].push(c) =~= seq![a, b, c]);
    assert(thrice =~= entries.insert(key, Tree::Indexed(seq![a, b, c])));
    let items = seq![a, b, c];
    lemma_indexed_children(items);
    assert(decimal(0) =~= seq!['0']);
    assert(decimal(1) =~= seq!['1']);
    assert(decimal(2) =~= seq!['2']);
    let expected = map![seq!['0'] => a, seq!['1'] => b, seq!['2'] => c];
    assert forall|k: Seq<char>| #[trigger]
        Tree::Indexed(items).children().contains_key(k) implies expected.contains_key(k) by {
        let i = choose|i: nat| i < items.len() && #[trigger] decimal(i) == k;
        assert(i == 0 || i == 1 || i == 2);
    }
    assert(Tree::Indexed(items).child(decimal(0)) == Some(a));
    assert(Tree::Indexed(items).child(decimal(1)) == Some(b));
    assert(Tree::Indexed(items).child(decimal(2)) == Some(c));
    assert(Tree::Indexed(items).children() =~= expected);
}

/// A node of a parsed document.
#[derive(PartialEq, Eq, Debug)]
pub enum Entry {
    /// A group, or the values of a repeated key.
    Table(Table),
    /// A scalar value.
    Leaf(String),
}

/// The entries of one scope, each under a key of its own: those of a group,
/// or the values of a repeated key under the numerals of their positions.
///
/// The entries are kept in the order in which their keys first came, and
/// `==` holds of two tables with the same entries in the same order.
#[derive(PartialEq, Eq, Debug)]
pub struct Table {
    indexed: bool,
    keys: Vec<String>,
    values: Vec<Entry>,
}

/// The text of the decimal digit `d`.
fn digit_text(d: usize) -> (text: &'static str)
    requires
        d < 10,
    ensures
        text@ == seq![digit(d as nat)],
{
    proof {
        reveal_strlit("0");
        reveal_strlit("1");
        reveal_strlit("2");
        reveal_strlit("3");
        reveal_strlit("4");
        reveal_strlit("5");
        reveal_strlit("6");
        reveal_strlit("7");
        reveal_strlit("8");
        reveal_strlit("9");
    }
    let text = if d == 0 {
        "0"
    } else if d == 1 {
        "1"
    } else if d == 2 {
        "2"
    } else if d == 3 {
        "3"
    } else if d == 4 {
        "4"
    } else if d == 5 {
        "5"
    } else if d == 6 {
        "6"
    } else if d == 7 {
        "7"
    } else if d == 8 {
        "8"
    } else {
        "9"
    };
    assert(text@ =~= seq![digit(d as nat)]);
    text
}

/// The key under which the value at position `n` of a repeated key stands.
fn index_key(n: usize) -> (key: String)
    ensures
        key@ == decimal(n as nat),
    decreases n,
{
    if n < 10 {
        digit_text(n).to_owned()
    } else {
        let mut key = index_key(n / 10);
        key.append(digit_text(n % 10));
        assert(key@ =~= decimal(n as nat));
        key
    }
}

impl Table {
    #[verifier::type_invariant]
    spec fn inv(&self) -> bool {
        &&& self.keys@.len() == self.values@.len()
        &&& self.indexed ==> forall|i: int|
            0 <= i < self.keys@.len() ==> (#[trigger] self.keys@[i])@ == decimal(i as nat)
        &&& forall|i: int, j: int|
            0 <= i < j < self.keys@.len() ==> (#[trigger] self.keys@[i])@ != (
            #[trigger] self.keys@[j])@
    }

    /// Whether `key` is the key at position `i`.
    spec fn key_at(&self, key: Seq<char>, i: int) -> bool {
        0 <= i < self.keys.len() && i < self.values.len() && self.keys[i]@ == key
    }

    /// The table as a mathematical value.
    pub closed spec fn view(&self) -> Tree
        decreases self,
    {
        if self.indexed {
            Tree::Indexed(
                Seq::new(
                    self.values.len() as nat,
                    |i: int|
                        if 0 <= i < self.values.len() {
                            self.values[i].view()
                        } else {
                            Tree::Leaf(seq![])
                        },
                ),
            )
        } else {
            Tree::Table(
                Map::new(
                    |key: Seq<char>| exists|i: int| self.key_at(key, i),
                    |key: Seq<char>|
                        {
                            let i = choose|i: int| self.key_at(key, i);
                            if 0 <= i < self.values.len() {
                                self.values[i].view()
                            } else {
                                Tree::Leaf(seq![])
                            }
                        },
                ),
            )
        }
    }

    /// A group without entries.
    pub fn new() -> (table: Self)
        ensures
            table@ == Tree::Table(Map::empty()),
    {
        let table = Table { indexed: false, keys: Vec::new(), values: Vec::new() };
        assert(table@->Table_0 =~= Map::<Seq<char>, Tree>::empty());
        table
    }

    /// Whether the table holds the values of a repeated key.
    pub fn is_indexed(&self) -> (indexed: bool)
        ensures
            indexed == (self@ is Indexed),
    {
        self.indexed
    }

    /// The number of entries.
    pub fn len(&self) -> (n: usize)
        ensures
            self@ matches Tree::Indexed(items) ==> n == items.len(),
            self@ matches Tree::Table(entries) ==> entries.dom().finite() && n
                == entries.dom().len(),
    {
        proof {
            use_type_invariant(self);
            if !self.indexed {
                self.lemma_dom(self.keys.len() as int);
                assert(self.dom_below(self.keys.len() as int) =~= self@->Table_0.dom());
            }
        }
        self.keys.len()
    }

    /// The keys at the positions below `n`.
    spec fn dom_below(&self, n: int) -> Set<Seq<char>> {
        Set::new(|key: Seq<char>| exists|i: int| self.key_at(key, i) && i < n)
    }

    /// There are as many keys as positions.
    proof fn lemma_dom(&self, n: int)
        requires
            self.inv(),
            0 <= n <= self.keys.len(),
        ensures
            self.dom_below(n).finite(),
            self.dom_below(n).len() == n,
        decreases n,
    {
        if n == 0 {
            assert(self.dom_below(0) =~= Set::empty());
        } else {
            self.lemma_dom(n - 1);
            let key = self.keys[n - 1]@;
            assert(self.key_at(key, n - 1));
            assert(self.dom_below(n) =~= self.dom_below(n - 1).insert(key)) by {
                assert forall|k: Seq<char>| self.dom_below(n).contains(k) implies self.dom_below(
                    n - 1,
                ).insert(key).contains(k) by {
                    let i = choose|i: int| self.key_at(k, i) && i < n;
                    if i < n - 1 {
                        assert(self.key_at(k, i) && i < n - 1);
                    }
                }
            }
            assert(!self.dom_below(n - 1).contains(key)) by {
                if self.dom_below(n - 1).contains(key) {
                    let i = choose|i: int| self.key_at(key, i) && i < n - 1;
                    assert(self.keys@[i]@ == self.keys@[n - 1]@);
                }
            }
        }
    }

    /// Puts `value` under `key`. A key that held nothing holds the value; a
    /// key that held one entry then holds that entry and the value, in this
    /// order, under the numerals 0 and 1; a key that had been repeated
    /// before holds one value more, under the next numeral.
    pub fn insert(&mut self, key: String, value: Entry)
        requires
            old(self)@ is Table,
        ensures
            final(self)@ == Tree::Table(inserted(old(self)@->Table_0, key@, value@)),
    {
        let mut table = Table::new();
        core::mem::swap(self, &mut table);
        *self = table.with(key, value);
    }

    /// The group with `value` put under `key`.
    fn with(self, key: String, value: Entry) -> (table: Self)
        requires
            self@ is Table,
        ensures
            table@ == Tree::Table(inserted(self@->Table_0, key@, value@)),
    {
        proof {
            use_type_invariant(&self);
        }
        let mut i: usize = 0;
        while i < self.keys.len() && !same_text(self.keys[i].as_str(), key.as_str())
            invariant
                self.inv(),
                i <= self.keys@.len(),
                forall|j: int| 0 <= j < i ==> (#[trigger] self.keys@[j])@ != key@,
            decreases self.keys@.len() - i,
        {
            i += 1;
        }
        let ghost before = self;
        let Table { indexed, mut keys, mut values } = self;
        if i < keys.len() {
            let mut slot = Entry::Leaf(String::new());
            values.set_and_swap(i, &mut slot);
            let merged = merge(slot, value);
            values.set(i, merged);
            let table = Table { indexed, keys, values };
            proof {
                before.lemma_child_at(key@, i as int);
                let target = inserted(before@->Table_0, key@, value@);
                assert forall|k: Seq<char>| #[trigger]
                    target.contains_key(k) implies table@->Table_0.contains_key(k) by {
                    if k == key@ {
                        assert(table.key_at(k, i as int));
                    } else {
                        let j = choose|j: int| before.key_at(k, j);
                        assert(table.key_at(k, j));
                    }
                }
                assert forall|k: Seq<char>| #[trigger]
                    table@->Table_0.contains_key(k) implies target.contains_key(k)
                    && table@->Table_0[k] == target[k] by {
                    let j = choose|j: int| table.key_at(k, j);
                    assert(before.key_at(k, j));
                    if k != key@ {
                        let j2 = choose|j: int| before.key_at(k, j);
                        assert(j == j2);
                    }
                }
                assert(table@->Table_0 =~= target);
            }
            table
        } else {
            keys.push(key);
            values.push(value);
            let table = Table { indexed, keys, values };
            proof {
                before.lemma_child_none(key@);
                let target = inserted(before@->Table_0, key@, value@);
                assert forall|k: Seq<char>| #[trigger]
                    target.contains_key(k) implies table@->Table_0.contains_key(k) by {
                    if k == key@ {
                        assert(table.key_at(k, i as int));
                    } else {
                        let j = choose|j: int| before.key_at(k, j);
                        assert(table.key_at(k, j));
                    }
                }
                assert forall|k: Seq<char>| #[trigger]
                    table@->Table_0.contains_key(k) implies target.contains_key(k)
                    && table@->Table_0[k] == target[k] by {
                    let j = choose|j: int| table.key_at(k, j);
                    if j < i {
                        assert(before.key_at(k, j));
                        let j2 = choose|j: int| before.key_at(k, j);
                        assert(j == j2);
                    }
                }
                assert(table@->Table_0 =~= target);
            }
            table
        }
    }

    /// The values of a repeated key with one more at their end.
    fn append(self, value: Entry) -> (table: Self)
        requires
            self@ is Indexed,
        ensures
            table@ == Tree::Indexed(self@->Indexed_0.push(value@)),
    {
        proof {
            use_type_invariant(&self);
        }
        let ghost before = self;
        let Table { indexed, mut keys, mut values } = self;
        let n = keys.len();
        keys.push(index_key(n));
        values.push(value);
        proof {
            assert forall|i: int, j: int| 0 <= i < j < keys@.len() implies (#[trigger] keys@[i])@
                != (#[trigger] keys@[j])@ by {
                if keys@[i]@ == keys@[j]@ {
                    lemma_decimal_injective(i as nat, j as nat);
                }
            }
        }
        let table = Table { indexed, keys, values };
        assert(table@->Indexed_0 =~= before@->Indexed_0.push(value@));
        table
    }

    /// The two values of a key that has come twice.
    fn pair(first: Entry, second: Entry) -> (table: Self)
        ensures
            table@ == Tree::Indexed(seq![first@, second@]),
    {
        let mut keys: Vec<String> = Vec::new();
        let mut values: Vec<Entry> = Vec::new();
        keys.push(index_key(0));
        keys.push(index_key(1));
        values.push(first);
        values.push(second);
        proof {
            assert forall|i: int, j: int| 0 <= i < j < keys@.len() implies (#[trigger] keys@[i])@
                != (#[trigger] keys@[j])@ by {
                if keys@[i]@ == keys@[j]@ {
                    lemma_decimal_injective(i as nat, j as nat);
                }
            }
        }
        let table = Table { indexed: true, keys, values };
        assert(table@->Indexed_0 =~= seq![first@, second@]);
        table
    }

    /// What stands under `key`, if anything does.
    pub fn get(&self, key: &str) -> (entry: Option<&Entry>)
        ensures
            match self@.child(key@) {
                Some(tree) => entry is Some && entry->0@ == tree,
                None => entry is None,
            },
    {
        proof {
            use_type_invariant(self);
        }
        let mut i: usize = 0;
        while i < self.keys.len()
            invariant
                self.inv(),
                i <= self.keys@.len(),
                forall|j: int| 0 <= j < i ==> (#[trigger] self.keys@[j])@ != key@,
            decreases self.keys@.len() - i,
        {
            if same_text(self.keys[i].as_str(), key) {
                proof {
                    self.lemma_child_at(key@, i as int);
                }
                return Some(&self.values[i]);
            }
            i += 1;
        }
        proof {
            self.lemma_child_none(key@);
        }
        None
    }

    /// A table is no leaf.
    pub proof fn lemma_view_kind(&self)
        ensures
            !(self@ is Leaf),
    {
    }

    /// The entry at a position stands under the key at that position.
    proof fn lemma_child_at(&self, key: Seq<char>, i: int)
        requires
            self.inv(),
            self.key_at(key, i),
        ensures
            self@.child(key) == Some(self.values[i]@),
    {
        if self.indexed {
            let items = self@->Indexed_0;
            assert((i as nat) < items.len() && decimal(i as nat) == key);
            let j = choose|j: nat| j < items.len() && #[trigger] decimal(j) == key;
            lemma_decimal_injective(i as nat, j);
        } else {
            let j = choose|j: int| self.key_at(key, j);
            assert(i == j);
        }
    }

    /// Nothing stands under a key that is at no position.
    proof fn lemma_child_none(&self, key: Seq<char>)
        requires
            self.inv(),
            forall|i: int| 0 <= i < self.keys@.len() ==> (#[trigger] self.keys@[i])@ != key,
        ensures
            self@.child(key) is None,
    {
        if self.indexed {
            let items = self@->Indexed_0;
            if exists|i: nat| i < items.len() && #[trigger] decimal(i) == key {
                let i = choose|i: nat| i < items.len() && #[trigger] decimal(i) == key;
                assert(self.keys@[i as int]@ == key);
            }
        } else {
            if exists|i: int| self.key_at(key, i) {
                let i = choose|i: int| self.key_at(key, i);
                assert(self.keys@[i]@ == key);
            }
        }
    }
}

/// What a key holds once `value` has come under it, the key holding
/// `existing` before.
fn merge(existing: Entry, value: Entry) -> (entry: Entry)
    ensures
        entry@ == merged(Some(existing@), value@),
{
    match existing {
        Entry::Table(table) => {
            if table.is_indexed() {
                Entry::Table(table.append(value))
            } else {
                Entry::Table(Table::pair(Entry::Table(table), value))
            }
        },
        Entry::Leaf(text) => Entry::Table(Table::pair(Entry::Leaf(text), value)),
    }
}

impl View for Entry {
    type V = Tree;

    /// The entry as a mathematical value.
    open spec fn view(&self) -> Tree
        decreases self,
    {
        match self {
            Entry::Leaf(text) => Tree::Leaf(text@),
            Entry::Table(table) => table.view(),
        }
    }
}

impl From<Table> for Entry {
    fn from(table: Table) -> (entry: Entry) {
        Entry::Table(table)
    }
}

impl vstd::std_specs::convert::FromSpecImpl<Table> for Entry {
    open spec fn obeys_from_spec() -> bool {
        true
    }

    open spec fn from_spec(table: Table) -> Entry {
        Entry::Table(table)
    }
}

impl Entry {
    /// What stands under `key` in this entry, if anything does; nothing
    /// stands under a leaf.
    pub fn get(&self, key: &str) -> (entry: Option<&Entry>)
        ensures
            match self@.child(key@) {
                Some(tree) => entry is Some && entry->0@ == tree,
                None => entry is None,
            },
    {
        match self {
            Entry::Table(table) => table.get(key),
            Entry::Leaf(_) => None,
        }
    }

    /// The entry at a dotted path below this one: each segment of the path
    /// is taken as a key, or as the numeral of a position among the values
    /// of a repeated key. `None` where a segment leads nowhere.
    pub fn lookup(&self, path: &str) -> (entry: Option<&Entry>)
        ensures
            match self@.lookup(path@) {
                Some(tree) => entry is Some && entry->0@ == tree,
                None => entry is None,
            },
    {
        let mut current: &Entry = self;
        let mut rest: &str = path;
        loop
            invariant
                self@.lookup(path@) == current@.lookup(rest@),
            decreases rest@.len(),
        {
            match split_first(rest) {
                None => {
                    proof {
                        lemma_segments_one(rest@);
                        assert(seq![rest@].drop_first() =~= Seq::<Seq<char>>::empty());
                        if let Some(child) = current@.child(rest@) {
                            assert(child.descend(seq![rest@].drop_first()) == Some(child));
                        }
                    }
                    return current.get(rest);
                },
                Some((head, tail)) => {
                    proof {
                        lemma_segments_split(head@, tail@);
                        assert((seq![head@] + segments(tail@)).drop_first() =~= segments(tail@));
                    }
                    match current.get(head) {
                        None => {
                            return None;
                        },
                        Some(child) => {
                            current = child;
                            rest = tail;
                        },
                    }
                },
            }
        }
    }

    /// The text of a leaf; `None` for a table.
    pub fn as_str(&self) -> (text: Option<&str>)
        ensures
            match self@ {
                Tree::Leaf(chars) => text is Some && text->0@ == chars,
                _ => text is None,
            },
    {
        match self {
            Entry::Leaf(text) => Some(text.as_str()),
            Entry::Table(table) => {
                proof {
                    table.lemma_view_kind();
                }
                None
            },
        }
    }

    /// The value of a leaf as a `bool`; `None` for a table, and for a leaf
    /// whose text is neither `true` nor `false`.
    pub fn to_bool(&self) -> (value: Option<bool>)
        ensures
            value == (match self@ {
                Tree::Leaf(chars) => bool_of(chars),
                _ => None,
            }),
    {
        match self {
            Entry::Leaf(text) => parse_bool(text.as_str()),
            Entry::Table(table) => {
                proof {
                    table.lemma_view_kind();
                }
                None
            },
        }
    }

    /// The value of a leaf as an `i64`; `None` for a table, and for a leaf
    /// whose text denotes no integer of that type.
    pub fn to_i64(&self) -> (value: Option<i64>)
        ensures
            value == (match self@ {
                Tree::Leaf(chars) => i64_of(chars),
                _ => None,
            }),
    {
        match self {
            Entry::Leaf(text) => parse_i64(text.as_str()),
            Entry::Table(table) => {
                proof {
                    table.lemma_view_kind();
                }
                None
            },
        }
    }

    /// The value of a leaf as a `u64`; `None` for a table, and for a leaf
    /// whose text denotes no integer of that type.
    pub fn to_u64(&self) -> (value: Option<u64>)
        ensures
            value == (match self@ {
                Tree::Leaf(chars) => u64_of(chars),
                _ => None,
            }),
    {
        match self {
            Entry::Leaf(text) => parse_u64(text.as_str()),
            Entry::Table(table) => {
                proof {
                    table.lemma_view_kind();
                }
                None
            },
        }
    }

    /// The table of a group or of a repeated key; `None` for a leaf.
    pub fn as_table(&self) -> (table: Option<&Table>)
        ensures
            match self {
                Entry::Table(inner) => table == Some(inner),
                Entry::Leaf(_) => table is None,
            },
    {
        match self {
            Entry::Table(table) => Some(table),
            Entry::Leaf(_) => None,
        }
    }
}

} // verus!
