//! The result tree: a node is a mapping, a sequence, a text or the void
//! marker, and a key names a place in a mapping or a sequence.

use crate::text::{decimal_string, decimal_text};
use vstd::prelude::*;
use vstd::string::*;

verus! {

/// A node of the result tree.
#[derive(Debug, PartialEq, Eq)]
pub enum Node {
    /// Named entries, in the order in which their keys were first written.
    Mapping(Vec<(String, Node)>),
    /// Indexed entries, without gaps.
    Sequence(Vec<Node>),
    /// A string.
    Text(String),
    /// The marker for "explicitly no value".
    Void,
}

/// What a [`Node`] stands for: the same tree over mathematical sequences.
pub enum Tree {
    Mapping(Seq<(Seq<char>, Tree)>),
    Sequence(Seq<Tree>),
    Text(Seq<char>),
    Void,
}

/// Key type: either a name or a numeric index.
#[derive(Debug, PartialEq, Eq, Hash)]
pub enum ASLANKey {
    String(String),
    Index(i64),
}

/// What an [`ASLANKey`] stands for.
pub enum KeyView {
    Name(Seq<char>),
    Index(i64),
}

impl KeyView {
    /// The key as text: the name itself, or the index in decimal.
    pub open spec fn text(self) -> Seq<char> {
        match self {
            KeyView::Name(s) => s,
            KeyView::Index(i) => decimal_text(i as int),
        }
    }
}

impl View for ASLANKey {
    type V = KeyView;

    open spec fn view(&self) -> KeyView {
        match self {
            ASLANKey::String(s) => KeyView::Name(s@),
            ASLANKey::Index(i) => KeyView::Index(*i),
        }
    }
}

impl Clone for ASLANKey {
    fn clone(&self) -> (r: Self)
        ensures
            r@ == self@,
    {
        match self {
            ASLANKey::String(s) => ASLANKey::String(s.clone()),
            ASLANKey::Index(i) => ASLANKey::Index(*i),
        }
    }
}

impl ASLANKey {
    /// The key as text: the name itself, or the index in decimal.
    pub fn as_string(&self) -> (r: String)
        ensures
            r@ == self@.text(),
    {
        match self {
            ASLANKey::String(s) => s.clone(),
            ASLANKey::Index(i) => decimal_string(*i),
        }
    }
}

/// The first place at or after `from` where `entries` holds `key`.
pub open spec fn first_at(entries: Seq<(Seq<char>, Tree)>, key: Seq<char>, from: int) -> Option<
    int,
>
    decreases entries.len() - from,
{
    if from < 0 || from >= entries.len() {
        None
    } else if entries[from].0 == key {
        Some(from)
    } else {
        first_at(entries, key, from + 1)
    }
}

/// The place of `key` in the entries of a mapping.
pub open spec fn position(entries: Seq<(Seq<char>, Tree)>, key: Seq<char>) -> Option<int> {
    first_at(entries, key, 0)
}

/// An index that a sequence can hold an entry at.
pub open spec fn index_fits(i: i64) -> bool {
    0 <= i < usize::MAX
}

/// `items`, filled up with void entries to the length `n` where it is
/// shorter.
pub open spec fn padded(items: Seq<Tree>, n: int) -> Seq<Tree> {
    if items.len() >= n {
        items
    } else {
        items + Seq::new((n - items.len()) as nat, |i: int| Tree::Void)
    }
}

impl Tree {
    /// A mapping or a sequence.
    pub open spec fn is_container(self) -> bool {
        self is Mapping || self is Sequence
    }

    /// The entry under `key`: by the key's text in a mapping, by an index
    /// within bounds in a sequence.
    pub open spec fn get(self, key: KeyView) -> Option<Tree> {
        match self {
            Tree::Mapping(entries) => match position(entries, key.text()) {
                Some(i) => Some(entries[i].1),
                None => None,
            },
            Tree::Sequence(items) => match key {
                KeyView::Index(i) => if 0 <= i < items.len() {
                    Some(items[i as int])
                } else {
                    None
                },
                KeyView::Name(_) => None,
            },
            _ => None,
        }
    }

    /// The tree with `value` under `key`. A mapping keeps the place of a
    /// key it already holds and puts a new key last; a sequence is filled
    /// up with void entries as far as the index; anything else, and a
    /// sequence with a key that is no index it can hold, stays as it is.
    pub open spec fn set(self, key: KeyView, value: Tree) -> Tree {
        match self {
            Tree::Mapping(entries) => match position(entries, key.text()) {
                Some(i) => Tree::Mapping(entries.update(i, (key.text(), value))),
                None => Tree::Mapping(entries.push((key.text(), value))),
            },
            Tree::Sequence(items) => match key {
                KeyView::Index(i) => if index_fits(i) {
                    Tree::Sequence(padded(items, i + 1).update(i as int, value))
                } else {
                    self
                },
                KeyView::Name(_) => self,
            },
            _ => self,
        }
    }
}

/// An entry that is a mapping or a sequence.
pub open spec fn holds_container(entry: Option<Tree>) -> bool {
    match entry {
        Some(t) => t.is_container(),
        None => false,
    }
}

/// The text of an entry; empty where there is no entry or it is no text.
pub open spec fn text_of(entry: Option<Tree>) -> Seq<char> {
    match entry {
        Some(Tree::Text(s)) => s,
        _ => Seq::empty(),
    }
}

/// The items of an entry; none where there is no entry or it is no
/// sequence.
pub open spec fn items_of(entry: Option<Tree>) -> Seq<Tree> {
    match entry {
        Some(Tree::Sequence(items)) => items,
        _ => Seq::empty(),
    }
}

/// The tree that a node stands for.
pub open spec fn tree_of(node: Node) -> Tree
    decreases node,
{
    match node {
        Node::Mapping(entries) => Tree::Mapping(
            Seq::new(
                entries@.len(),
                |i: int|
                    if 0 <= i < entries@.len() {
                        (entries@[i].0@, tree_of(entries@[i].1))
                    } else {
                        (Seq::empty(), Tree::Void)
                    },
            ),
        ),
        Node::Sequence(items) => Tree::Sequence(
            Seq::new(
                items@.len(),
                |i: int|
                    if 0 <= i < items@.len() {
                        tree_of(items@[i])
                    } else {
                        Tree::Void
                    },
            ),
        ),
        Node::Text(s) => Tree::Text(s@),
        Node::Void => Tree::Void,
    }
}

impl View for Node {
    type V = Tree;

    open spec fn view(&self) -> Tree {
        tree_of(*self)
    }
}

/// The trees of a list of nodes.
pub open spec fn trees_of(nodes: Seq<Node>) -> Seq<Tree> {
    Seq::new(nodes.len(), |i: int| nodes[i]@)
}

/// The entries of a list of named nodes.
pub open spec fn entries_of(entries: Seq<(String, Node)>) -> Seq<(Seq<char>, Tree)> {
    Seq::new(entries.len(), |i: int| (entries[i].0@, entries[i].1@))
}

pub proof fn lemma_view_mapping(entries: Vec<(String, Node)>)
    ensures
        Node::Mapping(entries)@ == Tree::Mapping(entries_of(entries@)),
{
    assert(Node::Mapping(entries)@->Mapping_0 =~= entries_of(entries@));
}

pub proof fn lemma_view_sequence(items: Vec<Node>)
    ensures
        Node::Sequence(items)@ == Tree::Sequence(trees_of(items@)),
{
    assert(Node::Sequence(items)@->Sequence_0 =~= trees_of(items@));
}

impl Clone for Node {
    /// A deep copy.
    fn clone(&self) -> (r: Self)
        ensures
            r@ == self@,
        decreases self,
    {
        match self {
            Node::Mapping(entries) => {
                let mut out: Vec<(String, Node)> = Vec::new();
                let mut i: usize = 0;
                while i < entries.len()
                    invariant
                        self is Mapping,
                        self->Mapping_0 == *entries,
                        i <= entries.len(),
                        out.len() == i,
                        forall|j: int|
                            0 <= j < i ==> (#[trigger] out@[j]).0@ == entries@[j].0@ && out@[j].1@
                                == entries@[j].1@,
                    decreases entries.len() - i,
                {
                    proof {
                        assert(decreases_to!(self => self->Mapping_0));
                        assert(decreases_to!(*entries => entries[i as int]));
                        assert(decreases_to!(entries[i as int] => entries[i as int].1));
                    }
                    let name = entries[i].0.clone();
                    let child = entries[i].1.clone();
                    out.push((name, child));
                    i += 1;
                }
                proof {
                    lemma_view_mapping(*entries);
                    lemma_view_mapping(out);
                    assert(entries_of(out@) =~= entries_of(entries@));
                }
                Node::Mapping(out)
            },
            Node::Sequence(items) => {
                let mut out: Vec<Node> = Vec::new();
                let mut i: usize = 0;
                while i < items.len()
                    invariant
                        self is Sequence,
                        self->Sequence_0 == *items,
                        i <= items.len(),
                        out.len() == i,
                        forall|j: int| 0 <= j < i ==> (#[trigger] out@[j])@ == items@[j]@,
                    decreases items.len() - i,
                {
                    proof {
                        assert(decreases_to!(self => self->Sequence_0));
                        assert(decreases_to!(*items => items[i as int]));
                    }
                    let child = items[i].clone();
                    out.push(child);
                    i += 1;
                }
                proof {
                    lemma_view_sequence(*items);
                    lemma_view_sequence(out);
                    assert(trees_of(out@) =~= trees_of(items@));
                }
                Node::Sequence(out)
            },
            Node::Text(s) => Node::Text(s.clone()),
            Node::Void => Node::Void,
        }
    }
}

/// What a borrowed entry stands for.
pub open spec fn entry_view(entry: Option<&Node>) -> Option<Tree> {
    match entry {
        Some(node) => Some(node@),
        None => None,
    }
}

impl Node {
    /// An empty mapping.
    pub fn empty_mapping() -> (r: Node)
        ensures
            r@ == Tree::Mapping(Seq::empty()),
    {
        let entries: Vec<(String, Node)> = Vec::new();
        proof {
            lemma_view_mapping(entries);
            assert(entries_of(entries@) =~= Seq::empty());
        }
        Node::Mapping(entries)
    }

    /// An empty sequence.
    pub fn empty_sequence() -> (r: Node)
        ensures
            r@ == Tree::Sequence(Seq::empty()),
    {
        let items: Vec<Node> = Vec::new();
        proof {
            lemma_view_sequence(items);
            assert(trees_of(items@) =~= Seq::empty());
        }
        Node::Sequence(items)
    }

    /// Whether the node is a mapping or a sequence.
    pub fn is_container(&self) -> (r: bool)
        ensures
            r == self@.is_container(),
    {
        match self {
            Node::Mapping(_) => true,
            Node::Sequence(_) => true,
            _ => false,
        }
    }

    /// The entry under `key`, if the node holds one.
    pub fn get(&self, key: &ASLANKey) -> (r: Option<&Node>)
        ensures
            entry_view(r) == self@.get(key@),
    {
        match self {
            Node::Mapping(entries) => {
                let name = key.as_string();
                proof {
                    lemma_view_mapping(*entries);
                }
                match find_entry(entries, &name) {
                    Some(i) => Some(&entries[i].1),
                    None => None,
                }
            },
            Node::Sequence(items) => {
                proof {
                    lemma_view_sequence(*items);
                }
                match key {
                    ASLANKey::Index(i) => {
                        if *i >= 0 && (*i as u64) < (items.len() as u64) {
                            Some(&items[*i as usize])
                        } else {
                            None
                        }
                    },
                    ASLANKey::String(_) => None,
                }
            },
            _ => None,
        }
    }

    /// Puts `value` under `key`.
    pub fn set(&mut self, key: &ASLANKey, value: Node)
        ensures
            final(self)@ == old(self)@.set(key@, value@),
    {
        match self {
            Node::Mapping(entries) => {
                let name = key.as_string();
                let ghost before = entries_of(entries@);
                proof {
                    lemma_view_mapping(*entries);
                }
                match find_entry(entries, &name) {
                    Some(i) => {
                        entries[i] = (name, value);
                        proof {
                            lemma_view_mapping(*entries);
                            assert(entries_of(entries@) =~= before.update(
                                i as int,
                                (name@, value@),
                            ));
                        }
                    },
                    None => {
                        entries.push((name, value));
                        proof {
                            lemma_view_mapping(*entries);
                            assert(entries_of(entries@) =~= before.push((name@, value@)));
                        }
                    },
                }
            },
            Node::Sequence(items) => {
                proof {
                    lemma_view_sequence(*items);
                }
                match key {
                    ASLANKey::Index(i) => {
                        if *i >= 0 && (*i as u64) < (usize::MAX as u64) {
                            let at: usize = *i as usize;
                            let ghost before = trees_of(items@);
                            fill_up(items, at + 1);
                            items[at] = value;
                            proof {
                                lemma_view_sequence(*items);
                                assert(trees_of(items@) =~= padded(before, at + 1).update(
                                    at as int,
                                    value@,
                                ));
                            }
                        }
                    },
                    ASLANKey::String(_) => {},
                }
            },
            _ => {},
        }
    }
}

/// The place of the first entry of a mapping with the name `name`.
fn find_entry(entries: &Vec<(String, Node)>, name: &String) -> (r: Option<usize>)
    ensures
        match r {
            Some(i) => position(entries_of(entries@), name@) == Some(i as int) && i
                < entries.len(),
            None => position(entries_of(entries@), name@) is None,
        },
{
    let mut i: usize = 0;
    while i < entries.len()
        invariant
            i <= entries.len(),
            position(entries_of(entries@), name@) == first_at(
                entries_of(entries@),
                name@,
                i as int,
            ),
        decreases entries.len() - i,
    {
        if entries[i].0 == *name {
            return Some(i);
        }
        i += 1;
    }
    None
}

/// Appends void entries to a sequence until it has `n` entries.
fn fill_up(items: &mut Vec<Node>, n: usize)
    ensures
        trees_of(final(items)@) == padded(trees_of(old(items)@), n as int),
        final(items).len() >= n,
        final(items).len() >= old(items).len(),
{
    let ghost before = trees_of(items@);
    assert(trees_of(items@) =~= padded(before, items.len() as int));
    while items.len() < n
        invariant
            items.len() >= before.len(),
            items.len() == before.len() || items.len() <= n,
            trees_of(items@) == padded(before, items.len() as int),
        decreases n - items.len(),
    {
        let ghost prior = trees_of(items@);
        items.push(Node::Void);
        assert(trees_of(items@) =~= prior.push(Tree::Void));
        assert(trees_of(items@) =~= padded(before, items.len() as int));
    }
    assert(padded(before, items.len() as int) =~= padded(before, n as int));
}

/// Whether an entry is a mapping or a sequence.
pub fn entry_is_container(entry: Option<&Node>) -> (r: bool)
    ensures
        r == holds_container(entry_view(entry)),
{
    match entry {
        Some(node) => node.is_container(),
        None => false,
    }
}

/// The text of an entry; empty where there is no entry or it is no text.
pub fn entry_text(entry: Option<&Node>) -> (r: String)
    ensures
        r@ == text_of(entry_view(entry)),
{
    match entry {
        Some(Node::Text(s)) => s.clone(),
        _ => String::new(),
    }
}

/// How many characters a text holds.
pub fn text_length(s: &String) -> (r: usize)
    ensures
        r == s@.len(),
{
    s.as_str().unicode_len()
}

/// The index of the latest part of an entry, and its text; 0 and the
/// empty text where the entry has no parts.
pub fn entry_latest_part(entry: Option<&Node>) -> (r: (usize, String))
    ensures
        r.0 == (if items_of(entry_view(entry)).len() == 0 {
            0
        } else {
            items_of(entry_view(entry)).len() - 1
        }),
        r.1@ == (if items_of(entry_view(entry)).len() == 0 {
            Seq::<char>::empty()
        } else {
            text_of(Some(items_of(entry_view(entry)).last()))
        }),
{
    match entry {
        Some(Node::Sequence(items)) => {
            proof {
                lemma_view_sequence(*items);
            }
            if items.len() > 0 {
                let last: usize = items.len() - 1;
                (last, entry_text(Some(&items[last])))
            } else {
                (0, String::new())
            }
        },
        _ => (0, String::new()),
    }
}

/// A copy of a list of nodes.
pub fn copy_nodes(items: &Vec<Node>) -> (r: Vec<Node>)
    ensures
        r.len() == items.len(),
        trees_of(r@) == trees_of(items@),
{
    let mut out: Vec<Node> = Vec::new();
    let mut i: usize = 0;
    while i < items.len()
        invariant
            i <= items.len(),
            out.len() == i,
            forall|j: int| 0 <= j < i ==> (#[trigger] out@[j])@ == items@[j]@,
        decreases items.len() - i,
    {
        out.push(items[i].clone());
        i += 1;
    }
    assert(trees_of(out@) =~= trees_of(items@));
    out
}

/// The parts of an entry with `text` appended to the latest part; nothing
/// where the entry has no parts.
pub fn entry_with_part_extended(entry: Option<&Node>, text: &str) -> (r: Option<Node>)
    ensures
        match r {
            Some(node) => {
                let parts = items_of(entry_view(entry));
                parts.len() > 0 && node@ == Tree::Sequence(
                    parts.update(parts.len() - 1, Tree::Text(text_of(Some(parts.last())) + text@)),
                )
            },
            None => items_of(entry_view(entry)).len() == 0,
        },
{
    match entry {
        Some(Node::Sequence(items)) => {
            proof {
                lemma_view_sequence(*items);
            }
            if items.len() > 0 {
                let last: usize = items.len() - 1;
                let mut extended = entry_text(Some(&items[last]));
                extended.append(text);
                let mut parts = copy_nodes(items);
                let ghost before = trees_of(parts@);
                parts[last] = Node::Text(extended);
                proof {
                    lemma_view_sequence(parts);
                    assert(trees_of(parts@) =~= before.update(last as int, Tree::Text(extended@)));
                }
                Some(Node::Sequence(parts))
            } else {
                None
            }
        },
        _ => None,
    }
}

/// A list of parts made of the given texts.
pub fn parts_of_texts(texts: Vec<String>) -> (r: Node)
    ensures
        r@ == Tree::Sequence(Seq::new(texts@.len(), |i: int| Tree::Text(texts@[i]@))),
{
    let mut parts: Vec<Node> = Vec::new();
    let mut i: usize = 0;
    while i < texts.len()
        invariant
            i <= texts.len(),
            parts.len() == i,
            forall|j: int| 0 <= j < i ==> (#[trigger] parts@[j])@ == Tree::Text(texts@[j]@),
        decreases texts.len() - i,
    {
        parts.push(Node::Text(texts[i].clone()));
        i += 1;
    }
    proof {
        lemma_view_sequence(parts);
        assert(trees_of(parts@) =~= Seq::new(texts@.len(), |i: int| Tree::Text(texts@[i]@)));
    }
    Node::Sequence(parts)
}

/// The parts of an entry with one more, empty part; nothing where the
/// entry is no sequence.
pub fn entry_with_part_added(entry: Option<&Node>) -> (r: Option<Node>)
    ensures
        match r {
            Some(node) => entry_view(entry) matches Some(Tree::Sequence(parts)) && node@
                == Tree::Sequence(parts.push(Tree::Text(Seq::empty()))),
            None => !(entry_view(entry) matches Some(Tree::Sequence(_))),
        },
{
    match entry {
        Some(Node::Sequence(items)) => {
            proof {
                lemma_view_sequence(*items);
            }
            let mut parts = copy_nodes(items);
            let ghost before = trees_of(parts@);
            parts.push(Node::Text(String::new()));
            proof {
                lemma_view_sequence(parts);
                assert(trees_of(parts@) =~= before.push(Tree::Text(Seq::empty())));
            }
            Some(Node::Sequence(parts))
        },
        _ => None,
    }
}

impl Node {
    /// A text node.
    pub fn text(s: &str) -> (r: Node)
        ensures
            r@ == Tree::Text(s@),
    {
        Node::Text(String::from_str(s))
    }

    /// A sequence of the given nodes.
    pub fn sequence(items: Vec<Node>) -> (r: Node)
        ensures
            r@ == Tree::Sequence(trees_of(items@)),
    {
        proof {
            lemma_view_sequence(items);
        }
        Node::Sequence(items)
    }

    /// A mapping of the given names to the given nodes, in their order.
    pub fn mapping(entries: Vec<(&str, Node)>) -> (r: Node)
        ensures
            r@ == Tree::Mapping(
                Seq::new(entries@.len(), |i: int| (entries@[i].0@, entries@[i].1@)),
            ),
    {
        let mut named: Vec<(String, Node)> = Vec::new();
        let mut i: usize = 0;
        while i < entries.len()
            invariant
                i <= entries.len(),
                named.len() == i,
                forall|j: int|
                    0 <= j < i ==> (#[trigger] named@[j]).0@ == entries@[j].0@ && named@[j].1@
                        == entries@[j].1@,
            decreases entries.len() - i,
        {
            named.push((String::from_str(entries[i].0), entries[i].1.clone()));
            i += 1;
        }
        proof {
            lemma_view_mapping(named);
            assert(entries_of(named@) =~= Seq::new(
                entries@.len(),
                |i: int| (entries@[i].0@, entries@[i].1@),
            ));
        }
        Node::Mapping(named)
    }
}

} // verus!
