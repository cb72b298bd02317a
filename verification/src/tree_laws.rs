//! What holds of reading and writing a tree.

use crate::node::{first_at, index_fits, padded, position, KeyView, Tree};
use vstd::prelude::*;

verus! {

/// What `first_at` finds: the first place at or after `from` that holds
/// `key`, or nothing where no place does.
pub proof fn lemma_first_at(entries: Seq<(Seq<char>, Tree)>, key: Seq<char>, from: int)
    requires
        0 <= from,
    ensures
        match first_at(entries, key, from) {
            Some(i) => from <= i < entries.len() && entries[i].0 == key && forall|j: int|
                from <= j < i ==> (#[trigger] entries[j]).0 != key,
            None => forall|j: int| from <= j < entries.len() ==> (#[trigger] entries[j]).0 != key,
        },
    decreases entries.len() - from,
{
    if from < entries.len() && entries[from].0 != key {
        lemma_first_at(entries, key, from + 1);
    }
}

/// The first place that holds `key` is its position.
pub proof fn lemma_position_is(entries: Seq<(Seq<char>, Tree)>, key: Seq<char>, at: int)
    requires
        0 <= at < entries.len(),
        entries[at].0 == key,
        forall|j: int| 0 <= j < at ==> (#[trigger] entries[j]).0 != key,
    ensures
        position(entries, key) == Some(at),
{
    lemma_first_at(entries, key, 0);
}

/// A key that no place holds has no position.
pub proof fn lemma_position_none(entries: Seq<(Seq<char>, Tree)>, key: Seq<char>)
    requires
        forall|j: int| 0 <= j < entries.len() ==> (#[trigger] entries[j]).0 != key,
    ensures
        position(entries, key) is None,
{
    lemma_first_at(entries, key, 0);
}

/// Writing keeps the kind of a tree.
pub proof fn lemma_set_keeps_kind(tree: Tree, key: KeyView, value: Tree)
    ensures
        tree.set(key, value) is Mapping == tree is Mapping,
        tree.set(key, value) is Sequence == tree is Sequence,
        tree.set(key, value).is_container() == tree.is_container(),
{
}

/// What was written is what is read.
pub proof fn lemma_get_after_set(tree: Tree, key: KeyView, value: Tree)
    requires
        tree is Mapping || (tree is Sequence && key is Index && index_fits(key->Index_0)),
    ensures
        tree.set(key, value).get(key) == Some(value),
{
    match tree {
        Tree::Mapping(entries) => {
            lemma_first_at(entries, key.text(), 0);
            match position(entries, key.text()) {
                Some(i) => {
                    lemma_position_is(entries.update(i, (key.text(), value)), key.text(), i);
                },
                None => {
                    lemma_position_is(
                        entries.push((key.text(), value)),
                        key.text(),
                        entries.len() as int,
                    );
                },
            }
        },
        _ => {},
    }
}

/// Writing the same value under the same key twice is writing it once.
pub proof fn lemma_set_idempotent(tree: Tree, key: KeyView, value: Tree)
    ensures
        tree.set(key, value).set(key, value) == tree.set(key, value),
{
    match tree {
        Tree::Mapping(entries) => {
            lemma_first_at(entries, key.text(), 0);
            match position(entries, key.text()) {
                Some(i) => {
                    let written = entries.update(i, (key.text(), value));
                    lemma_position_is(written, key.text(), i);
                    assert(written.update(i, (key.text(), value)) =~= written);
                },
                None => {
                    let written = entries.push((key.text(), value));
                    lemma_position_is(written, key.text(), entries.len() as int);
                    assert(written.update(entries.len() as int, (key.text(), value)) =~= written);
                },
            }
        },
        Tree::Sequence(items) => {
            match key {
                KeyView::Index(i) => {
                    if index_fits(i) {
                        let written = padded(items, i + 1).update(i as int, value);
                        assert(padded(written, i + 1) =~= written);
                        assert(written.update(i as int, value) =~= written);
                    }
                },
                KeyView::Name(_) => {},
            }
        },
        _ => {},
    }
}

/// Writing removes no name from a mapping: a name with an entry has one
/// afterwards, and it is the old entry unless the name was written.
pub proof fn lemma_set_keeps_names(tree: Tree, key: KeyView, value: Tree, name: Seq<char>)
    requires
        tree.get(KeyView::Name(name)) is Some,
    ensures
        tree.set(key, value).get(KeyView::Name(name)) is Some,
        key.text() != name ==> tree.set(key, value).get(KeyView::Name(name)) == tree.get(
            KeyView::Name(name),
        ),
{
    match tree {
        Tree::Mapping(entries) => {
            lemma_first_at(entries, name, 0);
            lemma_first_at(entries, key.text(), 0);
            let at = position(entries, name)->0;
            match position(entries, key.text()) {
                Some(i) => {
                    lemma_position_is(entries.update(i, (key.text(), value)), name, at);
                },
                None => {
                    lemma_position_is(entries.push((key.text(), value)), name, at);
                },
            }
        },
        _ => {},
    }
}

/// Writing under one name leaves what a mapping holds under another.
pub proof fn lemma_set_leaves_others(tree: Tree, key: KeyView, value: Tree, name: Seq<char>)
    requires
        tree is Mapping,
        key.text() != name,
    ensures
        tree.set(key, value).get(KeyView::Name(name)) == tree.get(KeyView::Name(name)),
{
    let entries = tree->Mapping_0;
    lemma_first_at(entries, name, 0);
    lemma_first_at(entries, key.text(), 0);
    match position(entries, key.text()) {
        Some(i) => {
            let written = entries.update(i, (key.text(), value));
            match position(entries, name) {
                Some(at) => {
                    lemma_position_is(written, name, at);
                },
                None => {
                    lemma_position_none(written, name);
                },
            }
        },
        None => {
            let written = entries.push((key.text(), value));
            match position(entries, name) {
                Some(at) => {
                    lemma_position_is(written, name, at);
                },
                None => {
                    lemma_position_none(written, name);
                },
            }
        },
    }
}

/// A mapping reads by the text of the key: two keys with one text read
/// the same entry.
pub proof fn lemma_get_by_text(tree: Tree, a: KeyView, b: KeyView)
    requires
        tree is Mapping,
        a.text() == b.text(),
    ensures
        tree.get(a) == tree.get(b),
{
}

} // verus!
