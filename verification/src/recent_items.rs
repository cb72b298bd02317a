//! A bounded log of recently added items, most recent first.

use std::collections::HashSet;
use std::hash::Hash;
use vstd::prelude::*;
use vstd::std_specs::hash::*;

verus! {

/// A bounded list that tracks recently added items, most recent first.
#[derive(Debug, Clone)]
pub struct RecentItems<T> {
    items: Vec<T>,
    max_size: usize,
}

/// The items of `items` that are not in `excluded`, in their order.
pub open spec fn items_not_in<T>(items: Seq<T>, excluded: Set<T>) -> Seq<T> {
    items.filter(|x: T| !excluded.contains(x))
}

/// The `n`-th item (counted from 1) of `items`, if there is one.
pub open spec fn nth_of<T>(items: Seq<T>, n: int) -> Option<T> {
    if 1 <= n <= items.len() {
        Some(items[n - 1])
    } else {
        None
    }
}

/// A borrowed result stands for the item `expected`, or for none.
pub open spec fn refers_to<T>(r: Option<&T>, expected: Option<T>) -> bool {
    match r {
        Some(item) => expected == Some(*item),
        None => expected is None,
    }
}

/// What `add` leaves of a list with the bound `max_size`: the new item in
/// front, and the oldest item dropped where the bound is exceeded.
pub open spec fn added<T>(items: Seq<T>, item: T, max_size: int) -> Seq<T> {
    let grown = seq![item] + items;
    if grown.len() > max_size {
        grown.drop_last()
    } else {
        grown
    }
}

/// How a filtered list is made of a filtered prefix and the rest: the
/// item at `i` comes after the filtered items before it, if it is kept.
pub proof fn lemma_filter_prefix<T>(items: Seq<T>, pred: spec_fn(T) -> bool, i: int)
    requires
        0 <= i <= items.len(),
    ensures
        items.filter(pred) == items.take(i).filter(pred) + items.skip(i).filter(pred),
        i < items.len() ==> items.take(i + 1).filter(pred) == (if pred(items[i]) {
            items.take(i).filter(pred).push(items[i])
        } else {
            items.take(i).filter(pred)
        }),
{
    assert(items =~= items.take(i) + items.skip(i));
    Seq::filter_distributes_over_add(items.take(i), items.skip(i), pred);
    if i < items.len() {
        reveal(Seq::filter);
        assert(items.take(i + 1).drop_last() =~= items.take(i));
    }
}

impl<T> RecentItems<T> {
    /// The items held, most recent first.
    pub closed spec fn view(&self) -> Seq<T> {
        self.items@
    }

    /// The bound the list was made with.
    pub closed spec fn spec_max_size(&self) -> nat {
        self.max_size as nat
    }

    /// The list holds no more items than its bound allows.
    pub open spec fn well_formed(&self) -> bool {
        self@.len() <= self.spec_max_size()
    }

    /// Create an empty list with the specified maximum size.
    pub fn new(max_size: usize) -> (r: Self)
        ensures
            r@ == Seq::<T>::empty(),
            r.spec_max_size() == max_size,
            r.well_formed(),
    {
        Self { items: Vec::with_capacity(max_size), max_size }
    }

    /// Add an item to the front of the list. If the list then exceeds its
    /// bound, the oldest item is removed.
    pub fn add(&mut self, item: T)
        requires
            old(self).well_formed(),
        ensures
            final(self).spec_max_size() == old(self).spec_max_size(),
            final(self)@ == added(old(self)@, item, old(self).spec_max_size() as int),
            final(self).well_formed(),
    {
        self.items.insert(0, item);
        assert(self.items@ =~= seq![item] + old(self).items@);
        if self.items.len() > self.max_size {
            self.items.pop();
        }
    }

    /// Get a copy of all items, most recent first.
    pub fn get_items(&self) -> (r: Vec<T>) where T: Clone
        ensures
            r@.len() == self@.len(),
            forall|i: int| 0 <= i < self@.len() ==> cloned::<T>(#[trigger] self@[i], r@[i]),
    {
        self.items.clone()
    }

    /// Get the most recently added item.
    pub fn get_most_recent(&self) -> (r: Option<&T>)
        ensures
            refers_to(r, nth_of(self@, 1)),
    {
        if self.items.len() > 0 {
            Some(&self.items[0])
        } else {
            None
        }
    }

    /// Get the nth most recently added item (1-indexed).
    pub fn get_nth_most_recent(&self, n: usize) -> (r: Option<&T>)
        ensures
            refers_to(r, nth_of(self@, n as int)),
    {
        if n < 1 || n > self.items.len() {
            return None;
        }
        Some(&self.items[n - 1])
    }

    /// Get the most recently added item that is not in the excluded set.
    pub fn get_most_recent_not_in(&self, excluded_set: &HashSet<T>) -> (r: Option<&T>) where
        T: Eq + Hash,

        requires
            obeys_key_model::<T>(),
        ensures
            refers_to(r, nth_of(items_not_in(self@, excluded_set@), 1)),
    {
        self.get_nth_most_recent_not_in(1, excluded_set)
    }

    /// Get the nth most recently added item that is not in the excluded set
    /// (1-indexed).
    pub fn get_nth_most_recent_not_in(&self, n: usize, excluded_set: &HashSet<T>) -> (r: Option<
        &T,
    >) where T: Eq + Hash
        requires
            obeys_key_model::<T>(),
        ensures
            refers_to(r, nth_of(items_not_in(self@, excluded_set@), n as int)),
    {
        broadcast use group_hash_axioms;

        if n < 1 {
            return None;
        }
        let ghost pred = |x: T| !excluded_set@.contains(x);
        let mut count: usize = 0;
        let mut i: usize = 0;
        proof {
            reveal(Seq::filter);
            assert(self.items@.take(0).filter(pred) =~= Seq::<T>::empty());
        }
        while i < self.items.len()
            invariant
                i <= self.items.len(),
                n >= 1,
                count < n,
                count == self.items@.take(i as int).filter(pred).len(),
                pred == (|x: T| !excluded_set@.contains(x)),
                obeys_key_model::<T>(),
            decreases self.items.len() - i,
        {
            proof {
                lemma_filter_prefix(self.items@, pred, i as int);
                lemma_filter_prefix(self.items@, pred, i as int + 1);
            }
            if !excluded_set.contains(&self.items[i]) {
                count += 1;
                if count == n {
                    return Some(&self.items[i]);
                }
            }
            i += 1;
        }
        proof {
            assert(self.items@.take(i as int) =~= self.items@);
        }
        None
    }
}

impl<T> Default for RecentItems<T> {
    /// An empty list with room for five items.
    fn default() -> (r: Self)
        ensures
            r@ == Seq::<T>::empty(),
            r.spec_max_size() == 5,
            r.well_formed(),
    {
        Self::new(5)
    }
}

} // verus!
