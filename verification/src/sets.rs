//! Small verified loops over lists and sets of integers.

use vstd::prelude::*;
use bevy_platform::collections::HashSet;
use crate::collections::{key_set, set_contains, set_insert, set_new};

verus! {

/// Every item of `items` is in `set`.
pub open spec fn all_within(items: Seq<u64>, set: Set<u64>) -> bool {
    forall|i: int| 0 <= i < items.len() ==> set.contains(#[trigger] items[i])
}

/// No item of `items` is in `set`.
pub open spec fn none_within(items: Seq<u64>, set: Set<u64>) -> bool {
    forall|i: int| 0 <= i < items.len() ==> !set.contains(#[trigger] items[i])
}

/// `item` stands among the first `upto` items of `items`.
pub open spec fn among(items: Seq<u64>, upto: int, item: u64) -> bool {
    exists|t: int| 0 <= t < upto && items[t] == item
}

/// One item more stands among the first items when one more is counted.
pub proof fn lemma_among_next(items: Seq<u64>, upto: int, item: u64)
    requires
        0 <= upto < items.len(),
    ensures
        among(items, upto + 1, item) <==> among(items, upto, item) || items[upto] == item,
{
    if among(items, upto, item) {
        let t = choose|t: int| 0 <= t < upto && items[t] == item;
        assert(0 <= t < upto + 1 && items[t] == item);
    }
    if items[upto] == item {
        assert(0 <= upto < upto + 1 && items[upto] == item);
    }
}

/// Among all its items stands what the list holds.
pub proof fn lemma_among_all(items: Seq<u64>, item: u64)
    ensures
        among(items, items.len() as int, item) <==> items.contains(item),
{
}

/// A list of distinct items stays one when an item is added that was not
/// in it.
pub proof fn lemma_push_distinct(items: Seq<u64>, item: u64)
    requires
        items.no_duplicates(),
        !items.contains(item),
    ensures
        items.push(item).no_duplicates(),
        forall|k: u64| #[trigger] items.push(item).contains(k) <==> items.contains(k) || k == item,
{
    let longer = items.push(item);
    assert forall|k: u64| #[trigger] longer.contains(k) <==> items.contains(k) || k == item by {
        if items.contains(k) {
            let t = choose|t: int| 0 <= t < items.len() && items[t] == k;
            assert(longer[t] == k);
        }
        if k == item {
            assert(longer[items.len() as int] == k);
        }
        if longer.contains(k) {
            let t = choose|t: int| 0 <= t < longer.len() && longer[t] == k;
            if t < items.len() {
                assert(items[t] == k);
            }
        }
    }
}

/// The keys of `keys` that are not in `known`, each once, in the order in
/// which they first stand in `keys`.
pub open spec fn fresh_keys(known: Set<u64>, keys: Seq<u64>) -> Seq<u64>
    decreases keys.len(),
{
    if keys.len() == 0 {
        Seq::empty()
    } else {
        let before = fresh_keys(known, keys.drop_last());
        if known.contains(keys.last()) || before.contains(keys.last()) {
            before
        } else {
            before.push(keys.last())
        }
    }
}

/// The fresh keys are the keys that are not known, each once.
pub proof fn lemma_fresh_keys(known: Set<u64>, keys: Seq<u64>)
    ensures
        fresh_keys(known, keys).no_duplicates(),
        forall|k: u64| #[trigger] fresh_keys(known, keys).contains(k) <==> keys.contains(k) && !known.contains(k),
    decreases keys.len(),
{
    if keys.len() > 0 {
        let shorter = keys.drop_last();
        let before = fresh_keys(known, shorter);
        lemma_fresh_keys(known, shorter);
        assert forall|k: u64| keys.contains(k) <==> shorter.contains(k) || k == keys.last() by {
            if shorter.contains(k) {
                let t = choose|t: int| 0 <= t < shorter.len() && shorter[t] == k;
                assert(keys[t] == k);
            }
            if k == keys.last() {
                assert(keys[keys.len() - 1] == k);
            }
            if keys.contains(k) {
                let t = choose|t: int| 0 <= t < keys.len() && keys[t] == k;
                if t < shorter.len() {
                    assert(shorter[t] == k);
                }
            }
        }
        if !(known.contains(keys.last()) || before.contains(keys.last())) {
            lemma_push_distinct(before, keys.last());
        }
    }
}

/// Whether a list holds an item.
pub fn list_contains(list: &Vec<u64>, item: u64) -> (found: bool)
    ensures
        found == list@.contains(item),
{
    let mut i: usize = 0;
    while i < list.len()
        invariant
            i <= list.len(),
            forall|j: int| 0 <= j < i ==> list@[j] != item,
        decreases list.len() - i,
    {
        if list[i] == item {
            return true;
        }
        i += 1;
    }
    false
}

/// Whether every item of a list is in a set.
pub fn all_in(items: &[u64], set: &HashSet<u64>) -> (all: bool)
    ensures
        all == all_within(items@, key_set(*set)),
{
    let mut i: usize = 0;
    while i < items.len()
        invariant
            i <= items.len(),
            forall|j: int| 0 <= j < i ==> key_set(*set).contains(#[trigger] items@[j]),
        decreases items.len() - i,
    {
        if !set_contains(set, items[i]) {
            return false;
        }
        i += 1;
    }
    true
}

/// Whether no item of a list is in a set.
pub fn none_in(items: &[u64], set: &HashSet<u64>) -> (none: bool)
    ensures
        none == none_within(items@, key_set(*set)),
{
    let mut i: usize = 0;
    while i < items.len()
        invariant
            i <= items.len(),
            forall|j: int| 0 <= j < i ==> !key_set(*set).contains(#[trigger] items@[j]),
        decreases items.len() - i,
    {
        if set_contains(set, items[i]) {
            return false;
        }
        i += 1;
    }
    true
}

/// Appends every item of `items` to `list`.
pub fn append(list: &mut Vec<u64>, items: &[u64])
    ensures
        final(list)@ == old(list)@ + items@,
{
    let mut i: usize = 0;
    while i < items.len()
        invariant
            i <= items.len(),
            list@ == old(list)@ + items@.subrange(0, i as int),
        decreases items.len() - i,
    {
        list.push(items[i]);
        i += 1;
        proof {
            assert(items@.subrange(0, i as int) == items@.subrange(0, i - 1).push(items@[i - 1]));
        }
    }
    proof {
        assert(items@.subrange(0, i as int) == items@);
    }
}

/// Puts every item of a list into a set.
pub fn extend_set(set: &mut HashSet<u64>, items: &[u64])
    ensures
        forall|k: u64|
            #![trigger key_set(*final(set)).contains(k)]
            #![trigger key_set(*old(set)).contains(k)]
            #![trigger items@.contains(k)]
            key_set(*final(set)).contains(k) <==> key_set(*old(set)).contains(k) || items@.contains(k),
{
    let ghost before = key_set(*set);
    let mut i: usize = 0;
    while i < items.len()
        invariant
            i <= items.len(),
            forall|k: u64|
                #![trigger key_set(*set).contains(k)]
                #![trigger before.contains(k)]
                key_set(*set).contains(k) <==> before.contains(k) || exists|t: int| 0 <= t < i && items@[t] == k,
        decreases items.len() - i,
    {
        let ghost entered = key_set(*set);
        set_insert(set, items[i]);
        i += 1;
        proof {
            assert forall|k: u64|
                #![trigger key_set(*set).contains(k)]
                #![trigger before.contains(k)]
                key_set(*set).contains(k) <==> before.contains(k) || exists|t: int|
                    0 <= t < i && items@[t] == k by {
                if k == items@[i - 1] {
                    assert(items@[i - 1] == k);
                }
                if entered.contains(k) && !before.contains(k) {
                    let t = choose|t: int| 0 <= t < i - 1 && items@[t] == k;
                    assert(0 <= t < i && items@[t] == k);
                }
                if exists|t: int| 0 <= t < i && items@[t] == k {
                    let t = choose|t: int| 0 <= t < i && items@[t] == k;
                    if t < i - 1 {
                        assert(entered.contains(k));
                    }
                }
            }
        }
    }
    proof {
        assert forall|k: u64|
            #![trigger key_set(*set).contains(k)]
            #![trigger before.contains(k)]
            #![trigger items@.contains(k)]
            key_set(*set).contains(k) <==> before.contains(k) || items@.contains(k) by {
            if items@.contains(k) {
                let t = choose|t: int| 0 <= t < items@.len() && items@[t] == k;
                assert(0 <= t < i && items@[t] == k);
            }
        }
    }
}

/// The set of the items of a list.
pub fn set_of(items: &[u64]) -> (set: HashSet<u64>)
    ensures
        key_set(set) == items@.to_set(),
{
    let mut set = set_new();
    extend_set(&mut set, items);
    proof {
        assert forall|k: u64| key_set(set).contains(k) <==> items@.to_set().contains(k) by {
            assert(items@.to_set().contains(k) <==> items@.contains(k));
        }
        assert(key_set(set) =~= items@.to_set());
    }
    set
}

} // verus!
