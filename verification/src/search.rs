//! What the depth-first search for closed dependency loops computes.
//!
//! The search goes by lists: for each key the list of the keys that it
//! depends on. Which keys it flags depends on the order in which it takes
//! the keys and on the order of each list, so the search is written down
//! here as a function of both.

use vstd::prelude::*;
use vstd::set_lib::lemma_len_subset;
use crate::graph::{depends_on, Providers};
use crate::ids::KeyId;

verus! {

/// The list held for `key` names `on`.
pub open spec fn lists_link(lists: Map<u64, Seq<u64>>, key: KeyId, on: KeyId) -> bool {
    lists.dom().contains(key) && lists[key].contains(on)
}

/// The lists spell out the dependency relation of the providers: the list
/// of a key names exactly the keys that it depends on.
pub open spec fn lists_match(lists: Map<u64, Seq<u64>>, providers: Providers) -> bool {
    forall|key: KeyId, on: KeyId|
        #![trigger lists_link(lists, key, on)]
        #![trigger depends_on(providers, key, on)]
        lists_link(lists, key, on) <==> depends_on(providers, key, on)
}

/// Entering a key that was not visited leaves fewer keys to visit.
pub proof fn lemma_fewer_unvisited(universe: Set<KeyId>, before: Set<KeyId>, after: Set<KeyId>, key: KeyId)
    requires
        universe.finite(),
        universe.contains(key),
        !before.contains(key),
        after.contains(key),
        forall|k: KeyId| before.contains(k) ==> after.contains(k),
    ensures
        universe.difference(after).len() < universe.difference(before).len(),
{
    let d0 = universe.difference(before);
    let d1 = universe.difference(after);
    assert(d0.finite());
    assert(d0.contains(key));
    assert(d1.subset_of(d0.remove(key)));
    lemma_len_subset(d1, d0.remove(key));
}

/// The three sets of the search: the keys that were entered, those of them
/// that are on the current path, and the keys that were flagged.
pub struct Marks {
    pub visited: Set<KeyId>,
    pub path: Set<KeyId>,
    pub cycles: Set<KeyId>,
}

/// How many keys of the universe were not entered yet.
pub open spec fn unvisited(universe: Set<KeyId>, marks: Marks) -> nat {
    universe.difference(marks.visited).len()
}

/// The marks after the search from `key`, which was not entered before:
/// the key is entered and put on the path, its dependencies are followed
/// in the order of its list, and the key is taken off the path again.
pub open spec fn searched_from(lists: Map<u64, Seq<u64>>, universe: Set<KeyId>, key: KeyId, marks: Marks) -> Marks
    decreases unvisited(universe, marks), 0nat,
{
    if universe.finite() && universe.contains(key) && !marks.visited.contains(key) {
        let entered = Marks {
            visited: marks.visited.insert(key),
            path: marks.path.insert(key),
            cycles: marks.cycles,
        };
        proof {
            lemma_fewer_unvisited(universe, marks.visited, entered.visited, key);
        }
        let left = if lists.dom().contains(key) {
            followed(lists, universe, lists[key], 0, entered)
        } else {
            entered
        };
        Marks { visited: left.visited, path: left.path.remove(key), cycles: left.cycles }
    } else {
        marks
    }
}

/// The marks after the dependencies `deps` were followed from the one at
/// `i` on. A dependency that was not entered is searched from; one that is
/// on the path closes a loop, and the whole path is flagged with it; one
/// that was entered and left is passed over, and so is one that is not in
/// the universe.
pub open spec fn followed(
    lists: Map<u64, Seq<u64>>,
    universe: Set<KeyId>,
    deps: Seq<KeyId>,
    i: int,
    marks: Marks,
) -> Marks
    decreases unvisited(universe, marks), deps.len() - i + 1,
{
    if universe.finite() && 0 <= i < deps.len() {
        let dep = deps[i];
        let next = if !marks.visited.contains(dep) {
            let after = searched_from(lists, universe, dep, marks);
            Marks { visited: after.visited.union(marks.visited), path: after.path, cycles: after.cycles }
        } else if marks.path.contains(dep) {
            Marks { visited: marks.visited, path: marks.path, cycles: marks.cycles.union(marks.path).insert(dep) }
        } else {
            marks
        };
        proof {
            assert(universe.difference(next.visited).subset_of(universe.difference(marks.visited)));
            lemma_len_subset(universe.difference(next.visited), universe.difference(marks.visited));
        }
        followed(lists, universe, deps, i + 1, next)
    } else {
        marks
    }
}

/// The marks after the search from every key of `keys`, from the one at
/// `i` on, that was not entered by then.
pub open spec fn searched_all(
    lists: Map<u64, Seq<u64>>,
    universe: Set<KeyId>,
    keys: Seq<KeyId>,
    i: int,
    marks: Marks,
) -> Marks
    decreases keys.len() - i,
{
    if 0 <= i < keys.len() {
        let next = if marks.visited.contains(keys[i]) {
            marks
        } else {
            searched_from(lists, universe, keys[i], marks)
        };
        searched_all(lists, universe, keys, i + 1, next)
    } else {
        marks
    }
}

/// The keys that the search flags when it takes the keys in the order of
/// `keys`, and the dependencies of each key in the order of its list.
pub open spec fn flagged_by_search(lists: Map<u64, Seq<u64>>, keys: Seq<KeyId>) -> Set<KeyId> {
    searched_all(
        lists,
        keys.to_set(),
        keys,
        0,
        Marks { visited: Set::empty(), path: Set::empty(), cycles: Set::empty() },
    ).cycles
}

} // verus!
