//! Depth-first search for closed dependency loops.

use vstd::prelude::*;
use bevy_platform::collections::{HashMap, HashSet};
use crate::collections::{
    key_set, list_map, list_map_entry, list_map_get, list_map_new, provider_map, provider_map_get,
    set_contains, set_insert, set_items, set_new, set_remove,
};
use crate::graph::{depends_on, links, provider_views};
use crate::ids::{KeyId, ProviderId};
use crate::provider::ProviderInfo;
use crate::search::{
    flagged_by_search, followed, lemma_fewer_unvisited, lists_link, lists_match, searched_all,
    searched_from, Marks,
};

verus! {

/// Appends to the list of `provided` every key of `required`.
fn add_dependencies(dependencies: &mut HashMap<u64, Vec<u64>>, provided: KeyId, required: &[KeyId])
    ensures
        forall|a: KeyId, b: KeyId|
            #![trigger lists_link(list_map(*final(dependencies)), a, b)]
            #![trigger lists_link(list_map(*old(dependencies)), a, b)]
            lists_link(list_map(*final(dependencies)), a, b) <==> lists_link(list_map(*old(dependencies)), a, b) || (a
                == provided && required@.contains(b)),
{
    let ghost before = list_map(*dependencies);
    let mut r: usize = 0;
    while r < required.len()
        invariant
            r <= required.len(),
            forall|a: KeyId, b: KeyId|
                #![trigger lists_link(list_map(*dependencies), a, b)]
                #![trigger lists_link(before, a, b)]
                lists_link(list_map(*dependencies), a, b) <==> lists_link(before, a, b) || (a == provided
                    && exists|t: int| 0 <= t < r && required@[t] == b),
        decreases required.len() - r,
    {
        let ghost entered = list_map(*dependencies);
        let on = required[r];
        let list = list_map_entry(dependencies, provided);
        let ghost held = list@;
        list.push(on);
        r += 1;
        proof {
            let now = list_map(*dependencies);
            assert(now == entered.insert(provided, held.push(on)));
            assert forall|a: KeyId, b: KeyId|
                #![trigger lists_link(now, a, b)]
                #![trigger lists_link(before, a, b)]
                lists_link(now, a, b) <==> lists_link(before, a, b) || (a == provided && exists|t: int|
                    0 <= t < r && required@[t] == b) by {
                if a == provided {
                    if held.push(on).contains(b) {
                        let t = choose|t: int| 0 <= t < held.push(on).len() && held.push(on)[t] == b;
                        if t < held.len() {
                            assert(held[t] == b);
                            assert(lists_link(entered, a, b));
                        } else {
                            assert(required@[r - 1] == b);
                        }
                    }
                    if lists_link(entered, a, b) {
                        let t = choose|t: int| 0 <= t < held.len() && held[t] == b;
                        assert(held.push(on)[t] == b);
                    }
                    if exists|t: int| 0 <= t < r && required@[t] == b {
                        let t = choose|t: int| 0 <= t < r && required@[t] == b;
                        if t == r - 1 {
                            assert(held.push(on)[held.len() as int] == b);
                        }
                    }
                } else {
                    assert(lists_link(now, a, b) <==> lists_link(entered, a, b));
                }
            }
        }
    }
}

/// Appends to the list of every key that `info` provides every key that it
/// requires.
fn add_provider(dependencies: &mut HashMap<u64, Vec<u64>>, info: &ProviderInfo)
    ensures
        forall|a: KeyId, b: KeyId|
            #![trigger lists_link(list_map(*final(dependencies)), a, b)]
            #![trigger lists_link(list_map(*old(dependencies)), a, b)]
            lists_link(list_map(*final(dependencies)), a, b) <==> lists_link(list_map(*old(dependencies)), a, b) || (
            info@.provides.contains(a) && info@.required.contains(b)),
{
    let ghost before = list_map(*dependencies);
    let provides = info.provides();
    let required = info.required();
    let mut j: usize = 0;
    while j < provides.len()
        invariant
            j <= provides.len(),
            provides@ == info@.provides,
            required@ == info@.required,
            forall|a: KeyId, b: KeyId|
                #![trigger lists_link(list_map(*dependencies), a, b)]
                #![trigger lists_link(before, a, b)]
                lists_link(list_map(*dependencies), a, b) <==> lists_link(before, a, b) || ((exists|t: int|
                    0 <= t < j && provides@[t] == a) && required@.contains(b)),
        decreases provides.len() - j,
    {
        let ghost entered = list_map(*dependencies);
        add_dependencies(dependencies, provides[j], required);
        j += 1;
        proof {
            let now = list_map(*dependencies);
            assert forall|a: KeyId, b: KeyId|
                #![trigger lists_link(now, a, b)]
                #![trigger lists_link(before, a, b)]
                lists_link(now, a, b) <==> lists_link(before, a, b) || ((exists|t: int|
                    0 <= t < j && provides@[t] == a) && required@.contains(b)) by {
                assert(lists_link(now, a, b) <==> lists_link(entered, a, b) || (a == provides@[j - 1]
                    && required@.contains(b)));
                assert(lists_link(entered, a, b) <==> lists_link(before, a, b) || ((exists|t: int|
                    0 <= t < j - 1 && provides@[t] == a) && required@.contains(b)));
            }
        }
    }
}

/// The dependency lists of the providers with the handles `ids`: for each
/// key a list, which names the keys that the key depends on.
pub(crate) fn build_dependencies(
    keys: &Vec<KeyId>,
    ids: &Vec<ProviderId>,
    providers: &HashMap<ProviderId, ProviderInfo>,
) -> (dependencies: HashMap<u64, Vec<u64>>)
    requires
        ids@.to_set() == provider_map(*providers).dom(),
    ensures
        lists_match(list_map(dependencies), provider_views(provider_map(*providers))),
{
    let ghost views = provider_views(provider_map(*providers));
    let mut dependencies = list_map_new();
    let mut k: usize = 0;
    while k < keys.len()
        invariant
            k <= keys.len(),
            forall|a: KeyId, b: KeyId| !#[trigger] lists_link(list_map(dependencies), a, b),
        decreases keys.len() - k,
    {
        let ghost entered = list_map(dependencies);
        let list = list_map_entry(&mut dependencies, keys[k]);
        let ghost held = list@;
        k += 1;
        proof {
            assert(list_map(dependencies) == entered.insert(keys@[k - 1], held));
            assert forall|a: KeyId, b: KeyId| !#[trigger] lists_link(list_map(dependencies), a, b) by {
                if lists_link(list_map(dependencies), a, b) {
                    assert(lists_link(entered, a, b));
                }
            }
        }
    }
    let mut i: usize = 0;
    while i < ids.len()
        invariant
            i <= ids.len(),
            views == provider_views(provider_map(*providers)),
            ids@.to_set() == provider_map(*providers).dom(),
            forall|a: KeyId, b: KeyId| #[trigger]
                lists_link(list_map(dependencies), a, b) <==> exists|t: int|
                    0 <= t < i && #[trigger] links(views, ids@[t], a, b),
        decreases ids.len() - i,
    {
        let ghost entered = list_map(dependencies);
        proof {
            assert(ids@.to_set().contains(ids@[i as int]));
        }
        match provider_map_get(providers, ids[i]) {
            Some(info) => {
                add_provider(&mut dependencies, info);
                proof {
                    assert(views[ids@[i as int]] == info@);
                    assert forall|a: KeyId, b: KeyId| #[trigger]
                        lists_link(list_map(dependencies), a, b) <==> exists|t: int|
                            0 <= t < i + 1 && #[trigger] links(views, ids@[t], a, b) by {
                        assert(lists_link(list_map(dependencies), a, b) <==> lists_link(entered, a, b) || (
                        info@.provides.contains(a) && info@.required.contains(b)));
                        assert(links(views, ids@[i as int], a, b) <==> info@.provides.contains(a)
                            && info@.required.contains(b));
                        if lists_link(entered, a, b) {
                            let t = choose|t: int| 0 <= t < i && #[trigger] links(views, ids@[t], a, b);
                            assert(0 <= t < i + 1 && links(views, ids@[t], a, b));
                        }
                        if exists|t: int| 0 <= t < i + 1 && #[trigger] links(views, ids@[t], a, b) {
                            let t = choose|t: int| 0 <= t < i + 1 && #[trigger] links(views, ids@[t], a, b);
                            if t < i {
                                assert(lists_link(entered, a, b));
                            }
                        }
                    }
                }
            },
            None => {},
        }
        i += 1;
    }
    proof {
        assert forall|a: KeyId, b: KeyId|
            #![trigger lists_link(list_map(dependencies), a, b)]
            #![trigger depends_on(views, a, b)]
            lists_link(list_map(dependencies), a, b) <==> depends_on(views, a, b) by {
            if depends_on(views, a, b) {
                let p = choose|p: ProviderId| links(views, p, a, b);
                assert(ids@.to_set().contains(p));
                let t = choose|t: int| 0 <= t < ids@.len() && ids@[t] == p;
                assert(links(views, ids@[t], a, b));
            }
            if lists_link(list_map(dependencies), a, b) {
                let t = choose|t: int| 0 <= t < i && #[trigger] links(views, ids@[t], a, b);
            }
        }
    }
    dependencies
}

/// The marks that three sets hold.
spec fn marks_of(visited: HashSet<u64>, rec_stack: HashSet<u64>, cycles: HashSet<u64>) -> Marks {
    Marks { visited: key_set(visited), path: key_set(rec_stack), cycles: key_set(cycles) }
}

/// Flags every key on the current path.
fn flag_path(rec_stack: &HashSet<u64>, cycles: &mut HashSet<u64>)
    ensures
        forall|k: KeyId|
            #![trigger key_set(*final(cycles)).contains(k)]
            #![trigger key_set(*old(cycles)).contains(k)]
            #![trigger key_set(*rec_stack).contains(k)]
            key_set(*final(cycles)).contains(k) <==> key_set(*old(cycles)).contains(k) || key_set(
                *rec_stack,
            ).contains(k),
{
    let nodes = set_items(rec_stack);
    let ghost before = key_set(*cycles);
    let mut i: usize = 0;
    while i < nodes.len()
        invariant
            i <= nodes.len(),
            nodes@.to_set() == key_set(*rec_stack),
            forall|k: KeyId| before.contains(k) ==> key_set(*cycles).contains(k),
            forall|k: KeyId| key_set(*cycles).contains(k) ==> before.contains(k) || key_set(*rec_stack).contains(k),
            forall|j: int| 0 <= j < i ==> key_set(*cycles).contains(#[trigger] nodes@[j]),
        decreases nodes.len() - i,
    {
        proof {
            assert(nodes@.to_set().contains(nodes@[i as int]));
        }
        set_insert(cycles, nodes[i]);
        i += 1;
    }
    proof {
        assert forall|k: KeyId| key_set(*rec_stack).contains(k) implies key_set(*cycles).contains(k) by {
            assert(nodes@.to_set().contains(k));
            let j = choose|j: int| 0 <= j < nodes@.len() && nodes@[j] == k;
            assert(key_set(*cycles).contains(nodes@[j]));
        }
    }
}

/// Searches from `key`, which was not visited before: visits every key
/// that can be reached from it through keys not yet visited, and flags the
/// whole current path whenever a dependency leads back onto it.
fn dfs_cycle_detection(
    key: KeyId,
    dependencies: &HashMap<u64, Vec<u64>>,
    visited: &mut HashSet<u64>,
    rec_stack: &mut HashSet<u64>,
    cycles: &mut HashSet<u64>,
    Ghost(universe): Ghost<Set<KeyId>>,
)
    requires
        universe.finite(),
        universe.contains(key),
        !key_set(*old(visited)).contains(key),
        forall|a: KeyId, b: KeyId| #[trigger] lists_link(list_map(*dependencies), a, b) ==> universe.contains(b),
    ensures
        marks_of(*final(visited), *final(rec_stack), *final(cycles)) == searched_from(
            list_map(*dependencies),
            universe,
            key,
            marks_of(*old(visited), *old(rec_stack), *old(cycles)),
        ),
        forall|k: KeyId| #[trigger] key_set(*old(visited)).contains(k) ==> key_set(*final(visited)).contains(k),
    decreases universe.difference(key_set(*old(visited))).len(),
{
    let ghost lists = list_map(*dependencies);
    let ghost before = marks_of(*visited, *rec_stack, *cycles);
    set_insert(visited, key);
    set_insert(rec_stack, key);
    let ghost entered = marks_of(*visited, *rec_stack, *cycles);
    proof {
        lemma_fewer_unvisited(universe, before.visited, entered.visited, key);
    }
    match list_map_get(dependencies, key) {
        Some(deps) => {
            let mut i: usize = 0;
            while i < deps.len()
                invariant
                    i <= deps.len(),
                    lists == list_map(*dependencies),
                    lists.dom().contains(key),
                    deps@ == lists[key],
                    universe.finite(),
                    universe.contains(key),
                    forall|a: KeyId, b: KeyId| #[trigger] lists_link(lists, a, b) ==> universe.contains(b),
                    before.visited == key_set(*old(visited)),
                    !before.visited.contains(key),
                    key_set(*visited).contains(key),
                    forall|k: KeyId| #[trigger] before.visited.contains(k) ==> key_set(*visited).contains(k),
                    followed(lists, universe, deps@, i as int, marks_of(*visited, *rec_stack, *cycles)) == followed(
                        lists,
                        universe,
                        deps@,
                        0,
                        entered,
                    ),
                decreases deps.len() - i,
            {
                let dep = deps[i];
                let ghost here = marks_of(*visited, *rec_stack, *cycles);
                if !set_contains(visited, dep) {
                    proof {
                        assert(deps@.contains(dep));
                        assert(lists_link(lists, key, dep));
                        lemma_fewer_unvisited(universe, before.visited, here.visited, key);
                    }
                    dfs_cycle_detection(dep, dependencies, visited, rec_stack, cycles, Ghost(universe));
                    proof {
                        assert(key_set(*visited).union(here.visited) =~= key_set(*visited));
                    }
                } else if set_contains(rec_stack, dep) {
                    flag_path(rec_stack, cycles);
                    set_insert(cycles, dep);
                    proof {
                        assert(key_set(*cycles) =~= here.cycles.union(here.path).insert(dep));
                    }
                }
                proof {
                    assert(followed(lists, universe, deps@, i as int, here) == followed(
                        lists,
                        universe,
                        deps@,
                        i + 1,
                        marks_of(*visited, *rec_stack, *cycles),
                    ));
                }
                i += 1;
            }
        },
        None => {},
    }
    set_remove(rec_stack, key);
}

/// Searches from every key of `keys` in turn, following the dependencies
/// of each key in the order of its list, and returns the keys that were
/// flagged. Every key that a list names has to be among `keys`.
pub fn find_cycles(keys: &Vec<KeyId>, dependencies: &HashMap<u64, Vec<u64>>) -> (cycles: HashSet<u64>)
    requires
        forall|a: KeyId, b: KeyId| #[trigger] lists_link(list_map(*dependencies), a, b) ==> keys@.contains(b),
    ensures
        key_set(cycles) == flagged_by_search(list_map(*dependencies), keys@),
{
    let mut visited = set_new();
    let mut rec_stack = set_new();
    let mut cycles = set_new();
    let ghost universe = keys@.to_set();
    let ghost lists = list_map(*dependencies);
    let ghost nothing = marks_of(visited, rec_stack, cycles);
    let mut i: usize = 0;
    while i < keys.len()
        invariant
            i <= keys.len(),
            universe == keys@.to_set(),
            lists == list_map(*dependencies),
            forall|a: KeyId, b: KeyId| #[trigger] lists_link(lists, a, b) ==> keys@.contains(b),
            searched_all(lists, universe, keys@, i as int, marks_of(visited, rec_stack, cycles)) == searched_all(
                lists,
                universe,
                keys@,
                0,
                nothing,
            ),
        decreases keys.len() - i,
    {
        let key = keys[i];
        let ghost here = marks_of(visited, rec_stack, cycles);
        if !set_contains(&visited, key) {
            proof {
                assert(keys@.contains(key));
                assert forall|a: KeyId, b: KeyId| #[trigger] lists_link(lists, a, b) implies universe.contains(b) by {
                    assert(keys@.contains(b));
                }
            }
            dfs_cycle_detection(key, dependencies, &mut visited, &mut rec_stack, &mut cycles, Ghost(universe));
        }
        proof {
            assert(searched_all(lists, universe, keys@, i as int, here) == searched_all(
                lists,
                universe,
                keys@,
                i + 1,
                marks_of(visited, rec_stack, cycles),
            ));
        }
        i += 1;
    }
    cycles
}

} // verus!
