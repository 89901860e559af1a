//! What the depth-first search flags, whatever order it takes: every key
//! that it flags leads to a closed dependency loop, and every loop holds a
//! key that it flags.

use vstd::prelude::*;
use vstd::set_lib::lemma_len_subset;
use crate::graph::{depends_on, is_chain, is_cycle, is_lasso, leads_to_cycle, Providers};
use crate::ids::KeyId;
use crate::search::{
    flagged_by_search, followed, lemma_fewer_unvisited, lists_link, lists_match, searched_all,
    searched_from, unvisited, Marks,
};

verus! {

/// What the proof keeps track of besides the marks: the keys on the
/// current path in the order in which they were entered, and for each key
/// that was left again the moment at which it was left.
struct Search {
    path: Seq<KeyId>,
    rank: Map<KeyId, nat>,
    clock: nat,
}

/// The dependency of a key that was left on `v` is accounted for: `v` was
/// left before it, or the key was flagged when it met `v` on the path.
spec fn settled(rank: Map<KeyId, nat>, marks: Marks, u: KeyId, v: KeyId) -> bool {
    ||| (rank.dom().contains(v) && rank[v] < rank[u])
    ||| (marks.cycles.contains(u) && marks.visited.contains(v))
}

/// The dependency of the key that is being searched on `v` has been looked
/// at.
spec fn examined(s: Search, marks: Marks, key: KeyId, v: KeyId) -> bool {
    ||| (s.rank.dom().contains(v) && s.rank[v] < s.clock)
    ||| (marks.cycles.contains(key) && marks.visited.contains(v))
}

/// `b` knows all that `a` knows of the keys that were left.
spec fn extends(a: Search, b: Search) -> bool {
    &&& a.clock <= b.clock
    &&& forall|k: KeyId| #[trigger]
        a.rank.dom().contains(k) ==> b.rank.dom().contains(k) && b.rank[k] == a.rank[k]
}

/// The later marks hold all that the earlier ones hold, and the same path.
spec fn grows(before: Marks, after: Marks) -> bool {
    &&& after.path == before.path
    &&& forall|k: KeyId| #[trigger] before.visited.contains(k) ==> after.visited.contains(k)
    &&& forall|k: KeyId| #[trigger] before.cycles.contains(k) ==> after.cycles.contains(k)
}

/// Every dependency leads to a key of the universe.
spec fn closed(providers: Providers, universe: Set<KeyId>) -> bool {
    forall|a: KeyId, b: KeyId| #[trigger] depends_on(providers, a, b) ==> universe.contains(b)
}

/// What holds between two steps of the search.
spec fn search_inv(providers: Providers, universe: Set<KeyId>, marks: Marks, s: Search) -> bool {
    &&& forall|k: KeyId| #[trigger] marks.visited.contains(k) ==> universe.contains(k)
    &&& forall|k: KeyId|
        #![trigger marks.path.contains(k)]
        #![trigger s.path.contains(k)]
        marks.path.contains(k) <==> s.path.contains(k)
    &&& forall|k: KeyId| #[trigger] marks.path.contains(k) ==> marks.visited.contains(k)
    &&& is_chain(providers, s.path)
    &&& forall|k: KeyId|
        #![trigger s.rank.dom().contains(k)]
        #![trigger marks.visited.contains(k)]
        s.rank.dom().contains(k) <==> marks.visited.contains(k) && !marks.path.contains(k)
    &&& forall|k: KeyId| #[trigger] s.rank.dom().contains(k) ==> s.rank[k] < s.clock
    &&& forall|u: KeyId, v: KeyId|
        s.rank.dom().contains(u) && #[trigger] depends_on(providers, u, v) ==> settled(s.rank, marks, u, v)
    &&& forall|c: KeyId| #[trigger]
        marks.cycles.contains(c) ==> marks.visited.contains(c) && leads_to_cycle(providers, c)
}

/// Where the last key of a chain depends on a key of the chain, every key
/// of the chain leads to a closed loop.
proof fn lemma_path_leads_to_cycle(providers: Providers, path: Seq<KeyId>, i: int, j: int)
    requires
        is_chain(providers, path),
        0 <= i < path.len(),
        0 <= j < path.len(),
        depends_on(providers, path.last(), path[j]),
    ensures
        leads_to_cycle(providers, path[i]),
{
    let n = path.len() as int;
    let chain = path.subrange(i, n) + path.subrange(j, n);
    assert forall|t: int| 0 < t < chain.len() implies depends_on(providers, chain[t - 1], #[trigger] chain[t]) by {
        if t < n - i {
            assert(chain[t] == path[i + t]);
            assert(chain[t - 1] == path[i + t - 1]);
        } else if t == n - i {
            assert(chain[t] == path[j]);
            assert(chain[t - 1] == path[n - 1]);
        } else {
            assert(chain[t] == path[j + (t - (n - i))]);
            assert(chain[t - 1] == path[j + (t - (n - i)) - 1]);
        }
    }
    assert(chain.last() == path.last());
    assert(chain[n - i] == path[j]);
    assert(chain[0] == path[i]);
    assert(is_lasso(providers, chain, n - i));
}

/// Along a chain of keys that were left and not flagged, the moments of
/// leaving go down.
proof fn lemma_ranks_descend(providers: Providers, marks: Marks, s: Search, chain: Seq<KeyId>, t: int)
    requires
        is_chain(providers, chain),
        forall|u: KeyId, v: KeyId|
            s.rank.dom().contains(u) && #[trigger] depends_on(providers, u, v) ==> settled(s.rank, marks, u, v),
        forall|i: int|
            0 <= i < chain.len() ==> s.rank.dom().contains(#[trigger] chain[i]) && !marks.cycles.contains(chain[i]),
        0 <= t < chain.len(),
    ensures
        s.rank[chain[t]] + t <= s.rank[chain[0]],
    decreases t,
{
    if t > 0 {
        lemma_ranks_descend(providers, marks, s, chain, t - 1);
        assert(depends_on(providers, chain[t - 1], chain[t]));
        assert(settled(s.rank, marks, chain[t - 1], chain[t]));
    }
}

/// Once every key was left, each closed loop holds a flagged key.
proof fn lemma_cycle_is_flagged(providers: Providers, marks: Marks, s: Search, cycle: Seq<KeyId>)
    requires
        is_cycle(providers, cycle),
        forall|u: KeyId, v: KeyId|
            s.rank.dom().contains(u) && #[trigger] depends_on(providers, u, v) ==> settled(s.rank, marks, u, v),
        forall|i: int| 0 <= i < cycle.len() ==> s.rank.dom().contains(#[trigger] cycle[i]),
    ensures
        exists|i: int| 0 <= i < cycle.len() && marks.cycles.contains(#[trigger] cycle[i]),
{
    if forall|i: int| 0 <= i < cycle.len() ==> !marks.cycles.contains(#[trigger] cycle[i]) {
        let last = cycle.len() - 1;
        lemma_ranks_descend(providers, marks, s, cycle, last);
        assert(depends_on(providers, cycle[last], cycle[0]));
        assert(settled(s.rank, marks, cycle[last], cycle[0]));
        assert(false);
    }
}

/// The search from a key keeps what holds between two steps.
proof fn lemma_searched_from(
    providers: Providers,
    lists: Map<u64, Seq<u64>>,
    universe: Set<KeyId>,
    key: KeyId,
    marks: Marks,
    search: Search,
) -> (found: Search)
    requires
        universe.finite(),
        universe.contains(key),
        !marks.visited.contains(key),
        lists_match(lists, providers),
        closed(providers, universe),
        search.path.len() > 0 ==> depends_on(providers, search.path.last(), key),
        search_inv(providers, universe, marks, search),
    ensures
        grows(marks, searched_from(lists, universe, key, marks)),
        searched_from(lists, universe, key, marks).visited.contains(key),
        found.path == search.path,
        extends(search, found),
        search_inv(providers, universe, searched_from(lists, universe, key, marks), found),
    decreases unvisited(universe, marks), 0nat,
{
    let entered = Marks { visited: marks.visited.insert(key), path: marks.path.insert(key), cycles: marks.cycles };
    let cur = Search { path: search.path.push(key), rank: search.rank, clock: search.clock };
    lemma_fewer_unvisited(universe, marks.visited, entered.visited, key);
    assert forall|k: KeyId| entered.path.contains(k) <==> cur.path.contains(k) by {
        if search.path.contains(k) {
            let j = choose|j: int| 0 <= j < search.path.len() && search.path[j] == k;
            assert(cur.path[j] == k);
        }
        if k == key {
            assert(cur.path[search.path.len() as int] == k);
        }
        if cur.path.contains(k) {
            let j = choose|j: int| 0 <= j < cur.path.len() && cur.path[j] == k;
            if j < search.path.len() {
                assert(search.path[j] == k);
            }
        }
    }
    assert forall|i: int| 0 < i < cur.path.len() implies depends_on(providers, cur.path[i - 1], #[trigger] cur.path[i]) by {
        if i < search.path.len() {
            assert(cur.path[i] == search.path[i]);
            assert(cur.path[i - 1] == search.path[i - 1]);
        }
    }
    assert(search_inv(providers, universe, entered, cur));
    let left = if lists.dom().contains(key) {
        followed(lists, universe, lists[key], 0, entered)
    } else {
        entered
    };
    let got = if lists.dom().contains(key) {
        assert(cur.path.last() == key);
        lemma_followed(providers, lists, universe, key, 0, entered, cur)
    } else {
        cur
    };
    assert forall|v: KeyId| depends_on(providers, key, v) implies examined(got, left, key, v) by {
        assert(lists_link(lists, key, v));
        let j = choose|j: int| 0 <= j < lists[key].len() && lists[key][j] == v;
        assert(examined(got, left, key, lists[key][j]));
    }
    let after = Marks { visited: left.visited, path: left.path.remove(key), cycles: left.cycles };
    assert(after == searched_from(lists, universe, key, marks));
    assert(after.path =~= marks.path);
    let done = Search { path: search.path, rank: got.rank.insert(key, got.clock), clock: got.clock + 1 };
    assert forall|u: KeyId, v: KeyId|
        done.rank.dom().contains(u) && #[trigger] depends_on(providers, u, v) implies settled(
        done.rank,
        after,
        u,
        v,
    ) by {
        if u == key {
            assert(examined(got, left, key, v));
        } else {
            assert(settled(got.rank, left, u, v));
        }
    }
    assert forall|k: KeyId| #[trigger] search.rank.dom().contains(k) implies done.rank.dom().contains(k)
        && done.rank[k] == search.rank[k] by {
        assert(got.rank.dom().contains(k));
    }
    done
}

/// What holds of the key on top of the path before its dependency at `i`
/// is followed.
spec fn following(
    providers: Providers,
    lists: Map<u64, Seq<u64>>,
    universe: Set<KeyId>,
    key: KeyId,
    i: int,
    marks: Marks,
    cur: Search,
) -> bool {
    &&& universe.finite()
    &&& lists_match(lists, providers)
    &&& closed(providers, universe)
    &&& lists.dom().contains(key)
    &&& 0 <= i <= lists[key].len()
    &&& cur.path.len() > 0
    &&& cur.path.last() == key
    &&& marks.visited.contains(key)
    &&& search_inv(providers, universe, marks, cur)
    &&& forall|j: int| 0 <= j < i ==> examined(cur, marks, key, #[trigger] lists[key][j])
}

/// What holds once the dependencies of the key on top of the path were
/// followed from the one at `i` on.
spec fn followed_through(
    providers: Providers,
    lists: Map<u64, Seq<u64>>,
    universe: Set<KeyId>,
    key: KeyId,
    i: int,
    marks: Marks,
    cur: Search,
    found: Search,
) -> bool {
    let after = followed(lists, universe, lists[key], i, marks);
    &&& grows(marks, after)
    &&& found.path == cur.path
    &&& extends(cur, found)
    &&& search_inv(providers, universe, after, found)
    &&& forall|j: int| 0 <= j < lists[key].len() ==> examined(found, after, key, #[trigger] lists[key][j])
}

/// The marks after the dependency at `i` was followed.
spec fn stepped(lists: Map<u64, Seq<u64>>, universe: Set<KeyId>, deps: Seq<KeyId>, i: int, marks: Marks) -> Marks {
    let dep = deps[i];
    if !marks.visited.contains(dep) {
        let after = searched_from(lists, universe, dep, marks);
        Marks { visited: after.visited.union(marks.visited), path: after.path, cycles: after.cycles }
    } else if marks.path.contains(dep) {
        Marks { visited: marks.visited, path: marks.path, cycles: marks.cycles.union(marks.path).insert(dep) }
    } else {
        marks
    }
}

/// A dependency that was searched from has been followed.
proof fn lemma_step_searched(
    providers: Providers,
    lists: Map<u64, Seq<u64>>,
    universe: Set<KeyId>,
    key: KeyId,
    i: int,
    marks: Marks,
    cur: Search,
    got: Search,
)
    requires
        following(providers, lists, universe, key, i, marks, cur),
        i < lists[key].len(),
        !marks.visited.contains(lists[key][i]),
        grows(marks, searched_from(lists, universe, lists[key][i], marks)),
        searched_from(lists, universe, lists[key][i], marks).visited.contains(lists[key][i]),
        got.path == cur.path,
        extends(cur, got),
        search_inv(providers, universe, searched_from(lists, universe, lists[key][i], marks), got),
    ensures
        stepped(lists, universe, lists[key], i, marks) == searched_from(lists, universe, lists[key][i], marks),
        following(providers, lists, universe, key, i + 1, stepped(lists, universe, lists[key], i, marks), got),
{
    let deps = lists[key];
    let dep = deps[i];
    let after = searched_from(lists, universe, dep, marks);
    let next = stepped(lists, universe, deps, i, marks);
    assert(next.visited =~= after.visited);
    assert(next == after);
    assert(!after.path.contains(dep)) by {
        assert(!marks.path.contains(dep));
    }
    assert(got.rank.dom().contains(dep));
    assert forall|j: int| 0 <= j < i + 1 implies examined(got, next, key, #[trigger] deps[j]) by {
        if j < i {
            assert(examined(cur, marks, key, deps[j]));
        }
    }
}

/// A dependency that stands on the path has been followed once the path
/// is flagged.
proof fn lemma_step_flagged(
    providers: Providers,
    lists: Map<u64, Seq<u64>>,
    universe: Set<KeyId>,
    key: KeyId,
    i: int,
    marks: Marks,
    cur: Search,
)
    requires
        following(providers, lists, universe, key, i, marks, cur),
        i < lists[key].len(),
        marks.visited.contains(lists[key][i]),
        marks.path.contains(lists[key][i]),
    ensures
        grows(marks, stepped(lists, universe, lists[key], i, marks)),
        following(providers, lists, universe, key, i + 1, stepped(lists, universe, lists[key], i, marks), cur),
{
    let deps = lists[key];
    let dep = deps[i];
    let next = stepped(lists, universe, deps, i, marks);
    assert(deps.contains(dep));
    assert(lists_link(lists, key, dep));
    assert(depends_on(providers, key, dep));
    assert(marks.path.contains(key)) by {
        assert(cur.path.contains(cur.path[cur.path.len() - 1]));
    }
    assert forall|c: KeyId| #[trigger] next.cycles.contains(c) implies next.visited.contains(c) && leads_to_cycle(
        providers,
        c,
    ) by {
        if !marks.cycles.contains(c) {
            assert(marks.path.contains(c));
            let at = choose|at: int| 0 <= at < cur.path.len() && cur.path[at] == c;
            let back = choose|back: int| 0 <= back < cur.path.len() && cur.path[back] == dep;
            lemma_path_leads_to_cycle(providers, cur.path, at, back);
        }
    }
    assert forall|u: KeyId, v: KeyId|
        cur.rank.dom().contains(u) && #[trigger] depends_on(providers, u, v) implies settled(
        cur.rank,
        next,
        u,
        v,
    ) by {
        assert(settled(cur.rank, marks, u, v));
    }
    assert forall|j: int| 0 <= j < i + 1 implies examined(cur, next, key, #[trigger] deps[j]) by {
        if j < i {
            assert(examined(cur, marks, key, deps[j]));
        }
    }
}

/// A dependency that was entered and left has been followed.
proof fn lemma_step_passed(
    providers: Providers,
    lists: Map<u64, Seq<u64>>,
    universe: Set<KeyId>,
    key: KeyId,
    i: int,
    marks: Marks,
    cur: Search,
)
    requires
        following(providers, lists, universe, key, i, marks, cur),
        i < lists[key].len(),
        marks.visited.contains(lists[key][i]),
        !marks.path.contains(lists[key][i]),
    ensures
        stepped(lists, universe, lists[key], i, marks) == marks,
        following(providers, lists, universe, key, i + 1, marks, cur),
{
    let deps = lists[key];
    assert(cur.rank.dom().contains(deps[i]));
    assert forall|j: int| 0 <= j < i + 1 implies examined(cur, marks, key, #[trigger] deps[j]) by {
        if j < i {
            assert(examined(cur, marks, key, deps[j]));
        }
    }
}

/// What was followed from the next dependency on was followed from this
/// one on.
proof fn lemma_step_joins(
    providers: Providers,
    lists: Map<u64, Seq<u64>>,
    universe: Set<KeyId>,
    key: KeyId,
    i: int,
    marks: Marks,
    cur: Search,
    got: Search,
    found: Search,
)
    requires
        universe.finite(),
        0 <= i < lists[key].len(),
        grows(marks, stepped(lists, universe, lists[key], i, marks)),
        got.path == cur.path,
        extends(cur, got),
        followed_through(
            providers,
            lists,
            universe,
            key,
            i + 1,
            stepped(lists, universe, lists[key], i, marks),
            got,
            found,
        ),
    ensures
        followed_through(providers, lists, universe, key, i, marks, cur, found),
{
    let next = stepped(lists, universe, lists[key], i, marks);
    assert(followed(lists, universe, lists[key], i, marks) == followed(lists, universe, lists[key], i + 1, next));
    assert forall|k: KeyId| #[trigger] cur.rank.dom().contains(k) implies found.rank.dom().contains(k)
        && found.rank[k] == cur.rank[k] by {
        assert(got.rank.dom().contains(k));
    }
}

/// Following the dependencies of the key on top of the path keeps what
/// holds between two steps, and looks at every one of them.
proof fn lemma_followed(
    providers: Providers,
    lists: Map<u64, Seq<u64>>,
    universe: Set<KeyId>,
    key: KeyId,
    i: int,
    marks: Marks,
    cur: Search,
) -> (found: Search)
    requires
        following(providers, lists, universe, key, i, marks, cur),
    ensures
        followed_through(providers, lists, universe, key, i, marks, cur, found),
    decreases unvisited(universe, marks), lists[key].len() - i + 1,
{
    let deps = lists[key];
    if i < deps.len() {
        let dep = deps[i];
        let next = stepped(lists, universe, deps, i, marks);
        let got = if !marks.visited.contains(dep) {
            assert(depends_on(providers, key, dep)) by {
                assert(deps.contains(dep));
                assert(lists_link(lists, key, dep));
            }
            let got = lemma_searched_from(providers, lists, universe, dep, marks, cur);
            lemma_step_searched(providers, lists, universe, key, i, marks, cur, got);
            got
        } else if marks.path.contains(dep) {
            lemma_step_flagged(providers, lists, universe, key, i, marks, cur);
            cur
        } else {
            lemma_step_passed(providers, lists, universe, key, i, marks, cur);
            cur
        };
        assert(grows(marks, next));
        assert(unvisited(universe, next) <= unvisited(universe, marks)) by {
            assert(universe.difference(next.visited).subset_of(universe.difference(marks.visited)));
            lemma_len_subset(universe.difference(next.visited), universe.difference(marks.visited));
        }
        let found = lemma_followed(providers, lists, universe, key, i + 1, next, got);
        lemma_step_joins(providers, lists, universe, key, i, marks, cur, got, found);
        found
    } else {
        cur
    }
}

/// The search from every key in turn keeps what holds between two steps,
/// and enters every key.
proof fn lemma_searched_all(
    providers: Providers,
    lists: Map<u64, Seq<u64>>,
    keys: Seq<KeyId>,
    i: int,
    marks: Marks,
    cur: Search,
) -> (found: Search)
    requires
        lists_match(lists, providers),
        closed(providers, keys.to_set()),
        0 <= i <= keys.len(),
        cur.path.len() == 0,
        search_inv(providers, keys.to_set(), marks, cur),
        forall|j: int| 0 <= j < i ==> marks.visited.contains(#[trigger] keys[j]),
    ensures
        found.path.len() == 0,
        search_inv(providers, keys.to_set(), searched_all(lists, keys.to_set(), keys, i, marks), found),
        forall|j: int|
            0 <= j < keys.len() ==> searched_all(lists, keys.to_set(), keys, i, marks).visited.contains(
                #[trigger] keys[j],
            ),
    decreases keys.len() - i,
{
    let universe = keys.to_set();
    if i < keys.len() {
        let key = keys[i];
        assert(keys.contains(key));
        if marks.visited.contains(key) {
            lemma_searched_all(providers, lists, keys, i + 1, marks, cur)
        } else {
            let got = lemma_searched_from(providers, lists, universe, key, marks, cur);
            let next = searched_from(lists, universe, key, marks);
            lemma_searched_all(providers, lists, keys, i + 1, next, got)
        }
    } else {
        cur
    }
}

/// Whatever order the search takes, every key that it flags is one of the
/// keys and leads to a closed dependency loop, and every closed loop holds
/// a key that it flags.
pub proof fn lemma_search_flags_loops(providers: Providers, lists: Map<u64, Seq<u64>>, keys: Seq<KeyId>)
    requires
        lists_match(lists, providers),
        forall|a: KeyId, b: KeyId| #[trigger] depends_on(providers, a, b) ==> keys.contains(a) && keys.contains(b),
    ensures
        forall|k: KeyId| #[trigger]
            flagged_by_search(lists, keys).contains(k) ==> keys.contains(k) && leads_to_cycle(providers, k),
        forall|cycle: Seq<KeyId>| #[trigger]
            is_cycle(providers, cycle) ==> exists|i: int|
                0 <= i < cycle.len() && flagged_by_search(lists, keys).contains(#[trigger] cycle[i]),
{
    let nothing = Marks { visited: Set::empty(), path: Set::empty(), cycles: Set::empty() };
    let start = Search { path: Seq::empty(), rank: Map::empty(), clock: 0 };
    let found = lemma_searched_all(providers, lists, keys, 0, nothing, start);
    let marks = searched_all(lists, keys.to_set(), keys, 0, nothing);
    assert forall|k: KeyId| #[trigger] marks.cycles.contains(k) implies keys.contains(k) && leads_to_cycle(
        providers,
        k,
    ) by {
        assert(marks.visited.contains(k));
        assert(keys.to_set().contains(k));
    }
    assert forall|cycle: Seq<KeyId>| #[trigger] is_cycle(providers, cycle) implies exists|i: int|
        0 <= i < cycle.len() && marks.cycles.contains(#[trigger] cycle[i]) by {
        assert forall|t: int| 0 <= t < cycle.len() implies found.rank.dom().contains(#[trigger] cycle[t]) by {
            if t + 1 < cycle.len() {
                assert(depends_on(providers, cycle[t + 1 - 1], cycle[t + 1]));
            } else {
                assert(depends_on(providers, cycle[t], cycle[0]));
            }
            assert(keys.contains(cycle[t]));
            let j = choose|j: int| 0 <= j < keys.len() && keys[j] == cycle[t];
            assert(marks.visited.contains(keys[j]));
            assert(!found.path.contains(cycle[t]));
        }
        lemma_cycle_is_flagged(providers, marks, found, cycle);
    }
}

} // verus!
