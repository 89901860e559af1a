//! A sound setup graph can be staged in full: where every key that is
//! required is provided and no dependencies run in a loop, every provider
//! finds its stage.

use vstd::prelude::*;
use vstd::set_lib::lemma_len_subset;
use crate::graph::{acyclic, depends_on, is_cycle, is_provided, links, names, provides, Providers};
use crate::ids::{KeyId, ProviderId};
use crate::stages::{in_wave, placed_after, provided_keys, wave};
use crate::tracker::SetupTrackerView;
use crate::validate::is_unprovided;

verus! {

/// Provider `q` holds up provider `p` by `key`: `p` requires the key, `q`
/// provides it, and `q` is not placed.
spec fn holds_up(providers: Providers, placed: Set<ProviderId>, p: ProviderId, key: KeyId, q: ProviderId) -> bool {
    &&& providers.dom().contains(p)
    &&& providers[p].required.contains(key)
    &&& provides(providers, q, key)
    &&& !placed.contains(q)
}

/// A key and a provider that hold up `p`.
spec fn blocker(providers: Providers, placed: Set<ProviderId>, p: ProviderId) -> (KeyId, ProviderId) {
    choose|key: KeyId, q: ProviderId| holds_up(providers, placed, p, key, q)
}

/// The provider that is reached from `p` in `i` steps, each from a
/// provider to one that holds it up.
spec fn waiting(providers: Providers, placed: Set<ProviderId>, p: ProviderId, i: nat) -> ProviderId
    decreases i,
{
    if i == 0 {
        p
    } else {
        blocker(providers, placed, waiting(providers, placed, p, (i - 1) as nat)).1
    }
}

/// The key by which the provider reached in `i` steps is held up.
spec fn awaited(providers: Providers, placed: Set<ProviderId>, p: ProviderId, i: nat) -> KeyId {
    blocker(providers, placed, waiting(providers, placed, p, i)).0
}

/// Where nothing more can be placed, a provider that is not placed is held
/// up by one that is not placed either.
proof fn lemma_blocker(tracker: SetupTrackerView, placed: Set<ProviderId>, p: ProviderId)
    requires
        tracker.well_formed(),
        forall|key: KeyId| !is_unprovided(tracker, key),
        wave(tracker.providers, placed) == Set::<ProviderId>::empty(),
        tracker.providers.dom().contains(p),
        !placed.contains(p),
    ensures
        holds_up(
            tracker.providers,
            placed,
            p,
            blocker(tracker.providers, placed, p).0,
            blocker(tracker.providers, placed, p).1,
        ),
{
    let providers = tracker.providers;
    assert(!wave(providers, placed).contains(p));
    assert(!in_wave(providers, placed, p));
    let required = providers[p].required;
    let i = choose|i: int| 0 <= i < required.len() && !provided_keys(providers, placed).contains(#[trigger] required[i]);
    let key = required[i];
    assert(required.contains(key));
    assert(names(providers, p, key));
    assert(!is_unprovided(tracker, key));
    assert(is_provided(providers, key));
    let q = choose|q: ProviderId| provides(providers, q, key);
    if placed.contains(q) {
        assert(provided_keys(providers, placed).contains(key));
    }
    assert(holds_up(providers, placed, p, key, q));
}

/// Every provider that is reached is a provider that is not placed, and
/// is held up in its turn.
proof fn lemma_waiting(tracker: SetupTrackerView, placed: Set<ProviderId>, p: ProviderId, i: nat)
    requires
        tracker.well_formed(),
        forall|key: KeyId| !is_unprovided(tracker, key),
        wave(tracker.providers, placed) == Set::<ProviderId>::empty(),
        tracker.providers.dom().contains(p),
        !placed.contains(p),
    ensures
        tracker.providers.dom().contains(waiting(tracker.providers, placed, p, i)),
        !placed.contains(waiting(tracker.providers, placed, p, i)),
        holds_up(
            tracker.providers,
            placed,
            waiting(tracker.providers, placed, p, i),
            awaited(tracker.providers, placed, p, i),
            waiting(tracker.providers, placed, p, i + 1),
        ),
    decreases i,
{
    if i > 0 {
        lemma_waiting(tracker, placed, p, (i - 1) as nat);
    }
    lemma_blocker(tracker, placed, waiting(tracker.providers, placed, p, i));
}

/// The key by which a provider is held up depends on the key by which the
/// next one is.
proof fn lemma_awaited_depends(tracker: SetupTrackerView, placed: Set<ProviderId>, p: ProviderId, i: nat)
    requires
        tracker.well_formed(),
        forall|key: KeyId| !is_unprovided(tracker, key),
        wave(tracker.providers, placed) == Set::<ProviderId>::empty(),
        tracker.providers.dom().contains(p),
        !placed.contains(p),
    ensures
        depends_on(
            tracker.providers,
            awaited(tracker.providers, placed, p, i),
            awaited(tracker.providers, placed, p, i + 1),
        ),
{
    let providers = tracker.providers;
    lemma_waiting(tracker, placed, p, i);
    lemma_waiting(tracker, placed, p, i + 1);
    assert(links(
        providers,
        waiting(providers, placed, p, i + 1),
        awaited(providers, placed, p, i),
        awaited(providers, placed, p, i + 1),
    ));
}

/// Where every key that a provider names is provided and no dependencies
/// run in a loop, the staging leaves no provider out: once a wave is
/// empty, every provider is placed.
pub proof fn lemma_sound_graph_is_staged(tracker: SetupTrackerView, n: nat)
    requires
        tracker.well_formed(),
        forall|key: KeyId| !is_unprovided(tracker, key),
        acyclic(tracker.providers),
        wave(tracker.providers, placed_after(tracker.providers, n)) == Set::<ProviderId>::empty(),
    ensures
        forall|p: ProviderId| #[trigger]
            tracker.providers.dom().contains(p) ==> placed_after(tracker.providers, n).contains(p),
{
    let providers = tracker.providers;
    let placed = placed_after(providers, n);
    assert forall|p: ProviderId| #[trigger] providers.dom().contains(p) implies placed.contains(p) by {
        if !placed.contains(p) {
            // Among more providers in a row than are left, one stands twice.
            let left = providers.dom().difference(placed);
            let row = Seq::new(left.len() + 1, |i: int| waiting(providers, placed, p, i as nat));
            assert forall|i: int| 0 <= i < row.len() implies left.contains(#[trigger] row[i]) by {
                lemma_waiting(tracker, placed, p, i as nat);
            }
            if row.no_duplicates() {
                row.unique_seq_to_set();
                assert(row.to_set().subset_of(left)) by {
                    assert forall|q: ProviderId| row.to_set().contains(q) implies left.contains(q) by {
                        let i = choose|i: int| 0 <= i < row.len() && row[i] == q;
                        assert(left.contains(row[i]));
                    }
                }
                lemma_len_subset(row.to_set(), left);
                assert(false);
            }
            let (a, b) = choose|a: int, b: int| 0 <= a < row.len() && 0 <= b < row.len() && a != b && row[a] == row[b];
            let (from, to) = if a < b {
                (a as nat, b as nat)
            } else {
                (b as nat, a as nat)
            };
            assert(waiting(providers, placed, p, from) == row[from as int]);
            assert(waiting(providers, placed, p, to) == row[to as int]);
            assert(awaited(providers, placed, p, from) == awaited(providers, placed, p, to));
            // The keys by which the providers in between are held up run in a loop.
            let cycle = Seq::new((to - from) as nat, |t: int| awaited(providers, placed, p, (from + t) as nat));
            assert forall|t: int| 0 < t < cycle.len() implies depends_on(providers, cycle[t - 1], #[trigger] cycle[t]) by {
                lemma_awaited_depends(tracker, placed, p, (from + t - 1) as nat);
            }
            lemma_awaited_depends(tracker, placed, p, (to - 1) as nat);
            assert(cycle.last() == awaited(providers, placed, p, (to - 1) as nat));
            assert(cycle[0] == awaited(providers, placed, p, from));
            assert(is_cycle(providers, cycle));
            assert(false);
        }
    }
}

/// A provider that is placed stands in one of the waves.
pub proof fn lemma_placed_is_in_a_wave(providers: Providers, n: nat, p: ProviderId)
    requires
        placed_after(providers, n).contains(p),
    ensures
        exists|m: nat| m < n && #[trigger] wave(providers, placed_after(providers, m)).contains(p),
    decreases n,
{
    if n > 0 {
        let before = placed_after(providers, (n - 1) as nat);
        if before.contains(p) {
            lemma_placed_is_in_a_wave(providers, (n - 1) as nat, p);
            let m = choose|m: nat| m < n - 1 && #[trigger] wave(providers, placed_after(providers, m)).contains(p);
            assert(m < n && wave(providers, placed_after(providers, m)).contains(p));
        } else {
            assert(wave(providers, placed_after(providers, (n - 1) as nat)).contains(p));
        }
    }
}

} // verus!
