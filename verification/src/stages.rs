//! Staging: the providers in waves, each wave holding the providers whose
//! requirements the waves before it provide.

use vstd::prelude::*;
use bevy_platform::collections::{HashMap, HashSet};
use crate::collections::{key_set, provider_map, provider_map_get, provider_map_keys, set_new};
use crate::graph::{provider_views, provides, Providers};
use crate::ids::{KeyId, ProviderId};
use crate::provider::ProviderInfo;
use crate::sets::{
    all_in, all_within, among, append, extend_set, lemma_among_all, lemma_among_next,
    lemma_push_distinct,
};
use crate::soundness::{lemma_placed_is_in_a_wave, lemma_sound_graph_is_staged};
use crate::tracker::SetupTracker;
use crate::validate::valid;

verus! {

/// The keys that the providers in `placed` provide.
pub open spec fn provided_keys(providers: Providers, placed: Set<ProviderId>) -> Set<KeyId> {
    Set::new(|key: KeyId| exists|p: ProviderId| placed.contains(p) && #[trigger] provides(providers, p, key))
}

/// Provider `p` is not placed yet, and the providers that are placed
/// provide every key that it requires.
pub open spec fn in_wave(providers: Providers, placed: Set<ProviderId>, p: ProviderId) -> bool {
    &&& providers.dom().contains(p)
    &&& !placed.contains(p)
    &&& all_within(providers[p].required, provided_keys(providers, placed))
}

/// The next wave: the providers that can be placed once those in `placed`
/// are.
pub open spec fn wave(providers: Providers, placed: Set<ProviderId>) -> Set<ProviderId> {
    Set::new(|p: ProviderId| in_wave(providers, placed, p))
}

/// The providers that the first `n` waves hold.
pub open spec fn placed_after(providers: Providers, n: nat) -> Set<ProviderId>
    decreases n,
{
    if n == 0 {
        Set::empty()
    } else {
        let before = placed_after(providers, (n - 1) as nat);
        before.union(wave(providers, before))
    }
}

/// The stages of a list of stages, each as a sequence.
pub open spec fn stage_views(stages: Seq<Vec<ProviderId>>) -> Seq<Seq<ProviderId>> {
    Seq::new(stages.len(), |n: int| stages[n]@)
}

/// `stages` is the staging of the providers: stage `n` holds, each once,
/// the providers of wave `n`, none of the stages is empty, and after the
/// last stage nothing more can be placed. The order within a stage is
/// left open.
pub open spec fn is_staging(providers: Providers, stages: Seq<Seq<ProviderId>>) -> bool {
    &&& forall|n: int|
        0 <= n < stages.len() ==> {
            &&& (#[trigger] stages[n]).len() > 0
            &&& stages[n].no_duplicates()
            &&& stages[n].to_set() == wave(providers, placed_after(providers, n as nat))
        }
    &&& wave(providers, placed_after(providers, stages.len())) == Set::<ProviderId>::empty()
}

/// `left` holds, each once, the providers that none of the first `n` waves
/// holds.
pub open spec fn is_left_after(providers: Providers, n: nat, left: Seq<ProviderId>) -> bool {
    &&& left.no_duplicates()
    &&& forall|p: ProviderId| #[trigger]
        left.contains(p) <==> providers.dom().contains(p) && !placed_after(providers, n).contains(p)
}

/// Every provider of a stage has all its requirements provided by the
/// stages before it, and stands in none of them.
pub proof fn lemma_stage_follows_its_requirements(
    providers: Providers,
    stages: Seq<Seq<ProviderId>>,
    n: int,
    p: ProviderId,
)
    requires
        is_staging(providers, stages),
        0 <= n < stages.len(),
        stages[n].contains(p),
    ensures
        providers.dom().contains(p),
        !placed_after(providers, n as nat).contains(p),
        placed_after(providers, (n + 1) as nat).contains(p),
        all_within(providers[p].required, provided_keys(providers, placed_after(providers, n as nat))),
{
    let placed = placed_after(providers, n as nat);
    assert(stages[n].to_set().contains(p));
    assert(in_wave(providers, placed, p));
}

/// The staging is one: two stagings of the same providers have as many
/// stages, and hold in each stage the same providers.
pub proof fn lemma_staging_is_one(providers: Providers, one: Seq<Seq<ProviderId>>, other: Seq<Seq<ProviderId>>)
    requires
        is_staging(providers, one),
        is_staging(providers, other),
    ensures
        one.len() == other.len(),
        forall|n: int| 0 <= n < one.len() ==> (#[trigger] one[n]).to_set() == other[n].to_set(),
{
    if one.len() < other.len() {
        let stage = other[one.len() as int];
        assert(stage.len() > 0);
        assert(stage.to_set().contains(stage[0]));
    }
    if other.len() < one.len() {
        let stage = one[other.len() as int];
        assert(stage.len() > 0);
        assert(stage.to_set().contains(stage[0]));
    }
}

/// Once a wave is empty, no later wave places anything.
pub proof fn lemma_placed_settles(providers: Providers, n: nat, m: nat)
    requires
        wave(providers, placed_after(providers, n)) == Set::<ProviderId>::empty(),
        n <= m,
    ensures
        placed_after(providers, m) == placed_after(providers, n),
    decreases m,
{
    if n < m {
        lemma_placed_settles(providers, n, (m - 1) as nat);
        let before = placed_after(providers, (m - 1) as nat);
        assert(before.union(wave(providers, before)) =~= before);
    }
}

/// The providers that stand in no stage are the same however many stages
/// are counted beyond the last.
pub proof fn lemma_left_is_settled(providers: Providers, n: nat, m: nat, left: Seq<ProviderId>)
    requires
        wave(providers, placed_after(providers, n)) == Set::<ProviderId>::empty(),
        wave(providers, placed_after(providers, m)) == Set::<ProviderId>::empty(),
        is_left_after(providers, n, left),
    ensures
        is_left_after(providers, m, left),
{
    if n <= m {
        lemma_placed_settles(providers, n, m);
    } else {
        lemma_placed_settles(providers, m, n);
    }
}

/// Splits the providers of `remaining` into those whose requirements are
/// all among `provided_so_far`, and the rest; with the first go the keys
/// that they provide.
fn split_wave(
    known: &HashMap<ProviderId, ProviderInfo>,
    remaining: &Vec<ProviderId>,
    provided_so_far: &HashSet<KeyId>,
) -> (parts: (Vec<ProviderId>, Vec<ProviderId>, Vec<KeyId>))
    requires
        remaining@.no_duplicates(),
        forall|i: int| 0 <= i < remaining.len() ==> provider_map(*known).dom().contains(#[trigger] remaining@[i]),
    ensures
        ({
            let (stage, rest, provided) = parts;
            let views = provider_views(provider_map(*known));
            let ready = key_set(*provided_so_far);
            &&& stage@.no_duplicates()
            &&& rest@.no_duplicates()
            &&& stage.len() + rest.len() == remaining.len()
            &&& forall|p: ProviderId| #[trigger]
                stage@.contains(p) <==> remaining@.contains(p) && all_within(views[p].required, ready)
            &&& forall|p: ProviderId| #[trigger]
                rest@.contains(p) <==> remaining@.contains(p) && !all_within(views[p].required, ready)
            &&& forall|key: KeyId| #[trigger]
                provided@.contains(key) <==> exists|p: ProviderId|
                    stage@.contains(p) && #[trigger] provides(views, p, key)
        }),
{
    let ghost views = provider_views(provider_map(*known));
    let ghost ready = key_set(*provided_so_far);
    let mut stage: Vec<ProviderId> = Vec::new();
    let mut rest: Vec<ProviderId> = Vec::new();
    let mut provided: Vec<KeyId> = Vec::new();
    let mut t: usize = 0;
    while t < remaining.len()
        invariant
            t <= remaining.len(),
            views == provider_views(provider_map(*known)),
            ready == key_set(*provided_so_far),
            remaining@.no_duplicates(),
            forall|i: int| 0 <= i < remaining.len() ==> provider_map(*known).dom().contains(#[trigger] remaining@[i]),
            stage@.no_duplicates(),
            rest@.no_duplicates(),
            stage.len() + rest.len() == t,
            forall|p: ProviderId| #[trigger]
                stage@.contains(p) <==> among(remaining@, t as int, p) && all_within(views[p].required, ready),
            forall|p: ProviderId| #[trigger]
                rest@.contains(p) <==> among(remaining@, t as int, p) && !all_within(views[p].required, ready),
            forall|key: KeyId| #[trigger]
                provided@.contains(key) <==> exists|p: ProviderId|
                    stage@.contains(p) && #[trigger] provides(views, p, key),
        decreases remaining.len() - t,
    {
        let id = remaining[t];
        let ghost stage_before = stage@;
        let ghost rest_before = rest@;
        let ghost provided_before = provided@;
        proof {
            assert(provider_map(*known).dom().contains(remaining@[t as int]));
            assert(!among(remaining@, t as int, id)) by {
                if among(remaining@, t as int, id) {
                    let u = choose|u: int| 0 <= u < t && remaining@[u] == id;
                    assert(remaining@[u] == remaining@[t as int]);
                }
            }
            assert forall|p: ProviderId|
                among(remaining@, t + 1, p) <==> among(remaining@, t as int, p) || p == id by {
                lemma_among_next(remaining@, t as int, p);
            }
        }
        match provider_map_get(known, id) {
            Some(info) => {
                assert(views[id] == info@);
                if all_in(info.required(), provided_so_far) {
                    stage.push(id);
                    append(&mut provided, info.provides());
                    proof {
                        lemma_push_distinct(stage_before, id);
                        assert forall|key: KeyId| #[trigger]
                            provided@.contains(key) <==> exists|p: ProviderId|
                                stage@.contains(p) && #[trigger] provides(views, p, key) by {
                            if provided_before.contains(key) {
                                let u = choose|u: int| 0 <= u < provided_before.len() && provided_before[u] == key;
                                assert(provided@[u] == key);
                                let p = choose|p: ProviderId|
                                    stage_before.contains(p) && #[trigger] provides(views, p, key);
                                assert(stage@.contains(p) && provides(views, p, key));
                            }
                            if info@.provides.contains(key) {
                                let u = choose|u: int| 0 <= u < info@.provides.len() && info@.provides[u] == key;
                                assert(provided@[provided_before.len() + u] == key);
                                assert(stage@.contains(id) && provides(views, id, key));
                            }
                            if provided@.contains(key) {
                                let u = choose|u: int| 0 <= u < provided@.len() && provided@[u] == key;
                                if u < provided_before.len() {
                                    assert(provided_before[u] == key);
                                } else {
                                    assert(info@.provides[u - provided_before.len()] == key);
                                }
                            }
                            if exists|p: ProviderId| stage@.contains(p) && #[trigger] provides(views, p, key) {
                                let p = choose|p: ProviderId| stage@.contains(p) && #[trigger] provides(views, p, key);
                                if p != id {
                                    assert(stage_before.contains(p) && provides(views, p, key));
                                    assert(provided_before.contains(key));
                                }
                            }
                        }
                    }
                } else {
                    rest.push(id);
                    proof {
                        lemma_push_distinct(rest_before, id);
                    }
                }
            },
            None => {
                rest.push(id);
            },
        }
        t += 1;
    }
    proof {
        assert forall|p: ProviderId| among(remaining@, t as int, p) <==> remaining@.contains(p) by {
            lemma_among_all(remaining@, p);
        }
    }
    (stage, rest, provided)
}

impl SetupTracker {
    /// The stages, and the providers that no stage holds.
    fn compute_stages(&self) -> (parts: (Vec<Vec<ProviderId>>, Vec<ProviderId>))
        ensures
            is_staging(self@.providers, stage_views(parts.0@)),
            is_left_after(self@.providers, parts.0@.len(), parts.1@),
            self@.well_formed(),
    {
        let known = self.providers();
        let ghost views = self@.providers;
        let mut remaining = provider_map_keys(known);
        let mut provided_so_far = set_new();
        let mut stages: Vec<Vec<ProviderId>> = Vec::new();
        proof {
            assert(key_set(provided_so_far) =~= provided_keys(views, placed_after(views, 0)));
            assert forall|p: ProviderId| #[trigger] remaining@.contains(p) <==> views.dom().contains(p)
                && !placed_after(views, 0).contains(p) by {
                assert(remaining@.to_set().contains(p) <==> remaining@.contains(p));
            }
        }
        while remaining.len() > 0
            invariant
                self@.well_formed(),
                views == self@.providers,
                views == provider_views(provider_map(*known)),
                is_left_after(views, stages@.len(), remaining@),
                key_set(provided_so_far) == provided_keys(views, placed_after(views, stages@.len())),
                forall|n: int|
                    0 <= n < stages@.len() ==> {
                        &&& (#[trigger] stages@[n])@.len() > 0
                        &&& stages@[n]@.no_duplicates()
                        &&& stages@[n]@.to_set() == wave(views, placed_after(views, n as nat))
                    },
            decreases remaining.len(),
        {
            let ghost done = stages@.len();
            let ghost placed = placed_after(views, done);
            proof {
                assert forall|i: int| 0 <= i < remaining.len() implies provider_map(*known).dom().contains(
                    #[trigger] remaining@[i],
                ) by {
                    assert(remaining@.contains(remaining@[i]));
                }
            }
            let (stage, rest, provided_this_stage) = split_wave(known, &remaining, &provided_so_far);
            proof {
                assert forall|p: ProviderId| stage@.to_set().contains(p) <==> wave(views, placed).contains(p) by {
                    assert(stage@.to_set().contains(p) <==> stage@.contains(p));
                }
                assert(stage@.to_set() =~= wave(views, placed));
            }
            if stage.len() == 0 {
                proof {
                    assert(wave(views, placed) =~= Set::<ProviderId>::empty());
                    assert(stage_views(stages@).len() == stages@.len());
                    assert forall|n: int| 0 <= n < stages@.len() implies stage_views(stages@)[n] == stages@[n]@ by {}
                }
                return (stages, remaining);
            }
            let ghost ready_before = key_set(provided_so_far);
            extend_set(&mut provided_so_far, provided_this_stage.as_slice());
            let ghost stages_before = stages@;
            stages.push(stage);
            proof {
                let next = placed_after(views, done + 1);
                assert(next == placed.union(wave(views, placed)));
                assert forall|key: KeyId| key_set(provided_so_far).contains(key) <==> provided_keys(
                    views,
                    next,
                ).contains(key) by {
                    if ready_before.contains(key) {
                        let p = choose|p: ProviderId| placed.contains(p) && #[trigger] provides(views, p, key);
                        assert(next.contains(p) && provides(views, p, key));
                    }
                    if provided_this_stage@.contains(key) {
                        let p = choose|p: ProviderId| stage@.contains(p) && #[trigger] provides(views, p, key);
                        assert(stage@.to_set().contains(p));
                        assert(next.contains(p) && provides(views, p, key));
                    }
                    if provided_keys(views, next).contains(key) {
                        let p = choose|p: ProviderId| next.contains(p) && #[trigger] provides(views, p, key);
                        if placed.contains(p) {
                            assert(provided_keys(views, placed).contains(key));
                        } else {
                            assert(stage@.to_set().contains(p));
                            assert(stage@.contains(p) && provides(views, p, key));
                        }
                    }
                }
                assert(key_set(provided_so_far) =~= provided_keys(views, next));
                assert forall|p: ProviderId| #[trigger] rest@.contains(p) <==> views.dom().contains(p)
                    && !next.contains(p) by {
                    assert(stage@.to_set().contains(p) <==> stage@.contains(p));
                }
                assert forall|n: int| 0 <= n < stages@.len() implies {
                    &&& (#[trigger] stages@[n])@.len() > 0
                    &&& stages@[n]@.no_duplicates()
                    &&& stages@[n]@.to_set() == wave(views, placed_after(views, n as nat))
                } by {
                    if n < done {
                        assert(stages@[n] == stages_before[n]);
                    }
                }
            }
            remaining = rest;
        }
        proof {
            let placed = placed_after(views, stages@.len());
            assert forall|p: ProviderId| !wave(views, placed).contains(p) by {
                if in_wave(views, placed, p) {
                    assert(remaining@.contains(p));
                }
            }
            assert(wave(views, placed) =~= Set::<ProviderId>::empty());
            assert(stage_views(stages@).len() == stages@.len());
            assert forall|n: int| 0 <= n < stages@.len() implies stage_views(stages@)[n] == stages@[n]@ by {}
        }
        (stages, remaining)
    }

    /// The providers in stages: the first holds the providers that require
    /// nothing, each later one the providers whose requirements the stages
    /// before it provide. The providers of a stage come in no particular
    /// order. A provider whose requirements are never all provided stands
    /// in no stage; [`SetupTracker::unstaged`] tells which those are. In a
    /// valid setup graph there is none.
    pub fn stages(&self) -> (stages: Vec<Vec<ProviderId>>)
        ensures
            is_staging(self@.providers, stage_views(stages@)),
            valid(self@) ==> forall|p: ProviderId| #[trigger]
                self@.providers.dom().contains(p) ==> exists|n: int|
                    0 <= n < stages@.len() && (#[trigger] stages@[n])@.contains(p),
    {
        let (stages, left) = self.compute_stages();
        proof {
            let providers = self@.providers;
            let count = stages@.len();
            assert(stage_views(stages@).len() == count);
            if valid(self@) {
                lemma_sound_graph_is_staged(self@, count);
                assert forall|p: ProviderId| #[trigger] providers.dom().contains(p) implies exists|n: int|
                    0 <= n < stages@.len() && (#[trigger] stages@[n])@.contains(p) by {
                    lemma_placed_is_in_a_wave(providers, count, p);
                    let m = choose|m: nat|
                        m < count && #[trigger] wave(providers, placed_after(providers, m)).contains(p);
                    assert(stage_views(stages@)[m as int] == stages@[m as int]@);
                    assert(stage_views(stages@)[m as int].to_set().contains(p));
                    assert(stages@[m as int]@.contains(p));
                }
            }
        }
        stages
    }

    /// The providers that stand in no stage: those that require a key
    /// which nothing provides, which only they themselves provide, or
    /// which only other such providers provide. The list is empty iff every
    /// provider has its stage.
    pub fn unstaged(&self) -> (left: Vec<ProviderId>)
        ensures
            exists|n: nat|
                is_left_after(self@.providers, n, left@) && #[trigger] wave(
                    self@.providers,
                    placed_after(self@.providers, n),
                ) == Set::<ProviderId>::empty(),
            valid(self@) ==> left@.len() == 0,
    {
        let (stages, left) = self.compute_stages();
        proof {
            let n = stages@.len();
            assert(stage_views(stages@).len() == n);
            assert(is_left_after(self@.providers, n, left@) && wave(
                self@.providers,
                placed_after(self@.providers, n),
            ) == Set::<ProviderId>::empty());
            if valid(self@) && left@.len() > 0 {
                lemma_sound_graph_is_staged(self@, n);
                assert(left@.contains(left@[0]));
            }
        }
        left
    }
}

} // verus!
