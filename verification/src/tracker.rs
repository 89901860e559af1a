//! The registry of setup keys and providers.

use vstd::prelude::*;
use vstd::std_specs::cmp::PartialEqSpec;
use bevy_ecs::world::World;
use bevy_platform::collections::{HashMap, HashSet};
use crate::collections::{
    checker_map, checker_map_contains, checker_map_insert, checker_map_keys, checker_map_new,
    key_set, list_map, provider_map, provider_map_insert, provider_map_keys, provider_map_new,
};
use crate::cycles::{build_dependencies, find_cycles};
use crate::flagging::lemma_search_flags_loops;
use crate::search::{flagged_by_search, lists_link, lists_match};
use crate::graph::{
    acyclic, depends_on, is_cycle, leads_to_cycle, lemma_acyclic_iff_no_key_leads_to_cycle,
    lemma_provider_views_dom, links, names, provider_views, Providers,
};
use crate::ids::{CallbackId, KeyId, ProgressCheckerId, ProviderId};
use crate::progress::Progress;
use crate::provider::{ProviderInfo, ProviderInfoView};
use crate::sets::{
    all_within, among, append, fresh_keys, lemma_among_all, lemma_among_next, lemma_fresh_keys,
    list_contains,
};
use crate::world::SetupKey;

verus! {

/// What a [`SetupTracker`] holds, as mathematical maps.
pub struct SetupTrackerView {
    /// The progress checker of each key that was ever named.
    pub entries: Map<KeyId, ProgressCheckerId>,
    /// The metadata of each provider, by its handle.
    pub providers: Providers,
    /// The completion callback.
    pub on_finished: CallbackId,
    /// The overall progress that was computed last.
    pub last_progress: Progress,
}

impl SetupTrackerView {
    /// There are finitely many providers, and every key that a provider
    /// names has an entry.
    pub open spec fn well_formed(self) -> bool {
        &&& self.providers.dom().finite()
        &&& forall|p: ProviderId, key: KeyId| #[trigger]
            names(self.providers, p, key) ==> self.entries.dom().contains(key)
    }
}

/// `flagged` is what a search for closed dependency loops may flag: keys
/// with an entry that lead to a loop, at least one on every loop.
pub open spec fn flags_cycles(flagged: Set<KeyId>, tracker: SetupTrackerView) -> bool {
    &&& forall|key: KeyId| #[trigger]
        flagged.contains(key) ==> tracker.entries.dom().contains(key) && leads_to_cycle(tracker.providers, key)
    &&& forall|cycle: Seq<KeyId>| #[trigger]
        is_cycle(tracker.providers, cycle) ==> exists|i: int|
            0 <= i < cycle.len() && flagged.contains(#[trigger] cycle[i])
}

/// The search may take the keys in the order of `keys`, and the
/// dependencies of each key in the order of its list in `lists`: `keys`
/// holds every key with an entry once, and the lists name for each key the
/// keys that it depends on.
pub open spec fn is_search_order(keys: Seq<KeyId>, lists: Map<u64, Seq<u64>>, tracker: SetupTrackerView) -> bool {
    &&& keys.no_duplicates()
    &&& keys.to_set() == tracker.entries.dom()
    &&& lists_match(lists, tracker.providers)
}

/// `flagged` is what the depth-first search flags in one of the orders
/// that it may take.
pub open spec fn is_search_outcome(flagged: Set<KeyId>, tracker: SetupTrackerView) -> bool {
    exists|keys: Seq<KeyId>, lists: Map<u64, Seq<u64>>| #[trigger]
        is_search_order(keys, lists, tracker) && flagged == flagged_by_search(lists, keys)
}

/// Where one key depends on another, both have an entry.
proof fn lemma_dependencies_are_keys(tracker: SetupTrackerView, keys: Seq<KeyId>)
    requires
        tracker.well_formed(),
        keys.to_set() == tracker.entries.dom(),
    ensures
        forall|a: KeyId, b: KeyId| #[trigger]
            depends_on(tracker.providers, a, b) ==> keys.contains(a) && keys.contains(b),
{
    assert forall|a: KeyId, b: KeyId| #[trigger] depends_on(tracker.providers, a, b) implies keys.contains(a)
        && keys.contains(b) by {
        let p = choose|p: ProviderId| links(tracker.providers, p, a, b);
        assert(names(tracker.providers, p, a));
        assert(names(tracker.providers, p, b));
        assert(keys.to_set().contains(a));
        assert(keys.to_set().contains(b));
    }
}

/// In whatever order the search goes, it flags keys with an entry that
/// lead to a loop, and on every loop at least one.
pub proof fn lemma_search_outcome_flags_cycles(flagged: Set<KeyId>, tracker: SetupTrackerView)
    requires
        tracker.well_formed(),
        is_search_outcome(flagged, tracker),
    ensures
        flags_cycles(flagged, tracker),
{
    let (keys, lists) = choose|keys: Seq<KeyId>, lists: Map<u64, Seq<u64>>| #[trigger]
        is_search_order(keys, lists, tracker) && flagged == flagged_by_search(lists, keys);
    let providers = tracker.providers;
    lemma_dependencies_are_keys(tracker, keys);
    lemma_search_flags_loops(providers, lists, keys);
    assert forall|key: KeyId| #[trigger] flagged.contains(key) implies tracker.entries.dom().contains(key) by {
        assert(keys.contains(key));
        assert(keys.to_set().contains(key));
    }
}

/// Nothing is flagged iff there is no closed dependency loop.
pub proof fn lemma_flags_none_iff_acyclic(flagged: Set<KeyId>, tracker: SetupTrackerView)
    requires
        flags_cycles(flagged, tracker),
    ensures
        (flagged == Set::<KeyId>::empty()) <==> acyclic(tracker.providers),
{
    lemma_acyclic_iff_no_key_leads_to_cycle(tracker.providers);
    if acyclic(tracker.providers) {
        assert(flagged =~= Set::<KeyId>::empty());
    }
    if flagged == Set::<KeyId>::empty() {
        assert forall|cycle: Seq<KeyId>| !is_cycle(tracker.providers, cycle) by {
            if is_cycle(tracker.providers, cycle) {
                let i = choose|i: int| 0 <= i < cycle.len() && flagged.contains(#[trigger] cycle[i]);
                assert(flagged.contains(cycle[i]));
            }
        }
    }
}

/// What is kept as the last progress when `new` comes in where `old` was
/// kept: `new`, unless the two are equal as numbers.
pub open spec fn recorded(old: Progress, new: Progress) -> Progress {
    if old.eq_spec(&new) {
        old
    } else {
        new
    }
}

/// The registry: the progress checker of every key, the metadata of every
/// provider, the completion callback, and the overall progress computed
/// last.
#[derive(Debug)]
pub struct SetupTracker {
    entries: HashMap<KeyId, ProgressCheckerId>,
    providers: HashMap<ProviderId, ProviderInfo>,
    on_finished: CallbackId,
    last_progress: Progress,
}

impl View for SetupTracker {
    type V = SetupTrackerView;

    closed spec fn view(&self) -> SetupTrackerView {
        SetupTrackerView {
            entries: checker_map(self.entries),
            providers: provider_views(provider_map(self.providers)),
            on_finished: self.on_finished,
            last_progress: self.last_progress,
        }
    }
}

impl SetupTracker {
    #[verifier::type_invariant]
    spec fn keys_have_entries(self) -> bool {
        self@.well_formed()
    }

    /// A tracker without keys or providers, with the given completion
    /// callback and no progress.
    pub fn new(on_finished: CallbackId) -> (tracker: SetupTracker)
        ensures
            tracker@.entries == Map::<KeyId, ProgressCheckerId>::empty(),
            tracker@.providers == Map::<ProviderId, ProviderInfoView>::empty(),
            tracker@.on_finished == on_finished,
            tracker@.last_progress@ == 0,
            tracker@.well_formed(),
    {
        let entries = checker_map_new();
        let providers = provider_map_new();
        proof {
            lemma_provider_views_dom(provider_map(providers));
            assert(provider_views(provider_map(providers)) =~= Map::<ProviderId, ProviderInfoView>::empty());
        }
        SetupTracker { entries, providers, on_finished, last_progress: Progress::zero() }
    }

    /// Gives `key` the progress checker with handle `checker`, in place of
    /// any that it had.
    pub fn insert_entry(&mut self, key: KeyId, checker: ProgressCheckerId)
        ensures
            final(self)@ == (SetupTrackerView {
                entries: old(self)@.entries.insert(key, checker),
                ..old(self)@
            }),
            final(self)@.well_formed(),
    {
        let ghost before = self@;
        proof {
            use_type_invariant(&*self);
            assert(before.entries == checker_map(self.entries));
            assert(before.providers == provider_views(provider_map(self.providers)));
        }
        checker_map_insert(&mut self.entries, key, checker);
    }

    /// The keys for which registering `provider` registers a progress
    /// checker: the keys that the provider names and that have no entry,
    /// each once, the required keys before the provided ones.
    pub fn missing_keys(&self, provider: &ProviderInfo) -> (missing: Vec<KeyId>)
        ensures
            missing@ == fresh_keys(self@.entries.dom(), provider@.required + provider@.provides),
    {
        let mut named: Vec<KeyId> = Vec::new();
        append(&mut named, provider.required());
        append(&mut named, provider.provides());
        let mut missing: Vec<KeyId> = Vec::new();
        let mut i: usize = 0;
        proof {
            assert(named@.take(0) =~= Seq::<KeyId>::empty());
        }
        while i < named.len()
            invariant
                i <= named.len(),
                named@ == provider@.required + provider@.provides,
                missing@ == fresh_keys(self@.entries.dom(), named@.take(i as int)),
            decreases named.len() - i,
        {
            let key = named[i];
            proof {
                assert(named@.take(i + 1).drop_last() =~= named@.take(i as int));
                assert(named@.take(i + 1).last() == key);
            }
            if !checker_map_contains(&self.entries, key) && !list_contains(&missing, key) {
                missing.push(key);
            }
            i += 1;
        }
        proof {
            assert(named@.take(i as int) =~= named@);
        }
        missing
    }

    /// Gives every key of `missing` a progress checker, which `setup_keys`
    /// registers with the world.
    fn register_keys<S: SetupKey>(&mut self, missing: &Vec<KeyId>, setup_keys: &S, world: &mut World)
        ensures
            final(self)@.providers == old(self)@.providers,
            final(self)@.on_finished == old(self)@.on_finished,
            final(self)@.last_progress == old(self)@.last_progress,
            forall|key: KeyId|
                #![all_triggers]
                final(self)@.entries.dom().contains(key) <==> old(self)@.entries.dom().contains(key)
                    || missing@.contains(key),
            forall|key: KeyId|
                #![all_triggers]
                old(self)@.entries.dom().contains(key) && !missing@.contains(key) ==> final(self)@.entries[key] == old(
                    self,
                )@.entries[key],
    {
        let mut i: usize = 0;
        while i < missing.len()
            invariant
                i <= missing.len(),
                self@.providers == old(self)@.providers,
                self@.on_finished == old(self)@.on_finished,
                self@.last_progress == old(self)@.last_progress,
                forall|key: KeyId|
                    #![all_triggers]
                    self@.entries.dom().contains(key) <==> old(self)@.entries.dom().contains(key) || among(
                        missing@,
                        i as int,
                        key,
                    ),
                forall|key: KeyId|
                    #![all_triggers]
                    old(self)@.entries.dom().contains(key) && !missing@.contains(key) ==> self@.entries[key] == old(
                        self,
                    )@.entries[key],
            decreases missing.len() - i,
        {
            let key = missing[i];
            let ghost entered = self@.entries;
            proof {
                use_type_invariant(&*self);
                assert(missing@.contains(key));
            }
            let checker = setup_keys.register_progress_checker(key, world);
            checker_map_insert(&mut self.entries, key, checker);
            proof {
                assert(self@.entries == entered.insert(key, checker));
                assert forall|k: KeyId|
                    #![all_triggers]
                    self@.entries.dom().contains(k) <==> old(self)@.entries.dom().contains(k) || among(
                        missing@,
                        i + 1,
                        k,
                    ) by {
                    lemma_among_next(missing@, i as int, k);
                    assert(entered.dom().contains(k) <==> old(self)@.entries.dom().contains(k) || among(
                        missing@,
                        i as int,
                        k,
                    ));
                }
            }
            i += 1;
        }
        proof {
            assert forall|k: KeyId|
                #![all_triggers]
                self@.entries.dom().contains(k) <==> old(self)@.entries.dom().contains(k) || missing@.contains(
                    k,
                ) by {
                lemma_among_all(missing@, k);
                assert(self@.entries.dom().contains(k) <==> old(self)@.entries.dom().contains(k) || among(
                    missing@,
                    i as int,
                    k,
                ));
            }
        }
    }

    /// Registers a provider under the handle `system`, in place of any that
    /// was registered under that handle before. Every key that the provider
    /// names and that has no entry yet gets one, with a progress checker
    /// that `setup_keys` registers with the world: that is asked once for
    /// each key of [`SetupTracker::missing_keys`], in that order. The keys
    /// that have an entry keep their checker: for them nothing is registered
    /// again.
    pub fn register_provider<S: SetupKey>(
        &mut self,
        system: ProviderId,
        provider: ProviderInfo,
        setup_keys: &S,
        world: &mut World,
    )
        ensures
            final(self)@.providers == old(self)@.providers.insert(system, provider@),
            final(self)@.on_finished == old(self)@.on_finished,
            final(self)@.last_progress == old(self)@.last_progress,
            forall|key: KeyId|
                #![all_triggers]
                final(self)@.entries.dom().contains(key) <==> old(self)@.entries.dom().contains(key)
                    || provider@.required.contains(key) || provider@.provides.contains(key),
            forall|key: KeyId|
                #![all_triggers]
                old(self)@.entries.dom().contains(key) ==> final(self)@.entries[key] == old(self)@.entries[key],
            all_within(provider@.required, old(self)@.entries.dom()) && all_within(
                provider@.provides,
                old(self)@.entries.dom(),
            ) ==> final(self)@.entries == old(self)@.entries,
            final(self)@.well_formed(),
    {
        let missing = self.missing_keys(&provider);
        self.register_keys(&missing, setup_keys, world);
        let ghost before = provider_map(self.providers);
        let ghost entries = self@.entries;
        proof {
            use_type_invariant(&*self);
            let named = provider@.required + provider@.provides;
            lemma_fresh_keys(old(self)@.entries.dom(), named);
            assert forall|key: KeyId|
                named.contains(key) <==> provider@.required.contains(key) || provider@.provides.contains(key) by {
                if provider@.required.contains(key) {
                    let t = choose|t: int| 0 <= t < provider@.required.len() && provider@.required[t] == key;
                    assert(named[t] == key);
                }
                if provider@.provides.contains(key) {
                    let t = choose|t: int| 0 <= t < provider@.provides.len() && provider@.provides[t] == key;
                    assert(named[provider@.required.len() + t] == key);
                }
                if named.contains(key) {
                    let t = choose|t: int| 0 <= t < named.len() && named[t] == key;
                    if t < provider@.required.len() {
                        assert(provider@.required[t] == key);
                    } else {
                        assert(provider@.provides[t - provider@.required.len()] == key);
                    }
                }
            }
            assert forall|key: KeyId|
                entries.dom().contains(key) <==> old(self)@.entries.dom().contains(key)
                    || provider@.required.contains(key) || provider@.provides.contains(key) by {
                assert(entries.dom().contains(key) <==> old(self)@.entries.dom().contains(key)
                    || missing@.contains(key));
            }
            assert forall|key: KeyId| old(self)@.entries.dom().contains(key) implies entries[key] == old(
                self,
            )@.entries[key] by {
                assert(!missing@.contains(key));
            }
            if all_within(provider@.required, old(self)@.entries.dom()) && all_within(
                provider@.provides,
                old(self)@.entries.dom(),
            ) {
                assert forall|key: KeyId| entries.dom().contains(key) implies old(self)@.entries.dom().contains(
                    key,
                ) by {
                    if provider@.required.contains(key) {
                        let i = choose|i: int| 0 <= i < provider@.required.len() && provider@.required[i] == key;
                        assert(old(self)@.entries.dom().contains(provider@.required[i]));
                    }
                    if provider@.provides.contains(key) {
                        let i = choose|i: int| 0 <= i < provider@.provides.len() && provider@.provides[i] == key;
                        assert(old(self)@.entries.dom().contains(provider@.provides[i]));
                    }
                }
                assert(entries =~= old(self)@.entries);
            }
            let after = provider_views(before.insert(system, provider));
            assert(after =~= provider_views(before).insert(system, provider@));
            assert forall|p: ProviderId, key: KeyId| #[trigger] names(after, p, key) implies entries.dom().contains(
                key,
            ) by {
                if p != system {
                    assert(names(provider_views(before), p, key));
                }
            }
        }
        provider_map_insert(&mut self.providers, system, provider);
    }

    /// Keeps `progress` as the overall progress computed last, unless it
    /// equals, as a number, the one that is kept already.
    pub fn record_progress(&mut self, progress: Progress)
        ensures
            final(self)@ == (SetupTrackerView {
                last_progress: recorded(old(self)@.last_progress, progress),
                ..old(self)@
            }),
            final(self)@.well_formed(),
    {
        proof {
            use_type_invariant(&*self);
        }
        if self.last_progress != progress {
            proof {
                let next = SetupTracker {
                    entries: self.entries,
                    providers: self.providers,
                    on_finished: self.on_finished,
                    last_progress: progress,
                };
                assert(next@.entries == self@.entries);
                assert(next@.providers == self@.providers);
                assert(next@.well_formed());
            }
            self.last_progress = progress;
        }
    }

    /// The overall progress that was computed last.
    pub fn last_progress(&self) -> (progress: Progress)
        ensures
            progress == self@.last_progress,
    {
        self.last_progress
    }

    /// The completion callback.
    pub fn on_finished(&self) -> (callback: CallbackId)
        ensures
            callback == self@.on_finished,
    {
        self.on_finished
    }

    /// The progress checker of every key.
    pub fn entries(&self) -> (entries: &HashMap<KeyId, ProgressCheckerId>)
        ensures
            checker_map(*entries) == self@.entries,
            self@.well_formed(),
    {
        proof {
            use_type_invariant(self);
        }
        &self.entries
    }

    /// The metadata of every provider.
    pub fn providers(&self) -> (providers: &HashMap<ProviderId, ProviderInfo>)
        ensures
            provider_views(provider_map(*providers)) == self@.providers,
            self@.well_formed(),
    {
        proof {
            use_type_invariant(self);
        }
        &self.providers
    }

    /// Searches the dependency graph for closed loops, depth first from
    /// every key in turn, and returns the keys that it flags: whenever a
    /// dependency leads back onto the current path, every key on the path.
    /// Which keys those are depends on the order in which the maps hand
    /// out the keys and the providers; in every order each flagged key leads
    /// to a loop, and each loop holds a flagged key, so that nothing is
    /// flagged iff there is no loop.
    pub fn detect_cycles(tracker: &SetupTracker) -> (cycles: HashSet<KeyId>)
        ensures
            is_search_outcome(key_set(cycles), tracker@),
            flags_cycles(key_set(cycles), tracker@),
            (key_set(cycles) == Set::<KeyId>::empty()) <==> acyclic(tracker@.providers),
    {
        proof {
            use_type_invariant(tracker);
        }
        let keys = checker_map_keys(&tracker.entries);
        let ids = provider_map_keys(&tracker.providers);
        let dependencies = build_dependencies(&keys, &ids, &tracker.providers);
        let ghost providers = tracker@.providers;
        proof {
            lemma_dependencies_are_keys(tracker@, keys@);
            assert forall|a: KeyId, b: KeyId| #[trigger] lists_link(list_map(dependencies), a, b) implies keys@.contains(
                b,
            ) by {
                assert(depends_on(providers, a, b));
            }
        }
        let cycles = find_cycles(&keys, &dependencies);
        proof {
            assert(is_search_order(keys@, list_map(dependencies), tracker@));
            lemma_search_outcome_flags_cycles(key_set(cycles), tracker@);
            lemma_flags_none_iff_acyclic(key_set(cycles), tracker@);
        }
        cycles
    }
}

} // verus!
