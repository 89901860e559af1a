//! Validation of the setup graph: keys that nothing provides, keys that
//! several providers provide, and closed dependency loops.

use vstd::prelude::*;
use bevy_platform::collections::{HashMap, HashSet};
use crate::collections::{
    checker_map_keys, key_set, list_map, list_map_entry, list_map_is_empty,
    list_map_new, list_map_retain_several, provider_map, provider_map_get, provider_map_keys,
    set_is_empty, set_remove,
};
use crate::search::lists_link;
use crate::graph::{acyclic, is_provided, provider_views, provides, Providers};
use crate::ids::{KeyId, ProviderId};
use crate::provider::ProviderInfo;
use crate::sets::{list_contains, set_of};
use crate::tracker::{flags_cycles, is_search_outcome, SetupTracker, SetupTrackerView};

verus! {

/// What is wrong with a setup graph. All three findings are made and
/// reported together; a finding that did not come up is empty.
#[derive(Debug)]
pub struct InvalidSetupGraph {
    /// The keys with an entry that no provider provides.
    pub unprovided: HashSet<KeyId>,
    /// For each key that two or more providers provide, those providers.
    pub duplicate_providers: HashMap<KeyId, Vec<ProviderId>>,
    /// The keys that the search for closed dependency loops flagged.
    pub cyclic_dependencies: HashSet<KeyId>,
}

/// `key` has an entry, and no provider provides it: it can never become
/// ready.
pub open spec fn is_unprovided(tracker: SetupTrackerView, key: KeyId) -> bool {
    tracker.entries.dom().contains(key) && !is_provided(tracker.providers, key)
}

/// Two distinct providers provide `key`.
pub open spec fn two_provide(providers: Providers, p: ProviderId, q: ProviderId, key: KeyId) -> bool {
    p != q && provides(providers, p, key) && provides(providers, q, key)
}

/// Two or more distinct providers provide `key`.
pub open spec fn several_provide(providers: Providers, key: KeyId) -> bool {
    exists|p: ProviderId, q: ProviderId| two_provide(providers, p, q, key)
}

/// `lists` holds, for exactly the keys that several providers provide, the
/// providers of the key, each once.
pub open spec fn lists_duplicates(lists: Map<u64, Seq<u64>>, providers: Providers) -> bool {
    &&& forall|key: KeyId| #[trigger] lists.dom().contains(key) <==> several_provide(providers, key)
    &&& forall|key: KeyId| #[trigger] lists.dom().contains(key) ==> lists[key].no_duplicates()
    &&& forall|key: KeyId, p: ProviderId|
        lists.dom().contains(key) ==> (#[trigger] lists[key].contains(p) <==> provides(providers, p, key))
}

/// The setup graph is sound: every key with an entry is provided, no key
/// by more than one provider, and there is no closed dependency loop.
pub open spec fn valid(tracker: SetupTrackerView) -> bool {
    &&& forall|key: KeyId| !is_unprovided(tracker, key)
    &&& forall|key: KeyId| !several_provide(tracker.providers, key)
    &&& acyclic(tracker.providers)
}

/// Every list of the map holds each of its items once.
spec fn lists_distinct(lists: Map<u64, Seq<u64>>) -> bool {
    forall|key: u64| #[trigger] lists.dom().contains(key) ==> lists[key].no_duplicates()
}

/// Notes the provider with handle `id` under every key that it provides,
/// once for each, and strikes those keys from the unprovided ones.
fn record_provider(
    lists: &mut HashMap<u64, Vec<u64>>,
    unprovided: &mut HashSet<u64>,
    id: ProviderId,
    info: &ProviderInfo,
)
    requires
        lists_distinct(list_map(*old(lists))),
        forall|key: KeyId| !lists_link(list_map(*old(lists)), key, id),
    ensures
        lists_distinct(list_map(*final(lists))),
        forall|key: KeyId, p: ProviderId|
            #![trigger lists_link(list_map(*final(lists)), key, p)]
            #![trigger lists_link(list_map(*old(lists)), key, p)]
            lists_link(list_map(*final(lists)), key, p) <==> lists_link(list_map(*old(lists)), key, p) || (p == id
                && info@.provides.contains(key)),
        forall|key: KeyId|
            #![trigger key_set(*final(unprovided)).contains(key)]
            #![trigger key_set(*old(unprovided)).contains(key)]
            key_set(*final(unprovided)).contains(key) <==> key_set(*old(unprovided)).contains(key)
                && !info@.provides.contains(key),
{
    let ghost lists0 = list_map(*lists);
    let ghost unprovided0 = key_set(*unprovided);
    let provided = info.provides();
    let mut j: usize = 0;
    while j < provided.len()
        invariant
            j <= provided.len(),
            provided@ == info@.provides,
            lists_distinct(list_map(*lists)),
            forall|key: KeyId, p: ProviderId|
                #![trigger lists_link(list_map(*lists), key, p)]
                #![trigger lists_link(lists0, key, p)]
                lists_link(list_map(*lists), key, p) <==> lists_link(lists0, key, p) || (p == id && exists|t: int|
                    0 <= t < j && provided@[t] == key),
            forall|key: KeyId|
                #![trigger key_set(*unprovided).contains(key)]
                #![trigger unprovided0.contains(key)]
                key_set(*unprovided).contains(key) <==> unprovided0.contains(key) && !exists|t: int|
                    0 <= t < j && provided@[t] == key,
        decreases provided.len() - j,
    {
        let key = provided[j];
        let ghost entered = list_map(*lists);
        let ghost struck = key_set(*unprovided);
        let list = list_map_entry(lists, key);
        let ghost held = list@;
        if !list_contains(list, id) {
            list.push(id);
        }
        set_remove(unprovided, key);
        j += 1;
        proof {
            let now = list_map(*lists);
            let kept = if held.contains(id) {
                held
            } else {
                held.push(id)
            };
            assert(now == entered.insert(key, kept));
            assert(entered.dom().contains(key) ==> held.no_duplicates());
            assert(kept.no_duplicates());
            assert forall|k: KeyId, p: ProviderId|
                #![trigger lists_link(now, k, p)]
                #![trigger lists_link(lists0, k, p)]
                lists_link(now, k, p) <==> lists_link(lists0, k, p) || (p == id && exists|t: int|
                    0 <= t < j && provided@[t] == k) by {
                if k == key {
                    assert(kept.contains(p) <==> held.contains(p) || p == id) by {
                        if held.contains(p) {
                            let t = choose|t: int| 0 <= t < held.len() && held[t] == p;
                            assert(kept[t] == p);
                        }
                        if p == id {
                            if !held.contains(id) {
                                assert(kept[held.len() as int] == id);
                            }
                        }
                        if kept.contains(p) {
                            let t = choose|t: int| 0 <= t < kept.len() && kept[t] == p;
                            if t < held.len() {
                                assert(held[t] == p);
                            }
                        }
                    }
                    assert(held.contains(p) <==> lists_link(entered, k, p));
                    assert(provided@[j - 1] == k);
                    if lists_link(entered, k, p) && !lists_link(lists0, k, p) {
                        let t = choose|t: int| 0 <= t < j - 1 && provided@[t] == k;
                        assert(0 <= t < j && provided@[t] == k);
                    }
                } else {
                    assert(lists_link(now, k, p) <==> lists_link(entered, k, p));
                    if lists_link(entered, k, p) && !lists_link(lists0, k, p) {
                        let t = choose|t: int| 0 <= t < j - 1 && provided@[t] == k;
                        assert(0 <= t < j && provided@[t] == k);
                    }
                    if p == id && exists|t: int| 0 <= t < j && provided@[t] == k {
                        let t = choose|t: int| 0 <= t < j && provided@[t] == k;
                        assert(0 <= t < j - 1 && provided@[t] == k);
                    }
                }
            }
            assert forall|k: KeyId|
                #![trigger key_set(*unprovided).contains(k)]
                #![trigger unprovided0.contains(k)]
                key_set(*unprovided).contains(k) <==> unprovided0.contains(k) && !exists|t: int|
                    0 <= t < j && provided@[t] == k by {
                if k == key {
                    assert(provided@[j - 1] == k);
                } else {
                    assert(key_set(*unprovided).contains(k) <==> struck.contains(k));
                    if exists|t: int| 0 <= t < j && provided@[t] == k {
                        let t = choose|t: int| 0 <= t < j && provided@[t] == k;
                        assert(0 <= t < j - 1 && provided@[t] == k);
                    }
                    if exists|t: int| 0 <= t < j - 1 && provided@[t] == k {
                        let t = choose|t: int| 0 <= t < j - 1 && provided@[t] == k;
                        assert(0 <= t < j && provided@[t] == k);
                    }
                }
            }
        }
    }
    proof {
        assert forall|k: KeyId| info@.provides.contains(k) <==> exists|t: int|
            0 <= t < j && provided@[t] == k by {
            if info@.provides.contains(k) {
                let t = choose|t: int| 0 <= t < provided@.len() && provided@[t] == k;
                assert(0 <= t < j && provided@[t] == k);
            }
        }
    }
}

impl SetupTracker {
    /// Checks the setup graph for keys that nothing provides, keys that
    /// several providers provide, and closed dependency loops. All three
    /// are looked for and reported together.
    pub fn validate(&self) -> (outcome: Result<(), InvalidSetupGraph>)
        ensures
            outcome.is_ok() <==> valid(self@),
            outcome matches Err(found) ==> {
                &&& forall|key: KeyId| #[trigger]
                    key_set(found.unprovided).contains(key) <==> is_unprovided(self@, key)
                &&& lists_duplicates(list_map(found.duplicate_providers), self@.providers)
                &&& is_search_outcome(key_set(found.cyclic_dependencies), self@)
                &&& flags_cycles(key_set(found.cyclic_dependencies), self@)
            },
    {
        let entries = self.entries();
        let known = self.providers();
        let ghost views = self@.providers;
        let keys = checker_map_keys(entries);
        let ids = provider_map_keys(known);
        let mut unprovided = set_of(keys.as_slice());
        let mut providers = list_map_new();
        let mut i: usize = 0;
        while i < ids.len()
            invariant
                i <= ids.len(),
                views == provider_views(provider_map(*known)),
                ids@.no_duplicates(),
                ids@.to_set() == provider_map(*known).dom(),
                lists_distinct(list_map(providers)),
                forall|key: KeyId, p: ProviderId| #[trigger]
                    lists_link(list_map(providers), key, p) <==> provides(views, p, key) && exists|t: int|
                        0 <= t < i && ids@[t] == p,
                forall|key: KeyId| #[trigger]
                    key_set(unprovided).contains(key) <==> keys@.to_set().contains(key) && !exists|t: int|
                        0 <= t < i && provides(views, #[trigger] ids@[t], key),
            decreases ids.len() - i,
        {
            let id = ids[i];
            let ghost lists_before = list_map(providers);
            let ghost unprovided_before = key_set(unprovided);
            proof {
                assert(ids@.to_set().contains(id));
                assert forall|key: KeyId| !lists_link(lists_before, key, id) by {
                    if lists_link(lists_before, key, id) {
                        let t = choose|t: int| 0 <= t < i && ids@[t] == id;
                        assert(ids@[t] == ids@[i as int]);
                    }
                }
            }
            match provider_map_get(known, id) {
                Some(info) => {
                    record_provider(&mut providers, &mut unprovided, id, info);
                    proof {
                        assert(views[id] == info@);
                        assert forall|key: KeyId, p: ProviderId| #[trigger]
                            lists_link(list_map(providers), key, p) <==> provides(views, p, key) && exists|t: int|
                                0 <= t < i + 1 && ids@[t] == p by {
                            assert(lists_link(list_map(providers), key, p) <==> lists_link(lists_before, key, p)
                                || (p == id && info@.provides.contains(key)));
                            if lists_link(lists_before, key, p) {
                                let t = choose|t: int| 0 <= t < i && ids@[t] == p;
                                assert(0 <= t < i + 1 && ids@[t] == p);
                            }
                            if p == id {
                                assert(ids@[i as int] == p);
                            }
                            if provides(views, p, key) && exists|t: int| 0 <= t < i + 1 && ids@[t] == p {
                                let t = choose|t: int| 0 <= t < i + 1 && ids@[t] == p;
                                if t < i {
                                    assert(lists_link(lists_before, key, p));
                                }
                            }
                        }
                        assert forall|key: KeyId| #[trigger]
                            key_set(unprovided).contains(key) <==> keys@.to_set().contains(key) && !exists|t: int|
                                0 <= t < i + 1 && provides(views, #[trigger] ids@[t], key) by {
                            assert(key_set(unprovided).contains(key) <==> unprovided_before.contains(key)
                                && !info@.provides.contains(key));
                            assert(provides(views, ids@[i as int], key) <==> info@.provides.contains(key));
                            if exists|t: int| 0 <= t < i && provides(views, #[trigger] ids@[t], key) {
                                let t = choose|t: int| 0 <= t < i && provides(views, #[trigger] ids@[t], key);
                                assert(0 <= t < i + 1 && provides(views, ids@[t], key));
                            }
                            if exists|t: int| 0 <= t < i + 1 && provides(views, #[trigger] ids@[t], key) {
                                let t = choose|t: int| 0 <= t < i + 1 && provides(views, #[trigger] ids@[t], key);
                                if t < i {
                                    assert(0 <= t < i && provides(views, ids@[t], key));
                                }
                            }
                        }
                    }
                },
                None => {},
            }
            i += 1;
        }
        let ghost all = list_map(providers);
        proof {
            assert forall|key: KeyId, p: ProviderId| #[trigger] lists_link(all, key, p) <==> provides(
                views,
                p,
                key,
            ) by {
                if provides(views, p, key) {
                    assert(ids@.to_set().contains(p));
                    let t = choose|t: int| 0 <= t < ids@.len() && ids@[t] == p;
                    assert(0 <= t < i && ids@[t] == p);
                }
            }
            assert forall|key: KeyId| #[trigger] key_set(unprovided).contains(key) <==> is_unprovided(
                self@,
                key,
            ) by {
                if is_provided(views, key) {
                    let p = choose|p: ProviderId| provides(views, p, key);
                    assert(ids@.to_set().contains(p));
                    let t = choose|t: int| 0 <= t < ids@.len() && ids@[t] == p;
                    assert(0 <= t < i && provides(views, ids@[t], key));
                }
                if exists|t: int| 0 <= t < i && provides(views, #[trigger] ids@[t], key) {
                    let t = choose|t: int| 0 <= t < i && provides(views, #[trigger] ids@[t], key);
                    assert(provides(views, ids@[t], key));
                }
            }
        }
        list_map_retain_several(&mut providers);
        proof {
            let kept = list_map(providers);
            assert forall|key: KeyId| #[trigger] kept.dom().contains(key) <==> several_provide(views, key) by {
                if kept.dom().contains(key) {
                    let list = all[key];
                    assert(list.contains(list[0]));
                    assert(list.contains(list[1]));
                    assert(lists_link(all, key, list[0]));
                    assert(lists_link(all, key, list[1]));
                    assert(two_provide(views, list[0], list[1], key));
                }
                if several_provide(views, key) {
                    let (p, q) = choose|p: ProviderId, q: ProviderId| two_provide(views, p, q, key);
                    assert(lists_link(all, key, p));
                    assert(lists_link(all, key, q));
                    let a = choose|a: int| 0 <= a < all[key].len() && all[key][a] == p;
                    let b = choose|b: int| 0 <= b < all[key].len() && all[key][b] == q;
                    assert(a != b);
                }
            }
            assert forall|key: KeyId, p: ProviderId| kept.dom().contains(key) implies (#[trigger] kept[key].contains(
                p,
            ) <==> provides(views, p, key)) by {
                assert(lists_link(all, key, p) <==> provides(views, p, key));
            }
        }
        let cyclic_dependencies = SetupTracker::detect_cycles(self);
        if !set_is_empty(&unprovided) || !list_map_is_empty(&providers) || !set_is_empty(&cyclic_dependencies) {
            proof {
                if valid(self@) {
                    assert(key_set(unprovided) =~= Set::<u64>::empty());
                    assert(list_map(providers).dom() =~= Set::<u64>::empty());
                }
            }
            Err(InvalidSetupGraph { unprovided, duplicate_providers: providers, cyclic_dependencies })
        } else {
            proof {
                assert forall|key: KeyId| !is_unprovided(self@, key) by {
                    assert(!key_set(unprovided).contains(key));
                }
                assert forall|key: KeyId| !several_provide(self@.providers, key) by {
                    assert(!list_map(providers).dom().contains(key));
                }
            }
            Ok(())
        }
    }
}

} // verus!
