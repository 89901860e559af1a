//! The dependency graph that a set of providers spans, and what a cycle in
//! it is.

use vstd::prelude::*;
use crate::ids::{KeyId, ProviderId};
use crate::provider::{ProviderInfo, ProviderInfoView};

verus! {

/// The providers of a tracker, each by its view.
pub type Providers = Map<ProviderId, ProviderInfoView>;

/// The views of the provider metadata that a map holds.
pub open spec fn provider_views(m: Map<ProviderId, ProviderInfo>) -> Providers {
    Map::new(|p: ProviderId| m.dom().contains(p), |p: ProviderId| m[p]@)
}

/// Provider `p` provides `key`.
pub open spec fn provides(providers: Providers, p: ProviderId, key: KeyId) -> bool {
    providers.dom().contains(p) && providers[p].provides.contains(key)
}

/// The views are those of the providers that the map holds, no more.
pub proof fn lemma_provider_views_dom(m: Map<ProviderId, ProviderInfo>)
    ensures
        provider_views(m).dom() == m.dom(),
{
    assert(provider_views(m).dom() =~= m.dom());
}

/// Provider `p` names `key`, as a key that it requires or provides.
pub open spec fn names(providers: Providers, p: ProviderId, key: KeyId) -> bool {
    providers.dom().contains(p) && (providers[p].provides.contains(key) || providers[p].required.contains(key))
}

/// Some provider provides `key`.
pub open spec fn is_provided(providers: Providers, key: KeyId) -> bool {
    exists|p: ProviderId| provides(providers, p, key)
}

/// Provider `p` provides `key` and requires `on`.
pub open spec fn links(providers: Providers, p: ProviderId, key: KeyId, on: KeyId) -> bool {
    provides(providers, p, key) && providers[p].required.contains(on)
}

/// `key` depends on `on`: some provider that provides `key` requires `on`.
pub open spec fn depends_on(providers: Providers, key: KeyId, on: KeyId) -> bool {
    exists|p: ProviderId| links(providers, p, key, on)
}

/// Each key of `chain` but the first is one that the key before it depends
/// on. The empty sequence is a chain too.
pub open spec fn is_chain(providers: Providers, chain: Seq<KeyId>) -> bool {
    forall|i: int| 0 < i < chain.len() ==> depends_on(providers, chain[i - 1], #[trigger] chain[i])
}

/// `cycle` is a closed dependency loop: a chain of at least one key whose
/// last key depends on its first.
pub open spec fn is_cycle(providers: Providers, cycle: Seq<KeyId>) -> bool {
    &&& cycle.len() > 0
    &&& is_chain(providers, cycle)
    &&& depends_on(providers, cycle.last(), cycle[0])
}

/// `chain` runs into itself: it is a chain of at least one key, and its
/// last key depends on its key at index `back`.
pub open spec fn is_lasso(providers: Providers, chain: Seq<KeyId>, back: int) -> bool {
    &&& is_chain(providers, chain)
    &&& 0 <= back < chain.len()
    &&& depends_on(providers, chain.last(), chain[back])
}

/// `key` lies on a closed dependency loop.
pub open spec fn on_cycle(providers: Providers, key: KeyId) -> bool {
    exists|cycle: Seq<KeyId>| #[trigger] is_cycle(providers, cycle) && cycle[0] == key
}

/// Following dependencies from `key` one can run into a closed loop: `key`
/// lies on a loop or depends, directly or through other keys, on a key that
/// does. Such a key can never become ready.
pub open spec fn leads_to_cycle(providers: Providers, key: KeyId) -> bool {
    exists|chain: Seq<KeyId>, back: int| #[trigger] is_lasso(providers, chain, back) && chain[0] == key
}

/// No closed dependency loop exists.
pub open spec fn acyclic(providers: Providers) -> bool {
    forall|cycle: Seq<KeyId>| !is_cycle(providers, cycle)
}

/// A chain that runs into itself holds a closed loop: the part of the chain
/// from the key it runs into.
pub proof fn lemma_lasso_holds_cycle(providers: Providers, chain: Seq<KeyId>, back: int)
    requires
        is_lasso(providers, chain, back),
    ensures
        is_cycle(providers, chain.subrange(back, chain.len() as int)),
        on_cycle(providers, chain[back]),
{
    let cycle = chain.subrange(back, chain.len() as int);
    assert forall|i: int| 0 < i < cycle.len() implies depends_on(providers, cycle[i - 1], #[trigger] cycle[i]) by {
        assert(cycle[i] == chain[back + i]);
        assert(cycle[i - 1] == chain[back + i - 1]);
    }
    assert(cycle.last() == chain.last());
    assert(cycle[0] == chain[back]);
    assert(is_cycle(providers, cycle));
}

/// A key on a closed loop leads to one.
pub proof fn lemma_on_cycle_leads_to_cycle(providers: Providers, key: KeyId)
    requires
        on_cycle(providers, key),
    ensures
        leads_to_cycle(providers, key),
{
    let cycle = choose|cycle: Seq<KeyId>| #[trigger] is_cycle(providers, cycle) && cycle[0] == key;
    assert(is_lasso(providers, cycle, 0));
}

/// No key leads to a closed loop iff there is none: the keys that can never
/// become ready for a loop's sake exist exactly when a loop does.
pub proof fn lemma_acyclic_iff_no_key_leads_to_cycle(providers: Providers)
    ensures
        acyclic(providers) <==> forall|key: KeyId| !leads_to_cycle(providers, key),
{
    if acyclic(providers) {
        assert forall|key: KeyId| !leads_to_cycle(providers, key) by {
            if leads_to_cycle(providers, key) {
                let (chain, back) = choose|chain: Seq<KeyId>, back: int| #[trigger] is_lasso(providers, chain, back) && chain[0] == key;
                lemma_lasso_holds_cycle(providers, chain, back);
            }
        }
    }
    if forall|key: KeyId| !leads_to_cycle(providers, key) {
        assert forall|cycle: Seq<KeyId>| !is_cycle(providers, cycle) by {
            if is_cycle(providers, cycle) {
                assert(is_lasso(providers, cycle, 0));
                assert(leads_to_cycle(providers, cycle[0]));
            }
        }
    }
}

} // verus!
