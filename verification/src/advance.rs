//! One step of the setup: which keys are ready, which providers run, how
//! far the whole setup has come.

use vstd::prelude::*;
use bevy_ecs::world::World;
use bevy_platform::collections::HashSet;
use crate::collections::{
    checker_map, checker_map_get, checker_map_keys, key_set, provider_map, provider_map_get,
    provider_map_keys, set_insert, set_new,
};
use crate::graph::provider_views;
use crate::ids::{KeyId, ProviderId};
use crate::progress::{finished_bits, Progress};
use crate::provider::may_run;
use crate::sets::{among, lemma_among_all, lemma_among_next, lemma_push_distinct};
use crate::tracker::{recorded, SetupTracker, SetupTrackerView};
use crate::world::{run_action, run_progress_checker, CheckError, SetupKey};

verus! {

/// The keys of a list of samples, in the order of the samples.
pub open spec fn sample_keys(samples: Seq<(KeyId, Progress)>) -> Seq<KeyId> {
    Seq::new(samples.len(), |i: int| samples[i].0)
}

/// One of the first `upto` samples is of `key`, and is finished or not as
/// `finished` says.
pub open spec fn sampled(samples: Seq<(KeyId, Progress)>, upto: int, key: KeyId, finished: bool) -> bool {
    exists|i: int| 0 <= i < upto && (#[trigger] samples[i]).0 == key && finished_bits(samples[i].1@) == finished
}

/// The keys of one snapshot, parted by whether their progress is finished.
#[derive(Debug)]
pub struct Readiness {
    /// The keys whose progress is finished.
    pub ready: HashSet<KeyId>,
    /// The keys whose progress is not finished.
    pub pending: HashSet<KeyId>,
}

/// What one step of the setup did.
#[derive(Debug)]
pub struct SetupStep {
    /// The keys that were ready when the step began.
    pub ready: HashSet<KeyId>,
    /// The keys that were not.
    pub pending: HashSet<KeyId>,
    /// The providers that the step ran, or tried to.
    pub ran: Vec<ProviderId>,
    /// Those of them that the world could not run.
    pub failed: Vec<ProviderId>,
    /// The overall progress after the providers ran.
    pub progress: Progress,
    /// Whether that progress is finished, so that the completion callback
    /// was called.
    pub finished: bool,
    /// Whether the world ran the completion callback.
    pub callback_ran: bool,
}

/// Parts the keys of a snapshot into the ready and the pending ones.
pub fn readiness(samples: &Vec<(KeyId, Progress)>) -> (parts: Readiness)
    ensures
        forall|key: KeyId| #[trigger]
            key_set(parts.ready).contains(key) <==> sampled(samples@, samples@.len() as int, key, true),
        forall|key: KeyId| #[trigger]
            key_set(parts.pending).contains(key) <==> sampled(samples@, samples@.len() as int, key, false),
{
    let mut ready = set_new();
    let mut pending = set_new();
    let mut i: usize = 0;
    while i < samples.len()
        invariant
            i <= samples.len(),
            forall|key: KeyId| #[trigger] key_set(ready).contains(key) <==> sampled(samples@, i as int, key, true),
            forall|key: KeyId| #[trigger]
                key_set(pending).contains(key) <==> sampled(samples@, i as int, key, false),
        decreases samples.len() - i,
    {
        let (key, progress) = samples[i];
        let ghost ready_before = key_set(ready);
        let ghost pending_before = key_set(pending);
        let done = progress.finished();
        if done {
            set_insert(&mut ready, key);
        } else {
            set_insert(&mut pending, key);
        }
        proof {
            assert forall|k: KeyId, f: bool|
                sampled(samples@, i + 1, k, f) <==> sampled(samples@, i as int, k, f) || (k == key && f == done) by {
                if sampled(samples@, i as int, k, f) {
                    let u = choose|u: int|
                        0 <= u < i && (#[trigger] samples@[u]).0 == k && finished_bits(samples@[u].1@) == f;
                    assert(0 <= u < i + 1 && samples@[u].0 == k && finished_bits(samples@[u].1@) == f);
                }
                if k == key && f == done {
                    assert(samples@[i as int].0 == k && finished_bits(samples@[i as int].1@) == f);
                }
            }
        }
        i += 1;
    }
    Readiness { ready, pending }
}

impl SetupTracker {
    /// Asks the progress checker of every key once, and returns what each
    /// said. The answers are up to the world; a checker that the world
    /// cannot run is an error.
    pub fn check_all(&self, world: &mut World) -> (outcome: Result<Vec<(KeyId, Progress)>, CheckError>)
        ensures
            outcome matches Ok(samples) ==> sample_keys(samples@).no_duplicates() && sample_keys(
                samples@,
            ).to_set() == self@.entries.dom(),
            outcome matches Err(error) ==> error matches CheckError::CheckerFailed(key)
                && self@.entries.dom().contains(key),
    {
        let entries = self.entries();
        let keys = checker_map_keys(entries);
        let mut samples: Vec<(KeyId, Progress)> = Vec::new();
        let mut i: usize = 0;
        while i < keys.len()
            invariant
                i <= keys.len(),
                checker_map(*entries) == self@.entries,
                keys@.to_set() == checker_map(*entries).dom(),
                samples@.len() == i,
                forall|u: int| 0 <= u < i ==> (#[trigger] samples@[u]).0 == keys@[u],
            decreases keys.len() - i,
        {
            let key = keys[i];
            proof {
                assert(keys@.to_set().contains(keys@[i as int]));
            }
            match checker_map_get(entries, key) {
                None => {
                    return Err(CheckError::UnknownKey(key));
                },
                Some(checker) => match run_progress_checker(world, checker) {
                    None => {
                        return Err(CheckError::CheckerFailed(key));
                    },
                    Some(progress) => {
                        samples.push((key, progress));
                    },
                },
            }
            i += 1;
        }
        proof {
            assert(sample_keys(samples@) =~= keys@);
        }
        Ok(samples)
    }

    /// The providers that should run, given the keys that are ready: each
    /// once, in no particular order.
    pub fn providers_to_run(&self, ready: &HashSet<KeyId>) -> (chosen: Vec<ProviderId>)
        ensures
            chosen@.no_duplicates(),
            forall|p: ProviderId| #[trigger]
                chosen@.contains(p) <==> self@.providers.dom().contains(p) && may_run(
                    self@.providers[p],
                    key_set(*ready),
                ),
    {
        let known = self.providers();
        let ghost views = self@.providers;
        let ids = provider_map_keys(known);
        let mut chosen: Vec<ProviderId> = Vec::new();
        let mut t: usize = 0;
        while t < ids.len()
            invariant
                t <= ids.len(),
                views == provider_views(provider_map(*known)),
                ids@.no_duplicates(),
                ids@.to_set() == provider_map(*known).dom(),
                chosen@.no_duplicates(),
                forall|p: ProviderId| #[trigger]
                    chosen@.contains(p) <==> among(ids@, t as int, p) && may_run(views[p], key_set(*ready)),
            decreases ids.len() - t,
        {
            let id = ids[t];
            let ghost before = chosen@;
            proof {
                assert(ids@.to_set().contains(ids@[t as int]));
                assert(!among(ids@, t as int, id)) by {
                    if among(ids@, t as int, id) {
                        let u = choose|u: int| 0 <= u < t && ids@[u] == id;
                        assert(ids@[u] == ids@[t as int]);
                    }
                }
                assert forall|p: ProviderId| among(ids@, t + 1, p) <==> among(ids@, t as int, p) || p == id by {
                    lemma_among_next(ids@, t as int, p);
                }
            }
            match provider_map_get(known, id) {
                Some(info) => {
                    assert(views[id] == info@);
                    if info.should_run_given(ready) {
                        chosen.push(id);
                        proof {
                            lemma_push_distinct(before, id);
                        }
                    }
                },
                None => {},
            }
            t += 1;
        }
        proof {
            assert forall|p: ProviderId| among(ids@, t as int, p) <==> views.dom().contains(p) by {
                lemma_among_all(ids@, p);
                assert(ids@.to_set().contains(p) <==> ids@.contains(p));
            }
        }
        chosen
    }

    /// The overall progress of the setup: every progress checker is asked
    /// anew, and the result is what `setup_keys` makes of one sample for
    /// every key. A checker that the world cannot run is an error, which
    /// cannot come up where there is no key.
    pub fn progress<S: SetupKey>(&self, world: &mut World, setup_keys: &S) -> (outcome: Result<
        Progress,
        CheckError,
    >)
        ensures
            outcome is Ok ==> exists|samples: Vec<(KeyId, Progress)>|
                {
                    &&& #[trigger] call_ensures(S::overall_progress, (setup_keys, &samples), outcome->Ok_0)
                    &&& sample_keys(samples@).no_duplicates()
                    &&& sample_keys(samples@).to_set() == self@.entries.dom()
                },
            outcome matches Err(error) ==> error matches CheckError::CheckerFailed(key)
                && self@.entries.dom().contains(key),
            self@.entries.dom() == Set::<KeyId>::empty() ==> outcome is Ok,
    {
        match self.check_all(world) {
            Ok(samples) => {
                let overall = setup_keys.overall_progress(&samples);
                let outcome: Result<Progress, CheckError> = Ok(overall);
                proof {
                    assert(call_ensures(S::overall_progress, (setup_keys, &samples), outcome->Ok_0));
                    assert(exists|witness: Vec<(KeyId, Progress)>|
                        {
                            &&& #[trigger] call_ensures(S::overall_progress, (setup_keys, &witness), outcome->Ok_0)
                            &&& sample_keys(witness@).no_duplicates()
                            &&& sample_keys(witness@).to_set() == self@.entries.dom()
                        });
                }
                outcome
            },
            Err(error) => Err(error),
        }
    }
}

/// Runs every provider of a list, in the order of the list, and returns
/// those that the world could not run, in that order.
fn run_providers(world: &mut World, chosen: &Vec<ProviderId>) -> (failed: Vec<ProviderId>)
    ensures
        exists|ran: Seq<bool>| ran.len() == chosen@.len() && failed@ == #[trigger] not_run(chosen@, ran),
        forall|i: int| 0 <= i < failed@.len() ==> chosen@.contains(#[trigger] failed@[i]),
{
    let mut failed: Vec<ProviderId> = Vec::new();
    let ghost mut answers: Seq<bool> = Seq::empty();
    let mut i: usize = 0;
    proof {
        assert(chosen@.take(0) =~= Seq::<ProviderId>::empty());
    }
    while i < chosen.len()
        invariant
            i <= chosen.len(),
            answers.len() == i,
            failed@ == not_run(chosen@.take(i as int), answers),
            forall|j: int| 0 <= j < failed@.len() ==> chosen@.contains(#[trigger] failed@[j]),
        decreases chosen.len() - i,
    {
        let ran = run_action(world, chosen[i]);
        proof {
            assert(chosen@.take(i + 1).drop_last() =~= chosen@.take(i as int));
            assert(chosen@.take(i + 1).last() == chosen@[i as int]);
            assert(answers.push(ran).drop_last() =~= answers);
            answers = answers.push(ran);
        }
        if !ran {
            let ghost before = failed@;
            failed.push(chosen[i]);
            proof {
                assert forall|j: int| 0 <= j < failed@.len() implies chosen@.contains(#[trigger] failed@[j]) by {
                    if j < before.len() {
                        assert(failed@[j] == before[j]);
                    } else {
                        assert(chosen@[i as int] == failed@[j]);
                    }
                }
            }
        }
        i += 1;
    }
    proof {
        assert(chosen@.take(i as int) =~= chosen@);
        assert(answers.len() == chosen@.len() && failed@ == not_run(chosen@, answers));
    }
    failed
}

/// What a step may report of a tracker: the keys of the tracker parted
/// into ready and pending, and as the providers that ran exactly those
/// that should run with these keys ready.
pub open spec fn step_follows(step: SetupStep, tracker: SetupTrackerView) -> bool {
    &&& forall|key: KeyId|
        tracker.entries.dom().contains(key) <==> #[trigger] key_set(step.ready).contains(key) || #[trigger] key_set(
            step.pending,
        ).contains(key)
    &&& forall|key: KeyId| !(#[trigger] key_set(step.ready).contains(key) && key_set(step.pending).contains(key))
    &&& step.ran@.no_duplicates()
    &&& forall|p: ProviderId| #[trigger]
        step.ran@.contains(p) <==> tracker.providers.dom().contains(p) && may_run(
            tracker.providers[p],
            key_set(step.ready),
        )
    &&& forall|i: int| 0 <= i < step.failed@.len() ==> step.ran@.contains(#[trigger] step.failed@[i])
    &&& step.finished == finished_bits(step.progress@)
    &&& step.callback_ran ==> step.finished
}

/// Those of the providers `chosen` that were not run, in their order:
/// `ran` says of each provider whether the world ran it.
pub open spec fn not_run(chosen: Seq<ProviderId>, ran: Seq<bool>) -> Seq<ProviderId>
    decreases chosen.len(),
{
    if chosen.len() == 0 || ran.len() == 0 {
        Seq::empty()
    } else {
        let before = not_run(chosen.drop_last(), ran.drop_last());
        if ran.last() {
            before
        } else {
            before.push(chosen.last())
        }
    }
}

/// One step of the setup. Every progress checker is asked once, and what
/// the checkers say then holds for the whole step: the providers that
/// should run with the keys that are ready run, each once, and those that
/// the world cannot run are reported and hold up nothing. Then the overall
/// progress is computed anew and kept; where it is finished, the completion
/// callback is called, in every step in which it is. A progress checker
/// that the world cannot run is an error, and the tracker stays as it was.
pub fn advance_setup<S: SetupKey>(tracker: &mut SetupTracker, setup_keys: &S, world: &mut World) -> (outcome:
    Result<SetupStep, CheckError>)
    ensures
        outcome matches Ok(step) ==> step_follows(step, old(tracker)@) && final(tracker)@ == (SetupTrackerView {
            last_progress: recorded(old(tracker)@.last_progress, step.progress),
            ..old(tracker)@
        }),
        outcome is Err ==> final(tracker)@ == old(tracker)@,
        outcome matches Err(error) ==> error matches CheckError::CheckerFailed(key) && old(
            tracker,
        )@.entries.dom().contains(key),
{
    let samples = match tracker.check_all(world) {
        Ok(samples) => samples,
        Err(error) => {
            return Err(error);
        },
    };
    let parts = readiness(&samples);
    let ran = tracker.providers_to_run(&parts.ready);
    let failed = run_providers(world, &ran);
    let progress = match tracker.progress(world, setup_keys) {
        Ok(progress) => progress,
        Err(error) => {
            return Err(error);
        },
    };
    let finished = progress.finished();
    let mut callback_ran = false;
    if finished {
        callback_ran = run_action(world, tracker.on_finished());
    }
    proof {
        let keys = sample_keys(samples@);
        let n = samples@.len() as int;
        assert forall|key: KeyId|
            tracker@.entries.dom().contains(key) <==> #[trigger] key_set(parts.ready).contains(key)
                || #[trigger] key_set(parts.pending).contains(key) by {
            if keys.to_set().contains(key) {
                assert(keys.contains(key));
                let i = choose|i: int| 0 <= i < keys.len() && keys[i] == key;
                assert(samples@[i].0 == key);
                if finished_bits(samples@[i].1@) {
                    assert(sampled(samples@, n, key, true));
                } else {
                    assert(sampled(samples@, n, key, false));
                }
            }
            if sampled(samples@, n, key, true) {
                let i = choose|i: int|
                    0 <= i < n && (#[trigger] samples@[i]).0 == key && finished_bits(samples@[i].1@) == true;
                assert(keys[i] == key);
                assert(keys.contains(key));
            }
            if sampled(samples@, n, key, false) {
                let i = choose|i: int|
                    0 <= i < n && (#[trigger] samples@[i]).0 == key && finished_bits(samples@[i].1@) == false;
                assert(keys[i] == key);
                assert(keys.contains(key));
            }
        }
        assert forall|key: KeyId|
            !(#[trigger] key_set(parts.ready).contains(key) && key_set(parts.pending).contains(key)) by {
            if key_set(parts.ready).contains(key) && key_set(parts.pending).contains(key) {
                let i = choose|i: int|
                    0 <= i < n && (#[trigger] samples@[i]).0 == key && finished_bits(samples@[i].1@) == true;
                let j = choose|j: int|
                    0 <= j < n && (#[trigger] samples@[j]).0 == key && finished_bits(samples@[j].1@) == false;
                assert(keys[i] == keys[j]);
            }
        }
    }
    tracker.record_progress(progress);
    Ok(SetupStep { ready: parts.ready, pending: parts.pending, ran, failed, progress, finished, callback_ran })
}

} // verus!
