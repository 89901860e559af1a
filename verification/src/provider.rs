//! Static dependency metadata of one provider.

use vstd::prelude::*;
use bevy_ecs::world::World;
use bevy_platform::collections::{HashMap, HashSet};
use crate::collections::{checker_map, checker_map_get, key_set};
use crate::ids::{KeyId, ProgressCheckerId};
use crate::progress::{finished_bits, Progress};
use crate::sets::{all_in, all_within, none_in, none_within};
use crate::world::{run_progress_checker, CheckError};

verus! {

/// What a [`ProviderInfo`] is, as mathematical sequences.
pub struct ProviderInfoView {
    pub required: Seq<KeyId>,
    pub provides: Seq<KeyId>,
    pub name: Seq<char>,
}

/// The keys a provider waits for, the keys it produces, and its display
/// name. The order of both key lists is kept; it serves display only.
#[derive(Debug, Clone)]
pub struct ProviderInfo {
    required: Vec<KeyId>,
    provides: Vec<KeyId>,
    name: String,
}

impl View for ProviderInfo {
    type V = ProviderInfoView;

    closed spec fn view(&self) -> ProviderInfoView {
        ProviderInfoView {
            required: self.required@,
            provides: self.provides@,
            name: self.name@,
        }
    }
}

/// A provider may run iff none of the keys it provides is ready and all of
/// the keys it requires are ready. One that requires nothing may run as
/// long as none of the keys it provides is ready.
pub open spec fn may_run(info: ProviderInfoView, ready: Set<KeyId>) -> bool {
    none_within(info.provides, ready) && all_within(info.required, ready)
}

/// A provider that requires nothing may run iff none of the keys it
/// provides is ready.
pub proof fn lemma_without_requirements(info: ProviderInfoView, ready: Set<KeyId>)
    requires
        info.required.len() == 0,
    ensures
        may_run(info, ready) <==> none_within(info.provides, ready),
{
}

/// A provider does not run again once a key that it provides is ready, and
/// does not run while a key that it requires is not.
pub proof fn lemma_rests_or_waits(info: ProviderInfoView, ready: Set<KeyId>, key: KeyId)
    requires
        (info.provides.contains(key) && ready.contains(key)) || (info.required.contains(key) && !ready.contains(key)),
    ensures
        !may_run(info, ready),
{
    if info.provides.contains(key) && ready.contains(key) {
        let i = choose|i: int| 0 <= i < info.provides.len() && info.provides[i] == key;
        assert(ready.contains(info.provides[i]));
    } else {
        let i = choose|i: int| 0 <= i < info.required.len() && info.required[i] == key;
        assert(!ready.contains(info.required[i]));
    }
}

/// The progress that the checker of the key tells.
fn ask_checker(key: KeyId, entries: &HashMap<KeyId, ProgressCheckerId>, world: &mut World) -> (outcome: Result<
    Progress,
    CheckError,
>)
    ensures
        !checker_map(*entries).dom().contains(key) ==> outcome == Err::<Progress, CheckError>(
            CheckError::UnknownKey(key),
        ),
        checker_map(*entries).dom().contains(key) ==> outcome is Ok || outcome == Err::<Progress, CheckError>(
            CheckError::CheckerFailed(key),
        ),
{
    match checker_map_get(entries, key) {
        None => Err(CheckError::UnknownKey(key)),
        Some(checker) => match run_progress_checker(world, checker) {
            None => Err(CheckError::CheckerFailed(key)),
            Some(progress) => Ok(progress),
        },
    }
}

impl ProviderInfo {
    /// Builds the metadata of a provider from its two key lists and its name.
    pub fn new(required: Vec<KeyId>, provides: Vec<KeyId>, name: String) -> (info: ProviderInfo)
        ensures
            info@.required == required@,
            info@.provides == provides@,
            info@.name == name@,
    {
        ProviderInfo { required, provides, name }
    }

    /// Whether this provider should run, given the keys that are ready.
    pub fn should_run_given(&self, ready: &HashSet<KeyId>) -> (run: bool)
        ensures
            run == may_run(self@, key_set(*ready)),
    {
        none_in(self.provides.as_slice(), ready) && all_in(self.required.as_slice(), ready)
    }

    /// Whether this provider should run, going by the progress checkers of
    /// `entries`: those of the keys it provides are asked first, then those
    /// of the keys it requires, and the asking stops at the first answer
    /// that settles the matter. What the checkers answer is up to the
    /// world; the outcome is what their answers decide. A key without an
    /// entry and a checker that the world cannot run are errors; where
    /// every key of the provider has an entry, the first cannot come up.
    pub fn should_run(
        &self,
        entries: &HashMap<KeyId, ProgressCheckerId>,
        world: &mut World,
    ) -> (outcome: Result<bool, CheckError>)
        ensures
            exists|answers: Seq<Option<Progress>>|
                answers.len() == asked(self@).len() && outcome == #[trigger] decided(
                    asked(self@),
                    checker_map(*entries).dom(),
                    answers,
                    0,
                ),
            outcome matches Err(CheckError::UnknownKey(key)) ==> !checker_map(*entries).dom().contains(key) && (
            self@.provides.contains(key) || self@.required.contains(key)),
            outcome matches Err(CheckError::CheckerFailed(key)) ==> checker_map(*entries).dom().contains(key) && (
            self@.provides.contains(key) || self@.required.contains(key)),
            outcome == Ok::<bool, CheckError>(true) ==> all_within(self@.provides, checker_map(*entries).dom())
                && all_within(self@.required, checker_map(*entries).dom()),
    {
        let ghost keys = asked(self@);
        let ghost known = checker_map(*entries).dom();
        let ghost mut heard: Seq<Option<Progress>> = Seq::empty();
        let mut i: usize = 0;
        while i < self.provides.len()
            invariant
                i <= self.provides.len(),
                keys == asked(self@),
                known == checker_map(*entries).dom(),
                heard.len() == i,
                forall|t: int| 0 <= t < i ==> leaves_open(keys, known, heard, t),
                forall|t: int| 0 <= t < i ==> known.contains(#[trigger] self.provides@[t]),
            decreases self.provides.len() - i,
        {
            let key = self.provides[i];
            let answer = ask_checker(key, entries, world);
            proof {
                assert(keys[i as int] == (key, true));
                assert(self@.provides.contains(key)) by {
                    assert(self@.provides[i as int] == key);
                }
            }
            match answer {
                Err(error) => {
                    proof {
                        let told = if known.contains(key) {
                            heard.push(None)
                        } else {
                            heard
                        };
                        let answers = filled(told, keys.len());
                        assert forall|t: int| 0 <= t < i implies leaves_open(keys, known, answers, t) by {
                            assert(leaves_open(keys, known, heard, t));
                        }
                        lemma_decided_from(keys, known, answers, 0, i as int);
                        assert(answers.len() == keys.len() && Err::<bool, CheckError>(error) == decided(
                            keys,
                            known,
                            answers,
                            0,
                        ));
                    }
                    return Err(error);
                },
                Ok(progress) => {
                    if progress.finished() {
                        proof {
                            let answers = filled(heard.push(Some(progress)), keys.len());
                            assert forall|t: int| 0 <= t < i implies leaves_open(keys, known, answers, t) by {
                                assert(leaves_open(keys, known, heard, t));
                            }
                            lemma_decided_from(keys, known, answers, 0, i as int);
                            assert(answers.len() == keys.len() && Ok::<bool, CheckError>(false) == decided(
                                keys,
                                known,
                                answers,
                                0,
                            ));
                        }
                        return Ok(false);
                    }
                    proof {
                        let longer = heard.push(Some(progress));
                        assert forall|t: int| 0 <= t < i + 1 implies leaves_open(keys, known, longer, t) by {
                            if t < i {
                                assert(leaves_open(keys, known, heard, t));
                            }
                        }
                        heard = longer;
                    }
                },
            }
            i += 1;
        }
        let ghost first = self@.provides.len();
        let mut j: usize = 0;
        while j < self.required.len()
            invariant
                j <= self.required.len(),
                keys == asked(self@),
                known == checker_map(*entries).dom(),
                first == self@.provides.len(),
                heard.len() == first + j,
                forall|t: int| 0 <= t < first + j ==> leaves_open(keys, known, heard, t),
                all_within(self@.provides, known),
                forall|t: int| 0 <= t < j ==> known.contains(#[trigger] self.required@[t]),
            decreases self.required.len() - j,
        {
            let key = self.required[j];
            let answer = ask_checker(key, entries, world);
            proof {
                assert(keys[first + j] == (key, false));
                assert(self@.required.contains(key)) by {
                    assert(self@.required[j as int] == key);
                }
            }
            match answer {
                Err(error) => {
                    proof {
                        let told = if known.contains(key) {
                            heard.push(None)
                        } else {
                            heard
                        };
                        let answers = filled(told, keys.len());
                        assert forall|t: int| 0 <= t < first + j implies leaves_open(keys, known, answers, t) by {
                            assert(leaves_open(keys, known, heard, t));
                        }
                        lemma_decided_from(keys, known, answers, 0, first + j);
                        assert(answers.len() == keys.len() && Err::<bool, CheckError>(error) == decided(
                            keys,
                            known,
                            answers,
                            0,
                        ));
                    }
                    return Err(error);
                },
                Ok(progress) => {
                    if !progress.finished() {
                        proof {
                            let answers = filled(heard.push(Some(progress)), keys.len());
                            assert forall|t: int| 0 <= t < first + j implies leaves_open(
                                keys,
                                known,
                                answers,
                                t,
                            ) by {
                                assert(leaves_open(keys, known, heard, t));
                            }
                            lemma_decided_from(keys, known, answers, 0, first + j);
                            assert(answers.len() == keys.len() && Ok::<bool, CheckError>(false) == decided(
                                keys,
                                known,
                                answers,
                                0,
                            ));
                        }
                        return Ok(false);
                    }
                    proof {
                        let longer = heard.push(Some(progress));
                        assert forall|t: int| 0 <= t < first + j + 1 implies leaves_open(keys, known, longer, t) by {
                            if t < first + j {
                                assert(leaves_open(keys, known, heard, t));
                            }
                        }
                        heard = longer;
                    }
                },
            }
            j += 1;
        }
        proof {
            lemma_decided_from(keys, known, heard, 0, keys.len() as int);
            assert(heard.len() == keys.len() && Ok::<bool, CheckError>(true) == decided(keys, known, heard, 0));
        }
        Ok(true)
    }

    /// The keys that this provider requires, in the order given.
    pub fn required(&self) -> (keys: &[KeyId])
        ensures
            keys@ == self@.required,
    {
        self.required.as_slice()
    }

    /// The keys that this provider provides, in the order given.
    pub fn provides(&self) -> (keys: &[KeyId])
        ensures
            keys@ == self@.provides,
    {
        self.provides.as_slice()
    }

    /// The display name of this provider.
    pub fn name(&self) -> (name: &str)
        ensures
            name@ == self@.name,
    {
        self.name.as_str()
    }
}

/// The keys whose progress checkers are asked whether the provider should
/// run, in the order of the asking: the keys that it provides, then the
/// keys that it requires. With each key stands whether it is provided.
pub open spec fn asked(info: ProviderInfoView) -> Seq<(KeyId, bool)> {
    Seq::new(
        info.provides.len() + info.required.len(),
        |i: int|
            if i < info.provides.len() {
                (info.provides[i], true)
            } else {
                (info.required[i - info.provides.len()], false)
            },
    )
}

/// What the answers of the progress checkers decide, from the key at
/// `from` on: `answers` holds for each key that is asked the progress that
/// its checker told, or `None` where the world could not run the checker.
/// A key without an entry is an error, and so is a checker that could not be
/// run. A provided key that is finished, or a required key that is not,
/// settles that the provider should not run, and no further key is asked.
/// Where the keys run out, the provider should run.
pub open spec fn decided(
    asked: Seq<(KeyId, bool)>,
    known: Set<KeyId>,
    answers: Seq<Option<Progress>>,
    from: int,
) -> Result<bool, CheckError>
    decreases asked.len() - from,
{
    if from < 0 || from >= asked.len() {
        Ok(true)
    } else if !known.contains(asked[from].0) {
        Err(CheckError::UnknownKey(asked[from].0))
    } else {
        match answers[from] {
            None => Err(CheckError::CheckerFailed(asked[from].0)),
            Some(progress) => if finished_bits(progress@) == asked[from].1 {
                Ok(false)
            } else {
                decided(asked, known, answers, from + 1)
            },
        }
    }
}

/// The key at `at` has an entry, and the answer of its checker leaves the
/// matter open.
pub open spec fn leaves_open(
    asked: Seq<(KeyId, bool)>,
    known: Set<KeyId>,
    answers: Seq<Option<Progress>>,
    at: int,
) -> bool {
    &&& known.contains(asked[at].0)
    &&& answers[at] matches Some(progress)
    &&& finished_bits(progress@) != asked[at].1
}

/// Where the answers up to a key leave the matter open, what is decided
/// is what is decided from that key on.
pub proof fn lemma_decided_from(
    asked: Seq<(KeyId, bool)>,
    known: Set<KeyId>,
    answers: Seq<Option<Progress>>,
    from: int,
    upto: int,
)
    requires
        0 <= from <= upto <= asked.len(),
        forall|t: int| from <= t < upto ==> leaves_open(asked, known, answers, t),
    ensures
        decided(asked, known, answers, from) == decided(asked, known, answers, upto),
    decreases upto - from,
{
    if from < upto {
        assert(leaves_open(asked, known, answers, from));
        lemma_decided_from(asked, known, answers, from + 1, upto);
    }
}

/// The answers that were heard, filled up with answers for the keys that
/// were not asked.
spec fn filled(heard: Seq<Option<Progress>>, len: nat) -> Seq<Option<Progress>> {
    Seq::new(
        len,
        |t: int|
            if t < heard.len() {
                heard[t]
            } else {
                None
            },
    )
}

} // verus!
