use bevy_ecs::entity::Entity;
use bevy_ecs::system::SystemId;
use bevy_ecs::world::World;
use bevy_platform::collections::{HashMap, HashSet};
use bird_barrier::cycles::find_cycles;
use bird_barrier::{
    CheckError, KeyId, Progress, ProgressCheckerId, ProviderInfo, SetupKey, SetupTracker,
};

const A: KeyId = 0;
const B: KeyId = 1;
const C: KeyId = 2;
const D: KeyId = 3;

fn progress(value: f32) -> Progress {
    Progress::new(value.to_bits())
}

fn value(progress: Progress) -> f32 {
    f32::from_bits(progress.into_inner())
}

/// The mean of the samples, each key weighing its time estimate.
fn weighted_mean(samples: &[(KeyId, Progress)], weight: impl Fn(KeyId) -> f32) -> Progress {
    let total: f32 = samples.iter().map(|(key, _)| weight(*key)).sum();
    let sum: f32 = samples.iter().map(|(key, p)| value(*p) * weight(*key)).sum();
    progress(sum / total)
}

/// Keys whose progress checkers all report complete progress, and which
/// all weigh the same.
struct TestSetupKey;

impl SetupKey for TestSetupKey {
    fn register_progress_checker(&self, _key: KeyId, world: &mut World) -> ProgressCheckerId {
        checker(world, Progress::done())
    }

    fn overall_progress(&self, samples: &Vec<(KeyId, Progress)>) -> Progress {
        weighted_mean(samples, |_| 1.0)
    }
}

/// Keys of which B weighs twice as much as the others.
struct WeightedSetupKey;

impl WeightedSetupKey {
    fn relative_time_estimate(key: KeyId) -> f32 {
        if key == B {
            2.0
        } else {
            1.0
        }
    }
}

impl SetupKey for WeightedSetupKey {
    fn register_progress_checker(&self, _key: KeyId, world: &mut World) -> ProgressCheckerId {
        checker(world, Progress::done())
    }

    fn overall_progress(&self, samples: &Vec<(KeyId, Progress)>) -> Progress {
        weighted_mean(samples, WeightedSetupKey::relative_time_estimate)
    }
}

/// Registers a progress checker that always reports `progress`.
fn checker(world: &mut World, progress: Progress) -> ProgressCheckerId {
    world.register_system(move || progress).entity().to_bits()
}

/// Registers a system that does nothing.
fn system(world: &mut World) -> u64 {
    world.register_system(|| {}).entity().to_bits()
}

fn info(required: &[KeyId], provides: &[KeyId], name: &str) -> ProviderInfo {
    ProviderInfo::new(required.to_vec(), provides.to_vec(), String::from(name))
}

/// Two keys, of which A is half done and weighs twice as much as B.
struct TwoKeys;

impl TwoKeys {
    fn relative_time_estimate(key: KeyId) -> f32 {
        match key {
            A => 2.0,
            _ => 1.0,
        }
    }
}

impl SetupKey for TwoKeys {
    fn register_progress_checker(&self, key: KeyId, world: &mut World) -> ProgressCheckerId {
        match key {
            A => checker(world, progress(0.5)),
            _ => checker(world, Progress::done()),
        }
    }

    fn overall_progress(&self, samples: &Vec<(KeyId, Progress)>) -> Progress {
        weighted_mean(samples, TwoKeys::relative_time_estimate)
    }
}

#[test]
fn test_setup_key_trait() {
    let mut world = World::new();

    let system_a = TwoKeys.register_progress_checker(A, &mut world);
    let system_b = TwoKeys.register_progress_checker(B, &mut world);

    let run = |world: &mut World, id: ProgressCheckerId| {
        world
            .run_system(SystemId::<(), Progress>::from_entity(Entity::from_bits(id)))
            .unwrap()
    };
    let progress_a = run(&mut world, system_a);
    let progress_b = run(&mut world, system_b);

    assert_eq!(progress_a, progress(0.5));
    assert_eq!(progress_b, Progress::done());

    assert_eq!(TwoKeys::relative_time_estimate(A), 2.0);
    assert_eq!(TwoKeys::relative_time_estimate(B), 1.0);

    // (0.5 * 2 + 1.0 * 1) / 3
    let overall = TwoKeys.overall_progress(&vec![(A, progress_a), (B, progress_b)]);
    assert!((value(overall) - 2.0 / 3.0).abs() < f32::EPSILON);
}

#[test]
fn test_cycle_detection() {
    let mut world = World::new();
    let on_finished = system(&mut world);
    let mut tracker = SetupTracker::new(on_finished);

    for key in [A, B, C, D] {
        let id = checker(&mut world, Progress::done());
        tracker.insert_entry(key, id);
    }

    // A cycle: A -> B -> C -> A
    let provider_a = info(&[C], &[A], "provider_a");
    let provider_b = info(&[A], &[B], "provider_b");
    let provider_c = info(&[B], &[C], "provider_c");
    // D depends on nothing
    let provider_d = info(&[], &[D], "provider_d");

    for provider in [provider_a, provider_b, provider_c, provider_d] {
        let id = system(&mut world);
        tracker.register_provider(id, provider, &TestSetupKey, &mut world);
    }

    let cycles = SetupTracker::detect_cycles(&tracker);

    assert!(cycles.contains(&A));
    assert!(cycles.contains(&B));
    assert!(cycles.contains(&C));
    assert!(!cycles.contains(&D));
}

#[test]
fn test_no_cycles() {
    let mut world = World::new();
    let on_finished = system(&mut world);
    let mut tracker = SetupTracker::new(on_finished);

    for key in [A, B, C] {
        let id = checker(&mut world, Progress::done());
        tracker.insert_entry(key, id);
    }

    // A chain: A -> B -> C
    let provider_a = info(&[], &[A], "provider_a");
    let provider_b = info(&[A], &[B], "provider_b");
    let provider_c = info(&[B], &[C], "provider_c");

    for provider in [provider_a, provider_b, provider_c] {
        let id = system(&mut world);
        tracker.register_provider(id, provider, &TestSetupKey, &mut world);
    }

    let cycles = SetupTracker::detect_cycles(&tracker);

    assert!(cycles.is_empty());
}

#[test]
fn test_progress_calculation() {
    let mut world = World::new();
    let on_finished = system(&mut world);
    let mut tracker = SetupTracker::new(on_finished);

    let id = checker(&mut world, progress(0.5));
    tracker.insert_entry(A, id);
    let id = checker(&mut world, progress(1.0));
    tracker.insert_entry(B, id);
    let id = checker(&mut world, progress(0.0));
    tracker.insert_entry(C, id);

    let overall = tracker.progress(&mut world, &TestSetupKey).unwrap();
    // (0.5 + 1.0 + 0.0) / 3 = 0.5
    assert!((value(overall) - 0.5).abs() < f32::EPSILON);
}

#[test]
fn test_weighted_progress_calculation() {
    let mut world = World::new();
    let on_finished = system(&mut world);
    let mut tracker = SetupTracker::new(on_finished);

    let id = checker(&mut world, progress(1.0));
    tracker.insert_entry(A, id);
    let id = checker(&mut world, progress(0.5));
    tracker.insert_entry(B, id);
    let id = checker(&mut world, progress(0.0));
    tracker.insert_entry(C, id);

    let overall = tracker.progress(&mut world, &WeightedSetupKey).unwrap();
    // (1.0 * 1.0 + 0.5 * 2.0 + 0.0 * 1.0) / (1.0 + 2.0 + 1.0) = 0.5
    assert!((value(overall) - 0.5).abs() < f32::EPSILON);
}

#[test]
fn test_provider_should_run() {
    let mut world = World::new();
    let on_finished = system(&mut world);
    let mut tracker = SetupTracker::new(on_finished);

    let id = checker(&mut world, Progress::done());
    tracker.insert_entry(A, id);
    let id = checker(&mut world, Progress::zero());
    tracker.insert_entry(B, id);
    let id = checker(&mut world, Progress::zero());
    tracker.insert_entry(C, id);

    // Requires A (complete) and provides B (incomplete)
    let provider = info(&[A], &[B], "test_provider");
    assert!(provider.should_run(tracker.entries(), &mut world).unwrap());

    // Requires B (incomplete)
    let provider2 = info(&[B], &[C], "test_provider2");
    assert!(!provider2.should_run(tracker.entries(), &mut world).unwrap());
}

#[test]
fn test_stages_calculation() {
    let mut world = World::new();
    let on_finished = system(&mut world);
    let mut tracker = SetupTracker::new(on_finished);

    for key in [A, B, C, D] {
        let id = checker(&mut world, Progress::done());
        tracker.insert_entry(key, id);
    }

    // A -> B -> C, and D on its own
    let provider_a = info(&[], &[A], "provider_a");
    let provider_b = info(&[A], &[B], "provider_b");
    let provider_c = info(&[B], &[C], "provider_c");
    let provider_d = info(&[], &[D], "provider_d");

    let system_a = system(&mut world);
    let system_b = system(&mut world);
    let system_c = system(&mut world);
    let system_d = system(&mut world);

    tracker.register_provider(system_a, provider_a, &TestSetupKey, &mut world);
    tracker.register_provider(system_b, provider_b, &TestSetupKey, &mut world);
    tracker.register_provider(system_c, provider_c, &TestSetupKey, &mut world);
    tracker.register_provider(system_d, provider_d, &TestSetupKey, &mut world);

    let stages = tracker.stages();

    // Three stages: [A, D], [B], [C]
    assert_eq!(stages.len(), 3);
    assert_eq!(stages[0].len(), 2);
    assert_eq!(stages[1].len(), 1);
    assert_eq!(stages[2].len(), 1);

    assert!(stages[0].contains(&system_a));
    assert!(stages[0].contains(&system_d));
    assert!(stages[1].contains(&system_b));
    assert!(stages[2].contains(&system_c));

    assert!(tracker.unstaged().is_empty());
}

#[test]
fn test_validation_unprovided_keys() {
    let mut world = World::new();
    let on_finished = system(&mut world);
    let mut tracker = SetupTracker::new(on_finished);

    // An entry that nothing provides
    let id = checker(&mut world, Progress::done());
    tracker.insert_entry(A, id);

    // A provider that requires A and does not provide it
    let provider = info(&[A], &[B], "provider");
    let id = system(&mut world);
    tracker.register_provider(id, provider, &TestSetupKey, &mut world);

    let result = tracker.validate();
    assert!(result.is_err());

    let error = result.unwrap_err();
    assert!(error.unprovided.contains(&A));
    assert!(!error.unprovided.contains(&B));
}

#[test]
fn test_validation_duplicate_providers() {
    let mut world = World::new();
    let on_finished = system(&mut world);
    let mut tracker = SetupTracker::new(on_finished);

    let id = checker(&mut world, Progress::done());
    tracker.insert_entry(A, id);

    // Two providers of the same key
    let provider1 = info(&[], &[A], "provider1");
    let provider2 = info(&[], &[A], "provider2");

    let system1 = system(&mut world);
    let system2 = system(&mut world);
    tracker.register_provider(system1, provider1, &TestSetupKey, &mut world);
    tracker.register_provider(system2, provider2, &TestSetupKey, &mut world);

    let result = tracker.validate();
    assert!(result.is_err());

    let error = result.unwrap_err();
    assert!(error.duplicate_providers.contains_key(&A));
    assert_eq!(error.duplicate_providers[&A].len(), 2);
    assert!(error.duplicate_providers[&A].contains(&system1));
    assert!(error.duplicate_providers[&A].contains(&system2));
    assert!(error.unprovided.is_empty());
    assert!(error.cyclic_dependencies.is_empty());
}

#[test]
fn test_providers_of_and_dependants_of() {
    let mut world = World::new();
    let on_finished = system(&mut world);
    let mut tracker = SetupTracker::new(on_finished);

    let system_a = system(&mut world);
    let system_b = system(&mut world);

    let provider_a = info(&[], &[A], "provider_a");
    let provider_b = info(&[A], &[B], "provider_b");

    tracker.register_provider(system_a, provider_a, &TestSetupKey, &mut world);
    tracker.register_provider(system_b, provider_b, &TestSetupKey, &mut world);

    let providers_of_a = tracker.providers_of(A);
    assert_eq!(providers_of_a.len(), 1);
    assert_eq!(providers_of_a[0].0, system_a);
    assert_eq!(providers_of_a[0].1, 0);

    let dependants_of_a = tracker.dependants_of(A);
    assert_eq!(dependants_of_a.len(), 1);
    assert_eq!(dependants_of_a[0].0, system_b);
    assert_eq!(dependants_of_a[0].1, 0);
}

#[test]
fn a_new_tracker_holds_nothing() {
    let tracker = SetupTracker::new(7);
    assert!(tracker.entries().is_empty());
    assert!(tracker.providers().is_empty());
    assert_eq!(tracker.on_finished(), 7);
    assert_eq!(tracker.last_progress(), Progress::zero());
    assert!(tracker.stages().is_empty());
    assert!(tracker.unstaged().is_empty());
    assert!(tracker.validate().is_ok());
    assert!(SetupTracker::detect_cycles(&tracker).is_empty());
}

/// Keys that count how often a progress checker is registered.
struct CountingKeys {
    registered: std::cell::RefCell<Vec<KeyId>>,
}

impl SetupKey for CountingKeys {
    fn register_progress_checker(&self, key: KeyId, world: &mut World) -> ProgressCheckerId {
        self.registered.borrow_mut().push(key);
        checker(world, Progress::zero())
    }

    fn overall_progress(&self, samples: &Vec<(KeyId, Progress)>) -> Progress {
        weighted_mean(samples, |_| 1.0)
    }
}

#[test]
fn a_key_gets_its_checker_once() {
    let mut world = World::new();
    let keys = CountingKeys { registered: Default::default() };
    let mut tracker = SetupTracker::new(system(&mut world));

    let first = system(&mut world);
    tracker.register_provider(first, info(&[A, A], &[B, A], "first"), &keys, &mut world);
    assert_eq!(*keys.registered.borrow(), vec![A, B]);
    let checker_of_a = tracker.entries()[&A];
    let checker_of_b = tracker.entries()[&B];

    let second = system(&mut world);
    tracker.register_provider(second, info(&[B], &[C, A], "second"), &keys, &mut world);
    assert_eq!(*keys.registered.borrow(), vec![A, B, C]);
    assert_eq!(tracker.entries()[&A], checker_of_a);
    assert_eq!(tracker.entries()[&B], checker_of_b);
    assert_eq!(tracker.entries().len(), 3);
    assert_eq!(tracker.providers().len(), 2);
}

#[test]
fn a_handle_registered_again_replaces_its_provider() {
    let mut world = World::new();
    let mut tracker = SetupTracker::new(system(&mut world));
    let handle = system(&mut world);

    tracker.register_provider(handle, info(&[], &[A], "old"), &TestSetupKey, &mut world);
    tracker.register_provider(handle, info(&[A], &[B], "new"), &TestSetupKey, &mut world);

    assert_eq!(tracker.providers().len(), 1);
    let kept = &tracker.providers()[&handle];
    assert_eq!(kept.name(), "new");
    assert_eq!(kept.required(), &[A]);
    assert_eq!(kept.provides(), &[B]);
    // the keys of the provider that went stay
    assert!(tracker.entries().contains_key(&A));
    assert!(tracker.entries().contains_key(&B));
}

#[test]
fn validation_reports_all_findings_together() {
    let mut world = World::new();
    let mut tracker = SetupTracker::new(system(&mut world));
    let (one, two, three, four) = (system(&mut world), system(&mut world), system(&mut world), system(&mut world));

    // A and B depend on each other, both provide C, and nothing provides D.
    tracker.register_provider(one, info(&[B], &[A, C], "one"), &TestSetupKey, &mut world);
    tracker.register_provider(two, info(&[A], &[B, C], "two"), &TestSetupKey, &mut world);
    tracker.register_provider(three, info(&[D], &[], "three"), &TestSetupKey, &mut world);
    // names a key twice among those it provides: still one provider
    tracker.register_provider(four, info(&[], &[4, 4], "four"), &TestSetupKey, &mut world);

    let error = tracker.validate().unwrap_err();

    assert_eq!(error.unprovided.len(), 1);
    assert!(error.unprovided.contains(&D));

    assert_eq!(error.duplicate_providers.len(), 1);
    let mut both = error.duplicate_providers[&C].clone();
    both.sort();
    let mut expected = vec![one, two];
    expected.sort();
    assert_eq!(both, expected);

    assert!(error.cyclic_dependencies.contains(&A));
    assert!(error.cyclic_dependencies.contains(&B));
    assert!(!error.cyclic_dependencies.contains(&C));
    assert!(!error.cyclic_dependencies.contains(&D));
}

#[test]
fn a_sound_graph_is_valid() {
    let mut world = World::new();
    let mut tracker = SetupTracker::new(system(&mut world));
    for (required, provides) in [(vec![], vec![A]), (vec![A], vec![B, C]), (vec![B, C], vec![D])] {
        let id = system(&mut world);
        tracker.register_provider(
            id,
            ProviderInfo::new(required, provides, String::from("provider")),
            &TestSetupKey,
            &mut world,
        );
    }
    assert!(tracker.validate().is_ok());
    // a valid graph is staged in full
    assert!(tracker.unstaged().is_empty());
    let staged: usize = tracker.stages().iter().map(|stage| stage.len()).sum();
    assert_eq!(staged, tracker.providers().len());
    assert_eq!(tracker.stages().len(), 3);
}

#[test]
fn a_key_that_depends_on_itself_is_a_cycle() {
    let mut world = World::new();
    let mut tracker = SetupTracker::new(system(&mut world));
    let id = system(&mut world);
    tracker.register_provider(id, info(&[A], &[A], "selfish"), &TestSetupKey, &mut world);
    let id = system(&mut world);
    tracker.register_provider(id, info(&[], &[B], "free"), &TestSetupKey, &mut world);

    let cycles = SetupTracker::detect_cycles(&tracker);
    assert!(cycles.contains(&A));
    assert!(!cycles.contains(&B));
    assert_eq!(cycles.len(), 1);
    assert!(tracker.validate().is_err());
}

#[test]
fn every_flagged_key_leads_to_the_cycle_and_the_cycle_is_flagged() {
    let mut world = World::new();
    let mut tracker = SetupTracker::new(system(&mut world));
    // D depends on A, A and B depend on each other, C depends on nothing.
    for (required, provides) in [(vec![A], vec![D]), (vec![B], vec![A]), (vec![A], vec![B]), (vec![], vec![C])] {
        let id = system(&mut world);
        tracker.register_provider(
            id,
            ProviderInfo::new(required, provides, String::from("provider")),
            &TestSetupKey,
            &mut world,
        );
    }
    let cycles = SetupTracker::detect_cycles(&tracker);
    // C leads to no cycle, so it is never flagged; one of A and B always is.
    assert!(!cycles.contains(&C));
    assert!(cycles.contains(&A) || cycles.contains(&B));
    assert!(cycles.iter().all(|key| [A, B, D].contains(key)));
}

#[test]
fn providers_that_can_never_run_stand_in_no_stage() {
    let mut world = World::new();
    let mut tracker = SetupTracker::new(system(&mut world));
    let free = system(&mut world);
    let waiting = system(&mut world);
    let looping_a = system(&mut world);
    let looping_b = system(&mut world);
    let after_loop = system(&mut world);
    tracker.register_provider(free, info(&[], &[A], "free"), &TestSetupKey, &mut world);
    tracker.register_provider(waiting, info(&[A, 9], &[B], "waiting"), &TestSetupKey, &mut world);
    tracker.register_provider(looping_a, info(&[5], &[4], "looping_a"), &TestSetupKey, &mut world);
    tracker.register_provider(looping_b, info(&[4], &[5], "looping_b"), &TestSetupKey, &mut world);
    tracker.register_provider(after_loop, info(&[5], &[6], "after_loop"), &TestSetupKey, &mut world);

    let stages = tracker.stages();
    assert_eq!(stages, vec![vec![free]]);

    let mut left = tracker.unstaged();
    left.sort();
    let mut expected = vec![waiting, looping_a, looping_b, after_loop];
    expected.sort();
    assert_eq!(left, expected);
}

#[test]
fn a_provider_stands_in_the_stage_after_its_last_requirement() {
    let mut world = World::new();
    let mut tracker = SetupTracker::new(system(&mut world));
    let a = system(&mut world);
    let b = system(&mut world);
    let c = system(&mut world);
    let d = system(&mut world);
    tracker.register_provider(a, info(&[], &[A], "a"), &TestSetupKey, &mut world);
    tracker.register_provider(b, info(&[A], &[B], "b"), &TestSetupKey, &mut world);
    // needs keys of both earlier stages
    tracker.register_provider(c, info(&[A, B], &[C], "c"), &TestSetupKey, &mut world);
    // provides nothing, and still has its stage
    tracker.register_provider(d, info(&[C], &[], "d"), &TestSetupKey, &mut world);

    assert_eq!(tracker.stages(), vec![vec![a], vec![b], vec![c], vec![d]]);
    assert!(tracker.unstaged().is_empty());
}

#[test]
fn lookups_give_the_first_place_of_the_key() {
    let mut world = World::new();
    let mut tracker = SetupTracker::new(system(&mut world));
    let first = system(&mut world);
    let second = system(&mut world);
    tracker.register_provider(first, info(&[C, A, A], &[B, D, B], "first"), &TestSetupKey, &mut world);
    tracker.register_provider(second, info(&[B], &[D], "second"), &TestSetupKey, &mut world);

    assert_eq!(tracker.dependants_of(A), vec![(first, 1)]);
    assert_eq!(tracker.dependants_of(C), vec![(first, 0)]);
    assert_eq!(tracker.dependants_of(B), vec![(second, 0)]);
    assert_eq!(tracker.dependants_of(D), vec![]);
    assert_eq!(tracker.providers_of(B), vec![(first, 0)]);
    assert_eq!(tracker.providers_of(A), vec![]);

    let mut of_d = tracker.providers_of(D);
    of_d.sort();
    let mut expected = vec![(first, 1), (second, 0)];
    expected.sort();
    assert_eq!(of_d, expected);
}

#[test]
fn should_run_given_the_ready_keys() {
    let mut ready: HashSet<KeyId> = HashSet::new();
    ready.insert(A);

    // requirement ready, provision not
    assert!(info(&[A], &[B], "p").should_run_given(&ready));
    // requirement not ready
    assert!(!info(&[B], &[C], "p").should_run_given(&ready));
    // a provision is ready already
    assert!(!info(&[], &[A], "p").should_run_given(&ready));
    assert!(!info(&[A], &[B, A], "p").should_run_given(&ready));
    // requires nothing: runs as long as nothing it provides is ready
    assert!(info(&[], &[B, C], "p").should_run_given(&ready));
    // requires and provides nothing
    assert!(info(&[], &[], "p").should_run_given(&ready));
    // one of two requirements is missing
    assert!(!info(&[A, B], &[C], "p").should_run_given(&ready));
}

#[test]
fn should_run_tells_a_key_without_entry_and_a_checker_that_fails() {
    let mut world = World::new();
    let mut tracker = SetupTracker::new(system(&mut world));
    let id = checker(&mut world, Progress::done());
    tracker.insert_entry(A, id);
    // no system stands behind this handle
    let nothing = world.spawn_empty().id().to_bits();
    tracker.insert_entry(B, nothing);

    assert_eq!(
        info(&[A], &[C], "p").should_run(tracker.entries(), &mut world),
        Err(CheckError::UnknownKey(C))
    );
    assert_eq!(
        info(&[A], &[B], "p").should_run(tracker.entries(), &mut world),
        Err(CheckError::CheckerFailed(B))
    );
    assert_eq!(
        tracker.progress(&mut world, &TestSetupKey),
        Err(CheckError::CheckerFailed(B))
    );
    assert_eq!(tracker.check_all(&mut world), Err(CheckError::CheckerFailed(B)));
    // a provision that is ready settles the matter before B is asked
    assert_eq!(info(&[B], &[A], "p").should_run(tracker.entries(), &mut world), Ok(false));
}

#[test]
fn provider_info_keeps_what_it_is_given() {
    let provider = info(&[C, A], &[B, D, B], "loader");
    assert_eq!(provider.required(), &[C, A]);
    assert_eq!(provider.provides(), &[B, D, B]);
    assert_eq!(provider.name(), "loader");
    let copy = provider.clone();
    assert_eq!(copy.required(), provider.required());
    assert_eq!(copy.provides(), provider.provides());
    assert_eq!(copy.name(), provider.name());
}

#[test]
fn progress_of_a_tracker_without_keys_is_never_finished() {
    let mut world = World::new();
    let tracker = SetupTracker::new(system(&mut world));
    let overall = tracker.progress(&mut world, &TestSetupKey).unwrap();
    assert!(!overall.is_finite());
    assert!(!overall.finished());
}

#[test]
fn missing_keys_are_the_named_keys_without_entry() {
    let mut world = World::new();
    let mut tracker = SetupTracker::new(system(&mut world));
    let id = checker(&mut world, Progress::zero());
    tracker.insert_entry(B, id);

    // required keys come first, every key once, known keys not at all
    assert_eq!(tracker.missing_keys(&info(&[C, B, C], &[A, C, D, A], "p")), vec![C, A, D]);
    assert_eq!(tracker.missing_keys(&info(&[B], &[B], "p")), Vec::<KeyId>::new());
    assert_eq!(tracker.missing_keys(&info(&[], &[], "p")), Vec::<KeyId>::new());
}

#[test]
fn a_key_that_two_others_depend_on_is_no_cycle() {
    let mut world = World::new();
    let mut tracker = SetupTracker::new(system(&mut world));
    // A and C both depend on B, D depends on A and C
    for (required, provides) in [(vec![], vec![B]), (vec![B], vec![A]), (vec![B], vec![C]), (vec![A, C], vec![D])] {
        let id = system(&mut world);
        tracker.register_provider(
            id,
            ProviderInfo::new(required, provides, String::from("provider")),
            &TestSetupKey,
            &mut world,
        );
    }
    assert!(SetupTracker::detect_cycles(&tracker).is_empty());
    assert!(tracker.validate().is_ok());
}

fn lists(dependencies: &[(KeyId, &[KeyId])]) -> HashMap<KeyId, Vec<KeyId>> {
    dependencies.iter().map(|(key, on)| (*key, on.to_vec())).collect()
}

#[test]
fn what_the_search_flags_depends_on_where_it_starts() {
    // D depends on A; A and B depend on each other
    let dependencies = lists(&[(D, &[A]), (A, &[B]), (B, &[A])]);

    // from D the path D, A, B is flagged when B leads back to A
    let flagged = find_cycles(&vec![D, A, B], &dependencies);
    assert_eq!(flagged, set(&[D, A, B]));

    // from A the path is A, B; D then meets A off the path
    let flagged = find_cycles(&vec![A, B, D], &dependencies);
    assert_eq!(flagged, set(&[A, B]));
}

#[test]
fn a_key_on_a_cycle_can_escape_the_search() {
    // A depends on B and C; B depends on A; C depends on B:
    // C lies on the loop C, B, A, and is met only after B was left
    let dependencies = lists(&[(A, &[B, C]), (B, &[A]), (C, &[B])]);
    let flagged = find_cycles(&vec![A, B, C], &dependencies);
    assert_eq!(flagged, set(&[A, B]));

    // with the dependencies of A in the other order, all three are flagged
    let dependencies = lists(&[(A, &[C, B]), (B, &[A]), (C, &[B])]);
    let flagged = find_cycles(&vec![A, B, C], &dependencies);
    assert_eq!(flagged, set(&[A, B, C]));
}

#[test]
fn the_search_flags_nothing_without_a_loop() {
    let dependencies = lists(&[(A, &[B, C]), (B, &[C]), (C, &[]), (D, &[A, B, C])]);
    let flagged = find_cycles(&vec![D, C, B, A], &dependencies);
    assert!(flagged.is_empty());
    let flagged = find_cycles(&Vec::new(), &lists(&[]));
    assert!(flagged.is_empty());
    // a key without a list has no dependencies
    let flagged = find_cycles(&vec![A, B], &lists(&[(A, &[B])]));
    assert!(flagged.is_empty());
}

fn set(keys: &[KeyId]) -> HashSet<KeyId> {
    keys.iter().copied().collect()
}

#[test]
fn a_provider_without_keys_should_run_whatever_the_world_holds() {
    let mut world = World::new();
    let tracker = SetupTracker::new(system(&mut world));
    // no checker is asked, so nothing can fail
    assert_eq!(info(&[], &[], "free").should_run(tracker.entries(), &mut world), Ok(true));
    // the first key that is asked has no entry: no checker is asked either
    assert_eq!(
        info(&[A], &[B], "lost").should_run(tracker.entries(), &mut world),
        Err(CheckError::UnknownKey(B))
    );
    assert_eq!(
        info(&[A], &[], "lost").should_run(tracker.entries(), &mut world),
        Err(CheckError::UnknownKey(A))
    );
}
