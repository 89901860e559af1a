use bevy_ecs::prelude::{Res, ResMut, Resource};
use bevy_ecs::world::World;
use bevy_platform::collections::HashSet;
use bird_barrier::{
    advance_setup, readiness, CheckError, KeyId, Progress, ProgressCheckerId, ProviderId,
    ProviderInfo, SetupKey, SetupTracker,
};

const A: KeyId = 0;
const B: KeyId = 1;
const C: KeyId = 2;
const D: KeyId = 3;

/// Which keys are done.
struct Flags(Vec<bool>);

impl Resource for Flags {}

/// How often the completion callback ran.
struct Completed(u32);

impl Resource for Completed {}

/// A resource that no test ever inserts.
struct Missing;

impl Resource for Missing {}

/// Keys whose progress is read off the flags, all weighing the same.
struct FlagKeys;

impl SetupKey for FlagKeys {
    fn register_progress_checker(&self, key: KeyId, world: &mut World) -> ProgressCheckerId {
        world
            .register_system(move |flags: Res<Flags>| Progress::from(flags.0[key as usize]))
            .entity()
            .to_bits()
    }

    fn overall_progress(&self, samples: &Vec<(KeyId, Progress)>) -> Progress {
        let total = samples.len() as f32;
        let sum: f32 = samples.iter().map(|(_, p)| f32::from_bits(p.into_inner())).sum();
        Progress::new((sum / total).to_bits())
    }
}

/// Registers a provider body that sets the flags of `keys`.
fn setter(world: &mut World, keys: &'static [KeyId]) -> ProviderId {
    world
        .register_system(move |mut flags: ResMut<Flags>| {
            for key in keys {
                flags.0[*key as usize] = true;
            }
        })
        .entity()
        .to_bits()
}

fn new_world() -> (World, u64) {
    let mut world = World::new();
    world.insert_resource(Flags(vec![false; 4]));
    world.insert_resource(Completed(0));
    let on_finished = world
        .register_system(|mut completed: ResMut<Completed>| completed.0 += 1)
        .entity()
        .to_bits();
    (world, on_finished)
}

fn info(required: &[KeyId], provides: &[KeyId], name: &str) -> ProviderInfo {
    ProviderInfo::new(required.to_vec(), provides.to_vec(), String::from(name))
}

fn sorted(mut ids: Vec<u64>) -> Vec<u64> {
    ids.sort();
    ids
}

fn set(keys: &[KeyId]) -> HashSet<KeyId> {
    keys.iter().copied().collect()
}

fn value(progress: Progress) -> f32 {
    f32::from_bits(progress.into_inner())
}

#[test]
fn the_setup_advances_stage_by_stage_and_then_stops() {
    let (mut world, on_finished) = new_world();
    let mut tracker = SetupTracker::new(on_finished);
    let pa = setter(&mut world, &[A]);
    let pb = setter(&mut world, &[B]);
    let pc = setter(&mut world, &[C]);
    let pd = setter(&mut world, &[D]);
    tracker.register_provider(pa, info(&[], &[A], "a"), &FlagKeys, &mut world);
    tracker.register_provider(pb, info(&[A], &[B], "b"), &FlagKeys, &mut world);
    tracker.register_provider(pc, info(&[B], &[C], "c"), &FlagKeys, &mut world);
    tracker.register_provider(pd, info(&[], &[D], "d"), &FlagKeys, &mut world);
    assert_eq!(tracker.last_progress(), Progress::zero());

    // nothing is ready: the providers without requirements run
    let step = advance_setup(&mut tracker, &FlagKeys, &mut world).unwrap();
    assert_eq!(step.ready, set(&[]));
    assert_eq!(step.pending, set(&[A, B, C, D]));
    assert_eq!(sorted(step.ran), sorted(vec![pa, pd]));
    assert!(step.failed.is_empty());
    assert_eq!(value(step.progress), 0.5);
    assert!(!step.finished);
    assert!(!step.callback_ran);
    assert_eq!(value(tracker.last_progress()), 0.5);
    assert_eq!(world.resource::<Completed>().0, 0);

    // A and D are ready: only the provider of B runs
    let step = advance_setup(&mut tracker, &FlagKeys, &mut world).unwrap();
    assert_eq!(step.ready, set(&[A, D]));
    assert_eq!(step.pending, set(&[B, C]));
    assert_eq!(step.ran, vec![pb]);
    assert_eq!(value(step.progress), 0.75);
    assert!(!step.finished);

    // B is ready: the provider of C runs, and the setup is complete
    let step = advance_setup(&mut tracker, &FlagKeys, &mut world).unwrap();
    assert_eq!(step.ready, set(&[A, B, D]));
    assert_eq!(step.pending, set(&[C]));
    assert_eq!(step.ran, vec![pc]);
    assert_eq!(step.progress, Progress::done());
    assert!(step.finished);
    assert!(step.callback_ran);
    assert_eq!(tracker.last_progress(), Progress::done());
    assert_eq!(world.resource::<Completed>().0, 1);

    // everything is ready: nothing runs again, and the callback is called
    // in every step in which the setup is complete
    let step = advance_setup(&mut tracker, &FlagKeys, &mut world).unwrap();
    assert_eq!(step.ready, set(&[A, B, C, D]));
    assert_eq!(step.pending, set(&[]));
    assert!(step.ran.is_empty());
    assert!(step.finished);
    assert!(step.callback_ran);
    assert_eq!(world.resource::<Completed>().0, 2);
}

#[test]
fn one_snapshot_holds_for_the_whole_step() {
    let (mut world, on_finished) = new_world();
    let mut tracker = SetupTracker::new(on_finished);
    let pa = setter(&mut world, &[A]);
    let pb = setter(&mut world, &[B]);
    tracker.register_provider(pa, info(&[], &[A], "a"), &FlagKeys, &mut world);
    tracker.register_provider(pb, info(&[A], &[B], "b"), &FlagKeys, &mut world);

    // A becomes ready while the step runs; B still has to wait for the next
    let step = advance_setup(&mut tracker, &FlagKeys, &mut world).unwrap();
    assert_eq!(step.ran, vec![pa]);
    assert_eq!(world.resource::<Flags>().0, vec![true, false, false, false]);
    // the overall progress is computed after the providers ran
    assert_eq!(value(step.progress), 0.5);
}

#[test]
fn a_provider_that_fails_holds_up_nothing_and_is_tried_again() {
    let (mut world, on_finished) = new_world();
    let mut tracker = SetupTracker::new(on_finished);
    let broken = world.register_system(|_missing: Res<Missing>| {}).entity().to_bits();
    let pb = setter(&mut world, &[B]);
    tracker.register_provider(broken, info(&[], &[A], "broken"), &FlagKeys, &mut world);
    tracker.register_provider(pb, info(&[], &[B], "b"), &FlagKeys, &mut world);

    let step = advance_setup(&mut tracker, &FlagKeys, &mut world).unwrap();
    assert_eq!(sorted(step.ran), sorted(vec![broken, pb]));
    assert_eq!(step.failed, vec![broken]);
    assert!(world.resource::<Flags>().0[B as usize]);
    assert_eq!(value(step.progress), 0.5);

    // A is still not ready, so its provider is tried again
    let step = advance_setup(&mut tracker, &FlagKeys, &mut world).unwrap();
    assert_eq!(step.ran, vec![broken]);
    assert_eq!(step.failed, vec![broken]);
    assert!(!step.finished);
    assert_eq!(world.resource::<Completed>().0, 0);
}

#[test]
fn a_provider_runs_only_while_none_of_its_keys_is_ready() {
    let (mut world, on_finished) = new_world();
    let mut tracker = SetupTracker::new(on_finished);
    // sets only one of the two keys it provides
    let half = setter(&mut world, &[A]);
    tracker.register_provider(half, info(&[], &[A, B], "half"), &FlagKeys, &mut world);

    let step = advance_setup(&mut tracker, &FlagKeys, &mut world).unwrap();
    assert_eq!(step.ran, vec![half]);
    let step = advance_setup(&mut tracker, &FlagKeys, &mut world).unwrap();
    assert!(step.ran.is_empty());
    assert_eq!(step.ready, set(&[A]));
    assert_eq!(step.pending, set(&[B]));
    assert!(!step.finished);
}

#[test]
fn a_checker_that_fails_stops_the_step_before_anything_runs() {
    let (mut world, on_finished) = new_world();
    let mut tracker = SetupTracker::new(on_finished);
    let pa = setter(&mut world, &[A]);
    tracker.register_provider(pa, info(&[], &[A], "a"), &FlagKeys, &mut world);
    let nothing = world.spawn_empty().id().to_bits();
    tracker.insert_entry(B, nothing);

    let outcome = advance_setup(&mut tracker, &FlagKeys, &mut world);
    assert_eq!(outcome.unwrap_err(), CheckError::CheckerFailed(B));
    assert_eq!(world.resource::<Flags>().0, vec![false; 4]);
    assert_eq!(tracker.last_progress(), Progress::zero());
    assert_eq!(tracker.entries().len(), 2);
    assert_eq!(tracker.providers().len(), 1);
}

#[test]
fn a_tracker_without_keys_never_completes() {
    let (mut world, on_finished) = new_world();
    let mut tracker = SetupTracker::new(on_finished);

    let step = advance_setup(&mut tracker, &FlagKeys, &mut world).unwrap();
    assert!(step.ready.is_empty());
    assert!(step.pending.is_empty());
    assert!(step.ran.is_empty());
    assert!(!step.progress.is_finite());
    assert!(!step.finished);
    assert!(!step.callback_ran);
    assert_eq!(world.resource::<Completed>().0, 0);
    assert!(value(tracker.last_progress()).is_nan());
}

#[test]
fn a_callback_that_the_world_cannot_run_is_reported() {
    let (mut world, _) = new_world();
    let nothing = world.spawn_empty().id().to_bits();
    let mut tracker = SetupTracker::new(nothing);
    world.resource_mut::<Flags>().0[A as usize] = true;
    let pa = setter(&mut world, &[A]);
    tracker.register_provider(pa, info(&[], &[A], "a"), &FlagKeys, &mut world);

    let step = advance_setup(&mut tracker, &FlagKeys, &mut world).unwrap();
    assert!(step.ran.is_empty());
    assert!(step.finished);
    assert!(!step.callback_ran);
}

#[test]
fn readiness_parts_the_samples_by_finished() {
    let half = Progress::new(0.5f32.to_bits());
    let nan = Progress::new(f32::NAN.to_bits());
    let nearly = Progress::new((1.0f32 - f32::EPSILON).to_bits());
    let samples = vec![(A, Progress::done()), (B, half), (C, nan), (D, nearly), (7, Progress::zero())];

    let parts = readiness(&samples);
    assert_eq!(parts.ready, set(&[A, D]));
    assert_eq!(parts.pending, set(&[B, C, 7]));

    let parts = readiness(&Vec::new());
    assert!(parts.ready.is_empty());
    assert!(parts.pending.is_empty());
}

#[test]
fn providers_to_run_are_those_that_should_run() {
    let (mut world, on_finished) = new_world();
    let mut tracker = SetupTracker::new(on_finished);
    let pa = setter(&mut world, &[A]);
    let pb = setter(&mut world, &[B]);
    let pc = setter(&mut world, &[C]);
    let pd = setter(&mut world, &[D]);
    tracker.register_provider(pa, info(&[], &[A], "a"), &FlagKeys, &mut world);
    tracker.register_provider(pb, info(&[A], &[B], "b"), &FlagKeys, &mut world);
    tracker.register_provider(pc, info(&[A, B], &[C], "c"), &FlagKeys, &mut world);
    tracker.register_provider(pd, info(&[], &[D], "d"), &FlagKeys, &mut world);

    assert_eq!(sorted(tracker.providers_to_run(&set(&[]))), sorted(vec![pa, pd]));
    assert_eq!(sorted(tracker.providers_to_run(&set(&[A]))), sorted(vec![pb, pd]));
    assert_eq!(sorted(tracker.providers_to_run(&set(&[A, B, D]))), vec![pc]);
    assert_eq!(tracker.providers_to_run(&set(&[A, B, C, D])), Vec::<u64>::new());
    // B is ready although A is not: the provider of A still runs
    assert_eq!(sorted(tracker.providers_to_run(&set(&[B, D]))), vec![pa]);
}

#[test]
fn check_all_asks_every_checker_once() {
    let (mut world, on_finished) = new_world();
    let mut tracker = SetupTracker::new(on_finished);
    let pa = setter(&mut world, &[A]);
    tracker.register_provider(pa, info(&[C], &[A, B], "a"), &FlagKeys, &mut world);
    world.resource_mut::<Flags>().0[B as usize] = true;

    let mut samples = tracker.check_all(&mut world).unwrap();
    samples.sort_by_key(|(key, _)| *key);
    assert_eq!(samples, vec![(A, Progress::zero()), (B, Progress::done()), (C, Progress::zero())]);
}

#[test]
fn the_last_progress_changes_only_for_another_number() {
    let mut tracker = SetupTracker::new(0);
    let negative_zero = Progress::new((-0.0f32).to_bits());
    tracker.record_progress(negative_zero);
    // equal as a number to the zero that is kept
    assert_eq!(tracker.last_progress().into_inner(), 0);

    let half = Progress::new(0.5f32.to_bits());
    tracker.record_progress(half);
    assert_eq!(tracker.last_progress().into_inner(), 0.5f32.to_bits());

    // a NaN equals nothing, itself included: it is kept each time
    let nan = Progress::new(0x7FC0_0000);
    tracker.record_progress(nan);
    assert_eq!(tracker.last_progress().into_inner(), 0x7FC0_0000);
    let other_nan = Progress::new(0x7FC0_0001);
    tracker.record_progress(other_nan);
    assert_eq!(tracker.last_progress().into_inner(), 0x7FC0_0001);
}
