//! The host: a `bevy_ecs` world that holds the progress checkers, the
//! provider bodies and the completion callback as one-shot systems.
//!
//! Verus does not read `bevy_ecs`. What a system does when it runs is up to
//! the application, so nothing is claimed of any result here: the functions
//! that call these are proved for whatever comes back.

use vstd::prelude::*;
use bevy_ecs::entity::Entity;
use bevy_ecs::system::SystemId;
use bevy_ecs::world::World;
use crate::ids::{KeyId, ProgressCheckerId};
use crate::progress::Progress;

verus! {

/// `bevy_ecs::world::World`.
#[verifier::external_type_specification]
#[verifier::external_body]
pub struct ExWorld(World);

/// Why the progress of a key could not be told.
#[derive(Debug, Clone, Copy, PartialEq, Eq, Structural)]
pub enum CheckError {
    /// The key has no entry, so no progress checker.
    UnknownKey(KeyId),
    /// The world has no system under the handle of the key's progress
    /// checker, or could not run it.
    CheckerFailed(KeyId),
}

/// What an application says of its setup keys: how the progress of a key
/// is checked, and how the progress of all keys adds up.
pub trait SetupKey {
    /// Registers with the world the system that tells the progress of
    /// `key`, and returns its handle. A tracker calls this once for each key,
    /// when the key is first named by a provider.
    fn register_progress_checker(&self, key: KeyId, world: &mut World) -> ProgressCheckerId;

    /// The progress of the whole setup, from the progress of each key: the
    /// mean of the values, each weighted by the time that its key is
    /// expected to take.
    fn overall_progress(&self, samples: &Vec<(KeyId, Progress)>) -> Progress;
}

/// `World::run_system` on the system with handle `checker`, taken as a
/// progress checker: the progress it reports, or `None` where the world has
/// no such system or could not run it. The handle becomes a system id by
/// `Entity::try_from_bits` and `SystemId::from_entity`; one that is no
/// entity gives `None` too.
#[verifier::external_body]
pub(crate) fn run_progress_checker(world: &mut World, checker: ProgressCheckerId) -> (progress: Option<Progress>) {
    let entity = Entity::try_from_bits(checker).ok()?;
    world.run_system(SystemId::<(), Progress>::from_entity(entity)).ok()
}

/// `World::run_system` on the system with handle `system`, taken as an
/// action without a result (a provider body or the completion callback):
/// whether the world ran it. The handle becomes a system id by
/// `Entity::try_from_bits` and `SystemId::from_entity`; one that is no
/// entity gives `false`.
#[verifier::external_body]
pub(crate) fn run_action(world: &mut World, system: u64) -> (ran: bool) {
    match Entity::try_from_bits(system) {
        Ok(entity) => world.run_system(SystemId::<(), ()>::from_entity(entity)).is_ok(),
        Err(_) => false,
    }
}

} // verus!
