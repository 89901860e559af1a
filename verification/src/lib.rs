//! Coordination of setup tasks that depend on one another, like a barrier
//! with many gates: each provider runs when the keys it requires are ready,
//! and rests once the keys it provides are.
//!
//! A [`SetupTracker`] holds the setup keys, each with its progress checker,
//! and the providers, each with the keys it requires and provides. It can
//! be validated ([`SetupTracker::validate`]), laid out in stages
//! ([`SetupTracker::stages`]) and advanced step by step ([`advance_setup`]).
//! The checkers, the provider bodies and the completion callback are
//! one-shot systems of a `bevy_ecs` world; keys and systems are known here by
//! integers.
//!
//! The library is verified with Verus. What it takes on trust are the hash
//! collections of `bevy_platform` ([`collections`]), the running of systems
//! by the world ([`world`]), and two conversions between texts and their
//! characters ([`names`]).
//!
//! A [`Progress`] is a single-precision number known by its bits
//! ([`single`]): the library clamps, orders and tests it, and leaves the
//! arithmetic to the application.
//!
//! Beside the contracts of the functions stand what follows from them:
//! what the search for dependency loops flags in whatever order it goes
//! ([`flagging`]), and that a valid setup graph is staged in full
//! ([`soundness`]).

pub mod advance;
pub mod collections;
pub mod cycles;
pub mod flagging;
pub mod graph;
pub mod ids;
pub mod lookup;
pub mod names;
pub mod progress;
pub mod provider;
pub mod search;
pub mod sets;
pub mod single;
pub mod soundness;
pub mod stages;
pub mod tracker;
pub mod validate;
pub mod world;

pub use advance::{advance_setup, readiness, Readiness, SetupStep};
pub use ids::{CallbackId, KeyId, ProgressCheckerId, ProviderId};
pub use names::{name_can_be_tidied, provider_name};
pub use progress::Progress;
pub use provider::{ProviderInfo, ProviderInfoView};
pub use tracker::{SetupTracker, SetupTrackerView};
pub use validate::InvalidSetupGraph;
pub use world::{CheckError, SetupKey};
