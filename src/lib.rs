//! An incremental computation runtime: memoized, dependency-tracked tasks,
//! collectibles that bubble up the read graph, and exactly-once effects.
//!
//! The runtime is a state machine over plain values. The code that actually
//! runs a computation, awaits it, or executes an effect's work drives the
//! machine from outside and reports back what happened.

pub mod build_options;
pub mod chunk_item;
pub mod collectible;
pub mod effect;
pub mod graph;
pub mod handle;
pub mod identity;
pub mod import_map;
pub mod laws;
pub mod store;

pub use build_options::{BuildContext, BuildOptions, IssueSeverity, Rewrite, Rewrites};
pub use collectible::{Collectible, CollectibleKind, Collector, EffectId};
pub use effect::{
    apply_effect, apply_effects, effect, first_error, get_effects, EffectError, EffectOutcome,
    Effects,
};
pub use handle::{Handle, HandleError};
pub use identity::TaskIdentity;
pub use import_map::mdx_import_source_file;
pub use store::{CacheEntry, Consistency, Lookup, Outcome, Output, TaskState, TaskStore};
pub use chunk_item::{
    AsyncModuleOptions, ChunkItemError, EcmascriptChunkItemContent, EcmascriptChunkItemOptions,
    EcmascriptChunkItemRequireType, FactoryArg,
};
