//! Publish orchestration for a workspace of interdependent packages.
//!
//! - `workspace`: packages, their dependencies to publish, lookup by name.
//! - `order`: the deterministic publish order, by rank and name.
//! - `closure`: closing a list of names over the packages that depend on it.
//! - `selection`: from the options of a run to the packages to act on.
//! - `validate`: no selected package may reach an excluded or
//!   unpublishable one.
//! - `plan`: order, selection and validation in one step.
//! - `checkpoint`: the commands of a checkpoint and of a revert, one
//!   decision at a time.
//! - `journal`: a history of checkpoints in memory, and what a revert
//!   restores.
//! - `pipeline`: the run over the selected packages, one event at a time.

pub mod workspace;
pub mod order;
pub mod closure;
pub mod selection;
pub mod validate;
pub mod plan;
pub mod checkpoint;
pub mod journal;
pub mod pipeline;
