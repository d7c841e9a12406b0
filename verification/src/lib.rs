//! A verified core for a branch-per-release snapshot store.
//!
//! Given an ordered manifest of release versions, the library decides which
//! versions are missing from a commit-graph store, in which order and with
//! which parent each missing version must be committed, how an out-of-order
//! insertion is spliced into an existing chain by a cascading rebuild, and how
//! the movable `versions/latest` pointer is kept consistent.  The store itself
//! (branches, commits, parent links, a remote mirror) is modelled as plain
//! data, so every decision and every state change is verified; an application
//! mirrors each change onto a real repository and runs the external fetch and
//! transform tools whose outcomes the library takes as input.

use vstd::prelude::*;

pub mod laws;
pub mod lineage;
pub mod manifest;
pub mod reconcile;
pub mod semver;
pub mod store;

pub use lineage::discover_existing;
pub use manifest::{Version, VersionsFile};
pub use reconcile::{Action, BuildOutcome, CollabFailure, Disposition, ProcEntry, ReconcileError};
pub use semver::SemVer;
pub use store::{ChainStore, CommitNode};
