//! Stack repair core of a patch-stack tool: reconciles the recorded patch
//! stack with a branch that was changed behind its back, and spills the
//! topmost patch back into the working state.
//!
//! Commits live in a [`graph::CommitGraph`], numbered parents first; the
//! stack's three patch lists live in [`registry::StackState`]; changes go
//! through a [`transaction::Transaction`]. [`repair`] and [`spill`] are the
//! two operations, [`laws`] states what holds of every repair.

mod outside;

pub mod error;
pub mod gitdir;
pub mod graph;
pub mod laws;
pub mod names;
pub mod registry;
pub mod repair;
pub mod spill;
pub mod text;
pub mod transaction;
