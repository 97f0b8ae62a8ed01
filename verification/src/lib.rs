//! Core of a region-based lifetime-inference prototype: the typed
//! representation of a small control-flow-graph program annotated with
//! borrows, assignments and uses, together with the analyses such a
//! program is subjected to — a variance engine, a variance-directed walk
//! over reference types, a dominance engine over the control-flow graph,
//! and an evaluator for quantified outlives-constraints and assertions.
//!
//! Text parsing, string interning and command-line handling are external
//! collaborators: the core receives a fully built [`repr::Func`] whose
//! identifiers are already interned symbols, and hands back structured
//! results for reporting.

pub mod analysis;
pub mod dominance;
pub mod eval;
pub mod graph;
pub mod liveness;
pub mod repr;
pub mod variance;
pub mod walk;
