//! A reuse-insertion pass for a reference-counted intermediate
//! representation: when a tagged-union cell is about to be freed and a
//! structurally compatible cell is allocated shortly afterwards, the pass
//! fuses the two into an in-place reuse of the dying cell's memory.
//!
//! The pass is a pure structural rewrite over the statement tree of one
//! procedure: a layout-compatibility predicate decides which cells can host
//! which values, a join-point-aware liveness oracle decides where a donor
//! symbol is provably dead, a search step converts the first compatible
//! allocation into a `Reuse`, and a drop-elimination step retargets the
//! donor's redundant decrement into the `Reset` that feeds it.

pub mod ir;
pub mod liveness;
pub mod reporting;
pub mod reuse;
