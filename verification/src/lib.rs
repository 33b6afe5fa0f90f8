//! Automatic layout of UML-style class and sequence diagrams.
//!
//! The caller describes a diagram abstractly (entities, relations,
//! participants, messages); the layout engine assigns every piece a
//! deterministic position and computes the enclosing bounding box, and a
//! thin adapter emits the result as a vector-graphics document.

use vstd::prelude::*;

pub mod helper;
pub mod primitives;
pub mod render;
pub mod theme;
pub mod uml;

verus! {

/// Errors the layout engine can report to the caller.
#[derive(Clone, Copy, Debug, PartialEq, Eq, Structural)]
pub enum LayoutError {
    /// The relation graph contains a cycle, so no layered layout exists.
    CycleDetected,
}

impl LayoutError {
    /// A short human-readable description of the error.
    pub fn as_str(&self) -> (r: &'static str)
        ensures
            r@ == "cyclic graph"@,
    {
        match self {
            LayoutError::CycleDetected => "cyclic graph",
        }
    }
}

} // verus!
