//! A verified document tree for a UI-rendering stack: an arena-backed DOM
//! with generational node identity, aliasing-checked access, and a layout
//! mirror kept in lock-step with the document structure.
//!
//! The arena ([`arena`]) stores node slots addressed by `(slot, generation)`
//! identifiers, so a reference that outlives its node fails loudly instead
//! of aliasing a reused slot.  The tree ([`tree`]) owns one arena and a
//! distinguished root; children form doubly linked sibling lists, and every
//! mutation - append, prepend, detach, re-attachment, subtree splice -
//! carries a contract pinning down the resulting child sequences and proving
//! the structural invariant is kept: links consistent, one parent per node,
//! no cycles.  Each node owns a handle into the flexbox layout backend
//! ([`layout`]); the depth-first layout build and the single-step attach and
//! remove operations are proved to keep that handle tree isomorphic to the
//! document tree.  The style engine and the geometry solver themselves are
//! external collaborators, addressed only at their interfaces.

use vstd::prelude::*;

pub mod arena;
pub mod attributes;
pub mod attrmap;
pub mod events;
pub mod layout;
pub mod node;
pub mod node_ref;
pub mod style;
pub mod text;
pub mod tree;
pub mod types;
pub mod util;

verus! {

/// Failures that the tree and arena operations report to callers.
#[derive(Clone, Copy, Debug, PartialEq, Eq, Structural)]
pub enum DOMError {
    NodeDeallocated,
    SameNodeAlias,
    InvalidParent,
    EmptySourceTree,
}

impl DOMError {
    /// A short description of the failure, for logs and error reports.
    pub fn message(&self) -> &'static str {
        match self {
            DOMError::NodeDeallocated => "node deallocated",
            DOMError::SameNodeAlias => "cannot alias one node mutably twice",
            DOMError::InvalidParent => "invalid parent or attachment target",
            DOMError::EmptySourceTree => "source tree is empty",
        }
    }
}

} // verus!
