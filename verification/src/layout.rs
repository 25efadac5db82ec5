use vstd::prelude::*;

verus! {

use crate::arena::Id;

// The flexbox geometry solver is an external collaborator of this core and
// is addressed only at its interface boundary: a layout handle exposes which
// children it carries and in which order, whether computed styles were
// applied to it, and which constraint the last solve was rooted at.  The
// geometry mathematics itself (box model, constraint solving) is no part of
// this library.

/// The direction a constraint solve lays text out in.
#[derive(Clone, Copy, Debug, PartialEq, Eq, Structural)]
pub enum LayoutDirection {
    Ltr,
    Rtl,
}

/// Where a layout handle stands in its linkage lifecycle: never attached
/// yet, currently attached under a parent handle, or detached again.  The
/// only valid transitions are `Unattached -> Attached`,
/// `Attached -> Detached` and `Detached -> Attached`.
#[derive(Clone, Copy, Debug, PartialEq, Eq, Structural)]
pub enum LayoutLinkage {
    Unattached,
    Attached,
    Detached,
}

/// A node's handle into the layout backend.  `children` mirrors, in sibling
/// order, the identities of the DOM children whose handles are attached
/// under this one; keeping that mirror in lock-step with the document tree
/// is the synchronization protocol this library maintains.
#[derive(Debug)]
pub struct LayoutNode {
    pub children: Vec<Id>,
    pub linkage: LayoutLinkage,
    pub styled: bool,
    pub constraint: Option<(u32, u32, LayoutDirection)>,
}

impl LayoutNode {
    /// A fresh handle: no layout children, never attached, no style applied,
    /// never solved.
    pub fn new() -> (r: LayoutNode)
        ensures
            r.children@ == Seq::<Id>::empty(),
            r.linkage == LayoutLinkage::Unattached,
            !r.styled,
            r.constraint is None,
    {
        LayoutNode {
            children: Vec::new(),
            linkage: LayoutLinkage::Unattached,
            styled: false,
            constraint: None,
        }
    }

    /// How many layout children are attached under this handle.
    pub fn child_count(&self) -> (r: usize)
        ensures
            r == self.children@.len(),
    {
        self.children.len()
    }

    /// Roots one constraint solve at this handle.  What the solver computes
    /// from the constraint is outside this core; the handle records the
    /// constraint the solve was given.
    pub fn reflow_subtree(&mut self, width: u32, height: u32, direction: LayoutDirection)
        ensures
            final(self).children@ == old(self).children@,
            final(self).linkage == old(self).linkage,
            final(self).styled == old(self).styled,
            final(self).constraint == Some((width, height, direction)),
    {
        self.constraint = Some((width, height, direction));
    }
}

impl Default for LayoutNode {
    fn default() -> (r: LayoutNode)
        ensures
            r.children@ == Seq::<Id>::empty(),
            r.linkage == LayoutLinkage::Unattached,
            !r.styled,
            r.constraint is None,
    {
        LayoutNode::new()
    }
}

} // verus!
