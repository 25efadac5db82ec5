use vstd::prelude::*;

verus! {

use crate::node::{DOMNode, DOMNodeEdgeIds, DOMNodeId, DOMNodeSiblingIds};
use crate::tree::DOMTree;
use crate::DOMError;

/// A checked read view of one node of a tree: an identifier that has been
/// verified to be live, paired with the tree it belongs to.  All read
/// navigation goes through values of this type; a stale identifier can never
/// produce one.
pub struct DOMArenaRef<'a> {
    pub tree: &'a DOMTree,
    pub id: DOMNodeId,
}

impl<'a> DOMArenaRef<'a> {
    /// The view is over a well-formed tree and addresses a live node.
    pub open spec fn wf(self) -> bool {
        &&& self.tree.wf()
        &&& self.tree.live(self.id)
    }

    /// The viewed node's payload.
    pub fn value(&self) -> (r: &'a DOMNode)
        requires
            self.wf(),
        ensures
            *r == self.tree.node_of(self.id),
    {
        match self.tree.arena.try_get(self.id) {
            Some(entry) => &entry.value,
            None => unreached(),
        }
    }

    /// The viewed node's identifier.
    pub fn id(&self) -> (r: DOMNodeId)
        ensures
            r == self.id,
    {
        self.id
    }

    /// A view of another live node of the same tree.
    pub fn get(&self, id: DOMNodeId) -> (r: Result<DOMArenaRef<'a>, DOMError>)
        requires
            self.wf(),
        ensures
            r is Ok <==> self.tree.live(id),
            r is Err ==> r == Err::<DOMArenaRef<'a>, DOMError>(DOMError::NodeDeallocated),
            r is Ok ==> r->Ok_0.tree == self.tree && r->Ok_0.id == id && r->Ok_0.wf(),
    {
        if self.tree.arena.try_get(id).is_some() {
            Ok(DOMArenaRef { tree: self.tree, id })
        } else {
            Err(DOMError::NodeDeallocated)
        }
    }

    /// The parent's identifier, if the node is attached.
    pub fn parent_id(&self) -> (r: Option<DOMNodeId>)
        requires
            self.wf(),
        ensures
            r == self.tree.parent_of(self.id),
    {
        match self.tree.arena.try_get(self.id) {
            Some(entry) => entry.parent,
            None => unreached(),
        }
    }

    /// A view of the parent, if the node is attached.
    pub fn parent(&self) -> (r: Option<DOMArenaRef<'a>>)
        requires
            self.wf(),
        ensures
            r is Some <==> self.tree.parent_of(self.id) is Some,
            r is Some ==> r->0.tree == self.tree && Some(r->0.id) == self.tree.parent_of(self.id)
                && r->0.wf(),
    {
        proof {
            assert(self.tree.live_slot(self.id.slot as int));
            assert(self.tree.slot_ok(self.id.slot as int));
        }
        match self.parent_id() {
            Some(p) => Some(DOMArenaRef { tree: self.tree, id: p }),
            None => None,
        }
    }

    /// The previous sibling's identifier.
    pub fn prev_sibling_id(&self) -> (r: Option<DOMNodeId>)
        requires
            self.wf(),
        ensures
            r == self.tree.entry_of(self.id).prev_sibling,
    {
        match self.tree.arena.try_get(self.id) {
            Some(entry) => entry.prev_sibling,
            None => unreached(),
        }
    }

    /// A view of the previous sibling.
    pub fn prev_sibling(&self) -> (r: Option<DOMArenaRef<'a>>)
        requires
            self.wf(),
        ensures
            r is Some <==> self.tree.entry_of(self.id).prev_sibling is Some,
            r is Some ==> r->0.tree == self.tree && Some(r->0.id) == self.tree.entry_of(
                self.id,
            ).prev_sibling && r->0.wf(),
    {
        proof {
            self.lemma_sibling_links_live();
        }
        match self.prev_sibling_id() {
            Some(p) => Some(DOMArenaRef { tree: self.tree, id: p }),
            None => None,
        }
    }

    /// The next sibling's identifier.
    pub fn next_sibling_id(&self) -> (r: Option<DOMNodeId>)
        requires
            self.wf(),
        ensures
            r == self.tree.entry_of(self.id).next_sibling,
    {
        match self.tree.arena.try_get(self.id) {
            Some(entry) => entry.next_sibling,
            None => unreached(),
        }
    }

    /// A view of the next sibling.
    pub fn next_sibling(&self) -> (r: Option<DOMArenaRef<'a>>)
        requires
            self.wf(),
        ensures
            r is Some <==> self.tree.entry_of(self.id).next_sibling is Some,
            r is Some ==> r->0.tree == self.tree && Some(r->0.id) == self.tree.entry_of(
                self.id,
            ).next_sibling && r->0.wf(),
    {
        proof {
            self.lemma_sibling_links_live();
        }
        match self.next_sibling_id() {
            Some(n) => Some(DOMArenaRef { tree: self.tree, id: n }),
            None => None,
        }
    }

    /// The first child's identifier.
    pub fn first_child_id(&self) -> (r: Option<DOMNodeId>)
        requires
            self.wf(),
        ensures
            r == self.tree.entry_of(self.id).first_child,
            r is Some <==> self.tree.children(self.id).len() > 0,
            r is Some ==> r->0 == self.tree.children(self.id)[0],
    {
        proof {
            assert(self.tree.live_slot(self.id.slot as int));
            assert(self.tree.slot_ok(self.id.slot as int));
        }
        match self.tree.arena.try_get(self.id) {
            Some(entry) => entry.first_child,
            None => unreached(),
        }
    }

    /// A view of the first child.
    pub fn first_child(&self) -> (r: Option<DOMArenaRef<'a>>)
        requires
            self.wf(),
        ensures
            r is Some <==> self.tree.children(self.id).len() > 0,
            r is Some ==> r->0.tree == self.tree && r->0.id == self.tree.children(self.id)[0]
                && r->0.wf(),
    {
        proof {
            assert(self.tree.live_slot(self.id.slot as int));
            assert(self.tree.slot_ok(self.id.slot as int));
            if self.tree.children(self.id).len() > 0 {
                assert(self.tree.child_link_ok(self.id.slot as int, 0));
            }
        }
        match self.first_child_id() {
            Some(c) => Some(DOMArenaRef { tree: self.tree, id: c }),
            None => None,
        }
    }

    /// The last child's identifier.
    pub fn last_child_id(&self) -> (r: Option<DOMNodeId>)
        requires
            self.wf(),
        ensures
            r == self.tree.entry_of(self.id).last_child,
            r is Some <==> self.tree.children(self.id).len() > 0,
            r is Some ==> r->0 == self.tree.children(self.id)[self.tree.children(
                self.id,
            ).len() - 1],
    {
        proof {
            assert(self.tree.live_slot(self.id.slot as int));
            assert(self.tree.slot_ok(self.id.slot as int));
        }
        match self.tree.arena.try_get(self.id) {
            Some(entry) => entry.last_child,
            None => unreached(),
        }
    }

    /// A view of the last child.
    pub fn last_child(&self) -> (r: Option<DOMArenaRef<'a>>)
        requires
            self.wf(),
        ensures
            r is Some <==> self.tree.children(self.id).len() > 0,
            r is Some ==> r->0.tree == self.tree && r->0.id == self.tree.children(
                self.id,
            )[self.tree.children(self.id).len() - 1] && r->0.wf(),
    {
        proof {
            assert(self.tree.live_slot(self.id.slot as int));
            assert(self.tree.slot_ok(self.id.slot as int));
            let k = self.tree.children(self.id);
            if k.len() > 0 {
                assert(self.tree.child_link_ok(self.id.slot as int, k.len() - 1));
            }
        }
        match self.last_child_id() {
            Some(c) => Some(DOMArenaRef { tree: self.tree, id: c }),
            None => None,
        }
    }

    /// The two sibling links, `(previous, next)`.
    pub fn sibling_ids(&self) -> (r: DOMNodeSiblingIds)
        requires
            self.wf(),
        ensures
            r.0 == self.tree.entry_of(self.id).prev_sibling,
            r.1 == self.tree.entry_of(self.id).next_sibling,
    {
        (self.prev_sibling_id(), self.next_sibling_id())
    }

    /// The two child-endpoint links, `(first, last)`.
    pub fn edge_ids(&self) -> (r: DOMNodeEdgeIds)
        requires
            self.wf(),
        ensures
            r.0 == self.tree.entry_of(self.id).first_child,
            r.1 == self.tree.entry_of(self.id).last_child,
    {
        (self.first_child_id(), self.last_child_id())
    }

    /// The identifiers of the children, in sibling order.
    pub fn children_ids(&self) -> (r: Vec<DOMNodeId>)
        requires
            self.wf(),
        ensures
            r@ == self.tree.children(self.id),
    {
        match self.tree.children_ids(self.id) {
            Ok(v) => v,
            Err(_) => unreached(),
        }
    }

    /// The identifiers of the node and all its descendants in depth-first
    /// pre-order: the node first, then each child's subtree in full, in
    /// sibling order; each subtree member exactly once.
    pub fn traverse_ids(&self) -> (r: Vec<DOMNodeId>)
        requires
            self.wf(),
        ensures
            r@ == crate::tree::preorder(*self.tree, self.id),
            r@.len() >= 1,
            r@[0] == self.id,
            r@.no_duplicates(),
            forall|p: int|
                0 <= p < r@.len() ==> self.tree.live(#[trigger] r@[p])
                    && self.tree.subtree_slots(self.id.slot as int).contains(r@[p].slot as int),
            forall|id2: DOMNodeId|
                #[trigger] self.tree.live(id2) && self.tree.subtree_slots(
                    self.id.slot as int,
                ).contains(id2.slot as int) ==> r@.contains(id2),
    {
        match self.tree.traverse_ids(self.id) {
            Ok(v) => v,
            Err(_) => unreached(),
        }
    }

    /// The identifiers of the strict descendants in depth-first pre-order,
    /// each exactly once: the traversal of the node minus its leading
    /// element.
    pub fn descendants_ids(&self) -> (r: Vec<DOMNodeId>)
        requires
            self.wf(),
        ensures
            r@ == crate::tree::preorder(*self.tree, self.id).drop_first(),
            r@.no_duplicates(),
            forall|p: int|
                0 <= p < r@.len() ==> self.tree.live(#[trigger] r@[p])
                    && self.tree.subtree_slots(self.id.slot as int).contains(r@[p].slot as int)
                    && r@[p] != self.id,
            forall|id2: DOMNodeId|
                #[trigger] self.tree.live(id2) && self.tree.subtree_slots(
                    self.id.slot as int,
                ).contains(id2.slot as int) && id2 != self.id ==> r@.contains(id2),
    {
        match self.tree.descendants_ids(self.id) {
            Ok(v) => v,
            Err(_) => unreached(),
        }
    }

    /// The sibling links of a live node name live nodes.
    proof fn lemma_sibling_links_live(self)
        requires
            self.wf(),
        ensures
            self.tree.entry_of(self.id).prev_sibling matches Some(p) ==> self.tree.live(p),
            self.tree.entry_of(self.id).next_sibling matches Some(n) ==> self.tree.live(n),
    {
        let s = self.id.slot as int;
        assert(self.tree.live_slot(s));
        assert(self.tree.slot_ok(s));
        match self.tree.entry_at(s).parent {
            None => {},
            Some(p) => {
                let ps = p.slot as int;
                let k = self.tree.children_at(ps);
                assert(k.contains(self.tree.id_at(s)));
                let i = choose|i: int| 0 <= i < k.len() && k[i] == self.tree.id_at(s);
                assert(self.tree.live_slot(ps));
                assert(self.tree.slot_ok(ps));
                assert(self.tree.child_link_ok(ps, i));
                if i > 0 {
                    assert(self.tree.child_link_ok(ps, i - 1));
                }
                if i < k.len() - 1 {
                    assert(self.tree.child_link_ok(ps, i + 1));
                }
            },
        }
    }
}

} // verus!
