use vstd::prelude::*;

verus! {

use crate::arena::{Arena, Id, Slot};
use crate::node::{DOMNode, DOMNodeId};
use crate::DOMError;

/// One arena entry of a tree: the structural links of a node and its
/// payload.  Children form a doubly linked list ordered by attachment;
/// `first_child`/`last_child` cache its endpoints.
pub struct NodeEntry {
    pub parent: Option<DOMNodeId>,
    pub prev_sibling: Option<DOMNodeId>,
    pub next_sibling: Option<DOMNodeId>,
    pub first_child: Option<DOMNodeId>,
    pub last_child: Option<DOMNodeId>,
    pub value: DOMNode,
}

/// The document tree: an arena of node entries and a distinguished root,
/// which is always live and never detached.
///
/// Two ghost maps carry the mathematical shape of the structure, both keyed
/// by slot index: `kids` gives each live node its sequence of children, and
/// `chains` gives each live node the slot path from the root of its
/// (possibly detached) subtree down to itself.  The chains make parent
/// chains provably finite - walking upward shortens the chain - and give
/// every subtree a well-founded size, which is what lets recursive walks
/// terminate and what rules cycles out.
pub struct DOMTree {
    pub arena: Arena<NodeEntry>,
    pub root: DOMNodeId,
    pub kids: Ghost<Map<int, Seq<DOMNodeId>>>,
    pub chains: Ghost<Map<int, Seq<int>>>,
}

impl DOMTree {
    /// The identifier currently resolves to a node of this tree.
    pub open spec fn live(self, id: DOMNodeId) -> bool {
        self.arena.live(id)
    }

    /// The slot currently holds a node.
    pub open spec fn live_slot(self, s: int) -> bool {
        &&& 0 <= s < self.arena.slots@.len()
        &&& self.arena.slots@[s].value is Some
    }

    /// The entry stored in slot `s`.
    pub open spec fn entry_at(self, s: int) -> NodeEntry {
        self.arena.slots@[s].value->0
    }

    /// The one live identifier addressing slot `s`.
    pub open spec fn id_at(self, s: int) -> DOMNodeId {
        Id { slot: s as usize, generation: self.arena.slots@[s].generation }
    }

    /// The entry stored under a live identifier.
    pub open spec fn entry_of(self, id: DOMNodeId) -> NodeEntry {
        self.entry_at(id.slot as int)
    }

    /// The payload stored under a live identifier.
    pub open spec fn node_of(self, id: DOMNodeId) -> DOMNode {
        self.entry_of(id).value
    }

    /// The children of the node in slot `s`, in sibling order.
    pub open spec fn children_at(self, s: int) -> Seq<DOMNodeId> {
        self.kids@[s]
    }

    /// The children of the node addressed by `id`, in sibling order.
    pub open spec fn children(self, id: DOMNodeId) -> Seq<DOMNodeId> {
        self.children_at(id.slot as int)
    }

    /// The slot path from the root of the subtree containing slot `s` down
    /// to `s` itself.
    pub open spec fn chain_at(self, s: int) -> Seq<int> {
        self.chains@[s]
    }

    /// The parent link of the node addressed by `id`.
    pub open spec fn parent_of(self, id: DOMNodeId) -> Option<DOMNodeId> {
        self.entry_of(id).parent
    }

    /// The slots inhabited by the subtree rooted at slot `s`: those whose
    /// chain passes through `s`'s chain.
    pub open spec fn subtree_slots(self, s: int) -> Set<int> {
        Set::new(
            |t: int|
                self.live_slot(t) && self.chain_at(s).is_prefix_of(self.chain_at(t)),
        )
    }

    /// The `i`-th child link of slot `s` is consistent: the child is live,
    /// points back at `s` as its parent, and its sibling links name its
    /// neighbours in the child sequence.
    pub open spec fn child_link_ok(self, s: int, i: int) -> bool {
        let k = self.children_at(s);
        let c = k[i];
        &&& self.live(c)
        &&& self.entry_at(c.slot as int).parent == Some(self.id_at(s))
        &&& self.entry_at(c.slot as int).prev_sibling == (if i == 0 {
            None
        } else {
            Some(k[i - 1])
        })
        &&& self.entry_at(c.slot as int).next_sibling == (if i == k.len() - 1 {
            None
        } else {
            Some(k[i + 1])
        })
    }

    /// The full structural invariant of one live slot: the ghost maps know
    /// it; its child-endpoint caches, child links, parent membership and
    /// chain are all consistent.
    pub open spec fn slot_ok(self, s: int) -> bool {
        let e = self.entry_at(s);
        let k = self.children_at(s);
        &&& self.kids@.contains_key(s)
        &&& self.chains@.contains_key(s)
        &&& e.first_child == (if k.len() == 0 {
            None
        } else {
            Some(k[0])
        })
        &&& e.last_child == (if k.len() == 0 {
            None
        } else {
            Some(k[k.len() - 1])
        })
        &&& k.no_duplicates()
        &&& (forall|i: int| 0 <= i < k.len() ==> #[trigger] self.child_link_ok(s, i))
        &&& match e.parent {
            None => {
                &&& e.prev_sibling is None
                &&& e.next_sibling is None
                &&& self.chain_at(s) == seq![s]
            },
            Some(p) => {
                &&& self.live(p)
                &&& self.children_at(p.slot as int).contains(self.id_at(s))
                &&& self.chain_at(s) == self.chain_at(p.slot as int).push(s)
            },
        }
    }

    /// The tree's invariant: a well-formed arena, every live slot
    /// structurally consistent, and a live, parentless root.
    pub open spec fn wf(self) -> bool {
        &&& self.arena.wf()
        &&& forall|s: int| #[trigger] self.live_slot(s) ==> self.slot_ok(s)
        &&& self.live(self.root)
        &&& self.entry_of(self.root).parent is None
    }

    /// A tree as `Default` creates it: well-formed, with a lone fragment
    /// root and nothing else allocated.
    pub open spec fn is_empty_tree(self) -> bool {
        &&& self.wf()
        &&& self.children(self.root) == Seq::<DOMNodeId>::empty()
        &&& crate::node::is_fragment_node(self.node_of(self.root))
        &&& forall|id: DOMNodeId| #[trigger] self.live(id) ==> id == self.root
    }

    /// The position of `c` in `p`'s child sequence (meaningful only when it
    /// occurs there, which holds for every live child).
    pub open spec fn child_index_of(self, p: DOMNodeId, c: DOMNodeId) -> int {
        choose|i: int| 0 <= i < self.children(p).len() && self.children(p)[i] == c
    }

    /// What the chain of a live slot means: every prefix of it is the chain
    /// of the corresponding ancestor, all chain members are live, and the
    /// chain starts at the parentless root of the slot's subtree.
    pub proof fn lemma_chain_facts(self, s: int)
        requires
            self.wf(),
            self.live_slot(s),
        ensures
            1 <= self.chain_at(s).len(),
            self.chain_at(s)[self.chain_at(s).len() - 1] == s,
            forall|j: int|
                0 <= j < self.chain_at(s).len() ==> self.live_slot(#[trigger] self.chain_at(s)[j])
                    && self.chain_at(self.chain_at(s)[j]) == self.chain_at(s).take(j + 1),
            self.entry_at(self.chain_at(s)[0]).parent is None,
        decreases self.chain_at(s).len(),
    {
        assert(self.slot_ok(s));
        match self.entry_at(s).parent {
            None => {
                assert(self.chain_at(s) == seq![s]);
                assert(self.chain_at(s).take(1) =~= seq![s]);
            },
            Some(p) => {
                let ps = p.slot as int;
                assert(self.live_slot(ps));
                assert(self.chain_at(s) == self.chain_at(ps).push(s));
                if self.chain_at(ps).len() >= self.chain_at(s).len() {
                    assert(self.chain_at(s).len() == self.chain_at(ps).len() + 1);  // from push
                }
                self.lemma_chain_facts(ps);
                let n = self.chain_at(s).len();
                assert forall|j: int| 0 <= j < n implies self.live_slot(
                    #[trigger] self.chain_at(s)[j],
                ) && self.chain_at(self.chain_at(s)[j]) == self.chain_at(s).take(j + 1) by {
                    if j < n - 1 {
                        assert(self.chain_at(s)[j] == self.chain_at(ps)[j]);
                        assert(self.chain_at(ps).take(j + 1) =~= self.chain_at(s).take(j + 1));
                    } else {
                        assert(self.chain_at(s)[j] == s);
                        assert(self.chain_at(s).take(n as int) =~= self.chain_at(s));
                    }
                }
                assert(self.chain_at(s)[0] == self.chain_at(ps)[0]);
            },
        }
    }

    /// A subtree's slot set is finite, contains its own root slot, and
    /// shrinks strictly when stepping down to a child.
    pub proof fn lemma_subtree_step(self, s: int, c: int)
        requires
            self.wf(),
            self.live_slot(s),
            self.live_slot(c),
            self.entry_at(c).parent == Some(self.id_at(s)),
        ensures
            self.subtree_slots(s).finite(),
            self.subtree_slots(c).finite(),
            self.subtree_slots(s).contains(s),
            !self.subtree_slots(c).contains(s),
            self.subtree_slots(c).subset_of(self.subtree_slots(s)),
            self.subtree_slots(c).len() < self.subtree_slots(s).len(),
    {
        let n = self.arena.slots@.len() as int;
        self.lemma_subtree_finite(s);
        self.lemma_subtree_finite(c);
        assert(self.live_slot(c));
        assert(self.live_slot(s));
        assert(self.slot_ok(c));
        assert(self.arena.slots.len() == self.arena.slots@.len());
        assert(self.id_at(s).slot as int == s);
        assert(self.chain_at(c) == self.chain_at(s).push(c));
        assert(self.subtree_slots(s).contains(s)) by {
            assert(self.chain_at(s).is_prefix_of(self.chain_at(s)));
        }
        assert(!self.subtree_slots(c).contains(s)) by {
            if self.chain_at(c).is_prefix_of(self.chain_at(s)) {
                assert(self.chain_at(c).len() <= self.chain_at(s).len());
            }
        }
        assert forall|t: int| self.subtree_slots(c).contains(t) implies #[trigger] self.subtree_slots(
            s,
        ).contains(t) by {
            assert(self.chain_at(c).is_prefix_of(self.chain_at(t)));
            assert forall|x: int|
                0 <= x < self.chain_at(s).len() implies self.chain_at(s)[x] == self.chain_at(
                t,
            )[x] by {
                assert(self.chain_at(s)[x] == self.chain_at(c)[x]);
                assert(self.chain_at(c)[x] == self.chain_at(t)[x]);
            }
            assert(self.chain_at(s).is_prefix_of(self.chain_at(t)));
        }
        self.subtree_slots(c).lemma_subset_not_in_lt(self.subtree_slots(s), s);
    }

    /// A subtree's slot set is a subset of the slot range, hence finite.
    pub proof fn lemma_subtree_finite(self, s: int)
        ensures
            self.subtree_slots(s).finite(),
            self.subtree_slots(s).len() <= self.arena.slots@.len(),
    {
        let n = self.arena.slots@.len() as int;
        vstd::set_lib::lemma_int_range(0, n);
        assert(self.subtree_slots(s).subset_of(vstd::set_lib::set_int_range(0, n)));
        vstd::set_lib::lemma_len_subset(
            self.subtree_slots(s),
            vstd::set_lib::set_int_range(0, n),
        );
    }

    /// The identifiers of `id`'s children, in sibling order, read off the
    /// linked sibling list.
    pub fn children_ids(&self, id: DOMNodeId) -> (r: Result<Vec<DOMNodeId>, DOMError>)
        requires
            self.wf(),
        ensures
            r is Ok <==> self.live(id),
            r is Err ==> r == Err::<Vec<DOMNodeId>, DOMError>(DOMError::NodeDeallocated),
            r is Ok ==> r->Ok_0@ == self.children(id),
    {
        let entry = match self.arena.try_get(id) {
            Some(e) => e,
            None => {
                return Err(DOMError::NodeDeallocated);
            },
        };
        let ghost k = self.children(id);
        let ghost s = id.slot as int;
        proof {
            assert(self.live_slot(s));
            assert(self.slot_ok(s));
        }
        let mut out: Vec<DOMNodeId> = Vec::new();
        let mut cur: Option<DOMNodeId> = entry.first_child;
        let mut i: usize = 0;
        proof {
            if k.len() > 0 {
                assert(self.child_link_ok(s, 0));
            }
        }
        while cur.is_some()
            invariant
                self.wf(),
                self.live(id),
                k == self.children(id),
                s == id.slot as int,
                0 <= i <= k.len(),
                out@ == k.take(i as int),
                cur == (if i < k.len() {
                    Some(k[i as int])
                } else {
                    None::<DOMNodeId>
                }),
            decreases k.len() - i,
        {
            let c = match cur {
                Some(c) => c,
                None => unreached(),
            };
            proof {
                assert(self.live_slot(s));
                assert(self.slot_ok(s));
                assert(self.child_link_ok(s, i as int));
                assert(self.live(c));
            }
            let centry = match self.arena.try_get(c) {
                Some(e) => e,
                None => unreached(),
            };
            out.push(c);
            cur = centry.next_sibling;
            proof {
                assert(out.len() == out@.len());
                assert(out@.len() == i as int + 1);
            }
            i = i + 1;
            proof {
                assert(out@ =~= k.take(i as int));
                if i < k.len() {
                    assert(self.child_link_ok(s, i as int));
                }
            }
        }
        proof {
            assert(i == k.len());
            assert(out@ =~= k);
        }
        Ok(out)
    }

    /// The subtrees of two distinct children of one node share no slot.
    pub proof fn lemma_sibling_subtrees_disjoint(self, a: int, c1: int, c2: int)
        requires
            self.wf(),
            self.live_slot(a),
            self.live_slot(c1),
            self.live_slot(c2),
            c1 != c2,
            self.entry_at(c1).parent == Some(self.id_at(a)),
            self.entry_at(c2).parent == Some(self.id_at(a)),
        ensures
            forall|s: int|
                #[trigger] self.subtree_slots(c1).contains(s) ==> !self.subtree_slots(
                    c2,
                ).contains(s),
    {
        assert(self.slot_ok(c1));
        assert(self.slot_ok(c2));
        assert(self.arena.slots.len() == self.arena.slots@.len());
        assert(self.id_at(a).slot as int == a);
        assert(self.chain_at(c1) == self.chain_at(a).push(c1));
        assert(self.chain_at(c2) == self.chain_at(a).push(c2));
        let plen = self.chain_at(a).len() as int;
        assert forall|s: int| #[trigger] self.subtree_slots(c1).contains(s) implies !self.subtree_slots(
            c2,
        ).contains(s) by {
            if self.subtree_slots(c2).contains(s) {
                assert(self.chain_at(c1).is_prefix_of(self.chain_at(s)));
                assert(self.chain_at(c2).is_prefix_of(self.chain_at(s)));
                assert(self.chain_at(c1)[plen] == self.chain_at(s)[plen]);
                assert(self.chain_at(c2)[plen] == self.chain_at(s)[plen]);
            }
        }
    }

    /// A child of a subtree member is a subtree member.
    pub proof fn lemma_subtree_closed(self, a: int, s: int, c: int)
        requires
            self.wf(),
            self.live_slot(a),
            self.live_slot(s),
            self.live_slot(c),
            self.subtree_slots(a).contains(s),
            self.entry_at(c).parent == Some(self.id_at(s)),
        ensures
            self.subtree_slots(a).contains(c),
    {
        assert(self.slot_ok(c));
        assert(self.arena.slots.len() == self.arena.slots@.len());
        assert(self.id_at(s).slot as int == s);
        assert(self.chain_at(c) == self.chain_at(s).push(c));
        assert(self.chain_at(a).is_prefix_of(self.chain_at(s)));
        assert forall|x: int|
            0 <= x < self.chain_at(a).len() implies self.chain_at(a)[x] == self.chain_at(
            c,
        )[x] by {
            assert(self.chain_at(a)[x] == self.chain_at(s)[x]);
        }
        assert(self.chain_at(a).is_prefix_of(self.chain_at(c)));
    }

    /// A strict member of a subtree descends through one of the subtree
    /// root's children: the chain entry right below the root names a child.
    pub proof fn lemma_subtree_branch(self, a: int, s: int)
        requires
            self.wf(),
            self.live_slot(a),
            self.subtree_slots(a).contains(s),
            s != a,
        ensures
            ({
                let b = self.chain_at(s)[self.chain_at(a).len() as int];
                &&& self.live_slot(b)
                &&& self.entry_at(b).parent == Some(self.id_at(a))
                &&& self.children_at(a).contains(self.id_at(b))
                &&& self.subtree_slots(b).contains(s)
            }),
    {
        let plen = self.chain_at(a).len() as int;
        assert(self.chain_at(a).is_prefix_of(self.chain_at(s)));
        self.lemma_chain_facts(s);
        self.lemma_chain_facts(a);
        assert(self.chain_at(s).len() > plen) by {
            if self.chain_at(s).len() <= plen {
                assert(self.chain_at(s) =~= self.chain_at(a));
                assert(self.chain_at(s)[self.chain_at(s).len() - 1] == s);
                assert(self.chain_at(a)[self.chain_at(a).len() - 1] == a);
            }
        }
        let b = self.chain_at(s)[plen];
        assert(self.live_slot(b));
        assert(self.chain_at(b) == self.chain_at(s).take(plen + 1));
        assert(self.slot_ok(b));
        assert(self.chain_at(b).len() == plen + 1);
        assert(self.chain_at(b)[plen] == b);
        match self.entry_at(b).parent {
            None => {
                assert(self.chain_at(b) == seq![b]);
                assert(plen == 0);
                assert(self.chain_at(a).len() >= 1);
                assert(false);
            },
            Some(q) => {
                let qs = q.slot as int;
                assert(self.chain_at(b) == self.chain_at(qs).push(b));
                assert(self.chain_at(qs).len() == plen);
                self.lemma_chain_facts(b);
                assert(self.chain_at(qs) == self.chain_at(b).take(plen));
                assert forall|x: int|
                    0 <= x < plen implies self.chain_at(qs)[x] == self.chain_at(a)[x] by {
                    assert(self.chain_at(b)[x] == self.chain_at(s)[x]);
                    assert(self.chain_at(a)[x] == self.chain_at(s)[x]);
                }
                assert(self.chain_at(qs) =~= self.chain_at(a));
                self.lemma_chain_facts(qs);
                assert(self.chain_at(qs)[plen - 1] == qs);
                assert(self.chain_at(a)[plen - 1] == a);
                assert(qs == a);
                assert(self.arena.slots.len() == self.arena.slots@.len());
                assert(q == self.id_at(a));
                assert(self.children_at(a).contains(self.id_at(b)));
            },
        }
        assert(self.subtree_slots(b).contains(s)) by {
            assert forall|x: int|
                0 <= x < self.chain_at(b).len() implies self.chain_at(b)[x] == self.chain_at(
                s,
            )[x] by {}
            assert(self.chain_at(b).is_prefix_of(self.chain_at(s)));
        }
    }

    /// The layout handle mirror of the node in slot `s`.
    pub open spec fn layout_children_at(self, s: int) -> Seq<DOMNodeId> {
        self.entry_at(s).value.layout_node.children@
    }

    /// The depth-first layout build over the subtree of `id`: computes and
    /// applies this node's style, then, child by child in sibling order,
    /// builds the child's subtree and attaches the child's layout handle, so
    /// that afterwards every handle in the subtree mirrors its node's child
    /// list exactly.
    fn build_layout_rec(&mut self, id: DOMNodeId)
        requires
            old(self).wf(),
            old(self).live(id),
        ensures
            final(self).wf(),
            DOMTree::payload_shape_eq(*old(self), *final(self)),
            forall|s: int|
                #[trigger] old(self).live_slot(s) && !old(self).subtree_slots(
                    id.slot as int,
                ).contains(s) ==> final(self).entry_at(s).value == old(self).entry_at(s).value,
            forall|s: int|
                #[trigger] old(self).subtree_slots(id.slot as int).contains(s) ==> ({
                    let n_old = old(self).entry_at(s).value;
                    let n_new = final(self).entry_at(s).value;
                    &&& n_new.data == n_old.data
                    &&& n_new.styles == n_old.styles
                    &&& n_new.layout_node.children@ == old(self).children_at(s)
                    &&& n_new.layout_node.styled
                    &&& n_new.layout_node.constraint == n_old.layout_node.constraint
                    &&& (s != id.slot as int ==> n_new.layout_node.linkage
                        == crate::layout::LayoutLinkage::Attached)
                    &&& (s == id.slot as int ==> n_new.layout_node.linkage
                        == n_old.layout_node.linkage)
                }),
        decreases old(self).subtree_slots(id.slot as int).len(),
    {
        let ghost pre = *self;
        let ghost ids = id.slot as int;
        proof {
            assert(pre.live_slot(ids));
            pre.lemma_subtree_finite(ids);
            assert(pre.subtree_slots(ids).contains(ids)) by {
                assert(pre.chain_at(ids).is_prefix_of(pre.chain_at(ids)));
            }
        }
        // Style resolution and box metrics for this node, and a cleared
        // mirror to rebuild.
        match self.get_mut(id) {
            Ok(node) => {
                node.apply_measurement_metadata_to_layout();
                node.layout_node.children = Vec::new();
            },
            Err(_) => unreached(),
        }
        let ghost k = pre.children(id);
        let kids_vec = match self.children_ids(id) {
            Ok(v) => v,
            Err(_) => unreached(),
        };
        proof {
            assert(self.children(id) == pre.children(id));
        }
        let n = kids_vec.len();
        let mut i: usize = 0;
        while i < n
            invariant
                old(self).wf(),
                old(self).live(id),
                pre == *old(self),
                ids == id.slot as int,
                k == pre.children(id),
                kids_vec@ == k,
                n == k.len(),
                0 <= i <= n,
                self.wf(),
                self.live(id),
                DOMTree::payload_shape_eq(pre, *self),
                // outside the subtree nothing changed
                forall|s: int|
                    #[trigger] pre.live_slot(s) && !pre.subtree_slots(ids).contains(s)
                        ==> self.entry_at(s).value == pre.entry_at(s).value,
                // this node: styled, mirror grown to the first i children
                ({
                    let n_old = pre.entry_at(ids).value;
                    let n_new = self.entry_at(ids).value;
                    &&& n_new.data == n_old.data
                    &&& n_new.styles == n_old.styles
                    &&& n_new.layout_node.children@ == k.take(i as int)
                    &&& n_new.layout_node.styled
                    &&& n_new.layout_node.constraint == n_old.layout_node.constraint
                    &&& n_new.layout_node.linkage == n_old.layout_node.linkage
                }),
                // the subtrees of the first i children are fully built
                forall|j: int, s: int|
                    0 <= j < i && #[trigger] pre.subtree_slots(k[j].slot as int).contains(s) ==> ({
                        let n_old = pre.entry_at(s).value;
                        let n_new = self.entry_at(s).value;
                        &&& n_new.data == n_old.data
                        &&& n_new.styles == n_old.styles
                        &&& n_new.layout_node.children@ == pre.children_at(s)
                        &&& n_new.layout_node.styled
                        &&& n_new.layout_node.constraint == n_old.layout_node.constraint
                        &&& n_new.layout_node.linkage == crate::layout::LayoutLinkage::Attached
                    }),
                // descendants not reached yet are untouched
                forall|s: int|
                    pre.subtree_slots(ids).contains(s) && s != ids && (forall|j: int|
                        0 <= j < i ==> !(#[trigger] pre.subtree_slots(k[j].slot as int).contains(
                            s,
                        ))) ==> #[trigger] self.entry_at(s).value == pre.entry_at(s).value,
            decreases n - i,
        {
            let child = kids_vec[i];
            let ghost cs = child.slot as int;
            proof {
                assert(pre.live_slot(ids));
                assert(pre.slot_ok(ids));
                assert(pre.child_link_ok(ids, i as int));
                assert(pre.live(child));
                assert(self.live(child));
                assert(pre.entry_at(cs).parent == Some(pre.id_at(ids)));
                // the child's subtree sits strictly inside this one, and the
                // child itself was untouched so far
                pre.lemma_subtree_step(ids, cs);
                assert(self.entry_at(cs).parent == pre.entry_at(cs).parent);
                assert(self.chain_at(cs) == pre.chain_at(cs));
                // subtree sets agree between pre and the current state
                assert forall|s: int| true implies #[trigger] self.subtree_slots(cs).contains(s)
                    == pre.subtree_slots(cs).contains(s) by {
                    assert(self.live_slot(s) == pre.live_slot(s));
                    assert(self.chains@ == pre.chains@);
                }
                assert(self.subtree_slots(cs) =~= pre.subtree_slots(cs));
                assert forall|s: int| true implies #[trigger] self.subtree_slots(ids).contains(s)
                    == pre.subtree_slots(ids).contains(s) by {
                    assert(self.live_slot(s) == pre.live_slot(s));
                }
                assert(self.subtree_slots(ids) =~= pre.subtree_slots(ids));
                self.lemma_subtree_step(ids, cs);
            }
            let ghost before_child = *self;
            self.build_layout_rec(child);
            proof {
                // membership in pre's subtree sets transfers to the state the
                // recursive call saw
                assert(before_child.subtree_slots(cs) =~= pre.subtree_slots(cs));
            }
            let ghost after_rec = *self;
            // Attach the freshly built child handle as the next layout child.
            match self.get_mut_pair((id, child)) {
                Ok((parent_node, child_node)) => {
                    parent_node.layout_node.children.push(child);
                    child_node.layout_node.linkage = crate::layout::LayoutLinkage::Attached;
                },
                Err(_) => {
                    proof {
                        if id == child {
                            assert(pre.entry_at(cs).parent == Some(pre.id_at(ids)));
                            assert(pre.chain_at(ids) == pre.chain_at(ids).push(ids));
                            assert(pre.chain_at(ids).push(ids).len() == pre.chain_at(ids).len()
                                + 1);
                        }
                    }
                    unreached()
                },
            }
            let ghost after_attach = *self;
            proof {
                assert(k.take(i as int).push(k[i as int]) =~= k.take(i as int + 1));
                assert(pre.subtree_slots(cs).contains(cs)) by {
                    assert(pre.chain_at(cs).is_prefix_of(pre.chain_at(cs)));
                }
                assert(pre.subtree_slots(ids).contains(ids)) by {
                    assert(pre.chain_at(ids).is_prefix_of(pre.chain_at(ids)));
                }
                // the region outside this subtree is still untouched
                assert forall|s: int|
                    #[trigger] pre.live_slot(s) && !pre.subtree_slots(ids).contains(
                        s,
                    ) implies self.entry_at(s).value == pre.entry_at(s).value by {
                    assert(before_child.entry_at(s).value == pre.entry_at(s).value);
                    assert(!pre.subtree_slots(cs).contains(s));
                    assert(!before_child.subtree_slots(cs).contains(s));
                    assert(before_child.live_slot(s));
                    assert(after_rec.entry_at(s).value == before_child.entry_at(s).value);
                    assert(s != ids && s != cs);
                }
                // descendants not reached yet are still untouched
                assert forall|s: int|
                    pre.subtree_slots(ids).contains(s) && s != ids && (forall|j: int|
                        0 <= j < i + 1 ==> !(#[trigger] pre.subtree_slots(
                            k[j].slot as int,
                        ).contains(s))) implies #[trigger] self.entry_at(s).value == pre.entry_at(
                    s,
                ).value by {
                    assert(!(pre.subtree_slots(k[i as int].slot as int).contains(s)));
                    assert(!pre.subtree_slots(cs).contains(s));
                    assert forall|j: int|
                        0 <= j < i implies !(#[trigger] pre.subtree_slots(
                            k[j].slot as int,
                        ).contains(s)) by {}
                    assert(before_child.entry_at(s).value == pre.entry_at(s).value);
                    assert(!before_child.subtree_slots(cs).contains(s));
                    assert(before_child.live_slot(s)) by {
                        assert(pre.live_slot(s));
                    }
                    assert(after_rec.entry_at(s).value == before_child.entry_at(s).value);
                    assert(s != cs);
                }
                // earlier children's subtrees are untouched by this round
                assert forall|j: int, s: int|
                    0 <= j < i && #[trigger] pre.subtree_slots(k[j].slot as int).contains(
                        s,
                    ) implies self.entry_at(s).value == before_child.entry_at(s).value by {
                    assert(pre.live_slot(ids));
                    assert(pre.slot_ok(ids));
                    assert(pre.child_link_ok(ids, j));
                    assert(pre.live(k[j]));
                    assert(pre.live_slot(k[j].slot as int));
                    if k[j].slot == child.slot {
                        assert(pre.live(k[j]) && pre.live(child));
                        assert(k[j] == child);
                        assert(k[j] != k[i as int]);
                        assert(false);
                    }
                    pre.lemma_sibling_subtrees_disjoint(ids, k[j].slot as int, cs);
                    assert(!pre.subtree_slots(cs).contains(s));
                    assert(!before_child.subtree_slots(cs).contains(s));
                    pre.lemma_subtree_step(ids, k[j].slot as int);
                    assert(s != ids);
                    assert(s != cs);
                    assert(before_child.live_slot(s));
                }
            }
            i = i + 1;
        }
        proof {
            assert(k.take(n as int) =~= k);
            // every strict member of this subtree lies in the subtree of the
            // child its chain branches through, which the loop has built
            assert forall|s: int|
                #[trigger] pre.subtree_slots(ids).contains(s) && s != ids implies ({
                    let n_old = pre.entry_at(s).value;
                    let n_new = self.entry_at(s).value;
                    &&& n_new.data == n_old.data
                    &&& n_new.styles == n_old.styles
                    &&& n_new.layout_node.children@ == pre.children_at(s)
                    &&& n_new.layout_node.styled
                    &&& n_new.layout_node.constraint == n_old.layout_node.constraint
                    &&& n_new.layout_node.linkage == crate::layout::LayoutLinkage::Attached
                }) by {
                pre.lemma_subtree_branch(ids, s);
                let b = pre.chain_at(s)[pre.chain_at(ids).len() as int];
                assert(pre.live_slot(b));
                assert(pre.arena.slots.len() == pre.arena.slots@.len());
                assert(pre.id_at(b).slot as int == b);
                assert(pre.children_at(ids).contains(pre.id_at(b)));
                let j = choose|j: int| 0 <= j < k.len() && k[j] == pre.id_at(b);
                assert(k[j] == pre.id_at(b));
                assert(k[j].slot as int == b);
                assert(pre.subtree_slots(b).contains(s));
            }
        }
    }

    /// Builds the layout mirror for the whole subtree of `id`: afterwards,
    /// for every node in that subtree, the node's layout handle carries
    /// exactly the node's children, in the same order, each child handle
    /// attached, with computed styles applied throughout.  The document
    /// structure itself - liveness, children, parents, payload data and raw
    /// styles - is untouched.  A stale identifier fails with
    /// `NodeDeallocated` and changes nothing.
    pub fn build_layout(&mut self, id: DOMNodeId) -> (r: Result<(), DOMError>)
        requires
            old(self).wf(),
        ensures
            final(self).wf(),
            r is Ok <==> old(self).live(id),
            r is Err ==> r == Err::<(), DOMError>(DOMError::NodeDeallocated) && *final(self)
                == *old(self),
            r is Ok ==> DOMTree::payload_shape_eq(*old(self), *final(self)),
            r is Ok ==> forall|s: int|
                #[trigger] old(self).live_slot(s) && !old(self).subtree_slots(
                    id.slot as int,
                ).contains(s) ==> final(self).entry_at(s).value == old(self).entry_at(s).value,
            r is Ok ==> forall|s: int|
                #[trigger] old(self).subtree_slots(id.slot as int).contains(s) ==> ({
                    let n_old = old(self).entry_at(s).value;
                    let n_new = final(self).entry_at(s).value;
                    &&& n_new.data == n_old.data
                    &&& n_new.styles == n_old.styles
                    &&& n_new.layout_node.children@ == old(self).children_at(s)
                    &&& n_new.layout_node.styled
                    &&& n_new.layout_node.constraint == n_old.layout_node.constraint
                    &&& (s != id.slot as int ==> n_new.layout_node.linkage
                        == crate::layout::LayoutLinkage::Attached)
                    &&& (s == id.slot as int ==> n_new.layout_node.linkage
                        == n_old.layout_node.linkage)
                }),
    {
        if self.arena.try_get(id).is_none() {
            return Err(DOMError::NodeDeallocated);
        }
        self.build_layout_rec(id);
        Ok(())
    }

    /// Recomputes and applies styles over the subtree of `id`, in the same
    /// depth-first order as the layout build, without touching any layout
    /// linkage.
    fn calculate_styles_rec(&mut self, id: DOMNodeId)
        requires
            old(self).wf(),
            old(self).live(id),
        ensures
            final(self).wf(),
            DOMTree::payload_shape_eq(*old(self), *final(self)),
            forall|s: int|
                #[trigger] old(self).live_slot(s) && !old(self).subtree_slots(
                    id.slot as int,
                ).contains(s) ==> final(self).entry_at(s).value == old(self).entry_at(s).value,
            forall|s: int|
                #[trigger] old(self).subtree_slots(id.slot as int).contains(s) ==> ({
                    let n_old = old(self).entry_at(s).value;
                    let n_new = final(self).entry_at(s).value;
                    &&& n_new.data == n_old.data
                    &&& n_new.styles == n_old.styles
                    &&& n_new.layout_node.children@ == n_old.layout_node.children@
                    &&& n_new.layout_node.styled
                    &&& n_new.layout_node.constraint == n_old.layout_node.constraint
                    &&& n_new.layout_node.linkage == n_old.layout_node.linkage
                }),
        decreases old(self).subtree_slots(id.slot as int).len(),
    {
        let ghost pre = *self;
        let ghost ids = id.slot as int;
        proof {
            assert(pre.live_slot(ids));
            pre.lemma_subtree_finite(ids);
            assert(pre.subtree_slots(ids).contains(ids)) by {
                assert(pre.chain_at(ids).is_prefix_of(pre.chain_at(ids)));
            }
        }
        match self.get_mut(id) {
            Ok(node) => {
                node.apply_measurement_metadata_to_layout();
            },
            Err(_) => unreached(),
        }
        let ghost k = pre.children(id);
        let kids_vec = match self.children_ids(id) {
            Ok(v) => v,
            Err(_) => unreached(),
        };
        proof {
            assert(self.children(id) == pre.children(id));
        }
        let n = kids_vec.len();
        let mut i: usize = 0;
        while i < n
            invariant
                old(self).wf(),
                old(self).live(id),
                pre == *old(self),
                ids == id.slot as int,
                k == pre.children(id),
                kids_vec@ == k,
                n == k.len(),
                0 <= i <= n,
                self.wf(),
                self.live(id),
                DOMTree::payload_shape_eq(pre, *self),
                forall|s: int|
                    #[trigger] pre.live_slot(s) && !pre.subtree_slots(ids).contains(s)
                        ==> self.entry_at(s).value == pre.entry_at(s).value,
                ({
                    let n_old = pre.entry_at(ids).value;
                    let n_new = self.entry_at(ids).value;
                    &&& n_new.data == n_old.data
                    &&& n_new.styles == n_old.styles
                    &&& n_new.layout_node.children@ == n_old.layout_node.children@
                    &&& n_new.layout_node.styled
                    &&& n_new.layout_node.constraint == n_old.layout_node.constraint
                    &&& n_new.layout_node.linkage == n_old.layout_node.linkage
                }),
                forall|j: int, s: int|
                    0 <= j < i && #[trigger] pre.subtree_slots(k[j].slot as int).contains(s) ==> ({
                        let n_old = pre.entry_at(s).value;
                        let n_new = self.entry_at(s).value;
                        &&& n_new.data == n_old.data
                        &&& n_new.styles == n_old.styles
                        &&& n_new.layout_node.children@ == n_old.layout_node.children@
                        &&& n_new.layout_node.styled
                        &&& n_new.layout_node.constraint == n_old.layout_node.constraint
                        &&& n_new.layout_node.linkage == n_old.layout_node.linkage
                    }),
                forall|s: int|
                    pre.subtree_slots(ids).contains(s) && s != ids && (forall|j: int|
                        0 <= j < i ==> !(#[trigger] pre.subtree_slots(k[j].slot as int).contains(
                            s,
                        ))) ==> #[trigger] self.entry_at(s).value == pre.entry_at(s).value,
            decreases n - i,
        {
            let child = kids_vec[i];
            let ghost cs = child.slot as int;
            proof {
                assert(pre.live_slot(ids));
                assert(pre.slot_ok(ids));
                assert(pre.child_link_ok(ids, i as int));
                assert(pre.live(child));
                assert(self.live(child));
                assert(pre.entry_at(cs).parent == Some(pre.id_at(ids)));
                pre.lemma_subtree_step(ids, cs);
                assert forall|s: int| true implies #[trigger] self.subtree_slots(cs).contains(s)
                    == pre.subtree_slots(cs).contains(s) by {
                    assert(self.live_slot(s) == pre.live_slot(s));
                    assert(self.chains@ == pre.chains@);
                }
                assert(self.subtree_slots(cs) =~= pre.subtree_slots(cs));
                assert forall|s: int| true implies #[trigger] self.subtree_slots(ids).contains(s)
                    == pre.subtree_slots(ids).contains(s) by {
                    assert(self.live_slot(s) == pre.live_slot(s));
                }
                assert(self.subtree_slots(ids) =~= pre.subtree_slots(ids));
                self.lemma_subtree_step(ids, cs);
            }
            let ghost before_child = *self;
            self.calculate_styles_rec(child);
            proof {
                assert(before_child.subtree_slots(cs) =~= pre.subtree_slots(cs));
                assert(pre.subtree_slots(cs).contains(cs)) by {
                    assert(pre.chain_at(cs).is_prefix_of(pre.chain_at(cs)));
                }
                assert(pre.subtree_slots(ids).contains(ids)) by {
                    assert(pre.chain_at(ids).is_prefix_of(pre.chain_at(ids)));
                }
                assert(ids != cs) by {
                    if pre.subtree_slots(cs).contains(ids) {
                        assert(false);
                    }
                    if ids == cs {
                        assert(pre.subtree_slots(cs).contains(cs));
                    }
                }
                assert forall|j: int, s: int|
                    0 <= j < i && #[trigger] pre.subtree_slots(k[j].slot as int).contains(
                        s,
                    ) implies self.entry_at(s).value == before_child.entry_at(s).value by {
                    assert(pre.live_slot(ids));
                    assert(pre.slot_ok(ids));
                    assert(pre.child_link_ok(ids, j));
                    assert(pre.live(k[j]));
                    assert(pre.live_slot(k[j].slot as int));
                    if k[j].slot == child.slot {
                        assert(k[j] == child);
                        assert(k[j] != k[i as int]);
                        assert(false);
                    }
                    pre.lemma_sibling_subtrees_disjoint(ids, k[j].slot as int, cs);
                    assert(!pre.subtree_slots(cs).contains(s));
                    assert(!before_child.subtree_slots(cs).contains(s));
                    pre.lemma_subtree_step(ids, k[j].slot as int);
                    assert(s != ids);
                    assert(before_child.live_slot(s));
                }
                assert forall|s: int|
                    #[trigger] pre.live_slot(s) && !pre.subtree_slots(ids).contains(
                        s,
                    ) implies self.entry_at(s).value == pre.entry_at(s).value by {
                    assert(before_child.entry_at(s).value == pre.entry_at(s).value);
                    assert(!pre.subtree_slots(cs).contains(s));
                    assert(!before_child.subtree_slots(cs).contains(s));
                    assert(before_child.live_slot(s));
                }
                assert forall|s: int|
                    pre.subtree_slots(ids).contains(s) && s != ids && (forall|j: int|
                        0 <= j < i + 1 ==> !(#[trigger] pre.subtree_slots(
                            k[j].slot as int,
                        ).contains(s))) implies #[trigger] self.entry_at(s).value == pre.entry_at(
                    s,
                ).value by {
                    assert(!(pre.subtree_slots(k[i as int].slot as int).contains(s)));
                    assert(!pre.subtree_slots(cs).contains(s));
                    assert forall|j: int|
                        0 <= j < i implies !(#[trigger] pre.subtree_slots(
                            k[j].slot as int,
                        ).contains(s)) by {}
                    assert(before_child.entry_at(s).value == pre.entry_at(s).value);
                    assert(!before_child.subtree_slots(cs).contains(s));
                    assert(before_child.live_slot(s)) by {
                        assert(pre.live_slot(s));
                    }
                }
            }
            i = i + 1;
        }
        proof {
            assert forall|s: int|
                #[trigger] pre.subtree_slots(ids).contains(s) && s != ids implies ({
                    let n_old = pre.entry_at(s).value;
                    let n_new = self.entry_at(s).value;
                    &&& n_new.data == n_old.data
                    &&& n_new.styles == n_old.styles
                    &&& n_new.layout_node.children@ == n_old.layout_node.children@
                    &&& n_new.layout_node.styled
                    &&& n_new.layout_node.constraint == n_old.layout_node.constraint
                    &&& n_new.layout_node.linkage == n_old.layout_node.linkage
                }) by {
                pre.lemma_subtree_branch(ids, s);
                let b = pre.chain_at(s)[pre.chain_at(ids).len() as int];
                assert(pre.live_slot(b));
                assert(pre.arena.slots.len() == pre.arena.slots@.len());
                assert(pre.id_at(b).slot as int == b);
                assert(pre.children_at(ids).contains(pre.id_at(b)));
                let j = choose|j: int| 0 <= j < k.len() && k[j] == pre.id_at(b);
                assert(k[j] == pre.id_at(b));
                assert(k[j].slot as int == b);
                assert(pre.subtree_slots(b).contains(s));
            }
        }
    }

    /// Recomputes styles across the subtree of `id` without changing any
    /// layout linkage or mirror.  A stale identifier fails with
    /// `NodeDeallocated` and changes nothing.
    pub fn calculate_styles(&mut self, id: DOMNodeId) -> (r: Result<(), DOMError>)
        requires
            old(self).wf(),
        ensures
            final(self).wf(),
            r is Ok <==> old(self).live(id),
            r is Err ==> r == Err::<(), DOMError>(DOMError::NodeDeallocated) && *final(self)
                == *old(self),
            r is Ok ==> DOMTree::payload_shape_eq(*old(self), *final(self)),
            r is Ok ==> forall|s: int|
                #[trigger] old(self).live_slot(s) && !old(self).subtree_slots(
                    id.slot as int,
                ).contains(s) ==> final(self).entry_at(s).value == old(self).entry_at(s).value,
            r is Ok ==> forall|s: int|
                #[trigger] old(self).subtree_slots(id.slot as int).contains(s) ==> ({
                    let n_old = old(self).entry_at(s).value;
                    let n_new = final(self).entry_at(s).value;
                    &&& n_new.data == n_old.data
                    &&& n_new.styles == n_old.styles
                    &&& n_new.layout_node.children@ == n_old.layout_node.children@
                    &&& n_new.layout_node.styled
                    &&& n_new.layout_node.constraint == n_old.layout_node.constraint
                    &&& n_new.layout_node.linkage == n_old.layout_node.linkage
                }),
    {
        if self.arena.try_get(id).is_none() {
            return Err(DOMError::NodeDeallocated);
        }
        self.calculate_styles_rec(id);
        Ok(())
    }

    /// Builds the layout mirror for the whole document, rooted at the tree
    /// root.
    pub fn generate_layout_tree(&mut self)
        requires
            old(self).wf(),
        ensures
            final(self).wf(),
            DOMTree::payload_shape_eq(*old(self), *final(self)),
            forall|s: int|
                #[trigger] old(self).subtree_slots(old(self).root.slot as int).contains(s) ==> ({
                    &&& final(self).layout_children_at(s) == old(self).children_at(s)
                    &&& final(self).entry_at(s).value.layout_node.styled
                }),
    {
        let root = self.root_id();
        match self.build_layout(root) {
            Ok(()) => {},
            Err(_) => unreached(),
        }
    }

    /// Appends the already-allocated node `child` under `parent` and
    /// immediately mirrors the edge on the layout side: the child's computed
    /// style is applied and its layout handle is attached as the parent
    /// handle's next layout child, so the two trees never diverge.  All the
    /// conditions of `append_existing` apply, and additionally the child's
    /// layout handle must not be attached already; a failure changes
    /// nothing.
    pub fn append_with_layout(&mut self, parent: DOMNodeId, child: DOMNodeId) -> (r: Result<
        (),
        DOMError,
    >)
        requires
            old(self).wf(),
        ensures
            final(self).wf(),
            r is Err ==> *final(self) == *old(self),
            r is Ok <==> (old(self).live(parent) && old(self).live(child) && old(self).parent_of(
                child,
            ) is None && child != old(self).root && old(self).chain_at(parent.slot as int)[0]
                != child.slot as int && !(old(self).node_of(child).layout_node.linkage
                == crate::layout::LayoutLinkage::Attached)),
            r is Ok ==> ({
                &&& final(self).children(parent) == old(self).children(parent).push(child)
                &&& final(self).parent_of(child) == Some(parent)
                &&& final(self).root == old(self).root
                &&& forall|id: DOMNodeId|
                    #[trigger] final(self).live(id) <==> old(self).live(id)
                &&& final(self).node_of(parent).layout_node.children@ == old(self).node_of(
                    parent,
                ).layout_node.children@.push(child)
                &&& final(self).node_of(parent).data == old(self).node_of(parent).data
                &&& final(self).node_of(parent).styles == old(self).node_of(parent).styles
                &&& final(self).node_of(child).layout_node.linkage
                    == crate::layout::LayoutLinkage::Attached
                &&& final(self).node_of(child).layout_node.styled
                &&& final(self).node_of(child).layout_node.children@ == old(self).node_of(
                    child,
                ).layout_node.children@
                &&& final(self).node_of(child).data == old(self).node_of(child).data
                &&& final(self).node_of(child).styles == old(self).node_of(child).styles
                &&& forall|id: DOMNodeId|
                    #[trigger] old(self).live(id) && id != child && id != parent ==> final(self).node_of(id) == old(self).node_of(id)
                &&& forall|id: DOMNodeId|
                    #[trigger] old(self).live(id) && id.slot != parent.slot
                        ==> final(self).children(id) == old(self).children(id)
                &&& forall|id: DOMNodeId|
                    #[trigger] old(self).live(id) && id != child
                        ==> final(self).parent_of(id) == old(self).parent_of(id)
            }),
    {
        if self.arena.try_get(parent).is_none() {
            return Err(DOMError::InvalidParent);
        }
        let child_entry = match self.arena.try_get(child) {
            Some(e) => e,
            None => {
                return Err(DOMError::NodeDeallocated);
            },
        };
        match child_entry.value.layout_node.linkage {
            crate::layout::LayoutLinkage::Attached => {
                return Err(DOMError::InvalidParent);
            },
            _ => {},
        }
        let ghost pre = *self;
        match self.append_existing(parent, child) {
            Ok(()) => {},
            Err(e) => {
                return Err(e);
            },
        }
        let ghost mid = *self;
        proof {
            if parent == child {
                assert(pre.parent_of(child) is None);
                assert(pre.live_slot(child.slot as int));
                assert(pre.slot_ok(child.slot as int));
                assert(pre.chain_at(child.slot as int) == seq![child.slot as int]);
                assert(pre.chain_at(parent.slot as int)[0] == child.slot as int);
                assert(false);
            }
            assert(parent != child);
        }
        match self.get_mut_pair((parent, child)) {
            Ok((parent_node, child_node)) => {
                child_node.layout_node.styled = true;
                child_node.layout_node.linkage = crate::layout::LayoutLinkage::Attached;
                parent_node.layout_node.children.push(child);
            },
            Err(_) => unreached(),
        }
        proof {
            assert forall|id: DOMNodeId| true implies (#[trigger] self.live(id) <==> pre.live(
                id,
            )) by {
                assert(mid.live(id) <==> pre.live(id));
                if (id.slot as int) < mid.arena.slots@.len() {
                    assert(self.arena.slots@[id.slot as int].generation == mid.arena.slots@[id.slot
                        as int].generation && (self.arena.slots@[id.slot as int].value is Some
                        <==> mid.arena.slots@[id.slot as int].value is Some));
                }
            }
            assert(self.children(parent) == pre.children(parent).push(child));
            assert forall|id: DOMNodeId|
                #[trigger] pre.live(id) && id != child && id != parent implies self.node_of(id)
                == pre.node_of(id) by {
                assert(mid.live(id));
                assert(mid.node_of(id) == pre.node_of(id));
                assert(id.slot != parent.slot || id == parent) by {
                    if id.slot == parent.slot {
                        assert(mid.live(parent));
                        assert(id == parent);
                    }
                }
                assert(id.slot != child.slot || id == child) by {
                    if id.slot == child.slot {
                        assert(mid.live(child));
                        assert(id == child);
                    }
                }
            }
            assert forall|id: DOMNodeId|
                #[trigger] pre.live(id) && id.slot != parent.slot implies self.children(id)
                == pre.children(id) by {
                assert(mid.live(id));
            }
            assert forall|id: DOMNodeId|
                #[trigger] pre.live(id) && id != child implies self.parent_of(id) == pre.parent_of(
                id,
            ) by {
                assert(mid.live(id));
                assert(mid.parent_of(id) == pre.parent_of(id));
                assert(id.slot != child.slot || id == child) by {
                    if id.slot == child.slot {
                        assert(mid.live(child));
                        assert(id == child);
                    }
                }
            }
        }
        Ok(())
    }

    /// Detaches `child` - which must currently be a child of `parent` - and
    /// immediately mirrors the removal on the layout side: the child's
    /// identity leaves the parent handle's layout children and the child's
    /// handle becomes detached.  The child's layout handle must be attached
    /// and actually carried by the parent's handle; a failure changes
    /// nothing.
    pub fn remove_with_layout(&mut self, parent: DOMNodeId, child: DOMNodeId) -> (r: Result<
        (),
        DOMError,
    >)
        requires
            old(self).wf(),
        ensures
            final(self).wf(),
            r is Err ==> *final(self) == *old(self),
            r is Ok <==> (old(self).live(parent) && old(self).live(child) && old(self).parent_of(
                child,
            ) == Some(parent) && old(self).node_of(child).layout_node.linkage
                == crate::layout::LayoutLinkage::Attached && old(self).node_of(
                parent,
            ).layout_node.children@.contains(child)),
            r is Ok ==> ({
                let i = old(self).child_index_of(parent, child);
                &&& 0 <= i < old(self).children(parent).len()
                &&& old(self).children(parent)[i] == child
                &&& final(self).children(parent) == old(self).children(parent).remove(i)
                &&& final(self).parent_of(child) is None
                &&& final(self).root == old(self).root
                &&& forall|id: DOMNodeId|
                    #[trigger] final(self).live(id) <==> old(self).live(id)
                &&& final(self).node_of(child).layout_node.linkage
                    == crate::layout::LayoutLinkage::Detached
                &&& final(self).node_of(child).layout_node.children@ == old(self).node_of(
                    child,
                ).layout_node.children@
                &&& final(self).node_of(child).data == old(self).node_of(child).data
                &&& final(self).node_of(child).styles == old(self).node_of(child).styles
                &&& final(self).node_of(parent).data == old(self).node_of(parent).data
                &&& final(self).node_of(parent).styles == old(self).node_of(parent).styles
                &&& (exists|li: int|
                    {
                        &&& 0 <= li < old(self).node_of(parent).layout_node.children@.len()
                        &&& old(self).node_of(parent).layout_node.children@[li] == child
                        &&& (forall|lj: int|
                            0 <= lj < li ==> old(self).node_of(parent).layout_node.children@[lj]
                                != child)
                        &&& final(self).node_of(parent).layout_node.children@ == old(
                            self,
                        ).node_of(parent).layout_node.children@.remove(li)
                    })
                &&& forall|id: DOMNodeId|
                    #[trigger] old(self).live(id) && id != child && id != parent ==> final(self).node_of(id) == old(self).node_of(id)
                &&& forall|id: DOMNodeId|
                    #[trigger] old(self).live(id) && id.slot != parent.slot
                        ==> final(self).children(id) == old(self).children(id)
                &&& forall|id: DOMNodeId|
                    #[trigger] old(self).live(id) && id != child
                        ==> final(self).parent_of(id) == old(self).parent_of(id)
            }),
    {
        if self.arena.try_get(parent).is_none() {
            return Err(DOMError::InvalidParent);
        }
        let child_entry = match self.arena.try_get(child) {
            Some(e) => e,
            None => {
                return Err(DOMError::NodeDeallocated);
            },
        };
        let parent_matches = match child_entry.parent {
            Some(p) => p.slot == parent.slot && p.generation == parent.generation,
            None => false,
        };
        if !parent_matches {
            return Err(DOMError::InvalidParent);
        }
        match child_entry.value.layout_node.linkage {
            crate::layout::LayoutLinkage::Attached => {},
            _ => {
                return Err(DOMError::InvalidParent);
            },
        }
        let ghost pre = *self;
        proof {
            if parent == child {
                assert(pre.parent_of(child) == Some(parent));
                assert(pre.live_slot(child.slot as int));
                assert(pre.slot_ok(child.slot as int));
                assert(pre.chain_at(child.slot as int) == pre.chain_at(child.slot as int).push(
                    child.slot as int,
                ));
                assert(pre.chain_at(child.slot as int).push(child.slot as int).len()
                    == pre.chain_at(child.slot as int).len() + 1);
            }
            assert(parent != child);
        }
        // Check that the parent's layout handle actually carries the child.
        let parent_entry = match self.arena.try_get(parent) {
            Some(e) => e,
            None => unreached(),
        };
        let ln = parent_entry.value.layout_node.children.len();
        let mut li: usize = 0;
        let mut found: Option<usize> = None;
        while li < ln
            invariant
                0 <= li <= ln,
                self.live(parent),
                ln == self.node_of(parent).layout_node.children@.len(),
                match found {
                    None => forall|lj: int|
                        0 <= lj < li ==> self.node_of(parent).layout_node.children@[lj] != child,
                    Some(fi) => fi < li && self.node_of(parent).layout_node.children@[fi as int]
                        == child && forall|lj: int|
                        0 <= lj < fi ==> self.node_of(parent).layout_node.children@[lj] != child,
                },
            decreases ln - li,
        {
            let e = match self.arena.try_get(parent) {
                Some(e) => e,
                None => unreached(),
            };
            if found.is_none() && e.value.layout_node.children[li] == child {
                found = Some(li);
            }
            li = li + 1;
        }
        let fi = match found {
            Some(fi) => fi,
            None => {
                proof {
                    assert(!pre.node_of(parent).layout_node.children@.contains(child));
                }
                return Err(DOMError::InvalidParent);
            },
        };
        proof {
            assert(pre.node_of(parent).layout_node.children@[fi as int] == child);
            assert(pre.node_of(parent).layout_node.children@.contains(child));
        }
        match self.detach(child) {
            Ok(()) => {},
            Err(_) => unreached(),
        }
        let ghost mid = *self;
        match self.get_mut_pair((parent, child)) {
            Ok((parent_node, child_node)) => {
                child_node.layout_node.linkage = crate::layout::LayoutLinkage::Detached;
                parent_node.layout_node.children.remove(fi);
            },
            Err(_) => unreached(),
        }
        proof {
            assert forall|id: DOMNodeId| true implies (#[trigger] self.live(id) <==> pre.live(
                id,
            )) by {
                assert(mid.live(id) <==> pre.live(id));
                if (id.slot as int) < mid.arena.slots@.len() {
                    assert(self.arena.slots@[id.slot as int].generation == mid.arena.slots@[id.slot
                        as int].generation && (self.arena.slots@[id.slot as int].value is Some
                        <==> mid.arena.slots@[id.slot as int].value is Some));
                }
            }
            assert(mid.children(parent) == pre.children(parent).remove(
                pre.child_index_of(parent, child),
            ));
            assert(self.children(parent) == mid.children(parent));
            assert forall|id: DOMNodeId|
                #[trigger] pre.live(id) && id != child && id != parent implies self.node_of(id)
                == pre.node_of(id) by {
                assert(mid.live(id));
                assert(mid.node_of(id) == pre.node_of(id));
                if id.slot == parent.slot {
                    assert(mid.live(parent));
                    assert(id == parent);
                }
                if id.slot == child.slot {
                    assert(mid.live(child));
                    assert(id == child);
                }
            }
            assert forall|id: DOMNodeId|
                #[trigger] pre.live(id) && id.slot != parent.slot implies self.children(id)
                == pre.children(id) by {
                assert(mid.live(id));
            }
            assert forall|id: DOMNodeId|
                #[trigger] pre.live(id) && id != child implies self.parent_of(id) == pre.parent_of(
                id,
            ) by {
                assert(mid.live(id));
                assert(mid.parent_of(id) == pre.parent_of(id));
                if id.slot == child.slot {
                    assert(mid.live(child));
                    assert(id == child);
                }
            }
            assert(self.node_of(child).data == pre.node_of(child).data);
        }
        Ok(())
    }

    /// The root's identifier.
    pub fn root_id(&self) -> (r: DOMNodeId)
        ensures
            r == self.root,
    {
        self.root
    }

    /// Inserts `node` into the arena, unattached: it has no parent, no
    /// siblings and no children, and every other node is untouched.  The
    /// returned identifier is fresh - the arena has never issued it before.
    pub fn allocate(&mut self, node: DOMNode) -> (r: DOMNodeId)
        requires
            old(self).wf(),
        ensures
            final(self).wf(),
            final(self).live(r),
            !old(self).live(r),
            !old(self).live_slot(r.slot as int),
            !old(self).arena.issued_ids().contains(r),
            final(self).arena.issued_ids() == old(self).arena.issued_ids().insert(r),
            final(self).node_of(r) == node,
            final(self).parent_of(r) is None,
            final(self).children(r) == Seq::<DOMNodeId>::empty(),
            final(self).root == old(self).root,
            forall|id: DOMNodeId|
                id != r ==> (#[trigger] final(self).live(id) <==> old(self).live(id)),
            forall|id: DOMNodeId|
                #[trigger] old(self).live(id) ==> final(self).entry_of(id) == old(self).entry_of(id)
                    && final(self).children(id) == old(self).children(id) && final(self).chain_at(
                    id.slot as int,
                ) == old(self).chain_at(id.slot as int),
    {
        let ghost pre = *self;
        let entry = NodeEntry {
            parent: None,
            prev_sibling: None,
            next_sibling: None,
            first_child: None,
            last_child: None,
            value: node,
        };
        let r = self.arena.allocate(entry);
        proof {
            self.kids@ = pre.kids@.insert(r.slot as int, Seq::empty());
            self.chains@ = pre.chains@.insert(r.slot as int, seq![r.slot as int]);
            assert(!pre.live(r));
            assert forall|id: DOMNodeId| #[trigger] pre.live(id) implies self.entry_of(id)
                == pre.entry_of(id) && self.children(id) == pre.children(id) && self.chain_at(
                id.slot as int,
            ) == pre.chain_at(id.slot as int) by {
                assert(id != r);
                if id.slot == r.slot {
                    assert(pre.arena.slots@[id.slot as int].value is Some);
                    assert(r.slot as int == pre.arena.n_slots() || pre.arena.slots@[r.slot
                        as int].value is None);
                    assert(false);
                }
            }
            assert forall|s: int| #[trigger] self.live_slot(s) implies self.slot_ok(s) by {
                if s == r.slot as int {
                    assert(self.children_at(s).len() == 0);
                    assert(self.chain_at(s) == seq![s]);
                } else {
                    assert(self.arena.slots@[s] == pre.arena.slots@[s]);
                    assert(pre.live_slot(s));
                    assert(pre.slot_ok(s));
                    assert(self.entry_at(s) == pre.entry_at(s));
                    assert(self.children_at(s) == pre.children_at(s));
                    assert(self.chain_at(s) == pre.chain_at(s));
                    assert(self.id_at(s) == pre.id_at(s));
                    let k = self.children_at(s);
                    assert forall|i: int| 0 <= i < k.len() implies #[trigger] self.child_link_ok(
                        s,
                        i,
                    ) by {
                        assert(pre.child_link_ok(s, i));
                        let c = k[i];
                        assert(pre.live(c));
                        assert(c != r);
                        assert(c.slot as int != r.slot as int);
                    }
                    match self.entry_at(s).parent {
                        None => {},
                        Some(p) => {
                            assert(pre.live(p));
                            assert(p != r);
                            assert(p.slot as int != r.slot as int);
                        },
                    }
                }
            }
            assert(self.root != r);
        }
        r
    }

    /// Links the detached subtree root `child` as the new last child of
    /// `parent`: `child` joins the end of `parent`'s child list, the former
    /// last child (if any) gains `child` as next sibling, and the chains of
    /// `child`'s whole subtree are rebased under `parent`.  Nothing else -
    /// no payload, no liveness, no other node's links - changes.
    fn attach_last(&mut self, parent: DOMNodeId, child: DOMNodeId)
        requires
            old(self).wf(),
            old(self).live(parent),
            old(self).live(child),
            old(self).entry_of(child).parent is None,
            old(self).chain_at(parent.slot as int)[0] != child.slot as int,
            child != old(self).root,
        ensures
            final(self).wf(),
            final(self).root == old(self).root,
            final(self).arena.issued_ids() == old(self).arena.issued_ids(),
            final(self).arena.slots@.len() == old(self).arena.slots@.len(),
            forall|id: DOMNodeId| #[trigger] final(self).live(id) <==> old(self).live(id),
            forall|id: DOMNodeId|
                #[trigger] old(self).live(id) ==> final(self).node_of(id) == old(self).node_of(id),
            forall|id: DOMNodeId|
                #[trigger] old(self).live(id) && id.slot != parent.slot ==> final(self).children(
                    id,
                ) == old(self).children(id),
            forall|id: DOMNodeId|
                #[trigger] old(self).live(id) && id != child ==> final(self).parent_of(id) == old(
                    self,
                ).parent_of(id),
            final(self).children(parent) == old(self).children(parent).push(child),
            final(self).parent_of(child) == Some(parent),
            final(self).entry_of(child).next_sibling is None,
            final(self).entry_of(child).prev_sibling == (if old(self).children(parent).len() == 0 {
                None
            } else {
                Some(old(self).children(parent)[old(self).children(parent).len() - 1])
            }),
            final(self).entry_of(child).first_child == old(self).entry_of(child).first_child,
            final(self).entry_of(child).last_child == old(self).entry_of(child).last_child,
            forall|s: int|
                #[trigger] old(self).live_slot(s) && !old(self).subtree_slots(
                    child.slot as int,
                ).contains(s) ==> final(self).chain_at(s) == old(self).chain_at(s),
            forall|s: int|
                #[trigger] old(self).live_slot(s) && old(self).subtree_slots(
                    child.slot as int,
                ).contains(s) ==> final(self).chain_at(s) == old(self).chain_at(
                    parent.slot as int,
                ) + old(self).chain_at(s),
    {
        let ghost pre = *self;
        let parent_entry = match self.arena.try_get(parent) {
            Some(e) => e,
            None => unreached(),
        };
        let old_last: Option<DOMNodeId> = parent_entry.last_child;
        proof {
            assert(pre.live_slot(parent.slot as int));
            assert(pre.live_slot(child.slot as int));
            assert(pre.slot_ok(parent.slot as int));
            assert(pre.slot_ok(child.slot as int));
            // The child heads its own subtree, so its chain is just itself.
            assert(pre.chain_at(child.slot as int) == seq![child.slot as int]);
            if child.slot == parent.slot {
                assert(pre.chain_at(parent.slot as int)[0] == child.slot as int);
            }
            assert(child.slot != parent.slot);
            match old_last {
                Some(l) => {
                    let k = pre.children_at(parent.slot as int);
                    assert(l == k[k.len() - 1]);
                    assert(pre.child_link_ok(parent.slot as int, k.len() - 1));
                    assert(pre.entry_of(l).parent == Some(pre.id_at(parent.slot as int)));
                    if l.slot == child.slot {
                        assert(pre.entry_of(child).parent is None);
                    }
                    if l.slot == parent.slot {
                        // A node cannot be its own child: its chain would
                        // then extend itself by one entry.
                        assert(pre.chain_at(parent.slot as int) == pre.chain_at(
                            parent.slot as int,
                        ).push(parent.slot as int));
                        assert(pre.chain_at(parent.slot as int).len() == pre.chain_at(
                            parent.slot as int,
                        ).len() + 1);
                    }
                    assert(l.slot != child.slot && l.slot != parent.slot);
                },
                None => {},
            }
        }
        // Wire the child in: its parent and siblings first,
        let entry = match self.arena.try_get_mut(child) {
            Some(e) => e,
            None => unreached(),
        };
        entry.parent = Some(parent);
        entry.prev_sibling = old_last;
        entry.next_sibling = None;
        // then the parent's cached endpoints,
        let entry = match self.arena.try_get_mut(parent) {
            Some(e) => e,
            None => unreached(),
        };
        entry.last_child = Some(child);
        if old_last.is_none() {
            entry.first_child = Some(child);
        }
        // and the former last sibling's forward link.
        match old_last {
            Some(l) => {
                let entry = match self.arena.try_get_mut(l) {
                    Some(e) => e,
                    None => unreached(),
                };
                entry.next_sibling = Some(child);
            },
            None => {},
        }
        proof {
            let ps = parent.slot as int;
            let cs = child.slot as int;
            let pchain = pre.chain_at(ps);
            self.kids@ = pre.kids@.insert(ps, pre.children_at(ps).push(child));
            self.chains@ = Map::new(
                |s: int| pre.chains@.contains_key(s),
                |s: int|
                    if pre.chains@[s].len() >= 1 && pre.chains@[s][0] == cs {
                        pchain + pre.chains@[s]
                    } else {
                        pre.chains@[s]
                    },
            );
            pre.lemma_chain_facts(ps);
            // The parent is outside the child's subtree: its chain does not
            // begin at the child's slot.
            assert(!(pchain.len() >= 1 && pchain[0] == cs));
            assert(self.chain_at(ps) == pchain);
            assert(self.chain_at(cs) =~= pchain.push(cs));
            let k_new = pre.children_at(ps).push(child);
            assert(self.children_at(ps) == k_new);
            // Only three slots changed, each in known fields.
            assert forall|s: int|
                pre.live_slot(s) implies #[trigger] self.live_slot(s) && self.arena.slots@[s].generation
                == pre.arena.slots@[s].generation && self.entry_at(s).value == pre.entry_at(
                s,
            ).value by {}
            Arena::lemma_wf_value_change(pre.arena, self.arena);
            assert forall|s: int| self.live_slot(s) implies #[trigger] pre.live_slot(s) by {}
            assert forall|s: int|
                pre.live_slot(s) && s != cs && s != ps && (old_last matches Some(l) ==> s
                    != l.slot as int) implies self.entry_at(s) == #[trigger] pre.entry_at(s) by {}
            assert forall|id: DOMNodeId| #[trigger] self.live(id) <==> pre.live(id) by {}
            // Chains after rebasing.
            assert forall|s: int|
                pre.live_slot(s) && !pre.subtree_slots(cs).contains(s) implies #[trigger] self.chain_at(
                s,
            ) == pre.chain_at(s) by {
                pre.lemma_chain_facts(s);
                if pre.chains@[s].len() >= 1 && pre.chains@[s][0] == cs {
                    assert(pre.chain_at(cs).is_prefix_of(pre.chain_at(s)));
                    assert(pre.subtree_slots(cs).contains(s));
                }
            }
            assert forall|s: int|
                pre.live_slot(s) && pre.subtree_slots(cs).contains(s) implies #[trigger] self.chain_at(
                s,
            ) == pchain + pre.chain_at(s) by {
                assert(pre.chain_at(cs).is_prefix_of(pre.chain_at(s)));
                assert(pre.chains@[s][0] == cs);
            }
            // Every live slot is structurally consistent again.
            assert forall|s: int| #[trigger] self.live_slot(s) implies self.slot_ok(s) by {
                assert(pre.live_slot(s));
                assert(pre.slot_ok(s));
                let e_pre = pre.entry_at(s);
                let e_new = self.entry_at(s);
                let k_pre = pre.children_at(s);
                if s == ps {
                    // The parent gained a trailing child.
                    assert(k_new.no_duplicates()) by {
                        if k_pre.contains(child) {
                            let i = choose|i: int|
                                0 <= i < k_pre.len() && k_pre[i] == child;
                            assert(pre.child_link_ok(ps, i));
                            assert(pre.entry_of(child).parent is None);
                        }
                    }
                    assert forall|i: int| 0 <= i < k_new.len() implies #[trigger] self.child_link_ok(
                        s,
                        i,
                    ) by {
                        if i < k_new.len() - 1 {
                            assert(pre.child_link_ok(ps, i));
                            let c = k_pre[i];
                            assert(c.slot != cs) by {
                                if c.slot == cs {
                                    assert(pre.entry_of(child).parent is None);
                                }
                            }
                            assert(c.slot as int != ps) by {
                                if c.slot as int == ps {
                                    assert(pre.chain_at(ps) == pre.chain_at(ps).push(ps));
                                }
                            }
                            if i == k_new.len() - 2 {
                                assert(old_last == Some(k_pre[i]));
                            } else {
                                assert((old_last matches Some(l) ==> k_pre[i].slot != l.slot)) by {
                                    match old_last {
                                        Some(l) => {
                                            if k_pre[i].slot == l.slot {
                                                assert(k_pre[i] == l);
                                                assert(k_pre[k_pre.len() - 1] == l);
                                            }
                                        },
                                        None => {},
                                    }
                                }
                            }
                        } else {
                            assert(k_new[i] == child);
                        }
                    }
                    match e_new.parent {
                        None => {
                            assert(self.chain_at(s) == pre.chain_at(s));
                            assert(pre.chain_at(s) == seq![s]);
                        },
                        Some(q) => {
                            assert(pre.entry_at(s).parent == Some(q));
                            let qs = q.slot as int;
                            assert(pre.children_at(qs).contains(pre.id_at(s)));
                            assert(self.children_at(qs).contains(self.id_at(s))) by {
                                if qs != ps {
                                    assert(self.children_at(qs) == pre.children_at(qs));
                                } else {
                                    let i = choose|i: int|
                                        0 <= i < pre.children_at(qs).len() && pre.children_at(
                                            qs,
                                        )[i] == pre.id_at(s);
                                    assert(k_new[i] == pre.id_at(s));
                                }
                            }
                            assert(self.chain_at(qs) == pre.chain_at(qs)) by {
                                pre.lemma_chain_facts(s);
                                if pre.subtree_slots(cs).contains(qs) {
                                    assert(pre.chain_at(qs)[0] == cs);
                                    assert(pre.chain_at(s) == pre.chain_at(qs).push(s));
                                    assert(pre.chain_at(s)[0] == cs);
                                    assert(pre.subtree_slots(cs).contains(s)) by {
                                        assert(pre.chain_at(cs).is_prefix_of(pre.chain_at(qs)));
                                        assert(pre.chain_at(s).take(1) =~= pre.chain_at(
                                            qs,
                                        ).take(1));
                                        assert(pre.chain_at(cs).is_prefix_of(pre.chain_at(s)));
                                    }
                                    assert(false);
                                }
                            }
                        },
                    }
                } else if s == cs {
                    // The child now hangs under the parent.
                    assert(e_new.parent == Some(parent));
                    assert(parent == pre.id_at(ps));
                    assert(self.children_at(ps).contains(self.id_at(cs))) by {
                        assert(k_new[k_new.len() - 1] == child);
                        assert(child == pre.id_at(cs));
                    }
                    assert(self.chain_at(cs) == self.chain_at(ps).push(cs));
                    assert(self.children_at(cs) == pre.children_at(cs));
                    assert forall|i: int|
                        0 <= i < self.children_at(s).len() implies #[trigger] self.child_link_ok(
                        s,
                        i,
                    ) by {
                        assert(pre.child_link_ok(cs, i));
                        let c = pre.children_at(cs)[i];
                        assert(c.slot as int != ps) by {
                            if c.slot as int == ps {
                                // The parent would lie inside the child's
                                // subtree, putting the child's slot at the
                                // head of the parent's chain.
                                assert(pre.entry_at(c.slot as int).parent == Some(pre.id_at(cs)));
                                assert(pre.chain_at(ps) == pre.chain_at(cs).push(ps));
                                assert(pre.chain_at(ps)[0] == cs);
                            }
                        }
                        assert(c.slot != cs) by {
                            if c.slot == cs {
                                assert(pre.entry_at(cs).parent == Some(pre.id_at(cs)));
                                assert(pre.entry_of(child).parent is None);
                            }
                        }
                        assert((old_last matches Some(l) ==> c.slot != l.slot)) by {
                            match old_last {
                                Some(l) => {
                                    if c.slot == l.slot {
                                        assert(pre.entry_at(c.slot as int).parent == Some(
                                            pre.id_at(cs),
                                        ));
                                        assert(pre.entry_at(l.slot as int).parent == Some(
                                            pre.id_at(ps),
                                        ));
                                    }
                                },
                                None => {},
                            }
                        }
                    }
                } else {
                    // Everywhere else the entry changed in at most the
                    // next-sibling field of the former last child.
                    let changed_next = old_last matches Some(l) && s == l.slot as int;
                    assert(e_new.first_child == e_pre.first_child);
                    assert(e_new.last_child == e_pre.last_child);
                    assert(e_new.parent == e_pre.parent);
                    assert(e_new.prev_sibling == e_pre.prev_sibling);
                    assert(self.children_at(s) == k_pre);
                    assert forall|i: int| 0 <= i < k_pre.len() implies #[trigger] self.child_link_ok(
                        s,
                        i,
                    ) by {
                        assert(pre.child_link_ok(s, i));
                        let c = k_pre[i];
                        assert(c.slot != cs) by {
                            if c.slot == cs {
                                assert(pre.entry_at(cs).parent == Some(pre.id_at(s)));
                                assert(pre.entry_of(child).parent is None);
                            }
                        }
                        if c.slot as int == ps {
                            // Only the endpoint caches of the parent changed.
                            assert(self.entry_at(c.slot as int).parent == pre.entry_at(
                                c.slot as int,
                            ).parent);
                            assert(self.entry_at(c.slot as int).prev_sibling == pre.entry_at(
                                c.slot as int,
                            ).prev_sibling);
                            assert(self.entry_at(c.slot as int).next_sibling == pre.entry_at(
                                c.slot as int,
                            ).next_sibling);
                        } else {
                            match old_last {
                                Some(l) => {
                                    if c.slot == l.slot {
                                        // The former last child of the parent
                                        // cannot sit in another child list, so
                                        // s would be the parent itself.
                                        let k0 = pre.children_at(ps);
                                        assert(pre.slot_ok(ps));
                                        assert(pre.child_link_ok(ps, k0.len() - 1));
                                        assert(k0[k0.len() - 1] == l);
                                        assert(pre.entry_at(l.slot as int).parent == Some(
                                            pre.id_at(ps),
                                        ));
                                        assert(pre.entry_at(c.slot as int).parent == Some(
                                            pre.id_at(s),
                                        ));
                                        assert(pre.id_at(ps).slot == pre.id_at(s).slot);
                                        assert(pre.arena.slots.len() == pre.arena.slots@.len());
                                        assert(s <= usize::MAX && ps <= usize::MAX);
                                        assert(ps as usize as int == ps);
                                        assert(s as usize as int == s);
                                        assert(ps == s);
                                        assert(false);
                                    }
                                },
                                None => {},
                            }
                        }
                    }
                    match e_new.parent {
                        None => {
                            assert(self.chain_at(s) == pre.chain_at(s));
                        },
                        Some(q) => {
                            let qs = q.slot as int;
                            assert(self.children_at(qs).contains(self.id_at(s))) by {
                                assert(pre.children_at(qs).contains(pre.id_at(s)));
                                if qs == ps {
                                    let i = choose|i: int|
                                        0 <= i < pre.children_at(qs).len() && pre.children_at(
                                            qs,
                                        )[i] == pre.id_at(s);
                                    assert(k_new[i] == pre.id_at(s));
                                }
                            }
                            // The slot and its parent sit on the same side of
                            // the rebased subtree.
                            if pre.subtree_slots(cs).contains(s) {
                                assert(pre.chain_at(s) == pre.chain_at(qs).push(s));
                                assert(pre.chain_at(s)[0] == cs);
                                assert(s != cs);
                                assert(pre.chain_at(s).len() >= 2) by {
                                    if pre.chain_at(s).len() < 2 {
                                        assert(pre.chain_at(s) =~= seq![cs]);
                                        pre.lemma_chain_facts(s);
                                        assert(pre.chain_at(s)[pre.chain_at(s).len() - 1] == s);
                                    }
                                }
                                assert(pre.chain_at(qs)[0] == cs);
                                assert(pre.subtree_slots(cs).contains(qs)) by {
                                    assert(pre.chain_at(cs).is_prefix_of(pre.chain_at(qs)));
                                }
                                assert(self.chain_at(s) == pchain + pre.chain_at(s));
                                assert(self.chain_at(qs) == pchain + pre.chain_at(qs));
                                assert(self.chain_at(s) =~= self.chain_at(qs).push(s));
                            } else {
                                assert(self.chain_at(s) == pre.chain_at(s));
                                assert(pre.chain_at(s) == pre.chain_at(qs).push(s));
                                assert(!pre.subtree_slots(cs).contains(qs)) by {
                                    if pre.subtree_slots(cs).contains(qs) {
                                        assert(pre.chain_at(qs)[0] == cs);
                                        assert(pre.chain_at(s)[0] == cs);
                                        pre.lemma_chain_facts(s);
                                        assert(pre.chain_at(cs).is_prefix_of(pre.chain_at(s)));
                                        assert(pre.subtree_slots(cs).contains(s));
                                    }
                                }
                                assert(self.chain_at(qs) == pre.chain_at(qs));
                            }
                        },
                    }
                }
            }
            assert(self.live(self.root) && self.entry_of(self.root).parent is None) by {
                if self.root.slot == child.slot {
                    assert(self.root == child);
                }
                assert(self.root.slot as int != cs);
                if self.root.slot as int == ps {
                } else {
                    match old_last {
                        Some(l) => {
                            if self.root.slot == l.slot {
                                assert(pre.entry_at(l.slot as int).parent == Some(pre.id_at(ps)));
                            }
                        },
                        None => {},
                    }
                }
            }
        }
    }

    /// Links the detached subtree root `child` as the new first child of
    /// `parent`: `child` joins the front of `parent`'s child list, the former
    /// first child (if any) gains `child` as previous sibling, and the chains
    /// of `child`'s whole subtree are rebased under `parent`.  Nothing else
    /// changes.
    fn attach_first(&mut self, parent: DOMNodeId, child: DOMNodeId)
        requires
            old(self).wf(),
            old(self).live(parent),
            old(self).live(child),
            old(self).entry_of(child).parent is None,
            old(self).chain_at(parent.slot as int)[0] != child.slot as int,
            child != old(self).root,
        ensures
            final(self).wf(),
            final(self).root == old(self).root,
            final(self).arena.issued_ids() == old(self).arena.issued_ids(),
            final(self).arena.slots@.len() == old(self).arena.slots@.len(),
            forall|id: DOMNodeId| #[trigger] final(self).live(id) <==> old(self).live(id),
            forall|id: DOMNodeId|
                #[trigger] old(self).live(id) ==> final(self).node_of(id) == old(self).node_of(id),
            forall|id: DOMNodeId|
                #[trigger] old(self).live(id) && id.slot != parent.slot ==> final(self).children(
                    id,
                ) == old(self).children(id),
            forall|id: DOMNodeId|
                #[trigger] old(self).live(id) && id != child ==> final(self).parent_of(id) == old(
                    self,
                ).parent_of(id),
            final(self).children(parent) == seq![child] + old(self).children(parent),
            final(self).parent_of(child) == Some(parent),
            final(self).entry_of(child).prev_sibling is None,
            final(self).entry_of(child).next_sibling == (if old(self).children(parent).len() == 0 {
                None
            } else {
                Some(old(self).children(parent)[0])
            }),
            final(self).entry_of(child).first_child == old(self).entry_of(child).first_child,
            final(self).entry_of(child).last_child == old(self).entry_of(child).last_child,
            forall|s: int|
                #[trigger] old(self).live_slot(s) && !old(self).subtree_slots(
                    child.slot as int,
                ).contains(s) ==> final(self).chain_at(s) == old(self).chain_at(s),
            forall|s: int|
                #[trigger] old(self).live_slot(s) && old(self).subtree_slots(
                    child.slot as int,
                ).contains(s) ==> final(self).chain_at(s) == old(self).chain_at(
                    parent.slot as int,
                ) + old(self).chain_at(s),
    {
        let ghost pre = *self;
        let parent_entry = match self.arena.try_get(parent) {
            Some(e) => e,
            None => unreached(),
        };
        let old_first: Option<DOMNodeId> = parent_entry.first_child;
        proof {
            assert(pre.live_slot(parent.slot as int));
            assert(pre.live_slot(child.slot as int));
            assert(pre.slot_ok(parent.slot as int));
            assert(pre.slot_ok(child.slot as int));
            // The child heads its own subtree, so its chain is just itself.
            assert(pre.chain_at(child.slot as int) == seq![child.slot as int]);
            if child.slot == parent.slot {
                assert(pre.chain_at(parent.slot as int)[0] == child.slot as int);
            }
            assert(child.slot != parent.slot);
            match old_first {
                Some(f) => {
                    let k = pre.children_at(parent.slot as int);
                    assert(f == k[0]);
                    assert(pre.child_link_ok(parent.slot as int, 0));
                    assert(pre.entry_of(f).parent == Some(pre.id_at(parent.slot as int)));
                    if f.slot == child.slot {
                        assert(pre.entry_of(child).parent is None);
                    }
                    if f.slot == parent.slot {
                        // A node cannot be its own child: its chain would
                        // then extend itself by one entry.
                        assert(pre.chain_at(parent.slot as int) == pre.chain_at(
                            parent.slot as int,
                        ).push(parent.slot as int));
                        assert(pre.chain_at(parent.slot as int).len() == pre.chain_at(
                            parent.slot as int,
                        ).len() + 1);
                    }
                    assert(f.slot != child.slot && f.slot != parent.slot);
                },
                None => {},
            }
        }
        // Wire the child in: its parent and siblings first,
        let entry = match self.arena.try_get_mut(child) {
            Some(e) => e,
            None => unreached(),
        };
        entry.parent = Some(parent);
        entry.prev_sibling = None;
        entry.next_sibling = old_first;
        // then the parent's cached endpoints,
        let entry = match self.arena.try_get_mut(parent) {
            Some(e) => e,
            None => unreached(),
        };
        entry.first_child = Some(child);
        if old_first.is_none() {
            entry.last_child = Some(child);
        }
        // and the former first sibling's backward link.
        match old_first {
            Some(f) => {
                let entry = match self.arena.try_get_mut(f) {
                    Some(e) => e,
                    None => unreached(),
                };
                entry.prev_sibling = Some(child);
            },
            None => {},
        }
        proof {
            let ps = parent.slot as int;
            let cs = child.slot as int;
            let pchain = pre.chain_at(ps);
            self.kids@ = pre.kids@.insert(ps, seq![child] + pre.children_at(ps));
            self.chains@ = Map::new(
                |s: int| pre.chains@.contains_key(s),
                |s: int|
                    if pre.chains@[s].len() >= 1 && pre.chains@[s][0] == cs {
                        pchain + pre.chains@[s]
                    } else {
                        pre.chains@[s]
                    },
            );
            pre.lemma_chain_facts(ps);
            // The parent is outside the child's subtree: its chain does not
            // begin at the child's slot.
            assert(!(pchain.len() >= 1 && pchain[0] == cs));
            assert(self.chain_at(ps) == pchain);
            assert(self.chain_at(cs) =~= pchain.push(cs));
            let k_pre0 = pre.children_at(ps);
            let k_new = seq![child] + k_pre0;
            assert(self.children_at(ps) == k_new);
            assert(k_new.len() == k_pre0.len() + 1);
            assert(k_new[0] == child);
            assert forall|i: int| 1 <= i < k_new.len() implies k_new[i] == k_pre0[i - 1] by {}
            // Only three slots changed, each in known fields.
            assert forall|s: int|
                pre.live_slot(s) implies #[trigger] self.live_slot(s) && self.arena.slots@[s].generation
                == pre.arena.slots@[s].generation && self.entry_at(s).value == pre.entry_at(
                s,
            ).value by {}
            Arena::lemma_wf_value_change(pre.arena, self.arena);
            assert forall|s: int| self.live_slot(s) implies #[trigger] pre.live_slot(s) by {}
            assert forall|s: int|
                pre.live_slot(s) && s != cs && s != ps && (old_first matches Some(f) ==> s
                    != f.slot as int) implies self.entry_at(s) == #[trigger] pre.entry_at(s) by {}
            assert forall|id: DOMNodeId| #[trigger] self.live(id) <==> pre.live(id) by {}
            // Chains after rebasing.
            assert forall|s: int|
                pre.live_slot(s) && !pre.subtree_slots(cs).contains(s) implies #[trigger] self.chain_at(
                s,
            ) == pre.chain_at(s) by {
                pre.lemma_chain_facts(s);
                if pre.chains@[s].len() >= 1 && pre.chains@[s][0] == cs {
                    assert(pre.chain_at(cs).is_prefix_of(pre.chain_at(s)));
                    assert(pre.subtree_slots(cs).contains(s));
                }
            }
            assert forall|s: int|
                pre.live_slot(s) && pre.subtree_slots(cs).contains(s) implies #[trigger] self.chain_at(
                s,
            ) == pchain + pre.chain_at(s) by {
                assert(pre.chain_at(cs).is_prefix_of(pre.chain_at(s)));
                assert(pre.chains@[s][0] == cs);
            }
            // Every live slot is structurally consistent again.
            assert forall|s: int| #[trigger] self.live_slot(s) implies self.slot_ok(s) by {
                assert(pre.live_slot(s));
                assert(pre.slot_ok(s));
                let e_pre = pre.entry_at(s);
                let e_new = self.entry_at(s);
                let k_pre = pre.children_at(s);
                if s == ps {
                    // The parent gained a leading child.
                    assert(k_new.no_duplicates()) by {
                        assert forall|i: int, j: int|
                            0 <= i < k_new.len() && 0 <= j < k_new.len() && i != j implies k_new[i]
                            != k_new[j] by {
                            if i == 0 || j == 0 {
                                let other = if i == 0 { j } else { i };
                                if k_new[other] == child {
                                    let oi = other - 1;
                                    assert(k_pre0[oi] == child);
                                    assert(pre.child_link_ok(ps, oi));
                                    assert(pre.entry_of(child).parent is None);
                                }
                            } else {
                                assert(k_pre0[i - 1] != k_pre0[j - 1]);
                            }
                        }
                    }
                    assert forall|i: int| 0 <= i < k_new.len() implies #[trigger] self.child_link_ok(
                        s,
                        i,
                    ) by {
                        if i >= 1 {
                            assert(pre.child_link_ok(ps, i - 1));
                            let c = k_pre0[i - 1];
                            assert(c.slot != cs) by {
                                if c.slot == cs {
                                    assert(pre.entry_of(child).parent is None);
                                }
                            }
                            assert(c.slot as int != ps) by {
                                if c.slot as int == ps {
                                    assert(pre.chain_at(ps) == pre.chain_at(ps).push(ps));
                                }
                            }
                            if i == 1 {
                                assert(old_first == Some(k_pre0[0]));
                                assert(self.entry_at(c.slot as int).prev_sibling == Some(child));
                            } else {
                                assert((old_first matches Some(f) ==> k_pre0[i - 1].slot
                                    != f.slot)) by {
                                    match old_first {
                                        Some(f) => {
                                            if k_pre0[i - 1].slot == f.slot {
                                                assert(k_pre0[i - 1] == f);
                                                assert(k_pre0[0] == f);
                                            }
                                        },
                                        None => {},
                                    }
                                }
                            }
                        } else {
                            assert(k_new[i] == child);
                        }
                    }
                    match e_new.parent {
                        None => {
                            assert(self.chain_at(s) == pre.chain_at(s));
                            assert(pre.chain_at(s) == seq![s]);
                        },
                        Some(q) => {
                            assert(pre.entry_at(s).parent == Some(q));
                            let qs = q.slot as int;
                            assert(pre.children_at(qs).contains(pre.id_at(s)));
                            assert(self.children_at(qs).contains(self.id_at(s))) by {
                                if qs != ps {
                                    assert(self.children_at(qs) == pre.children_at(qs));
                                } else {
                                    let i = choose|i: int|
                                        0 <= i < pre.children_at(qs).len() && pre.children_at(
                                            qs,
                                        )[i] == pre.id_at(s);
                                    assert(k_new[i + 1] == pre.id_at(s));
                                }
                            }
                            assert(self.chain_at(qs) == pre.chain_at(qs)) by {
                                pre.lemma_chain_facts(s);
                                if pre.subtree_slots(cs).contains(qs) {
                                    assert(pre.chain_at(qs)[0] == cs);
                                    assert(pre.chain_at(s) == pre.chain_at(qs).push(s));
                                    assert(pre.chain_at(s)[0] == cs);
                                    assert(pre.subtree_slots(cs).contains(s)) by {
                                        assert(pre.chain_at(cs).is_prefix_of(pre.chain_at(qs)));
                                        assert(pre.chain_at(s).take(1) =~= pre.chain_at(
                                            qs,
                                        ).take(1));
                                        assert(pre.chain_at(cs).is_prefix_of(pre.chain_at(s)));
                                    }
                                    assert(false);
                                }
                            }
                        },
                    }
                } else if s == cs {
                    // The child now hangs under the parent.
                    assert(e_new.parent == Some(parent));
                    assert(parent == pre.id_at(ps));
                    assert(self.children_at(ps).contains(self.id_at(cs))) by {
                        assert(k_new[0] == child);
                        assert(child == pre.id_at(cs));
                    }
                    assert(self.chain_at(cs) == self.chain_at(ps).push(cs));
                    assert(self.children_at(cs) == pre.children_at(cs));
                    assert forall|i: int|
                        0 <= i < self.children_at(s).len() implies #[trigger] self.child_link_ok(
                        s,
                        i,
                    ) by {
                        assert(pre.child_link_ok(cs, i));
                        let c = pre.children_at(cs)[i];
                        assert(c.slot as int != ps) by {
                            if c.slot as int == ps {
                                // The parent would lie inside the child's
                                // subtree, putting the child's slot at the
                                // head of the parent's chain.
                                assert(pre.entry_at(c.slot as int).parent == Some(pre.id_at(cs)));
                                assert(pre.chain_at(ps) == pre.chain_at(cs).push(ps));
                                assert(pre.chain_at(ps)[0] == cs);
                            }
                        }
                        assert(c.slot != cs) by {
                            if c.slot == cs {
                                assert(pre.entry_at(cs).parent == Some(pre.id_at(cs)));
                                assert(pre.entry_of(child).parent is None);
                            }
                        }
                        assert((old_first matches Some(f) ==> c.slot != f.slot)) by {
                            match old_first {
                                Some(f) => {
                                    if c.slot == f.slot {
                                        assert(pre.entry_at(c.slot as int).parent == Some(
                                            pre.id_at(cs),
                                        ));
                                        assert(pre.entry_at(f.slot as int).parent == Some(
                                            pre.id_at(ps),
                                        ));
                                    }
                                },
                                None => {},
                            }
                        }
                    }
                } else {
                    // Everywhere else the entry changed in at most the
                    // prev-sibling field of the former first child.
                    assert(e_new.first_child == e_pre.first_child);
                    assert(e_new.last_child == e_pre.last_child);
                    assert(e_new.parent == e_pre.parent);
                    assert(e_new.next_sibling == e_pre.next_sibling);
                    assert(self.children_at(s) == k_pre);
                    assert forall|i: int| 0 <= i < k_pre.len() implies #[trigger] self.child_link_ok(
                        s,
                        i,
                    ) by {
                        assert(pre.child_link_ok(s, i));
                        let c = k_pre[i];
                        assert(c.slot != cs) by {
                            if c.slot == cs {
                                assert(pre.entry_at(cs).parent == Some(pre.id_at(s)));
                                assert(pre.entry_of(child).parent is None);
                            }
                        }
                        if c.slot as int == ps {
                            // Only the endpoint caches of the parent changed.
                            assert(self.entry_at(c.slot as int).parent == pre.entry_at(
                                c.slot as int,
                            ).parent);
                            assert(self.entry_at(c.slot as int).prev_sibling == pre.entry_at(
                                c.slot as int,
                            ).prev_sibling);
                            assert(self.entry_at(c.slot as int).next_sibling == pre.entry_at(
                                c.slot as int,
                            ).next_sibling);
                        } else {
                            match old_first {
                                Some(f) => {
                                    if c.slot == f.slot {
                                        // The former first child of the parent
                                        // cannot sit in another child list, so
                                        // s would be the parent itself.
                                        let k0 = pre.children_at(ps);
                                        assert(pre.slot_ok(ps));
                                        assert(pre.child_link_ok(ps, 0));
                                        assert(k0[0] == f);
                                        assert(pre.entry_at(f.slot as int).parent == Some(
                                            pre.id_at(ps),
                                        ));
                                        assert(pre.entry_at(c.slot as int).parent == Some(
                                            pre.id_at(s),
                                        ));
                                        assert(pre.id_at(ps).slot == pre.id_at(s).slot);
                                        assert(pre.arena.slots.len() == pre.arena.slots@.len());
                                        assert(s <= usize::MAX && ps <= usize::MAX);
                                        assert(ps as usize as int == ps);
                                        assert(s as usize as int == s);
                                        assert(ps == s);
                                        assert(false);
                                    }
                                },
                                None => {},
                            }
                        }
                    }
                    match e_new.parent {
                        None => {
                            assert(self.chain_at(s) == pre.chain_at(s));
                        },
                        Some(q) => {
                            let qs = q.slot as int;
                            assert(self.children_at(qs).contains(self.id_at(s))) by {
                                assert(pre.children_at(qs).contains(pre.id_at(s)));
                                if qs == ps {
                                    let i = choose|i: int|
                                        0 <= i < pre.children_at(qs).len() && pre.children_at(
                                            qs,
                                        )[i] == pre.id_at(s);
                                    assert(k_new[i + 1] == pre.id_at(s));
                                }
                            }
                            // The slot and its parent sit on the same side of
                            // the rebased subtree.
                            if pre.subtree_slots(cs).contains(s) {
                                assert(pre.chain_at(s) == pre.chain_at(qs).push(s));
                                assert(pre.chain_at(s)[0] == cs);
                                assert(s != cs);
                                assert(pre.chain_at(s).len() >= 2) by {
                                    if pre.chain_at(s).len() < 2 {
                                        assert(pre.chain_at(s) =~= seq![cs]);
                                        pre.lemma_chain_facts(s);
                                        assert(pre.chain_at(s)[pre.chain_at(s).len() - 1] == s);
                                    }
                                }
                                assert(pre.chain_at(qs)[0] == cs);
                                assert(pre.subtree_slots(cs).contains(qs)) by {
                                    assert(pre.chain_at(cs).is_prefix_of(pre.chain_at(qs)));
                                }
                                assert(self.chain_at(s) == pchain + pre.chain_at(s));
                                assert(self.chain_at(qs) == pchain + pre.chain_at(qs));
                                assert(self.chain_at(s) =~= self.chain_at(qs).push(s));
                            } else {
                                assert(self.chain_at(s) == pre.chain_at(s));
                                assert(pre.chain_at(s) == pre.chain_at(qs).push(s));
                                assert(!pre.subtree_slots(cs).contains(qs)) by {
                                    if pre.subtree_slots(cs).contains(qs) {
                                        assert(pre.chain_at(qs)[0] == cs);
                                        assert(pre.chain_at(s)[0] == cs);
                                        pre.lemma_chain_facts(s);
                                        assert(pre.chain_at(cs).is_prefix_of(pre.chain_at(s)));
                                        assert(pre.subtree_slots(cs).contains(s));
                                    }
                                }
                                assert(self.chain_at(qs) == pre.chain_at(qs));
                            }
                        },
                    }
                }
            }
            assert(self.live(self.root) && self.entry_of(self.root).parent is None) by {
                if self.root.slot == child.slot {
                    assert(self.root == child);
                }
                assert(self.root.slot as int != cs);
                if self.root.slot as int == ps {
                } else {
                    match old_first {
                        Some(f) => {
                            if self.root.slot == f.slot {
                                assert(pre.entry_at(f.slot as int).parent == Some(pre.id_at(ps)));
                            }
                        },
                        None => {},
                    }
                }
            }
        }
    }

    /// Allocates `node` and links it as the new last child of `parent`.
    /// Fails with `InvalidParent`, changing nothing, when `parent` is stale.
    /// On success the fresh identifier addresses the new node, `parent`'s
    /// child sequence gains it at the end, and every other node keeps its
    /// payload, its children and its parent.
    pub fn append(&mut self, parent: DOMNodeId, node: DOMNode) -> (r: Result<DOMNodeId, DOMError>)
        requires
            old(self).wf(),
        ensures
            final(self).wf(),
            r is Ok <==> old(self).live(parent),
            r is Err ==> r == Err::<DOMNodeId, DOMError>(DOMError::InvalidParent) && *final(self)
                == *old(self),
            r is Ok ==> ({
                let c = r->Ok_0;
                &&& final(self).live(c)
                &&& !old(self).live(c)
                &&& !old(self).arena.issued_ids().contains(c)
                &&& final(self).arena.issued_ids() == old(self).arena.issued_ids().insert(c)
                &&& final(self).node_of(c) == node
                &&& final(self).parent_of(c) == Some(parent)
                &&& final(self).children(c) == Seq::<DOMNodeId>::empty()
                &&& final(self).children(parent) == old(self).children(parent).push(c)
                &&& final(self).root == old(self).root
                &&& forall|id: DOMNodeId|
                    id != c ==> (#[trigger] final(self).live(id) <==> old(self).live(id))
                &&& forall|id: DOMNodeId|
                    #[trigger] old(self).live(id)
                        ==> final(self).node_of(id) == old(self).node_of(id)
                &&& forall|id: DOMNodeId|
                    #[trigger] old(self).live(id) && id.slot != parent.slot
                        ==> final(self).children(id) == old(self).children(id)
                &&& forall|id: DOMNodeId|
                    #[trigger] old(self).live(id) && id != c ==> final(self).parent_of(id) == old(
                        self,
                    ).parent_of(id)
            }),
    {
        if self.arena.try_get(parent).is_none() {
            return Err(DOMError::InvalidParent);
        }
        let ghost pre = *self;
        let c = self.allocate(node);
        proof {
            let ps = parent.slot as int;
            assert(pre.live(parent));
            assert(self.live(parent));
            assert(pre.live_slot(ps));
            assert(self.live_slot(ps));
            pre.lemma_chain_facts(ps);
            assert(self.chain_at(ps) == pre.chain_at(ps));
            // The fresh slot cannot head the parent's chain: every chain
            // member was already live before the allocation.
            if self.chain_at(ps)[0] == c.slot as int {
                assert(pre.live_slot(pre.chain_at(ps)[0]));
                assert(!pre.live_slot(c.slot as int));
                assert(false);
            }
            if c == self.root {
                assert(pre.live(pre.root));
            }
            assert(self.entry_of(c).parent is None);
        }
        let ghost mid = *self;
        self.attach_last(parent, c);
        proof {
            assert(mid.children(parent) == pre.children(parent));
            assert(self.children(parent) == pre.children(parent).push(c));
            assert(self.node_of(c) == node);
            assert(c.slot != parent.slot);
            assert(self.children(c) == mid.children(c));
            assert forall|id: DOMNodeId|
                id != c implies (#[trigger] self.live(id) <==> pre.live(id)) by {
                assert(self.live(id) <==> mid.live(id));
            }
            assert forall|id: DOMNodeId|
                #[trigger] pre.live(id) implies self.node_of(id) == pre.node_of(id) by {
                assert(mid.live(id));
                assert(mid.node_of(id) == pre.node_of(id));
            }
            assert forall|id: DOMNodeId|
                #[trigger] pre.live(id) && id.slot != parent.slot implies self.children(id)
                == pre.children(id) by {
                assert(mid.live(id));
                assert(mid.children(id) == pre.children(id));
            }
            assert forall|id: DOMNodeId|
                #[trigger] pre.live(id) && id != c implies self.parent_of(id) == pre.parent_of(
                id,
            ) by {
                assert(mid.live(id));
                assert(mid.parent_of(id) == pre.parent_of(id));
            }
        }
        Ok(c)
    }

    /// Allocates `node` and links it as the new first child of `parent`.
    /// Fails with `InvalidParent`, changing nothing, when `parent` is stale.
    /// On success the fresh identifier addresses the new node, `parent`'s
    /// child sequence gains it at the front, and every other node keeps its
    /// payload, its children and its parent.
    pub fn prepend(&mut self, parent: DOMNodeId, node: DOMNode) -> (r: Result<DOMNodeId, DOMError>)
        requires
            old(self).wf(),
        ensures
            final(self).wf(),
            r is Ok <==> old(self).live(parent),
            r is Err ==> r == Err::<DOMNodeId, DOMError>(DOMError::InvalidParent) && *final(self)
                == *old(self),
            r is Ok ==> ({
                let c = r->Ok_0;
                &&& final(self).live(c)
                &&& !old(self).live(c)
                &&& !old(self).arena.issued_ids().contains(c)
                &&& final(self).arena.issued_ids() == old(self).arena.issued_ids().insert(c)
                &&& final(self).node_of(c) == node
                &&& final(self).parent_of(c) == Some(parent)
                &&& final(self).children(c) == Seq::<DOMNodeId>::empty()
                &&& final(self).children(parent) == seq![c] + old(self).children(parent)
                &&& final(self).root == old(self).root
                &&& forall|id: DOMNodeId|
                    id != c ==> (#[trigger] final(self).live(id) <==> old(self).live(id))
                &&& forall|id: DOMNodeId|
                    #[trigger] old(self).live(id)
                        ==> final(self).node_of(id) == old(self).node_of(id)
                &&& forall|id: DOMNodeId|
                    #[trigger] old(self).live(id) && id.slot != parent.slot
                        ==> final(self).children(id) == old(self).children(id)
                &&& forall|id: DOMNodeId|
                    #[trigger] old(self).live(id) && id != c ==> final(self).parent_of(id) == old(
                        self,
                    ).parent_of(id)
            }),
    {
        if self.arena.try_get(parent).is_none() {
            return Err(DOMError::InvalidParent);
        }
        let ghost pre = *self;
        let c = self.allocate(node);
        proof {
            let ps = parent.slot as int;
            assert(pre.live(parent));
            assert(self.live(parent));
            assert(pre.live_slot(ps));
            assert(self.live_slot(ps));
            pre.lemma_chain_facts(ps);
            assert(self.chain_at(ps) == pre.chain_at(ps));
            // The fresh slot cannot head the parent's chain: every chain
            // member was already live before the allocation.
            if self.chain_at(ps)[0] == c.slot as int {
                assert(pre.live_slot(pre.chain_at(ps)[0]));
                assert(!pre.live_slot(c.slot as int));
                assert(false);
            }
            if c == self.root {
                assert(pre.live(pre.root));
            }
            assert(self.entry_of(c).parent is None);
        }
        let ghost mid = *self;
        self.attach_first(parent, c);
        proof {
            assert(mid.children(parent) == pre.children(parent));
            assert(self.children(parent) == seq![c] + pre.children(parent));
            assert(self.node_of(c) == node);
            assert(c.slot != parent.slot);
            assert(self.children(c) == mid.children(c));
            assert forall|id: DOMNodeId|
                id != c implies (#[trigger] self.live(id) <==> pre.live(id)) by {
                assert(self.live(id) <==> mid.live(id));
            }
            assert forall|id: DOMNodeId|
                #[trigger] pre.live(id) implies self.node_of(id) == pre.node_of(id) by {
                assert(mid.live(id));
                assert(mid.node_of(id) == pre.node_of(id));
            }
            assert forall|id: DOMNodeId|
                #[trigger] pre.live(id) && id.slot != parent.slot implies self.children(id)
                == pre.children(id) by {
                assert(mid.live(id));
                assert(mid.children(id) == pre.children(id));
            }
            assert forall|id: DOMNodeId|
                #[trigger] pre.live(id) && id != c implies self.parent_of(id) == pre.parent_of(
                id,
            ) by {
                assert(mid.live(id));
                assert(mid.parent_of(id) == pre.parent_of(id));
            }
        }
        Ok(c)
    }

    /// Unlinks the node `id` and its whole subtree from its parent: the
    /// former neighbours are rewired to each other, the parent's endpoint
    /// caches are fixed up, and `id` becomes the parentless root of its own
    /// detached subtree, its inner structure untouched.  A node that already
    /// has no parent (the root included) is left as it is.  The node stays
    /// allocated and can be attached elsewhere later; only a stale
    /// identifier fails, with `NodeDeallocated`.
    #[verifier::rlimit(60)]
    pub fn detach(&mut self, id: DOMNodeId) -> (r: Result<(), DOMError>)
        requires
            old(self).wf(),
        ensures
            final(self).wf(),
            r is Ok <==> old(self).live(id),
            r is Err ==> r == Err::<(), DOMError>(DOMError::NodeDeallocated) && *final(self)
                == *old(self),
            r is Ok ==> ({
                &&& final(self).parent_of(id) is None
                &&& final(self).root == old(self).root
                &&& final(self).arena.issued_ids() == old(self).arena.issued_ids()
                &&& forall|id2: DOMNodeId|
                    #[trigger] final(self).live(id2) <==> old(self).live(id2)
                &&& forall|id2: DOMNodeId|
                    #[trigger] old(self).live(id2) ==> final(self).node_of(id2) == old(
                        self,
                    ).node_of(id2)
                &&& match old(self).parent_of(id) {
                    None => *final(self) == *old(self),
                    Some(p) => {
                        let i = old(self).child_index_of(p, id);
                        &&& 0 <= i < old(self).children(p).len()
                        &&& old(self).children(p)[i] == id
                        &&& final(self).children(p) == old(self).children(p).remove(i)
                        &&& forall|id2: DOMNodeId|
                            #[trigger] old(self).live(id2) && id2.slot != p.slot
                                ==> final(self).children(id2) == old(self).children(id2)
                        &&& forall|id2: DOMNodeId|
                            #[trigger] old(self).live(id2) && id2 != id
                                ==> final(self).parent_of(id2) == old(self).parent_of(id2)
                    },
                }
            }),
    {
        let entry = match self.arena.try_get(id) {
            Some(e) => e,
            None => {
                return Err(DOMError::NodeDeallocated);
            },
        };
        let parent_opt = entry.parent;
        let prev = entry.prev_sibling;
        let next = entry.next_sibling;
        let p = match parent_opt {
            None => {
                return Ok(());
            },
            Some(p) => p,
        };
        let ghost pre = *self;
        proof {
            let ds = id.slot as int;
            let ps = p.slot as int;
            assert(pre.live_slot(ds));
            assert(pre.slot_ok(ds));
            assert(pre.live(p));
            assert(pre.live_slot(ps));
            assert(pre.slot_ok(ps));
            assert(pre.children_at(ps).contains(pre.id_at(ds)));
            assert(pre.id_at(ds) == id);
            if ds == ps {
                assert(pre.chain_at(ds) == pre.chain_at(ds).push(ds));
                assert(pre.chain_at(ds).push(ds).len() == pre.chain_at(ds).len() + 1);
            }
            assert(ds != ps);
        }
        let ghost i_g: int = pre.child_index_of(p, id);
        proof {
            assert(0 <= i_g < pre.children(p).len() && pre.children(p)[i_g] == id);
            assert(pre.child_link_ok(p.slot as int, i_g));
            // The stored sibling links name the list neighbours.
            assert(prev == (if i_g == 0 {
                None
            } else {
                Some(pre.children(p)[i_g - 1])
            }));
            assert(next == (if i_g == pre.children(p).len() - 1 {
                None
            } else {
                Some(pre.children(p)[i_g + 1])
            }));
            // The neighbours are live and sit in other slots than `id`.
            let k = pre.children(p);
            match prev {
                Some(pv) => {
                    assert(pre.child_link_ok(p.slot as int, i_g - 1));
                    assert(pre.live(pv));
                    if pv.slot == id.slot {
                        assert(pv == id);
                        assert(k[i_g - 1] != k[i_g]);
                        assert(false);
                    }
                },
                None => {},
            }
            match next {
                Some(nx) => {
                    assert(pre.child_link_ok(p.slot as int, i_g + 1));
                    assert(pre.live(nx));
                    if nx.slot == id.slot {
                        assert(nx == id);
                        assert(k[i_g + 1] != k[i_g]);
                        assert(false);
                    }
                },
                None => {},
            }
        }
        // Clear the node's own outward links,
        let entry = match self.arena.try_get_mut(id) {
            Some(e) => e,
            None => unreached(),
        };
        entry.parent = None;
        entry.prev_sibling = None;
        entry.next_sibling = None;
        // bridge the gap between the former neighbours,
        match prev {
            Some(pv) => {
                let entry = match self.arena.try_get_mut(pv) {
                    Some(e) => e,
                    None => unreached(),
                };
                entry.next_sibling = next;
            },
            None => {
                let entry = match self.arena.try_get_mut(p) {
                    Some(e) => e,
                    None => unreached(),
                };
                entry.first_child = next;
            },
        }
        match next {
            Some(nx) => {
                let entry = match self.arena.try_get_mut(nx) {
                    Some(e) => e,
                    None => unreached(),
                };
                entry.prev_sibling = prev;
            },
            None => {
                let entry = match self.arena.try_get_mut(p) {
                    Some(e) => e,
                    None => unreached(),
                };
                entry.last_child = prev;
            },
        }
        proof {
            let ds = id.slot as int;
            let ps = p.slot as int;
            let k_pre0 = pre.children_at(ps);
            let n0 = k_pre0.len();
            let k_new = k_pre0.remove(i_g);
            let dchain = pre.chain_at(ds);
            let plen = pre.chain_at(ps).len() as int;
            self.kids@ = pre.kids@.insert(ps, k_new);
            self.chains@ = Map::new(
                |s: int| pre.chains@.contains_key(s),
                |s: int|
                    if dchain.is_prefix_of(pre.chains@[s]) {
                        pre.chains@[s].skip(plen)
                    } else {
                        pre.chains@[s]
                    },
            );
            pre.lemma_chain_facts(ps);
            assert(pre.chain_at(ds) == pre.chain_at(ps).push(ds));
            assert(dchain.len() == plen + 1);
            // Which of the touched slots are distinct: the detached node, its
            // parent and its two neighbours all sit in different slots.
            assert forall|a: int, b: int|
                0 <= a < n0 && 0 <= b < n0 && a != b implies k_pre0[a].slot != k_pre0[b].slot by {
                assert(pre.child_link_ok(ps, a));
                assert(pre.child_link_ok(ps, b));
                if k_pre0[a].slot == k_pre0[b].slot {
                    assert(pre.live(k_pre0[a]) && pre.live(k_pre0[b]));
                    assert(k_pre0[a] == k_pre0[b]);
                }
            }
            assert forall|a: int| 0 <= a < n0 implies k_pre0[a].slot as int != ps by {
                assert(pre.child_link_ok(ps, a));
                if k_pre0[a].slot as int == ps {
                    assert(pre.entry_at(ps).parent == Some(pre.id_at(ps)));
                    assert(pre.chain_at(ps) == pre.chain_at(ps).push(ps));
                }
            }
            // The parent and the neighbours lie outside the detached subtree.
            assert(!dchain.is_prefix_of(pre.chain_at(ps)));
            assert forall|a: int|
                0 <= a < n0 && a != i_g implies !dchain.is_prefix_of(
                    pre.chain_at(k_pre0[a].slot as int),
                ) by {
                assert(pre.child_link_ok(ps, a));
                let cc = k_pre0[a];
                assert(pre.live(cc));
                assert(pre.live_slot(cc.slot as int));
                assert(pre.slot_ok(cc.slot as int));
                assert(pre.arena.slots.len() == pre.arena.slots@.len());
                assert(pre.id_at(ps).slot as int == ps);
                assert(pre.chain_at(cc.slot as int) == pre.chain_at(ps).push(cc.slot as int));
                if dchain.is_prefix_of(pre.chain_at(cc.slot as int)) {
                    assert(pre.chain_at(cc.slot as int).len() == plen + 1);
                    assert(dchain =~= pre.chain_at(cc.slot as int).subrange(0, dchain.len() as int));
                    assert(pre.chain_at(cc.slot as int).subrange(0, plen + 1) =~= pre.chain_at(
                        cc.slot as int,
                    ));
                    assert(dchain[plen] == pre.chain_at(cc.slot as int)[plen]);
                    assert(dchain[plen] == ds);
                    assert(pre.chain_at(cc.slot as int)[plen] == cc.slot as int);
                    assert(cc.slot as int == ds);
                    assert(cc == pre.id_at(ds));
                }
            }
            // Chains after the rebasing.
            assert(self.chain_at(ds) =~= seq![ds]);
            assert forall|s: int|
                pre.live_slot(s) && !pre.subtree_slots(ds).contains(s) implies #[trigger] self.chain_at(
                s,
            ) == pre.chain_at(s) by {}
            assert forall|s: int|
                pre.live_slot(s) && pre.subtree_slots(ds).contains(s) implies #[trigger] self.chain_at(
                s,
            ) == pre.chain_at(s).skip(plen) by {}
            // Only known fields of known slots changed.
            assert forall|s: int|
                pre.live_slot(s) implies #[trigger] self.live_slot(s) && self.arena.slots@[s].generation
                == pre.arena.slots@[s].generation && self.entry_at(s).value == pre.entry_at(
                s,
            ).value by {}
            Arena::lemma_wf_value_change(pre.arena, self.arena);
            assert forall|s: int| self.live_slot(s) implies #[trigger] pre.live_slot(s) by {}
            assert forall|id2: DOMNodeId| #[trigger] self.live(id2) <==> pre.live(id2) by {}
            assert(self.children_at(ps) == k_new);
            assert forall|s: int|
                pre.live_slot(s) && s != ps implies #[trigger] self.children_at(s)
                == pre.children_at(s) by {}
            // Every live slot is structurally consistent again.
            assert forall|s: int| #[trigger] self.live_slot(s) implies self.slot_ok(s) by {
                assert(pre.live_slot(s));
                assert(pre.slot_ok(s));
                let e_pre = pre.entry_at(s);
                let e_new = self.entry_at(s);
                if s == ps {
                    assert(k_new.len() == n0 - 1);
                    assert forall|j: int| 0 <= j < k_new.len() implies k_new[j] == (if j < i_g {
                        k_pre0[j]
                    } else {
                        k_pre0[j + 1]
                    }) by {}
                    assert(e_new.first_child == (if k_new.len() == 0 {
                        None
                    } else {
                        Some(k_new[0])
                    })) by {
                        if i_g == 0 {
                            assert(e_new.first_child == next);
                        } else {
                            assert(e_new.first_child == e_pre.first_child);
                            assert(k_new[0] == k_pre0[0]);
                        }
                    }
                    assert(e_new.last_child == (if k_new.len() == 0 {
                        None
                    } else {
                        Some(k_new[k_new.len() - 1])
                    })) by {
                        if i_g == n0 - 1 {
                            assert(e_new.last_child == prev);
                        } else {
                            assert(e_new.last_child == e_pre.last_child);
                            assert(k_new[k_new.len() - 1] == k_pre0[n0 - 1]);
                        }
                    }
                    assert(k_new.no_duplicates()) by {
                        assert forall|a: int, b: int|
                            0 <= a < k_new.len() && 0 <= b < k_new.len() && a != b implies k_new[a]
                            != k_new[b] by {}
                    }
                    assert forall|j: int| 0 <= j < k_new.len() implies #[trigger] self.child_link_ok(
                        s,
                        j,
                    ) by {
                        let jj = if j < i_g { j } else { j + 1 };
                        assert(k_new[j] == k_pre0[jj]);
                        assert(pre.child_link_ok(ps, jj));
                        let cc = k_pre0[jj];
                        let ccs = cc.slot as int;
                        assert(ccs != ds && ccs != ps);
                        // prev link of this child
                        if jj == i_g + 1 {
                            assert(self.entry_at(ccs).prev_sibling == prev);
                            if j == 0 {
                                assert(i_g == 0);
                            } else {
                                assert(k_new[j - 1] == k_pre0[i_g - 1]);
                            }
                        } else {
                            // Only the removed node and its next neighbour
                            // had their prev link touched; cc is neither.
                            match next {
                                Some(nx) => {
                                    if ccs == nx.slot as int {
                                        assert(nx == k_pre0[i_g + 1]);
                                        assert(jj == i_g + 1);
                                    }
                                },
                                None => {},
                            }
                            assert(self.entry_at(ccs).prev_sibling == pre.entry_at(
                                ccs,
                            ).prev_sibling);
                            if j > 0 {
                                assert(k_new[j - 1] == k_pre0[jj - 1]);
                            }
                        }
                        // next link of this child
                        if jj == i_g - 1 {
                            assert(self.entry_at(ccs).next_sibling == next);
                            if j == k_new.len() - 1 {
                                assert(i_g == n0 - 1);
                            } else {
                                assert(k_new[j + 1] == k_pre0[i_g + 1]);
                            }
                        } else {
                            assert(self.entry_at(ccs).next_sibling == pre.entry_at(
                                ccs,
                            ).next_sibling);
                            if j < k_new.len() - 1 {
                                assert(k_new[j + 1] == k_pre0[jj + 1]);
                            } else {
                                assert(jj == n0 - 1);
                            }
                        }
                        assert(self.entry_at(ccs).parent == pre.entry_at(ccs).parent);
                        assert(self.id_at(ps) == pre.id_at(ps));
                    }
                    match e_new.parent {
                        None => {
                            assert(self.chain_at(s) == pre.chain_at(s));
                        },
                        Some(q) => {
                            let qs = q.slot as int;
                            assert(e_pre.parent == Some(q));
                            assert(pre.children_at(qs).contains(pre.id_at(ps)));
                            assert(qs != ps);
                            assert(self.children_at(qs) == pre.children_at(qs));
                            assert(self.chain_at(s) == pre.chain_at(s));
                            assert(self.chain_at(qs) == pre.chain_at(qs)) by {
                                if pre.subtree_slots(ds).contains(qs) {
                                    assert(dchain.is_prefix_of(pre.chain_at(qs)));
                                    assert(pre.chain_at(ps) == pre.chain_at(qs).push(ps));
                                    assert(dchain.len() <= pre.chain_at(qs).len());
                                    assert(pre.chain_at(ps).len() > plen);
                                }
                            }
                        },
                    }
                } else if s == ds {
                    assert(e_new.parent is None);
                    assert(e_new.prev_sibling is None);
                    assert(e_new.next_sibling is None);
                    assert(self.chain_at(ds) == seq![ds]);
                    assert(self.children_at(ds) == pre.children_at(ds));
                    assert(pre.subtree_slots(ds).contains(ds)) by {
                        assert(dchain.is_prefix_of(dchain));
                    }
                    assert forall|j: int|
                        0 <= j < self.children_at(s).len() implies #[trigger] self.child_link_ok(
                        s,
                        j,
                    ) by {
                        assert(pre.child_link_ok(ds, j));
                        let cc = pre.children_at(ds)[j];
                        let ccs = cc.slot as int;
                        assert(pre.live_slot(ccs));
                        assert(pre.slot_ok(ccs));
                        assert(pre.chain_at(ccs) == pre.chain_at(ds).push(ccs));
                        assert(ccs != ds) by {
                            if ccs == ds {
                                assert(pre.chain_at(ds) == pre.chain_at(ds).push(ds));
                            }
                        }
                        assert(ccs != ps) by {
                            if ccs == ps {
                                assert(pre.entry_at(ps).parent == Some(pre.id_at(ds)));
                                assert(pre.chain_at(ps) == pre.chain_at(ds).push(ps));
                            }
                        }
                        // cc belongs to the detached node's own child list;
                        // the removed node's list neighbours belong to the
                        // parent's list, so cc is in neither position.
                        match prev {
                            Some(pv) => {
                                if ccs == pv.slot as int {
                                    assert(pre.entry_at(pv.slot as int).parent == Some(
                                        pre.id_at(ps),
                                    ));
                                    assert(pre.entry_at(ccs).parent == Some(pre.id_at(ds)));
                                    assert(pre.id_at(ps) == pre.id_at(ds));
                                    assert(ps as usize as int == ps && ds as usize as int == ds);
                                    assert(false);
                                }
                            },
                            None => {},
                        }
                        match next {
                            Some(nx) => {
                                if ccs == nx.slot as int {
                                    assert(pre.entry_at(nx.slot as int).parent == Some(
                                        pre.id_at(ps),
                                    ));
                                    assert(pre.entry_at(ccs).parent == Some(pre.id_at(ds)));
                                    assert(pre.id_at(ps) == pre.id_at(ds));
                                    assert(ps as usize as int == ps && ds as usize as int == ds);
                                    assert(false);
                                }
                            },
                            None => {},
                        }
                        assert(self.entry_at(ccs).parent == pre.entry_at(ccs).parent);
                        assert(self.entry_at(ccs).prev_sibling == pre.entry_at(ccs).prev_sibling);
                        assert(self.entry_at(ccs).next_sibling == pre.entry_at(ccs).next_sibling);
                        assert(self.id_at(ds) == pre.id_at(ds));
                        // cc sits inside the detached subtree, so its chain
                        // got rebased in step with ds's.
                        assert(pre.subtree_slots(ds).contains(ccs)) by {
                            assert(dchain.is_prefix_of(pre.chain_at(ccs)));
                        }
                        assert(self.chain_at(ccs) == pre.chain_at(ccs).skip(plen));
                        assert(self.chain_at(ccs) =~= self.chain_at(ds).push(ccs));
                    }
                } else {
                    // Unrelated slots: entries changed at most in one sibling
                    // link of a neighbour of the removed node.
                    assert(self.children_at(s) == pre.children_at(s));
                    assert(e_new.parent == e_pre.parent);
                    assert(e_new.first_child == e_pre.first_child);
                    assert(e_new.last_child == e_pre.last_child);
                    assert forall|j: int|
                        0 <= j < self.children_at(s).len() implies #[trigger] self.child_link_ok(
                        s,
                        j,
                    ) by {
                        assert(pre.child_link_ok(s, j));
                        let cc = pre.children_at(s)[j];
                        let ccs = cc.slot as int;
                        assert(pre.entry_at(ccs).parent == Some(pre.id_at(s)));
                        assert(ccs != ds) by {
                            if ccs == ds {
                                assert(pre.entry_at(ds).parent == Some(pre.id_at(ps)));
                                assert(pre.id_at(s) == pre.id_at(ps));
                                assert(pre.arena.slots.len() == pre.arena.slots@.len());
                                assert(s as usize as int == s && ps as usize as int == ps);
                                assert(s == ps);
                            }
                        }
                        // cc hangs under s, not under the removed node's
                        // parent, so it is neither of the rewired neighbours.
                        match prev {
                            Some(pv) => {
                                if ccs == pv.slot as int {
                                    assert(pre.entry_at(pv.slot as int).parent == Some(
                                        pre.id_at(ps),
                                    ));
                                    assert(pre.id_at(s) == pre.id_at(ps));
                                    assert(pre.arena.slots.len() == pre.arena.slots@.len());
                                    assert(s as usize as int == s && ps as usize as int == ps);
                                    assert(false);
                                }
                            },
                            None => {},
                        }
                        match next {
                            Some(nx) => {
                                if ccs == nx.slot as int {
                                    assert(pre.entry_at(nx.slot as int).parent == Some(
                                        pre.id_at(ps),
                                    ));
                                    assert(pre.id_at(s) == pre.id_at(ps));
                                    assert(pre.arena.slots.len() == pre.arena.slots@.len());
                                    assert(s as usize as int == s && ps as usize as int == ps);
                                    assert(false);
                                }
                            },
                            None => {},
                        }
                        assert(self.entry_at(ccs).parent == pre.entry_at(ccs).parent);
                        assert(self.entry_at(ccs).prev_sibling == pre.entry_at(ccs).prev_sibling);
                        assert(self.entry_at(ccs).next_sibling == pre.entry_at(ccs).next_sibling);
                        assert(self.id_at(s) == pre.id_at(s));
                    }
                    match e_new.parent {
                        None => {
                            assert(self.chain_at(s) == pre.chain_at(s)) by {
                                if pre.subtree_slots(ds).contains(s) {
                                    assert(dchain.is_prefix_of(pre.chain_at(s)));
                                    assert(pre.chain_at(s) == seq![s]);
                                    assert(dchain.len() >= 2);
                                }
                            }
                        },
                        Some(q) => {
                            let qs = q.slot as int;
                            assert(pre.children_at(qs).contains(pre.id_at(s)));
                            assert(self.children_at(qs).contains(self.id_at(s))) by {
                                assert(self.id_at(s) == pre.id_at(s));
                                if qs == ps {
                                    let a = choose|a: int|
                                        0 <= a < k_pre0.len() && k_pre0[a] == pre.id_at(s);
                                    assert(a != i_g) by {
                                        if a == i_g {
                                            assert(pre.id_at(s) == id);
                                            assert(pre.arena.slots.len()
                                                == pre.arena.slots@.len());
                                            assert(s as usize as int == s && ds as usize as int
                                                == ds);
                                            assert(s == ds);
                                        }
                                    }
                                    if a < i_g {
                                        assert(k_new[a] == k_pre0[a]);
                                    } else {
                                        assert(k_new[a - 1] == k_pre0[a]);
                                    }
                                } else {
                                    assert(self.children_at(qs) == pre.children_at(qs));
                                }
                            }
                            if pre.subtree_slots(ds).contains(s) {
                                assert(pre.chain_at(s) == pre.chain_at(qs).push(s));
                                assert(dchain.is_prefix_of(pre.chain_at(s)));
                                assert(s != ds);
                                assert(pre.chain_at(s).len() > dchain.len()) by {
                                    pre.lemma_chain_facts(s);
                                    if pre.chain_at(s).len() <= dchain.len() {
                                        assert(pre.chain_at(s) =~= dchain);
                                        assert(pre.chain_at(s)[pre.chain_at(s).len() - 1] == s);
                                        assert(dchain[dchain.len() - 1] == ds);
                                    }
                                }
                                assert(pre.subtree_slots(ds).contains(qs)) by {
                                    assert forall|x: int|
                                        0 <= x < dchain.len() implies dchain[x] == pre.chain_at(
                                        qs,
                                    )[x] by {
                                        assert(dchain[x] == pre.chain_at(s)[x]);
                                    }
                                    assert(dchain.is_prefix_of(pre.chain_at(qs)));
                                }
                                assert(self.chain_at(s) == pre.chain_at(s).skip(plen));
                                assert(self.chain_at(qs) == pre.chain_at(qs).skip(plen));
                                assert(self.chain_at(s) =~= self.chain_at(qs).push(s));
                            } else {
                                assert(self.chain_at(s) == pre.chain_at(s));
                                assert(!pre.subtree_slots(ds).contains(qs)) by {
                                    if pre.subtree_slots(ds).contains(qs) {
                                        assert(dchain.is_prefix_of(pre.chain_at(qs)));
                                        assert(pre.chain_at(s) == pre.chain_at(qs).push(s));
                                        assert forall|x: int|
                                            0 <= x < dchain.len() implies dchain[x]
                                            == pre.chain_at(s)[x] by {
                                            assert(dchain[x] == pre.chain_at(qs)[x]);
                                        }
                                        assert(dchain.is_prefix_of(pre.chain_at(s)));
                                        assert(pre.subtree_slots(ds).contains(s));
                                    }
                                }
                                assert(self.chain_at(qs) == pre.chain_at(qs));
                            }
                        },
                    }
                }
            }
            assert(self.live(self.root) && self.entry_of(self.root).parent is None) by {
                assert(pre.live(pre.root));
                if self.root.slot as int == ds {
                    assert(pre.entry_of(pre.root).parent is None);
                    assert(pre.entry_at(ds).parent == Some(pre.id_at(ps)));
                    assert(pre.root == pre.id_at(ds));
                }
                if self.root.slot as int != ps {
                    match prev {
                        Some(pv) => {
                            if self.root.slot == pv.slot {
                                assert(pre.entry_at(pv.slot as int).parent == Some(pre.id_at(ps)));
                                assert(pre.root == pre.id_at(pv.slot as int));
                            }
                        },
                        None => {},
                    }
                    match next {
                        Some(nx) => {
                            if self.root.slot == nx.slot {
                                assert(pre.entry_at(nx.slot as int).parent == Some(pre.id_at(ps)));
                                assert(pre.root == pre.id_at(nx.slot as int));
                            }
                        },
                        None => {},
                    }
                }
            }
            assert(self.children(id) == pre.children(id));
            assert forall|id2: DOMNodeId|
                #[trigger] pre.live(id2) && id2.slot != p.slot implies self.children(id2)
                == pre.children(id2) by {}
            assert forall|id2: DOMNodeId|
                #[trigger] pre.live(id2) && id2 != id implies self.parent_of(id2) == pre.parent_of(
                id2,
            ) by {
                assert(id2.slot as int != ds);
            }
        }
        Ok(())
    }

    /// Re-attaches the already-allocated node `child` - typically one
    /// previously detached - as the new last child of `parent`, with its
    /// whole subtree intact.  `child` must currently be the parentless root
    /// of its own subtree, must not be the tree root, and must not contain
    /// `parent` in its subtree (that attachment would close a cycle); these
    /// misuses fail with `InvalidParent`, a stale `child` with
    /// `NodeDeallocated`, and a failure changes nothing.
    pub fn append_existing(&mut self, parent: DOMNodeId, child: DOMNodeId) -> (r: Result<
        (),
        DOMError,
    >)
        requires
            old(self).wf(),
        ensures
            final(self).wf(),
            r is Err ==> *final(self) == *old(self),
            !old(self).live(parent) ==> r == Err::<(), DOMError>(DOMError::InvalidParent),
            old(self).live(parent) && !old(self).live(child) ==> r == Err::<(), DOMError>(
                DOMError::NodeDeallocated,
            ),
            r is Ok <==> (old(self).live(parent) && old(self).live(child) && old(self).parent_of(
                child,
            ) is None && child != old(self).root && old(self).chain_at(parent.slot as int)[0]
                != child.slot as int),
            r is Ok ==> ({
                &&& final(self).children(parent) == old(self).children(parent).push(child)
                &&& final(self).parent_of(child) == Some(parent)
                &&& final(self).root == old(self).root
                &&& final(self).arena.issued_ids() == old(self).arena.issued_ids()
                &&& forall|id: DOMNodeId|
                    #[trigger] final(self).live(id) <==> old(self).live(id)
                &&& forall|id: DOMNodeId|
                    #[trigger] old(self).live(id)
                        ==> final(self).node_of(id) == old(self).node_of(id)
                &&& forall|id: DOMNodeId|
                    #[trigger] old(self).live(id) && id.slot != parent.slot
                        ==> final(self).children(id) == old(self).children(id)
                &&& forall|id: DOMNodeId|
                    #[trigger] old(self).live(id) && id != child
                        ==> final(self).parent_of(id) == old(self).parent_of(id)
            }),
    {
        if self.arena.try_get(parent).is_none() {
            return Err(DOMError::InvalidParent);
        }
        let child_entry = match self.arena.try_get(child) {
            Some(e) => e,
            None => {
                return Err(DOMError::NodeDeallocated);
            },
        };
        if child_entry.parent.is_some() {
            return Err(DOMError::InvalidParent);
        }
        if child.slot == self.root.slot && child.generation == self.root.generation {
            return Err(DOMError::InvalidParent);
        }
        proof {
            assert(child == old(self).root ==> false);
        }
        // Walk up from the parent to the root of its subtree; attaching is a
        // cycle exactly when that root is the child itself.
        let ghost root0: int = self.chain_at(parent.slot as int)[0];
        proof {
            assert(self.live_slot(parent.slot as int));
            self.lemma_chain_facts(parent.slot as int);
        }
        let mut cur: DOMNodeId = parent;
        loop
            invariant_except_break
                self.wf(),
                self.live(cur),
                self.chain_at(cur.slot as int)[0] == root0,
                *self == *old(self),
            ensures
                self.wf(),
                self.live(cur),
                self.parent_of(cur) is None,
                cur.slot as int == root0,
                *self == *old(self),
            decreases self.chain_at(cur.slot as int).len(),
        {
            let entry = match self.arena.try_get(cur) {
                Some(e) => e,
                None => unreached(),
            };
            match entry.parent {
                Some(q) => {
                    proof {
                        assert(self.live_slot(cur.slot as int));
                        assert(self.slot_ok(cur.slot as int));
                        assert(self.live(q));
                        assert(self.live_slot(q.slot as int));
                        assert(self.slot_ok(q.slot as int));
                        assert(self.chain_at(cur.slot as int) == self.chain_at(
                            q.slot as int,
                        ).push(cur.slot as int));
                        assert(self.chain_at(q.slot as int).len() >= 1);
                        assert(self.chain_at(q.slot as int)[0] == self.chain_at(
                            cur.slot as int,
                        )[0]);
                    }
                    cur = q;
                },
                None => {
                    proof {
                        assert(self.live_slot(cur.slot as int));
                        assert(self.slot_ok(cur.slot as int));
                        assert(self.chain_at(cur.slot as int) == seq![cur.slot as int]);
                    }
                    break ;
                },
            }
        }
        if cur.slot == child.slot {
            proof {
                assert(self.live(cur) && self.live(child));
                assert(cur == child);
            }
            return Err(DOMError::InvalidParent);
        }
        proof {
            assert(self.chain_at(parent.slot as int)[0] != child.slot as int) by {
                assert(root0 == cur.slot as int);
            }
        }
        self.attach_last(parent, child);
        Ok(())
    }

    /// The two trees differ at most in stored payloads: same root, same
    /// ghost maps, same generations, occupancy and links everywhere.
    pub open spec fn payload_shape_eq(pre: DOMTree, post: DOMTree) -> bool {
        &&& post.root == pre.root
        &&& post.kids == pre.kids
        &&& post.chains == pre.chains
        &&& post.arena.free@ == pre.arena.free@
        &&& post.arena.issued@ == pre.arena.issued@
        &&& post.arena.slots@.len() == pre.arena.slots@.len()
        &&& forall|s: int|
            0 <= s < pre.arena.slots@.len() ==> (#[trigger] post.arena.slots@[s]).generation
                == pre.arena.slots@[s].generation && (post.arena.slots@[s].value is Some
                <==> pre.arena.slots@[s].value is Some) && (pre.arena.slots@[s].value is Some
                ==> post.entry_at(s).parent == pre.entry_at(s).parent && post.entry_at(
                s,
            ).prev_sibling == pre.entry_at(s).prev_sibling && post.entry_at(s).next_sibling
                == pre.entry_at(s).next_sibling && post.entry_at(s).first_child == pre.entry_at(
                s,
            ).first_child && post.entry_at(s).last_child == pre.entry_at(s).last_child)
    }

    /// A change that touches only payloads - every link, generation, ghost
    /// map and the root untouched - preserves the tree invariant.
    pub broadcast proof fn lemma_wf_payload_change(pre: DOMTree, post: DOMTree)
        ensures
            #[trigger] DOMTree::payload_shape_eq(pre, post) && pre.wf() ==> post.wf(),
    {
        if DOMTree::payload_shape_eq(pre, post) && pre.wf() {
            Arena::lemma_wf_value_change(pre.arena, post.arena);
            assert forall|s: int| #[trigger] post.live_slot(s) implies post.slot_ok(s) by {
                assert(pre.live_slot(s));
                assert(pre.slot_ok(s));
                assert(post.children_at(s) == pre.children_at(s));
                assert(post.chain_at(s) == pre.chain_at(s));
                assert(post.id_at(s) == pre.id_at(s));
                assert forall|i: int|
                    0 <= i < post.children_at(s).len() implies #[trigger] post.child_link_ok(
                    s,
                    i,
                ) by {
                    assert(pre.child_link_ok(s, i));
                    let c = pre.children_at(s)[i];
                    assert(pre.live_slot(c.slot as int));
                    assert(post.chain_at(c.slot as int) == pre.chain_at(c.slot as int));
                }
                match post.entry_at(s).parent {
                    None => {},
                    Some(p) => {
                        assert(pre.live(p));
                        assert(post.children_at(p.slot as int) == pre.children_at(p.slot as int));
                        assert(post.chain_at(p.slot as int) == pre.chain_at(p.slot as int));
                    },
                }
            }
            assert(post.live(post.root));
        }
    }

    /// Mutable access to the payload of a live node.  Only the payload can
    /// change through the returned reference; the tree keeps its shape and
    /// stays well-formed whatever the caller writes.
    pub fn get_mut(&mut self, id: DOMNodeId) -> (r: Result<&mut DOMNode, DOMError>)
        requires
            old(self).wf(),
        ensures
            r is Ok <==> old(self).live(id),
            r is Err ==> r == Err::<&mut DOMNode, DOMError>(DOMError::NodeDeallocated)
                && *final(self) == *old(self),
            r is Ok ==> {
                &&& *r->Ok_0 == old(self).node_of(id)
                &&& final(self).arena.slots@ == old(self).arena.slots@.update(
                    id.slot as int,
                    (Slot {
                        generation: id.generation,
                        value: Some(
                            (NodeEntry { value: *final(r->Ok_0), ..old(self).entry_of(id) }),
                        ),
                    }),
                )
                &&& final(self).arena.free@ == old(self).arena.free@
                &&& final(self).arena.issued@ == old(self).arena.issued@
                &&& final(self).kids == old(self).kids
                &&& final(self).chains == old(self).chains
                &&& final(self).root == old(self).root
                &&& DOMTree::payload_shape_eq(*old(self), *final(self))
                &&& final(self).wf()
            },
    {
        broadcast use DOMTree::lemma_wf_payload_change;

        match self.arena.try_get_mut(id) {
            Some(entry) => Ok(&mut entry.value),
            None => Err(DOMError::NodeDeallocated),
        }
    }

    /// Checked simultaneous mutable access to the payloads of two distinct
    /// live nodes, the sanctioned way to rewrite two nodes against each
    /// other.  Asking for the same node twice fails with `SameNodeAlias`;
    /// a stale identifier fails with `NodeDeallocated`.  As with `get_mut`,
    /// only the two payloads can change.
    pub fn get_mut_pair(&mut self, ids: (DOMNodeId, DOMNodeId)) -> (r: Result<
        (&mut DOMNode, &mut DOMNode),
        DOMError,
    >)
        requires
            old(self).wf(),
        ensures
            r is Ok <==> ids.0 != ids.1 && old(self).live(ids.0) && old(self).live(ids.1),
            ids.0 == ids.1 ==> r == Err::<(&mut DOMNode, &mut DOMNode), DOMError>(
                DOMError::SameNodeAlias,
            ),
            ids.0 != ids.1 && !(old(self).live(ids.0) && old(self).live(ids.1)) ==> r == Err::<
                (&mut DOMNode, &mut DOMNode),
                DOMError,
            >(DOMError::NodeDeallocated),
            r is Err ==> *final(self) == *old(self),
            r is Ok ==> ({
                let (a, b) = r->Ok_0;
                &&& *a == old(self).node_of(ids.0)
                &&& *b == old(self).node_of(ids.1)
                &&& final(self).arena.slots@ == old(self).arena.slots@.update(
                    ids.0.slot as int,
                    (Slot {
                        generation: ids.0.generation,
                        value: Some(
                            (NodeEntry { value: *final(a), ..old(self).entry_of(ids.0) }),
                        ),
                    }),
                ).update(
                    ids.1.slot as int,
                    (Slot {
                        generation: ids.1.generation,
                        value: Some(
                            (NodeEntry { value: *final(b), ..old(self).entry_of(ids.1) }),
                        ),
                    }),
                )
                &&& final(self).arena.free@ == old(self).arena.free@
                &&& final(self).arena.issued@ == old(self).arena.issued@
                &&& final(self).kids == old(self).kids
                &&& final(self).chains == old(self).chains
                &&& final(self).root == old(self).root
                &&& DOMTree::payload_shape_eq(*old(self), *final(self))
                &&& final(self).wf()
            }),
    {
        broadcast use DOMTree::lemma_wf_payload_change;

        match self.arena.get_pair(ids) {
            Ok((entry_a, entry_b)) => Ok((&mut entry_a.value, &mut entry_b.value)),
            Err(e) => Err(e),
        }
    }

    /// A checked read view of a live node.
    pub fn get(&self, id: DOMNodeId) -> (r: Result<crate::node_ref::DOMArenaRef<'_>, DOMError>)
        requires
            self.wf(),
        ensures
            r is Ok <==> self.live(id),
            r is Err ==> (r matches Err(e) && e == DOMError::NodeDeallocated),
            r is Ok ==> r->Ok_0.tree == self && r->Ok_0.id == id && r->Ok_0.wf(),
    {
        if self.arena.try_get(id).is_some() {
            Ok(crate::node_ref::DOMArenaRef { tree: self, id })
        } else {
            Err(DOMError::NodeDeallocated)
        }
    }

    /// A read view of the root, which is always live.
    pub fn root(&self) -> (r: crate::node_ref::DOMArenaRef<'_>)
        requires
            self.wf(),
        ensures
            r.tree == self,
            r.id == self.root,
            r.wf(),
    {
        crate::node_ref::DOMArenaRef { tree: self, id: self.root }
    }

    /// The document node: the root's first child, where one exists.
    pub fn document(&self) -> (r: Result<crate::node_ref::DOMArenaRef<'_>, DOMError>)
        requires
            self.wf(),
        ensures
            r is Ok <==> self.children(self.root).len() > 0,
            r is Err ==> (r matches Err(e) && e == DOMError::NodeDeallocated),
            r is Ok ==> r->Ok_0.tree == self && r->Ok_0.id == self.children(self.root)[0]
                && r->Ok_0.wf(),
    {
        let root_ref = self.root();
        match root_ref.first_child_id() {
            Some(c) => {
                proof {
                    assert(self.live_slot(self.root.slot as int));
                    assert(self.slot_ok(self.root.slot as int));
                    assert(self.child_link_ok(self.root.slot as int, 0));
                }
                Ok(crate::node_ref::DOMArenaRef { tree: self, id: c })
            },
            None => Err(DOMError::NodeDeallocated),
        }
    }

    /// Moves the payload of `src` out of `other` (a void node is left in its
    /// place) and appends it as a fresh last child of `dst_parent` in this
    /// tree, then does the same for `src`'s subtree below the copy.  `other`
    /// keeps its shape; this tree gains exactly one child under `dst_parent`
    /// whose payload is `src`'s and which has as many children as `src`.
    fn copy_subtree(&mut self, other: &mut DOMTree, src: DOMNodeId, dst_parent: DOMNodeId)
        requires
            old(self).wf(),
            old(other).wf(),
            old(other).live(src),
            old(self).live(dst_parent),
        ensures
            final(self).wf(),
            final(other).wf(),
            DOMTree::payload_shape_eq(*old(other), *final(other)),
            forall|id: DOMNodeId|
                #[trigger] old(other).live(id) && !old(other).subtree_slots(
                    src.slot as int,
                ).contains(id.slot as int) ==> final(other).node_of(id) == old(other).node_of(id),
            final(self).root == old(self).root,
            forall|id: DOMNodeId|
                #[trigger] old(self).live(id) ==> final(self).live(id),
            final(self).live(dst_parent),
            final(self).children(dst_parent).len() == old(self).children(dst_parent).len() + 1,
            forall|j: int|
                0 <= j < old(self).children(dst_parent).len() ==> #[trigger] final(self).children(
                    dst_parent,
                )[j] == old(self).children(dst_parent)[j],
            ({
                let c = final(self).children(dst_parent)[final(self).children(
                    dst_parent,
                ).len() - 1];
                &&& final(self).live(c)
                &&& !old(self).live(c)
                &&& final(self).node_of(c) == old(other).node_of(src)
                &&& final(self).parent_of(c) == Some(dst_parent)
                &&& final(self).children(c).len() == old(other).children(src).len()
                &&& iso_subtree(*final(self), c, *old(other), src)
            }),
            forall|id: DOMNodeId|
                #[trigger] old(self).live(id) && id.slot != dst_parent.slot ==> final(self).children(id) == old(self).children(id),
            forall|id: DOMNodeId|
                #[trigger] old(self).live(id) ==> final(self).node_of(id) == old(self).node_of(id)
                    && final(self).parent_of(id) == old(self).parent_of(id),
        decreases old(other).subtree_slots(src.slot as int).len(),
    {
        let ghost pre_self = *self;
        let ghost pre_other = *other;
        let ghost ss = src.slot as int;
        proof {
            assert(pre_other.live_slot(ss));
            pre_other.lemma_subtree_finite(ss);
            assert(pre_other.subtree_slots(ss).contains(ss)) by {
                assert(pre_other.chain_at(ss).is_prefix_of(pre_other.chain_at(ss)));
            }
        }
        // Move the payload out, leaving a void node behind.
        let mut payload = DOMNode::new(crate::node::DOMData::Void);
        match other.get_mut(src) {
            Ok(node) => {
                core::mem::swap(node, &mut payload);
            },
            Err(_) => unreached(),
        }
        let copy = match self.append(dst_parent, payload) {
            Ok(c) => c,
            Err(_) => unreached(),
        };
        let ghost mid_self = *self;
        proof {
            if copy.slot == dst_parent.slot {
                assert(mid_self.live(copy) && mid_self.live(dst_parent));
                assert(copy == dst_parent);
                assert(pre_self.live(dst_parent));
                assert(false);
            }
            assert(pre_other.subtree_slots(ss).contains(ss)) by {
                assert(pre_other.chain_at(ss).is_prefix_of(pre_other.chain_at(ss)));
            }
            assert forall|s: int|
                #[trigger] pre_other.live_slot(s) && !pre_other.subtree_slots(ss).contains(
                    s,
                ) implies other.entry_at(s).value == pre_other.entry_at(s).value by {
                assert(s != ss);
            }
        }
        let kids_vec = match other.children_ids(src) {
            Ok(v) => v,
            Err(_) => unreached(),
        };
        proof {
            assert(other.children(src) == pre_other.children(src));
        }
        let ghost k = pre_other.children(src);
        let n = kids_vec.len();
        let mut i: usize = 0;
        while i < n
            invariant
                pre_other.wf(),
                pre_other == *old(other),
                pre_other.live(src),
                ss == src.slot as int,
                k == pre_other.children(src),
                kids_vec@ == k,
                n == k.len(),
                0 <= i <= n,
                self.wf(),
                other.wf(),
                DOMTree::payload_shape_eq(pre_other, *other),
                self.live(copy),
                self.live(dst_parent),
                self.root == mid_self.root,
                copy.slot != dst_parent.slot,
                self.children(dst_parent) == mid_self.children(dst_parent),
                self.node_of(copy) == mid_self.node_of(copy),
                self.parent_of(copy) == Some(dst_parent),
                self.children(copy).len() == i,
                forall|j: int|
                    0 <= j < i ==> iso_subtree(
                        *self,
                        self.children(copy)[j],
                        pre_other,
                        #[trigger] k[j],
                    ),
                forall|s: int|
                    #[trigger] pre_other.live_slot(s) && !pre_other.subtree_slots(ss).contains(s)
                        ==> other.entry_at(s).value == pre_other.entry_at(s).value,
                forall|s: int|
                    #[trigger] pre_other.live_slot(s) && s != ss && (forall|j2: int|
                        0 <= j2 < i ==> !(#[trigger] pre_other.subtree_slots(
                            k[j2].slot as int,
                        ).contains(s))) ==> other.entry_at(s).value == pre_other.entry_at(s).value,
                forall|id: DOMNodeId| #[trigger] mid_self.live(id) ==> self.live(id),
                forall|id: DOMNodeId|
                    #[trigger] mid_self.live(id) && id.slot != copy.slot ==> self.children(id)
                        == mid_self.children(id),
                forall|id: DOMNodeId|
                    #[trigger] mid_self.live(id) ==> self.node_of(id) == mid_self.node_of(id)
                        && self.parent_of(id) == mid_self.parent_of(id),
            decreases n - i,
        {
            let child = kids_vec[i];
            let ghost cs = child.slot as int;
            proof {
                assert(pre_other.live_slot(ss));
                assert(pre_other.slot_ok(ss));
                assert(pre_other.child_link_ok(ss, i as int));
                assert(pre_other.live(child));
                assert(other.live(child));
                assert(pre_other.entry_at(cs).parent == Some(pre_other.id_at(ss)));
                pre_other.lemma_subtree_step(ss, cs);
                assert forall|s: int| true implies #[trigger] other.subtree_slots(cs).contains(s)
                    == pre_other.subtree_slots(cs).contains(s) by {
                    assert(other.live_slot(s) == pre_other.live_slot(s));
                    assert(other.chains@ == pre_other.chains@);
                }
                assert(other.subtree_slots(cs) =~= pre_other.subtree_slots(cs));
                assert(other.subtree_slots(cs).len() == pre_other.subtree_slots(cs).len());
                assert(other.subtree_slots(cs).len() < pre_other.subtree_slots(ss).len());
            }
            let ghost before = *self;
            let ghost before_other = *other;
            self.copy_subtree(other, child, copy);
            proof {
                assert(DOMTree::payload_shape_eq(pre_other, *other)) by {
                    assert(other.arena.slots@.len() == pre_other.arena.slots@.len());
                    assert forall|s: int|
                        0 <= s < pre_other.arena.slots@.len() implies (
                        #[trigger] other.arena.slots@[s]).generation
                            == pre_other.arena.slots@[s].generation
                            && (other.arena.slots@[s].value is Some
                            <==> pre_other.arena.slots@[s].value is Some) && (
                        pre_other.arena.slots@[s].value is Some ==> other.entry_at(s).parent
                            == pre_other.entry_at(s).parent && other.entry_at(s).prev_sibling
                            == pre_other.entry_at(s).prev_sibling && other.entry_at(s).next_sibling
                            == pre_other.entry_at(s).next_sibling && other.entry_at(s).first_child
                            == pre_other.entry_at(s).first_child && other.entry_at(s).last_child
                            == pre_other.entry_at(s).last_child) by {
                        assert(before_other.arena.slots@[s].generation == pre_other.arena.slots@[
                            s].generation);
                    }
                }
                assert forall|s: int|
                    #[trigger] pre_other.live_slot(s) && !pre_other.subtree_slots(ss).contains(
                        s,
                    ) implies other.entry_at(s).value == pre_other.entry_at(s).value by {
                    assert(before_other.entry_at(s).value == pre_other.entry_at(s).value);
                    assert(!pre_other.subtree_slots(cs).contains(s));
                    assert(!before_other.subtree_slots(cs).contains(s));
                    assert(before_other.live_slot(s));
                    assert(before_other.arena.slots.len() == before_other.arena.slots@.len());
                    assert(before_other.id_at(s).slot as int == s);
                    assert(before_other.live(before_other.id_at(s)));
                    assert(!before_other.subtree_slots(cs).contains(
                        before_other.id_at(s).slot as int,
                    ));
                    assert(other.node_of(before_other.id_at(s)) == before_other.node_of(
                        before_other.id_at(s),
                    ));
                    assert(other.entry_at(s).value == before_other.entry_at(s).value);
                }
                assert forall|id: DOMNodeId| #[trigger] mid_self.live(id) implies self.live(
                    id,
                ) by {
                    assert(before.live(id));
                }
                assert forall|id: DOMNodeId|
                    #[trigger] mid_self.live(id) && id.slot != copy.slot implies self.children(id)
                    == mid_self.children(id) by {
                    assert(before.live(id));
                }
                assert forall|id: DOMNodeId|
                    #[trigger] mid_self.live(id) implies self.node_of(id) == mid_self.node_of(id)
                    && self.parent_of(id) == mid_self.parent_of(id) by {
                    assert(before.live(id));
                }
                // the subtrees of children not copied yet are still pristine
                assert forall|s: int|
                    #[trigger] pre_other.live_slot(s) && s != ss && (forall|j2: int|
                        0 <= j2 < i + 1 ==> !(#[trigger] pre_other.subtree_slots(
                            k[j2].slot as int,
                        ).contains(s))) implies other.entry_at(s).value == pre_other.entry_at(
                    s,
                ).value by {
                    assert(!(pre_other.subtree_slots(k[i as int].slot as int).contains(s)));
                    assert(!pre_other.subtree_slots(cs).contains(s));
                    assert forall|j2: int|
                        0 <= j2 < i implies !(#[trigger] pre_other.subtree_slots(
                            k[j2].slot as int,
                        ).contains(s)) by {}
                    assert(before_other.entry_at(s).value == pre_other.entry_at(s).value);
                    assert(!before_other.subtree_slots(cs).contains(s));
                    assert(before_other.live_slot(s));
                    assert(before_other.arena.slots.len() == before_other.arena.slots@.len());
                    assert(before_other.id_at(s).slot as int == s);
                    assert(before_other.live(before_other.id_at(s)));
                    assert(other.node_of(before_other.id_at(s)) == before_other.node_of(
                        before_other.id_at(s),
                    ));
                    assert(other.entry_at(s).value == before_other.entry_at(s).value);
                }
                // the fresh copy of this child is an exact copy of the
                // pristine source subtree
                let c_new = self.children(copy)[i as int];
                assert(iso_subtree(*self, c_new, before_other, child));
                assert forall|s: int|
                    #[trigger] before_other.subtree_slots(cs).contains(s) implies pre_other.live_slot(
                    s,
                ) && pre_other.entry_at(s).value == before_other.entry_at(s).value
                    && pre_other.children_at(s) == before_other.children_at(s)
                    && pre_other.arena.slots@[s].generation
                    == before_other.arena.slots@[s].generation by {
                    assert(pre_other.subtree_slots(cs).contains(s));
                    assert(!pre_other.subtree_slots(cs).contains(ss));
                    assert(s != ss);
                    assert forall|j2: int|
                        0 <= j2 < i implies !(#[trigger] pre_other.subtree_slots(
                            k[j2].slot as int,
                        ).contains(s)) by {
                        assert(pre_other.live_slot(ss));
                        assert(pre_other.slot_ok(ss));
                        assert(pre_other.child_link_ok(ss, j2));
                        assert(pre_other.live(k[j2]));
                        assert(pre_other.live_slot(k[j2].slot as int));
                        if k[j2].slot == child.slot {
                            assert(k[j2] == child);
                            assert(k[j2] != k[i as int]);
                            assert(false);
                        }
                        pre_other.lemma_sibling_subtrees_disjoint(ss, k[j2].slot as int, cs);
                    }
                    assert(before_other.entry_at(s).value == pre_other.entry_at(s).value);
                }
                lemma_iso_transfer(*self, *self, c_new, before_other, pre_other, child);
                assert(iso_subtree(*self, c_new, pre_other, k[i as int]));
                // the copies made in earlier rounds are still exact
                assert forall|j: int|
                    0 <= j < i + 1 implies iso_subtree(
                        *self,
                        self.children(copy)[j],
                        pre_other,
                        #[trigger] k[j],
                    ) by {
                    if j < i {
                        let xj = before.children(copy)[j];
                        assert(self.children(copy)[j] == xj);
                        assert(iso_subtree(before, xj, pre_other, k[j]));
                        assert(pre_other.live_slot(ss));
                        assert(pre_other.slot_ok(ss));
                        assert(pre_other.child_link_ok(ss, j));
                        assert(pre_other.live(k[j]));
                        assert(before.live_slot(copy.slot as int));
                        assert(before.slot_ok(copy.slot as int));
                        assert(before.child_link_ok(copy.slot as int, j));
                        assert(before.live(xj));
                        assert(before.live_slot(xj.slot as int));
                        before.lemma_subtree_step(copy.slot as int, xj.slot as int);
                        assert forall|s: int|
                            #[trigger] before.subtree_slots(xj.slot as int).contains(
                                s,
                            ) implies self.live_slot(s) && self.entry_at(s).value
                            == before.entry_at(s).value && self.children_at(s)
                            == before.children_at(s) && self.arena.slots@[s].generation
                            == before.arena.slots@[s].generation by {
                            assert(before.live_slot(s));
                            assert(s != copy.slot as int);
                            assert(before.arena.slots.len() == before.arena.slots@.len());
                            assert(before.id_at(s).slot as int == s);
                            assert(before.live(before.id_at(s)));
                            assert(self.live(before.id_at(s)));
                            assert(self.node_of(before.id_at(s)) == before.node_of(
                                before.id_at(s),
                            ));
                            assert(self.children(before.id_at(s)) == before.children(
                                before.id_at(s),
                            ));
                        }
                        lemma_iso_transfer(before, *self, xj, pre_other, pre_other, k[j]);
                    }
                }
            }
            i = i + 1;
        }
        proof {
            assert(mid_self.children(dst_parent) == pre_self.children(dst_parent).push(copy));
            assert forall|id: DOMNodeId|
                #[trigger] pre_other.live(id) && !pre_other.subtree_slots(ss).contains(
                    id.slot as int,
                ) implies other.node_of(id) == pre_other.node_of(id) by {
                assert(pre_other.live_slot(id.slot as int));
                assert(other.entry_at(id.slot as int).value == pre_other.entry_at(
                    id.slot as int,
                ).value);
            }
            assert forall|id: DOMNodeId| #[trigger] pre_self.live(id) implies self.live(id) by {
                assert(mid_self.live(id));
            }
            assert forall|id: DOMNodeId|
                #[trigger] pre_self.live(id) && id.slot != dst_parent.slot implies self.children(
                id,
            ) == pre_self.children(id) by {
                assert(mid_self.live(id));
                assert(mid_self.children(id) == pre_self.children(id));
                if id.slot == copy.slot {
                    assert(mid_self.live(copy));
                    assert(id == copy);
                    assert(!pre_self.live(copy));
                }
            }
            assert forall|id: DOMNodeId|
                #[trigger] pre_self.live(id) implies self.node_of(id) == pre_self.node_of(id)
                && self.parent_of(id) == pre_self.parent_of(id) by {
                assert(mid_self.live(id));
                assert(mid_self.node_of(id) == pre_self.node_of(id));
                assert(mid_self.parent_of(id) == pre_self.parent_of(id));
            }
            assert(self.children(dst_parent)[self.children(dst_parent).len() - 1] == copy);
            lemma_iso_children_fold(*self, copy, pre_other, src, k.len() as int);
            assert(iso_subtree(*self, copy, pre_other, src));
        }
    }

    /// As `copy_subtree`, but the fresh copy becomes the first child of
    /// `dst_parent` instead of the last; the copied subtree below it is
    /// built in source order as usual.
    fn copy_subtree_front(&mut self, other: &mut DOMTree, src: DOMNodeId, dst_parent: DOMNodeId)
        requires
            old(self).wf(),
            old(other).wf(),
            old(other).live(src),
            old(self).live(dst_parent),
        ensures
            final(self).wf(),
            final(other).wf(),
            DOMTree::payload_shape_eq(*old(other), *final(other)),
            forall|id: DOMNodeId|
                #[trigger] old(other).live(id) && !old(other).subtree_slots(
                    src.slot as int,
                ).contains(id.slot as int) ==> final(other).node_of(id) == old(other).node_of(id),
            final(self).root == old(self).root,
            forall|id: DOMNodeId|
                #[trigger] old(self).live(id) ==> final(self).live(id),
            final(self).live(dst_parent),
            final(self).children(dst_parent).len() == old(self).children(dst_parent).len() + 1,
            forall|j: int|
                0 <= j < old(self).children(dst_parent).len() ==> #[trigger] final(self).children(
                    dst_parent,
                )[j + 1] == old(self).children(dst_parent)[j],
            ({
                let c = final(self).children(dst_parent)[0];
                &&& final(self).live(c)
                &&& !old(self).live(c)
                &&& final(self).node_of(c) == old(other).node_of(src)
                &&& final(self).parent_of(c) == Some(dst_parent)
                &&& final(self).children(c).len() == old(other).children(src).len()
                &&& iso_subtree(*final(self), c, *old(other), src)
            }),
            forall|id: DOMNodeId|
                #[trigger] old(self).live(id) && id.slot != dst_parent.slot ==> final(self).children(id) == old(self).children(id),
            forall|id: DOMNodeId|
                #[trigger] old(self).live(id) ==> final(self).node_of(id) == old(self).node_of(id)
                    && final(self).parent_of(id) == old(self).parent_of(id),
        decreases old(other).subtree_slots(src.slot as int).len(),
    {
        let ghost pre_self = *self;
        let ghost pre_other = *other;
        let ghost ss = src.slot as int;
        proof {
            assert(pre_other.live_slot(ss));
            pre_other.lemma_subtree_finite(ss);
            assert(pre_other.subtree_slots(ss).contains(ss)) by {
                assert(pre_other.chain_at(ss).is_prefix_of(pre_other.chain_at(ss)));
            }
        }
        // Move the payload out, leaving a void node behind.
        let mut payload = DOMNode::new(crate::node::DOMData::Void);
        match other.get_mut(src) {
            Ok(node) => {
                core::mem::swap(node, &mut payload);
            },
            Err(_) => unreached(),
        }
        let copy = match self.prepend(dst_parent, payload) {
            Ok(c) => c,
            Err(_) => unreached(),
        };
        let ghost mid_self = *self;
        proof {
            if copy.slot == dst_parent.slot {
                assert(mid_self.live(copy) && mid_self.live(dst_parent));
                assert(copy == dst_parent);
                assert(pre_self.live(dst_parent));
                assert(false);
            }
            assert(pre_other.subtree_slots(ss).contains(ss)) by {
                assert(pre_other.chain_at(ss).is_prefix_of(pre_other.chain_at(ss)));
            }
            assert forall|s: int|
                #[trigger] pre_other.live_slot(s) && !pre_other.subtree_slots(ss).contains(
                    s,
                ) implies other.entry_at(s).value == pre_other.entry_at(s).value by {
                assert(s != ss);
            }
        }
        let kids_vec = match other.children_ids(src) {
            Ok(v) => v,
            Err(_) => unreached(),
        };
        proof {
            assert(other.children(src) == pre_other.children(src));
        }
        let ghost k = pre_other.children(src);
        let n = kids_vec.len();
        let mut i: usize = 0;
        while i < n
            invariant
                pre_other.wf(),
                pre_other == *old(other),
                pre_other.live(src),
                ss == src.slot as int,
                k == pre_other.children(src),
                kids_vec@ == k,
                n == k.len(),
                0 <= i <= n,
                self.wf(),
                other.wf(),
                DOMTree::payload_shape_eq(pre_other, *other),
                self.live(copy),
                self.live(dst_parent),
                self.root == mid_self.root,
                copy.slot != dst_parent.slot,
                self.children(dst_parent) == mid_self.children(dst_parent),
                self.node_of(copy) == mid_self.node_of(copy),
                self.parent_of(copy) == Some(dst_parent),
                self.children(copy).len() == i,
                forall|j: int|
                    0 <= j < i ==> iso_subtree(
                        *self,
                        self.children(copy)[j],
                        pre_other,
                        #[trigger] k[j],
                    ),
                forall|s: int|
                    #[trigger] pre_other.live_slot(s) && !pre_other.subtree_slots(ss).contains(s)
                        ==> other.entry_at(s).value == pre_other.entry_at(s).value,
                forall|s: int|
                    #[trigger] pre_other.live_slot(s) && s != ss && (forall|j2: int|
                        0 <= j2 < i ==> !(#[trigger] pre_other.subtree_slots(
                            k[j2].slot as int,
                        ).contains(s))) ==> other.entry_at(s).value == pre_other.entry_at(s).value,
                forall|id: DOMNodeId| #[trigger] mid_self.live(id) ==> self.live(id),
                forall|id: DOMNodeId|
                    #[trigger] mid_self.live(id) && id.slot != copy.slot ==> self.children(id)
                        == mid_self.children(id),
                forall|id: DOMNodeId|
                    #[trigger] mid_self.live(id) ==> self.node_of(id) == mid_self.node_of(id)
                        && self.parent_of(id) == mid_self.parent_of(id),
            decreases n - i,
        {
            let child = kids_vec[i];
            let ghost cs = child.slot as int;
            proof {
                assert(pre_other.live_slot(ss));
                assert(pre_other.slot_ok(ss));
                assert(pre_other.child_link_ok(ss, i as int));
                assert(pre_other.live(child));
                assert(other.live(child));
                assert(pre_other.entry_at(cs).parent == Some(pre_other.id_at(ss)));
                pre_other.lemma_subtree_step(ss, cs);
                assert forall|s: int| true implies #[trigger] other.subtree_slots(cs).contains(s)
                    == pre_other.subtree_slots(cs).contains(s) by {
                    assert(other.live_slot(s) == pre_other.live_slot(s));
                    assert(other.chains@ == pre_other.chains@);
                }
                assert(other.subtree_slots(cs) =~= pre_other.subtree_slots(cs));
                assert(other.subtree_slots(cs).len() == pre_other.subtree_slots(cs).len());
                assert(other.subtree_slots(cs).len() < pre_other.subtree_slots(ss).len());
            }
            let ghost before = *self;
            let ghost before_other = *other;
            self.copy_subtree(other, child, copy);
            proof {
                assert(DOMTree::payload_shape_eq(pre_other, *other)) by {
                    assert(other.arena.slots@.len() == pre_other.arena.slots@.len());
                    assert forall|s: int|
                        0 <= s < pre_other.arena.slots@.len() implies (
                        #[trigger] other.arena.slots@[s]).generation
                            == pre_other.arena.slots@[s].generation
                            && (other.arena.slots@[s].value is Some
                            <==> pre_other.arena.slots@[s].value is Some) && (
                        pre_other.arena.slots@[s].value is Some ==> other.entry_at(s).parent
                            == pre_other.entry_at(s).parent && other.entry_at(s).prev_sibling
                            == pre_other.entry_at(s).prev_sibling && other.entry_at(s).next_sibling
                            == pre_other.entry_at(s).next_sibling && other.entry_at(s).first_child
                            == pre_other.entry_at(s).first_child && other.entry_at(s).last_child
                            == pre_other.entry_at(s).last_child) by {
                        assert(before_other.arena.slots@[s].generation == pre_other.arena.slots@[
                            s].generation);
                    }
                }
                assert forall|s: int|
                    #[trigger] pre_other.live_slot(s) && !pre_other.subtree_slots(ss).contains(
                        s,
                    ) implies other.entry_at(s).value == pre_other.entry_at(s).value by {
                    assert(before_other.entry_at(s).value == pre_other.entry_at(s).value);
                    assert(!pre_other.subtree_slots(cs).contains(s));
                    assert(!before_other.subtree_slots(cs).contains(s));
                    assert(before_other.live_slot(s));
                    assert(before_other.arena.slots.len() == before_other.arena.slots@.len());
                    assert(before_other.id_at(s).slot as int == s);
                    assert(before_other.live(before_other.id_at(s)));
                    assert(!before_other.subtree_slots(cs).contains(
                        before_other.id_at(s).slot as int,
                    ));
                    assert(other.node_of(before_other.id_at(s)) == before_other.node_of(
                        before_other.id_at(s),
                    ));
                    assert(other.entry_at(s).value == before_other.entry_at(s).value);
                }
                assert forall|id: DOMNodeId| #[trigger] mid_self.live(id) implies self.live(
                    id,
                ) by {
                    assert(before.live(id));
                }
                assert forall|id: DOMNodeId|
                    #[trigger] mid_self.live(id) && id.slot != copy.slot implies self.children(id)
                    == mid_self.children(id) by {
                    assert(before.live(id));
                }
                assert forall|id: DOMNodeId|
                    #[trigger] mid_self.live(id) implies self.node_of(id) == mid_self.node_of(id)
                    && self.parent_of(id) == mid_self.parent_of(id) by {
                    assert(before.live(id));
                }
                // the subtrees of children not copied yet are still pristine
                assert forall|s: int|
                    #[trigger] pre_other.live_slot(s) && s != ss && (forall|j2: int|
                        0 <= j2 < i + 1 ==> !(#[trigger] pre_other.subtree_slots(
                            k[j2].slot as int,
                        ).contains(s))) implies other.entry_at(s).value == pre_other.entry_at(
                    s,
                ).value by {
                    assert(!(pre_other.subtree_slots(k[i as int].slot as int).contains(s)));
                    assert(!pre_other.subtree_slots(cs).contains(s));
                    assert forall|j2: int|
                        0 <= j2 < i implies !(#[trigger] pre_other.subtree_slots(
                            k[j2].slot as int,
                        ).contains(s)) by {}
                    assert(before_other.entry_at(s).value == pre_other.entry_at(s).value);
                    assert(!before_other.subtree_slots(cs).contains(s));
                    assert(before_other.live_slot(s));
                    assert(before_other.arena.slots.len() == before_other.arena.slots@.len());
                    assert(before_other.id_at(s).slot as int == s);
                    assert(before_other.live(before_other.id_at(s)));
                    assert(other.node_of(before_other.id_at(s)) == before_other.node_of(
                        before_other.id_at(s),
                    ));
                    assert(other.entry_at(s).value == before_other.entry_at(s).value);
                }
                // the fresh copy of this child is an exact copy of the
                // pristine source subtree
                let c_new = self.children(copy)[i as int];
                assert(iso_subtree(*self, c_new, before_other, child));
                assert forall|s: int|
                    #[trigger] before_other.subtree_slots(cs).contains(s) implies pre_other.live_slot(
                    s,
                ) && pre_other.entry_at(s).value == before_other.entry_at(s).value
                    && pre_other.children_at(s) == before_other.children_at(s)
                    && pre_other.arena.slots@[s].generation
                    == before_other.arena.slots@[s].generation by {
                    assert(pre_other.subtree_slots(cs).contains(s));
                    assert(!pre_other.subtree_slots(cs).contains(ss));
                    assert(s != ss);
                    assert forall|j2: int|
                        0 <= j2 < i implies !(#[trigger] pre_other.subtree_slots(
                            k[j2].slot as int,
                        ).contains(s)) by {
                        assert(pre_other.live_slot(ss));
                        assert(pre_other.slot_ok(ss));
                        assert(pre_other.child_link_ok(ss, j2));
                        assert(pre_other.live(k[j2]));
                        assert(pre_other.live_slot(k[j2].slot as int));
                        if k[j2].slot == child.slot {
                            assert(k[j2] == child);
                            assert(k[j2] != k[i as int]);
                            assert(false);
                        }
                        pre_other.lemma_sibling_subtrees_disjoint(ss, k[j2].slot as int, cs);
                    }
                    assert(before_other.entry_at(s).value == pre_other.entry_at(s).value);
                }
                lemma_iso_transfer(*self, *self, c_new, before_other, pre_other, child);
                assert(iso_subtree(*self, c_new, pre_other, k[i as int]));
                // the copies made in earlier rounds are still exact
                assert forall|j: int|
                    0 <= j < i + 1 implies iso_subtree(
                        *self,
                        self.children(copy)[j],
                        pre_other,
                        #[trigger] k[j],
                    ) by {
                    if j < i {
                        let xj = before.children(copy)[j];
                        assert(self.children(copy)[j] == xj);
                        assert(iso_subtree(before, xj, pre_other, k[j]));
                        assert(pre_other.live_slot(ss));
                        assert(pre_other.slot_ok(ss));
                        assert(pre_other.child_link_ok(ss, j));
                        assert(pre_other.live(k[j]));
                        assert(before.live_slot(copy.slot as int));
                        assert(before.slot_ok(copy.slot as int));
                        assert(before.child_link_ok(copy.slot as int, j));
                        assert(before.live(xj));
                        assert(before.live_slot(xj.slot as int));
                        before.lemma_subtree_step(copy.slot as int, xj.slot as int);
                        assert forall|s: int|
                            #[trigger] before.subtree_slots(xj.slot as int).contains(
                                s,
                            ) implies self.live_slot(s) && self.entry_at(s).value
                            == before.entry_at(s).value && self.children_at(s)
                            == before.children_at(s) && self.arena.slots@[s].generation
                            == before.arena.slots@[s].generation by {
                            assert(before.live_slot(s));
                            assert(s != copy.slot as int);
                            assert(before.arena.slots.len() == before.arena.slots@.len());
                            assert(before.id_at(s).slot as int == s);
                            assert(before.live(before.id_at(s)));
                            assert(self.live(before.id_at(s)));
                            assert(self.node_of(before.id_at(s)) == before.node_of(
                                before.id_at(s),
                            ));
                            assert(self.children(before.id_at(s)) == before.children(
                                before.id_at(s),
                            ));
                        }
                        lemma_iso_transfer(before, *self, xj, pre_other, pre_other, k[j]);
                    }
                }
            }
            i = i + 1;
        }
        proof {
            assert(mid_self.children(dst_parent) == seq![copy] + pre_self.children(dst_parent));
            assert forall|j: int|
                0 <= j < pre_self.children(dst_parent).len() implies #[trigger] self.children(
                    dst_parent,
                )[j + 1] == pre_self.children(dst_parent)[j] by {
                assert(self.children(dst_parent)[j + 1] == (seq![copy] + pre_self.children(
                    dst_parent,
                ))[j + 1]);
            }
            assert forall|id: DOMNodeId|
                #[trigger] pre_other.live(id) && !pre_other.subtree_slots(ss).contains(
                    id.slot as int,
                ) implies other.node_of(id) == pre_other.node_of(id) by {
                assert(pre_other.live_slot(id.slot as int));
                assert(other.entry_at(id.slot as int).value == pre_other.entry_at(
                    id.slot as int,
                ).value);
            }
            assert forall|id: DOMNodeId| #[trigger] pre_self.live(id) implies self.live(id) by {
                assert(mid_self.live(id));
            }
            assert forall|id: DOMNodeId|
                #[trigger] pre_self.live(id) && id.slot != dst_parent.slot implies self.children(
                id,
            ) == pre_self.children(id) by {
                assert(mid_self.live(id));
                assert(mid_self.children(id) == pre_self.children(id));
                if id.slot == copy.slot {
                    assert(mid_self.live(copy));
                    assert(id == copy);
                    assert(!pre_self.live(copy));
                }
            }
            assert forall|id: DOMNodeId|
                #[trigger] pre_self.live(id) implies self.node_of(id) == pre_self.node_of(id)
                && self.parent_of(id) == pre_self.parent_of(id) by {
                assert(mid_self.live(id));
                assert(mid_self.node_of(id) == pre_self.node_of(id));
                assert(mid_self.parent_of(id) == pre_self.parent_of(id));
            }
            assert(self.children(dst_parent)[0] == copy);
            lemma_iso_children_fold(*self, copy, pre_other, src, k.len() as int);
            assert(iso_subtree(*self, copy, pre_other, src));
        }
    }


    /// Splices the children of `other`'s root, in order, as trailing
    /// children of `parent`, moving their payloads over; their former
    /// parent links are rewritten to nodes of this tree.  Returns `false`,
    /// changing nothing, when `other` is empty (its root has no children) or
    /// `parent` is stale.  On success `parent` has gained one child per
    /// spliced subtree, in order, each carrying the payload of its source.
    pub fn append_tree(&mut self, parent: DOMNodeId, other: DOMTree) -> (r: bool)
        requires
            old(self).wf(),
            other.wf(),
        ensures
            final(self).wf(),
            r <==> (old(self).live(parent) && other.children(other.root).len() > 0),
            !r ==> *final(self) == *old(self),
            r ==> ({
                let k_src = other.children(other.root);
                let k_old = old(self).children(parent);
                let k_new = final(self).children(parent);
                &&& k_new.len() == k_old.len() + k_src.len()
                &&& (forall|j: int| 0 <= j < k_old.len() ==> #[trigger] k_new[j] == k_old[j])
                &&& (forall|j: int|
                    0 <= j < k_src.len() ==> final(self).live(#[trigger] k_new[k_old.len() + j])
                        && final(self).node_of(k_new[k_old.len() + j]) == other.node_of(k_src[j])
                        && final(self).parent_of(k_new[k_old.len() + j]) == Some(parent))
                &&& (forall|j: int|
                    0 <= j < k_src.len() ==> iso_subtree(
                        *final(self),
                        k_new[k_old.len() + j],
                        other,
                        #[trigger] k_src[j],
                    ))
                &&& final(self).root == old(self).root
                &&& (forall|id: DOMNodeId| #[trigger] old(self).live(id) ==> final(self).live(id))
                &&& (forall|id: DOMNodeId|
                    #[trigger] old(self).live(id) && id.slot != parent.slot ==> final(self).children(id) == old(self).children(id))
                &&& (forall|id: DOMNodeId|
                    #[trigger] old(self).live(id) ==> final(self).node_of(id) == old(
                        self,
                    ).node_of(id) && final(self).parent_of(id) == old(self).parent_of(id))
            }),
    {
        if self.arena.try_get(parent).is_none() {
            return false;
        }
        let mut other = other;
        let root_ref = other.root_id();
        let kids_vec = match other.children_ids(root_ref) {
            Ok(v) => v,
            Err(_) => unreached(),
        };
        let n = kids_vec.len();
        if n == 0 {
            return false;
        }
        let ghost pre = *self;
        let ghost pre_other = other;
        let ghost k_src = other.children(other.root);
        let mut i: usize = 0;
        while i < n
            invariant
                pre_other.wf(),
                pre_other.live(pre_other.root),
                kids_vec@ == k_src,
                k_src == pre_other.children(pre_other.root),
                root_ref == pre_other.root,
                n == k_src.len(),
                0 <= i <= n,
                self.wf(),
                other.wf(),
                DOMTree::payload_shape_eq(pre_other, other),
                other.root == pre_other.root,
                self.live(parent),
                self.root == pre.root,
                self.children(parent).len() == pre.children(parent).len() + i,
                forall|j: int|
                    0 <= j < pre.children(parent).len() ==> #[trigger] self.children(parent)[j]
                        == pre.children(parent)[j],
                forall|j: int|
                    0 <= j < i ==> self.live(
                        #[trigger] self.children(parent)[pre.children(parent).len() + j],
                    ) && self.node_of(self.children(parent)[pre.children(parent).len() + j])
                        == pre_other.node_of(k_src[j]) && self.parent_of(
                        self.children(parent)[pre.children(parent).len() + j],
                    ) == Some(parent),
                forall|j: int|
                    0 <= j < i ==> iso_subtree(
                        *self,
                        self.children(parent)[pre.children(parent).len() + j],
                        pre_other,
                        #[trigger] k_src[j],
                    ),
                forall|id: DOMNodeId| #[trigger] pre.live(id) ==> self.live(id),
                forall|id: DOMNodeId|
                    #[trigger] pre.live(id) && id.slot != parent.slot ==> self.children(id)
                        == pre.children(id),
                forall|id: DOMNodeId|
                    #[trigger] pre.live(id) ==> self.node_of(id) == pre.node_of(id)
                        && self.parent_of(id) == pre.parent_of(id),
                forall|s: int|
                    #[trigger] pre_other.live_slot(s) && (forall|j: int|
                        0 <= j < i ==> !(#[trigger] pre_other.subtree_slots(
                            k_src[j].slot as int,
                        ).contains(s))) ==> other.entry_at(s).value == pre_other.entry_at(s).value,
            decreases n - i,
        {
            let child = kids_vec[i];
            let ghost rs = pre_other.root.slot as int;
            let ghost cs = child.slot as int;
            proof {
                assert(pre_other.live_slot(rs));
                assert(pre_other.slot_ok(rs));
                assert(pre_other.child_link_ok(rs, i as int));
                assert(pre_other.live(child));
                assert(other.live(child));
                pre_other.lemma_subtree_step(rs, cs);
                assert(pre_other.subtree_slots(cs).contains(cs)) by {
                    assert(pre_other.chain_at(cs).is_prefix_of(pre_other.chain_at(cs)));
                }
                // this round's subtree has not been touched by earlier rounds
                assert forall|j: int|
                    0 <= j < i implies !(#[trigger] pre_other.subtree_slots(
                        k_src[j].slot as int,
                    ).contains(cs)) by {
                    assert(pre_other.child_link_ok(rs, j));
                    assert(pre_other.live(k_src[j]));
                    assert(pre_other.live_slot(k_src[j].slot as int));
                    if k_src[j].slot == child.slot {
                        assert(k_src[j] == child);
                        assert(k_src[j] != k_src[i as int]);
                        assert(false);
                    }
                    pre_other.lemma_sibling_subtrees_disjoint(rs, k_src[j].slot as int, cs);
                }
                assert(other.entry_at(cs).value == pre_other.entry_at(cs).value);
                assert(other.node_of(child) == pre_other.node_of(child));
                // the whole current subtree is still as it was
                assert forall|s: int|
                    #[trigger] other.subtree_slots(cs).contains(s) implies other.subtree_slots(
                        cs,
                    ).contains(s) == pre_other.subtree_slots(cs).contains(s) by {
                    assert(other.live_slot(s) == pre_other.live_slot(s));
                    assert(other.chains@ == pre_other.chains@);
                }
            }
            let ghost before = *self;
            let ghost before_other = other;
            self.copy_subtree(&mut other, child, parent);
            proof {
                assert(DOMTree::payload_shape_eq(pre_other, other)) by {
                    assert(other.arena.slots@.len() == pre_other.arena.slots@.len());
                    assert forall|s: int|
                        0 <= s < pre_other.arena.slots@.len() implies (
                        #[trigger] other.arena.slots@[s]).generation
                            == pre_other.arena.slots@[s].generation
                            && (other.arena.slots@[s].value is Some
                            <==> pre_other.arena.slots@[s].value is Some) && (
                        pre_other.arena.slots@[s].value is Some ==> other.entry_at(s).parent
                            == pre_other.entry_at(s).parent && other.entry_at(s).prev_sibling
                            == pre_other.entry_at(s).prev_sibling && other.entry_at(s).next_sibling
                            == pre_other.entry_at(s).next_sibling && other.entry_at(s).first_child
                            == pre_other.entry_at(s).first_child && other.entry_at(s).last_child
                            == pre_other.entry_at(s).last_child) by {
                        assert(before_other.arena.slots@[s].generation == pre_other.arena.slots@[
                            s].generation);
                    }
                }
                // the copied payload is the untouched source payload
                assert(before_other.node_of(child) == pre_other.node_of(child));
                assert(self.children(parent).len() == before.children(parent).len() + 1);
                assert(self.children(parent)[self.children(parent).len() - 1] == self.children(
                    parent,
                )[self.children(parent).len() - 1]);
                // the unprocessed region of other is still untouched
                assert forall|s: int|
                    #[trigger] pre_other.live_slot(s) && (forall|j: int|
                        0 <= j < i + 1 ==> !(#[trigger] pre_other.subtree_slots(
                            k_src[j].slot as int,
                        ).contains(s))) implies other.entry_at(s).value == pre_other.entry_at(
                    s,
                ).value by {
                    assert(!(pre_other.subtree_slots(k_src[i as int].slot as int).contains(s)));
                    assert(!pre_other.subtree_slots(cs).contains(s));
                    assert forall|j: int|
                        0 <= j < i implies !(#[trigger] pre_other.subtree_slots(
                            k_src[j].slot as int,
                        ).contains(s)) by {}
                    assert(before_other.entry_at(s).value == pre_other.entry_at(s).value);
                    assert(before_other.live_slot(s));
                    assert(!before_other.subtree_slots(cs).contains(s)) by {
                        if before_other.subtree_slots(cs).contains(s) {
                            assert(before_other.live_slot(s) == pre_other.live_slot(s));
                            assert(before_other.chains@ == pre_other.chains@);
                            assert(pre_other.subtree_slots(cs).contains(s));
                        }
                    }
                    assert(before_other.arena.slots.len() == before_other.arena.slots@.len());
                    assert(before_other.id_at(s).slot as int == s);
                    assert(before_other.live(before_other.id_at(s)));
                    assert(other.node_of(before_other.id_at(s)) == before_other.node_of(
                        before_other.id_at(s),
                    ));
                    assert(other.entry_at(s).value == before_other.entry_at(s).value);
                }
                assert forall|id: DOMNodeId| #[trigger] pre.live(id) implies self.live(id) by {
                    assert(before.live(id));
                }
                assert forall|id: DOMNodeId|
                    #[trigger] pre.live(id) && id.slot != parent.slot implies self.children(id)
                    == pre.children(id) by {
                    assert(before.live(id));
                }
                assert forall|id: DOMNodeId|
                    #[trigger] pre.live(id) implies self.node_of(id) == pre.node_of(id)
                    && self.parent_of(id) == pre.parent_of(id) by {
                    assert(before.live(id));
                }
                // the fresh copy is an exact copy of the pristine source
                // subtree, and the earlier copies are still exact
                let base = pre.children(parent).len() as int;
                let c_new = self.children(parent)[base + i as int];
                assert(c_new == self.children(parent)[self.children(parent).len() - 1]);
                assert(iso_subtree(*self, c_new, before_other, child));
                assert forall|s: int|
                    #[trigger] before_other.subtree_slots(cs).contains(s) implies pre_other.live_slot(
                    s,
                ) && pre_other.entry_at(s).value == before_other.entry_at(s).value
                    && pre_other.children_at(s) == before_other.children_at(s)
                    && pre_other.arena.slots@[s].generation
                    == before_other.arena.slots@[s].generation by {
                    assert(pre_other.subtree_slots(cs).contains(s));
                    assert forall|j2: int|
                        0 <= j2 < i implies !(#[trigger] pre_other.subtree_slots(
                            k_src[j2].slot as int,
                        ).contains(s)) by {
                        assert(pre_other.live_slot(rs));
                        assert(pre_other.slot_ok(rs));
                        assert(pre_other.child_link_ok(rs, j2));
                        assert(pre_other.live(k_src[j2]));
                        assert(pre_other.live_slot(k_src[j2].slot as int));
                        if k_src[j2].slot == child.slot {
                            assert(k_src[j2] == child);
                            assert(k_src[j2] != k_src[i as int]);
                            assert(false);
                        }
                        pre_other.lemma_sibling_subtrees_disjoint(rs, k_src[j2].slot as int, cs);
                    }
                    assert(before_other.entry_at(s).value == pre_other.entry_at(s).value);
                }
                lemma_iso_transfer(*self, *self, c_new, before_other, pre_other, child);
                assert(iso_subtree(*self, c_new, pre_other, k_src[i as int]));
                assert forall|j: int|
                    0 <= j < i + 1 implies iso_subtree(
                        *self,
                        self.children(parent)[base + j],
                        pre_other,
                        #[trigger] k_src[j],
                    ) by {
                    if j < i {
                        let xj = before.children(parent)[base + j];
                        assert(self.children(parent)[base + j] == xj);
                        assert(iso_subtree(before, xj, pre_other, k_src[j]));
                        assert(pre_other.live_slot(rs));
                        assert(pre_other.slot_ok(rs));
                        assert(pre_other.child_link_ok(rs, j));
                        assert(pre_other.live(k_src[j]));
                        assert(before.live_slot(parent.slot as int));
                        assert(before.slot_ok(parent.slot as int));
                        assert(before.child_link_ok(parent.slot as int, base + j));
                        assert(before.live(xj));
                        assert(before.live_slot(xj.slot as int));
                        before.lemma_subtree_step(parent.slot as int, xj.slot as int);
                        assert forall|s: int|
                            #[trigger] before.subtree_slots(xj.slot as int).contains(
                                s,
                            ) implies self.live_slot(s) && self.entry_at(s).value
                            == before.entry_at(s).value && self.children_at(s)
                            == before.children_at(s) && self.arena.slots@[s].generation
                            == before.arena.slots@[s].generation by {
                            assert(before.live_slot(s));
                            assert(s != parent.slot as int);
                            assert(before.arena.slots.len() == before.arena.slots@.len());
                            assert(before.id_at(s).slot as int == s);
                            assert(before.live(before.id_at(s)));
                            assert(self.live(before.id_at(s)));
                            assert(self.node_of(before.id_at(s)) == before.node_of(
                                before.id_at(s),
                            ));
                            assert(self.children(before.id_at(s)) == before.children(
                                before.id_at(s),
                            ));
                        }
                        lemma_iso_transfer(before, *self, xj, pre_other, pre_other, k_src[j]);
                    }
                }
            }
            i = i + 1;
        }
        true
    }


    /// Splices the children of `other`'s root, in order, as leading
    /// children of `parent`, moving their payloads over.  Returns `false`,
    /// changing nothing, when `other` is empty (its root has no children) or
    /// `parent` is stale.  On success `parent`'s child list starts with one
    /// child per spliced subtree, in source order, each carrying the payload
    /// of its source, followed by the children it had before.
    pub fn prepend_tree(&mut self, parent: DOMNodeId, other: DOMTree) -> (r: bool)
        requires
            old(self).wf(),
            other.wf(),
        ensures
            final(self).wf(),
            r <==> (old(self).live(parent) && other.children(other.root).len() > 0),
            !r ==> *final(self) == *old(self),
            r ==> ({
                let k_src = other.children(other.root);
                let k_old = old(self).children(parent);
                let k_new = final(self).children(parent);
                &&& k_new.len() == k_old.len() + k_src.len()
                &&& (forall|j: int|
                    0 <= j < k_old.len() ==> #[trigger] k_new[k_src.len() + j] == k_old[j])
                &&& (forall|j: int|
                    0 <= j < k_src.len() ==> final(self).live(#[trigger] k_new[j]) && final(self).node_of(k_new[j]) == other.node_of(k_src[j]) && final(self).parent_of(
                        k_new[j],
                    ) == Some(parent))
                &&& (forall|j: int|
                    0 <= j < k_src.len() ==> iso_subtree(
                        *final(self),
                        k_new[j],
                        other,
                        #[trigger] k_src[j],
                    ))
                &&& final(self).root == old(self).root
                &&& (forall|id: DOMNodeId| #[trigger] old(self).live(id) ==> final(self).live(id))
                &&& (forall|id: DOMNodeId|
                    #[trigger] old(self).live(id) && id.slot != parent.slot ==> final(self).children(id) == old(self).children(id))
                &&& (forall|id: DOMNodeId|
                    #[trigger] old(self).live(id) ==> final(self).node_of(id) == old(
                        self,
                    ).node_of(id) && final(self).parent_of(id) == old(self).parent_of(id))
            }),
    {
        if self.arena.try_get(parent).is_none() {
            return false;
        }
        let mut other = other;
        let root_ref = other.root_id();
        let kids_vec = match other.children_ids(root_ref) {
            Ok(v) => v,
            Err(_) => unreached(),
        };
        let n = kids_vec.len();
        if n == 0 {
            return false;
        }
        let ghost pre = *self;
        let ghost pre_other = other;
        let ghost k_src = other.children(other.root);
        let mut i: usize = n;
        while i > 0
            invariant
                pre_other.wf(),
                pre_other.live(pre_other.root),
                kids_vec@ == k_src,
                k_src == pre_other.children(pre_other.root),
                root_ref == pre_other.root,
                n == k_src.len(),
                0 <= i <= n,
                self.wf(),
                other.wf(),
                DOMTree::payload_shape_eq(pre_other, other),
                other.root == pre_other.root,
                self.live(parent),
                self.root == pre.root,
                self.children(parent).len() == pre.children(parent).len() + (n - i),
                forall|p: int|
                    n - i <= p < self.children(parent).len() ==> #[trigger] self.children(
                        parent,
                    )[p] == pre.children(parent)[p - (n - i)],
                forall|p: int|
                    0 <= p < n - i ==> self.live(#[trigger] self.children(parent)[p])
                        && self.node_of(self.children(parent)[p]) == pre_other.node_of(
                        k_src[p + i],
                    ) && self.parent_of(self.children(parent)[p]) == Some(parent),
                forall|p: int|
                    0 <= p < n - i ==> iso_subtree(
                        *self,
                        #[trigger] self.children(parent)[p],
                        pre_other,
                        k_src[p + i],
                    ),
                forall|id: DOMNodeId| #[trigger] pre.live(id) ==> self.live(id),
                forall|id: DOMNodeId|
                    #[trigger] pre.live(id) && id.slot != parent.slot ==> self.children(id)
                        == pre.children(id),
                forall|id: DOMNodeId|
                    #[trigger] pre.live(id) ==> self.node_of(id) == pre.node_of(id)
                        && self.parent_of(id) == pre.parent_of(id),
                forall|s: int|
                    #[trigger] pre_other.live_slot(s) && (forall|j: int|
                        i <= j < n ==> !(#[trigger] pre_other.subtree_slots(
                            k_src[j].slot as int,
                        ).contains(s))) ==> other.entry_at(s).value == pre_other.entry_at(s).value,
            decreases i,
        {
            i = i - 1;
            let child = kids_vec[i];
            let ghost rs = pre_other.root.slot as int;
            let ghost cs = child.slot as int;
            proof {
                assert(pre_other.live_slot(rs));
                assert(pre_other.slot_ok(rs));
                assert(pre_other.child_link_ok(rs, i as int));
                assert(pre_other.live(child));
                assert(other.live(child));
                pre_other.lemma_subtree_step(rs, cs);
                assert(pre_other.subtree_slots(cs).contains(cs)) by {
                    assert(pre_other.chain_at(cs).is_prefix_of(pre_other.chain_at(cs)));
                }
                // this round's subtree has not been touched by earlier rounds
                assert forall|j: int|
                    i + 1 <= j < n implies !(#[trigger] pre_other.subtree_slots(
                        k_src[j].slot as int,
                    ).contains(cs)) by {
                    assert(pre_other.child_link_ok(rs, j));
                    assert(pre_other.live(k_src[j]));
                    assert(pre_other.live_slot(k_src[j].slot as int));
                    if k_src[j].slot == child.slot {
                        assert(k_src[j] == child);
                        assert(k_src[j] != k_src[i as int]);
                        assert(false);
                    }
                    pre_other.lemma_sibling_subtrees_disjoint(rs, k_src[j].slot as int, cs);
                }
                assert(other.entry_at(cs).value == pre_other.entry_at(cs).value);
                assert(other.node_of(child) == pre_other.node_of(child));
            }
            let ghost before = *self;
            let ghost before_other = other;
            self.copy_subtree_front(&mut other, child, parent);
            proof {
                assert(DOMTree::payload_shape_eq(pre_other, other)) by {
                    assert(other.arena.slots@.len() == pre_other.arena.slots@.len());
                    assert forall|s: int|
                        0 <= s < pre_other.arena.slots@.len() implies (
                        #[trigger] other.arena.slots@[s]).generation
                            == pre_other.arena.slots@[s].generation
                            && (other.arena.slots@[s].value is Some
                            <==> pre_other.arena.slots@[s].value is Some) && (
                        pre_other.arena.slots@[s].value is Some ==> other.entry_at(s).parent
                            == pre_other.entry_at(s).parent && other.entry_at(s).prev_sibling
                            == pre_other.entry_at(s).prev_sibling && other.entry_at(s).next_sibling
                            == pre_other.entry_at(s).next_sibling && other.entry_at(s).first_child
                            == pre_other.entry_at(s).first_child && other.entry_at(s).last_child
                            == pre_other.entry_at(s).last_child) by {
                        assert(before_other.arena.slots@[s].generation == pre_other.arena.slots@[
                            s].generation);
                    }
                }
                assert(before_other.node_of(child) == pre_other.node_of(child));
                // the unprocessed region of other is still untouched
                assert forall|s: int|
                    #[trigger] pre_other.live_slot(s) && (forall|j: int|
                        i <= j < n ==> !(#[trigger] pre_other.subtree_slots(
                            k_src[j].slot as int,
                        ).contains(s))) implies other.entry_at(s).value == pre_other.entry_at(
                    s,
                ).value by {
                    assert(!(pre_other.subtree_slots(k_src[i as int].slot as int).contains(s)));
                    assert(!pre_other.subtree_slots(cs).contains(s));
                    assert forall|j: int|
                        i + 1 <= j < n implies !(#[trigger] pre_other.subtree_slots(
                            k_src[j].slot as int,
                        ).contains(s)) by {}
                    assert(before_other.entry_at(s).value == pre_other.entry_at(s).value);
                    assert(before_other.live_slot(s));
                    assert(!before_other.subtree_slots(cs).contains(s)) by {
                        if before_other.subtree_slots(cs).contains(s) {
                            assert(before_other.live_slot(s) == pre_other.live_slot(s));
                            assert(before_other.chains@ == pre_other.chains@);
                            assert(pre_other.subtree_slots(cs).contains(s));
                        }
                    }
                    assert(before_other.arena.slots.len() == before_other.arena.slots@.len());
                    assert(before_other.id_at(s).slot as int == s);
                    assert(before_other.live(before_other.id_at(s)));
                    assert(other.node_of(before_other.id_at(s)) == before_other.node_of(
                        before_other.id_at(s),
                    ));
                    assert(other.entry_at(s).value == before_other.entry_at(s).value);
                }
                assert forall|id: DOMNodeId| #[trigger] pre.live(id) implies self.live(id) by {
                    assert(before.live(id));
                }
                assert forall|id: DOMNodeId|
                    #[trigger] pre.live(id) && id.slot != parent.slot implies self.children(id)
                    == pre.children(id) by {
                    assert(before.live(id));
                }
                assert forall|id: DOMNodeId|
                    #[trigger] pre.live(id) implies self.node_of(id) == pre.node_of(id)
                    && self.parent_of(id) == pre.parent_of(id) by {
                    assert(before.live(id));
                }
                // positions of the already spliced copies shift right by one
                assert forall|p: int|
                    0 <= p < n - i implies self.live(#[trigger] self.children(parent)[p])
                    && self.node_of(self.children(parent)[p]) == pre_other.node_of(k_src[p + i])
                    && self.parent_of(self.children(parent)[p]) == Some(parent) by {
                    if p > 0 {
                        assert(self.children(parent)[(p - 1) + 1] == before.children(
                            parent,
                        )[p - 1]);
                        assert(before.live(before.children(parent)[p - 1]));
                    } else {
                        assert(self.children(parent)[0] == self.children(parent)[0]);
                    }
                }
                // the fresh copy is an exact copy of the pristine source
                // subtree, and the earlier copies are still exact
                let c_new = self.children(parent)[0];
                assert(iso_subtree(*self, c_new, before_other, child));
                assert forall|s: int|
                    #[trigger] before_other.subtree_slots(cs).contains(s) implies pre_other.live_slot(
                    s,
                ) && pre_other.entry_at(s).value == before_other.entry_at(s).value
                    && pre_other.children_at(s) == before_other.children_at(s)
                    && pre_other.arena.slots@[s].generation
                    == before_other.arena.slots@[s].generation by {
                    assert(before_other.live_slot(s) == pre_other.live_slot(s));
                    assert(before_other.chains@ == pre_other.chains@);
                    assert(pre_other.subtree_slots(cs).contains(s));
                    assert forall|j2: int|
                        i + 1 <= j2 < n implies !(#[trigger] pre_other.subtree_slots(
                            k_src[j2].slot as int,
                        ).contains(s)) by {
                        assert(pre_other.live_slot(rs));
                        assert(pre_other.slot_ok(rs));
                        assert(pre_other.child_link_ok(rs, j2));
                        assert(pre_other.live(k_src[j2]));
                        assert(pre_other.live_slot(k_src[j2].slot as int));
                        if k_src[j2].slot == child.slot {
                            assert(k_src[j2] == child);
                            assert(k_src[j2] != k_src[i as int]);
                            assert(false);
                        }
                        pre_other.lemma_sibling_subtrees_disjoint(rs, k_src[j2].slot as int, cs);
                    }
                    assert(before_other.entry_at(s).value == pre_other.entry_at(s).value);
                }
                lemma_iso_transfer(*self, *self, c_new, before_other, pre_other, child);
                assert(iso_subtree(*self, c_new, pre_other, k_src[i as int]));
                assert forall|p: int|
                    0 <= p < n - i implies iso_subtree(
                        *self,
                        #[trigger] self.children(parent)[p],
                        pre_other,
                        k_src[p + i],
                    ) by {
                    if p > 0 {
                        assert(self.children(parent)[(p - 1) + 1] == before.children(
                            parent,
                        )[p - 1]);
                        let xj = before.children(parent)[p - 1];
                        assert(iso_subtree(before, xj, pre_other, k_src[(p - 1) + (i + 1)]));
                        assert(k_src[(p - 1) + (i + 1)] == k_src[p + i]);
                        assert(pre_other.live_slot(rs));
                        assert(pre_other.slot_ok(rs));
                        assert(pre_other.child_link_ok(rs, p + i));
                        assert(pre_other.live(k_src[p + i]));
                        assert(before.live_slot(parent.slot as int));
                        assert(before.slot_ok(parent.slot as int));
                        assert(before.child_link_ok(parent.slot as int, p - 1));
                        assert(before.live(xj));
                        assert(before.live_slot(xj.slot as int));
                        before.lemma_subtree_step(parent.slot as int, xj.slot as int);
                        assert forall|s: int|
                            #[trigger] before.subtree_slots(xj.slot as int).contains(
                                s,
                            ) implies self.live_slot(s) && self.entry_at(s).value
                            == before.entry_at(s).value && self.children_at(s)
                            == before.children_at(s) && self.arena.slots@[s].generation
                            == before.arena.slots@[s].generation by {
                            assert(before.live_slot(s));
                            assert(s != parent.slot as int);
                            assert(before.arena.slots.len() == before.arena.slots@.len());
                            assert(before.id_at(s).slot as int == s);
                            assert(before.live(before.id_at(s)));
                            assert(self.live(before.id_at(s)));
                            assert(self.node_of(before.id_at(s)) == before.node_of(
                                before.id_at(s),
                            ));
                            assert(self.children(before.id_at(s)) == before.children(
                                before.id_at(s),
                            ));
                        }
                        lemma_iso_transfer(before, *self, xj, pre_other, pre_other, k_src[p + i]);
                    }
                }
                assert forall|p: int|
                    n - i <= p < self.children(parent).len() implies #[trigger] self.children(
                        parent,
                    )[p] == pre.children(parent)[p - (n - i)] by {
                    assert(self.children(parent)[(p - 1) + 1] == before.children(parent)[p - 1]);
                }
            }
        }
        true
    }

    /// Mutable access to the root's payload; the root is always live.
    pub fn root_mut(&mut self) -> (r: &mut DOMNode)
        requires
            old(self).wf(),
        ensures
            *r == old(self).node_of(old(self).root),
            final(self).arena.slots@ == old(self).arena.slots@.update(
                old(self).root.slot as int,
                (Slot {
                    generation: old(self).root.generation,
                    value: Some(
                        (NodeEntry { value: *final(r), ..old(self).entry_of(old(self).root) }),
                    ),
                }),
            ),
            final(self).root == old(self).root,
            DOMTree::payload_shape_eq(*old(self), *final(self)),
            final(self).wf(),
    {
        let root = self.root;
        match self.get_mut(root) {
            Ok(node) => node,
            Err(_) => unreached(),
        }
    }

    /// Mutable access to the document node's payload: the root's first
    /// child, where one exists.
    pub fn document_mut(&mut self) -> (r: Result<&mut DOMNode, DOMError>)
        requires
            old(self).wf(),
        ensures
            r is Ok <==> old(self).children(old(self).root).len() > 0,
            r is Err ==> (r matches Err(e) && e == DOMError::NodeDeallocated) && *final(self)
                == *old(self),
            r is Ok ==> ({
                let doc = old(self).children(old(self).root)[0];
                &&& *r->Ok_0 == old(self).node_of(doc)
                &&& final(self).root == old(self).root
                &&& DOMTree::payload_shape_eq(*old(self), *final(self))
                &&& final(self).wf()
            }),
    {
        let root = self.root;
        let entry = match self.arena.try_get(root) {
            Some(e) => e,
            None => unreached(),
        };
        proof {
            assert(self.live_slot(root.slot as int));
            assert(self.slot_ok(root.slot as int));
            if self.children(self.root).len() > 0 {
                assert(self.child_link_ok(root.slot as int, 0));
            }
        }
        let doc = match entry.first_child {
            Some(doc) => doc,
            None => {
                return Err(DOMError::NodeDeallocated);
            },
        };
        match self.get_mut(doc) {
            Ok(node) => Ok(node),
            Err(_) => unreached(),
        }
    }

    /// Collects the identifiers of the whole subtree of `id`, the node
    /// itself first: each member of the subtree appears exactly once.  Each
    /// call walks the structure afresh.
    pub fn traverse_ids(&self, id: DOMNodeId) -> (r: Result<Vec<DOMNodeId>, DOMError>)
        requires
            self.wf(),
        ensures
            r is Ok <==> self.live(id),
            r is Err ==> (r matches Err(e) && e == DOMError::NodeDeallocated),
            r is Ok ==> ({
                let ids = r->Ok_0@;
                &&& ids == preorder(*self, id)
                &&& ids.len() >= 1
                &&& ids[0] == id
                &&& (forall|p: int|
                    0 <= p < ids.len() ==> self.live(#[trigger] ids[p]) && self.subtree_slots(
                        id.slot as int,
                    ).contains(ids[p].slot as int))
                &&& ids.no_duplicates()
                &&& (forall|id2: DOMNodeId|
                    #[trigger] self.live(id2) && self.subtree_slots(id.slot as int).contains(
                        id2.slot as int,
                    ) ==> ids.contains(id2))
            }),
    {
        if self.arena.try_get(id).is_none() {
            return Err(DOMError::NodeDeallocated);
        }
        Ok(self.traverse_collect(id))
    }

    /// Collects the identifiers of the strict descendants of `id`, leaving
    /// the node itself out.
    pub fn descendants_ids(&self, id: DOMNodeId) -> (r: Result<Vec<DOMNodeId>, DOMError>)
        requires
            self.wf(),
        ensures
            r is Ok <==> self.live(id),
            r is Err ==> (r matches Err(e) && e == DOMError::NodeDeallocated),
            r is Ok ==> ({
                let ids = r->Ok_0@;
                &&& ids == preorder(*self, id).drop_first()
                &&& (forall|p: int|
                    0 <= p < ids.len() ==> self.live(#[trigger] ids[p]) && self.subtree_slots(
                        id.slot as int,
                    ).contains(ids[p].slot as int) && ids[p] != id)
                &&& ids.no_duplicates()
                &&& (forall|id2: DOMNodeId|
                    #[trigger] self.live(id2) && self.subtree_slots(id.slot as int).contains(
                        id2.slot as int,
                    ) && id2 != id ==> ids.contains(id2))
            }),
    {
        let mut all = match self.traverse_ids(id) {
            Ok(v) => v,
            Err(e) => {
                return Err(e);
            },
        };
        let ghost pre_all = all@;
        let first = all.remove(0);
        proof {
            assert(first == id);
            assert(all@ == pre_all.remove(0));
            assert(all@ =~= pre_all.drop_first());
            assert forall|p: int| 0 <= p < all@.len() implies self.live(#[trigger] all@[p])
                && self.subtree_slots(id.slot as int).contains(all@[p].slot as int) && all@[p]
                != id by {
                assert(all@[p] == pre_all[p + 1]);
                assert(pre_all[p + 1] != pre_all[0]);
            }
            assert(all@.no_duplicates()) by {
                assert forall|p: int, q: int|
                    0 <= p < all@.len() && 0 <= q < all@.len() && p != q implies all@[p]
                    != all@[q] by {
                    assert(all@[p] == pre_all[p + 1]);
                    assert(all@[q] == pre_all[q + 1]);
                }
            }
            assert forall|id2: DOMNodeId|
                #[trigger] self.live(id2) && self.subtree_slots(id.slot as int).contains(
                    id2.slot as int,
                ) && id2 != id implies all@.contains(id2) by {
                let p = choose|p: int| 0 <= p < pre_all.len() && pre_all[p] == id2;
                assert(pre_all[p] == id2);
                assert(p != 0);
                assert(all@[p - 1] == pre_all[p]);
            }
        }
        Ok(all)
    }

    /// The depth-first walk behind `traverse_ids`.
    fn traverse_collect(&self, id: DOMNodeId) -> (r: Vec<DOMNodeId>)
        requires
            self.wf(),
            self.live(id),
        ensures
            r@ == preorder(*self, id),
            r@.len() >= 1,
            r@[0] == id,
            forall|p: int|
                0 <= p < r@.len() ==> self.live(#[trigger] r@[p]) && self.subtree_slots(
                    id.slot as int,
                ).contains(r@[p].slot as int),
            r@.no_duplicates(),
            forall|id2: DOMNodeId|
                #[trigger] self.live(id2) && self.subtree_slots(id.slot as int).contains(
                    id2.slot as int,
                ) ==> r@.contains(id2),
        decreases self.subtree_slots(id.slot as int).len(),
    {
        let ghost ids = id.slot as int;
        proof {
            assert(self.live_slot(ids));
            self.lemma_subtree_finite(ids);
            assert(self.subtree_slots(ids).contains(ids)) by {
                assert(self.chain_at(ids).is_prefix_of(self.chain_at(ids)));
            }
        }
        let mut out: Vec<DOMNodeId> = Vec::new();
        out.push(id);
        proof {
            assert(out@ =~= seq![id]);
            assert(preorder_upto(*self, id, 0) == seq![id]);
        }
        let kids_vec = match self.children_ids(id) {
            Ok(v) => v,
            Err(_) => unreached(),
        };
        let ghost k = self.children(id);
        let n = kids_vec.len();
        let mut i: usize = 0;
        while i < n
            invariant
                self.wf(),
                self.live(id),
                ids == id.slot as int,
                k == self.children(id),
                kids_vec@ == k,
                n == k.len(),
                0 <= i <= n,
                out@ == preorder_upto(*self, id, i as int),
                out@.len() >= 1,
                out@[0] == id,
                forall|p: int|
                    0 <= p < out@.len() ==> self.live(#[trigger] out@[p])
                        && self.subtree_slots(ids).contains(out@[p].slot as int),
                forall|p: int|
                    1 <= p < out@.len() ==> exists|j: int|
                        0 <= j < i && self.subtree_slots(
                            (#[trigger] out@[p]).slot as int,
                        ).contains(out@[p].slot as int) && self.subtree_slots(
                            k[j].slot as int,
                        ).contains(out@[p].slot as int),
                out@.no_duplicates(),
                forall|id2: DOMNodeId|
                    id2 == id || (exists|j: int|
                        0 <= j < i && #[trigger] self.subtree_slots(k[j].slot as int).contains(
                            id2.slot as int,
                        )) ==> self.live(id2) ==> out@.contains(id2),
            decreases n - i,
        {
            let child = kids_vec[i];
            let ghost cs = child.slot as int;
            proof {
                assert(self.live_slot(ids));
                assert(self.slot_ok(ids));
                assert(self.child_link_ok(ids, i as int));
                assert(self.live(child));
                assert(self.entry_at(cs).parent == Some(self.id_at(ids)));
                self.lemma_subtree_step(ids, cs);
            }
            let mut seg = self.traverse_collect(child);
            let ghost pre_out = out@;
            let ghost seg_view = seg@;
            out.append(&mut seg);
            proof {
                assert(out@ == pre_out + seg_view);
                // the gathered prefix plus this child's full listing is the
                // listing up to one more child
                assert(seg_view == preorder(*self, child));
                assert(preorder_upto(*self, id, i as int + 1) == preorder_upto(*self, id, i as int)
                    + preorder_upto(*self, child, self.children(child).len() as int));
                assert(out@ == preorder_upto(*self, id, i as int + 1));
                // every element of the new segment lies in this child's
                // subtree, hence in ours, and apart from everything gathered
                // so far
                assert forall|p: int|
                    0 <= p < out@.len() implies self.live(#[trigger] out@[p])
                    && self.subtree_slots(ids).contains(out@[p].slot as int) by {
                    if p < pre_out.len() {
                        assert(out@[p] == pre_out[p]);
                    } else {
                        assert(out@[p] == seg_view[p - pre_out.len()]);
                        assert(self.subtree_slots(cs).contains(out@[p].slot as int));
                        assert(self.live_slot(out@[p].slot as int));
                        self.lemma_subtree_closed_member(ids, cs, out@[p].slot as int);
                    }
                }
                assert forall|p: int|
                    1 <= p < out@.len() implies exists|j: int|
                        0 <= j < i + 1 && self.subtree_slots(
                            (#[trigger] out@[p]).slot as int,
                        ).contains(out@[p].slot as int) && self.subtree_slots(
                            k[j].slot as int,
                        ).contains(out@[p].slot as int) by {
                    if p < pre_out.len() {
                        assert(out@[p] == pre_out[p]);
                        let j = choose|j: int|
                            0 <= j < i && self.subtree_slots(pre_out[p].slot as int).contains(
                                pre_out[p].slot as int,
                            ) && self.subtree_slots(k[j].slot as int).contains(
                                pre_out[p].slot as int,
                            );
                        assert(0 <= j && j < i + 1);
                        assert(self.subtree_slots(out@[p].slot as int).contains(
                            out@[p].slot as int,
                        ));
                        assert(self.subtree_slots(k[j].slot as int).contains(
                            out@[p].slot as int,
                        ));
                    } else {
                        assert(out@[p] == seg_view[p - pre_out.len()]);
                        let s2 = out@[p].slot as int;
                        assert(self.subtree_slots(cs).contains(s2));
                        assert(self.live_slot(s2));
                        assert(self.subtree_slots(s2).contains(s2)) by {
                            assert(self.chain_at(s2).is_prefix_of(self.chain_at(s2)));
                        }
                        assert(0 <= i as int && (i as int) < i as int + 1);
                        assert(self.subtree_slots(s2).contains(s2));
                        assert(self.subtree_slots(k[i as int].slot as int).contains(s2));
                    }
                }
                // distinctness: earlier material and the new segment live in
                // disjoint slot regions
                assert(out@.no_duplicates()) by {
                    assert forall|p: int, q: int|
                        0 <= p < out@.len() && 0 <= q < out@.len() && p != q implies out@[p]
                        != out@[q] by {
                        let lo = if p < q {
                            p
                        } else {
                            q
                        };
                        let hi = if p < q {
                            q
                        } else {
                            p
                        };
                        if hi < pre_out.len() {
                            assert(out@[lo] == pre_out[lo] && out@[hi] == pre_out[hi]);
                        } else if lo >= pre_out.len() {
                            assert(out@[lo] == seg_view[lo - pre_out.len()]);
                            assert(out@[hi] == seg_view[hi - pre_out.len()]);
                        } else {
                            // one old, one new: their slots fall on the two
                            // sides of a disjointness argument
                            assert(out@[lo] == pre_out[lo]);
                            assert(out@[hi] == seg_view[hi - pre_out.len()]);
                            let s_new = out@[hi].slot as int;
                            assert(self.subtree_slots(cs).contains(s_new));
                            if lo == 0 {
                                assert(pre_out[0] == id);
                                assert(!self.subtree_slots(cs).contains(ids));
                                assert(out@[lo].slot as int == ids);
                            } else {
                                let j = choose|j: int|
                                    0 <= j < i && self.subtree_slots(
                                        pre_out[lo].slot as int,
                                    ).contains(pre_out[lo].slot as int) && self.subtree_slots(
                                        k[j].slot as int,
                                    ).contains(pre_out[lo].slot as int);
                                assert(self.child_link_ok(ids, j));
                                assert(self.live(k[j]));
                                assert(self.live_slot(k[j].slot as int));
                                if k[j].slot == child.slot {
                                    assert(k[j] == child);
                                    assert(k[j] != k[i as int]);
                                    assert(false);
                                }
                                self.lemma_sibling_subtrees_disjoint(
                                    ids,
                                    k[j].slot as int,
                                    cs,
                                );
                                assert(!self.subtree_slots(cs).contains(
                                    pre_out[lo].slot as int,
                                ));
                            }
                            if out@[lo] == out@[hi] {
                                assert(out@[lo].slot as int == s_new);
                            }
                        }
                    }
                }
                // completeness grows by this child's subtree
                assert forall|id2: DOMNodeId|
                    (id2 == id || (exists|j: int|
                        0 <= j < i + 1 && #[trigger] self.subtree_slots(
                            k[j].slot as int,
                        ).contains(id2.slot as int))) && self.live(id2) implies out@.contains(
                    id2,
                ) by {
                    if id2 == id {
                        assert(out@[0] == id);
                    } else {
                        let j = choose|j: int|
                            0 <= j < i + 1 && self.subtree_slots(k[j].slot as int).contains(
                                id2.slot as int,
                            );
                        if j < i {
                            assert(pre_out.contains(id2));
                            let p = choose|p: int|
                                0 <= p < pre_out.len() && pre_out[p] == id2;
                            assert(out@[p] == id2);
                        } else {
                            assert(self.subtree_slots(cs).contains(id2.slot as int));
                            assert(seg_view.contains(id2));
                            let p = choose|p: int|
                                0 <= p < seg_view.len() && seg_view[p] == id2;
                            assert(out@[pre_out.len() + p] == id2);
                        }
                    }
                }
            }
            i = i + 1;
        }
        proof {
            assert(out@ == preorder(*self, id));
            // at the end the gathered set covers the whole subtree
            assert forall|id2: DOMNodeId|
                #[trigger] self.live(id2) && self.subtree_slots(ids).contains(
                    id2.slot as int,
                ) implies out@.contains(id2) by {
                let s2 = id2.slot as int;
                assert(self.live_slot(s2));
                if s2 == ids {
                    assert(self.live(self.id_at(ids)));
                    assert(id2 == self.id_at(ids));
                    assert(self.arena.slots.len() == self.arena.slots@.len());
                    assert(id == self.id_at(ids));
                    assert(out@[0] == id);
                } else {
                    self.lemma_subtree_branch(ids, s2);
                    let b = self.chain_at(s2)[self.chain_at(ids).len() as int];
                    assert(self.live_slot(b));
                    assert(self.arena.slots.len() == self.arena.slots@.len());
                    assert(self.id_at(b).slot as int == b);
                    assert(self.children_at(ids).contains(self.id_at(b)));
                    let j = choose|j: int| 0 <= j < k.len() && k[j] == self.id_at(b);
                    assert(k[j].slot as int == b);
                    assert(self.subtree_slots(k[j].slot as int).contains(s2));
                }
            }
        }
        out
    }

    /// A slot of a subtree of a child lies in the parent's subtree too.
    proof fn lemma_subtree_closed_member(self, a: int, c: int, s: int)
        requires
            self.wf(),
            self.live_slot(a),
            self.live_slot(c),
            self.live_slot(s),
            self.entry_at(c).parent == Some(self.id_at(a)),
            self.subtree_slots(c).contains(s),
        ensures
            self.subtree_slots(a).contains(s),
    {
        assert(self.slot_ok(c));
        assert(self.arena.slots.len() == self.arena.slots@.len());
        assert(self.id_at(a).slot as int == a);
        assert(self.chain_at(c) == self.chain_at(a).push(c));
        assert(self.chain_at(c).is_prefix_of(self.chain_at(s)));
        assert forall|x: int|
            0 <= x < self.chain_at(a).len() implies self.chain_at(a)[x] == self.chain_at(
            s,
        )[x] by {
            assert(self.chain_at(a)[x] == self.chain_at(c)[x]);
            assert(self.chain_at(c)[x] == self.chain_at(s)[x]);
        }
        assert(self.chain_at(a).is_prefix_of(self.chain_at(s)));
    }

    /// The entry of a live node.
    pub fn get_entry(&self, id: DOMNodeId) -> (r: Result<&NodeEntry, DOMError>)
        ensures
            r is Ok <==> self.live(id),
            r is Err ==> r == Err::<&NodeEntry, DOMError>(DOMError::NodeDeallocated),
            r is Ok ==> *r->Ok_0 == self.entry_of(id),
    {
        match self.arena.try_get(id) {
            Some(entry) => Ok(entry),
            None => Err(DOMError::NodeDeallocated),
        }
    }

    /// The payload of a live node; `NodeDeallocated` when `id` is stale.
    pub fn get_value(&self, id: DOMNodeId) -> (r: Result<&DOMNode, DOMError>)
        ensures
            r is Ok <==> self.live(id),
            r is Err ==> r == Err::<&DOMNode, DOMError>(DOMError::NodeDeallocated),
            r is Ok ==> *r->Ok_0 == self.node_of(id),
    {
        match self.arena.try_get(id) {
            Some(entry) => Ok(&entry.value),
            None => Err(DOMError::NodeDeallocated),
        }
    }
}

/// The depth-first pre-order listing of the node in front of the subtrees
/// of its first `j` children, each child's subtree in full, in sibling
/// order.
pub open spec fn preorder_upto(t: DOMTree, id: DOMNodeId, j: int) -> Seq<DOMNodeId>
    decreases t.subtree_slots(id.slot as int).len(), j,
        when t.wf() && t.live(id) && 0 <= j <= t.children(id).len()
        via preorder_upto_decreases
{
    if j <= 0 {
        seq![id]
    } else {
        preorder_upto(t, id, j - 1) + preorder_upto(
            t,
            t.children(id)[j - 1],
            t.children(t.children(id)[j - 1]).len() as int,
        )
    }
}

#[via_fn]
proof fn preorder_upto_decreases(t: DOMTree, id: DOMNodeId, j: int) {
    if j > 0 {
        assert(t.live_slot(id.slot as int));
        assert(t.slot_ok(id.slot as int));
        assert(t.child_link_ok(id.slot as int, j - 1));
        let c = t.children(id)[j - 1];
        assert(t.live(c));
        assert(t.live_slot(c.slot as int));
        t.lemma_subtree_step(id.slot as int, c.slot as int);
    }
}

/// The depth-first pre-order listing of the whole subtree of `id`: the node
/// first, then each child's subtree in full, in sibling order.
pub open spec fn preorder(t: DOMTree, id: DOMNodeId) -> Seq<DOMNodeId> {
    preorder_upto(t, id, t.children(id).len() as int)
}

/// The first `j` child pairs of `x` (in `t`) and `y` (in `src`) carry
/// exact copies: pairwise equal payloads, equal child counts, and so on all
/// the way down, in sibling order.
pub open spec fn iso_children_upto(
    t: DOMTree,
    x: DOMNodeId,
    src: DOMTree,
    y: DOMNodeId,
    j: int,
) -> bool
    decreases src.subtree_slots(y.slot as int).len(), j,
        when src.wf() && src.live(y) && j <= src.children(y).len()
        via iso_children_upto_decreases
{
    if j <= 0 {
        true
    } else {
        let yj = src.children(y)[j - 1];
        let xj = t.children(x)[j - 1];
        &&& iso_children_upto(t, x, src, y, j - 1)
        &&& t.live(xj)
        &&& t.node_of(xj) == src.node_of(yj)
        &&& t.children(xj).len() == src.children(yj).len()
        &&& iso_children_upto(t, xj, src, yj, src.children(yj).len() as int)
    }
}

#[via_fn]
proof fn iso_children_upto_decreases(t: DOMTree, x: DOMNodeId, src: DOMTree, y: DOMNodeId, j: int) {
    if j > 0 {
        assert(src.live_slot(y.slot as int));
        assert(src.slot_ok(y.slot as int));
        assert(src.child_link_ok(y.slot as int, j - 1));
        let c = src.children(y)[j - 1];
        assert(src.live(c));
        assert(src.live_slot(c.slot as int));
        src.lemma_subtree_step(y.slot as int, c.slot as int);
    }
}

/// The subtree of `x` in `t` is an exact structural copy of the subtree of
/// `y` in `src`: same payload, as many children, and each child's subtree a
/// copy of the corresponding one, in order, all the way down.
pub open spec fn iso_subtree(t: DOMTree, x: DOMNodeId, src: DOMTree, y: DOMNodeId) -> bool {
    &&& t.live(x)
    &&& t.node_of(x) == src.node_of(y)
    &&& t.children(x).len() == src.children(y).len()
    &&& iso_children_upto(t, x, src, y, src.children(y).len() as int)
}

/// An exact copy stays exact across further edits, as long as both sides
/// keep the subtrees in question: the destination keeps liveness, payloads
/// and child lists over the copy's subtree, and the source keeps them over
/// the original's.
pub proof fn lemma_iso_transfer(
    t1: DOMTree,
    t2: DOMTree,
    x: DOMNodeId,
    src1: DOMTree,
    src2: DOMTree,
    y: DOMNodeId,
)
    requires
        t1.wf(),
        src1.wf(),
        src1.live(y),
        src2.wf(),
        iso_subtree(t1, x, src1, y),
        forall|s: int|
            #[trigger] src1.subtree_slots(y.slot as int).contains(s) ==> src2.live_slot(s)
                && src2.entry_at(s).value == src1.entry_at(s).value && src2.children_at(s)
                == src1.children_at(s) && src2.arena.slots@[s].generation
                == src1.arena.slots@[s].generation,
        forall|s: int|
            #[trigger] t1.subtree_slots(x.slot as int).contains(s) ==> t2.live_slot(s)
                && t2.entry_at(s).value == t1.entry_at(s).value && t2.children_at(s)
                == t1.children_at(s) && t2.arena.slots@[s].generation
                == t1.arena.slots@[s].generation,
    ensures
        iso_subtree(t2, x, src2, y),
{
    let ys = y.slot as int;
    let xs = x.slot as int;
    assert(src1.live_slot(ys));
    assert(t1.live(x));
    assert(t1.live_slot(xs));
    assert(src1.subtree_slots(ys).contains(ys)) by {
        assert(src1.chain_at(ys).is_prefix_of(src1.chain_at(ys)));
    }
    assert(t1.subtree_slots(xs).contains(xs)) by {
        assert(t1.chain_at(xs).is_prefix_of(t1.chain_at(xs)));
    }
    assert(src2.live(y)) by {
        assert(src2.live_slot(ys));
        assert(src2.arena.slots@[ys].generation == src1.arena.slots@[ys].generation);
    }
    assert(t2.live(x)) by {
        assert(t2.live_slot(xs));
        assert(t2.arena.slots@[xs].generation == t1.arena.slots@[xs].generation);
    }
    assert(t2.node_of(x) == src2.node_of(y));
    assert(t2.children(x) == t1.children(x));
    assert(src2.children(y) == src1.children(y));
    lemma_iso_children_transfer(t1, t2, x, src1, src2, y, src1.children(y).len() as int);
}

/// The staged form of [`lemma_iso_transfer`], over the first `j` children.
proof fn lemma_iso_children_transfer(
    t1: DOMTree,
    t2: DOMTree,
    x: DOMNodeId,
    src1: DOMTree,
    src2: DOMTree,
    y: DOMNodeId,
    j: int,
)
    requires
        t1.wf(),
        src1.wf(),
        src1.live(y),
        src2.wf(),
        src2.live(y),
        t1.live(x),
        j <= src1.children(y).len(),
        t1.children(x).len() == src1.children(y).len(),
        src2.children(y) == src1.children(y),
        t2.children(x) == t1.children(x),
        iso_children_upto(t1, x, src1, y, j),
        forall|s: int|
            #[trigger] src1.subtree_slots(y.slot as int).contains(s) ==> src2.live_slot(s)
                && src2.entry_at(s).value == src1.entry_at(s).value && src2.children_at(s)
                == src1.children_at(s) && src2.arena.slots@[s].generation
                == src1.arena.slots@[s].generation,
        forall|s: int|
            #[trigger] t1.subtree_slots(x.slot as int).contains(s) ==> t2.live_slot(s)
                && t2.entry_at(s).value == t1.entry_at(s).value && t2.children_at(s)
                == t1.children_at(s) && t2.arena.slots@[s].generation
                == t1.arena.slots@[s].generation,
    ensures
        iso_children_upto(t2, x, src2, y, j),
    decreases src1.subtree_slots(y.slot as int).len(), j,
{
    if j > 0 {
        let ys = y.slot as int;
        let xs = x.slot as int;
        lemma_iso_children_transfer(t1, t2, x, src1, src2, y, j - 1);
        let yj = src1.children(y)[j - 1];
        let xj = t1.children(x)[j - 1];
        assert(src1.live_slot(ys));
        assert(src1.slot_ok(ys));
        assert(src1.child_link_ok(ys, j - 1));
        assert(src1.live(yj));
        assert(src1.live_slot(yj.slot as int));
        src1.lemma_subtree_step(ys, yj.slot as int);
        assert(src1.subtree_slots(yj.slot as int).contains(yj.slot as int)) by {
            assert(src1.chain_at(yj.slot as int).is_prefix_of(src1.chain_at(yj.slot as int)));
        }
        assert(src1.subtree_slots(ys).contains(yj.slot as int));
        assert(t1.live(xj));
        assert(t1.node_of(xj) == src1.node_of(yj));
        assert(t1.children(xj).len() == src1.children(yj).len());
        assert(iso_children_upto(t1, xj, src1, yj, src1.children(yj).len() as int));
        assert(t1.live_slot(xs));
        assert(t1.slot_ok(xs));
        assert(0 <= j - 1 < t1.children(x).len());
        assert(t1.child_link_ok(xs, j - 1));
        assert(t1.live(xj));
        assert(t1.live_slot(xj.slot as int));
        t1.lemma_subtree_step(xs, xj.slot as int);
        assert(t1.subtree_slots(xj.slot as int).contains(xj.slot as int)) by {
            assert(t1.chain_at(xj.slot as int).is_prefix_of(t1.chain_at(xj.slot as int)));
        }
        assert(t1.subtree_slots(xs).contains(xj.slot as int));
        assert(src2.live(yj)) by {
            assert(src2.arena.slots@[yj.slot as int].generation == src1.arena.slots@[yj.slot
                as int].generation);
        }
        assert(t2.live(xj)) by {
            assert(t2.arena.slots@[xj.slot as int].generation == t1.arena.slots@[xj.slot
                as int].generation);
        }
        assert(t2.node_of(xj) == t1.node_of(xj));
        assert(src2.node_of(yj) == src1.node_of(yj));
        assert(t2.children(xj) == t1.children(xj));
        assert(src2.children(yj) == src1.children(yj));
        // the frames pass down to the child subtrees
        assert forall|s: int|
            #[trigger] src1.subtree_slots(yj.slot as int).contains(s) implies src2.live_slot(s)
            && src2.entry_at(s).value == src1.entry_at(s).value && src2.children_at(s)
            == src1.children_at(s) && src2.arena.slots@[s].generation
            == src1.arena.slots@[s].generation by {
            assert(src1.subtree_slots(ys).contains(s));
        }
        assert forall|s: int|
            #[trigger] t1.subtree_slots(xj.slot as int).contains(s) implies t2.live_slot(s)
            && t2.entry_at(s).value == t1.entry_at(s).value && t2.children_at(s)
            == t1.children_at(s) && t2.arena.slots@[s].generation
            == t1.arena.slots@[s].generation by {
            assert(t1.subtree_slots(xs).contains(s));
        }
        lemma_iso_children_transfer(
            t1,
            t2,
            xj,
            src1,
            src2,
            yj,
            src1.children(yj).len() as int,
        );
        assert(t2.children(x)[j - 1] == xj);
        assert(src2.children(y)[j - 1] == yj);
    }
}

/// Pairwise copies of the first `j` children fold into the staged
/// isomorphism.
pub proof fn lemma_iso_children_fold(
    t: DOMTree,
    x: DOMNodeId,
    src: DOMTree,
    y: DOMNodeId,
    j: int,
)
    requires
        src.wf(),
        src.live(y),
        j <= src.children(y).len(),
        forall|p: int|
            0 <= p < j ==> iso_subtree(t, t.children(x)[p], src, #[trigger] src.children(y)[p]),
    ensures
        iso_children_upto(t, x, src, y, j),
    decreases j,
{
    if j > 0 {
        lemma_iso_children_fold(t, x, src, y, j - 1);
        assert(src.live_slot(y.slot as int));
        assert(src.slot_ok(y.slot as int));
        assert(src.child_link_ok(y.slot as int, j - 1));
        assert(src.live(src.children(y)[j - 1]));
        assert(iso_subtree(t, t.children(x)[j - 1], src, src.children(y)[j - 1]));
    }
}

impl Default for DOMTree {
    /// A tree holding exactly its fragment root.
    fn default() -> (r: DOMTree)
        ensures
            r.is_empty_tree(),
    {
        let mut arena: Arena<NodeEntry> = Arena::new();
        let entry = NodeEntry {
            parent: None,
            prev_sibling: None,
            next_sibling: None,
            first_child: None,
            last_child: None,
            value: DOMNode::default(),
        };
        let ghost empty_arena = arena;
        let root = arena.allocate(entry);
        let tree = DOMTree {
            arena,
            root,
            kids: Ghost(Map::empty().insert(root.slot as int, Seq::empty())),
            chains: Ghost(Map::empty().insert(root.slot as int, seq![root.slot as int])),
        };
        proof {
            assert forall|s: int| #[trigger] tree.live_slot(s) implies tree.slot_ok(s) by {
                assert(s == root.slot as int);
                assert(tree.children_at(s).len() == 0);
            }
            assert forall|id: DOMNodeId| #[trigger] tree.live(id) implies id == root by {
                assert(empty_arena.n_slots() == 0);
            }
            assert(tree.children(tree.root) =~= Seq::<DOMNodeId>::empty());
        }
        tree
    }
}

} // verus!
