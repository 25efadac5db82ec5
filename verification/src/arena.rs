use vstd::prelude::*;

verus! {

use crate::DOMError;

/// A generational identifier into an [`Arena`]: a slot index paired with the
/// generation the slot had when the value was stored.  An `Id` resolves only
/// while the slot still carries the same generation; deallocation bumps the
/// slot's generation, so every previously issued `Id` for that slot becomes
/// permanently stale and lookups with it fail instead of aliasing a new value.
#[derive(Clone, Copy, Debug, PartialEq, Eq, Hash, Structural)]
pub struct Id {
    pub slot: usize,
    pub generation: u64,
}

/// One storage cell of an [`Arena`]: the current generation stamp and the
/// stored value, if the cell is currently occupied.
pub struct Slot<V> {
    pub generation: u64,
    pub value: Option<V>,
}

/// A growable store of values addressed by generational identifiers.
///
/// Freed slots are kept on a free list and reused by later allocations, each
/// reuse under a strictly larger generation.  The ghost field `issued` records
/// every identifier this arena has ever handed out; it lets callers conclude
/// that a fresh identifier can never collide with one they already hold.
///
/// The fields are public so that specifications can speak about them; callers
/// are expected to mutate an arena only through its methods, which preserve
/// [`Arena::wf`].
pub struct Arena<V> {
    pub slots: Vec<Slot<V>>,
    pub free: Vec<usize>,
    pub issued: Ghost<Set<Id>>,
}

impl<V> Arena<V> {
    /// Number of slots ever created (occupied or free).
    pub open spec fn n_slots(self) -> int {
        self.slots@.len() as int
    }

    /// The identifier `id` currently resolves to a stored value.
    pub open spec fn live(self, id: Id) -> bool {
        &&& (id.slot as int) < self.slots@.len()
        &&& self.slots@[id.slot as int].generation == id.generation
        &&& self.slots@[id.slot as int].value is Some
    }

    /// The value stored under a live identifier.
    pub open spec fn value_of(self, id: Id) -> V {
        self.slots@[id.slot as int].value->0
    }

    /// Every identifier this arena has ever returned from `allocate`.
    pub open spec fn issued_ids(self) -> Set<Id> {
        self.issued@
    }

    /// Internal consistency: free-list entries are empty distinct slots, every
    /// issued identifier is bounded by its slot's current generation, and a
    /// slot on the free list has outlived every identifier issued for it.
    pub open spec fn wf(self) -> bool {
        &&& forall|i: int|
            0 <= i < self.free@.len() ==> (#[trigger] self.free@[i] as int) < self.slots@.len()
                && self.slots@[self.free@[i] as int].value is None
        &&& forall|i: int, j: int|
            0 <= i < self.free@.len() && 0 <= j < self.free@.len() && i != j
                ==> #[trigger] self.free@[i] != #[trigger] self.free@[j]
        &&& forall|id: Id|
            #[trigger] self.issued@.contains(id) ==> (id.slot as int) < self.slots@.len()
                && id.generation <= self.slots@[id.slot as int].generation
        &&& forall|id: Id| #[trigger] self.live(id) ==> self.issued@.contains(id)
        &&& forall|i: int, id: Id|
            0 <= i < self.free@.len() && #[trigger] self.issued@.contains(id)
                && id.slot == #[trigger] self.free@[i]
                ==> id.generation < self.slots@[self.free@[i] as int].generation
    }

    /// Changing only stored values - never a generation, the free list, the
    /// issued set, or which slots are occupied - keeps an arena well-formed.
    pub proof fn lemma_wf_value_change(pre: Arena<V>, post: Arena<V>)
        requires
            pre.wf(),
            post.free@ == pre.free@,
            post.issued@ == pre.issued@,
            post.slots@.len() == pre.slots@.len(),
            forall|s: int|
                0 <= s < pre.slots@.len() ==> (#[trigger] post.slots@[s]).generation
                    == pre.slots@[s].generation && (post.slots@[s].value is Some
                    <==> pre.slots@[s].value is Some),
        ensures
            post.wf(),
    {
        assert forall|i: int|
            0 <= i < post.free@.len() implies (#[trigger] post.free@[i] as int)
            < post.slots@.len() && post.slots@[post.free@[i] as int].value is None by {
            assert(pre.free@[i] == post.free@[i]);
            assert(pre.slots@[pre.free@[i] as int].value is None);
        }
        assert forall|id: Id|
            #[trigger] post.issued@.contains(id) implies (id.slot as int) < post.slots@.len()
            && id.generation <= post.slots@[id.slot as int].generation by {
            assert(pre.issued@.contains(id));
        }
        assert forall|id: Id| #[trigger] post.live(id) implies post.issued@.contains(id) by {
            assert(pre.live(id));
        }
        assert forall|i: int, id: Id|
            0 <= i < post.free@.len() && #[trigger] post.issued@.contains(id) && id.slot
                == #[trigger] post.free@[i] implies id.generation < post.slots@[post.free@[i]
            as int].generation by {
            assert(pre.free@[i] == post.free@[i]);
            assert(pre.issued@.contains(id));
        }
    }

    /// Law: a deallocated identifier never resolves again.  `dealloc` leaves
    /// the identifier dead, and any later allocation - `fresh` here standing
    /// for its result, with the facts `allocate` ensures - returns an
    /// identifier never issued before and leaves every other identifier's
    /// liveness as it was.  So an identifier that was issued and then
    /// deallocated is dead forever, in particular after its slot is reused.
    pub proof fn lemma_stale_id_stays_dead(pre: Arena<V>, post: Arena<V>, fresh: Id, dead: Id)
        requires
            pre.issued_ids().contains(dead),
            !pre.live(dead),
            !pre.issued_ids().contains(fresh),
            forall|id: Id| id != fresh ==> (#[trigger] post.live(id) <==> pre.live(id)),
        ensures
            fresh != dead,
            !post.live(dead),
    {
    }

    /// Creates an empty arena.
    pub fn new() -> (r: Arena<V>)
        ensures
            r.wf(),
            r.n_slots() == 0,
            forall|id: Id| !(#[trigger] r.live(id)),
            r.issued_ids() == Set::<Id>::empty(),
    {
        Arena { slots: Vec::new(), free: Vec::new(), issued: Ghost(Set::empty()) }
    }

    /// Stores `v` in a free or newly extended slot and returns an identifier
    /// stamped with the slot's current generation.  The identifier is fresh:
    /// it was never issued before, and every previously live identifier is
    /// untouched and keeps its value.
    pub fn allocate(&mut self, v: V) -> (r: Id)
        requires
            old(self).wf(),
        ensures
            final(self).wf(),
            final(self).live(r),
            final(self).value_of(r) == v,
            !old(self).issued_ids().contains(r),
            final(self).issued_ids() == old(self).issued_ids().insert(r),
            forall|id: Id| id != r ==> (#[trigger] final(self).live(id) <==> old(self).live(id)),
            forall|id: Id|
                #[trigger] old(self).live(id) ==> final(self).live(id) && final(self).value_of(id)
                    == old(self).value_of(id),
            old(self).n_slots() <= final(self).n_slots() <= old(self).n_slots() + 1,
            forall|s: int|
                0 <= s < final(self).n_slots() && s != r.slot as int ==> 0 <= s < old(
                    self,
                ).n_slots() && final(self).slots@[s] == old(self).slots@[s],
            final(self).slots@[r.slot as int].generation == old(self).slots@[r.slot as int].generation
                || r.slot as int == old(self).n_slots(),
            r.slot as int == old(self).n_slots() || old(self).slots@[r.slot as int].value is None,
    {
        let ghost pre = *self;
        let popped = self.free.pop();
        match popped {
            Some(s) => {
                let generation = self.slots[s].generation;
                let r = Id { slot: s, generation };
                let slot_ref = &mut self.slots[s];
                slot_ref.value = Some(v);
                proof {
                    self.issued@ = pre.issued@.insert(r);
                    assert forall|id: Id| id != r implies (#[trigger] self.live(id) <==> pre.live(
                        id,
                    )) by {
                        if id.slot == r.slot {
                            assert(pre.free@[pre.free@.len() - 1] == s);
                        }
                    }
                    assert(!pre.issued@.contains(r)) by {
                        if pre.issued@.contains(r) {
                            assert(pre.free@[pre.free@.len() - 1] == s);
                        }
                    }
                    assert forall|i: int, id: Id|
                        0 <= i < self.free@.len() && #[trigger] self.issued@.contains(id)
                            && id.slot == #[trigger] self.free@[i] implies id.generation
                        < self.slots@[self.free@[i] as int].generation by {
                        assert(pre.free@[i] == self.free@[i]);
                        assert(self.free@[i] != s);
                    }
                }
                r
            },
            None => {
                let s = self.slots.len();
                let r = Id { slot: s, generation: 0 };
                self.slots.push(Slot { generation: 0, value: Some(v) });
                proof {
                    self.issued@ = pre.issued@.insert(r);
                    assert forall|id: Id| id != r implies (#[trigger] self.live(id) <==> pre.live(
                        id,
                    )) by {}
                }
                r
            },
        }
    }

    /// Looks up `id`, returning `None` when the slot was freed or reused.
    pub fn try_get(&self, id: Id) -> (r: Option<&V>)
        ensures
            r is Some <==> self.live(id),
            r is Some ==> *r->0 == self.value_of(id),
    {
        if id.slot < self.slots.len() {
            let slot_ref = &self.slots[id.slot];
            if slot_ref.generation == id.generation {
                slot_ref.value.as_ref()
            } else {
                None
            }
        } else {
            None
        }
    }

    /// Mutable lookup; `None` when the identifier is stale, and otherwise a
    /// reference through which only the stored value - never the slot's
    /// generation bookkeeping - can change.
    pub fn try_get_mut(&mut self, id: Id) -> (r: Option<&mut V>)
        ensures
            r is Some <==> old(self).live(id),
            r is None ==> *final(self) == *old(self),
            r is Some ==> *r.unwrap() == old(self).value_of(id) && final(self).slots@ == old(
                self,
            ).slots@.update(
                id.slot as int,
                Slot { generation: id.generation, value: Some(*final(r.unwrap())) },
            ) && final(self).free@ == old(self).free@ && final(self).issued@ == old(self).issued@,
    {
        if id.slot < self.slots.len() && self.slots[id.slot].generation == id.generation
            && self.slots[id.slot].value.is_some() {
            let slot_ref = &mut self.slots[id.slot];
            slot_ref.value.as_mut()
        } else {
            None
        }
    }

    /// Frees the slot named by `id`: the value is dropped, the generation is
    /// bumped so `id` (and every other identifier issued for this slot) is
    /// dead forever, and the slot rejoins the free list for reuse.  Returns
    /// `false`, changing nothing, when `id` is already invalid.  A slot whose
    /// generation counter is exhausted is retired instead of reused.
    pub fn dealloc(&mut self, id: Id) -> (r: bool)
        requires
            old(self).wf(),
        ensures
            final(self).wf(),
            r <==> old(self).live(id),
            !r ==> *final(self) == *old(self),
            !final(self).live(id),
            forall|id2: Id|
                id2 != id ==> (#[trigger] final(self).live(id2) <==> old(self).live(id2)),
            forall|id2: Id|
                id2 != id && #[trigger] old(self).live(id2) ==> final(self).value_of(id2) == old(
                    self,
                ).value_of(id2),
            final(self).issued_ids() == old(self).issued_ids(),
            final(self).n_slots() == old(self).n_slots(),
    {
        let ghost pre = *self;
        if id.slot < self.slots.len() && self.slots[id.slot].generation == id.generation
            && self.slots[id.slot].value.is_some() {
            let slot_ref = &mut self.slots[id.slot];
            slot_ref.value = None;
            let exhausted = slot_ref.generation == u64::MAX;
            if !exhausted {
                slot_ref.generation = slot_ref.generation + 1;
                self.free.push(id.slot);
            }
            proof {
                assert forall|i: int|
                    0 <= i < self.free@.len() implies (#[trigger] self.free@[i] as int)
                    < self.slots@.len() && self.slots@[self.free@[i] as int].value is None by {
                    if i < pre.free@.len() {
                        assert(pre.free@[i] == self.free@[i]);
                    } else {
                        assert(self.free@[i] == id.slot);
                    }
                }
                assert forall|i: int, j: int|
                    0 <= i < self.free@.len() && 0 <= j < self.free@.len() && i
                        != j implies #[trigger] self.free@[i] != #[trigger] self.free@[j] by {
                    if i < pre.free@.len() && j < pre.free@.len() {
                    } else if i < pre.free@.len() {
                        assert(self.free@[j] == id.slot);
                        assert(pre.slots@[pre.free@[i] as int].value is None);
                    } else {
                        assert(self.free@[i] == id.slot);
                        assert(pre.slots@[pre.free@[j] as int].value is None);
                    }
                }
                assert forall|id2: Id|
                    id2 != id implies (#[trigger] self.live(id2) <==> pre.live(id2)) by {}
                assert forall|i: int, id2: Id|
                    0 <= i < self.free@.len() && #[trigger] self.issued@.contains(id2)
                        && id2.slot == #[trigger] self.free@[i] implies id2.generation
                    < self.slots@[self.free@[i] as int].generation by {
                    if i < pre.free@.len() {
                        assert(pre.free@[i] == self.free@[i]);
                        assert(pre.free@[i] != id.slot);
                    } else {
                        assert(self.free@[i] == id.slot);
                    }
                }
            }
            true
        } else {
            false
        }
    }

    /// Checked simultaneous mutable access to two distinct slots, the one
    /// operation that lets a caller rewire two stored values against each
    /// other.  Requesting the same identifier twice fails with
    /// [`DOMError::SameNodeAlias`]; a stale identifier fails with
    /// [`DOMError::NodeDeallocated`].
    pub fn get_pair(&mut self, ids: (Id, Id)) -> (r: Result<(&mut V, &mut V), DOMError>)
        ensures
            r is Ok <==> ids.0 != ids.1 && old(self).live(ids.0) && old(self).live(ids.1),
            ids.0 == ids.1 ==> r == Err::<(&mut V, &mut V), DOMError>(DOMError::SameNodeAlias),
            ids.0 != ids.1 && !(old(self).live(ids.0) && old(self).live(ids.1)) ==> r == Err::<
                (&mut V, &mut V),
                DOMError,
            >(DOMError::NodeDeallocated),
            r is Err ==> *final(self) == *old(self),
            r is Ok ==> {
                let (a, b) = r->Ok_0;
                &&& *a == old(self).value_of(ids.0)
                &&& *b == old(self).value_of(ids.1)
                &&& final(self).slots@ == old(self).slots@.update(
                    ids.0.slot as int,
                    Slot { generation: ids.0.generation, value: Some(*final(a)) },
                ).update(
                    ids.1.slot as int,
                    Slot { generation: ids.1.generation, value: Some(*final(b)) },
                )
                &&& final(self).free@ == old(self).free@
                &&& final(self).issued@ == old(self).issued@
            },
    {
        let (id_a, id_b) = ids;
        if id_a.slot == id_b.slot && id_a.generation == id_b.generation {
            return Err(DOMError::SameNodeAlias);
        }
        let alive_a = id_a.slot < self.slots.len() && self.slots[id_a.slot].generation
            == id_a.generation && self.slots[id_a.slot].value.is_some();
        let alive_b = id_b.slot < self.slots.len() && self.slots[id_b.slot].generation
            == id_b.generation && self.slots[id_b.slot].value.is_some();
        if !alive_a || !alive_b {
            return Err(DOMError::NodeDeallocated);
        }
        let (lo, hi, swapped) = if id_a.slot < id_b.slot {
            (id_a.slot, id_b.slot, false)
        } else {
            (id_b.slot, id_a.slot, true)
        };
        let (front, back) = self.slots.split_at_mut(hi);
        let slot_lo = &mut front[lo];
        let slot_hi = &mut back[0];
        let v_lo = match &mut slot_lo.value {
            Some(v) => v,
            None => unreached(),
        };
        let v_hi = match &mut slot_hi.value {
            Some(v) => v,
            None => unreached(),
        };
        if swapped {
            Ok((v_hi, v_lo))
        } else {
            Ok((v_lo, v_hi))
        }
    }
}

} // verus!
