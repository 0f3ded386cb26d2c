//! Generation-checked handle allocator for entity identity.
//!
//! Entities are identified by a slot index paired with the generation the slot
//! had when the entity was spawned. Despawning advances the slot's generation,
//! so a handle kept across a despawn stops matching and never resolves to live
//! data again.

use vstd::prelude::*;

verus! {

/// Handle for one entity: a slot index together with the slot's generation at
/// spawn time.
#[derive(Clone, Copy, PartialEq, Eq, Structural, Debug, Hash)]
pub struct EntityId {
    pub index: u64,
    pub generation: u64,
}

/// One slot of the entity table: the generation it is currently at, and
/// whether an entity currently occupies it.
#[derive(Clone, Copy, PartialEq, Eq, Structural, Debug)]
pub struct Slot {
    pub generation: u64,
    pub live: bool,
}

/// The entity slot table: allocates and invalidates entity handles.
///
/// `free` lists the indices of dead slots available for reuse. A slot whose
/// generation has reached `u64::MAX` is retired: it is never put back on the
/// free list, so a handle to it can never be reissued.
pub struct EntityTable {
    pub slots: Vec<Slot>,
    pub free: Vec<usize>,
}

/// Mathematical view of an [`EntityTable`].
#[verifier::ext_equal]
pub struct EntityTableView {
    pub slots: Seq<Slot>,
    pub free: Seq<usize>,
}

impl View for EntityTable {
    type V = EntityTableView;

    open spec fn view(&self) -> EntityTableView {
        EntityTableView { slots: self.slots@, free: self.free@ }
    }
}

impl EntityTableView {
    /// Well-formedness: every free-list entry points at a distinct dead slot.
    pub open spec fn wf(self) -> bool {
        &&& forall|k: int|
            0 <= k < self.free.len() ==> {
                &&& (#[trigger] self.free[k]) < self.slots.len()
                &&& !self.slots[self.free[k] as int].live
            }
        &&& forall|k1: int, k2: int|
            0 <= k1 < k2 < self.free.len() ==> #[trigger] self.free[k1] != #[trigger] self.free[k2]
    }

    /// A handle resolves exactly when its slot is occupied at its generation.
    pub open spec fn spec_live(self, id: EntityId) -> bool {
        &&& id.index < self.slots.len()
        &&& self.slots[id.index as int].live
        &&& self.slots[id.index as int].generation == id.generation
    }

    /// The handles of the slots at or after `i` that are occupied, in slot
    /// (allocator) order.
    pub open spec fn live_ids_from(slots: Seq<Slot>, i: int) -> Seq<EntityId>
        decreases slots.len() - i,
    {
        if i < 0 || i >= slots.len() {
            Seq::empty()
        } else {
            let rest = Self::live_ids_from(slots, i + 1);
            if slots[i].live {
                seq![EntityId { index: i as u64, generation: slots[i].generation }] + rest
            } else {
                rest
            }
        }
    }

    /// All live handles, in slot order.
    pub open spec fn live_ids(self) -> Seq<EntityId> {
        Self::live_ids_from(self.slots, 0)
    }

    /// How many entities are live.
    pub open spec fn live_count(self) -> nat {
        self.live_ids().len()
    }

    /// The state and handle that a spawn produces: the last free slot is
    /// reoccupied at its current generation, or a fresh slot is appended.
    pub open spec fn spawn_spec(self) -> (EntityTableView, EntityId) {
        if self.free.len() > 0 {
            let i = self.free[self.free.len() - 1] as int;
            let id = EntityId { index: i as u64, generation: self.slots[i].generation };
            let t = EntityTableView {
                slots: self.slots.update(i, Slot { generation: self.slots[i].generation, live: true }),
                free: self.free.drop_last(),
            };
            (t, id)
        } else {
            let id = EntityId { index: self.slots.len() as u64, generation: 0 };
            let t = EntityTableView {
                slots: self.slots.push(Slot { generation: 0, live: true }),
                free: self.free,
            };
            (t, id)
        }
    }

    /// The state after a despawn: the slot dies and its generation advances;
    /// at the final generation the slot is retired instead of freed. A handle
    /// that is not live despawns to no change at all.
    pub open spec fn despawn_spec(self, id: EntityId) -> EntityTableView {
        if !self.spec_live(id) {
            self
        } else {
            let i = id.index as int;
            let g = self.slots[i].generation;
            if g < u64::MAX {
                EntityTableView {
                    slots: self.slots.update(i, Slot { generation: (g + 1) as u64, live: false }),
                    free: self.free.push(id.index as usize),
                }
            } else {
                EntityTableView {
                    slots: self.slots.update(i, Slot { generation: g, live: false }),
                    free: self.free,
                }
            }
        }
    }

    /// What one slot becomes under a table-wide clear.
    pub open spec fn cleared_slot(s: Slot) -> Slot {
        if s.live {
            Slot {
                generation: if s.generation < u64::MAX { (s.generation + 1) as u64 } else { s.generation },
                live: false,
            }
        } else {
            s
        }
    }

    /// The indices at or after `i` of dead slots still fit for reuse, in
    /// ascending order.
    pub open spec fn dead_free_from(slots: Seq<Slot>, i: int) -> Seq<usize>
        decreases slots.len() - i,
    {
        if i < 0 || i >= slots.len() {
            Seq::empty()
        } else {
            let rest = Self::dead_free_from(slots, i + 1);
            if !slots[i].live && slots[i].generation < u64::MAX {
                seq![i as usize] + rest
            } else {
                rest
            }
        }
    }

    /// The state after a clear: every occupied slot dies with its generation
    /// advanced, and the free list is rebuilt from the dead slots.
    pub open spec fn clear_spec(self) -> EntityTableView {
        let slots = self.slots.map(|i: int, s: Slot| Self::cleared_slot(s));
        EntityTableView { slots: slots, free: Self::dead_free_from(slots, 0) }
    }
}

impl EntityTableView {
    /// No slot at or after `i` is occupied, so no handle in that range is live.
    proof fn lemma_live_ids_from_all_dead(slots: Seq<Slot>, i: int)
        requires
            forall|k: int| i <= k < slots.len() ==> !(#[trigger] slots[k]).live,
        ensures
            Self::live_ids_from(slots, i) =~= Seq::<EntityId>::empty(),
        decreases slots.len() - i,
    {
        if 0 <= i && i < slots.len() {
            Self::lemma_live_ids_from_all_dead(slots, i + 1);
        }
    }

    /// Changing one slot changes the number of live handles by exactly the
    /// difference in occupancy, and only when the change lies in range.
    proof fn lemma_live_ids_from_update(slots: Seq<Slot>, j: int, ns: Slot, i: int)
        requires
            0 <= i,
            0 <= j < slots.len(),
        ensures
            Self::live_ids_from(slots.update(j, ns), i).len() as int
                - Self::live_ids_from(slots, i).len() as int
            == if i <= j {
                (if ns.live { 1int } else { 0int }) - (if slots[j].live { 1int } else { 0int })
            } else {
                0int
            },
        decreases slots.len() - i,
    {
        let s2 = slots.update(j, ns);
        if i < 0 || i >= slots.len() {
        } else {
            Self::lemma_live_ids_from_update(slots, j, ns, i + 1);
            if i == j {
                assert(s2[i] == ns);
            } else {
                assert(s2[i] == slots[i]);
            }
            if s2[i].live {
                assert(Self::live_ids_from(s2, i).len()
                    == 1 + Self::live_ids_from(s2, i + 1).len());
            }
            if slots[i].live {
                assert(Self::live_ids_from(slots, i).len()
                    == 1 + Self::live_ids_from(slots, i + 1).len());
            }
        }
    }

    /// Appending a slot adds its handle to the live sequence exactly when the
    /// new slot is occupied.
    proof fn lemma_live_ids_from_push(slots: Seq<Slot>, ns: Slot, i: int)
        requires
            0 <= i <= slots.len(),
        ensures
            Self::live_ids_from(slots.push(ns), i).len()
            == Self::live_ids_from(slots, i).len() + (if ns.live { 1nat } else { 0nat }),
        decreases slots.len() - i,
    {
        let s2 = slots.push(ns);
        if i == slots.len() {
            assert(s2[i] == ns);
            assert(Self::live_ids_from(s2, i + 1) =~= Seq::<EntityId>::empty());
        } else {
            assert(s2[i] == slots[i]);
            Self::lemma_live_ids_from_push(slots, ns, i + 1);
        }
    }

    /// Every entry of `dead_free_from(slots, i)` is an in-range index of a
    /// dead slot, the entries ascend strictly, and none is below `i`.
    pub(crate) proof fn lemma_dead_free_from_props(slots: Seq<Slot>, i: int)
        requires
            slots.len() <= usize::MAX,
        ensures
            ({
                let d = Self::dead_free_from(slots, i);
                &&& forall|k: int| 0 <= k < d.len() ==> {
                    &&& i <= (#[trigger] d[k]) < slots.len()
                    &&& !slots[d[k] as int].live
                    &&& slots[d[k] as int].generation < u64::MAX
                }
                &&& forall|k1: int, k2: int| 0 <= k1 < k2 < d.len() ==> d[k1] < d[k2]
            }),
        decreases slots.len() - i,
    {
        if i < 0 || i >= slots.len() {
        } else {
            Self::lemma_dead_free_from_props(slots, i + 1);
            let d = Self::dead_free_from(slots, i);
            let rest = Self::dead_free_from(slots, i + 1);
            if !slots[i].live && slots[i].generation < u64::MAX {
                assert(d == seq![i as usize] + rest);
                assert(d[0] == i as usize);
                assert(forall|k: int| 1 <= k < d.len() ==> d[k] == rest[k - 1]);
                assert forall|k: int| 0 <= k < d.len() implies {
                    &&& i <= (#[trigger] d[k]) < slots.len()
                    &&& !slots[d[k] as int].live
                    &&& slots[d[k] as int].generation < u64::MAX
                } by {
                    if k >= 1 {
                        assert(d[k] == rest[k - 1]);
                    }
                }
                assert forall|k1: int, k2: int| 0 <= k1 < k2 < d.len() implies d[k1] < d[k2] by {
                    assert(d[k2] == rest[k2 - 1]);
                    if k1 >= 1 {
                        assert(d[k1] == rest[k1 - 1]);
                    } else {
                        assert(i + 1 <= rest[k2 - 1]);
                    }
                }
            } else {
                assert(d == rest);
            }
        }
    }
}

impl EntityTable {
    /// An empty table: no slots, nothing live.
    pub fn new() -> (t: EntityTable)
        ensures
            t@.wf(),
            t@.slots =~= Seq::<Slot>::empty(),
            t@.free =~= Seq::<usize>::empty(),
            t@.live_count() == 0,
    {
        EntityTable { slots: Vec::new(), free: Vec::new() }
    }

    /// True exactly when `id` is currently live.
    pub fn contains(&self, id: EntityId) -> (r: bool)
        ensures
            r == self@.spec_live(id),
            r ==> id.index < usize::MAX as u64,
    {
        if id.index < self.slots.len() as u64 {
            let s = self.slots[id.index as usize];
            s.live && s.generation == id.generation
        } else {
            false
        }
    }

    /// Allocates a slot and returns a handle that was not live before and is
    /// live now; no other handle changes state.
    pub fn spawn(&mut self) -> (id: EntityId)
        requires
            old(self)@.wf(),
        ensures
            final(self)@.wf(),
            final(self)@ == old(self)@.spawn_spec().0,
            id == old(self)@.spawn_spec().1,
            final(self)@.spec_live(id),
            !old(self)@.spec_live(id),
            forall|e: EntityId| e != id ==> final(self)@.spec_live(e) == old(self)@.spec_live(e),
            final(self)@.live_count() == old(self)@.live_count() + 1,
    {
        let ghost pre = self@;
        match self.free.pop() {
            Some(i) => {
                let g = self.slots[i].generation;
                let slot = &mut self.slots[i];
                slot.live = true;
                proof {
                    assert(pre.free[pre.free.len() - 1] == i);
                    assert(!pre.slots[i as int].live);
                    assert(self@.slots =~= pre.slots.update(i as int, Slot { generation: g, live: true }));
                    assert(self@ =~= pre.spawn_spec().0);
                    EntityTableView::lemma_live_ids_from_update(
                        pre.slots,
                        i as int,
                        Slot { generation: g, live: true },
                        0,
                    );
                }
                EntityId { index: i as u64, generation: g }
            },
            None => {
                let index = self.slots.len() as u64;
                self.slots.push(Slot { generation: 0, live: true });
                proof {
                    assert(self@ =~= pre.spawn_spec().0);
                    EntityTableView::lemma_live_ids_from_push(
                        pre.slots,
                        Slot { generation: 0, live: true },
                        0,
                    );
                }
                EntityId { index, generation: 0 }
            },
        }
    }

    /// Invalidates `id`. Afterwards `id` is not live, and no other handle
    /// changes state; a handle that was not live leaves the table unchanged.
    pub fn despawn(&mut self, id: EntityId)
        requires
            old(self)@.wf(),
        ensures
            final(self)@.wf(),
            final(self)@ == old(self)@.despawn_spec(id),
            !final(self)@.spec_live(id),
            forall|e: EntityId| e != id ==> final(self)@.spec_live(e) == old(self)@.spec_live(e),
            old(self)@.spec_live(id) ==> final(self)@.live_count() == old(self)@.live_count() - 1,
            !old(self)@.spec_live(id) ==> final(self)@ == old(self)@,
    {
        let ghost pre = self@;
        if id.index < self.slots.len() as u64 {
            let i = id.index as usize;
            let s = self.slots[i];
            if s.live && s.generation == id.generation {
                if s.generation < u64::MAX {
                    let slot = &mut self.slots[i];
                    slot.live = false;
                    slot.generation = s.generation + 1;
                    self.free.push(i);
                    proof {
                        let ns = Slot { generation: (s.generation + 1) as u64, live: false };
                        assert(self@.slots =~= pre.slots.update(i as int, ns));
                        assert(self@ =~= pre.despawn_spec(id));
                        EntityTableView::lemma_live_ids_from_update(pre.slots, i as int, ns, 0);
                        assert forall|k1: int, k2: int|
                            0 <= k1 < k2 < self@.free.len() implies #[trigger] self@.free[k1]
                            != #[trigger] self@.free[k2] by {
                            if k2 == self@.free.len() - 1 {
                                assert(!pre.slots[pre.free[k1] as int].live);
                            }
                        }
                    }
                } else {
                    let slot = &mut self.slots[i];
                    slot.live = false;
                    proof {
                        let ns = Slot { generation: s.generation, live: false };
                        assert(self@.slots =~= pre.slots.update(i as int, ns));
                        assert(self@ =~= pre.despawn_spec(id));
                        EntityTableView::lemma_live_ids_from_update(pre.slots, i as int, ns, 0);
                        assert forall|k: int| 0 <= k < self@.free.len() implies {
                            &&& (#[trigger] self@.free[k]) < self@.slots.len()
                            &&& !self@.slots[self@.free[k] as int].live
                        } by {
                            assert(!pre.slots[pre.free[k] as int].live);
                        }
                    }
                }
            }
        }
    }

    /// The live handles, in slot (allocator) order.
    pub fn iter(&self) -> (r: Vec<EntityId>)
        ensures
            r@ == self@.live_ids(),
    {
        let mut r: Vec<EntityId> = Vec::new();
        let mut i: usize = 0;
        while i < self.slots.len()
            invariant
                0 <= i <= self.slots@.len(),
                self@.live_ids() =~= r@ + EntityTableView::live_ids_from(self.slots@, i as int),
            decreases self.slots@.len() - i,
        {
            let s = self.slots[i];
            if s.live {
                r.push(EntityId { index: i as u64, generation: s.generation });
            }
            i = i + 1;
        }
        r
    }

    /// How many entities are live.
    pub fn len(&self) -> (n: usize)
        ensures
            n == self@.live_count(),
    {
        let mut n: usize = 0;
        let mut i: usize = 0;
        while i < self.slots.len()
            invariant
                0 <= i <= self.slots@.len(),
                n <= i,
                self@.live_count()
                    == n + EntityTableView::live_ids_from(self.slots@, i as int).len(),
            decreases self.slots@.len() - i,
        {
            if self.slots[i].live {
                n = n + 1;
            }
            i = i + 1;
        }
        n
    }

    /// Invalidates every live handle and makes every reusable slot free. A
    /// table with nothing live is left exactly as it was.
    pub fn clear(&mut self)
        requires
            old(self)@.wf(),
        ensures
            final(self)@.wf(),
            final(self)@ == old(self)@.clear_spec(),
            final(self)@.live_count() == 0,
            forall|e: EntityId| !final(self)@.spec_live(e),
    {
        let ghost pre = self@;
        let mut i: usize = 0;
        while i < self.slots.len()
            invariant
                0 <= i <= self.slots@.len(),
                self.slots@.len() == pre.slots.len(),
                self.free@ == pre.free,
                forall|k: int|
                    0 <= k < i ==> self.slots@[k] == EntityTableView::cleared_slot(
                        #[trigger] pre.slots[k],
                    ),
                forall|k: int| i <= k < pre.slots.len() ==> self.slots@[k] == #[trigger] pre.slots[k],
            decreases self.slots@.len() - i,
        {
            let s = self.slots[i];
            if s.live {
                let slot = &mut self.slots[i];
                slot.live = false;
                if s.generation < u64::MAX {
                    slot.generation = s.generation + 1;
                }
            }
            i = i + 1;
        }
        let ghost mid = self@;
        proof {
            assert(mid.slots =~= pre.slots.map(|k: int, s: Slot| EntityTableView::cleared_slot(s)));
        }
        let free = Self::rebuild_free(&self.slots);
        self.free = free;
        proof {
            assert(self@ =~= pre.clear_spec());
            EntityTableView::lemma_dead_free_from_props(self@.slots, 0);
            assert(forall|k: int|
                0 <= k < self@.slots.len() ==> !(#[trigger] self@.slots[k]).live);
            EntityTableView::lemma_live_ids_from_all_dead(self@.slots, 0);
        }
    }

    /// Clearing an already cleared table changes nothing: after a clear every
    /// slot is dead, so a second clear touches no slot and rebuilds the same
    /// free list.
    pub proof fn lemma_clear_idempotent(t: EntityTableView)
        ensures
            t.clear_spec().clear_spec() == t.clear_spec(),
    {
        let t1 = t.clear_spec();
        assert(t1.clear_spec().slots =~= t1.slots);
        assert(t1.clear_spec() =~= t1);
    }

    /// The reusable indices of `slots`, ascending: every dead slot whose
    /// generation has not been exhausted.
    pub(crate) fn rebuild_free(slots: &Vec<Slot>) -> (r: Vec<usize>)
        ensures
            r@ == EntityTableView::dead_free_from(slots@, 0),
    {
        let mut r: Vec<usize> = Vec::new();
        let mut i: usize = 0;
        while i < slots.len()
            invariant
                0 <= i <= slots@.len(),
                EntityTableView::dead_free_from(slots@, 0) =~= r@
                    + EntityTableView::dead_free_from(slots@, i as int),
            decreases slots@.len() - i,
        {
            let s = slots[i];
            if !s.live && s.generation < u64::MAX {
                r.push(i);
            }
            i = i + 1;
        }
        r
    }
}

} // verus!
