//! The erased column store: entity-indexed storage for one component kind.
//!
//! Each cell pairs a stored value with a non-blocking reader/writer lock, the
//! run-time stand-in for a compile-time borrow checker. Acquiring shared or
//! exclusive access hands out an owned copy of the value; releasing exclusive
//! access writes the caller's copy back. An incompatibly locked cell reports
//! "unavailable" (`None`) instead of blocking: that is an ordinary outcome,
//! never an error.

use vstd::prelude::*;

use crate::component::Component;
use crate::component::Singleton;
use crate::entity::EntityId;

verus! {

/// The lock of one cell: free, shared among `n` readers, or held exclusively.
#[derive(Clone, Copy, PartialEq, Eq, Structural, Debug)]
pub enum Lock {
    Free,
    Shared(u32),
    Exclusive,
}

/// One occupied cell: the generation of the entity it belongs to, its lock,
/// and the stored value.
pub struct StoreCell<V> {
    pub generation: u64,
    pub state: Lock,
    pub value: V,
}

/// The column store for one component kind: a type key and one optional cell
/// per entity slot index.
pub struct Storage<V> {
    pub key: u128,
    pub cells: Vec<Option<StoreCell<V>>>,
}

/// Mathematical view of a [`Storage`].
#[verifier::ext_equal]
pub struct StorageView<V> {
    pub key: u128,
    pub cells: Seq<Option<StoreCell<V>>>,
}

impl<V> View for Storage<V> {
    type V = StorageView<V>;

    open spec fn view(&self) -> StorageView<V> {
        StorageView { key: self.key, cells: self.cells@ }
    }
}

impl<V: Component> StorageView<V> {
    /// Well-formedness: every stored value is of this store's kind, and a
    /// shared lock counts at least one reader.
    pub open spec fn wf(self) -> bool {
        forall|i: int|
            0 <= i < self.cells.len() ==> ((#[trigger] self.cells[i]) matches Some(c) ==> {
                &&& c.value.key() == self.key
                &&& (c.state matches Lock::Shared(n) ==> n >= 1)
            })
    }

    /// Whether `id` has a cell here: its slot index is occupied at its
    /// generation. A stale handle never matches.
    pub open spec fn present(self, id: EntityId) -> bool {
        &&& id.index < self.cells.len()
        &&& self.cells[id.index as int] matches Some(c) && c.generation == id.generation
    }

    /// The cell of `id`.
    pub open spec fn cell_at(self, id: EntityId) -> StoreCell<V>
        recommends
            self.present(id),
    {
        self.cells[id.index as int]->Some_0
    }

    /// The value stored for `id`.
    pub open spec fn value_at(self, id: EntityId) -> V
        recommends
            self.present(id),
    {
        self.cell_at(id).value
    }

    /// The lock state of the cell of `id`.
    pub open spec fn state_at(self, id: EntityId) -> Lock
        recommends
            self.present(id),
    {
        self.cell_at(id).state
    }

    /// Whether a shared borrow of `id`'s cell can be granted now.
    pub open spec fn shared_acquirable(self, id: EntityId) -> bool {
        &&& self.present(id)
        &&& match self.state_at(id) {
            Lock::Free => true,
            Lock::Shared(n) => n < u32::MAX,
            Lock::Exclusive => false,
        }
    }

    /// Whether an exclusive borrow of `id`'s cell can be granted now.
    pub open spec fn exclusive_acquirable(self, id: EntityId) -> bool {
        &&& self.present(id)
        &&& self.state_at(id) is Free
    }

    /// `cells` grown with empty slots so index `n - 1` exists.
    pub open spec fn padded(cells: Seq<Option<StoreCell<V>>>, n: int) -> Seq<Option<StoreCell<V>>> {
        if n <= cells.len() {
            cells
        } else {
            cells + Seq::new((n - cells.len()) as nat, |k: int| None)
        }
    }

    /// The store after attaching `v` for `id`: the cell is created or
    /// replaced, unlocked.
    pub open spec fn insert_spec(self, id: EntityId, v: V) -> StorageView<V> {
        StorageView {
            key: self.key,
            cells: Self::padded(self.cells, id.index + 1).update(
                id.index as int,
                Some(StoreCell { generation: id.generation, state: Lock::Free, value: v }),
            ),
        }
    }

    /// The store after an attach of `v` for `id`: as [`StorageView::insert_spec`],
    /// except that a cell with a borrow outstanding is left untouched and the
    /// attach reports failure.
    pub open spec fn try_insert_spec(self, id: EntityId, v: V) -> (StorageView<V>, bool) {
        if self.present(id) && !(self.state_at(id) is Free) {
            (self, false)
        } else {
            (self.insert_spec(id, v), true)
        }
    }

    /// The store after granting a shared borrow of `id`'s cell; ungrantable
    /// requests change nothing.
    pub open spec fn acquire_shared_spec(self, id: EntityId) -> StorageView<V> {
        if self.shared_acquirable(id) {
            let c = self.cell_at(id);
            let n = match c.state {
                Lock::Free => 1u32,
                Lock::Shared(n) => (n + 1) as u32,
                Lock::Exclusive => 1u32,
            };
            StorageView {
                key: self.key,
                cells: self.cells.update(
                    id.index as int,
                    Some(StoreCell { generation: c.generation, state: Lock::Shared(n), value: c.value }),
                ),
            }
        } else {
            self
        }
    }

    /// The store after granting an exclusive borrow of `id`'s cell;
    /// ungrantable requests change nothing.
    pub open spec fn acquire_exclusive_spec(self, id: EntityId) -> StorageView<V> {
        if self.exclusive_acquirable(id) {
            let c = self.cell_at(id);
            StorageView {
                key: self.key,
                cells: self.cells.update(
                    id.index as int,
                    Some(StoreCell { generation: c.generation, state: Lock::Exclusive, value: c.value }),
                ),
            }
        } else {
            self
        }
    }

    /// The store after one shared borrow of `id`'s cell comes back.
    pub open spec fn release_shared_spec(self, id: EntityId) -> StorageView<V> {
        if self.present(id) {
            match self.state_at(id) {
                Lock::Shared(n) => {
                    let c = self.cell_at(id);
                    let st = if n <= 1 {
                        Lock::Free
                    } else {
                        Lock::Shared((n - 1) as u32)
                    };
                    StorageView {
                        key: self.key,
                        cells: self.cells.update(
                            id.index as int,
                            Some(StoreCell { generation: c.generation, state: st, value: c.value }),
                        ),
                    }
                },
                _ => self,
            }
        } else {
            self
        }
    }

    /// The store after the exclusive borrow of `id`'s cell comes back,
    /// writing `v` into the cell.
    pub open spec fn release_exclusive_spec(self, id: EntityId, v: V) -> StorageView<V> {
        if self.present(id) && self.state_at(id) is Exclusive {
            let c = self.cell_at(id);
            StorageView {
                key: self.key,
                cells: self.cells.update(
                    id.index as int,
                    Some(StoreCell { generation: c.generation, state: Lock::Free, value: v }),
                ),
            }
        } else {
            self
        }
    }

    /// The store after detaching `id`'s cell; a locked or absent cell is left
    /// in place.
    pub open spec fn remove_spec(self, id: EntityId) -> StorageView<V> {
        if self.present(id) && self.state_at(id) is Free {
            StorageView { key: self.key, cells: self.cells.update(id.index as int, None) }
        } else {
            self
        }
    }

    /// The store after `id` is despawned: its cell goes away no matter how it
    /// is locked.
    pub open spec fn purge_spec(self, id: EntityId) -> StorageView<V> {
        if self.present(id) {
            StorageView { key: self.key, cells: self.cells.update(id.index as int, None) }
        } else {
            self
        }
    }

    /// The store after a clear: no cells at all.
    pub open spec fn clear_spec(self) -> StorageView<V> {
        StorageView { key: self.key, cells: Seq::empty() }
    }

    /// The observable pairs of the cells at or after `i`: each occupied cell
    /// that is not exclusively held, as its entity's handle and its value, in
    /// slot order. An exclusively held cell is skipped, as any attempt to
    /// observe it would be.
    pub open spec fn pairs_from(cells: Seq<Option<StoreCell<V>>>, i: int) -> Seq<(EntityId, V)>
        decreases cells.len() - i,
    {
        if i < 0 || i >= cells.len() {
            Seq::empty()
        } else {
            let rest = Self::pairs_from(cells, i + 1);
            match cells[i] {
                Some(c) => if c.state is Exclusive {
                    rest
                } else {
                    seq![(EntityId { index: i as u64, generation: c.generation }, c.value)] + rest
                },
                None => rest,
            }
        }
    }

    /// The store after resetting `id`'s cell to the kind's default value.
    pub open spec fn default_spec(self, id: EntityId, d: V) -> StorageView<V> {
        if self.present(id) && self.state_at(id) is Free {
            let c = self.cell_at(id);
            StorageView {
                key: self.key,
                cells: self.cells.update(
                    id.index as int,
                    Some(StoreCell { generation: c.generation, state: Lock::Free, value: d }),
                ),
            }
        } else {
            self
        }
    }
}

impl<V: Component> Storage<V> {
    /// An empty store for the component kind `key` names.
    pub fn new(key: u128) -> (s: Storage<V>)
        ensures
            s@.wf(),
            s@.key == key,
            s@.cells =~= Seq::<Option<StoreCell<V>>>::empty(),
    {
        Storage { key, cells: Vec::new() }
    }

    /// Creates or replaces the cell of `id`, unlocked, holding `v`.
    pub fn insert(&mut self, id: EntityId, v: V)
        requires
            old(self)@.wf(),
            v.key() == old(self)@.key,
            id.index < usize::MAX as u64,
        ensures
            final(self)@.wf(),
            final(self)@ == old(self)@.insert_spec(id, v),
            final(self)@.present(id),
            final(self)@.value_at(id) == v,
            final(self)@.state_at(id) == Lock::Free,
    {
        let ghost pre = self@;
        let idx = id.index as usize;
        while self.cells.len() <= idx
            invariant
                idx < usize::MAX,
                self.key == pre.key,
                self.cells@ =~= StorageView::<V>::padded(pre.cells, self.cells@.len() as int),
                self.cells@.len() <= idx + 1 || self.cells@ == pre.cells,
            decreases idx + 1 - self.cells@.len(),
        {
            self.cells.push(None);
            proof {
                assert(self.cells@ =~= StorageView::<V>::padded(pre.cells, self.cells@.len() as int));
            }
        }
        proof {
            assert(self.cells@ =~= StorageView::<V>::padded(pre.cells, idx + 1 as int));
        }
        self.cells[idx] = Some(StoreCell { generation: id.generation, state: Lock::Free, value: v });
        proof {
            assert(self@ =~= pre.insert_spec(id, v));
        }
    }

    /// Attaches `v` for `id` unless the cell has a borrow outstanding, in
    /// which case nothing changes and the attach reports failure.
    pub fn try_insert(&mut self, id: EntityId, v: V) -> (r: bool)
        requires
            old(self)@.wf(),
            v.key() == old(self)@.key,
            id.index < usize::MAX as u64,
        ensures
            final(self)@.wf(),
            final(self)@ == old(self)@.try_insert_spec(id, v).0,
            r == old(self)@.try_insert_spec(id, v).1,
            r ==> final(self)@.present(id) && final(self)@.value_at(id) == v
                && final(self)@.state_at(id) == Lock::Free,
    {
        let ghost pre = self@;
        let blocked: bool = if id.index < self.cells.len() as u64 {
            match &self.cells[id.index as usize] {
                None => false,
                Some(c) => c.generation == id.generation && match c.state {
                    Lock::Free => false,
                    _ => true,
                },
            }
        } else {
            false
        };
        if blocked {
            false
        } else {
            self.insert(id, v);
            true
        }
    }

    /// Tries to take a shared borrow of `id`'s component: an owned copy of the
    /// value. Absent cells and exclusively held cells are unavailable.
    pub fn get(&mut self, id: EntityId) -> (r: Option<V>)
        requires
            old(self)@.wf(),
        ensures
            final(self)@.wf(),
            final(self)@ == old(self)@.acquire_shared_spec(id),
            r is Some <==> old(self)@.shared_acquirable(id),
            r matches Some(v) ==> v == old(self)@.value_at(id),
    {
        let ghost pre = self@;
        if id.index >= self.cells.len() as u64 {
            return None;
        }
        let idx = id.index as usize;
        let taken = self.cells[idx].take();
        match taken {
            None => {
                proof {
                    assert(self@ =~= pre);
                    assert(self@ =~= pre.acquire_shared_spec(id));
                }
                None
            },
            Some(c) => {
                let compatible: bool = c.generation == id.generation && match c.state {
                    Lock::Free => true,
                    Lock::Shared(m) => m < u32::MAX,
                    Lock::Exclusive => false,
                };
                if compatible {
                    let n: u32 = match c.state {
                        Lock::Free => 1,
                        Lock::Shared(m) => m + 1,
                        Lock::Exclusive => 1,
                    };
                    let copy = c.value.duplicate();
                    self.cells[idx] = Some(
                        StoreCell { generation: c.generation, state: Lock::Shared(n), value: c.value },
                    );
                    proof {
                        assert(self@ =~= pre.acquire_shared_spec(id));
                    }
                    Some(copy)
                } else {
                    self.cells[idx] = Some(c);
                    proof {
                        assert(self@ =~= pre);
                        assert(self@ =~= pre.acquire_shared_spec(id));
                    }
                    None
                }
            },
        }
    }

    /// Tries to take the exclusive borrow of `id`'s component: an owned copy
    /// to mutate and hand back through [`Storage::release_mut`]. Any
    /// outstanding borrow makes the cell unavailable.
    pub fn get_mut(&mut self, id: EntityId) -> (r: Option<V>)
        requires
            old(self)@.wf(),
        ensures
            final(self)@.wf(),
            final(self)@ == old(self)@.acquire_exclusive_spec(id),
            r is Some <==> old(self)@.exclusive_acquirable(id),
            r matches Some(v) ==> v == old(self)@.value_at(id),
    {
        let ghost pre = self@;
        if id.index >= self.cells.len() as u64 {
            return None;
        }
        let idx = id.index as usize;
        let taken = self.cells[idx].take();
        match taken {
            None => {
                proof {
                    assert(self@ =~= pre);
                    assert(self@ =~= pre.acquire_exclusive_spec(id));
                }
                None
            },
            Some(c) => {
                let compatible: bool = c.generation == id.generation && match c.state {
                    Lock::Free => true,
                    _ => false,
                };
                if compatible {
                    let copy = c.value.duplicate();
                    self.cells[idx] = Some(
                        StoreCell {
                            generation: c.generation,
                            state: Lock::Exclusive,
                            value: c.value,
                        },
                    );
                    proof {
                        assert(self@ =~= pre.acquire_exclusive_spec(id));
                    }
                    Some(copy)
                } else {
                    self.cells[idx] = Some(c);
                    proof {
                        assert(self@ =~= pre);
                        assert(self@ =~= pre.acquire_exclusive_spec(id));
                    }
                    None
                }
            },
        }
    }

    /// Returns one shared borrow of `id`'s cell. Without a shared borrow
    /// outstanding there is nothing to return and nothing changes.
    pub fn release(&mut self, id: EntityId)
        requires
            old(self)@.wf(),
        ensures
            final(self)@.wf(),
            final(self)@ == old(self)@.release_shared_spec(id),
    {
        let ghost pre = self@;
        if id.index >= self.cells.len() as u64 {
            return ;
        }
        let idx = id.index as usize;
        let taken = self.cells[idx].take();
        match taken {
            None => {
                proof {
                    assert(self@ =~= pre);
                    assert(self@ =~= pre.release_shared_spec(id));
                }
            },
            Some(c) => {
                let held: bool = c.generation == id.generation && match c.state {
                    Lock::Shared(_) => true,
                    _ => false,
                };
                if held {
                    let n: u32 = match c.state {
                        Lock::Shared(m) => m,
                        _ => 1,
                    };
                    let st = if n <= 1 {
                        Lock::Free
                    } else {
                        Lock::Shared(n - 1)
                    };
                    self.cells[idx] = Some(
                        StoreCell { generation: c.generation, state: st, value: c.value },
                    );
                    proof {
                        assert(self@ =~= pre.release_shared_spec(id));
                    }
                } else {
                    self.cells[idx] = Some(c);
                    proof {
                        assert(self@ =~= pre);
                        assert(self@ =~= pre.release_shared_spec(id));
                    }
                }
            },
        }
    }

    /// Returns the exclusive borrow of `id`'s cell, writing `v` back into it.
    /// Without an exclusive borrow outstanding, `v` is discarded and nothing
    /// changes.
    pub fn release_mut(&mut self, id: EntityId, v: V)
        requires
            old(self)@.wf(),
            v.key() == old(self)@.key,
        ensures
            final(self)@.wf(),
            final(self)@ == old(self)@.release_exclusive_spec(id, v),
    {
        let ghost pre = self@;
        if id.index >= self.cells.len() as u64 {
            return ;
        }
        let idx = id.index as usize;
        let taken = self.cells[idx].take();
        match taken {
            None => {
                proof {
                    assert(self@ =~= pre);
                    assert(self@ =~= pre.release_exclusive_spec(id, v));
                }
            },
            Some(c) => {
                let held: bool = c.generation == id.generation && match c.state {
                    Lock::Exclusive => true,
                    _ => false,
                };
                if held {
                    self.cells[idx] = Some(
                        StoreCell { generation: c.generation, state: Lock::Free, value: v },
                    );
                    proof {
                        assert(self@ =~= pre.release_exclusive_spec(id, v));
                    }
                } else {
                    self.cells[idx] = Some(c);
                    proof {
                        assert(self@ =~= pre);
                        assert(self@ =~= pre.release_exclusive_spec(id, v));
                    }
                }
            },
        }
    }

    /// Detaches and returns `id`'s value. A cell with any borrow outstanding
    /// is unavailable and stays put, as does an absent or stale cell.
    pub fn remove(&mut self, id: EntityId) -> (r: Option<V>)
        requires
            old(self)@.wf(),
        ensures
            final(self)@.wf(),
            final(self)@ == old(self)@.remove_spec(id),
            r is Some <==> (old(self)@.present(id) && old(self)@.state_at(id) is Free),
            r matches Some(v) ==> v == old(self)@.value_at(id),
    {
        let ghost pre = self@;
        if id.index >= self.cells.len() as u64 {
            return None;
        }
        let idx = id.index as usize;
        let taken = self.cells[idx].take();
        match taken {
            None => {
                proof {
                    assert(self@ =~= pre);
                    assert(self@ =~= pre.remove_spec(id));
                }
                None
            },
            Some(c) => {
                let detachable: bool = c.generation == id.generation && match c.state {
                    Lock::Free => true,
                    _ => false,
                };
                if detachable {
                    proof {
                        assert(self@ =~= pre.remove_spec(id));
                    }
                    Some(c.value)
                } else {
                    self.cells[idx] = Some(c);
                    proof {
                        assert(self@ =~= pre);
                        assert(self@ =~= pre.remove_spec(id));
                    }
                    None
                }
            },
        }
    }

    /// Drops `id`'s cell outright, borrowed or not: despawning an entity
    /// purges it from every store.
    pub(crate) fn purge(&mut self, id: EntityId)
        requires
            old(self)@.wf(),
        ensures
            final(self)@.wf(),
            final(self)@ == old(self)@.purge_spec(id),
            !final(self)@.present(id),
    {
        let ghost pre = self@;
        if id.index >= self.cells.len() as u64 {
            return ;
        }
        let idx = id.index as usize;
        let taken = self.cells[idx].take();
        match taken {
            None => {
                proof {
                    assert(self@ =~= pre);
                    assert(self@ =~= pre.purge_spec(id));
                }
            },
            Some(c) => {
                if c.generation == id.generation {
                    proof {
                        assert(self@ =~= pre.purge_spec(id));
                    }
                } else {
                    self.cells[idx] = Some(c);
                    proof {
                        assert(self@ =~= pre);
                        assert(self@ =~= pre.purge_spec(id));
                    }
                }
            },
        }
    }

    /// The observable contents of the store: every occupied, not exclusively
    /// held cell as a handle and an owned copy of its value, in slot order.
    /// No borrow is taken.
    pub fn pairs(&self) -> (r: Vec<(EntityId, V)>)
        ensures
            r@ == StorageView::<V>::pairs_from(self@.cells, 0),
    {
        let mut r: Vec<(EntityId, V)> = Vec::new();
        let mut i: usize = 0;
        while i < self.cells.len()
            invariant
                0 <= i <= self.cells@.len(),
                StorageView::<V>::pairs_from(self.cells@, 0) =~= r@ + StorageView::<V>::pairs_from(
                    self.cells@,
                    i as int,
                ),
            decreases self.cells@.len() - i,
        {
            match &self.cells[i] {
                None => {},
                Some(c) => {
                    let held: bool = match c.state {
                        Lock::Exclusive => true,
                        _ => false,
                    };
                    if !held {
                        r.push(
                            (
                                EntityId { index: i as u64, generation: c.generation },
                                c.value.duplicate(),
                            ),
                        );
                    }
                },
            }
            i = i + 1;
        }
        r
    }

    /// Empties the store: every cell goes away.
    pub fn clear(&mut self)
        requires
            old(self)@.wf(),
        ensures
            final(self)@.wf(),
            final(self)@ == old(self)@.clear_spec(),
            final(self)@.key == old(self)@.key,
    {
        self.cells.clear();
        proof {
            assert(self@ =~= StorageView { key: self@.key, cells: Seq::empty() });
        }
    }

    /// Resets `id`'s value to its kind's default. A borrowed, absent or stale
    /// cell is left alone.
    pub fn default(&mut self, id: EntityId) -> (reset: bool) where V: Singleton
        requires
            old(self)@.wf(),
        ensures
            final(self)@.wf(),
            final(self)@ == old(self)@.default_spec(id, V::default_spec(old(self)@.key)),
            reset == (old(self)@.present(id) && old(self)@.state_at(id) is Free),
    {
        let ghost pre = self@;
        if id.index >= self.cells.len() as u64 {
            return false;
        }
        let idx = id.index as usize;
        let taken = self.cells[idx].take();
        match taken {
            None => {
                proof {
                    assert(self@ =~= pre);
                    assert(self@ =~= pre.default_spec(id, V::default_spec(pre.key)));
                }
                false
            },
            Some(c) => {
                let resettable: bool = c.generation == id.generation && match c.state {
                    Lock::Free => true,
                    _ => false,
                };
                if resettable {
                    let d = V::default_for(self.key);
                    self.cells[idx] = Some(
                        StoreCell { generation: c.generation, state: Lock::Free, value: d },
                    );
                    proof {
                        assert(self@ =~= pre.default_spec(id, V::default_spec(pre.key)));
                    }
                    true
                } else {
                    self.cells[idx] = Some(c);
                    proof {
                        assert(self@ =~= pre);
                        assert(self@ =~= pre.default_spec(id, V::default_spec(pre.key)));
                    }
                    false
                }
            },
        }
    }
}

} // verus!
