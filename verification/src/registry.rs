//! The registry: the slot table, one column store per registered component
//! kind, one slot per registered singleton kind, and the deferred command
//! queue.
//!
//! Type-safe access goes through a non-generic store list keyed by stable
//! type keys; aliasing is policed at run time by the per-cell locks. A stale
//! entity handle never resolves to live data anywhere.

use vstd::prelude::*;

use crate::commands::Command;
use crate::commands::Commands;
use crate::component::Component;
use crate::component::Singleton;
use crate::entity::EntityId;
use crate::entity::EntityTable;
use crate::entity::EntityTableView;
use crate::singleton_storage::SingletonStorage;
use crate::storage::Lock;
use crate::storage::Storage;
use crate::storage::StorageView;
use crate::storage::StoreCell;

verus! {

/// The registry: entity table, column stores, singleton slots, command queue.
pub struct Registry<V> {
    pub entities: EntityTable,
    pub components: Vec<Storage<V>>,
    pub singletons: Vec<SingletonStorage<V>>,
    pub commands: Commands<V>,
}

/// Mathematical view of a [`Registry`].
#[verifier::ext_equal]
pub struct RegistryView<V> {
    pub entities: EntityTableView,
    pub components: Seq<StorageView<V>>,
    pub singletons: Seq<SingletonStorage<V>>,
    pub queue: Seq<Command<V>>,
}

impl<V> View for Registry<V> {
    type V = RegistryView<V>;

    open spec fn view(&self) -> RegistryView<V> {
        RegistryView {
            entities: self.entities@,
            components: self.components@.map_values(|s: Storage<V>| s@),
            singletons: self.singletons@,
            queue: self.commands.items@,
        }
    }
}

impl<V: Component> RegistryView<V> {
    /// Well-formedness: the entity table and every store are well formed, and
    /// no type key names two component stores or two singleton slots.
    pub open spec fn wf(self) -> bool {
        &&& self.entities.wf()
        &&& forall|i: int| 0 <= i < self.components.len() ==> (#[trigger] self.components[i]).wf()
        &&& forall|i: int|
            0 <= i < self.components.len() ==> (#[trigger] self.components[i]).cells.len()
                <= self.entities.slots.len()
        &&& forall|i: int, j: int|
            0 <= i < j < self.components.len() ==> (#[trigger] self.components[i]).key != (
            #[trigger] self.components[j]).key
        &&& forall|i: int| 0 <= i < self.singletons.len() ==> (#[trigger] self.singletons[i]).wf()
        &&& forall|i: int, j: int|
            0 <= i < j < self.singletons.len() ==> (#[trigger] self.singletons[i]).key != (
            #[trigger] self.singletons[j]).key
    }

    /// Whether a component store is registered under `key`.
    pub open spec fn comp_registered(self, key: u128) -> bool {
        exists|i: int| 0 <= i < self.components.len() && (#[trigger] self.components[i]).key == key
    }

    /// The position of the component store registered under `key`.
    pub open spec fn comp_index(self, key: u128) -> int {
        choose|i: int| 0 <= i < self.components.len() && (#[trigger] self.components[i]).key == key
    }

    /// The component store registered under `key`.
    pub open spec fn comp_store(self, key: u128) -> StorageView<V> {
        self.components[self.comp_index(key)]
    }

    /// Whether a singleton slot is registered under `key`.
    pub open spec fn sing_registered(self, key: u128) -> bool {
        exists|i: int| 0 <= i < self.singletons.len() && (#[trigger] self.singletons[i]).key == key
    }

    /// The position of the singleton slot registered under `key`.
    pub open spec fn sing_index(self, key: u128) -> int {
        choose|i: int| 0 <= i < self.singletons.len() && (#[trigger] self.singletons[i]).key == key
    }

    /// The singleton slot registered under `key`.
    pub open spec fn sing_slot(self, key: u128) -> SingletonStorage<V> {
        self.singletons[self.sing_index(key)]
    }

    /// Whether `id` holds a component of the kind `key` names.
    pub open spec fn comp_present(self, key: u128, id: EntityId) -> bool {
        self.comp_registered(key) && self.comp_store(key).present(id)
    }

    /// The component value `id` holds for `key`.
    pub open spec fn comp_value(self, key: u128, id: EntityId) -> V
        recommends
            self.comp_present(key, id),
    {
        self.comp_store(key).value_at(id)
    }

    /// The lock state of `id`'s cell for `key`.
    pub open spec fn comp_state(self, key: u128, id: EntityId) -> Lock
        recommends
            self.comp_present(key, id),
    {
        self.comp_store(key).state_at(id)
    }

    /// In a well-formed registry, a store's position under its key is the
    /// position of any store that carries the key.
    pub proof fn lemma_comp_index_unique(self, key: u128, i: int)
        requires
            self.wf(),
            0 <= i < self.components.len(),
            self.components[i].key == key,
        ensures
            self.comp_registered(key),
            self.comp_index(key) == i,
    {
        assert(self.comp_registered(key));
        let c = self.comp_index(key);
        if c != i {
            if c < i {
                assert(self.components[c].key != self.components[i].key);
            } else {
                assert(self.components[i].key != self.components[c].key);
            }
        }
    }

    /// The singleton analogue of [`RegistryView::lemma_comp_index_unique`].
    pub proof fn lemma_sing_index_unique(self, key: u128, i: int)
        requires
            self.wf(),
            0 <= i < self.singletons.len(),
            self.singletons[i].key == key,
        ensures
            self.sing_registered(key),
            self.sing_index(key) == i,
    {
        assert(self.sing_registered(key));
        let c = self.sing_index(key);
        if c != i {
            if c < i {
                assert(self.singletons[c].key != self.singletons[i].key);
            } else {
                assert(self.singletons[i].key != self.singletons[c].key);
            }
        }
    }

    /// The registry after registering a component kind: one more, empty store.
    pub open spec fn register_component_spec(self, key: u128) -> RegistryView<V> {
        RegistryView {
            components: self.components.push(
                StorageView { key, cells: Seq::empty() },
            ),
            ..self
        }
    }

    /// The registry after registering a singleton kind: one more slot at the
    /// kind's default value.
    pub open spec fn register_singleton_spec(self, key: u128) -> RegistryView<V> where V: Singleton {
        RegistryView {
            singletons: self.singletons.push(
                SingletonStorage { key, state: Lock::Free, value: V::default_spec(key) },
            ),
            ..self
        }
    }

    /// The registry and handle a spawn produces.
    pub open spec fn spawn_spec(self) -> (RegistryView<V>, EntityId) {
        let (t, id) = self.entities.spawn_spec();
        (RegistryView { entities: t, ..self }, id)
    }

    /// The registry after a despawn: the handle dies and its cells leave
    /// every store, whatever their locks.
    pub open spec fn despawn_spec(self, id: EntityId) -> RegistryView<V> {
        RegistryView {
            entities: self.entities.despawn_spec(id),
            components: self.components.map_values(|s: StorageView<V>| s.purge_spec(id)),
            ..self
        }
    }

    /// The registry and outcome of an attach: fails on a dead handle, an
    /// unregistered kind, or a cell with a borrow outstanding.
    pub open spec fn attach_spec(self, id: EntityId, v: V) -> (RegistryView<V>, bool) {
        let k = v.key();
        if !self.comp_registered(k) || !self.entities.spec_live(id) {
            (self, false)
        } else {
            let j = self.comp_index(k);
            let (st, ok) = self.components[j].try_insert_spec(id, v);
            (RegistryView { components: self.components.update(j, st), ..self }, ok)
        }
    }

    /// The registry and detached value of a detach: the value comes out only
    /// from a present, unlocked cell.
    pub open spec fn detach_spec(self, id: EntityId, key: u128) -> (RegistryView<V>, Option<V>) {
        if !self.comp_registered(key) {
            (self, None)
        } else {
            let j = self.comp_index(key);
            let st = self.components[j];
            let r = if st.present(id) && st.state_at(id) is Free {
                Some(st.value_at(id))
            } else {
                None
            };
            (RegistryView { components: self.components.update(j, st.remove_spec(id)), ..self }, r)
        }
    }

    /// The registry and value of a shared component borrow.
    pub open spec fn comp_get_spec(self, key: u128, id: EntityId) -> (RegistryView<V>, Option<V>) {
        if !self.comp_registered(key) {
            (self, None)
        } else {
            let j = self.comp_index(key);
            let st = self.components[j];
            let r = if st.shared_acquirable(id) {
                Some(st.value_at(id))
            } else {
                None
            };
            (
                RegistryView { components: self.components.update(j, st.acquire_shared_spec(id)), ..self },
                r,
            )
        }
    }

    /// The registry and value of an exclusive component borrow.
    pub open spec fn comp_get_mut_spec(self, key: u128, id: EntityId) -> (RegistryView<V>, Option<V>) {
        if !self.comp_registered(key) {
            (self, None)
        } else {
            let j = self.comp_index(key);
            let st = self.components[j];
            let r = if st.exclusive_acquirable(id) {
                Some(st.value_at(id))
            } else {
                None
            };
            (
                RegistryView {
                    components: self.components.update(j, st.acquire_exclusive_spec(id)),
                    ..self
                },
                r,
            )
        }
    }

    /// The registry after one shared component borrow comes back.
    pub open spec fn comp_release_spec(self, key: u128, id: EntityId) -> RegistryView<V> {
        if !self.comp_registered(key) {
            self
        } else {
            let j = self.comp_index(key);
            RegistryView {
                components: self.components.update(j, self.components[j].release_shared_spec(id)),
                ..self
            }
        }
    }

    /// The registry after the exclusive component borrow comes back, writing
    /// `v` into the cell.
    pub open spec fn comp_release_mut_spec(self, key: u128, id: EntityId, v: V) -> RegistryView<V> {
        if !self.comp_registered(key) {
            self
        } else {
            let j = self.comp_index(key);
            RegistryView {
                components: self.components.update(
                    j,
                    self.components[j].release_exclusive_spec(id, v),
                ),
                ..self
            }
        }
    }

    /// The registry and value of a shared singleton borrow.
    pub open spec fn sing_get_spec(self, key: u128) -> (RegistryView<V>, Option<V>) {
        if !self.sing_registered(key) {
            (self, None)
        } else {
            let j = self.sing_index(key);
            let sl = self.singletons[j];
            let r = if sl.shared_acquirable() {
                Some(sl.value)
            } else {
                None
            };
            (RegistryView { singletons: self.singletons.update(j, sl.acquire_shared_spec()), ..self }, r)
        }
    }

    /// The registry and value of an exclusive singleton borrow.
    pub open spec fn sing_get_mut_spec(self, key: u128) -> (RegistryView<V>, Option<V>) {
        if !self.sing_registered(key) {
            (self, None)
        } else {
            let j = self.sing_index(key);
            let sl = self.singletons[j];
            let r = if sl.exclusive_acquirable() {
                Some(sl.value)
            } else {
                None
            };
            (
                RegistryView { singletons: self.singletons.update(j, sl.acquire_exclusive_spec()), ..self },
                r,
            )
        }
    }

    /// The registry after one shared singleton borrow comes back.
    pub open spec fn sing_release_spec(self, key: u128) -> RegistryView<V> {
        if !self.sing_registered(key) {
            self
        } else {
            let j = self.sing_index(key);
            RegistryView {
                singletons: self.singletons.update(j, self.singletons[j].release_shared_spec()),
                ..self
            }
        }
    }

    /// The registry after the exclusive singleton borrow comes back, writing
    /// `v` into the slot.
    pub open spec fn sing_release_mut_spec(self, key: u128, v: V) -> RegistryView<V> {
        if !self.sing_registered(key) {
            self
        } else {
            let j = self.sing_index(key);
            RegistryView {
                singletons: self.singletons.update(j, self.singletons[j].release_exclusive_spec(v)),
                ..self
            }
        }
    }

    /// The registry after a clear: no entities, empty stores, singletons back
    /// at their defaults. The command queue is not touched.
    pub open spec fn clear_spec(self) -> RegistryView<V> where V: Singleton {
        RegistryView {
            entities: self.entities.clear_spec(),
            components: self.components.map_values(|s: StorageView<V>| s.clear_spec()),
            singletons: self.singletons.map_values(|s: SingletonStorage<V>| s.clear_spec()),
            queue: self.queue,
        }
    }

    /// What applying one deferred command does to the registry. A command
    /// whose component kind is not registered does nothing.
    pub open spec fn apply_command_spec(self, c: Command<V>) -> RegistryView<V> {
        match c {
            Command::Spawn => self.spawn_spec().0,
            Command::Despawn(id) => self.despawn_spec(id),
            Command::Attach(id, v) => self.attach_spec(id, v).0,
            Command::Detach(id, key) => self.detach_spec(id, key).0,
        }
    }

    /// Applying a sequence of deferred commands, oldest first.
    pub open spec fn apply_all_spec(self, cmds: Seq<Command<V>>) -> RegistryView<V>
        decreases cmds.len(),
    {
        if cmds.len() == 0 {
            self
        } else {
            self.apply_command_spec(cmds[0]).apply_all_spec(cmds.drop_first())
        }
    }

    /// The registry after an execute: the queued commands run in submission
    /// order against a registry whose live queue is already empty, so
    /// commands pushed during the drain wait for the next one.
    pub open spec fn execute_spec(self) -> RegistryView<V> {
        (RegistryView { queue: Seq::empty(), ..self }).apply_all_spec(self.queue)
    }

    /// Applying one command more at the end is applying the rest first.
    pub proof fn lemma_apply_all_push(s: RegistryView<V>, cmds: Seq<Command<V>>, c: Command<V>)
        ensures
            s.apply_all_spec(cmds.push(c)) == s.apply_all_spec(cmds).apply_command_spec(c),
        decreases cmds.len(),
    {
        let p = cmds.push(c);
        assert(p.len() == cmds.len() + 1);
        assert(s.apply_all_spec(p) == s.apply_command_spec(p[0]).apply_all_spec(p.drop_first()));
        if cmds.len() == 0 {
            assert(p[0] == c);
            assert(p.drop_first() =~= Seq::<Command<V>>::empty());
            assert(s.apply_command_spec(c).apply_all_spec(p.drop_first()) == s.apply_command_spec(c));
            assert(s.apply_all_spec(cmds) == s);
        } else {
            assert(p[0] == cmds[0]);
            assert(p.drop_first() =~= cmds.drop_first().push(c));
            Self::lemma_apply_all_push(s.apply_command_spec(cmds[0]), cmds.drop_first(), c);
            assert(s.apply_all_spec(cmds) == s.apply_command_spec(cmds[0]).apply_all_spec(
                cmds.drop_first(),
            ));
        }
    }
}

impl<V: Component> Registry<V> {
    /// An empty registry: no entities, no registered kinds, empty queue.
    pub fn new() -> (r: Registry<V>)
        ensures
            r@.wf(),
            r@.entities.slots =~= Seq::<crate::entity::Slot>::empty(),
            r@.components =~= Seq::<StorageView<V>>::empty(),
            r@.singletons =~= Seq::<SingletonStorage<V>>::empty(),
            r@.queue =~= Seq::<Command<V>>::empty(),
            r@.entities.live_count() == 0,
    {
        Registry {
            entities: EntityTable::new(),
            components: Vec::new(),
            singletons: Vec::new(),
            commands: Commands::new(),
        }
    }

    /// The position of the store registered under `key`, if any.
    pub(crate) fn find_component(&self, key: u128) -> (r: Option<usize>)
        requires
            self@.wf(),
        ensures
            r is Some <==> self@.comp_registered(key),
            r matches Some(i) ==> {
                &&& i < self.components@.len()
                &&& self.components@[i as int]@.key == key
                &&& i as int == self@.comp_index(key)
            },
    {
        let mut i: usize = 0;
        while i < self.components.len()
            invariant
                0 <= i <= self.components@.len(),
                self@.wf(),
                forall|j: int| 0 <= j < i ==> (#[trigger] self@.components[j]).key != key,
            decreases self.components@.len() - i,
        {
            if self.components[i].key == key {
                proof {
                    assert(self@.components[i as int].key == key);
                    self@.lemma_comp_index_unique(key, i as int);
                }
                return Some(i);
            }
            i = i + 1;
        }
        proof {
            assert(!self@.comp_registered(key));
        }
        None
    }

    /// The position of the singleton slot registered under `key`, if any.
    pub(crate) fn find_singleton(&self, key: u128) -> (r: Option<usize>)
        requires
            self@.wf(),
        ensures
            r is Some <==> self@.sing_registered(key),
            r matches Some(i) ==> {
                &&& i < self.singletons@.len()
                &&& self.singletons@[i as int].key == key
                &&& i as int == self@.sing_index(key)
            },
    {
        let mut i: usize = 0;
        while i < self.singletons.len()
            invariant
                0 <= i <= self.singletons@.len(),
                self@.wf(),
                forall|j: int| 0 <= j < i ==> (#[trigger] self@.singletons[j]).key != key,
            decreases self.singletons@.len() - i,
        {
            if self.singletons[i].key == key {
                proof {
                    self@.lemma_sing_index_unique(key, i as int);
                }
                return Some(i);
            }
            i = i + 1;
        }
        proof {
            assert(!self@.sing_registered(key));
        }
        None
    }

    /// Whether a component kind is registered under `key`.
    pub fn component_registered(&self, key: u128) -> (r: bool)
        requires
            self@.wf(),
        ensures
            r == self@.comp_registered(key),
    {
        self.find_component(key).is_some()
    }

    /// Whether a singleton kind is registered under `key`.
    pub fn singleton_registered(&self, key: u128) -> (r: bool)
        requires
            self@.wf(),
        ensures
            r == self@.sing_registered(key),
    {
        self.find_singleton(key).is_some()
    }

    /// Registers a component kind under `key` with an empty store.
    /// Registering a key twice is a programmer error and is ruled out here.
    pub fn register_component(&mut self, key: u128)
        requires
            old(self)@.wf(),
            !old(self)@.comp_registered(key),
        ensures
            final(self)@.wf(),
            final(self)@ == old(self)@.register_component_spec(key),
            final(self)@.comp_registered(key),
    {
        let ghost pre = self@;
        self.components.push(Storage::new(key));
        proof {
            assert(self@.components =~= pre.components.push(
                StorageView { key, cells: Seq::empty() },
            ));
            assert(self@ =~= pre.register_component_spec(key));
            assert forall|i: int, j: int|
                0 <= i < j < self@.components.len() implies (#[trigger] self@.components[i]).key != (
            #[trigger] self@.components[j]).key by {
                if j == self@.components.len() - 1 {
                    assert(self@.components[i].key != key);
                }
            }
            self@.lemma_comp_index_unique(key, self@.components.len() - 1);
        }
    }

    /// Registers a singleton kind under `key`, initialized to the kind's
    /// default value. Registering a key twice is a programmer error and is
    /// ruled out here.
    pub fn register_singleton(&mut self, key: u128) where V: Singleton
        requires
            old(self)@.wf(),
            !old(self)@.sing_registered(key),
        ensures
            final(self)@.wf(),
            final(self)@ == old(self)@.register_singleton_spec(key),
            final(self)@.sing_registered(key),
            final(self)@.sing_slot(key).value == V::default_spec(key),
            final(self)@.sing_slot(key).state == Lock::Free,
    {
        let ghost pre = self@;
        self.singletons.push(SingletonStorage::new(key));
        proof {
            assert(self@ =~= pre.register_singleton_spec(key));
            assert forall|i: int, j: int|
                0 <= i < j < self@.singletons.len() implies (#[trigger] self@.singletons[i]).key != (
            #[trigger] self@.singletons[j]).key by {
                if j == self@.singletons.len() - 1 {
                    assert(self@.singletons[i].key != key);
                }
            }
            self@.lemma_sing_index_unique(key, self@.singletons.len() - 1);
        }
    }

    /// Allocates a fresh entity and returns its handle, which was not live
    /// before and is live now; nothing else changes.
    pub fn spawn(&mut self) -> (id: EntityId)
        requires
            old(self)@.wf(),
        ensures
            final(self)@.wf(),
            final(self)@ == old(self)@.spawn_spec().0,
            id == old(self)@.spawn_spec().1,
            final(self)@.entities.spec_live(id),
            !old(self)@.entities.spec_live(id),
            forall|e: EntityId|
                e != id ==> final(self)@.entities.spec_live(e) == old(self)@.entities.spec_live(e),
            final(self)@.entities.live_count() == old(self)@.entities.live_count() + 1,
            final(self)@.components == old(self)@.components,
            final(self)@.singletons == old(self)@.singletons,
    {
        let ghost pre = self@;
        let id = self.entities.spawn();
        proof {
            assert(self@ =~= pre.spawn_spec().0);
        }
        id
    }

    /// Whether `id` is a live entity.
    pub fn contains(&self, id: EntityId) -> (r: bool)
        ensures
            r == self@.entities.spec_live(id),
    {
        self.entities.contains(id)
    }

    /// Invalidates `id` and purges it from every component store, whatever
    /// the locks of its cells: afterwards no registered kind has a component
    /// for `id`. A handle that is not live changes no entity's state.
    pub fn despawn(&mut self, id: EntityId)
        requires
            old(self)@.wf(),
        ensures
            final(self)@.wf(),
            final(self)@ == old(self)@.despawn_spec(id),
            !final(self)@.entities.spec_live(id),
            forall|e: EntityId|
                e != id ==> final(self)@.entities.spec_live(e) == old(self)@.entities.spec_live(e),
            forall|k: u128| !final(self)@.comp_present(k, id),
    {
        let ghost pre = self@;
        self.entities.despawn(id);
        proof {
            assert forall|j: int| 0 <= j < pre.components.len() implies (
            #[trigger] self.components@[j])@ == pre.components[j] by {
                assert(pre.components[j] == self.components@[j]@);
            }
        }
        let mut i: usize = 0;
        while i < self.components.len()
            invariant
                0 <= i <= self.components@.len(),
                self.components@.len() == pre.components.len(),
                self.entities@ == pre.entities.despawn_spec(id),
                self.singletons@ == pre.singletons,
                self.commands.items@ == pre.queue,
                forall|j: int|
                    0 <= j < i ==> (#[trigger] self.components@[j])@ == pre.components[j].purge_spec(
                        id,
                    ),
                forall|j: int| i <= j < pre.components.len() ==> (#[trigger] self.components@[j])@
                    == pre.components[j],
                forall|j: int| 0 <= j < pre.components.len() ==> (#[trigger] self.components@[j])@.wf(),
            decreases self.components@.len() - i,
        {
            let st = &mut self.components[i];
            st.purge(id);
            i = i + 1;
        }
        proof {
            assert(self@.components =~= pre.components.map_values(
                |s: StorageView<V>| s.purge_spec(id),
            ));
            assert(self@ =~= pre.despawn_spec(id));
            assert forall|k: u128| !final(self)@.comp_present(k, id) by {
                if self@.comp_registered(k) {
                    let j = self@.comp_index(k);
                    assert(self@.components[j] == pre.components[j].purge_spec(id));
                    assert(!self@.components[j].present(id));
                }
            }
        }
    }

    /// Attaches `v` to `id` in the store of `v`'s kind. Fails, changing
    /// nothing, when `id` is not live or when the cell holding the previous
    /// value has a borrow outstanding; otherwise the cell now holds `v`,
    /// unlocked.
    pub fn component_attach(&mut self, id: EntityId, v: V) -> (r: bool)
        requires
            old(self)@.wf(),
            old(self)@.comp_registered(v.key()),
        ensures
            final(self)@.wf(),
            final(self)@ == old(self)@.attach_spec(id, v).0,
            r == old(self)@.attach_spec(id, v).1,
            r ==> final(self)@.comp_present(v.key(), id) && final(self)@.comp_value(v.key(), id)
                == v && final(self)@.comp_state(v.key(), id) == Lock::Free,
            !r ==> final(self)@ == old(self)@,
    {
        let ghost pre = self@;
        if !self.entities.contains(id) {
            proof {
                assert(self@ =~= pre.attach_spec(id, v).0);
            }
            return false;
        }
        let k = v.type_key();
        match self.find_component(k) {
            None => {
                proof {
                    assert(false);
                }
                false
            },
            Some(j) => {
                let ghost stpre = pre.components[j as int];
                let st = &mut self.components[j];
                let r = st.try_insert(id, v);
                proof {
                    assert(self@.components =~= pre.components.update(
                        j as int,
                        stpre.try_insert_spec(id, v).0,
                    ));
                    assert(self@ =~= pre.attach_spec(id, v).0);
                    if r {
                        self@.lemma_comp_index_unique(k, j as int);
                    } else {
                        assert(self@.components =~= pre.components);
                        assert(self@ =~= pre);
                    }
                }
                r
            },
        }
    }

    /// Detaches and returns `id`'s component of the kind `key` names. An
    /// absent component, a dead handle, or a cell with a borrow outstanding
    /// yields nothing and changes nothing.
    pub fn component_detach(&mut self, id: EntityId, key: u128) -> (r: Option<V>)
        requires
            old(self)@.wf(),
            old(self)@.comp_registered(key),
        ensures
            final(self)@.wf(),
            final(self)@ == old(self)@.detach_spec(id, key).0,
            r == old(self)@.detach_spec(id, key).1,
            r is Some <==> (old(self)@.comp_present(key, id) && old(self)@.comp_state(key, id)
                is Free),
            r matches Some(v) ==> v == old(self)@.comp_value(key, id),
            !final(self)@.comp_present(key, id) || final(self)@.comp_state(key, id)
                == old(self)@.comp_state(key, id),
    {
        let ghost pre = self@;
        match self.find_component(key) {
            None => {
                proof {
                    assert(false);
                }
                None
            },
            Some(j) => {
                let ghost stpre = pre.components[j as int];
                let st = &mut self.components[j];
                let r = st.remove(id);
                proof {
                    assert(self@.components =~= pre.components.update(
                        j as int,
                        stpre.remove_spec(id),
                    ));
                    assert(self@ =~= pre.detach_spec(id, key).0);
                    self@.lemma_comp_index_unique(key, j as int);
                }
                r
            },
        }
    }

    /// Takes a shared borrow of `id`'s component of the kind `key` names: an
    /// owned copy of the value, to be returned through
    /// [`Registry::component_release`]. An absent component or an exclusively
    /// held cell is unavailable.
    pub fn component(&mut self, id: EntityId, key: u128) -> (r: Option<V>)
        requires
            old(self)@.wf(),
            old(self)@.comp_registered(key),
        ensures
            final(self)@.wf(),
            final(self)@ == old(self)@.comp_get_spec(key, id).0,
            r == old(self)@.comp_get_spec(key, id).1,
            r is Some <==> old(self)@.comp_store(key).shared_acquirable(id),
            r matches Some(v) ==> v == old(self)@.comp_value(key, id),
    {
        let ghost pre = self@;
        match self.find_component(key) {
            None => {
                proof {
                    assert(false);
                }
                None
            },
            Some(j) => {
                let ghost stpre = pre.components[j as int];
                let st = &mut self.components[j];
                let r = st.get(id);
                proof {
                    assert(self@.components =~= pre.components.update(
                        j as int,
                        stpre.acquire_shared_spec(id),
                    ));
                    assert(self@ =~= pre.comp_get_spec(key, id).0);
                }
                r
            },
        }
    }

    /// Takes the exclusive borrow of `id`'s component of the kind `key`
    /// names: an owned copy to mutate and write back through
    /// [`Registry::component_mut_release`]. Any outstanding borrow makes the
    /// cell unavailable.
    pub fn component_mut(&mut self, id: EntityId, key: u128) -> (r: Option<V>)
        requires
            old(self)@.wf(),
            old(self)@.comp_registered(key),
        ensures
            final(self)@.wf(),
            final(self)@ == old(self)@.comp_get_mut_spec(key, id).0,
            r == old(self)@.comp_get_mut_spec(key, id).1,
            r is Some <==> old(self)@.comp_store(key).exclusive_acquirable(id),
            r matches Some(v) ==> v == old(self)@.comp_value(key, id),
    {
        let ghost pre = self@;
        match self.find_component(key) {
            None => {
                proof {
                    assert(false);
                }
                None
            },
            Some(j) => {
                let ghost stpre = pre.components[j as int];
                let st = &mut self.components[j];
                let r = st.get_mut(id);
                proof {
                    assert(self@.components =~= pre.components.update(
                        j as int,
                        stpre.acquire_exclusive_spec(id),
                    ));
                    assert(self@ =~= pre.comp_get_mut_spec(key, id).0);
                }
                r
            },
        }
    }

    /// Returns one shared borrow of `id`'s cell for `key`.
    pub fn component_release(&mut self, id: EntityId, key: u128)
        requires
            old(self)@.wf(),
            old(self)@.comp_registered(key),
        ensures
            final(self)@.wf(),
            final(self)@ == old(self)@.comp_release_spec(key, id),
    {
        let ghost pre = self@;
        match self.find_component(key) {
            None => {
                proof {
                    assert(false);
                }
            },
            Some(j) => {
                let ghost stpre = pre.components[j as int];
                let st = &mut self.components[j];
                st.release(id);
                proof {
                    assert(self@.components =~= pre.components.update(
                        j as int,
                        stpre.release_shared_spec(id),
                    ));
                    assert(self@ =~= pre.comp_release_spec(key, id));
                }
            },
        }
    }

    /// Returns the exclusive borrow of `id`'s cell for `key`, writing `v`
    /// back into the cell.
    pub fn component_mut_release(&mut self, id: EntityId, key: u128, v: V)
        requires
            old(self)@.wf(),
            old(self)@.comp_registered(key),
            v.key() == key,
        ensures
            final(self)@.wf(),
            final(self)@ == old(self)@.comp_release_mut_spec(key, id, v),
    {
        let ghost pre = self@;
        match self.find_component(key) {
            None => {
                proof {
                    assert(false);
                }
            },
            Some(j) => {
                let ghost stpre = pre.components[j as int];
                let st = &mut self.components[j];
                st.release_mut(id, v);
                proof {
                    assert(self@.components =~= pre.components.update(
                        j as int,
                        stpre.release_exclusive_spec(id, v),
                    ));
                    assert(self@ =~= pre.comp_release_mut_spec(key, id, v));
                }
            },
        }
    }

    /// Whether `id` holds a component of the kind `key` names, locked or not.
    pub fn component_has(&self, id: EntityId, key: u128) -> (r: bool)
        requires
            self@.wf(),
            self@.comp_registered(key),
        ensures
            r == self@.comp_present(key, id),
    {
        match self.find_component(key) {
            None => {
                proof {
                    assert(false);
                }
                false
            },
            Some(j) => {
                let st = &self.components[j];
                if id.index < st.cells.len() as u64 {
                    match &st.cells[id.index as usize] {
                        Some(c) => c.generation == id.generation,
                        None => false,
                    }
                } else {
                    false
                }
            },
        }
    }

    /// Takes a shared borrow of the singleton of the kind `key` names, to be
    /// returned through [`Registry::singleton_release`].
    pub fn singleton(&mut self, key: u128) -> (r: Option<V>)
        requires
            old(self)@.wf(),
            old(self)@.sing_registered(key),
        ensures
            final(self)@.wf(),
            final(self)@ == old(self)@.sing_get_spec(key).0,
            r == old(self)@.sing_get_spec(key).1,
            r is Some <==> old(self)@.sing_slot(key).shared_acquirable(),
            r matches Some(v) ==> v == old(self)@.sing_slot(key).value,
    {
        let ghost pre = self@;
        match self.find_singleton(key) {
            None => {
                proof {
                    assert(false);
                }
                None
            },
            Some(j) => {
                let ghost slpre = pre.singletons[j as int];
                let sl = &mut self.singletons[j];
                let r = sl.get();
                proof {
                    assert(self@.singletons =~= pre.singletons.update(
                        j as int,
                        slpre.acquire_shared_spec(),
                    ));
                    assert(self@ =~= pre.sing_get_spec(key).0);
                }
                r
            },
        }
    }

    /// Takes the exclusive borrow of the singleton of the kind `key` names,
    /// to be written back through [`Registry::singleton_mut_release`].
    pub fn singleton_mut(&mut self, key: u128) -> (r: Option<V>)
        requires
            old(self)@.wf(),
            old(self)@.sing_registered(key),
        ensures
            final(self)@.wf(),
            final(self)@ == old(self)@.sing_get_mut_spec(key).0,
            r == old(self)@.sing_get_mut_spec(key).1,
            r is Some <==> old(self)@.sing_slot(key).exclusive_acquirable(),
            r matches Some(v) ==> v == old(self)@.sing_slot(key).value,
    {
        let ghost pre = self@;
        match self.find_singleton(key) {
            None => {
                proof {
                    assert(false);
                }
                None
            },
            Some(j) => {
                let ghost slpre = pre.singletons[j as int];
                let sl = &mut self.singletons[j];
                let r = sl.get_mut();
                proof {
                    assert(self@.singletons =~= pre.singletons.update(
                        j as int,
                        slpre.acquire_exclusive_spec(),
                    ));
                    assert(self@ =~= pre.sing_get_mut_spec(key).0);
                }
                r
            },
        }
    }

    /// Returns one shared borrow of the singleton of the kind `key` names.
    pub fn singleton_release(&mut self, key: u128)
        requires
            old(self)@.wf(),
            old(self)@.sing_registered(key),
        ensures
            final(self)@.wf(),
            final(self)@ == old(self)@.sing_release_spec(key),
    {
        let ghost pre = self@;
        match self.find_singleton(key) {
            None => {
                proof {
                    assert(false);
                }
            },
            Some(j) => {
                let ghost slpre = pre.singletons[j as int];
                let sl = &mut self.singletons[j];
                sl.release();
                proof {
                    assert(self@.singletons =~= pre.singletons.update(
                        j as int,
                        slpre.release_shared_spec(),
                    ));
                    assert(self@ =~= pre.sing_release_spec(key));
                }
            },
        }
    }

    /// Returns the exclusive borrow of the singleton of the kind `key`
    /// names, writing `v` into the slot.
    pub fn singleton_mut_release(&mut self, key: u128, v: V)
        requires
            old(self)@.wf(),
            old(self)@.sing_registered(key),
            v.key() == key,
        ensures
            final(self)@.wf(),
            final(self)@ == old(self)@.sing_release_mut_spec(key, v),
    {
        let ghost pre = self@;
        match self.find_singleton(key) {
            None => {
                proof {
                    assert(false);
                }
            },
            Some(j) => {
                let ghost slpre = pre.singletons[j as int];
                let sl = &mut self.singletons[j];
                sl.release_mut(v);
                proof {
                    assert(self@.singletons =~= pre.singletons.update(
                        j as int,
                        slpre.release_exclusive_spec(v),
                    ));
                    assert(self@ =~= pre.sing_release_mut_spec(key, v));
                }
            },
        }
    }

    /// The observable components of the kind `key` names: each entity that
    /// holds one in a cell that is not exclusively held, with an owned copy
    /// of the value, in slot order. No borrow is taken.
    pub fn components(&self, key: u128) -> (r: Vec<(EntityId, V)>)
        requires
            self@.wf(),
            self@.comp_registered(key),
        ensures
            r@ == StorageView::<V>::pairs_from(self@.comp_store(key).cells, 0),
    {
        match self.find_component(key) {
            None => {
                proof {
                    assert(false);
                }
                Vec::new()
            },
            Some(j) => {
                let st = &self.components[j];
                proof {
                    assert(self@.comp_store(key) == self.components@[j as int]@);
                }
                st.pairs()
            },
        }
    }

    /// The live entity handles, in slot (allocator) order.
    pub fn iter(&self) -> (r: Vec<EntityId>)
        ensures
            r@ == self@.entities.live_ids(),
    {
        self.entities.iter()
    }

    /// How many entities are live.
    pub fn len(&self) -> (n: usize)
        ensures
            n == self@.entities.live_count(),
    {
        self.entities.len()
    }

    /// Records a deferred mutation to run at the next [`Registry::execute`].
    pub fn push(&mut self, c: Command<V>)
        ensures
            final(self)@ == (RegistryView { queue: old(self)@.queue.push(c), ..old(self)@ }),
    {
        self.commands.push(c);
        proof {
            assert(self@ =~= (RegistryView { queue: old(self)@.queue.push(c), ..old(self)@ }));
        }
    }

    /// Applies one deferred command. A command naming an unregistered
    /// component kind does nothing.
    pub(crate) fn apply_command(&mut self, c: Command<V>)
        requires
            old(self)@.wf(),
        ensures
            final(self)@.wf(),
            final(self)@ == old(self)@.apply_command_spec(c),
    {
        let ghost pre = self@;
        match c {
            Command::Spawn => {
                let _ = self.spawn();
            },
            Command::Despawn(id) => {
                self.despawn(id);
            },
            Command::Attach(id, v) => {
                let k = v.type_key();
                match self.find_component(k) {
                    Some(_) => {
                        let _ = self.component_attach(id, v);
                    },
                    None => {
                        proof {
                            assert(self@ =~= pre.attach_spec(id, v).0);
                        }
                    },
                }
            },
            Command::Detach(id, key) => {
                match self.find_component(key) {
                    Some(_) => {
                        let _ = self.component_detach(id, key);
                    },
                    None => {
                        proof {
                            assert(self@ =~= pre.detach_spec(id, key).0);
                        }
                    },
                }
            },
        }
    }

    /// Takes the queued commands as a snapshot, empties the live queue, and
    /// applies the snapshot in submission order: commands pushed while this
    /// runs wait for the next call.
    pub fn execute(&mut self)
        requires
            old(self)@.wf(),
        ensures
            final(self)@.wf(),
            final(self)@ == old(self)@.execute_spec(),
    {
        let ghost pre = self@;
        let mut q: Commands<V> = Commands::new();
        core::mem::swap(&mut q, &mut self.commands);
        proof {
            assert(self@ =~= (RegistryView { queue: Seq::empty(), ..pre }));
        }
        q.execute(self);
    }

    /// Empties the slot table and every column store and resets every
    /// singleton to its kind's default value — the reset of singleton state
    /// is an intended, observable effect. The command queue is not touched.
    pub fn clear(&mut self) where V: Singleton
        requires
            old(self)@.wf(),
        ensures
            final(self)@.wf(),
            final(self)@ == old(self)@.clear_spec(),
            final(self)@.entities.live_count() == 0,
            forall|e: EntityId| !final(self)@.entities.spec_live(e),
    {
        let ghost pre = self@;
        self.entities.clear();
        proof {
            assert forall|j: int| 0 <= j < pre.components.len() implies (
            #[trigger] self.components@[j])@ == pre.components[j] by {
                assert(pre.components[j] == self.components@[j]@);
            }
        }
        let mut i: usize = 0;
        while i < self.components.len()
            invariant
                0 <= i <= self.components@.len(),
                self.components@.len() == pre.components.len(),
                self.entities@ == pre.entities.clear_spec(),
                self.singletons@ == pre.singletons,
                self.commands.items@ == pre.queue,
                forall|j: int|
                    0 <= j < i ==> (#[trigger] self.components@[j])@ == pre.components[j].clear_spec(),
                forall|j: int| i <= j < pre.components.len() ==> (#[trigger] self.components@[j])@
                    == pre.components[j],
                forall|j: int| 0 <= j < pre.components.len() ==> (#[trigger] self.components@[j])@.wf(),
            decreases self.components@.len() - i,
        {
            let st = &mut self.components[i];
            st.clear();
            i = i + 1;
        }
        let mut i: usize = 0;
        while i < self.singletons.len()
            invariant
                0 <= i <= self.singletons@.len(),
                self.singletons@.len() == pre.singletons.len(),
                self.entities@ == pre.entities.clear_spec(),
                self.commands.items@ == pre.queue,
                self.components@.map_values(|s: Storage<V>| s@) =~= pre.components.map_values(
                    |s: StorageView<V>| s.clear_spec(),
                ),
                forall|j: int|
                    0 <= j < i ==> self.singletons@[j] == (#[trigger] pre.singletons[j]).clear_spec(),
                forall|j: int| i <= j < pre.singletons.len() ==> self.singletons@[j] == #[trigger] pre.singletons[j],
                forall|j: int| 0 <= j < pre.singletons.len() ==> (#[trigger] self.singletons@[j]).wf(),
            decreases self.singletons@.len() - i,
        {
            let sl = &mut self.singletons[i];
            sl.clear();
            i = i + 1;
        }
        proof {
            assert(self@.singletons =~= pre.singletons.map_values(
                |s: SingletonStorage<V>| s.clear_spec(),
            ));
            assert(self@ =~= pre.clear_spec());
        }
    }

    /// A deep copy: the same entities, stores and singleton values, with a
    /// command queue of its own that starts empty. The copy shares no state
    /// with the original: mutating either one never changes the other, which
    /// own their values outright.
    pub fn clone(&self) -> (r: Registry<V>)
        requires
            self@.wf(),
        ensures
            r@.wf(),
            r@.entities == self@.entities,
            r@.components == self@.components,
            r@.singletons == self@.singletons,
            r@.queue == Seq::<Command<V>>::empty(),
    {
        let mut slots: Vec<crate::entity::Slot> = Vec::new();
        let mut i: usize = 0;
        while i < self.entities.slots.len()
            invariant
                0 <= i <= self.entities.slots@.len(),
                slots@ =~= self.entities.slots@.subrange(0, i as int),
            decreases self.entities.slots@.len() - i,
        {
            slots.push(self.entities.slots[i]);
            i = i + 1;
        }
        let mut free: Vec<usize> = Vec::new();
        let mut i: usize = 0;
        while i < self.entities.free.len()
            invariant
                0 <= i <= self.entities.free@.len(),
                free@ =~= self.entities.free@.subrange(0, i as int),
            decreases self.entities.free@.len() - i,
        {
            free.push(self.entities.free[i]);
            i = i + 1;
        }
        let mut components: Vec<Storage<V>> = Vec::new();
        let mut i: usize = 0;
        while i < self.components.len()
            invariant
                0 <= i <= self.components@.len(),
                components@.len() == i,
                forall|j: int| 0 <= j < i ==> (#[trigger] components@[j])@ == self.components@[j]@,
            decreases self.components@.len() - i,
        {
            let src = &self.components[i];
            let mut cells: Vec<Option<StoreCell<V>>> = Vec::new();
            let mut n: usize = 0;
            while n < src.cells.len()
                invariant
                    0 <= n <= src.cells@.len(),
                    cells@ =~= src.cells@.subrange(0, n as int),
                decreases src.cells@.len() - n,
            {
                match &src.cells[n] {
                    None => cells.push(None),
                    Some(c) => cells.push(
                        Some(
                            StoreCell {
                                generation: c.generation,
                                state: c.state,
                                value: c.value.duplicate(),
                            },
                        ),
                    ),
                }
                proof {
                    assert(cells@ =~= src.cells@.subrange(0, n + 1 as int));
                }
                n = n + 1;
            }
            proof {
                assert(cells@ =~= src.cells@);
            }
            components.push(Storage { key: src.key, cells });
            i = i + 1;
        }
        let mut singletons: Vec<SingletonStorage<V>> = Vec::new();
        let mut i: usize = 0;
        while i < self.singletons.len()
            invariant
                0 <= i <= self.singletons@.len(),
                singletons@ =~= self.singletons@.subrange(0, i as int),
            decreases self.singletons@.len() - i,
        {
            let src = &self.singletons[i];
            singletons.push(
                SingletonStorage { key: src.key, state: src.state, value: src.value.duplicate() },
            );
            proof {
                assert(singletons@ =~= self.singletons@.subrange(0, i + 1 as int));
            }
            i = i + 1;
        }
        let r = Registry {
            entities: EntityTable { slots, free },
            components,
            singletons,
            commands: Commands::new(),
        };
        proof {
            assert(r@.entities =~= self@.entities);
            assert(r@.components =~= self@.components);
            assert(r@.singletons =~= self@.singletons);
        }
        r
    }
}

impl<V: Component> RegistryView<V> {
    /// A despawned handle resolves nowhere: after a despawn, no registered
    /// kind has a component present for the handle, and both the shared and
    /// the exclusive access yield nothing for it.
    pub proof fn lemma_despawn_unreachable(s: RegistryView<V>, id: EntityId, key: u128)
        requires
            s.wf(),
        ensures
            !s.despawn_spec(id).comp_present(key, id),
            s.despawn_spec(id).comp_get_spec(key, id).1 is None,
            s.despawn_spec(id).comp_get_mut_spec(key, id).1 is None,
    {
        let d = s.despawn_spec(id);
        assert(d.components.len() == s.components.len());
        if d.comp_registered(key) {
            let j = d.comp_index(key);
            assert(d.components[j].key == key);
            assert(d.components[j] == s.components[j].purge_spec(id));
            assert(!d.components[j].present(id));
            assert(d.comp_store(key) == d.components[j]);
        }
    }
}

impl<V: Singleton> RegistryView<V> {
    /// Clearing twice is clearing once: a second clear finds nothing live,
    /// empty stores, and singletons already at their defaults.
    pub proof fn lemma_clear_idempotent(s: RegistryView<V>)
        ensures
            s.clear_spec().clear_spec() == s.clear_spec(),
    {
        EntityTable::lemma_clear_idempotent(s.entities);
        let s1 = s.clear_spec();
        assert(s1.clear_spec().components =~= s1.components);
        assert(s1.clear_spec().singletons =~= s1.singletons);
        assert(s1.clear_spec() =~= s1);
    }
}

} // verus!
