//! The deferred command queue: tagged mutation requests recorded now and
//! applied against the registry later.
//!
//! Code that is iterating may not mutate structure; it records the mutation
//! here instead. Execution snapshots the queue, empties it, and applies the
//! recorded requests in submission order, so requests pushed while a drain is
//! under way wait for the next drain.

use vstd::prelude::*;

use crate::component::Component;
use crate::entity::EntityId;
use crate::registry::Registry;
use crate::registry::RegistryView;

verus! {

/// One deferred structural mutation.
pub enum Command<V> {
    /// Allocate a fresh entity.
    Spawn,
    /// Invalidate an entity and purge it from every store.
    Despawn(EntityId),
    /// Attach a component value to an entity.
    Attach(EntityId, V),
    /// Detach the component of the given type key from an entity, dropping
    /// the detached value.
    Detach(EntityId, u128),
}

/// The FIFO queue of deferred mutations.
pub struct Commands<V> {
    pub items: Vec<Command<V>>,
}

impl<V> Commands<V> {
    /// An empty queue.
    pub fn new() -> (c: Commands<V>)
        ensures
            c.items@ =~= Seq::<Command<V>>::empty(),
    {
        Commands { items: Vec::new() }
    }

    /// Appends a request; earlier requests run first.
    pub fn push(&mut self, c: Command<V>)
        ensures
            final(self).items@ == old(self).items@.push(c),
    {
        self.items.push(c);
    }
}

impl<V: Component> Commands<V> {
    /// Applies the queued requests against `reg` in submission order,
    /// emptying the queue.
    pub fn execute(&mut self, reg: &mut Registry<V>)
        requires
            old(reg)@.wf(),
        ensures
            final(self).items@ == Seq::<Command<V>>::empty(),
            final(reg)@.wf(),
            final(reg)@ == old(reg)@.apply_all_spec(old(self).items@),
    {
        let ghost all = self.items@;
        let ghost mut k: int = 0;
        proof {
            assert(all.take(0) =~= Seq::<Command<V>>::empty());
        }
        while self.items.len() > 0
            invariant
                reg@.wf(),
                0 <= k <= all.len(),
                self.items@ =~= all.skip(k),
                reg@ == old(reg)@.apply_all_spec(all.take(k)),
            decreases self.items@.len(),
        {
            let c = self.items.remove(0);
            proof {
                assert(c == all[k]);
                assert(self.items@ =~= all.skip(k + 1));
            }
            reg.apply_command(c);
            proof {
                assert(all.take(k + 1) =~= all.take(k).push(all[k]));
                RegistryView::lemma_apply_all_push(old(reg)@, all.take(k), all[k]);
                k = k + 1;
            }
        }
        proof {
            assert(all.take(k) =~= all);
            assert(self.items@ =~= Seq::<Command<V>>::empty());
        }
    }
}

} // verus!
