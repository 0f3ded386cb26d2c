//! The query combinator: per-entity acquisition of several components at
//! once.
//!
//! A query names the component kinds it wants and the access mode for each.
//! For one entity, either every named cell can be borrowed in its mode — then
//! all the borrows are taken together and the values come back as a bundle —
//! or nothing is touched at all and the entity is skipped: an entity missing
//! any one named kind, or holding any one of them incompatibly locked, yields
//! nothing.

use vstd::prelude::*;
use vstd::seq_lib::group_seq_properties;

use crate::component::Component;
use crate::entity::EntityId;
use crate::registry::Registry;
use crate::registry::RegistryView;
use crate::storage::Lock;

verus! {

/// One requirement of a query: a component kind and the access mode asked of
/// it.
#[derive(Clone, Copy, PartialEq, Eq, Structural, Debug)]
pub struct QueryTerm {
    pub key: u128,
    pub exclusive: bool,
}

/// A query: the component kinds an entity must hold, each with its access
/// mode. The kinds must be distinct and registered.
pub struct Query {
    pub terms: Vec<QueryTerm>,
}

impl<V: Component> RegistryView<V> {
    /// Whether the query's terms name distinct, registered kinds here.
    pub open spec fn terms_wf(self, terms: Seq<QueryTerm>) -> bool {
        &&& forall|k: int| 0 <= k < terms.len() ==> self.comp_registered((#[trigger] terms[k]).key)
        &&& forall|k1: int, k2: int|
            0 <= k1 < k2 < terms.len() ==> (#[trigger] terms[k1]).key != (#[trigger] terms[k2]).key
    }

    /// Whether one term's borrow can be granted now.
    pub open spec fn term_acquirable(self, id: EntityId, t: QueryTerm) -> bool {
        if t.exclusive {
            self.comp_store(t.key).exclusive_acquirable(id)
        } else {
            self.comp_store(t.key).shared_acquirable(id)
        }
    }

    /// Whether every term's borrow can be granted now: with distinct kinds
    /// the cells are independent, so the borrows can be granted together.
    pub open spec fn can_acquire_terms(self, id: EntityId, terms: Seq<QueryTerm>) -> bool {
        forall|k: int| 0 <= k < terms.len() ==> self.term_acquirable(id, #[trigger] terms[k])
    }

    /// The registry after granting one term's borrow.
    pub open spec fn acquire_term_spec(self, id: EntityId, t: QueryTerm) -> RegistryView<V> {
        if t.exclusive {
            self.comp_get_mut_spec(t.key, id).0
        } else {
            self.comp_get_spec(t.key, id).0
        }
    }

    /// The registry after granting the terms' borrows in order.
    pub open spec fn acquire_terms_spec(self, id: EntityId, terms: Seq<QueryTerm>) -> RegistryView<
        V,
    >
        decreases terms.len(),
    {
        if terms.len() == 0 {
            self
        } else {
            self.acquire_terms_spec(id, terms.drop_last()).acquire_term_spec(id, terms.last())
        }
    }

    /// The registry after one term's borrow comes back, writing `v` back for
    /// an exclusive term.
    pub open spec fn release_term_spec(self, id: EntityId, t: QueryTerm, v: V) -> RegistryView<V> {
        if t.exclusive {
            self.comp_release_mut_spec(t.key, id, v)
        } else {
            self.comp_release_spec(t.key, id)
        }
    }

    /// The registry after the terms' borrows come back in order, writing the
    /// bundle's values back into the exclusive terms' cells.
    pub open spec fn release_terms_spec(
        self,
        id: EntityId,
        terms: Seq<QueryTerm>,
        vals: Seq<V>,
    ) -> RegistryView<V>
        decreases terms.len(),
    {
        if terms.len() == 0 {
            self
        } else {
            self.release_terms_spec(id, terms.drop_last(), vals.drop_last()).release_term_spec(
                id,
                terms.last(),
                vals.last(),
            )
        }
    }

    /// The bundle a query yields for an entity: each term's value, in term
    /// order.
    pub open spec fn term_values_spec(self, id: EntityId, terms: Seq<QueryTerm>) -> Seq<V> {
        Seq::new(terms.len(), |k: int| self.comp_value(terms[k].key, id))
    }
}

impl<V: Component> Registry<V> {
    /// Whether every term of `q` could be granted for `id` right now. Reads
    /// only; no borrow is taken.
    pub fn query_matches(&self, id: EntityId, q: &Query) -> (r: bool)
        requires
            self@.wf(),
            self@.terms_wf(q.terms@),
        ensures
            r == self@.can_acquire_terms(id, q.terms@),
    {
        let mut k: usize = 0;
        while k < q.terms.len()
            invariant
                0 <= k <= q.terms@.len(),
                self@.wf(),
                self@.terms_wf(q.terms@),
                forall|m: int| 0 <= m < k ==> self@.term_acquirable(id, #[trigger] q.terms@[m]),
            decreases q.terms@.len() - k,
        {
            let t = q.terms[k];
            match self.find_component(t.key) {
                None => {
                    proof {
                        assert(false);
                    }
                    return false;
                },
                Some(j) => {
                    let st = &self.components[j];
                    let ok: bool = if id.index < st.cells.len() as u64 {
                        match &st.cells[id.index as usize] {
                            None => false,
                            Some(c) => c.generation == id.generation && match c.state {
                                Lock::Free => true,
                                Lock::Shared(n) => !t.exclusive && n < u32::MAX,
                                Lock::Exclusive => false,
                            },
                        }
                    } else {
                        false
                    };
                    proof {
                        assert(self@.comp_store(t.key) == self.components@[j as int]@);
                    }
                    if !ok {
                        proof {
                            assert(!self@.term_acquirable(id, q.terms@[k as int]));
                        }
                        return false;
                    }
                    proof {
                        assert(self@.term_acquirable(id, q.terms@[k as int]));
                    }
                },
            }
            k = k + 1;
        }
        true
    }

    /// Tries to take every borrow `q` names for `id`, together: on success
    /// the bundle of values comes back, in term order, to be returned through
    /// [`Registry::query_release`]; if any one term cannot be granted,
    /// nothing is borrowed and nothing changes.
    pub fn query_at(&mut self, id: EntityId, q: &Query) -> (r: Option<Vec<V>>)
        requires
            old(self)@.wf(),
            old(self)@.terms_wf(q.terms@),
        ensures
            final(self)@.wf(),
            r is Some <==> old(self)@.can_acquire_terms(id, q.terms@),
            r is None ==> final(self)@ == old(self)@,
            r matches Some(vs) ==> {
                &&& final(self)@ == old(self)@.acquire_terms_spec(id, q.terms@)
                &&& vs@ == old(self)@.term_values_spec(id, q.terms@)
                &&& vs@.len() == q.terms@.len()
            },
    {
        let ghost pre = self@;
        if !self.query_matches(id, q) {
            return None;
        }
        let mut out: Vec<V> = Vec::new();
        let mut k: usize = 0;
        while k < q.terms.len()
            invariant
                0 <= k <= q.terms@.len(),
                self@.wf(),
                pre.wf(),
                pre.terms_wf(q.terms@),
                pre.can_acquire_terms(id, q.terms@),
                self@ == pre.acquire_terms_spec(id, q.terms@.take(k as int)),
                self@.components.len() == pre.components.len(),
                forall|j: int|
                    0 <= j < pre.components.len() ==> (#[trigger] self@.components[j]).key
                        == pre.components[j].key,
                out@.len() == k,
                forall|m: int| 0 <= m < k ==> out@[m] == pre.comp_value((#[trigger] q.terms@[m]).key, id),
                forall|m: int|
                    k <= m < q.terms@.len() ==> self@.comp_store((#[trigger] q.terms@[m]).key)
                        == pre.comp_store(q.terms@[m].key),
            decreases q.terms@.len() - k,
        {
            let ghost cur = self@;
            let t = q.terms[k];
            proof {
                let j0 = pre.comp_index(t.key);
                assert(pre.comp_registered(q.terms@[k as int].key));
                assert(pre.components[j0].key == t.key);
                assert(cur.components[j0].key == t.key);
                assert(cur.comp_registered(t.key));
            }
            let r = if t.exclusive {
                self.component_mut(id, t.key)
            } else {
                self.component(id, t.key)
            };
            proof {
                assert(cur.comp_store(t.key) == pre.comp_store(t.key));
                assert(cur.term_acquirable(id, t) == pre.term_acquirable(id, t));
                assert(pre.term_acquirable(id, q.terms@[k as int]));
                assert(q.terms@.take(k + 1 as int).drop_last() =~= q.terms@.take(k as int));
                assert(q.terms@.take(k + 1 as int).last() == q.terms@[k as int]);
                assert(self@ == pre.acquire_terms_spec(id, q.terms@.take(k + 1 as int)));
            }
            match r {
                Some(v) => {
                    out.push(v);
                },
                None => {
                    proof {
                        assert(false);
                    }
                },
            }
            proof {
                // Acquiring term `k` changes only its own store's locks:
                // the suffix terms' stores, under their distinct keys, stay.
                assert forall|m: int|
                    k + 1 <= m < q.terms@.len() implies self@.comp_store(
                    (#[trigger] q.terms@[m]).key,
                ) == pre.comp_store(q.terms@[m].key) by {
                    let mk = q.terms@[m as int].key;
                    assert(mk != t.key);
                    assert(pre.comp_registered(q.terms@[m as int].key));
                    let jp = pre.comp_index(mk);
                    assert(pre.components[jp].key == mk);
                    assert(cur.components[jp].key == mk);
                    cur.lemma_comp_index_unique(mk, jp);
                    assert(cur.comp_store(mk) == cur.components[jp]);
                    assert(self@.components.len() == cur.components.len());
                    let jt = cur.comp_index(t.key);
                    assert(cur.components[jt].key == t.key);
                    assert(jt != jp);
                    assert(self@.components[jp] == cur.components[jp]);
                    assert(self@.components[jp].key == mk);
                    self@.lemma_comp_index_unique(mk, jp);
                    assert(self@.comp_store(mk) == cur.comp_store(mk));
                }
            }
            k = k + 1;
        }
        proof {
            assert(q.terms@.take(q.terms@.len() as int) =~= q.terms@);
            assert(out@ =~= pre.term_values_spec(id, q.terms@));
        }
        Some(out)
    }

    /// Returns the borrows [`Registry::query_at`] granted for `id`, writing
    /// each exclusive term's bundle value back into its cell.
    pub fn query_release(&mut self, id: EntityId, q: &Query, vals: Vec<V>)
        requires
            old(self)@.wf(),
            old(self)@.terms_wf(q.terms@),
            vals@.len() == q.terms@.len(),
            forall|k: int| 0 <= k < q.terms@.len() ==> vals@[k].key() == (#[trigger] q.terms@[k]).key,
        ensures
            final(self)@.wf(),
            final(self)@ == old(self)@.release_terms_spec(id, q.terms@, vals@),
    {
        let ghost pre = self@;
        let ghost allvals = vals@;
        let mut vals = vals;
        let mut k: usize = 0;
        while k < q.terms.len()
            invariant
                0 <= k <= q.terms@.len(),
                self@.wf(),
                pre.terms_wf(q.terms@),
                allvals.len() == q.terms@.len(),
                forall|m: int|
                    0 <= m < q.terms@.len() ==> allvals[m].key() == (#[trigger] q.terms@[m]).key,
                vals@ =~= allvals.skip(k as int),
                self@ == pre.release_terms_spec(id, q.terms@.take(k as int), allvals.take(k as int)),
                self@.components.len() == pre.components.len(),
                forall|j: int|
                    0 <= j < pre.components.len() ==> (#[trigger] self@.components[j]).key
                        == pre.components[j].key,
            decreases q.terms@.len() - k,
        {
            let t = q.terms[k];
            let v = vals.remove(0);
            proof {
                assert(v == allvals[k as int]);
                assert(vals@ =~= allvals.skip(k + 1 as int));
                let j0 = pre.comp_index(t.key);
                assert(pre.comp_registered(q.terms@[k as int].key));
                assert(pre.components[j0].key == t.key);
                assert(self@.components[j0].key == t.key);
                assert(self@.comp_registered(t.key));
            }
            if t.exclusive {
                self.component_mut_release(id, t.key, v);
            } else {
                self.component_release(id, t.key);
            }
            proof {
                assert(q.terms@.take(k + 1 as int).drop_last() =~= q.terms@.take(k as int));
                assert(allvals.take(k + 1 as int).drop_last() =~= allvals.take(k as int));
                assert(q.terms@.take(k + 1 as int).last() == q.terms@[k as int]);
                assert(allvals.take(k + 1 as int).last() == allvals[k as int]);
                assert(self@ == pre.release_terms_spec(
                    id,
                    q.terms@.take(k + 1 as int),
                    allvals.take(k + 1 as int),
                ));
            }
            k = k + 1;
        }
        proof {
            assert(q.terms@.take(q.terms@.len() as int) =~= q.terms@);
            assert(allvals.take(q.terms@.len() as int) =~= allvals);
        }
    }

    /// The live entities, in allocator order, for which every term of `q`
    /// could be granted right now: the entities the query yields. An entity
    /// missing any one named kind, or holding one incompatibly locked, is
    /// skipped. Reads only; no borrow is taken.
    pub fn query_ids(&self, q: &Query) -> (r: Vec<EntityId>)
        requires
            self@.wf(),
            self@.terms_wf(q.terms@),
        ensures
            r@ == self@.entities.live_ids().filter(
                |id: EntityId| self@.can_acquire_terms(id, q.terms@),
            ),
    {
        let ghost pred = |id: EntityId| self@.can_acquire_terms(id, q.terms@);
        let ids = self.iter();
        let mut r: Vec<EntityId> = Vec::new();
        let mut k: usize = 0;
        proof {
            reveal(Seq::filter);
            assert(ids@.take(0) =~= Seq::<EntityId>::empty());
        }
        while k < ids.len()
            invariant
                0 <= k <= ids@.len(),
                self@.wf(),
                self@.terms_wf(q.terms@),
                ids@ == self@.entities.live_ids(),
                r@ == ids@.take(k as int).filter(pred),
                pred == (|id: EntityId| self@.can_acquire_terms(id, q.terms@)),
            decreases ids@.len() - k,
        {
            let id = ids[k];
            if self.query_matches(id, q) {
                r.push(id);
            }
            proof {
                reveal(Seq::filter);
                assert(ids@.take(k + 1 as int).drop_last() =~= ids@.take(k as int));
                assert(ids@.take(k + 1 as int).last() == id);
                assert(r@ == ids@.take(k + 1 as int).filter(pred));
            }
            k = k + 1;
        }
        proof {
            assert(ids@.take(ids@.len() as int) =~= ids@);
        }
        r
    }
}

impl<V: Component> RegistryView<V> {
    /// An entity missing any one required component kind is excluded from the
    /// query's sequence, whatever else it holds: one absent kind already
    /// makes the conjunction of borrows ungrantable, so the entity is not
    /// among the query's entities.
    pub proof fn lemma_query_conjunction(
        self,
        id: EntityId,
        terms: Seq<QueryTerm>,
        k: int,
    )
        requires
            0 <= k < terms.len(),
            !self.comp_present(terms[k].key, id),
            self.comp_registered(terms[k].key),
        ensures
            !self.can_acquire_terms(id, terms),
            !self.entities.live_ids().filter(
                |e: EntityId| self.can_acquire_terms(e, terms),
            ).contains(id),
    {
        broadcast use group_seq_properties;

        assert(!self.comp_store(terms[k].key).present(id));
        assert(!self.term_acquirable(id, terms[k]));
        let pred = |e: EntityId| self.can_acquire_terms(e, terms);
        let f = self.entities.live_ids().filter(pred);
        if f.contains(id) {
            let i = choose|i: int| 0 <= i < f.len() && f[i] == id;
            self.entities.live_ids().lemma_filter_pred(pred, i);
            assert(pred(id));
        }
    }

    /// An outstanding exclusive borrow of one cell makes any further borrow
    /// of that same cell unavailable, while a free cell of another entity, or
    /// of another kind on the same entity, can still be borrowed.
    pub proof fn lemma_conflict_skip(
        self,
        key: u128,
        key2: u128,
        id: EntityId,
        id2: EntityId,
    )
        requires
            self.wf(),
            self.comp_registered(key),
            self.comp_present(key, id),
            self.comp_state(key, id) is Exclusive,
        ensures
            self.comp_get_spec(key, id).1 is None,
            self.comp_get_mut_spec(key, id).1 is None,
            self.comp_present(key, id2) && id2 != id && self.comp_state(key, id2) is Free
                ==> self.comp_get_mut_spec(key, id2).1 is Some,
            key2 != key && self.comp_registered(key2) && self.comp_present(key2, id)
                && self.comp_state(key2, id) is Free ==> self.comp_get_mut_spec(key2, id).1
                is Some,
    {
        assert(!self.comp_store(key).shared_acquirable(id));
        assert(!self.comp_store(key).exclusive_acquirable(id));
        if self.comp_present(key, id2) && id2 != id && self.comp_state(key, id2) is Free {
            assert(self.comp_store(key).exclusive_acquirable(id2));
        }
    }
}

} // verus!
