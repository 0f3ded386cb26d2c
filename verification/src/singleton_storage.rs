//! The erased singleton slot: exactly one value of one component kind.
//!
//! A singleton exists from registration on and is never removed; a clear
//! resets it to the kind's default value. Access goes through the same
//! non-blocking reader/writer lock as a column-store cell.

use vstd::prelude::*;

use crate::component::Component;
use crate::component::Singleton;
use crate::storage::Lock;

verus! {

/// Single-value storage for one component kind: the type key, the lock, and
/// the current value.
pub struct SingletonStorage<V> {
    pub key: u128,
    pub state: Lock,
    pub value: V,
}

impl<V: Component> SingletonStorage<V> {
    /// Well-formedness: the value is of this slot's kind, and a shared lock
    /// counts at least one reader.
    pub open spec fn wf(self) -> bool {
        &&& self.value.key() == self.key
        &&& (self.state matches Lock::Shared(n) ==> n >= 1)
    }

    /// Whether a shared borrow can be granted now.
    pub open spec fn shared_acquirable(self) -> bool {
        match self.state {
            Lock::Free => true,
            Lock::Shared(n) => n < u32::MAX,
            Lock::Exclusive => false,
        }
    }

    /// Whether the exclusive borrow can be granted now.
    pub open spec fn exclusive_acquirable(self) -> bool {
        self.state is Free
    }

    /// The slot after granting a shared borrow; an ungrantable request
    /// changes nothing.
    pub open spec fn acquire_shared_spec(self) -> SingletonStorage<V> {
        if self.shared_acquirable() {
            let n = match self.state {
                Lock::Free => 1u32,
                Lock::Shared(n) => (n + 1) as u32,
                Lock::Exclusive => 1u32,
            };
            SingletonStorage { key: self.key, state: Lock::Shared(n), value: self.value }
        } else {
            self
        }
    }

    /// The slot after granting the exclusive borrow; an ungrantable request
    /// changes nothing.
    pub open spec fn acquire_exclusive_spec(self) -> SingletonStorage<V> {
        if self.state is Free {
            SingletonStorage { key: self.key, state: Lock::Exclusive, value: self.value }
        } else {
            self
        }
    }

    /// The slot after one shared borrow comes back.
    pub open spec fn release_shared_spec(self) -> SingletonStorage<V> {
        match self.state {
            Lock::Shared(n) => SingletonStorage {
                key: self.key,
                state: if n <= 1 {
                    Lock::Free
                } else {
                    Lock::Shared((n - 1) as u32)
                },
                value: self.value,
            },
            _ => self,
        }
    }

    /// The slot after the exclusive borrow comes back, writing `v` in.
    pub open spec fn release_exclusive_spec(self, v: V) -> SingletonStorage<V> {
        if self.state is Exclusive {
            SingletonStorage { key: self.key, state: Lock::Free, value: v }
        } else {
            self
        }
    }

    /// The slot after a clear: default value, lock free.
    pub open spec fn clear_spec(self) -> SingletonStorage<V> where V: Singleton {
        SingletonStorage { key: self.key, state: Lock::Free, value: V::default_spec(self.key) }
    }

    /// A slot for the kind `key` names, holding that kind's default value.
    pub fn new(key: u128) -> (s: SingletonStorage<V>) where V: Singleton
        ensures
            s.wf(),
            s.key == key,
            s.state == Lock::Free,
            s.value == V::default_spec(key),
    {
        SingletonStorage { key, state: Lock::Free, value: V::default_for(key) }
    }

    /// Tries to take a shared borrow of the value: an owned copy of it.
    pub fn get(&mut self) -> (r: Option<V>)
        requires
            old(self).wf(),
        ensures
            final(self).wf(),
            *final(self) == old(self).acquire_shared_spec(),
            r is Some <==> old(self).shared_acquirable(),
            r matches Some(v) ==> v == old(self).value,
    {
        let n: u32 = match self.state {
            Lock::Free => 1,
            Lock::Shared(m) => {
                if m == u32::MAX {
                    return None;
                }
                m + 1
            },
            Lock::Exclusive => {
                return None;
            },
        };
        self.state = Lock::Shared(n);
        Some(self.value.duplicate())
    }

    /// Tries to take the exclusive borrow of the value: an owned copy to
    /// mutate and hand back through [`SingletonStorage::release_mut`].
    pub fn get_mut(&mut self) -> (r: Option<V>)
        requires
            old(self).wf(),
        ensures
            final(self).wf(),
            *final(self) == old(self).acquire_exclusive_spec(),
            r is Some <==> old(self).exclusive_acquirable(),
            r matches Some(v) ==> v == old(self).value,
    {
        match self.state {
            Lock::Free => {},
            _ => {
                return None;
            },
        }
        self.state = Lock::Exclusive;
        Some(self.value.duplicate())
    }

    /// Returns one shared borrow. Without one outstanding, nothing changes.
    pub fn release(&mut self)
        requires
            old(self).wf(),
        ensures
            final(self).wf(),
            *final(self) == old(self).release_shared_spec(),
    {
        match self.state {
            Lock::Shared(n) => {
                self.state = if n <= 1 {
                    Lock::Free
                } else {
                    Lock::Shared(n - 1)
                };
            },
            _ => {},
        }
    }

    /// Returns the exclusive borrow, writing `v` into the slot. Without one
    /// outstanding, `v` is discarded and nothing changes.
    pub fn release_mut(&mut self, v: V)
        requires
            old(self).wf(),
            v.key() == old(self).key,
        ensures
            final(self).wf(),
            *final(self) == old(self).release_exclusive_spec(v),
    {
        match self.state {
            Lock::Exclusive => {
                self.value = v;
                self.state = Lock::Free;
            },
            _ => {},
        }
    }

    /// Resets the value to the kind's default and frees the lock.
    pub fn clear(&mut self) where V: Singleton
        requires
            old(self).wf(),
        ensures
            final(self).wf(),
            *final(self) == old(self).clear_spec(),
    {
        self.value = V::default_for(self.key);
        self.state = Lock::Free;
    }
}

} // verus!
