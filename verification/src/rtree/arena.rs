//! The node store: a removal-free generational arena.
//!
//! Values are kept in slots and addressed through [`Index`] handles.  A
//! handle pairs a slot number with the generation the slot had when the
//! handle was issued; dereferencing checks the generation, so a stale
//! handle can never silently alias a different value.  This store offers
//! no removal, so every live slot is at generation zero and handles stay
//! valid for the life of the arena.

use vstd::prelude::*;

verus! {

/// A stable, `Copy`-cheap handle to a slot of an [`Arena`].
#[derive(Clone, Copy, Debug, PartialEq, Eq, Hash, Structural)]
pub struct Index {
    pub slot: usize,
    pub generation: u64,
}

/// A removal-free generational arena.  Its mathematical view is the
/// sequence of stored values, in allocation order.
#[derive(Debug)]
pub struct Arena<T> {
    slots: Vec<T>,
}

impl<T> View for Arena<T> {
    type V = Seq<T>;

    closed spec fn view(&self) -> Seq<T> {
        self.slots@
    }
}

impl<T> Arena<T> {
    /// Whether `i` addresses a live slot of this arena.
    pub open spec fn valid(&self, i: Index) -> bool {
        i.slot < self@.len() && i.generation == 0
    }

    /// The number of values an arena holds always fits in a `usize`.
    pub proof fn lemma_len_bound(&self)
        ensures
            self@.len() <= usize::MAX,
    {
        vstd::std_specs::vec::axiom_spec_len(&self.slots);
    }

    /// Creates an empty arena.
    pub fn new() -> (a: Arena<T>)
        ensures
            a@ == Seq::<T>::empty(),
    {
        Arena { slots: Vec::new() }
    }

    /// The number of live values.
    pub fn len(&self) -> (n: usize)
        ensures
            n == self@.len(),
    {
        self.slots.len()
    }

    /// Stores `value` in a fresh slot, returning its handle.
    pub fn insert(&mut self, value: T) -> (i: Index)
        ensures
            final(self)@ == old(self)@.push(value),
            i == (Index { slot: old(self)@.len() as usize, generation: 0 }),
    {
        let slot = self.slots.len();
        self.slots.push(value);
        Index { slot, generation: 0 }
    }

    /// Whether `i` addresses a live slot.
    pub fn contains(&self, i: Index) -> (b: bool)
        ensures
            b == self.valid(i),
    {
        i.slot < self.slots.len() && i.generation == 0
    }

    /// The value under `i`, or `None` for an unknown or mismatched handle.
    pub fn get(&self, i: Index) -> (r: Option<&T>)
        ensures
            match r {
                Some(v) => self.valid(i) && *v == self@[i.slot as int],
                None => !self.valid(i),
            },
    {
        if i.slot < self.slots.len() && i.generation == 0 {
            Some(&self.slots[i.slot])
        } else {
            None
        }
    }

    /// A reference to the value under `i`, which must be live.
    pub fn at(&self, i: Index) -> (v: &T)
        requires
            self.valid(i),
        ensures
            *v == self@[i.slot as int],
    {
        &self.slots[i.slot]
    }

    /// A mutable reference to the value under `i`, which must be live.
    pub fn at_mut(&mut self, i: Index) -> (v: &mut T)
        requires
            old(self).valid(i),
        ensures
            *v == old(self)@[i.slot as int],
            final(self)@ == old(self)@.update(i.slot as int, *final(v)),
    {
        &mut self.slots[i.slot]
    }
}

} // verus!
