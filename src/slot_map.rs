//! The executable slot map: values, generations, occupancy flags and the
//! links of the free list, kept in parallel vectors.

use vstd::prelude::*;

use crate::model::{lemma_insert, lemma_remove, Key, Slot, SlotMapModel};

verus! {

/// Marks the end of the free list, and a slot that links nowhere.
pub const NO_SLOT: u32 = u32::MAX;

/// A generational slot map. Mutation takes `&mut self`, so one writer at a
/// time; the free list is made of plain indices.
///
/// A key is only meaningful for the map that issued it; a key from another
/// map is looked up like any other and may or may not denote a value.
///
/// Generations are `u32` and wrap around: after a slot has been removed
/// 2^32 times, a key from its first use would again match. That risk is
/// accepted rather than refused.
pub struct FastSlotMap<T> {
    values: Vec<T>,
    generations: Vec<u32>,
    occupied: Vec<bool>,
    next_free: Vec<u32>,
    free_head: u32,
    len: u32,
    free: Ghost<Seq<u32>>,
}

impl<T> View for FastSlotMap<T> {
    type V = SlotMapModel<T>;

    closed spec fn view(&self) -> SlotMapModel<T> {
        SlotMapModel {
            slots: Seq::new(
                self.values.len() as nat,
                |i: int|
                    Slot {
                        value: self.values@[i],
                        generation: self.generations@[i],
                        occupied: self.occupied@[i],
                    },
            ),
            free: self.free@,
        }
    }
}

impl<T> FastSlotMap<T> {
    /// The representation invariant: the model is well formed, the vectors
    /// are parallel, `free_head` and `next_free` thread the free list in
    /// order, and `len` counts the live keys.
    pub closed spec fn wf(&self) -> bool {
        &&& self@.wf()
        &&& self.generations@.len() == self.values@.len()
        &&& self.occupied@.len() == self.values@.len()
        &&& self.next_free@.len() == self.values@.len()
        &&& self.free_head == if self.free@.len() == 0 {
            NO_SLOT
        } else {
            self.free@[0]
        }
        &&& forall|j: int|
            0 <= j < self.free@.len() ==> self.next_free@[#[trigger] self.free@[j] as int] == if j
                + 1 < self.free@.len() {
                self.free@[j + 1]
            } else {
                NO_SLOT
            }
        &&& self.len as nat == self@.live_keys().len()
    }

    /// A well-formed map satisfies the model's invariant; in particular its
    /// free list never holds an index twice, nor an index that is in use.
    pub proof fn lemma_free_list_unique(&self)
        requires
            self.wf(),
        ensures
            self@.wf(),
            self@.free.no_duplicates(),
            forall|j: int|
                0 <= j < self@.free.len() ==> !self@.slots[#[trigger] self@.free[j] as int].occupied,
    {
    }

    /// Overwriting the value in the slot of a live key, and nothing else,
    /// keeps the invariant and changes the model by `set_value`.
    proof fn lemma_value_update(&self, key: Key)
        requires
            self.wf(),
            self@.is_live(key),
        ensures
            forall|s: Self|
                #![trigger s.wf()]
                #![trigger s@]
                s.values@ == self.values@.update(key.index as int, s.values@[key.index as int])
                    && s.generations == self.generations && s.occupied == self.occupied
                    && s.next_free == self.next_free && s.free_head == self.free_head && s.len
                    == self.len && s.free == self.free ==> s.wf() && s@ == self@.set_value(
                    key,
                    s.values@[key.index as int],
                ),
    {
        assert forall|s: Self|
            s.values@ == self.values@.update(key.index as int, s.values@[key.index as int])
                && s.generations == self.generations && s.occupied == self.occupied
                && s.next_free == self.next_free && s.free_head == self.free_head && s.len
                == self.len && s.free == self.free implies s.wf() && s@ == self@.set_value(
            key,
            s.values@[key.index as int],
        ) by {
            let v = s.values@[key.index as int];
            assert(s@.slots =~= self@.set_value(key, v).slots);
            assert(s@.live_keys() =~= self@.live_keys());
        }
    }
}

impl<T: Default + Copy> FastSlotMap<T> {
    /// An empty map.
    pub fn new() -> (r: Self)
        ensures
            r.wf(),
            r@ == SlotMapModel::<T>::empty(),
            r@.live_keys() == Set::<Key>::empty(),
    {
        let r = FastSlotMap {
            values: Vec::new(),
            generations: Vec::new(),
            occupied: Vec::new(),
            next_free: Vec::new(),
            free_head: NO_SLOT,
            len: 0,
            free: Ghost(Seq::empty()),
        };
        assert(r@.slots =~= Seq::<Slot<T>>::empty());
        assert(r@.live_keys() =~= Set::<Key>::empty());
        r
    }

    /// Stores `value` and returns its key: the most recently freed slot is
    /// reused with its current generation, or else a new slot of generation
    /// 0 is appended.
    pub fn insert(&mut self, value: T) -> (k: Key)
        requires
            old(self).wf(),
            old(self)@.live_keys().len() < u32::MAX,
        ensures
            final(self).wf(),
            k == old(self)@.next_key(),
            final(self)@ == old(self)@.insert_spec(value),
            !old(self)@.is_live(k),
            final(self)@.live_keys() == old(self)@.live_keys().insert(k),
    {
        proof {
            lemma_insert(self@, value);
        }
        let ghost m = self@;
        if self.free_head != NO_SLOT {
            let index = self.free_head;
            let i = index as usize;
            let next = self.next_free[i];
            let generation = self.generations[i];
            self.free_head = next;
            self.values.set(i, value);
            self.occupied.set(i, true);
            self.len = self.len + 1;
            self.free = Ghost(self.free@.drop_first());
            assert(self@.slots =~= m.insert_spec(value).slots);
            assert forall|j: int| 0 <= j < self.free@.len() implies self.next_free@[
                #[trigger] self.free@[j] as int] == if j + 1 < self.free@.len() {
                self.free@[j + 1]
            } else {
                NO_SLOT
            } by {
                assert(self.free@[j] == m.free[j + 1]);
            }
            Key { index, generation }
        } else {
            let index = self.values.len() as u32;
            self.values.push(value);
            self.generations.push(0);
            self.occupied.push(true);
            self.next_free.push(NO_SLOT);
            self.len = self.len + 1;
            assert(self@.slots =~= m.insert_spec(value).slots);
            Key { index, generation: 0 }
        }
    }

    /// The value that `key` denotes, if it is live.
    pub fn get(&self, key: Key) -> (r: Option<&T>)
        requires
            self.wf(),
        ensures
            match r {
                Some(x) => self@.get_spec(key) == Some(*x),
                None => self@.get_spec(key) is None,
            },
    {
        let i = key.index as usize;
        if i < self.values.len() && self.occupied[i] && self.generations[i] == key.generation {
            Some(&self.values[i])
        } else {
            None
        }
    }

    /// Mutable access to the value that `key` denotes, if it is live. What
    /// is written through the reference becomes the value of that key.
    pub fn get_mut(&mut self, key: Key) -> (r: Option<&mut T>)
        requires
            old(self).wf(),
        ensures
            match r {
                Some(x) => {
                    &&& old(self)@.get_spec(key) == Some(*x)
                    &&& final(self).wf()
                    &&& final(self)@ == old(self)@.set_value(key, *final(x))
                },
                None => {
                    &&& old(self)@.get_spec(key) is None
                    &&& *final(self) == *old(self)
                },
            },
    {
        let i = key.index as usize;
        if i < self.values.len() && self.occupied[i] && self.generations[i] == key.generation {
            proof {
                self.lemma_value_update(key);
            }
            Some(&mut self.values[i])
        } else {
            None
        }
    }

    /// Removes the value that `key` denotes and returns it. A key that is
    /// not live (stale, already removed, or out of range) leaves the map
    /// unchanged and gives `None`.
    pub fn remove(&mut self, key: Key) -> (r: Option<T>)
        requires
            old(self).wf(),
        ensures
            final(self).wf(),
            r == old(self)@.get_spec(key),
            final(self)@ == old(self)@.remove_spec(key),
            final(self)@.live_keys() == old(self)@.live_keys().remove(key),
    {
        let i = key.index as usize;
        if i < self.values.len() && self.occupied[i] && self.generations[i] == key.generation {
            proof {
                lemma_remove(self@, key);
            }
            let ghost m = self@;
            let value = self.values[i];
            self.generations.set(i, key.generation.wrapping_add(1));
            self.occupied.set(i, false);
            self.next_free.set(i, self.free_head);
            self.free_head = key.index;
            self.len = self.len - 1;
            self.free = Ghost(seq![key.index].add(self.free@));
            assert(self@.slots =~= m.remove_spec(key).slots);
            assert forall|j: int| 0 <= j < self.free@.len() implies self.next_free@[
                #[trigger] self.free@[j] as int] == if j + 1 < self.free@.len() {
                self.free@[j + 1]
            } else {
                NO_SLOT
            } by {
                if j > 0 {
                    assert(self.free@[j] == m.free[j - 1]);
                    assert(m.free[j - 1] != key.index);
                }
            }
            Some(value)
        } else {
            None
        }
    }

    /// Whether `key` denotes a live value.
    pub fn contains(&self, key: Key) -> (r: bool)
        requires
            self.wf(),
        ensures
            r == self@.is_live(key),
    {
        self.get(key).is_some()
    }

    /// The number of live values, that is of keys that currently denote one.
    pub fn len(&self) -> (r: u32)
        requires
            self.wf(),
        ensures
            r as nat == self@.live_keys().len(),
    {
        self.len
    }

    /// Whether no key denotes a value.
    pub fn is_empty(&self) -> (r: bool)
        requires
            self.wf(),
        ensures
            r == (self@.live_keys().len() == 0),
            r == (self@.live_keys() == Set::<Key>::empty()),
    {
        proof {
            if self@.live_keys().len() == 0 {
                self@.live_keys().lemma_len0_is_empty();
            }
        }
        self.len() == 0
    }
}

} // verus!
