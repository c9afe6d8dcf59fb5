//! The mathematical model of a slot map: a sequence of slots and the free
//! list in pop order, with the operations stated over them.

use vstd::prelude::*;

verus! {

/// A handle to a stored value: the slot's index and the generation that
/// slot had when the value was inserted.
#[derive(Debug, Copy, Clone, PartialEq, Eq, Structural)]
pub struct Key {
    pub index: u32,
    pub generation: u32,
}

/// The generation a slot takes when its value is removed: one more,
/// wrapping around at `u32::MAX`.
pub open spec fn next_generation(g: u32) -> u32 {
    if g == u32::MAX {
        0
    } else {
        (g + 1) as u32
    }
}

/// One slot of the model: the value last stored there, its current
/// generation, and whether it is in use.
pub struct Slot<T> {
    pub value: T,
    pub generation: u32,
    pub occupied: bool,
}

/// The abstract state of a slot map.
pub struct SlotMapModel<T> {
    /// Every slot ever allocated, by index.
    pub slots: Seq<Slot<T>>,
    /// The free slots, in the order in which `insert` will reuse them.
    pub free: Seq<u32>,
}

impl<T> SlotMapModel<T> {
    /// The state of a freshly constructed map.
    pub open spec fn empty() -> Self {
        SlotMapModel { slots: Seq::empty(), free: Seq::empty() }
    }

    /// A key denotes a live value: its slot exists, is in use, and has the
    /// key's generation.
    pub open spec fn is_live(self, k: Key) -> bool {
        &&& (k.index as int) < self.slots.len()
        &&& self.slots[k.index as int].occupied
        &&& self.slots[k.index as int].generation == k.generation
    }

    /// The value a key denotes, if it is live.
    pub open spec fn get_spec(self, k: Key) -> Option<T> {
        if self.is_live(k) {
            Some(self.slots[k.index as int].value)
        } else {
            None
        }
    }

    /// All keys that currently denote a value.
    pub open spec fn live_keys(self) -> Set<Key> {
        Set::new(|k: Key| self.is_live(k))
    }

    /// The state invariant: indices fit below the sentinel `u32::MAX`, the
    /// free list holds each unused slot exactly once and nothing else, and
    /// the live keys are as many as the slots in use.
    pub open spec fn wf(self) -> bool {
        &&& self.slots.len() <= u32::MAX
        &&& self.free.no_duplicates()
        &&& forall|j: int|
            0 <= j < self.free.len() ==> {
                &&& (#[trigger] self.free[j] as int) < self.slots.len()
                &&& !self.slots[self.free[j] as int].occupied
            }
        &&& forall|i: int|
            0 <= i < self.slots.len() && !(#[trigger] self.slots[i]).occupied ==> self.free.contains(
                i as u32,
            )
        &&& self.live_keys().finite()
        &&& self.live_keys().len() + self.free.len() == self.slots.len()
    }

    /// The key that the next insertion hands out.
    pub open spec fn next_key(self) -> Key {
        if self.free.len() > 0 {
            Key { index: self.free[0], generation: self.slots[self.free[0] as int].generation }
        } else {
            Key { index: self.slots.len() as u32, generation: 0 }
        }
    }

    /// The state after inserting `v`: the head of the free list is reused
    /// with its generation kept, or else a new slot of generation 0 is
    /// appended.
    pub open spec fn insert_spec(self, v: T) -> Self {
        if self.free.len() > 0 {
            let i = self.free[0] as int;
            SlotMapModel {
                slots: self.slots.update(
                    i,
                    Slot { value: v, generation: self.slots[i].generation, occupied: true },
                ),
                free: self.free.drop_first(),
            }
        } else {
            SlotMapModel {
                slots: self.slots.push(Slot { value: v, generation: 0, occupied: true }),
                free: self.free,
            }
        }
    }

    /// The state after removing `k`: if `k` is live, its slot advances its
    /// generation, leaves use and goes to the head of the free list;
    /// otherwise nothing changes.
    pub open spec fn remove_spec(self, k: Key) -> Self {
        if self.is_live(k) {
            let i = k.index as int;
            SlotMapModel {
                slots: self.slots.update(
                    i,
                    Slot {
                        value: self.slots[i].value,
                        generation: next_generation(self.slots[i].generation),
                        occupied: false,
                    },
                ),
                free: seq![k.index].add(self.free),
            }
        } else {
            self
        }
    }

    /// The state after overwriting the value in the slot of `k`.
    pub open spec fn set_value(self, k: Key, v: T) -> Self {
        let i = k.index as int;
        SlotMapModel {
            slots: self.slots.update(
                i,
                Slot { value: v, generation: self.slots[i].generation, occupied: true },
            ),
            free: self.free,
        }
    }
}

/// Inserting into a well-formed map hands out a key that was not live,
/// makes exactly that key live in addition to the old ones, and keeps the
/// invariant.
pub proof fn lemma_insert<T>(m: SlotMapModel<T>, v: T)
    requires
        m.wf(),
        m.live_keys().len() < u32::MAX,
    ensures
        !m.is_live(m.next_key()),
        m.insert_spec(v).wf(),
        m.insert_spec(v).live_keys() == m.live_keys().insert(m.next_key()),
        m.insert_spec(v).get_spec(m.next_key()) == Some(v),
{
    let k = m.next_key();
    let m2 = m.insert_spec(v);
    if m.free.len() > 0 {
        let i = m.free[0] as int;
        assert(!m.slots[i].occupied);
        assert forall|j: int, l: int|
            0 <= j < m2.free.len() && 0 <= l < m2.free.len() && j != l implies m2.free[j]
            != m2.free[l] by {
            assert(m2.free[j] == m.free[j + 1]);
            assert(m2.free[l] == m.free[l + 1]);
        }
        assert forall|j: int| 0 <= j < m2.free.len() implies {
            &&& (#[trigger] m2.free[j] as int) < m2.slots.len()
            &&& !m2.slots[m2.free[j] as int].occupied
        } by {
            assert(m2.free[j] == m.free[j + 1]);
            assert(m.free[j + 1] != m.free[0]);
        }
        assert forall|x: int|
            0 <= x < m2.slots.len() && !(#[trigger] m2.slots[x]).occupied implies m2.free.contains(
                x as u32,
            ) by {
            assert(x != i);
            assert(m.free.contains(x as u32));
            let j = choose|j: int| 0 <= j < m.free.len() && m.free[j] == x as u32;
            assert(j != 0);
            assert(m2.free[j - 1] == x as u32);
        }
    } else {
        assert forall|x: int| 0 <= x < m.slots.len() implies (#[trigger] m.slots[x]).occupied by {
            if !m.slots[x].occupied {
                assert(m.free.contains(x as u32));
            }
        }
        assert(m.slots.len() < u32::MAX);
    }
    assert(m2.live_keys() =~= m.live_keys().insert(k));
}

/// Removing a live key from a well-formed map makes exactly that key stop
/// being live and keeps the invariant.
pub proof fn lemma_remove<T>(m: SlotMapModel<T>, k: Key)
    requires
        m.wf(),
        m.is_live(k),
    ensures
        m.remove_spec(k).wf(),
        m.remove_spec(k).live_keys() == m.live_keys().remove(k),
        m.live_keys().len() > 0,
{
    let m2 = m.remove_spec(k);
    let i = k.index as int;
    assert(m.live_keys().contains(k));
    assert(!m.free.contains(k.index)) by {
        if m.free.contains(k.index) {
            let j = choose|j: int| 0 <= j < m.free.len() && m.free[j] == k.index;
            assert(!m.slots[m.free[j] as int].occupied);
        }
    }
    assert forall|j: int, l: int|
        0 <= j < m2.free.len() && 0 <= l < m2.free.len() && j != l implies m2.free[j]
        != m2.free[l] by {
        if j > 0 {
            assert(m2.free[j] == m.free[j - 1]);
        }
        if l > 0 {
            assert(m2.free[l] == m.free[l - 1]);
        }
    }
    assert forall|j: int| 0 <= j < m2.free.len() implies {
        &&& (#[trigger] m2.free[j] as int) < m2.slots.len()
        &&& !m2.slots[m2.free[j] as int].occupied
    } by {
        if j > 0 {
            assert(m2.free[j] == m.free[j - 1]);
        }
    }
    assert forall|x: int|
        0 <= x < m2.slots.len() && !(#[trigger] m2.slots[x]).occupied implies m2.free.contains(
            x as u32,
        ) by {
        if x == i {
            assert(m2.free[0] == x as u32);
        } else {
            assert(m.free.contains(x as u32));
            let j = choose|j: int| 0 <= j < m.free.len() && m.free[j] == x as u32;
            assert(m2.free[j + 1] == x as u32);
        }
    }
    assert(m2.live_keys() =~= m.live_keys().remove(k));
}

/// A freshly inserted value is reachable through the key that insertion
/// returned.
pub proof fn lemma_fresh_key_valid<T>(m: SlotMapModel<T>, v: T)
    requires
        m.wf(),
        m.live_keys().len() < u32::MAX,
    ensures
        m.insert_spec(v).is_live(m.next_key()),
        m.insert_spec(v).get_spec(m.next_key()) == Some(v),
{
    lemma_insert(m, v);
}

/// After a live key is removed, it no longer denotes a value, and removing
/// it again changes nothing and yields nothing.
pub proof fn lemma_removal_invalidates<T>(m: SlotMapModel<T>, k: Key)
    requires
        m.wf(),
        m.is_live(k),
    ensures
        m.get_spec(k) is Some,
        !m.remove_spec(k).is_live(k),
        m.remove_spec(k).get_spec(k) is None,
        m.remove_spec(k).remove_spec(k) == m.remove_spec(k),
{
    lemma_remove(m, k);
}

/// Insert `v1`, remove its key, insert `v2`: the second key reuses the slot
/// with the next generation, so the two keys differ, the old one denotes
/// nothing and the new one denotes `v2`.
pub proof fn lemma_generation_separates_reuse<T>(m: SlotMapModel<T>, v1: T, v2: T)
    requires
        m.wf(),
        m.live_keys().len() < u32::MAX,
    ensures
        ({
            let k1 = m.next_key();
            let m1 = m.insert_spec(v1);
            let m2 = m1.remove_spec(k1);
            let k2 = m2.next_key();
            let m3 = m2.insert_spec(v2);
            &&& k2.index == k1.index
            &&& k2.generation == next_generation(k1.generation)
            &&& k1 != k2
            &&& m3.get_spec(k1) is None
            &&& m3.get_spec(k2) == Some(v2)
        }),
{
    let k1 = m.next_key();
    let m1 = m.insert_spec(v1);
    lemma_insert(m, v1);
    lemma_remove(m1, k1);
    let m2 = m1.remove_spec(k1);
    assert(m2.live_keys() =~= m.live_keys());
    lemma_insert(m2, v2);
}

} // verus!
