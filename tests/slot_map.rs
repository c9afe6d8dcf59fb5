use fastslotmap::{FastSlotMap, Key};

#[test]
fn insert_returns_first_key_and_value_is_reachable() {
    let mut m: FastSlotMap<i32> = FastSlotMap::new();
    let k0 = m.insert(10);
    assert_eq!(k0, Key { index: 0, generation: 0 });
    assert_eq!(m.get(k0), Some(&10));
    assert_eq!(m.len(), 1);
}

#[test]
fn remove_returns_value_and_invalidates_key() {
    let mut m: FastSlotMap<i32> = FastSlotMap::new();
    let k0 = m.insert(10);
    assert_eq!(m.remove(k0), Some(10));
    assert_eq!(m.len(), 0);
    assert_eq!(m.get(k0), None);
}

#[test]
fn reinsert_reuses_slot_with_next_generation() {
    let mut m: FastSlotMap<i32> = FastSlotMap::new();
    let k0 = m.insert(10);
    assert_eq!(m.remove(k0), Some(10));
    let k1 = m.insert(20);
    assert_eq!(k1, Key { index: 0, generation: 1 });
    assert_eq!(m.get(k1), Some(&20));
    assert_eq!(m.get(k0), None);
    assert_eq!(m.len(), 1);
}

#[test]
fn reuse_leaves_other_keys_alone() {
    let mut m: FastSlotMap<i32> = FastSlotMap::new();
    let ka = m.insert(1);
    let kb = m.insert(2);
    assert_eq!(m.remove(ka), Some(1));
    let kc = m.insert(3);
    assert_eq!(kc.index, ka.index);
    assert_eq!(kc.generation, ka.generation + 1);
    assert_eq!(m.get(kb), Some(&2));
    assert_eq!(m.get(kc), Some(&3));
    assert_eq!(m.get(ka), None);
}

#[test]
fn is_empty_only_when_no_key_is_live() {
    let mut m: FastSlotMap<u8> = FastSlotMap::new();
    assert!(m.is_empty());
    let a = m.insert(1);
    let b = m.insert(2);
    assert!(!m.is_empty());
    m.remove(a);
    assert!(!m.is_empty());
    m.remove(b);
    assert!(m.is_empty());
    m.insert(3);
    assert!(!m.is_empty());
}

#[test]
fn fresh_key_is_valid() {
    let mut m: FastSlotMap<u64> = FastSlotMap::new();
    for v in [0u64, 7, u64::MAX] {
        let k = m.insert(v);
        assert_eq!(m.get(k), Some(&v));
        assert!(m.contains(k));
    }
}

#[test]
fn removal_invalidates_and_second_remove_is_noop() {
    let mut m: FastSlotMap<u64> = FastSlotMap::new();
    let k = m.insert(5);
    let other = m.insert(6);
    assert_eq!(m.remove(k), Some(5));
    assert_eq!(m.get(k), None);
    assert!(!m.contains(k));
    assert_eq!(m.remove(k), None);
    assert_eq!(m.len(), 1);
    assert_eq!(m.get(other), Some(&6));
}

#[test]
fn generation_separates_reuse() {
    let mut m: FastSlotMap<u64> = FastSlotMap::new();
    let k1 = m.insert(100);
    m.remove(k1);
    let k2 = m.insert(200);
    assert_ne!(k1, k2);
    assert_eq!(k1.index, k2.index);
    assert_eq!(m.get(k1), None);
    assert_eq!(m.get(k2), Some(&200));
    assert!(!m.contains(k1));
}

#[test]
fn len_counts_live_keys() {
    let mut m: FastSlotMap<u32> = FastSlotMap::new();
    let keys: Vec<Key> = (0..10u32).map(|v| m.insert(v)).collect();
    assert_eq!(m.len(), 10);
    for k in keys.iter().step_by(2) {
        assert_eq!(m.remove(*k), Some(k.index));
    }
    assert_eq!(m.len(), 5);
    let live = keys.iter().filter(|k| m.contains(**k)).count();
    assert_eq!(live, 5);
    m.remove(keys[0]);
    assert_eq!(m.len(), 5);
    m.insert(42);
    assert_eq!(m.len(), 6);
}

#[test]
fn freed_slots_are_reused_last_freed_first() {
    let mut m: FastSlotMap<u32> = FastSlotMap::new();
    let a = m.insert(0);
    let b = m.insert(1);
    let c = m.insert(2);
    m.remove(a);
    m.remove(c);
    let d = m.insert(3);
    let e = m.insert(4);
    let f = m.insert(5);
    assert_eq!(d, Key { index: 2, generation: 1 });
    assert_eq!(e, Key { index: 0, generation: 1 });
    assert_eq!(f, Key { index: 3, generation: 0 });
    assert_eq!(m.get(b), Some(&1));
    assert_eq!(m.len(), 4);
}

#[test]
fn no_slot_is_handed_out_twice() {
    let mut m: FastSlotMap<u32> = FastSlotMap::new();
    let a = m.insert(0);
    let b = m.insert(1);
    m.remove(a);
    m.remove(a);
    m.remove(Key { index: 0, generation: 1 });
    m.remove(b);
    let x = m.insert(10);
    let y = m.insert(11);
    let z = m.insert(12);
    assert_ne!(x.index, y.index);
    assert_ne!(x.index, z.index);
    assert_ne!(y.index, z.index);
    assert_eq!(m.get(x), Some(&10));
    assert_eq!(m.get(y), Some(&11));
    assert_eq!(m.get(z), Some(&12));
    assert_eq!(m.len(), 3);
}

#[test]
fn foreign_and_out_of_range_keys_are_absent() {
    let mut m: FastSlotMap<u32> = FastSlotMap::new();
    let out = Key { index: 3, generation: 0 };
    assert_eq!(m.get(out), None);
    assert!(!m.contains(out));
    assert_eq!(m.remove(out), None);
    assert_eq!(m.get_mut(out), None);
    let k = m.insert(1);
    let wrong_gen = Key { index: k.index, generation: 9 };
    assert_eq!(m.get(wrong_gen), None);
    assert_eq!(m.remove(wrong_gen), None);
    assert_eq!(m.len(), 1);
    let max = Key { index: u32::MAX, generation: 0 };
    assert_eq!(m.remove(max), None);
}

#[test]
fn free_slot_with_matching_generation_is_not_live() {
    let mut m: FastSlotMap<u32> = FastSlotMap::new();
    let k = m.insert(1);
    m.remove(k);
    let forged = Key { index: k.index, generation: k.generation + 1 };
    assert_eq!(m.get(forged), None);
    assert_eq!(m.remove(forged), None);
    assert!(m.is_empty());
    let a = m.insert(2);
    let b = m.insert(3);
    assert_ne!(a.index, b.index);
}

#[test]
fn get_mut_writes_through() {
    let mut m: FastSlotMap<u32> = FastSlotMap::new();
    let k = m.insert(1);
    if let Some(v) = m.get_mut(k) {
        *v = 99;
    }
    assert_eq!(m.get(k), Some(&99));
    m.remove(k);
    assert_eq!(m.get_mut(k), None);
}
