use pijama::dataflow::bit_set::BitSet;
use pijama::index::{Index, IndexMap};
use pijama::mir::Local;

#[test]
fn bitset_insert_remove_get() {
    let mut s = BitSet::new(20);
    assert!(!s.get(0));
    assert!(!s.get(19));
    s.insert(0);
    s.insert(9);
    s.insert(19);
    assert!(s.get(0));
    assert!(s.get(9));
    assert!(s.get(19));
    assert!(!s.get(1));
    s.remove(9);
    assert!(!s.get(9));
    assert!(s.get(0));
}

#[test]
fn bitset_full_holds_every_slot() {
    let s = BitSet::full(10);
    for i in 0..10 {
        assert!(s.get(i));
    }
}

#[test]
fn bitset_union_intersection_difference() {
    let mut a = BitSet::new(16);
    a.insert(1);
    a.insert(2);
    let mut b = BitSet::new(16);
    b.insert(2);
    b.insert(3);

    let mut u = BitSet::new(16);
    u.union(&a);
    u.union(&b);
    assert!(u.get(1) && u.get(2) && u.get(3) && !u.get(0));

    let mut i = BitSet::full(16);
    i.intersection(&a);
    i.intersection(&b);
    assert!(!i.get(1) && i.get(2) && !i.get(3));

    let mut d = BitSet::new(16);
    d.union(&a);
    d.difference(&b);
    assert!(d.get(1) && !d.get(2) && !d.get(3));
}

#[test]
fn bitset_iter_lists_every_slot() {
    let mut s = BitSet::new(10);
    s.insert(3);
    s.insert(7);
    let bools = s.iter();
    assert_eq!(bools.len(), 16);
    for (i, b) in bools.iter().enumerate() {
        assert_eq!(*b, i == 3 || i == 7);
    }
}

#[test]
fn bitset_same_compares_words() {
    let mut a = BitSet::new(12);
    let mut b = BitSet::new(12);
    assert!(a.same(&b));
    a.insert(5);
    assert!(!a.same(&b));
    b.insert(5);
    assert!(a.same(&b));
}

#[test]
fn index_map_push_assigns_dense_keys() {
    let mut m: IndexMap<Local, u32> = IndexMap::new();
    assert_eq!(m.len(), 0);
    let a = m.push(10);
    let b = m.push(20);
    assert_eq!(a, Local(0));
    assert_eq!(b, Local(1));
    assert_eq!(m.len(), 2);
    assert_eq!(*m.get(a).unwrap(), 10);
    assert_eq!(*m.get(b).unwrap(), 20);
    assert!(m.get(Local(2)).is_none());
}

#[test]
fn index_map_get_mut_updates() {
    let mut m: IndexMap<Local, u32> = IndexMap::with_capacity(4);
    let k = m.push(1);
    *m.get_mut(k) = 9;
    assert_eq!(*m.at(k), 9);
}

#[test]
fn index_map_keys_and_iter() {
    let mut m: IndexMap<Local, u32> = IndexMap::new();
    m.push(5);
    m.push(6);
    let keys = m.keys();
    assert_eq!(keys, vec![Local(0), Local(1)]);
    let pairs = m.iter();
    assert_eq!(pairs, vec![(Local(0), 5), (Local(1), 6)]);
}

#[test]
fn index_map_repeat_fills_slots() {
    let m: IndexMap<Local, Vec<u8>> = IndexMap::repeat(Vec::new, 3);
    assert_eq!(m.len(), 3);
    assert!(m.at(Local(2)).is_empty());
}

#[test]
fn index_trait_round_trips() {
    let l = Local::new(7);
    assert_eq!(l.index(), 7);
}
