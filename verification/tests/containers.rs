//! Tests of the containers: the bitfield and the hashmap.

use maestro::bitfield::Bitfield;
use maestro::hashmap::{HashMap, XORHasher};

#[test]
fn bitfield_set0() {
    let mut bitfield = Bitfield::new(42);
    assert_eq!(bitfield.len(), 42);
    for i in 0..bitfield.len() {
        assert!(!bitfield.is_set(i));
    }
    for i in 0..bitfield.len() {
        bitfield.set(i);
    }
    for i in 0..bitfield.len() {
        assert!(bitfield.is_set(i));
    }
}

#[test]
fn bitfield_clear0() {
    let mut bitfield = Bitfield::new(42);
    assert_eq!(bitfield.len(), 42);
    for i in 0..bitfield.len() {
        bitfield.set(i);
    }
    for i in 0..bitfield.len() {
        assert!(bitfield.is_set(i));
    }
    for i in 0..bitfield.len() {
        bitfield.clear(i);
    }
    for i in 0..bitfield.len() {
        assert!(!bitfield.is_set(i));
    }
}

#[test]
fn bitfield_find_and_fill() {
    let mut b = Bitfield::new(20);
    assert_eq!(b.find_set(), None);
    assert_eq!(b.find_clear(), Some(0));
    b.set(3);
    b.set(11);
    assert_eq!(b.find_set(), Some(3));
    b.clear(3);
    assert_eq!(b.find_set(), Some(11));
    b.set_all();
    assert_eq!(b.find_clear(), None);
    b.clear_all();
    assert_eq!(b.find_set(), None);
    assert_eq!(b.mem_size(), 3);
    assert_eq!(b.as_slice().len(), 3);
}

#[test]
fn bitfield_iter_yields_bits_in_order() {
    let mut b = Bitfield::new(10);
    b.set(1);
    b.set(9);
    let mut it = b.iter();
    let mut seen = Vec::new();
    while let Some(bit) = it.next(&b) {
        seen.push(bit);
    }
    assert_eq!(seen.len(), 10);
    assert!(seen[1] && seen[9]);
    assert!(!seen[0] && !seen[5]);
}

#[test]
fn hash_map0() {
    let mut hash_map: HashMap<u32, u32> = HashMap::new();
    assert_eq!(hash_map.len(), 0);
    hash_map.insert(0, 0);
    assert_eq!(hash_map.len(), 1);
    assert_eq!(*hash_map.get(&0).unwrap(), 0);
    assert_eq!(hash_map.remove(&0).unwrap(), 0);
    assert_eq!(hash_map.len(), 0);
}

#[test]
fn hash_map1() {
    let mut hash_map: HashMap<u32, u32> = HashMap::new();
    for i in 0..100u32 {
        assert_eq!(hash_map.len(), i as usize);
        hash_map.insert(i, 0);
        assert_eq!(hash_map.len(), i as usize + 1);
        assert_eq!(*hash_map.get(&i).unwrap(), 0);
    }
    for i in (0..100u32).rev() {
        assert_eq!(hash_map.len(), i as usize + 1);
        assert_eq!(hash_map.remove(&i).unwrap(), 0);
        assert_eq!(hash_map.len(), i as usize);
    }
}

#[test]
fn hash_map_replaces_values() {
    let mut m: HashMap<u64, i32> = HashMap::with_buckets(4);
    assert!(m.is_empty());
    assert_eq!(m.get_buckets_count(), 4);
    assert_eq!(m.insert(7, 1), None);
    assert_eq!(m.insert(7, 2), Some(1));
    assert_eq!(m.len(), 1);
    assert_eq!(*m.get(&7).unwrap(), 2);
    assert!(m.contains_key(&7));
    assert!(!m.contains_key(&8));
    m.clear();
    assert!(m.is_empty());
    assert!(!m.contains_key(&7));
}

#[test]
fn hash_map_iter_visits_every_pair() {
    let mut m: HashMap<u16, u16> = HashMap::new();
    for i in 0..10u16 {
        m.insert(i, i * 2);
    }
    let mut it = m.iter();
    let mut count = 0;
    let mut seen = [false; 10];
    while let Some((k, v)) = it.next(&m) {
        assert_eq!(*v, *k * 2);
        assert!(!seen[*k as usize]);
        seen[*k as usize] = true;
        count += 1;
    }
    assert_eq!(count, 10);
}

#[test]
fn xor_hasher_folds_bytes_in_place() {
    let mut h = XORHasher::new();
    assert_eq!(h.finish(), 0);
    h.write(&[0x01, 0x02]);
    assert_eq!(h.finish(), 0x0201);
    h.write(&[0, 0, 0, 0, 0, 0, 0xff]);
    // The ninth byte wraps back to the lowest byte position.
    assert_eq!(h.finish(), 0x02fe);
    let mut h2 = XORHasher::new();
    h2.write(&[0x34, 0x12, 0, 0]);
    assert_eq!(h2.finish(), 0x1234);
}
