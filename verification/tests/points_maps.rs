use rustico::coordinator::{keep_playing, merge_points_hashmaps, player_fixed_values_map};
use std::collections::HashMap;

#[test]
fn coordinator_test_empty_points_map_len() {
    let empty_map = player_fixed_values_map(4, 0);
    assert_eq!(empty_map.len(), 4);
    for v in empty_map.values() {
        assert_eq!(*v, 0);
    }
}

#[test]
fn test_merge_same_keys() {
    let mut map1 = HashMap::new();
    let mut map2 = HashMap::new();
    map1.insert(1, 2);
    map2.insert(1, 6);
    map1.insert(2, 1);
    map2.insert(2, 1);
    let merged_map = merge_points_hashmaps(map1, map2);
    assert_eq!(*merged_map.get(&(1 as i32)).unwrap(), 8 as i32);
    assert_eq!(*merged_map.get(&(2 as i32)).unwrap(), 2 as i32);
}

#[test]
fn test_merge_same_keys_different_keys() {
    let mut map1 = HashMap::new();
    let mut map2 = HashMap::new();
    map1.insert(1, 2);
    map2.insert(1, 6);
    map1.insert(2, 1);
    map2.insert(2, 1);

    map1.insert(5, 7);
    map2.insert(7, 5);

    let merged_map = merge_points_hashmaps(map1, map2);
    assert_eq!(merged_map.len(), 4);
    assert_eq!(*merged_map.get(&(1 as i32)).unwrap(), 8 as i32);
    assert_eq!(*merged_map.get(&(2 as i32)).unwrap(), 2 as i32);
    assert_eq!(*merged_map.get(&(5 as i32)).unwrap(), 7 as i32);
    assert_eq!(*merged_map.get(&(7 as i32)).unwrap(), 5 as i32);
}

#[test]
fn test_merge_is_commutative() {
    let mut map1 = HashMap::new();
    let mut map2 = HashMap::new();
    map1.insert(0, 10);
    map1.insert(1, -5);
    map2.insert(1, 1);
    map2.insert(3, 4);
    let left = merge_points_hashmaps(map1.clone(), map2.clone());
    let right = merge_points_hashmaps(map2, map1);
    assert_eq!(left.len(), right.len());
    for k in [0, 1, 2, 3] {
        assert_eq!(left.get(&k), right.get(&k));
    }
}

#[test]
fn test_merge_is_associative() {
    let mut a = HashMap::new();
    let mut b = HashMap::new();
    let mut c = HashMap::new();
    a.insert(0, 2);
    a.insert(1, 3);
    b.insert(1, -1);
    b.insert(2, 7);
    c.insert(0, 5);
    c.insert(2, -2);
    let left = merge_points_hashmaps(merge_points_hashmaps(a.clone(), b.clone()), c.clone());
    let right = merge_points_hashmaps(a, merge_points_hashmaps(b, c));
    assert_eq!(left.len(), right.len());
    for k in [0, 1, 2, 3] {
        assert_eq!(left.get(&k), right.get(&k));
    }
}

#[test]
fn test_keep_playing() {
    let mut map = HashMap::new();
    map.insert(0, 1);
    map.insert(1, 10);
    map.insert(2, 2);
    assert!(keep_playing(&map));
    map.insert(3, 0);
    assert!(!keep_playing(&map));
}
