use std::collections::BTreeMap;
use tiny_lsm::ordered_map::{order_keys, KeyOrder, OrderedMap};

fn next(state: &mut u64) -> u64 {
    *state = state.wrapping_mul(6364136223846793005).wrapping_add(1442695040888963407);
    *state >> 33
}

#[test]
fn keys_are_ordered_as_byte_strings() {
    assert!(matches!(order_keys(&[1u8, 2], &[1, 3]), KeyOrder::Less));
    assert!(matches!(order_keys(&[2u8, 0], &[1, 255]), KeyOrder::Greater));
    assert!(matches!(order_keys(&[7u8, 7], &[7, 7]), KeyOrder::Equal));
    assert!(matches!(order_keys::<0>(&[], &[]), KeyOrder::Equal));
}

#[test]
fn values_are_found_replaced_and_removed() {
    let mut map: OrderedMap<2, u32> = OrderedMap::new();
    assert!(map.is_empty());
    assert_eq!(map.get(&[0, 0]), None);
    assert_eq!(map.insert([1, 1], 11), None);
    assert_eq!(map.insert([0, 1], 1), None);
    assert_eq!(map.insert([1, 1], 12), Some(11));
    assert_eq!(map.len(), 2);
    assert!(map.contains_key(&[1, 1]));
    assert!(!map.contains_key(&[1, 2]));
    assert_eq!(map.get(&[1, 1]), Some(&12));
    assert_eq!(map.remove(&[5, 5]), None);
    assert_eq!(map.remove(&[1, 1]), Some(12));
    assert_eq!(map.len(), 1);
    assert!(!map.is_empty());
    assert_eq!(map.entries(), vec![([0, 1], 1)]);
}

#[test]
fn a_long_history_agrees_with_the_standard_map() {
    let mut state: u64 = 7;
    let mut map: OrderedMap<2, u64> = OrderedMap::new();
    let mut model: BTreeMap<[u8; 2], u64> = BTreeMap::new();
    for step in 0..20_000u64 {
        let n = next(&mut state) % 600;
        let key = [(n / 256) as u8, (n % 256) as u8];
        if next(&mut state) % 3 == 0 {
            assert_eq!(map.remove(&key), model.remove(&key));
        } else {
            assert_eq!(map.insert(key, step), model.insert(key, step));
        }
        assert_eq!(map.len(), model.len());
        let probe = [(step % 3) as u8, (step % 256) as u8];
        assert_eq!(map.get(&probe), model.get(&probe));
    }
    let all: Vec<([u8; 2], u64)> = model.into_iter().collect();
    assert_eq!(map.entries(), all);
}

#[test]
fn entries_are_walked_in_order_and_within_bounds() {
    let mut map: OrderedMap<2, u32> = OrderedMap::new();
    let mut model: BTreeMap<[u8; 2], u32> = BTreeMap::new();
    for i in 0..500u32 {
        let key = [(i * 7 % 11) as u8, (i * 13 % 251) as u8];
        map.insert(key, i);
        model.insert(key, i);
    }
    assert_eq!(map.iter(), model.iter().collect::<Vec<_>>());
    for (start, end) in [([0, 0], [255, 255]), ([3, 9], [7, 1]), ([3, 9], [3, 9]), ([2, 0], [2, 40])] {
        assert_eq!(map.range(start..end), model.range(start..end).collect::<Vec<_>>());
    }
    for bound in [[0, 0], [3, 9], [5, 200], [255, 255]] {
        assert_eq!(map.range_from(&bound), model.range(bound..).collect::<Vec<_>>());
        assert_eq!(map.range_to(&bound), model.range(..bound).collect::<Vec<_>>());
    }
    assert_eq!(map.keys(), model.keys().collect::<Vec<_>>());
    assert_eq!(map.values(), model.values().collect::<Vec<_>>());
    assert_eq!(map.first_key_value(), model.first_key_value());
    assert_eq!(map.last_key_value(), model.last_key_value());
    assert!(map.range([9, 0]..[1, 0]).is_empty());
    let empty: OrderedMap<2, u32> = OrderedMap::new();
    assert!(empty.iter().is_empty());
    assert!(empty.keys().is_empty());
    assert!(empty.values().is_empty());
    assert_eq!(empty.first_key_value(), None);
    assert_eq!(empty.last_key_value(), None);
}

#[test]
fn keys_in_order_make_no_deep_tree() {
    let mut map: OrderedMap<4, u32> = OrderedMap::new();
    for i in 0..100_000u32 {
        map.insert(i.to_be_bytes(), i);
    }
    assert_eq!(map.len(), 100_000);
    let entries = map.entries();
    assert_eq!(entries[99_999], ([0, 1, 134, 159], 99_999));
    for i in 0..100_000u32 {
        assert_eq!(map.remove(&i.to_be_bytes()), Some(i));
    }
    assert!(map.is_empty());
}

#[test]
fn entries_do_not_depend_on_the_order_of_insertion() {
    let mut up: OrderedMap<1, u8> = OrderedMap::new();
    let mut down: OrderedMap<1, u8> = OrderedMap::new();
    for i in 0..=255u8 {
        up.insert([i], i);
        down.insert([255 - i], 255 - i);
    }
    assert_eq!(up.entries(), down.entries());
}
