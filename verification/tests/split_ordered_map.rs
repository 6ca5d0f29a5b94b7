use split_ordered::bits::{make_content_key, make_sentinel_key, HI_BIT};
use split_ordered::split_ordered_list::{
    bucket_index, grown_size, Op, SplitOrderedList, LOAD_FACTOR,
};
use std::collections::BTreeMap;

#[test]
fn new_map_is_empty() {
    let mut map: SplitOrderedList<u32> = SplitOrderedList::new();
    assert_eq!(map.count(), 0);
    assert_eq!(map.size(), 2);
    assert_eq!(map.height(), 0);
    assert_eq!(map.list_keys(), Vec::<u64>::new());
    assert_eq!(map.lookup(0), None);
}

#[test]
fn insert_then_lookup() {
    let mut map: SplitOrderedList<&str> = SplitOrderedList::new();
    assert_eq!(map.insert(5, "cat"), Ok(()));
    assert_eq!(map.lookup(5), Some(&"cat"));
    assert_eq!(map.count(), 1);
    assert_eq!(map.size(), 2);
    // Key 5 falls into bucket 1, whose parent is bucket 0.
    let keys = map.list_keys();
    assert_eq!(
        keys,
        vec![
            make_sentinel_key(0),
            make_sentinel_key(1),
            make_content_key(5)
        ]
    );
    assert_eq!(make_content_key(5), (5u64 | HI_BIT).reverse_bits());
}

#[test]
fn ten_inserts_double_the_table_twice() {
    let mut map: SplitOrderedList<u64> = SplitOrderedList::new();
    for k in 1..=10u64 {
        assert_eq!(map.insert(k, k), Ok(()));
    }
    assert_eq!(map.count(), 10);
    assert_eq!(map.size(), 8);
    for k in 1..=10u64 {
        assert_eq!(map.lookup(k), Some(&k));
    }
    assert_eq!(map.lookup(11), None);
}

#[test]
fn table_doubles_when_count_before_insert_exceeds_load() {
    let mut map: SplitOrderedList<()> = SplitOrderedList::new();
    let mut sizes = Vec::new();
    for k in 0..20u64 {
        assert_eq!(map.insert(k, ()), Ok(()));
        sizes.push(map.size());
    }
    // The n-th insert sees n - 1 entries; it doubles when that exceeds
    // twice the number of buckets.
    assert_eq!(
        sizes,
        vec![2, 2, 2, 2, 2, 4, 4, 4, 4, 8, 8, 8, 8, 8, 8, 8, 8, 16, 16, 16]
    );
}

#[test]
fn insert_of_present_key_returns_the_value() {
    let mut map: SplitOrderedList<&str> = SplitOrderedList::new();
    assert_eq!(map.insert(7, "a"), Ok(()));
    assert_eq!(map.insert(7, "b"), Err("b"));
    assert_eq!(map.lookup(7), Some(&"a"));
    assert_eq!(map.count(), 1);
}

#[test]
fn delete_absent_and_present() {
    let mut map: SplitOrderedList<String> = SplitOrderedList::new();
    assert_eq!(map.delete(3), Err(()));
    assert_eq!(map.count(), 0);
    assert_eq!(map.insert(3, "v".to_string()), Ok(()));
    assert_eq!(map.count(), 1);
    assert_eq!(map.delete(3), Ok(&"v".to_string()));
    assert_eq!(map.lookup(3), None);
    assert_eq!(map.count(), 0);
    assert_eq!(map.delete(3), Err(()));
    assert_eq!(map.count(), 0);
}

#[test]
fn deleted_key_can_be_inserted_again() {
    let mut map: SplitOrderedList<u8> = SplitOrderedList::new();
    assert_eq!(map.insert(9, 1), Ok(()));
    assert_eq!(map.delete(9), Ok(&1));
    assert_eq!(map.insert(9, 2), Ok(()));
    assert_eq!(map.lookup(9), Some(&2));
    assert_eq!(map.count(), 1);
}

#[test]
fn largest_and_smallest_keys() {
    let mut map: SplitOrderedList<u8> = SplitOrderedList::new();
    let top = HI_BIT - 1;
    assert_eq!(map.insert(0, 10), Ok(()));
    assert_eq!(map.insert(top, 20), Ok(()));
    assert_eq!(map.lookup(0), Some(&10));
    assert_eq!(map.lookup(top), Some(&20));
    assert_eq!(map.lookup(1), None);
    assert_eq!(map.delete(top), Ok(&20));
    assert_eq!(map.lookup(top), None);
    assert_eq!(map.lookup(0), Some(&10));
}

#[test]
fn list_stays_sorted_without_duplicates() {
    let mut map: SplitOrderedList<u64> = SplitOrderedList::new();
    let mut k: u64 = 1;
    for _ in 0..200 {
        k = k.wrapping_mul(6364136223846793005).wrapping_add(1442695040888963407);
        let key = (k >> 1) % 64;
        if k % 3 == 0 {
            let _ = map.delete(key);
        } else {
            let _ = map.insert(key, k);
        }
        let keys = map.list_keys();
        for pair in keys.windows(2) {
            assert!(pair[0] < pair[1]);
        }
    }
}

#[test]
fn sentinels_have_even_keys_and_entries_odd_ones() {
    let mut map: SplitOrderedList<u64> = SplitOrderedList::new();
    for k in 0..40u64 {
        assert_eq!(map.insert(k * 3, k), Ok(()));
    }
    let keys = map.list_keys();
    let entries = keys.iter().filter(|k| *k & 1 == 1).count();
    assert_eq!(entries, map.count());
    for key in keys {
        if key & 1 == 0 {
            // A sentinel: the reversed number of a bucket that exists.
            assert!(key.reverse_bits() < map.size());
        } else {
            let user = key.reverse_bits() & !HI_BIT;
            assert_eq!(make_content_key(user), key);
            assert_eq!(map.lookup(user), Some(&(user / 3)));
        }
    }
}

#[test]
fn agrees_with_a_reference_map() {
    let mut map: SplitOrderedList<u64> = SplitOrderedList::new();
    let mut model: BTreeMap<u64, u64> = BTreeMap::new();
    let mut state: u64 = 0x2545_f491_4f6c_dd1d;
    let mut last_size = map.size();
    let mut last_height = map.height();
    for step in 0..3000u64 {
        state ^= state << 13;
        state ^= state >> 7;
        state ^= state << 17;
        let key = (state >> 8) % 257;
        match state % 3 {
            0 => {
                let expected = if model.contains_key(&key) {
                    Err(step)
                } else {
                    model.insert(key, step);
                    Ok(())
                };
                assert_eq!(map.insert(key, step), expected);
            }
            1 => {
                let expected = model.remove(&key);
                match map.delete(key) {
                    Ok(v) => assert_eq!(Some(*v), expected),
                    Err(()) => assert_eq!(None, expected),
                }
            }
            _ => {
                assert_eq!(map.lookup(key), model.get(&key));
            }
        }
        assert_eq!(map.count(), model.len());
        assert!(map.size() >= last_size);
        assert!(map.size().is_power_of_two());
        assert!(map.height() >= last_height);
        last_size = map.size();
        last_height = map.height();
    }
    for key in 0..257u64 {
        assert_eq!(map.lookup(key), model.get(&key));
    }
}

#[test]
fn bucket_is_the_remainder() {
    assert_eq!(bucket_index(5, 2), 1);
    assert_eq!(bucket_index(5, 4), 1);
    assert_eq!(bucket_index(5, 8), 5);
    assert_eq!(bucket_index(HI_BIT - 1, HI_BIT), HI_BIT - 1);
    for key in 0..100u64 {
        assert_eq!(bucket_index(key, 16), key % 16);
    }
}

#[test]
fn table_grows_above_two_entries_per_bucket() {
    assert_eq!(LOAD_FACTOR, 2);
    assert_eq!(grown_size(0, 2), 2);
    assert_eq!(grown_size(4, 2), 2);
    assert_eq!(grown_size(5, 2), 4);
    assert_eq!(grown_size(8, 4), 4);
    assert_eq!(grown_size(9, 4), 8);
    assert_eq!(grown_size(usize::MAX, HI_BIT), HI_BIT);
    assert_eq!(grown_size(usize::MAX, HI_BIT >> 1), HI_BIT);
}

#[test]
fn replay_applies_operations_in_order() {
    let mut map: SplitOrderedList<&str> = SplitOrderedList::new();
    map.replay(vec![
        Op::Insert(1, "a"),
        Op::Insert(2, "b"),
        Op::Insert(1, "c"),
        Op::Lookup(9),
        Op::Delete(2),
        Op::Delete(3),
        Op::Insert(2, "d"),
    ]);
    assert_eq!(map.lookup(1), Some(&"a"));
    assert_eq!(map.lookup(2), Some(&"d"));
    assert_eq!(map.lookup(3), None);
    assert_eq!(map.lookup(9), None);
    assert_eq!(map.count(), 2);
    map.apply(Op::Delete(1));
    assert_eq!(map.lookup(1), None);
    assert_eq!(map.count(), 1);
}

#[test]
fn default_map_is_a_new_map() {
    let mut map: SplitOrderedList<u8> = Default::default();
    assert_eq!(map.count(), 0);
    assert_eq!(map.size(), 2);
    assert_eq!(map.insert(1, 1), Ok(()));
    assert_eq!(map.lookup(1), Some(&1));
}

#[test]
fn lookup_sets_up_the_bucket_and_its_ancestors() {
    let mut map: SplitOrderedList<u8> = SplitOrderedList::new();
    for k in 0..9u64 {
        assert_eq!(map.insert(k * 8, 0), Ok(()));
    }
    // All keys so far fall into bucket 0; the table has four buckets now.
    assert_eq!(map.size(), 4);
    assert_eq!(map.list_keys().iter().filter(|k| *k & 1 == 0).count(), 1);
    // Bucket 3 was split off bucket 1, and bucket 1 off bucket 0.
    assert_eq!(map.lookup(3), None);
    let sentinels: Vec<u64> = map
        .list_keys()
        .into_iter()
        .filter(|k| k & 1 == 0)
        .collect();
    assert_eq!(
        sentinels,
        vec![
            make_sentinel_key(0),
            make_sentinel_key(1),
            make_sentinel_key(3)
        ]
    );
    assert_eq!(map.count(), 9);
}
