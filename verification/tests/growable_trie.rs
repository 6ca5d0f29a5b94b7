use split_ordered::growable_array::{
    can_address, digit, GrowableArray, Slot, MAX_LOGSIZE, SEGMENT_LOGSIZE,
};

#[test]
fn new_trie_has_no_height() {
    let trie = GrowableArray::new();
    assert_eq!(trie.height(), 0);
    assert_eq!(SEGMENT_LOGSIZE, 10);
    assert_eq!(MAX_LOGSIZE, 31);
}

#[test]
fn two_indices_two_slots() {
    let mut trie = GrowableArray::with_segment_logsize(3);
    let fox = trie.get(0b111011);
    assert_eq!(trie.height(), 2);
    let owl = trie.get(0b000110);
    assert_eq!(trie.height(), 2);
    assert_ne!(fox, owl);
    assert!(trie.compare_and_set(fox, 0, 11));
    assert!(trie.compare_and_set(owl, 0, 22));
    assert_eq!(trie.load(fox), 11);
    assert_eq!(trie.load(owl), 22);
}

#[test]
fn first_touch_gives_height_one() {
    let mut trie = GrowableArray::with_segment_logsize(3);
    let cat = trie.get(0b001);
    assert_eq!(trie.height(), 1);
    assert_eq!(cat, Slot { segment: 0, offset: 1 });
    assert_eq!(trie.load(cat), 0);
}

#[test]
fn height_grows_with_the_index() {
    let mut trie = GrowableArray::with_segment_logsize(3);
    trie.get(7);
    assert_eq!(trie.height(), 1);
    trie.get(8);
    assert_eq!(trie.height(), 2);
    trie.get(63);
    assert_eq!(trie.height(), 2);
    trie.get(64);
    assert_eq!(trie.height(), 3);
    trie.get(0);
    assert_eq!(trie.height(), 3);
}

#[test]
fn largest_index_is_addressed() {
    let mut trie = GrowableArray::new();
    let top = trie.get(u64::MAX);
    // Seven levels of ten bits cover the 64 bits of an index.
    assert_eq!(trie.height(), 7);
    assert!(trie.compare_and_set(top, 0, 5));
    let zero = trie.get(0);
    assert_ne!(top, zero);
    assert_eq!(trie.load(zero), 0);
    let again = trie.get(u64::MAX);
    assert_eq!(again, top);
    assert_eq!(trie.load(again), 5);
    assert_eq!(trie.height(), 7);
}

#[test]
fn slot_keeps_its_place_when_the_trie_grows() {
    let mut trie = GrowableArray::with_segment_logsize(2);
    let first = trie.get(3);
    assert!(trie.compare_and_set(first, 0, 99));
    let mut heights = vec![trie.height()];
    for index in [4u64, 17, 300, 70_000, 1 << 40, u64::MAX] {
        trie.get(index);
        heights.push(trie.height());
        assert_eq!(trie.get(3), first);
        assert_eq!(trie.load(first), 99);
    }
    assert_eq!(heights, vec![1, 2, 3, 5, 9, 21, 32]);
}

#[test]
fn compare_and_set_fails_on_other_word() {
    let mut trie = GrowableArray::with_segment_logsize(4);
    let slot = trie.get(1000);
    assert!(!trie.compare_and_set(slot, 1, 2));
    assert_eq!(trie.load(slot), 0);
    assert!(trie.compare_and_set(slot, 0, 2));
    assert!(!trie.compare_and_set(slot, 0, 3));
    assert_eq!(trie.load(slot), 2);
    assert!(trie.compare_and_set(slot, 2, 3));
    assert_eq!(trie.load(slot), 3);
}

#[test]
fn distinct_indices_have_distinct_slots() {
    let mut trie = GrowableArray::with_segment_logsize(1);
    let mut slots = Vec::new();
    for index in 0..64u64 {
        let slot = trie.get(index * 37 % 64);
        assert!(!slots.contains(&slot));
        slots.push(slot);
    }
    for index in 0..64u64 {
        assert_eq!(trie.get(index * 37 % 64), slots[index as usize]);
    }
    assert_eq!(trie.height(), 6);
}

#[test]
fn depth_first_walk_reaches_every_segment_once() {
    let mut trie = GrowableArray::with_segment_logsize(2);
    assert_eq!(trie.segments_depth_first(), Vec::<usize>::new());
    let slot = trie.get(0);
    assert_eq!(trie.segments_depth_first(), vec![0]);
    // A word in a leaf slot is not taken for a segment.
    assert!(trie.compare_and_set(slot, 0, 1));
    assert_eq!(trie.segments_depth_first(), vec![0]);
    // The last slot of the root is followed too.
    trie.get(15);
    let mut walk = trie.segments_depth_first();
    assert_eq!(walk.len(), 3);
    assert_eq!(walk[0], 1);
    walk.sort();
    assert_eq!(walk, vec![0, 1, 2]);
    for index in [5u64, 9, 64, 255, 1000] {
        trie.get(index);
    }
    let mut walk = trie.segments_depth_first();
    let count = walk.len();
    walk.sort();
    walk.dedup();
    assert_eq!(walk.len(), count);
    assert_eq!(walk, (0..count).collect::<Vec<usize>>());
}

#[test]
fn addressing_by_height() {
    assert!(!can_address(3, 0, 0));
    assert!(can_address(3, 1, 7));
    assert!(!can_address(3, 1, 8));
    assert!(can_address(3, 2, 63));
    assert!(!can_address(3, 2, 64));
    assert!(!can_address(10, 6, 1 << 60));
    assert!(can_address(10, 6, (1 << 60) - 1));
    assert!(can_address(10, 7, u64::MAX));
    assert!(can_address(1, 64, u64::MAX));
    assert!(!can_address(1, 63, u64::MAX));
    assert!(can_address(31, u64::MAX, u64::MAX));
}

#[test]
fn digits_from_the_top() {
    assert_eq!(digit(3, 0b111011, 2), 0b111);
    assert_eq!(digit(3, 0b111011, 1), 0b011);
    assert_eq!(digit(3, 0b000110, 2), 0);
    assert_eq!(digit(3, 0b000110, 1), 0b110);
    assert_eq!(digit(10, u64::MAX, 7), 0b1111);
    assert_eq!(digit(10, u64::MAX, 6), 1023);
    assert_eq!(digit(31, 1 << 62, 3), 1);
}

#[test]
fn default_trie_is_a_new_trie() {
    let mut trie = GrowableArray::default();
    assert_eq!(trie.height(), 0);
    trie.get(1023);
    assert_eq!(trie.height(), 1);
    trie.get(1024);
    assert_eq!(trie.height(), 2);
}
