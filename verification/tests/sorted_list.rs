use split_ordered::list::List;

#[test]
fn empty_list_has_no_keys() {
    let list: List<u8> = List::new();
    assert_eq!(list.keys(), Vec::<u64>::new());
    let cursor = list.head();
    assert_eq!(cursor.curr(), 0);
    assert_eq!(list.lookup(&cursor), None);
}

#[test]
fn find_and_insert_keep_the_order() {
    let mut list: List<&str> = List::new();
    for (key, value) in [(30u64, "c"), (10, "a"), (20, "b"), (40, "d")] {
        let mut cursor = list.head();
        assert!(!list.find_harris(&mut cursor, key));
        list.insert(&mut cursor, key, value);
        assert_eq!(list.lookup(&cursor), Some(&value));
    }
    assert_eq!(list.keys(), vec![10, 20, 30, 40]);
    let mut cursor = list.head();
    assert!(list.find_harris(&mut cursor, 20));
    assert_eq!(list.lookup(&cursor), Some(&"b"));
    assert!(!list.find_harris(&mut cursor, 25));
    assert_eq!(list.lookup(&cursor), Some(&"c"));
    assert!(!list.find_harris(&mut cursor, 41));
    assert_eq!(list.lookup(&cursor), None);
}

#[test]
fn search_from_a_node_goes_forward() {
    let mut list: List<u64> = List::new();
    let mut refs = Vec::new();
    for key in [1u64, 3, 5, 7] {
        let mut cursor = list.head();
        assert!(!list.find_harris(&mut cursor, key));
        list.insert(&mut cursor, key, key * 10);
        refs.push(cursor.curr());
    }
    let mut cursor = list.cursor_at(refs[1]);
    assert_eq!(cursor.curr(), refs[1]);
    assert!(list.find_harris(&mut cursor, 7));
    assert_eq!(cursor.curr(), refs[3]);
    assert_eq!(list.lookup(&cursor), Some(&70));
}

#[test]
fn delete_unlinks_and_keeps_the_value() {
    let mut list: List<String> = List::new();
    for key in [1u64, 2, 3] {
        let mut cursor = list.head();
        assert!(!list.find_harris(&mut cursor, key));
        list.insert(&mut cursor, key, format!("v{}", key));
    }
    let mut cursor = list.head();
    assert!(list.find_harris(&mut cursor, 2));
    let victim = cursor.curr();
    assert_eq!(list.delete(&mut cursor), &"v2".to_string());
    assert_eq!(list.keys(), vec![1, 3]);
    assert_eq!(list.lookup(&cursor), Some(&"v3".to_string()));
    assert_eq!(list.value(victim), &"v2".to_string());
    let mut cursor = list.head();
    assert!(!list.find_harris(&mut cursor, 2));
    let mut cursor = list.head();
    assert!(list.find_harris(&mut cursor, 1));
    assert_eq!(list.delete(&mut cursor), &"v1".to_string());
    assert_eq!(list.keys(), vec![3]);
}
