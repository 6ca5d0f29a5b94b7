use split_ordered::list_set::OrderedListSet;

fn elements(set: &OrderedListSet<i32>) -> Vec<i32> {
    let mut iter = set.iter();
    let mut out = Vec::new();
    while let Some(item) = iter.next() {
        out.push(*item);
    }
    out
}

#[test]
fn empty_set_contains_nothing() {
    let set: OrderedListSet<i32> = OrderedListSet::new();
    assert!(!set.contains(&1));
    assert_eq!(elements(&set), Vec::<i32>::new());
    assert_eq!(set.find(&1), (false, 0));
}

#[test]
fn insert_keeps_ascending_order() {
    let mut set = OrderedListSet::new();
    for x in [5, 1, 9, 3, 7] {
        assert_eq!(set.insert(x), Ok(()));
    }
    assert_eq!(elements(&set), vec![1, 3, 5, 7, 9]);
    assert!(set.contains(&7));
    assert!(!set.contains(&4));
    assert_eq!(set.find(&7), (true, 3));
    assert_eq!(set.find(&4), (false, 2));
    assert_eq!(set.find(&100), (false, 5));
}

#[test]
fn insert_of_present_element_hands_it_back() {
    let mut set = OrderedListSet::new();
    assert_eq!(set.insert(2), Ok(()));
    assert_eq!(set.insert(2), Err(2));
    assert_eq!(elements(&set), vec![2]);
}

#[test]
fn remove_returns_the_element() {
    let mut set = OrderedListSet::new();
    for x in [4, 2, 6] {
        assert_eq!(set.insert(x), Ok(()));
    }
    assert_eq!(set.remove(&3), Err(()));
    assert_eq!(set.remove(&4), Ok(4));
    assert_eq!(elements(&set), vec![2, 6]);
    assert_eq!(set.remove(&4), Err(()));
    assert_eq!(set.remove(&2), Ok(2));
    assert_eq!(set.remove(&6), Ok(6));
    assert_eq!(elements(&set), Vec::<i32>::new());
}

#[test]
fn iterator_ends_and_stays_ended() {
    let mut set = OrderedListSet::new();
    assert_eq!(set.insert(String::from("b")), Ok(()));
    assert_eq!(set.insert(String::from("a")), Ok(()));
    let mut iter = set.iter();
    assert_eq!(iter.next(), Some(&String::from("a")));
    assert_eq!(iter.next(), Some(&String::from("b")));
    assert_eq!(iter.next(), None);
    assert_eq!(iter.next(), None);
}

#[test]
fn default_set_is_empty() {
    let set: OrderedListSet<i32> = Default::default();
    assert_eq!(elements(&set), Vec::<i32>::new());
}
