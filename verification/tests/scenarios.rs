use tree::map::TreeMap;
use tree::set::TreeSet;

#[test]
fn ascending_and_descending_iteration_after_three_inserts() {
    let mut map: TreeMap<i32, &str> = TreeMap::new();
    assert_eq!(map.insert(2, "b"), None);
    assert_eq!(map.insert(1, "a"), None);
    assert_eq!(map.insert(3, "c"), None);
    assert_eq!(map.iter().collect(), vec![(&1, &"a"), (&2, &"b"), (&3, &"c")]);
    assert_eq!(map.iter().collect_rev(), vec![(&3, &"c"), (&2, &"b"), (&1, &"a")]);
    let mut it = map.iter();
    assert_eq!(it.next(), Some((&1, &"a")));
    assert_eq!(it.next(), Some((&2, &"b")));
    assert_eq!(it.next(), Some((&3, &"c")));
    assert_eq!(it.next(), None);
}

#[test]
fn neighbours_on_one_two_three() {
    let mut map: TreeMap<i32, u8> = TreeMap::new();
    map.insert(1, 10);
    map.insert(2, 20);
    map.insert(3, 30);
    assert_eq!(map.pred(&2, false), Some((&1, &10)));
    assert_eq!(map.pred(&2, true), Some((&2, &20)));
    assert_eq!(map.succ(&3, false), None);
}

#[test]
fn remove_two_from_one_two_three() {
    let mut map: TreeMap<i32, u8> = TreeMap::new();
    map.insert(1, 10);
    map.insert(2, 20);
    map.insert(3, 30);
    assert_eq!(map.remove(&2), Some((2, 20)));
    assert_eq!(map.iter().collect(), vec![(&1, &10), (&3, &30)]);
}

#[test]
fn order_statistics_on_a_set_of_three() {
    let mut set: TreeSet<i32> = TreeSet::new();
    set.insert(2);
    set.insert(1);
    set.insert(3);
    assert_eq!(set.select(0), Some(&1));
    assert_eq!(set.select(1), Some(&2));
    assert_eq!(set.select(3), None);
    assert_eq!(set.rank(&2), 1);
}
