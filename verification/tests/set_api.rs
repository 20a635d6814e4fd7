use tree::model::Bound;
use tree::node::is_balanced;
use tree::set::Entry;
use tree::set::TreeSet;

fn sample() -> TreeSet<u32> {
    let mut set = TreeSet::new();
    for k in [5u32, 2, 8, 1, 3, 7, 9, 6, 4] {
        assert!(set.insert(k));
    }
    set
}

fn items(set: &TreeSet<u32>) -> Vec<u32> {
    set.iter().collect().into_iter().cloned().collect()
}

#[test]
fn a_set_holds_each_item_once() {
    let mut set = sample();
    assert_eq!(set.len(), 9);
    assert!(!set.insert(5));
    assert_eq!(set.len(), 9);
    assert!(set.contains(&5));
    assert!(set.remove(&5));
    assert!(!set.remove(&5));
    assert!(!set.contains(&5));
    assert_eq!(items(&set), vec![1, 2, 3, 4, 6, 7, 8, 9]);
    assert!(is_balanced(set.root()));
    set.clear();
    assert!(set.is_empty());
}

#[test]
fn ends_and_neighbours_of_a_set() {
    let mut set = sample();
    assert_eq!(set.min(), Some(&1));
    assert_eq!(set.max(), Some(&9));
    assert_eq!(set.pred(&5, false), Some(&4));
    assert_eq!(set.pred(&5, true), Some(&5));
    assert_eq!(set.succ(&5, false), Some(&6));
    assert_eq!(set.succ(&9, false), None);
    assert_eq!(set.pred(&1, false), None);
    assert_eq!(set.remove_min(), Some(1));
    assert_eq!(set.remove_max(), Some(9));
    assert_eq!(set.remove_pred(&5, false), Some(4));
    assert_eq!(set.remove_succ(&5, false), Some(6));
    assert_eq!(set.remove_select(0), Some(2));
    assert_eq!(set.remove_select(9), None);
    assert_eq!(items(&set), vec![3, 5, 7, 8]);
    assert_eq!(set.rank(&7), 2);
    assert_eq!(set.rank(&6), 2);
    assert_eq!(set.select(3), Some(&8));
}

#[test]
fn entries_of_a_set() {
    let mut set = sample();
    match set.entry(10) {
        Entry::Occupied(_) => panic!("expected a vacant entry"),
        Entry::Vacant(e) => e.insert(),
    }
    match set.entry(10) {
        Entry::Occupied(e) => {
            assert_eq!(e.get(), &10);
            assert_eq!(e.remove(), 10);
        }
        Entry::Vacant(_) => panic!("expected an occupied entry"),
    }
    assert_eq!(set.min_entry().unwrap().remove(), 1);
    assert_eq!(set.max_entry().unwrap().get(), &9);
    assert_eq!(set.pred_entry(&5, false).unwrap().get(), &4);
    assert_eq!(set.succ_entry(&5, true).unwrap().get(), &5);
    assert_eq!(set.select_entry(1).unwrap().get(), &3);
    assert!(set.select_entry(8).is_none());
    assert_eq!(set.len(), 8);
}

#[test]
fn iteration_over_a_set() {
    let set = sample();
    let mut it = set.iter();
    assert_eq!(it.len(), 9);
    assert_eq!(it.next(), Some(&1));
    assert_eq!(it.next_back(), Some(&9));
    assert_eq!(it.size_hint(), (7, Some(7)));
    assert_eq!(set.iter().collect_rev(), vec![&9, &8, &7, &6, &5, &4, &3, &2, &1]);
    assert_eq!(
        set.range(Bound::Excluded(&2), Bound::Included(&4)).collect(),
        vec![&3, &4]
    );
    assert_eq!(
        set.range(Bound::Included(&7), Bound::Unbounded).collect_rev(),
        vec![&9, &8, &7]
    );
    let mut range = set.range(Bound::Unbounded, Bound::Excluded(&3));
    assert_eq!(range.next_back(), Some(&2));
    assert_eq!(range.next(), Some(&1));
    assert_eq!(range.next(), None);
    assert_eq!(sample().into_iter().collect(), vec![1, 2, 3, 4, 5, 6, 7, 8, 9]);
    assert_eq!(sample().into_iter().collect_rev()[0], 9);
    assert_eq!(
        sample().into_range(Bound::Included(&8), Bound::Unbounded).collect(),
        vec![8, 9]
    );
    let mut owned = sample().into_iter();
    assert_eq!(owned.next_back(), Some(9));
    assert_eq!(owned.next(), Some(1));
    assert_eq!(owned.len(), 7);
}

fn set_of(items: &[u32]) -> TreeSet<u32> {
    let mut set = TreeSet::new();
    for k in items {
        set.insert(*k);
    }
    set
}

#[test]
fn sets_compare_item_by_item() {
    let a = set_of(&[1, 2, 3]);
    assert!(a.equals(&set_of(&[3, 2, 1])));
    assert!(!a.equals(&set_of(&[1, 2])));
    assert!(!a.equals(&set_of(&[1, 2, 4])));
    assert_eq!(a.compare_to(&set_of(&[1, 2, 3])), std::cmp::Ordering::Equal);
    assert_eq!(a.compare_to(&set_of(&[1, 2])), std::cmp::Ordering::Greater);
    assert_eq!(a.compare_to(&set_of(&[1, 3])), std::cmp::Ordering::Less);
    assert_eq!(set_of(&[]).compare_to(&a), std::cmp::Ordering::Less);
}
