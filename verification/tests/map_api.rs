use compare::natural;
use std::cmp::Ordering;
use tree::map::Entry;
use tree::map::TreeMap;
use tree::model::Bound;
use tree::node::is_balanced;
use tree::order::KeyOrder;
use tree::order::Reversed;

fn sample() -> TreeMap<u32, u32> {
    let mut map = TreeMap::new();
    for k in [50u32, 20, 80, 10, 30, 70, 90, 60, 40] {
        map.insert(k, k + 1);
    }
    map
}

fn keys(map: &TreeMap<u32, u32>) -> Vec<u32> {
    map.iter().collect().into_iter().map(|e| *e.0).collect()
}

#[test]
fn an_empty_map() {
    let mut map: TreeMap<u32, u32> = TreeMap::new();
    assert!(map.is_empty());
    assert_eq!(map.len(), 0);
    assert_eq!(map.count(), 0);
    assert_eq!(map.get(&1), None);
    assert_eq!(map.min(), None);
    assert_eq!(map.max(), None);
    assert_eq!(map.pred(&1, true), None);
    assert_eq!(map.succ(&1, true), None);
    assert_eq!(map.select(0), None);
    assert_eq!(map.rank(&1), 0);
    assert_eq!(map.remove(&1), None);
    assert_eq!(map.remove_min(), None);
    assert_eq!(map.remove_max(), None);
    assert_eq!(map.remove_select(0), None);
    assert!(map.min_entry().is_none());
    assert!(map.max_entry().is_none());
    assert!(map.iter().next().is_none());
    assert!(map.root().is_none());
}

#[test]
fn length_counts_a_full_walk() {
    let mut map = sample();
    assert_eq!(map.len(), 9);
    assert_eq!(map.count(), 9);
    assert_eq!(map.iter().collect().len(), map.len());
    map.remove(&30);
    map.insert(31, 0);
    map.insert(32, 0);
    assert_eq!(map.count(), map.len());
    assert_eq!(map.len(), 10);
    map.clear();
    assert!(map.is_empty());
    assert_eq!(map.count(), 0);
}

#[test]
fn insert_then_get_then_remove() {
    let mut map = sample();
    assert_eq!(map.insert(55, 1), None);
    assert_eq!(map.get(&55), Some(&1));
    assert_eq!(map.remove(&55), Some((55, 1)));
    assert_eq!(map.get(&55), None);
    assert!(!keys(&map).contains(&55));
    assert!(!map.contains_key(&55));
}

#[test]
fn first_insert_adds_and_second_replaces() {
    let mut map = sample();
    let len = map.len();
    assert_eq!(map.insert(5, 1), None);
    assert_eq!(map.len(), len + 1);
    assert_eq!(map.insert(5, 2), Some(1));
    assert_eq!(map.len(), len + 1);
    assert_eq!(map.get(&5), Some(&2));
}

#[test]
fn remove_shortens_only_where_the_key_was_held() {
    let mut map = sample();
    let before = map.iter().collect().into_iter().map(|e| (*e.0, *e.1)).collect::<Vec<_>>();
    assert_eq!(map.remove(&55), None);
    assert_eq!(map.len(), 9);
    assert_eq!(map.remove(&50), Some((50, 51)));
    assert_eq!(map.len(), 8);
    let after = map.iter().collect().into_iter().map(|e| (*e.0, *e.1)).collect::<Vec<_>>();
    let expected: Vec<(u32, u32)> = before.into_iter().filter(|e| e.0 != 50).collect();
    assert_eq!(after, expected);
}

#[test]
fn values_can_be_written_where_they_stand() {
    let mut map = sample();
    *map.get_mut(&30).unwrap() = 1;
    assert!(map.get_mut(&35).is_none());
    *map.min_mut().unwrap().1 = 2;
    *map.max_mut().unwrap().1 = 3;
    *map.pred_mut(&50, false).unwrap().1 = 4;
    *map.succ_mut(&50, false).unwrap().1 = 5;
    *map.select_mut(4).unwrap().1 = 6;
    assert!(map.select_mut(9).is_none());
    let all: Vec<(u32, u32)> = map.iter().collect().into_iter().map(|e| (*e.0, *e.1)).collect();
    assert_eq!(
        all,
        vec![(10, 2), (20, 21), (30, 1), (40, 4), (50, 6), (60, 5), (70, 71), (80, 81), (90, 3)]
    );
}

#[test]
fn removal_by_position_in_the_order() {
    let mut map = sample();
    assert_eq!(map.remove_min(), Some((10, 11)));
    assert_eq!(map.remove_max(), Some((90, 91)));
    assert_eq!(map.remove_pred(&50, false), Some((40, 41)));
    assert_eq!(map.remove_pred(&50, true), Some((50, 51)));
    assert_eq!(map.remove_succ(&50, true), Some((60, 61)));
    assert_eq!(map.remove_succ(&85, false), None);
    assert_eq!(map.remove_pred(&15, true), None);
    assert_eq!(map.remove_select(1), Some((30, 31)));
    assert_eq!(map.remove_select(3), None);
    assert_eq!(keys(&map), vec![20, 70, 80]);
    assert!(is_balanced(map.root()));
}

#[test]
fn selecting_and_ranking_are_inverse() {
    let map = sample();
    for i in 0..map.len() {
        let key = *map.select(i).unwrap().0;
        assert_eq!(map.rank(&key), i);
    }
    for k in keys(&map) {
        assert_eq!(map.select(map.rank(&k)).map(|e| *e.0), Some(k));
    }
    assert_eq!(map.rank(&5), 0);
    assert_eq!(map.rank(&55), 5);
    assert_eq!(map.rank(&95), 9);
}

#[test]
fn an_occupied_entry() {
    let mut map = sample();
    match map.entry(30) {
        Entry::Occupied(mut e) => {
            assert_eq!(e.key(), &30);
            assert_eq!(e.get(), &31);
            *e.get_mut() += 1;
            assert_eq!(e.insert(7), 32);
            assert_eq!(e.get(), &7);
            *e.into_mut() += 1;
        }
        Entry::Vacant(_) => panic!("expected an occupied entry"),
    }
    assert_eq!(map.get(&30), Some(&8));
    assert_eq!(map.len(), 9);
    match map.entry(30) {
        Entry::Occupied(e) => assert_eq!(e.remove(), (30, 8)),
        Entry::Vacant(_) => panic!("expected an occupied entry"),
    }
    assert_eq!(map.len(), 8);
    assert_eq!(map.get(&30), None);
    assert!(is_balanced(map.root()));
}

#[test]
fn a_vacant_entry() {
    let mut map = sample();
    match map.entry(35) {
        Entry::Occupied(_) => panic!("expected a vacant entry"),
        Entry::Vacant(e) => {
            *e.insert(1) += 1;
        }
    }
    assert_eq!(map.get(&35), Some(&2));
    assert_eq!(map.len(), 10);
    assert_eq!(keys(&map), vec![10, 20, 30, 35, 40, 50, 60, 70, 80, 90]);
    assert!(is_balanced(map.root()));
}

#[test]
fn an_entry_dropped_unused_changes_nothing() {
    let mut map = sample();
    let _ = map.entry(35);
    let _ = map.entry(30);
    let _ = map.max_entry();
    assert_eq!(map.len(), 9);
    assert_eq!(keys(&map), vec![10, 20, 30, 40, 50, 60, 70, 80, 90]);
}

#[test]
fn or_insert_is_insert_if_absent_then_get_mut() {
    for key in [30u32, 35] {
        let mut by_entry = sample();
        *by_entry.entry(key).or_insert(7) += 100;
        let mut by_hand = sample();
        if by_hand.get(&key).is_none() {
            by_hand.insert(key, 7);
        }
        *by_hand.get_mut(&key).unwrap() += 100;
        assert_eq!(
            by_entry.iter().collect(),
            by_hand.iter().collect(),
        );
        assert_eq!(by_entry.len(), by_hand.len());
    }
    let mut map = sample();
    assert_eq!(*map.entry(30).or_insert_with(|| 0), 31);
    assert_eq!(*map.entry(35).or_insert_with(|| 0), 0);
}

#[test]
fn entries_at_the_ends_and_beside_a_key() {
    let mut map = sample();
    assert_eq!(map.min_entry().unwrap().remove(), (10, 11));
    assert_eq!(map.max_entry().unwrap().remove(), (90, 91));
    assert_eq!(map.pred_entry(&50, false).unwrap().key(), &40);
    assert_eq!(map.pred_entry(&50, true).unwrap().key(), &50);
    assert_eq!(map.succ_entry(&50, false).unwrap().key(), &60);
    assert!(map.succ_entry(&80, false).is_none());
    assert!(map.pred_entry(&20, false).is_none());
    assert_eq!(map.select_entry(0).unwrap().get(), &21);
    assert!(map.select_entry(7).is_none());
    assert_eq!(map.len(), 7);
}

#[test]
fn iteration_that_writes() {
    let mut map = sample();
    {
        let mut it = map.iter_mut();
        assert_eq!(it.size_hint(), (9, Some(9)));
        while let Some((k, v)) = it.next() {
            *v = *k * 2;
        }
        assert_eq!(it.size_hint(), (0, Some(0)));
    }
    assert!(map.iter().collect().into_iter().all(|e| *e.1 == *e.0 * 2));
    {
        let mut it = map.iter_mut();
        *it.next_back().unwrap().1 = 0;
        *it.next().unwrap().1 = 1;
        assert_eq!(it.range_size_hint(), (7, Some(7)));
    }
    assert_eq!(map.get(&90), Some(&0));
    assert_eq!(map.get(&10), Some(&1));
    {
        let mut it = map.range_mut(Bound::Included(&30), Bound::Excluded(&60));
        assert_eq!(it.size_hint(), (3, Some(3)));
        while let Some((_, v)) = it.next_back() {
            *v = 9;
        }
    }
    let nines: Vec<u32> =
        map.iter().collect().into_iter().filter(|e| *e.1 == 9).map(|e| *e.0).collect();
    assert_eq!(nines, vec![30, 40, 50]);
    assert!(map.range_mut(Bound::Excluded(&60), Bound::Excluded(&30)).next().is_none());
    assert!(is_balanced(map.root()));
}

#[test]
fn iteration_that_owns() {
    let map = sample();
    let mut it = map.into_iter();
    assert_eq!(it.len(), 9);
    assert_eq!(it.next(), Some((10, 11)));
    assert_eq!(it.next_back(), Some((90, 91)));
    assert_eq!(it.size_hint(), (7, Some(7)));
    assert_eq!(it.collect().len(), 7);
    let all = sample().into_iter().collect_rev();
    assert_eq!(all[0], (90, 91));
    assert_eq!(all[8], (10, 11));
    let some = sample().into_range(Bound::Excluded(&20), Bound::Included(&40)).collect();
    assert_eq!(some, vec![(30, 31), (40, 41)]);
}

#[test]
fn ranges_with_each_kind_of_bound() {
    let map = sample();
    let range = |min: Bound<&u32>, max: Bound<&u32>| -> Vec<u32> {
        map.range(min, max).collect().into_iter().map(|e| *e.0).collect()
    };
    assert_eq!(range(Bound::Unbounded, Bound::Unbounded).len(), 9);
    assert_eq!(range(Bound::Included(&30), Bound::Included(&50)), vec![30, 40, 50]);
    assert_eq!(range(Bound::Excluded(&30), Bound::Excluded(&50)), vec![40]);
    assert_eq!(range(Bound::Included(&35), Bound::Excluded(&65)), vec![40, 50, 60]);
    assert_eq!(range(Bound::Unbounded, Bound::Excluded(&10)), Vec::<u32>::new());
    assert_eq!(range(Bound::Excluded(&90), Bound::Unbounded), Vec::<u32>::new());
    assert_eq!(range(Bound::Included(&50), Bound::Included(&50)), vec![50]);
    assert_eq!(range(Bound::Excluded(&50), Bound::Included(&50)), Vec::<u32>::new());
    assert_eq!(range(Bound::Included(&60), Bound::Included(&40)), Vec::<u32>::new());
    let back: Vec<u32> = map
        .range(Bound::Included(&30), Bound::Included(&50))
        .collect_rev()
        .into_iter()
        .map(|e| *e.0)
        .collect();
    assert_eq!(back, vec![50, 40, 30]);
    let mut it = map.range(Bound::Included(&20), Bound::Included(&80));
    assert_eq!(it.next().map(|e| *e.0), Some(20));
    assert_eq!(it.next_back().map(|e| *e.0), Some(80));
    let hint = it.size_hint();
    assert!(hint.0 <= 5 && 5 <= hint.1.unwrap());
}

#[test]
fn the_natural_order_of_the_integers_decides() {
    let mut map: TreeMap<i64, ()> = TreeMap::new();
    for k in [3i64, -7, 0, i64::MAX, i64::MIN, -1] {
        map.insert(k, ());
    }
    let got: Vec<i64> = map.iter().collect().into_iter().map(|e| *e.0).collect();
    assert_eq!(got, vec![i64::MIN, -7, -1, 0, 3, i64::MAX]);
    assert_eq!(map.cmp().compare(&1, &2), Ordering::Less);
    assert_eq!(map.cmp().compare(&2, &2), Ordering::Equal);
    assert_eq!(map.cmp().compare(&3, &2), Ordering::Greater);
    let mut bytes: TreeMap<u8, ()> = TreeMap::new();
    bytes.insert(200, ());
    bytes.insert(3, ());
    assert_eq!(bytes.min().map(|e| *e.0), Some(3));
}

#[test]
fn a_reversed_order_turns_the_map_around() {
    let mut map: TreeMap<u32, u32, Reversed<compare::Natural<u32>>> =
        TreeMap::with_cmp(Reversed(natural()));
    for k in [2u32, 1, 3] {
        map.insert(k, k);
    }
    let got: Vec<u32> = map.iter().collect().into_iter().map(|e| *e.0).collect();
    assert_eq!(got, vec![3, 2, 1]);
    assert_eq!(map.min().map(|e| *e.0), Some(3));
    assert_eq!(map.pred(&2, false).map(|e| *e.0), Some(3));
    assert_eq!(map.rank(&1), 2);
    assert_eq!(map.cmp().compare(&1, &2), Ordering::Greater);
}

#[test]
fn a_map_agrees_with_a_sorted_vector_through_many_operations() {
    let mut map: TreeMap<u32, u32> = TreeMap::new();
    let mut model: Vec<(u32, u32)> = Vec::new();
    let mut state: u64 = 0x2545_f491_4f6c_dd1d;
    let mut random = move || {
        state ^= state << 13;
        state ^= state >> 7;
        state ^= state << 17;
        (state >> 16) as u32
    };
    for step in 0..6000u32 {
        let key = random() % 97;
        let at = model.binary_search_by(|e| e.0.cmp(&key));
        match random() % 8 {
            0 | 1 | 2 => {
                let old = map.insert(key, step);
                match at {
                    Ok(i) => {
                        assert_eq!(old, Some(model[i].1));
                        model[i].1 = step;
                    }
                    Err(i) => {
                        assert_eq!(old, None);
                        model.insert(i, (key, step));
                    }
                }
            }
            3 | 4 => {
                let removed = map.remove(&key);
                match at {
                    Ok(i) => assert_eq!(removed, Some(model.remove(i))),
                    Err(_) => assert_eq!(removed, None),
                }
            }
            5 => {
                *map.entry(key).or_insert(step) += 1;
                match at {
                    Ok(i) => model[i].1 += 1,
                    Err(i) => model.insert(i, (key, step + 1)),
                }
            }
            6 => {
                let inclusive = step % 2 == 0;
                let removed = map.remove_pred(&key, inclusive);
                let index = match at {
                    Ok(i) if inclusive => Some(i),
                    Ok(i) | Err(i) => i.checked_sub(1),
                };
                assert_eq!(removed, index.map(|i| model.remove(i)));
            }
            _ => {
                let index = key as usize;
                let removed = map.remove_select(index);
                if index < model.len() {
                    assert_eq!(removed, Some(model.remove(index)));
                } else {
                    assert_eq!(removed, None);
                }
            }
        }
        assert_eq!(map.len(), model.len());
        assert_eq!(map.get(&key), model.iter().find(|e| e.0 == key).map(|e| &e.1));
        assert_eq!(map.rank(&key), model.iter().filter(|e| e.0 < key).count());
        assert_eq!(map.min(), model.first().map(|e| (&e.0, &e.1)));
        assert_eq!(map.max(), model.last().map(|e| (&e.0, &e.1)));
        assert_eq!(
            map.succ(&key, false),
            model.iter().find(|e| e.0 > key).map(|e| (&e.0, &e.1))
        );
        assert_eq!(
            map.pred(&key, true),
            model.iter().rev().find(|e| e.0 <= key).map(|e| (&e.0, &e.1))
        );
        if step % 64 == 0 {
            assert!(is_balanced(map.root()));
            let all: Vec<(u32, u32)> =
                map.iter().collect().into_iter().map(|e| (*e.0, *e.1)).collect();
            assert_eq!(all, model);
        }
    }
    assert!(is_balanced(map.root()));
}

struct ByTens;

impl KeyOrder<u32> for ByTens {
    fn less(&self, _: u32, _: u32) -> bool {
        unreachable!()
    }

    fn compare(&self, a: &u32, b: &u32) -> Ordering {
        (a / 10).cmp(&(b / 10))
    }

    fn irreflexive(&self, _: u32) {
        unreachable!()
    }

    fn transitive(&self, _: u32, _: u32, _: u32) {
        unreachable!()
    }

    fn splits(&self, _: u32, _: u32, _: u32) {
        unreachable!()
    }
}

#[test]
fn an_equivalent_key_takes_the_value_and_the_old_key_stays() {
    let mut map: TreeMap<u32, &str, ByTens> = TreeMap::with_cmp(ByTens);
    assert_eq!(map.insert(12, "a"), None);
    assert_eq!(map.insert(25, "b"), None);
    assert_eq!(map.insert(17, "c"), Some("a"));
    assert_eq!(map.len(), 2);
    assert_eq!(map.iter().collect(), vec![(&12, &"c"), (&25, &"b")]);
    assert_eq!(map.get(&19), Some(&"c"));
    assert_eq!(map.remove(&10), Some((12, "c")));
}

fn map_of(entries: &[(u32, u32)]) -> TreeMap<u32, u32> {
    let mut map = TreeMap::new();
    for (k, v) in entries {
        map.insert(*k, *v);
    }
    map
}

#[test]
fn maps_compare_entry_by_entry() {
    let a = map_of(&[(1, 1), (2, 2)]);
    assert!(a.equals(&map_of(&[(2, 2), (1, 1)])));
    assert!(!a.equals(&map_of(&[(1, 1)])));
    assert!(!a.equals(&map_of(&[(1, 1), (2, 3)])));
    assert!(!a.equals(&map_of(&[(1, 1), (3, 2)])));
    assert!(map_of(&[]).equals(&map_of(&[])));
    assert_eq!(a.compare_to(&map_of(&[(1, 1), (2, 2)])), Ordering::Equal);
    assert_eq!(a.compare_to(&map_of(&[(1, 1)])), Ordering::Greater);
    assert_eq!(a.compare_to(&map_of(&[(1, 1), (2, 2), (3, 3)])), Ordering::Less);
    assert_eq!(a.compare_to(&map_of(&[(1, 1), (2, 3)])), Ordering::Less);
    assert_eq!(a.compare_to(&map_of(&[(1, 0), (9, 9)])), Ordering::Greater);
    assert_eq!(a.compare_to(&map_of(&[(1, 1), (3, 0)])), Ordering::Less);
    assert_eq!(a.compare_to(&map_of(&[(0, 9)])), Ordering::Greater);
    assert_eq!(map_of(&[]).compare_to(&a), Ordering::Less);
    assert_eq!(a.partial_compare_to(&map_of(&[(1, 1), (2, 2)])), Some(Ordering::Equal));
    assert_eq!(a.partial_compare_to(&map_of(&[(1, 2)])), Some(Ordering::Less));
    assert_eq!(a.compare_keys(&map_of(&[(1, 7), (2, 8)])), Ordering::Equal);
    assert_eq!(a.compare_keys(&map_of(&[(1, 7), (3, 8)])), Ordering::Less);
}

#[test]
fn values_without_an_order_leave_maps_without_one() {
    let mut a: TreeMap<u32, f64> = TreeMap::new();
    let mut b: TreeMap<u32, f64> = TreeMap::new();
    a.insert(1, f64::NAN);
    b.insert(1, 1.0);
    assert_eq!(a.partial_compare_to(&b), None);
    assert!(!a.equals(&a));
    b.insert(0, 0.0);
    assert_eq!(a.partial_compare_to(&b), Some(Ordering::Greater));
}

struct BySize;

impl KeyOrder<Vec<u8>> for BySize {
    fn less(&self, _: Vec<u8>, _: Vec<u8>) -> bool {
        unreachable!()
    }

    fn compare(&self, a: &Vec<u8>, b: &Vec<u8>) -> Ordering {
        a.len().cmp(&b.len())
    }

    fn irreflexive(&self, _: Vec<u8>) {
        unreachable!()
    }

    fn transitive(&self, _: Vec<u8>, _: Vec<u8>, _: Vec<u8>) {
        unreachable!()
    }

    fn splits(&self, _: Vec<u8>, _: Vec<u8>, _: Vec<u8>) {
        unreachable!()
    }
}

impl tree::order::QueryOrder<usize, Vec<u8>> for BySize {
    fn key(&self, _: usize) -> Vec<u8> {
        unreachable!()
    }

    fn compare_query(&self, q: &usize, k: &Vec<u8>) -> Ordering {
        q.cmp(&k.len())
    }
}

#[test]
fn a_query_of_another_type_finds_its_key() {
    let mut map: TreeMap<Vec<u8>, &str, BySize> = TreeMap::with_cmp(BySize);
    map.insert(vec![1, 2, 3], "three");
    map.insert(vec![9], "one");
    map.insert(vec![], "none");
    map.insert(vec![4, 4, 4, 4, 4], "five");
    assert_eq!(map.get(&3usize), Some(&"three"));
    assert_eq!(map.get(&vec![0u8, 0, 0]), Some(&"three"));
    assert_eq!(map.get(&2usize), None);
    assert!(map.contains_key(&0usize));
    assert_eq!(map.rank(&4usize), 3);
    assert_eq!(map.pred(&4usize, true).map(|e| *e.1), Some("three"));
    assert_eq!(map.succ(&1usize, false).map(|e| *e.1), Some("three"));
    *map.get_mut(&1usize).unwrap() = "uno";
    assert_eq!(map.remove(&1usize), Some((vec![9], "uno")));
    assert_eq!(map.remove_succ(&4usize, true), Some((vec![4, 4, 4, 4, 4], "five")));
    let some: Vec<&str> = map
        .range(Bound::Included(&0usize), Bound::Excluded(&vec![7u8, 7, 7]))
        .collect()
        .into_iter()
        .map(|e| *e.1)
        .collect();
    assert_eq!(some, vec!["none"]);
    assert_eq!(map.len(), 2);
}

#[test]
fn a_range_hints_at_its_stack_and_at_most_the_length() {
    let map = sample();
    for lo in [0u32, 10, 35, 50, 95] {
        for hi in [0u32, 10, 35, 50, 95] {
            let mut left = map.range(Bound::Included(&lo), Bound::Excluded(&hi)).collect().len();
            let mut it = map.range(Bound::Included(&lo), Bound::Excluded(&hi));
            loop {
                let hint = it.size_hint();
                assert!(hint.0 <= left);
                assert!(left <= hint.1.unwrap());
                assert!(hint.1.unwrap() <= map.len());
                if it.next().is_none() {
                    break;
                }
                left -= 1;
            }
        }
    }
}

#[test]
fn writing_a_value_keeps_the_shape_of_the_tree() {
    let mut map = sample();
    let shape = |m: &TreeMap<u32, u32>| -> Vec<(u32, usize, usize)> {
        let mut out = Vec::new();
        let mut stack = vec![m.root()];
        while let Some(link) = stack.pop() {
            if let Some(n) = link {
                out.push((n.key, n.balance.level(), n.size));
                stack.push(&n.left);
                stack.push(&n.right);
            }
        }
        out
    };
    let before = shape(&map);
    *map.get_mut(&30).unwrap() = 0;
    *map.max_mut().unwrap().1 = 0;
    match map.entry(50) {
        Entry::Occupied(mut e) => {
            e.insert(0);
            *e.get_mut() = 1;
            *e.into_mut() = 2;
        }
        Entry::Vacant(_) => panic!("expected an occupied entry"),
    }
    *map.entry(70).or_insert(9) = 3;
    assert_eq!(map.insert(20, 4), Some(21));
    assert_eq!(shape(&map), before);
    assert_eq!(map.get(&50), Some(&2));
}

#[test]
fn strings_are_ordered_by_their_code_points() {
    let mut map: TreeMap<String, u32> = TreeMap::new();
    let words = ["b", "ab", "a", "", "Z", "z", "\u{e9}", "\u{ffff}", "\u{10000}", "aa", "a\u{e9}"];
    for (i, w) in words.iter().enumerate() {
        assert_eq!(map.insert(w.to_string(), i as u32), None);
    }
    assert_eq!(map.insert("ab".to_string(), 99), Some(1));
    let got: Vec<&str> = map.iter().collect().into_iter().map(|e| e.0.as_str()).collect();
    assert_eq!(
        got,
        vec!["", "Z", "a", "aa", "ab", "a\u{e9}", "b", "z", "\u{e9}", "\u{ffff}", "\u{10000}"]
    );
    assert_eq!(map.get(&"ab".to_string()), Some(&99));
    assert_eq!(map.rank(&"b".to_string()), 6);
    assert_eq!(map.pred(&"b".to_string(), false).map(|e| e.0.as_str()), Some("a\u{e9}"));
    assert_eq!(
        map.cmp().compare(&"a".to_string(), &"ab".to_string()),
        Ordering::Less
    );
    let lo = "a".to_string();
    let hi = "b".to_string();
    let some: Vec<&str> = map
        .range(Bound::Included(&lo), Bound::Excluded(&hi))
        .collect()
        .into_iter()
        .map(|e| e.0.as_str())
        .collect();
    assert_eq!(some, vec!["a", "aa", "ab", "a\u{e9}"]);
    assert!(is_balanced(map.root()));
}
