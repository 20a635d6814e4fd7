use compare::natural;
use compare::Natural;
use tree::balance::Aa;
use tree::model::Bound;
use tree::node::builder::Get;
use tree::node::builder::GetMut;
use tree::node::builder::PathBuilder;
use tree::node::closest;
use tree::node::entry_at;
use tree::node::extreme;
use tree::node::find;
use tree::node::get;
use tree::node::insert;
use tree::node::insert_at;
use tree::node::is_balanced;
use tree::node::iter::Iter;
use tree::node::iter::MarkedNode;
use tree::node::iter::Range;
use tree::node::iter::Seen;
use tree::node::iter::Visit;
use tree::node::remove_at;
use tree::node::remove_root;
use tree::node::rotate_left;
use tree::node::rotate_right;
use tree::node::value_at_mut;
use tree::node::Link;
use tree::node::LinkExt;
use tree::node::Max;
use tree::node::Min;
use tree::node::Node;

fn leaf(key: u32) -> Box<Node<u32, u32>> {
    Box::new(Node::new(key, key * 10))
}

fn tree_of(keys: &[u32]) -> Link<u32, u32> {
    let order: Natural<u32> = natural();
    let mut root = None;
    for k in keys {
        insert(&mut root, &order, *k, *k * 10);
    }
    root
}

fn keys_of(link: &Link<u32, u32>) -> Vec<u32> {
    Iter::new(MarkedNode::root(link), size(link)).collect().into_iter().map(|e| *e.0).collect()
}

fn size(link: &Link<u32, u32>) -> usize {
    tree::node::size_of(link)
}

#[test]
fn a_new_node_is_a_leaf_of_level_one() {
    let n = Node::new(7u32, 70u32);
    assert_eq!(n.balance.level(), 1);
    assert_eq!(Aa::default().level(), 1);
    assert_eq!(n.size, 1);
    assert!(n.left.is_none() && n.right.is_none());
    assert!(is_balanced(&Some(Box::new(n))));
}

#[test]
fn skew_rotates_a_left_child_on_the_same_level() {
    let mut n = leaf(2);
    n.left = Some(leaf(1));
    n.size = 2;
    Aa::skew(&mut n);
    assert_eq!(n.key, 1);
    assert_eq!(n.size, 2);
    assert_eq!(n.balance.level(), 1);
    assert!(n.left.is_none());
    let r = n.right.as_ref().unwrap();
    assert_eq!((r.key, r.size, r.balance.level()), (2, 1, 1));
}

#[test]
fn skew_leaves_a_lower_left_child_alone() {
    let mut n = leaf(2);
    n.left = Some(leaf(1));
    n.size = 2;
    n.balance = Aa(2);
    Aa::skew(&mut n);
    assert_eq!(n.key, 2);
    assert_eq!(n.left.as_ref().unwrap().key, 1);
}

#[test]
fn split_raises_the_middle_of_three_in_a_row() {
    let mut far = leaf(2);
    far.right = Some(leaf(3));
    far.size = 2;
    let mut n = leaf(1);
    n.right = Some(far);
    n.size = 3;
    Aa::split(&mut n);
    assert_eq!((n.key, n.size, n.balance.level()), (2, 3, 2));
    let l = n.left.as_ref().unwrap();
    let r = n.right.as_ref().unwrap();
    assert_eq!((l.key, l.size, l.balance.level()), (1, 1, 1));
    assert_eq!((r.key, r.size, r.balance.level()), (3, 1, 1));
    assert!(is_balanced(&Some(n)));
}

#[test]
fn split_leaves_a_single_right_link_alone() {
    let mut n = leaf(1);
    n.right = Some(leaf(2));
    n.size = 2;
    Aa::split(&mut n);
    assert_eq!((n.key, n.balance.level()), (1, 1));
    assert_eq!(n.right.as_ref().unwrap().key, 2);
}

#[test]
fn split_leaves_a_lower_right_child_alone() {
    let mut far = leaf(3);
    far.balance = Aa(2);
    let mut right = leaf(2);
    right.right = Some(far);
    right.size = 2;
    let mut n = leaf(1);
    n.balance = Aa(2);
    n.right = Some(right);
    n.size = 3;
    Aa::split(&mut n);
    assert_eq!((n.key, n.size, n.balance.level()), (1, 3, 2));
    assert!(n.left.is_none());
    let r = n.right.as_ref().unwrap();
    assert_eq!((r.key, r.size, r.balance.level()), (2, 2, 1));
    let rr = r.right.as_ref().unwrap();
    assert_eq!((rr.key, rr.size, rr.balance.level()), (3, 1, 2));
}

#[test]
fn split_leaves_a_lower_grandchild_alone() {
    let mut right = leaf(2);
    right.balance = Aa(2);
    right.right = Some(leaf(3));
    right.size = 2;
    let mut n = leaf(1);
    n.balance = Aa(2);
    n.right = Some(right);
    n.size = 3;
    Aa::split(&mut n);
    assert_eq!((n.key, n.balance.level()), (1, 2));
    assert_eq!(n.right.as_ref().unwrap().key, 2);
    assert_eq!(n.right.as_ref().unwrap().right.as_ref().unwrap().key, 3);
}

#[test]
fn rotations_without_a_child_change_nothing() {
    let mut n = leaf(1);
    rotate_left(&mut n);
    rotate_right(&mut n);
    assert_eq!((n.key, n.size), (1, 1));
    assert!(n.left.is_none() && n.right.is_none());
}

#[test]
fn rotations_are_inverse() {
    let mut n = leaf(2);
    n.left = Some(leaf(1));
    n.right = Some(leaf(3));
    n.size = 3;
    n.balance = Aa(2);
    rotate_right(&mut n);
    assert_eq!(n.key, 1);
    assert_eq!(n.size, 3);
    assert_eq!(n.right.as_ref().unwrap().size, 2);
    rotate_left(&mut n);
    assert_eq!(n.key, 2);
    assert_eq!(n.left.as_ref().unwrap().key, 1);
    assert_eq!(n.right.as_ref().unwrap().key, 3);
    assert!(is_balanced(&Some(n)));
}

#[test]
fn seven_ascending_inserts_make_a_full_tree() {
    let root = tree_of(&[1, 2, 3, 4, 5, 6, 7]);
    let n = root.as_ref().unwrap();
    assert_eq!((n.key, n.balance.level(), n.size), (4, 3, 7));
    let l = n.left.as_ref().unwrap();
    let r = n.right.as_ref().unwrap();
    assert_eq!((l.key, l.balance.level(), l.size), (2, 2, 3));
    assert_eq!((r.key, r.balance.level(), r.size), (6, 2, 3));
    assert!(is_balanced(&root));
    assert_eq!(keys_of(&root), vec![1, 2, 3, 4, 5, 6, 7]);
}

#[test]
fn the_walker_rejects_a_wrong_level_and_a_wrong_size() {
    let mut root = tree_of(&[1, 2, 3]);
    assert!(is_balanced(&root));
    root.as_mut().unwrap().balance = Aa(3);
    assert!(!is_balanced(&root));
    let mut root = tree_of(&[1, 2, 3]);
    root.as_mut().unwrap().size = 2;
    assert!(!is_balanced(&root));
    let mut two_in_a_row = leaf(1);
    let mut mid = leaf(2);
    mid.right = Some(leaf(3));
    mid.size = 2;
    two_in_a_row.right = Some(mid);
    two_in_a_row.size = 3;
    assert!(!is_balanced(&Some(two_in_a_row)));
    let mut left_heavy = leaf(2);
    left_heavy.left = Some(leaf(1));
    left_heavy.size = 2;
    assert!(!is_balanced(&Some(left_heavy)));
}

#[test]
fn insert_replaces_the_value_and_returns_the_old_one() {
    let order: Natural<u32> = natural();
    let mut root = tree_of(&[5, 3, 8]);
    assert_eq!(insert(&mut root, &order, 3, 1), Some(30));
    assert_eq!(insert(&mut root, &order, 4, 2), None);
    assert_eq!(get(&root, &order, &3), Some((&3, &1)));
    assert_eq!(get(&root, &order, &4), Some((&4, &2)));
    assert_eq!(get(&root, &order, &6), None);
    assert_eq!(size(&root), 4);
}

#[test]
fn find_gives_the_rank_and_whether_the_key_is_held() {
    let order: Natural<u32> = natural();
    let root = tree_of(&[10, 20, 30]);
    assert_eq!(find(&root, &order, &5), (0, false));
    assert_eq!(find(&root, &order, &10), (0, true));
    assert_eq!(find(&root, &order, &20), (1, true));
    assert_eq!(find(&root, &order, &25), (2, false));
    assert_eq!(find(&root, &order, &30), (2, true));
    assert_eq!(find(&root, &order, &31), (3, false));
    assert_eq!(find(&None::<Box<Node<u32, u32>>>, &order, &1), (0, false));
}

#[test]
fn extremes_and_neighbours_by_index() {
    let order: Natural<u32> = natural();
    let root = tree_of(&[10, 20, 30]);
    let empty: Link<u32, u32> = None;
    assert_eq!(extreme::<Min, u32, u32>(&root), Some(0));
    assert_eq!(extreme::<Max, u32, u32>(&root), Some(2));
    assert_eq!(extreme::<Min, u32, u32>(&empty), None);
    assert_eq!(extreme::<Max, u32, u32>(&empty), None);
    let pred = |k: u32, inc: bool| closest::<Min, u32, u32, u32, Natural<u32>>(&root, &order, &k, inc);
    let succ = |k: u32, inc: bool| closest::<Max, u32, u32, u32, Natural<u32>>(&root, &order, &k, inc);
    assert_eq!(pred(10, false), None);
    assert_eq!(pred(10, true), Some(0));
    assert_eq!(pred(15, false), Some(0));
    assert_eq!(pred(15, true), Some(0));
    assert_eq!(pred(20, false), Some(0));
    assert_eq!(pred(20, true), Some(1));
    assert_eq!(pred(99, true), Some(2));
    assert_eq!(pred(5, true), None);
    assert_eq!(succ(30, false), None);
    assert_eq!(succ(30, true), Some(2));
    assert_eq!(succ(25, false), Some(2));
    assert_eq!(succ(20, false), Some(2));
    assert_eq!(succ(20, true), Some(1));
    assert_eq!(succ(5, false), Some(0));
    assert_eq!(succ(31, true), None);
    assert_eq!(closest::<Min, u32, u32, u32, Natural<u32>>(&empty, &order, &1, true), None);
}

#[test]
fn positional_operations() {
    let mut root = tree_of(&[10, 20, 30, 40]);
    assert_eq!(entry_at(&root, 0), (&10, &100));
    assert_eq!(entry_at(&root, 3), (&40, &400));
    *value_at_mut(&mut root, 2).1 = 7;
    assert_eq!(entry_at(&root, 2), (&30, &7));
    insert_at(&mut root, 0, 5, 50);
    insert_at(&mut root, 5, 45, 450);
    insert_at(&mut root, 3, 25, 250);
    assert_eq!(keys_of(&root), vec![5, 10, 20, 25, 30, 40, 45]);
    assert!(is_balanced(&root));
    assert_eq!(remove_at(&mut root, 3), (25, 250));
    assert_eq!(remove_at(&mut root, 0), (5, 50));
    assert_eq!(remove_at(&mut root, 4), (45, 450));
    assert_eq!(keys_of(&root), vec![10, 20, 30, 40]);
    assert!(is_balanced(&root));
    let top = root.as_ref().unwrap().key;
    assert_eq!(remove_root(&mut root).0, top);
    assert!(is_balanced(&root));
    assert_eq!(size(&root), 3);
}

#[test]
fn removing_every_entry_of_every_small_tree_keeps_the_balance() {
    for n in 1..=24u32 {
        let keys: Vec<u32> = (1..=n).collect();
        for i in 0..n as usize {
            let mut root = tree_of(&keys);
            assert_eq!(remove_at(&mut root, i), (keys[i], keys[i] * 10));
            assert!(is_balanced(&root), "after removing index {} of {}", i, n);
            let mut rest = keys.clone();
            rest.remove(i);
            assert_eq!(keys_of(&root), rest);
        }
    }
}

#[test]
fn emptying_a_tree_from_either_end_keeps_the_balance() {
    let keys: Vec<u32> = (1..=40).map(|i| (i * 37) % 41).collect();
    let mut root = tree_of(&keys);
    let mut left = 40;
    while left > 0 {
        let index = if left % 2 == 0 { 0 } else { left - 1 };
        remove_at(&mut root, index);
        left -= 1;
        assert!(is_balanced(&root));
        assert_eq!(size(&root), left);
    }
    assert!(root.is_none());
}

#[test]
fn builders_turn_a_spot_into_what_is_asked() {
    let order: Natural<u32> = natural();
    let mut root = tree_of(&[1, 2, 3]);
    assert_eq!(Get::build(&root, Some(1)), Some((&2, &20)));
    assert_eq!(Get::build(&root, None), None);
    match GetMut::build(&mut root, Some(0)) {
        Some((k, v)) => {
            assert_eq!(*k, 1);
            *v = 11;
        }
        None => panic!("expected an entry"),
    }
    assert!(GetMut::build(&mut root, None).is_none());
    assert_eq!(entry_at(&root, 0), (&1, &11));
    let mut len = 3;
    let path = PathBuilder::build(&mut root, &order, 2, true);
    assert_eq!(path.remove(&mut len), Some((3, 30)));
    assert_eq!(len, 2);
    let path = PathBuilder::build_found(&mut root, &order, None);
    assert_eq!(path.remove(&mut len), None);
    assert_eq!(len, 2);
    assert!(PathBuilder::build_found(&mut root, &order, Some(0)).into_occupied_entry(&mut len).is_some());
    assert!(PathBuilder::build_found(&mut root, &order, None).into_occupied_entry(&mut len).is_none());
}

#[test]
fn a_visit_hands_out_each_child_once() {
    let root = tree_of(&[1, 2, 3]);
    let mut visit = Visit::new(MarkedNode::new(root.as_ref().unwrap()));
    assert!(matches!(visit.seen(), Seen::N));
    assert_eq!(*visit.key(), 2);
    assert!(visit.left().is_some());
    assert!(matches!(visit.seen(), Seen::L));
    assert!(visit.left().is_none());
    assert!(visit.right().is_some());
    assert!(matches!(visit.seen(), Seen::B));
    assert!(visit.right().is_none());
    assert_eq!(visit.item(), (&2, &20));
    let mut visit = Visit::new(MarkedNode::new(root.as_ref().unwrap()));
    assert!(visit.right().is_some());
    assert!(matches!(visit.seen(), Seen::R));
    assert!(visit.left().is_some());
    assert!(matches!(visit.seen(), Seen::B));
}

#[test]
fn iteration_from_both_ends_meets_in_the_middle() {
    let root = tree_of(&[1, 2, 3, 4, 5]);
    let mut it = Iter::new(root, 5);
    assert_eq!(it.size_hint(), (5, Some(5)));
    assert_eq!(it.next(), Some((1, 10)));
    assert_eq!(it.next_back(), Some((5, 50)));
    assert_eq!(it.next(), Some((2, 20)));
    assert_eq!(it.next_back(), Some((4, 40)));
    assert_eq!(it.size_hint(), (1, Some(1)));
    assert_eq!(it.next(), Some((3, 30)));
    assert_eq!(it.next(), None);
    assert_eq!(it.next_back(), None);
    assert_eq!(it.size_hint(), (0, Some(0)));
}

#[test]
fn iteration_over_no_tree_yields_nothing() {
    let mut it: Iter<Box<Node<u32, u32>>> = Iter::new(None, 0);
    assert_eq!(it.next(), None);
    assert_eq!(it.next_back(), None);
    assert_eq!(it.range_size_hint(), (0, Some(0)));
}

fn bounds_of(k: u32) -> Vec<(Bound<u32>, fn(u32, u32) -> bool, fn(u32, u32) -> bool)> {
    vec![
        (Bound::Included(k), |x, k| x >= k, |x, k| x <= k),
        (Bound::Excluded(k), |x, k| x > k, |x, k| x < k),
        (Bound::Unbounded, |_, _| true, |_, _| true),
    ]
}

fn as_ref(b: &Bound<u32>) -> Bound<&u32> {
    match b {
        Bound::Included(k) => Bound::Included(k),
        Bound::Excluded(k) => Bound::Excluded(k),
        Bound::Unbounded => Bound::Unbounded,
    }
}

#[test]
fn a_range_yields_what_both_bounds_admit() {
    let order: Natural<u32> = natural();
    for n in 0..=12u32 {
        let keys: Vec<u32> = (1..=n).map(|i| i * 2).collect();
        let root = tree_of(&keys);
        for lo in 0..=(2 * n + 2) {
            for hi in 0..=(2 * n + 2) {
                for (min, above, _) in bounds_of(lo) {
                    for (max, _, under) in bounds_of(hi) {
                        let expected: Vec<u32> =
                            keys.iter().cloned().filter(|x| above(*x, lo) && under(*x, hi)).collect();
                        let range = Range::new(
                            MarkedNode::root(&root),
                            keys.len(),
                            &order,
                            as_ref(&min),
                            as_ref(&max),
                        );
                        let hint = range.size_hint();
                        assert!(hint.0 <= expected.len() && expected.len() <= hint.1.unwrap());
                        let got: Vec<u32> = range.collect().into_iter().map(|e| *e.0).collect();
                        assert_eq!(got, expected);
                        let back: Vec<u32> = Range::new(
                            MarkedNode::root(&root),
                            keys.len(),
                            &order,
                            as_ref(&min),
                            as_ref(&max),
                        )
                        .collect_rev()
                        .into_iter()
                        .map(|e| *e.0)
                        .collect();
                        let mut reversed = expected.clone();
                        reversed.reverse();
                        assert_eq!(back, reversed);
                    }
                }
            }
        }
    }
}

#[test]
fn an_owning_range_yields_the_entries_themselves() {
    let order: Natural<u32> = natural();
    let root = tree_of(&[1, 2, 3, 4, 5, 6]);
    let mut range = Range::new(root, 6, &order, Bound::Excluded(&2), Bound::Included(&5));
    assert_eq!(range.next(), Some((3, 30)));
    assert_eq!(range.next_back(), Some((5, 50)));
    assert_eq!(range.next_back(), Some((4, 40)));
    assert_eq!(range.next(), None);
}

#[test]
fn the_root_entry_of_a_link() {
    let mut root = tree_of(&[1, 2, 3]);
    assert_eq!(root.key_value(), Some((&2, &20)));
    *root.key_value_mut().unwrap().1 = 5;
    assert_eq!(root.key_value(), Some((&2, &5)));
    let mut empty: Link<u32, u32> = None;
    assert_eq!(empty.key_value(), None);
    assert!(empty.key_value_mut().is_none());
}
