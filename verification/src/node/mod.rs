//! Tree nodes, what a tree holds and when it is balanced, and the rotations.

pub mod builder;
pub mod entry;
pub mod iter;

use crate::balance::Aa;
use crate::balance::lemma_insert_fixed;
use crate::balance::loose;
use crate::balance::lemma_near;
use crate::balance::lemma_remove_fixed_entries;
use crate::balance::lemma_remove_fixed;
use crate::model::at_index;
use crate::model::below;
use crate::model::entry_of;
use crate::model::extreme_index;
use crate::model::neighbor;
use crate::model::unref;
use crate::model::holds;
use crate::model::join;
use crate::model::lemma_below_bounds;
use crate::model::lemma_descend_here;
use crate::model::lemma_descend_left;
use crate::model::lemma_descend_right;
use crate::model::lemma_put_here;
use crate::model::lemma_put_left;
use crate::model::lemma_put_right;
use crate::model::lemma_put_sorted;
use crate::model::lemma_sorted_parts;
use crate::model::put;
use crate::model::sorted;
use crate::model::value_of;
use crate::order::KeyOrder;
use crate::order::QueryOrder;
use std::cmp::Ordering;
use vstd::prelude::*;

verus! {

/// An ownership slot: empty, or the one owner of a node.
pub type Link<K, V> = Option<Box<Node<K, V>>>;

/// A tree node. `size` counts the entries of the subtree rooted here.
pub struct Node<K, V> {
    pub left: Link<K, V>,
    pub right: Link<K, V>,
    pub balance: Aa,
    pub key: K,
    pub value: V,
    pub size: usize,
}

/// The level of a subtree: 0 where there is none.
pub open spec fn level<K, V>(link: Link<K, V>) -> nat {
    match link {
        None => 0,
        Some(n) => n.balance.0 as nat,
    }
}

/// The size a subtree's root records: 0 where there is none.
pub open spec fn count<K, V>(link: Link<K, V>) -> nat {
    match link {
        None => 0,
        Some(n) => n.size as nat,
    }
}

/// The left child of a subtree's root.
pub open spec fn left_of<K, V>(link: Link<K, V>) -> Link<K, V> {
    match link {
        None => None,
        Some(n) => n.left,
    }
}

/// The right child of a subtree's root.
pub open spec fn right_of<K, V>(link: Link<K, V>) -> Link<K, V> {
    match link {
        None => None,
        Some(n) => n.right,
    }
}

/// The entries of a subtree in order: left subtree, root, right subtree.
pub open spec fn entries<K, V>(link: Link<K, V>) -> Seq<(K, V)>
    decreases link,
{
    match link {
        None => Seq::empty(),
        Some(n) => join(entries(n.left), (n.key, n.value), entries(n.right)),
    }
}

impl<K, V> Node<K, V> {
    /// The size computed from the children's recorded sizes.
    pub open spec fn weight(self) -> nat {
        1 + count(self.left) + count(self.right)
    }

    /// The balance rules at this node alone: the left child is one level
    /// down, the right child on the same level or one down, the right
    /// child's right child strictly lower; and the size is right.
    pub open spec fn shaped(self) -> bool {
        &&& level(self.left) + 1 == self.balance.0
        &&& (level(self.right) == self.balance.0 || level(self.right) + 1 == self.balance.0)
        &&& level(right_of(self.right)) < self.balance.0
        &&& self.size == self.weight()
    }

    /// A leaf holding one entry.
    pub fn new(key: K, value: V) -> (n: Self)
        ensures
            n == (Node { left: None, right: None, balance: Aa(1), key, value, size: 1 }),
    {
        Node { left: None, right: None, balance: Aa(1), key, value, size: 1 }
    }
}

/// Every node of the subtree obeys the balance rules and records its size.
pub open spec fn balanced<K, V>(link: Link<K, V>) -> bool
    decreases link,
{
    match link {
        None => true,
        Some(n) => balanced(n.left) && balanced(n.right) && n.shaped(),
    }
}

/// Every node of the subtree records the size of its subtree.
pub open spec fn sized<K, V>(link: Link<K, V>) -> bool
    decreases link,
{
    match link {
        None => true,
        Some(n) => sized(n.left) && sized(n.right) && n.size == n.weight(),
    }
}

/// A balanced subtree records its sizes.
pub proof fn lemma_balanced_sized<K, V>(link: Link<K, V>)
    requires
        balanced(link),
    ensures
        sized(link),
    decreases link,
{
    match link {
        None => {},
        Some(n) => {
            lemma_balanced_sized(n.left);
            lemma_balanced_sized(n.right);
        },
    }
}

/// A balanced subtree records as many entries as it holds, and at least
/// twice its level less one: its level stays below the largest number.
pub proof fn lemma_count<K, V>(link: Link<K, V>)
    requires
        balanced(link),
    ensures
        count(link) == entries(link).len(),
        level(link) <= count(link),
        2 * level(link) <= count(link) + 1,
        level(link) < usize::MAX,
        link.is_some() <==> level(link) >= 1,
    decreases link,
{
    match link {
        None => {},
        Some(n) => {
            lemma_count(n.left);
            lemma_count(n.right);
        },
    }
}

/// The node that a right rotation puts in the root's place: the left child,
/// with the old root as its right child.
pub open spec fn rotated_right<K, V>(n: Node<K, V>) -> Node<K, V>
    recommends
        n.left.is_some(),
{
    let l = n.left.unwrap();
    let down = Node {
        left: l.right,
        right: n.right,
        balance: n.balance,
        key: n.key,
        value: n.value,
        size: (1 + count(l.right) + count(n.right)) as usize,
    };
    Node {
        left: l.left,
        right: Some(Box::new(down)),
        balance: l.balance,
        key: l.key,
        value: l.value,
        size: (2 + count(l.left) + count(l.right) + count(n.right)) as usize,
    }
}

/// The node that a left rotation puts in the root's place: the right child,
/// with the old root as its left child.
pub open spec fn rotated_left<K, V>(n: Node<K, V>) -> Node<K, V>
    recommends
        n.right.is_some(),
{
    let r = n.right.unwrap();
    let down = Node {
        left: n.left,
        right: r.left,
        balance: n.balance,
        key: n.key,
        value: n.value,
        size: (1 + count(n.left) + count(r.left)) as usize,
    };
    Node {
        left: Some(Box::new(down)),
        right: r.right,
        balance: r.balance,
        key: r.key,
        value: r.value,
        size: (2 + count(n.left) + count(r.left) + count(r.right)) as usize,
    }
}

/// A rotation keeps the entries and their order.
pub proof fn lemma_rotated_right<K, V>(n: Node<K, V>)
    requires
        n.left.is_some(),
    ensures
        entries(Some(Box::new(rotated_right(n)))) =~= entries(Some(Box::new(n))),
{
    let l = n.left.unwrap();
    let q = rotated_right(n);
    assert(entries(q.right) == join(entries(l.right), (n.key, n.value), entries(n.right)));
    assert(entries(n.left) == join(entries(l.left), (l.key, l.value), entries(l.right)));
}

/// A rotation keeps the entries and their order.
pub proof fn lemma_rotated_left<K, V>(n: Node<K, V>)
    requires
        n.right.is_some(),
    ensures
        entries(Some(Box::new(rotated_left(n)))) =~= entries(Some(Box::new(n))),
{
    let r = n.right.unwrap();
    let q = rotated_left(n);
    assert(entries(q.left) == join(entries(n.left), (n.key, n.value), entries(r.left)));
    assert(entries(n.right) == join(entries(r.left), (r.key, r.value), entries(r.right)));
}

/// Rotates the node to the right, if it has a left child.
pub fn rotate_right<K, V>(node: &mut Box<Node<K, V>>)
    requires
        sized(Some(*old(node))),
    ensures
        old(node).left.is_some() ==> **final(node) == rotated_right(**old(node)),
        old(node).left.is_none() ==> **final(node) == **old(node),
        sized(Some(*final(node))),
        final(node).size == old(node).size,
{
    proof {
        assert(sized(node.left));
        assert(sized(left_of(node.left)) && sized(right_of(node.left)));
    }
    if let Some(mut save) = node.left.take() {
        std::mem::swap(&mut node.left, &mut save.right);
        node.size = 1 + size_of(&node.left) + size_of(&node.right);
        std::mem::swap(node, &mut save);
        let below: usize = save.size;
        node.right = Some(save);
        node.size = 1 + size_of(&node.left) + below;
        proof {
            assert(sized(left_of(node.right)) && sized(right_of(node.right)));
            assert(sized(node.right));
            assert(sized(node.left));
        }
    }
}

/// Rotates the node to the left, if it has a right child.
pub fn rotate_left<K, V>(node: &mut Box<Node<K, V>>)
    requires
        sized(Some(*old(node))),
    ensures
        old(node).right.is_some() ==> **final(node) == rotated_left(**old(node)),
        old(node).right.is_none() ==> **final(node) == **old(node),
        sized(Some(*final(node))),
        final(node).size == old(node).size,
{
    proof {
        assert(sized(node.right));
        assert(sized(left_of(node.right)) && sized(right_of(node.right)));
    }
    if let Some(mut save) = node.right.take() {
        std::mem::swap(&mut node.right, &mut save.left);
        node.size = 1 + size_of(&node.left) + size_of(&node.right);
        std::mem::swap(node, &mut save);
        let below: usize = save.size;
        node.left = Some(save);
        node.size = 1 + below + size_of(&node.right);
        proof {
            assert(sized(left_of(node.left)) && sized(right_of(node.left)));
            assert(sized(node.left));
            assert(sized(node.right));
        }
    }
}

/// The size that a subtree's root records.
pub fn size_of<K, V>(link: &Link<K, V>) -> (n: usize)
    ensures
        n == count(*link),
{
    match link {
        None => 0,
        Some(node) => node.size,
    }
}

/// The level of a subtree.
pub fn level_of<K, V>(link: &Link<K, V>) -> (n: usize)
    ensures
        n == level(*link),
{
    match link {
        None => 0,
        Some(node) => node.balance.0,
    }
}

/// How a subtree may change by an insertion: it stays balanced; its level
/// stays, or rises by one where its root had a right child on its own level
/// (or there was no root), and then the new root has none.
pub open spec fn grown<K, V>(t: Link<K, V>, u: Link<K, V>) -> bool {
    &&& balanced(u)
    &&& {
        ||| level(u) == level(t)
        ||| {
            &&& level(u) == level(t) + 1
            &&& level(right_of(u)) < level(u)
            &&& t.is_some() ==> level(right_of(t)) == level(t)
        }
    }
}

/// How a subtree may change by a removal: it stays balanced; its level stays
/// or falls by one; where it stays, a root without a right child on its own
/// level gets none.
pub open spec fn shrunk<K, V>(t: Link<K, V>, u: Link<K, V>) -> bool {
    &&& balanced(u)
    &&& (level(u) == level(t) || level(u) + 1 == level(t))
    &&& (level(u) == level(t) && level(right_of(t)) < level(t) ==> level(right_of(u)) < level(u))
}

/// Gives `key` the value `value`: replaces the value of the entry that holds
/// an equivalent key, whose own key stays, or adds a leaf and rebalances the
/// nodes above it. Returns the value replaced.
pub fn insert<K, V, C: KeyOrder<K>>(link: &mut Link<K, V>, order: &C, key: K, value: V) -> (old_value:
    Option<V>)
    requires
        balanced(*old(link)),
        sorted(order, entries(*old(link))),
        holds(order, entries(*old(link)), key) || entries(*old(link)).len() < usize::MAX,
    ensures
        grown(*old(link), *final(link)),
        entries(*final(link)) == put(order, entries(*old(link)), key, value),
        old_value == value_of(order, entries(*old(link)), key),
        sorted(order, entries(*final(link))),
    decreases *old(link),
{
    proof {
        lemma_put_sorted(order, entries(*link), key, value);
        lemma_count(*link);
    }
    match link.take() {
        None => {
            *link = Some(Box::new(Node::new(key, value)));
            proof {
                assert(entries(*link) =~= seq![(key, value)]);
                assert(put(order, Seq::<(K, V)>::empty(), key, value) =~= seq![(key, value)]);
            }
            None
        },
        Some(mut node) => {
            let ghost l = entries(node.left);
            let ghost r = entries(node.right);
            let ghost e = (node.key, node.value);
            proof {
                lemma_sorted_parts(order, l, e, r);
                lemma_count(node.left);
                lemma_count(node.right);
            }
            let old_value = match order.compare(&key, &node.key) {
                Ordering::Equal => {
                    let mut value = value;
                    std::mem::swap(&mut node.value, &mut value);
                    proof {
                        lemma_put_here(order, l, e, r, key, node.value);
                    }
                    *link = Some(node);
                    return Some(value);
                },
                Ordering::Less => {
                    proof {
                        lemma_put_left(order, l, e, r, key, value);
                    }
                    insert(&mut node.left, order, key, value)
                },
                Ordering::Greater => {
                    proof {
                        lemma_put_right(order, l, e, r, key, value);
                    }
                    insert(&mut node.right, order, key, value)
                },
            };
            proof {
                lemma_count(node.left);
                lemma_count(node.right);
                lemma_below_bounds(order, l, key);
                lemma_below_bounds(order, r, key);
            }
            if old_value.is_none() {
                node.size = node.size + 1;
            }
            proof {
                lemma_insert_fixed(*node);
            }
            Aa::rebalance_insert(&mut node);
            *link = Some(node);
            old_value
        },
    }
}

/// Where `key` stands among the entries: the number of entries with a
/// smaller key, and whether an entry holds an equivalent key.
pub fn find<Q, K, V, C: QueryOrder<Q, K>>(link: &Link<K, V>, order: &C, key: &Q) -> (r: (usize, bool))
    requires
        balanced(*link),
        sorted(order, entries(*link)),
    ensures
        r.0 == below(order, entries(*link), order.key(*key)),
        r.1 == holds(order, entries(*link), order.key(*key)),
    decreases *link,
{
    match link {
        None => (0, false),
        Some(node) => {
            let ghost l = entries(node.left);
            let ghost r = entries(node.right);
            let ghost e = (node.key, node.value);
            proof {
                lemma_sorted_parts(order, l, e, r);
                lemma_count(node.left);
                lemma_count(node.right);
                lemma_below_bounds(order, r, order.key(*key));
            }
            match order.compare_query(key, &node.key) {
                Ordering::Less => {
                    proof {
                        lemma_descend_left(order, l, e, r, order.key(*key));
                    }
                    find(&node.left, order, key)
                },
                Ordering::Equal => {
                    proof {
                        lemma_descend_here(order, l, e, r, order.key(*key));
                    }
                    (size_of(&node.left), true)
                },
                Ordering::Greater => {
                    proof {
                        lemma_descend_right(order, l, e, r, order.key(*key));
                    }
                    let (i, found) = find(&node.right, order, key);
                    (size_of(&node.left) + 1 + i, found)
                },
            }
        },
    }
}

/// The entry that holds a key equivalent to `key`.
pub fn get<'a, Q, K, V, C: QueryOrder<Q, K>>(link: &'a Link<K, V>, order: &C, key: &Q) -> (r: Option<
    (&'a K, &'a V),
>)
    requires
        balanced(*link),
        sorted(order, entries(*link)),
    ensures
        unref(r) == entry_of(order, entries(*link), order.key(*key)),
    decreases *link,
{
    match link {
        None => None,
        Some(node) => {
            let ghost l = entries(node.left);
            let ghost r = entries(node.right);
            let ghost e = (node.key, node.value);
            proof {
                lemma_sorted_parts(order, l, e, r);
                lemma_below_bounds(order, r, order.key(*key));
                lemma_below_bounds(order, l, order.key(*key));
            }
            match order.compare_query(key, &node.key) {
                Ordering::Less => {
                    proof {
                        lemma_descend_left(order, l, e, r, order.key(*key));
                        lemma_join_index(l, e, r);
                    }
                    get(&node.left, order, key)
                },
                Ordering::Equal => {
                    proof {
                        lemma_descend_here(order, l, e, r, order.key(*key));
                    }
                    Some((&node.key, &node.value))
                },
                Ordering::Greater => {
                    proof {
                        lemma_descend_right(order, l, e, r, order.key(*key));
                        lemma_join_index(l, e, r);
                    }
                    get(&node.right, order, key)
                },
            }
        },
    }
}

/// A direction along the order: toward the first entry or toward the last.
pub trait Extreme: Sized {
    /// This direction is toward the first entry.
    spec fn toward_min() -> bool;

    /// Whether this direction is toward the first entry.
    fn min() -> (b: bool)
        ensures
            b == Self::toward_min(),
    ;
}

/// Toward the last entry.
pub enum Max {
    /// The direction.
    Max,
}

/// Toward the first entry.
pub enum Min {
    /// The direction.
    Min,
}

impl Extreme for Max {
    open spec fn toward_min() -> bool {
        false
    }

    fn min() -> (b: bool) {
        false
    }
}

impl Extreme for Min {
    open spec fn toward_min() -> bool {
        true
    }

    fn min() -> (b: bool) {
        true
    }
}

/// The child of `n` in a direction.
pub open spec fn forward_of<K, V>(n: Node<K, V>, toward_min: bool) -> Link<K, V> {
    if toward_min {
        n.left
    } else {
        n.right
    }
}

/// Whether the node has a child in the direction `E`.
pub fn has_forward<E: Extreme, K, V>(node: &Node<K, V>) -> (b: bool)
    ensures
        b == forward_of(*node, E::toward_min()).is_some(),
{
    if E::min() {
        node.left.is_some()
    } else {
        node.right.is_some()
    }
}

/// The child of the node in the direction `E`.
pub fn forward<E: Extreme, K, V>(node: &Node<K, V>) -> (l: &Link<K, V>)
    ensures
        *l == forward_of(*node, E::toward_min()),
{
    if E::min() {
        &node.left
    } else {
        &node.right
    }
}

/// The index among the node's entries of the entry with index `i` in the
/// node's child in the direction `E`.
pub fn lift<E: Extreme, K, V>(node: &Node<K, V>, i: usize) -> (j: usize)
    requires
        balanced(Some(Box::new(*node))),
        i < count(forward_of(*node, E::toward_min())),
    ensures
        j == if E::toward_min() {
            i as int
        } else {
            count(node.left) + 1 + i
        },
        j < node.size,
        entries(Some(Box::new(*node)))[j as int] == entries(forward_of(*node, E::toward_min()))[i as int],
{
    proof {
        lemma_count(node.left);
        lemma_count(node.right);
        lemma_join_index(entries(node.left), (node.key, node.value), entries(node.right));
    }
    if E::min() {
        i
    } else {
        size_of(&node.left) + 1 + i
    }
}

/// Indexing into the three parts of a node's entries.
pub proof fn lemma_join_index<K, V>(l: Seq<(K, V)>, e: (K, V), r: Seq<(K, V)>)
    ensures
        join(l, e, r).len() == l.len() + 1 + r.len(),
        forall|i: int| 0 <= i < l.len() ==> #[trigger] join(l, e, r)[i] == l[i],
        join(l, e, r)[l.len() as int] == e,
        forall|i: int| 0 <= i < r.len() ==> join(l, e, r)[l.len() + 1 + i] == #[trigger] r[i],
{
}

/// The entry at `index`.
pub fn entry_at<K, V>(link: &Link<K, V>, index: usize) -> (r: (&K, &V))
    requires
        balanced(*link),
        index < entries(*link).len(),
    ensures
        (*r.0, *r.1) == entries(*link)[index as int],
    decreases *link,
{
    proof {
        lemma_count(*link);
    }
    match link {
        None => vstd::pervasive::unreached(),
        Some(node) => {
            proof {
                lemma_count(node.left);
                lemma_count(node.right);
                lemma_join_index(entries(node.left), (node.key, node.value), entries(node.right));
            }
            let c = size_of(&node.left);
            if index < c {
                entry_at(&node.left, index)
            } else if index == c {
                (&node.key, &node.value)
            } else {
                entry_at(&node.right, index - c - 1)
            }
        },
    }
}

/// The index of the first entry (`Min`) or of the last (`Max`), found by
/// walking in that direction as far as there are children.
pub fn extreme<E: Extreme, K, V>(link: &Link<K, V>) -> (r: Option<usize>)
    requires
        balanced(*link),
    ensures
        at_index(r) == extreme_index(entries(*link), E::toward_min()),
    decreases *link,
{
    match link {
        None => None,
        Some(node) => {
            proof {
                lemma_count(node.left);
                lemma_count(node.right);
                lemma_count(*link);
            }
            if has_forward::<E, K, V>(node) {
                match extreme::<E, K, V>(forward::<E, K, V>(node)) {
                    Some(i) => Some(lift::<E, K, V>(node, i)),
                    None => None,
                }
            } else {
                Some(size_of(&node.left))
            }
        },
    }
}

/// The index of the neighbour of `key`: with `Min` the last entry whose key
/// is less than `key`, with `Max` the first whose key is greater; an entry
/// that holds `key` itself, if `inclusive`. The walk goes down by
/// comparisons; a node passed on the near side is the neighbour unless the
/// subtree below holds a closer one.
pub fn closest<E: Extreme, Q, K, V, C: QueryOrder<Q, K>>(
    link: &Link<K, V>,
    order: &C,
    key: &Q,
    inclusive: bool,
) -> (r: Option<usize>)
    requires
        balanced(*link),
        sorted(order, entries(*link)),
    ensures
        at_index(r) == neighbor(order, entries(*link), order.key(*key), inclusive, E::toward_min()),
    decreases *link,
{
    match link {
        None => None,
        Some(node) => {
            let ghost l = entries(node.left);
            let ghost r = entries(node.right);
            let ghost e = (node.key, node.value);
            proof {
                lemma_sorted_parts(order, l, e, r);
                lemma_count(node.left);
                lemma_count(node.right);
                lemma_below_bounds(order, r, order.key(*key));
                lemma_below_bounds(order, l, order.key(*key));
            }
            let c = size_of(&node.left);
            match order.compare_query(key, &node.key) {
                Ordering::Equal => {
                    proof {
                        lemma_descend_here(order, l, e, r, order.key(*key));
                    }
                    if inclusive {
                        Some(c)
                    } else if E::min() {
                        extreme::<Max, K, V>(&node.left)
                    } else {
                        match extreme::<Min, K, V>(&node.right) {
                            Some(i) => Some(c + 1 + i),
                            None => None,
                        }
                    }
                },
                Ordering::Less => {
                    proof {
                        lemma_descend_left(order, l, e, r, order.key(*key));
                    }
                    match closest::<E, Q, K, V, C>(&node.left, order, key, inclusive) {
                        Some(i) => Some(i),
                        None => if E::min() {
                            None
                        } else {
                            Some(c)
                        },
                    }
                },
                Ordering::Greater => {
                    proof {
                        lemma_descend_right(order, l, e, r, order.key(*key));
                    }
                    match closest::<E, Q, K, V, C>(&node.right, order, key, inclusive) {
                        Some(i) => Some(c + 1 + i),
                        None => if E::min() {
                            Some(c)
                        } else {
                            None
                        },
                    }
                },
            }
        },
    }
}

/// Puts a new leaf with `key` and `value` at `index` among the entries and
/// rebalances the nodes above it.
pub fn insert_at<K, V>(link: &mut Link<K, V>, index: usize, key: K, value: V)
    requires
        balanced(*old(link)),
        index <= entries(*old(link)).len(),
        entries(*old(link)).len() < usize::MAX,
    ensures
        grown(*old(link), *final(link)),
        entries(*final(link)) == entries(*old(link)).insert(index as int, (key, value)),
    decreases *old(link),
{
    proof {
        lemma_count(*link);
    }
    match link.take() {
        None => {
            *link = Some(Box::new(Node::new(key, value)));
            proof {
                assert(entries(*link) =~= Seq::<(K, V)>::empty().insert(0, (key, value)));
            }
        },
        Some(mut node) => {
            let ghost l = entries(node.left);
            let ghost r = entries(node.right);
            let ghost e = (node.key, node.value);
            proof {
                lemma_count(node.left);
                lemma_count(node.right);
            }
            let c = size_of(&node.left);
            if index <= c {
                insert_at(&mut node.left, index, key, value);
                proof {
                    assert(join(l.insert(index as int, (key, value)), e, r) =~= join(l, e, r).insert(
                        index as int,
                        (key, value),
                    ));
                }
            } else {
                insert_at(&mut node.right, index - c - 1, key, value);
                proof {
                    assert(join(l, e, r.insert(index - c - 1, (key, value))) =~= join(l, e, r).insert(
                        index as int,
                        (key, value),
                    ));
                }
            }
            proof {
                lemma_count(node.left);
                lemma_count(node.right);
            }
            node.size = node.size + 1;
            proof {
                lemma_insert_fixed(*node);
            }
            Aa::rebalance_insert(&mut node);
            *link = Some(node);
        },
    }
}

/// Takes the entry at `index` out of the tree and rebalances the nodes above
/// it.
pub fn remove_at<K, V>(link: &mut Link<K, V>, index: usize) -> (removed: (K, V))
    requires
        balanced(*old(link)),
        index < entries(*old(link)).len(),
    ensures
        shrunk(*old(link), *final(link)),
        removed == entries(*old(link))[index as int],
        entries(*final(link)) == entries(*old(link)).remove(index as int),
    decreases *old(link), 1int,
{
    proof {
        lemma_count(*link);
    }
    let c = size_of(left_in(link));
    if index == c {
        return remove_root(link);
    }
    let mut node = link.take().unwrap();
    let ghost l = entries(node.left);
    let ghost r = entries(node.right);
    let ghost e = (node.key, node.value);
    proof {
        lemma_count(node.left);
        lemma_count(node.right);
        lemma_join_index(l, e, r);
    }
    let removed = if index < c {
        let removed = remove_at(&mut node.left, index);
        proof {
            assert(join(l.remove(index as int), e, r) =~= join(l, e, r).remove(index as int));
        }
        removed
    } else {
        let removed = remove_at(&mut node.right, index - c - 1);
        proof {
            assert(join(l, e, r.remove(index - c - 1)) =~= join(l, e, r).remove(index as int));
        }
        removed
    };
    proof {
        lemma_count(node.left);
        lemma_count(node.right);
    }
    node.size = node.size - 1;
    proof {
        assert(loose(*node));
        lemma_remove_fixed(*node);
        lemma_remove_fixed_entries(*node);
    }
    Aa::rebalance_remove(&mut node);
    *link = Some(node);
    removed
}

/// The left child of a subtree's root.
pub fn left_in<K, V>(link: &Link<K, V>) -> (l: &Link<K, V>)
    ensures
        *l == left_of(*link),
{
    match link {
        None => link,
        Some(node) => &node.left,
    }
}

/// Takes the root's entry out of the tree. An inner node gives up its entry
/// by taking over the last entry of its left subtree, or else the first of
/// its right one, which is removed there; a leaf is unlinked.
pub fn remove_root<K, V>(link: &mut Link<K, V>) -> (removed: (K, V))
    requires
        balanced(*old(link)),
        old(link).is_some(),
    ensures
        shrunk(*old(link), *final(link)),
        removed == entries(*old(link))[count(left_of(*old(link))) as int],
        entries(*final(link)) == entries(*old(link)).remove(count(left_of(*old(link))) as int),
    decreases *old(link), 0int,
{
    let mut node = link.take().unwrap();
    let ghost l = entries(node.left);
    let ghost r = entries(node.right);
    let ghost e = (node.key, node.value);
    proof {
        lemma_count(node.left);
        lemma_count(node.right);
        lemma_join_index(l, e, r);
    }
    let c = size_of(&node.left);
    let removed = if node.left.is_some() {
        let (mut key, mut value) = remove_at(&mut node.left, c - 1);
        std::mem::swap(&mut node.key, &mut key);
        std::mem::swap(&mut node.value, &mut value);
        proof {
            assert(join(l.remove(c - 1), l[c - 1], r) =~= join(l, e, r).remove(c as int));
        }
        (key, value)
    } else if node.right.is_some() {
        let (mut key, mut value) = remove_at(&mut node.right, 0);
        std::mem::swap(&mut node.key, &mut key);
        std::mem::swap(&mut node.value, &mut value);
        proof {
            assert(join(l, r[0], r.remove(0)) =~= join(l, e, r).remove(c as int));
        }
        (key, value)
    } else {
        proof {
            assert(join(l, e, r).remove(c as int) =~= Seq::<(K, V)>::empty());
        }
        let leaf = *node;
        return (leaf.key, leaf.value);
    };
    proof {
        lemma_count(node.left);
        lemma_count(node.right);
    }
    node.size = node.size - 1;
    proof {
        assert(loose(*node));
        lemma_remove_fixed(*node);
        lemma_remove_fixed_entries(*node);
    }
    Aa::rebalance_remove(&mut node);
    *link = Some(node);
    removed
}

/// The tree with another value at `index`.
pub open spec fn with_value<K, V>(link: Link<K, V>, index: int, v: V) -> Link<K, V>
    decreases link,
{
    match link {
        None => None,
        Some(n) => {
            let c = count(n.left);
            Some(
                Box::new(
                    Node {
                        left: if index < c {
                            with_value(n.left, index, v)
                        } else {
                            n.left
                        },
                        right: if index > c {
                            with_value(n.right, index - c - 1, v)
                        } else {
                            n.right
                        },
                        balance: n.balance,
                        key: n.key,
                        value: if index == c {
                            v
                        } else {
                            n.value
                        },
                        size: n.size,
                    },
                ),
            )
        },
    }
}

/// Another value at `index` changes that entry's value and nothing else.
pub proof fn lemma_with_value<K, V>(link: Link<K, V>, index: int, v: V)
    requires
        balanced(link),
        0 <= index < entries(link).len(),
    ensures
        balanced(with_value(link, index, v)),
        level(with_value(link, index, v)) == level(link),
        count(with_value(link, index, v)) == count(link),
        level(right_of(with_value(link, index, v))) == level(right_of(link)),
        entries(with_value(link, index, v)) =~= entries(link).update(
            index,
            (entries(link)[index].0, v),
        ),
    decreases link,
{
    lemma_count(link);
    match link {
        None => {},
        Some(n) => {
            let c = count(n.left) as int;
            lemma_count(n.left);
            lemma_count(n.right);
            lemma_join_index(entries(n.left), (n.key, n.value), entries(n.right));
            if index < c {
                lemma_with_value(n.left, index, v);
            } else if index > c {
                lemma_with_value(n.right, index - c - 1, v);
                lemma_near(n.right);
                lemma_near(with_value(n.right, index - c - 1, v));
            }
        },
    }
}

/// The key at `index`, and its value for writing.
pub fn value_at_mut<K, V>(link: &mut Link<K, V>, index: usize) -> (r: (&K, &mut V))
    requires
        balanced(*old(link)),
        index < entries(*old(link)).len(),
    ensures
        *r.0 == entries(*old(link))[index as int].0,
        *r.1 == entries(*old(link))[index as int].1,
        *final(link) == with_value(*old(link), index as int, *final(r.1)),
    decreases *old(link),
{
    proof {
        lemma_count(*link);
    }
    match link {
        None => vstd::pervasive::unreached(),
        Some(node) => {
            proof {
                lemma_count(node.left);
                lemma_count(node.right);
                lemma_join_index(entries(node.left), (node.key, node.value), entries(node.right));
            }
            let c = size_of(&node.left);
            if index < c {
                value_at_mut(&mut node.left, index)
            } else if index == c {
                (&node.key, &mut node.value)
            } else {
                value_at_mut(&mut node.right, index - c - 1)
            }
        },
    }
}

/// The tree is balanced and sorted and `len` is its length.
pub open spec fn tree_ok<K, V, C: KeyOrder<K>>(order: &C, root: Link<K, V>, len: usize) -> bool {
    &&& balanced(root)
    &&& sorted(order, entries(root))
    &&& len == entries(root).len()
}

/// Walks the subtree and checks the balance rules and the recorded size at
/// every node.
pub fn is_balanced<K, V>(link: &Link<K, V>) -> (b: bool)
    ensures
        b == balanced(*link),
    decreases *link,
{
    match link {
        None => true,
        Some(node) => {
            let lv = node.balance.0;
            let left = level_of(&node.left);
            let right = level_of(&node.right);
            let far = level_of(right_in(&node.right));
            let l = size_of(&node.left);
            let r = size_of(&node.right);
            let shaped = lv >= 1 && left == lv - 1 && (right == lv || right == lv - 1) && far < lv
                && node.size >= 1 && node.size - 1 >= l && node.size - 1 - l == r;
            shaped && is_balanced(&node.left) && is_balanced(&node.right)
        },
    }
}

/// The right child of a subtree's root.
pub fn right_in<K, V>(link: &Link<K, V>) -> (r: &Link<K, V>)
    ensures
        *r == right_of(*link),
{
    match link {
        None => link,
        Some(node) => &node.right,
    }
}

/// The entry at the root of a link.
pub trait LinkExt: Sized {
    /// The type of the keys.
    type K;

    /// The type of the values.
    type V;

    /// The root's key and value, if there is a root.
    spec fn root_entry(&self) -> Option<(Self::K, Self::V)>;

    /// The root's key and value.
    fn key_value(&self) -> (r: Option<(&Self::K, &Self::V)>)
        ensures
            match r {
                Some((k, v)) => self.root_entry() == Some((*k, *v)),
                None => self.root_entry().is_none(),
            },
    ;

    /// The root's key, and its value for writing.
    fn key_value_mut(&mut self) -> (r: Option<(&Self::K, &mut Self::V)>)
        ensures
            match r {
                Some((k, v)) => old(self).root_entry() == Some((*k, *v))
                    && final(self).root_entry() == Some((*k, *final(v))),
                None => old(self).root_entry().is_none() && final(self).root_entry().is_none(),
            },
    ;
}

impl<K, V> LinkExt for Link<K, V> {
    type K = K;

    type V = V;

    open spec fn root_entry(&self) -> Option<(K, V)> {
        match *self {
            None => None,
            Some(n) => Some((n.key, n.value)),
        }
    }

    fn key_value(&self) -> (r: Option<(&K, &V)>) {
        match self {
            None => None,
            Some(node) => Some((&node.key, &node.value)),
        }
    }

    fn key_value_mut(&mut self) -> (r: Option<(&K, &mut V)>) {
        match self {
            None => None,
            Some(node) => Some((&node.key, &mut node.value)),
        }
    }
}

} // verus!
