//! The balance scheme: one level per node, restored by two rotations.

use crate::node::balanced;
use crate::node::entries;
use crate::node::left_of;
use crate::node::lemma_rotated_left;
use crate::node::lemma_rotated_right;
use crate::node::level;
use crate::node::level_of;
use crate::node::right_of;
use crate::node::rotate_left;
use crate::node::rotate_right;
use crate::node::rotated_left;
use crate::node::rotated_right;
use crate::node::sized;
use crate::node::lemma_balanced_sized;
use crate::node::Link;
use crate::node::Node;
use vstd::prelude::*;

verus! {

/// The level of a node: 1 for a leaf, one more than the left child's, and
/// equal to or one more than the right child's.
#[derive(Clone, Copy, Debug)]
pub struct Aa(pub usize);

impl Default for Aa {
    /// The level of a leaf.
    fn default() -> (a: Self)
        ensures
            a.0 == 1,
    {
        Aa(1)
    }
}

/// The node with another level.
pub open spec fn with_level<K, V>(n: Node<K, V>, lv: usize) -> Node<K, V> {
    Node { left: n.left, right: n.right, balance: Aa(lv), key: n.key, value: n.value, size: n.size }
}

/// The node with another right child.
pub open spec fn with_right<K, V>(n: Node<K, V>, right: Link<K, V>) -> Node<K, V> {
    Node { left: n.left, right, balance: n.balance, key: n.key, value: n.value, size: n.size }
}

/// A left child on the node's own level is rotated into its place.
pub open spec fn skewed<K, V>(n: Node<K, V>) -> Node<K, V> {
    if n.left.is_some() && level(n.left) == n.balance.0 {
        rotated_right(n)
    } else {
        n
    }
}

/// The right child and its own right child are both on the node's level.
pub open spec fn two_in_a_row<K, V>(n: Node<K, V>) -> bool {
    &&& n.right.is_some()
    &&& right_of(n.right).is_some()
    &&& level(n.right) == n.balance.0
    &&& level(right_of(n.right)) == n.balance.0
}

/// Where the right child and its own right child are both on the node's
/// level, the right child is rotated into the node's place and raised one
/// level; else the node stays as it is.
pub open spec fn split_up<K, V>(n: Node<K, V>) -> Node<K, V> {
    if two_in_a_row(n) {
        let q = rotated_left(n);
        with_level(q, (q.balance.0 + 1) as usize)
    } else {
        n
    }
}

/// The node after an insertion below it: skewed, then split.
pub open spec fn insert_fixed<K, V>(n: Node<K, V>) -> Node<K, V> {
    split_up(skewed(n))
}

/// The node one level down, its right child brought down with it where it
/// would stand higher.
pub open spec fn lowered<K, V>(n: Node<K, V>) -> Node<K, V> {
    let lv = (n.balance.0 - 1) as usize;
    let right = match n.right {
        None => None,
        Some(r) => if r.balance.0 > lv {
            Some(Box::new(with_level(*r, lv)))
        } else {
            Some(r)
        },
    };
    with_level(with_right(n, right), lv)
}

/// The right child skewed, and then the right child's right child.
pub open spec fn skewed_right<K, V>(n: Node<K, V>) -> Node<K, V> {
    match n.right {
        None => n,
        Some(r) => {
            let r1 = skewed(*r);
            let r2 = match r1.right {
                None => r1,
                Some(rr) => with_right(r1, Some(Box::new(skewed(*rr)))),
            };
            with_right(n, Some(Box::new(r2)))
        },
    }
}

/// The right child split.
pub open spec fn split_right<K, V>(n: Node<K, V>) -> Node<K, V> {
    match n.right {
        None => n,
        Some(r) => with_right(n, Some(Box::new(split_up(*r)))),
    }
}

/// A child is more than one level below the node.
pub open spec fn deficient<K, V>(n: Node<K, V>) -> bool {
    level(n.left) + 1 < n.balance.0 || level(n.right) + 1 < n.balance.0
}

/// The node after a removal below it: where a child is too low, the node is
/// lowered, skewed three times along its right spine and split twice.
pub open spec fn remove_fixed<K, V>(n: Node<K, V>) -> Node<K, V> {
    if deficient(n) {
        split_right(split_up(skewed_right(skewed(lowered(n)))))
    } else {
        n
    }
}

/// What holds of a node after an insertion into one of its subtrees: both
/// are balanced, and either the left one has risen to the node's level with
/// no right child on that level, or the right one may have a right child on
/// the node's level.
pub open spec fn tilted<K, V>(n: Node<K, V>) -> bool {
    let lv = n.balance.0;
    &&& balanced(n.left)
    &&& balanced(n.right)
    &&& n.size == n.weight()
    &&& lv < usize::MAX
    &&& {
        ||| {
            &&& level(n.left) == lv
            &&& level(right_of(n.left)) < lv
            &&& (level(n.right) == lv || level(n.right) + 1 == lv)
            &&& level(right_of(n.right)) < lv
        }
        ||| {
            &&& level(n.left) + 1 == lv
            &&& (level(n.right) == lv || level(n.right) + 1 == lv)
        }
    }
}

/// What holds of a node after a removal from one of its subtrees: both are
/// balanced and at most one of them is one level too low.
pub open spec fn loose<K, V>(n: Node<K, V>) -> bool {
    let lv = n.balance.0;
    let ll = level(n.left);
    let rl = level(n.right);
    &&& balanced(n.left)
    &&& balanced(n.right)
    &&& n.size == n.weight()
    &&& lv >= 1
    &&& {
        ||| {
            &&& ll + 1 == lv
            &&& {
                ||| rl == lv && level(right_of(n.right)) < lv
                ||| rl + 1 == lv
                ||| rl + 2 == lv
            }
        }
        ||| {
            &&& ll + 2 == lv
            &&& {
                ||| rl + 1 == lv
                ||| rl == lv && level(right_of(n.right)) < lv
            }
        }
    }
}

/// What balance says of a subtree's root: its children are balanced and the
/// balance rules hold at the root.
pub proof fn lemma_near<K, V>(link: Link<K, V>)
    requires
        balanced(link),
    ensures
        link matches Some(n) ==> balanced(n.left) && balanced(n.right) && n.shaped(),
{
    if let Some(n) = link {
        assert(balanced(n.left) && balanced(n.right));
        if let Some(l) = n.left {
            assert(l.shaped());
        }
        if let Some(r) = n.right {
            assert(r.shaped());
        }
    }
}

/// Skewing keeps the entries.
pub proof fn lemma_skewed_entries<K, V>(n: Node<K, V>)
    ensures
        entries(Some(Box::new(skewed(n)))) =~= entries(Some(Box::new(n))),
{
    if n.left.is_some() {
        lemma_rotated_right(n);
    }
}

/// Splitting keeps the entries.
pub proof fn lemma_split_entries<K, V>(n: Node<K, V>)
    ensures
        entries(Some(Box::new(split_up(n)))) =~= entries(Some(Box::new(n))),
{
    if n.right.is_some() {
        lemma_rotated_left(n);
        let q = rotated_left(n);
        let q1 = with_level(q, (q.balance.0 + 1) as usize);
        assert(entries(Some(Box::new(q1))) =~= entries(Some(Box::new(q))));
    }
}

/// The fix-up after an insertion restores balance and keeps the entries.
/// The level stays or rises by one; it rises only where the right child was
/// on the node's level, and then the new root has no right child on its own.
pub proof fn lemma_insert_fixed<K, V>(n: Node<K, V>)
    requires
        tilted(n),
    ensures
        balanced(Some(Box::new(insert_fixed(n)))),
        entries(Some(Box::new(insert_fixed(n)))) =~= entries(Some(Box::new(n))),
        insert_fixed(n).size == n.size,
        insert_fixed(n).balance.0 == n.balance.0 || {
            &&& insert_fixed(n).balance.0 == n.balance.0 + 1
            &&& level(insert_fixed(n).right) < insert_fixed(n).balance.0
            &&& level(n.right) == n.balance.0
        },
{
    lemma_near(n.left);
    lemma_near(n.right);
    let s = skewed(n);
    lemma_skewed_entries(n);
    lemma_split_entries(s);
    lemma_near(s.left);
    lemma_near(s.right);
    lemma_near(right_of(s.right));
    lemma_near(left_of(s.right));
    let q = insert_fixed(n);
    assert(balanced(q.left));
    assert(balanced(q.right));
    assert(q.shaped());
}

/// Skewing the right spine keeps the entries.
pub proof fn lemma_skewed_right_entries<K, V>(n: Node<K, V>)
    ensures
        entries(Some(Box::new(skewed_right(n)))) =~= entries(Some(Box::new(n))),
{
    if let Some(r) = n.right {
        let r1 = skewed(*r);
        lemma_skewed_entries(*r);
        if let Some(rr) = r1.right {
            lemma_skewed_entries(*rr);
            let r2 = with_right(r1, Some(Box::new(skewed(*rr))));
            assert(entries(Some(Box::new(r2))) =~= entries(Some(Box::new(r1))));
        }
    }
}

/// Splitting the right child keeps the entries.
pub proof fn lemma_split_right_entries<K, V>(n: Node<K, V>)
    ensures
        entries(Some(Box::new(split_right(n)))) =~= entries(Some(Box::new(n))),
{
    if let Some(r) = n.right {
        lemma_split_entries(*r);
    }
}

/// The fix-up after a removal keeps the entries.
pub proof fn lemma_remove_fixed_entries<K, V>(n: Node<K, V>)
    ensures
        entries(Some(Box::new(remove_fixed(n)))) =~= entries(Some(Box::new(n))),
{
    if deficient(n) {
        let a = lowered(n);
        assert(entries(a.right) =~= entries(n.right));
        assert(entries(Some(Box::new(a))) =~= entries(Some(Box::new(n))));
        let b = skewed(a);
        lemma_skewed_entries(a);
        let c = skewed_right(b);
        lemma_skewed_right_entries(b);
        let d = split_up(c);
        lemma_split_entries(c);
        lemma_split_right_entries(d);
    }
}

/// What the fix-up after a removal must achieve.
pub open spec fn remove_fixed_ok<K, V>(n: Node<K, V>) -> bool {
    let q = remove_fixed(n);
    &&& balanced(Some(Box::new(q)))
    &&& q.size == n.size
    &&& (q.balance.0 == n.balance.0 || q.balance.0 + 1 == n.balance.0)
    &&& (q.balance.0 == n.balance.0 && level(n.right) < n.balance.0 ==> level(q.right)
        < n.balance.0)
}

/// The right subtree is too low.
#[verifier::rlimit(100)]
proof fn lemma_fix_right_low<K, V>(n: Node<K, V>)
    requires
        loose(n),
        level(n.left) + 1 == n.balance.0,
        level(n.right) + 2 == n.balance.0,
    ensures
        remove_fixed_ok(n),
{
    let m = (n.balance.0 - 1) as usize;
    lemma_near(n.left);
    lemma_near(n.right);
    let l = n.left.unwrap();
    lemma_near(l.left);
    lemma_near(l.right);
    lemma_near(right_of(n.right));
    let a = lowered(n);
    assert(a == with_level(n, m));
    let b = skewed(a);
    assert(b == rotated_right(a));
    let down = *b.right.unwrap();
    assert(down.left == l.right && down.right == n.right && down.balance.0 == m);
    if level(l.right) == m {
        let lr = l.right.unwrap();
        lemma_near(lr.left);
        lemma_near(lr.right);
        let down1 = rotated_right(down);
        assert(skewed(down) == down1);
        let down2 = *down1.right.unwrap();
        assert(down2.left == lr.right && down2.right == n.right && down2.balance.0 == m);
        assert(skewed(down2) == down2);
        let c = skewed_right(b);
        assert(c == with_right(b, Some(Box::new(down1))));
        let d = split_up(c);
        assert(level(right_of(c.right)) == m);
        let q0 = rotated_left(c);
        assert(d == with_level(q0, (m + 1) as usize));
        assert(split_up(down2) == down2);
        let q = split_right(d);
        assert(q == d);
        assert(q == remove_fixed(n));
        let e = *q.left.unwrap();
        assert(e.left == l.left && e.right == lr.left && e.balance.0 == m);
        assert(e.shaped());
        assert(balanced(q.left));
        assert(down2.shaped());
        assert(balanced(q.right));
        assert(q.shaped());
    } else {
        assert(skewed(down) == down);
        if n.right.is_some() {
            assert(skewed(*n.right.unwrap()) == *n.right.unwrap());
        }
        let c = skewed_right(b);
        assert(c == b);
        assert(split_up(c) == c);
        assert(split_up(down) == down);
        let q = split_right(c);
        assert(q == b);
        assert(q == remove_fixed(n));
        assert(down.shaped());
        assert(balanced(q.right));
        assert(balanced(q.left));
        assert(q.shaped());
    }
}

/// The left subtree is too low and the right one a level below the node.
#[verifier::rlimit(100)]
proof fn lemma_fix_left_low<K, V>(n: Node<K, V>)
    requires
        loose(n),
        level(n.left) + 2 == n.balance.0,
        level(n.right) + 1 == n.balance.0,
    ensures
        remove_fixed_ok(n),
{
    let m = (n.balance.0 - 1) as usize;
    lemma_near(n.left);
    lemma_near(n.right);
    let r = n.right.unwrap();
    lemma_near(r.left);
    lemma_near(r.right);
    lemma_near(right_of(r.right));
    let a = lowered(n);
    assert(a == with_level(n, m));
    assert(skewed(a) == a);
    assert(skewed(*r) == *r);
    if r.right.is_some() {
        assert(skewed(*r.right.unwrap()) == *r.right.unwrap());
    }
    let c = skewed_right(a);
    assert(c == a);
    if level(r.right) == m {
        let q0 = rotated_left(c);
        let d = split_up(c);
        assert(d == with_level(q0, (m + 1) as usize));
        let rr = r.right.unwrap();
        assert(split_up(*rr) == *rr);
        let q = split_right(d);
        assert(q == d);
        assert(q == remove_fixed(n));
        let e = *q.left.unwrap();
        assert(e.left == n.left && e.right == r.left && e.balance.0 == m);
        assert(e.shaped());
        assert(balanced(q.left));
        assert(balanced(q.right));
        assert(q.shaped());
    } else {
        assert(split_up(c) == c);
        assert(split_up(*r) == *r);
        let q = split_right(c);
        assert(q == a);
        assert(q == remove_fixed(n));
        assert(q.shaped());
    }
}

/// The left subtree is too low and the right one on the node's level.
#[verifier::rlimit(100)]
proof fn lemma_fix_left_low_level<K, V>(n: Node<K, V>)
    requires
        loose(n),
        level(n.left) + 2 == n.balance.0,
        level(n.right) == n.balance.0,
    ensures
        remove_fixed_ok(n),
{
    let m = (n.balance.0 - 1) as usize;
    lemma_near(n.left);
    lemma_near(n.right);
    let r = n.right.unwrap();
    lemma_near(r.left);
    lemma_near(r.right);
    let x = r.left.unwrap();
    let rr = r.right.unwrap();
    lemma_near(x.left);
    lemma_near(x.right);
    lemma_near(rr.left);
    lemma_near(rr.right);
    let a = lowered(n);
    let r0 = with_level(*r, m);
    assert(a == with_level(with_right(n, Some(Box::new(r0))), m));
    assert(skewed(a) == a);
    let r1 = rotated_right(r0);
    assert(skewed(r0) == r1);
    let dn = *r1.right.unwrap();
    assert(dn.left == x.right && dn.right == r.right && dn.balance.0 == m);
    if level(x.right) == m {
        let xr = x.right.unwrap();
        lemma_near(xr.left);
        lemma_near(xr.right);
        let dn1 = rotated_right(dn);
        assert(skewed(dn) == dn1);
        let dn2 = *dn1.right.unwrap();
        assert(dn2.left == xr.right && dn2.right == r.right && dn2.balance.0 == m);
        let r2 = with_right(r1, Some(Box::new(dn1)));
        let c = skewed_right(a);
        assert(c == with_right(a, Some(Box::new(r2))));
        let q0 = rotated_left(c);
        let d = split_up(c);
        assert(d == with_level(q0, (m + 1) as usize));
        assert(d.right == Some(Box::new(dn1)));
        let g0 = rotated_left(dn1);
        let g = with_level(g0, (m + 1) as usize);
        assert(split_up(dn1) == g);
        let q = split_right(d);
        assert(q == with_right(d, Some(Box::new(g))));
        assert(q == remove_fixed(n));
        let e = *q.left.unwrap();
        assert(e.left == n.left && e.right == x.left && e.balance.0 == m);
        assert(e.shaped());
        assert(balanced(q.left));
        let f = *g.left.unwrap();
        assert(f.left == xr.left && f.right == xr.right && f.balance.0 == m);
        assert(f.shaped());
        assert(balanced(g.left));
        assert(g.right == r.right);
        assert(g.shaped());
        assert(balanced(q.right));
        assert(q.shaped());
    } else {
        assert(skewed(dn) == dn);
        let c = skewed_right(a);
        assert(c == with_right(a, Some(Box::new(r1))));
        let q0 = rotated_left(c);
        let d = split_up(c);
        assert(d == with_level(q0, (m + 1) as usize));
        assert(d.right == Some(Box::new(dn)));
        let e = *d.left.unwrap();
        assert(e.left == n.left && e.right == x.left && e.balance.0 == m);
        assert(e.shaped());
        assert(balanced(d.left));
        if level(rr.right) == m {
            let g0 = rotated_left(dn);
            let g = with_level(g0, (m + 1) as usize);
            assert(split_up(dn) == g);
            let q = split_right(d);
            assert(q == with_right(d, Some(Box::new(g))));
            assert(q == remove_fixed(n));
            let f = *g.left.unwrap();
            assert(f.left == x.right && f.right == rr.left && f.balance.0 == m);
            assert(f.shaped());
            assert(balanced(g.left));
            assert(g.right == rr.right);
            assert(g.shaped());
            assert(balanced(q.right));
            assert(q.shaped());
        } else {
            assert(split_up(dn) == dn);
            let q = split_right(d);
            assert(q == d);
            assert(q == remove_fixed(n));
            assert(dn.shaped());
            assert(balanced(q.right));
            assert(q.shaped());
        }
    }
}

/// The fix-up after a removal restores balance. The level stays or falls by
/// one; where it stays and the right child was below the node's level, the
/// new root has no right child on its own level.
pub proof fn lemma_remove_fixed<K, V>(n: Node<K, V>)
    requires
        loose(n),
    ensures
        remove_fixed_ok(n),
{
    lemma_near(n.left);
    lemma_near(n.right);
    if deficient(n) {
        if level(n.left) + 1 == n.balance.0 {
            lemma_fix_right_low(n);
        } else if level(n.right) + 1 == n.balance.0 {
            lemma_fix_left_low(n);
        } else {
            lemma_fix_left_low_level(n);
        }
    }
}

impl Aa {
    /// The level.
    pub fn level(&self) -> (l: usize)
        ensures
            l == self.0,
    {
        self.0
    }

    /// Removes a left child on the node's own level by rotating right.
    pub fn skew<K, V>(node: &mut Box<Node<K, V>>)
        requires
            sized(Some(*old(node))),
        ensures
            **final(node) == skewed(**old(node)),
            sized(Some(*final(node))),
            final(node).size == old(node).size,
            entries(Some(*final(node))) =~= entries(Some(*old(node))),
    {
        proof {
            lemma_skewed_entries(**node);
        }
        let turn = match &node.left {
            None => false,
            Some(l) => l.balance.0 == node.balance.0,
        };
        if turn {
            rotate_right(node);
        }
    }

    /// Removes two right descendants in a row on the node's own level by
    /// rotating left and raising the new root. A node whose right child or
    /// whose right child's right child is on another level stays as it is.
    pub fn split<K, V>(node: &mut Box<Node<K, V>>)
        requires
            sized(Some(*old(node))),
            two_in_a_row(**old(node)) ==> old(node).balance.0 < usize::MAX,
        ensures
            **final(node) == split_up(**old(node)),
            sized(Some(*final(node))),
            final(node).size == old(node).size,
            entries(Some(*final(node))) =~= entries(Some(*old(node))),
    {
        let turn = match &node.right {
            None => false,
            Some(r) => r.balance.0 == node.balance.0 && match &r.right {
                None => false,
                Some(rr) => rr.balance.0 == node.balance.0,
            },
        };
        proof {
            lemma_split_entries(**node);
        }
        if turn {
            rotate_left(node);
            node.balance = Aa(node.balance.0 + 1);
        }
    }

    /// Rebalances the node after an insertion into one of its subtrees.
    pub fn rebalance_insert<K, V>(node: &mut Box<Node<K, V>>)
        requires
            tilted(**old(node)),
        ensures
            **final(node) == insert_fixed(**old(node)),
    {
        proof {
            lemma_balanced_sized(node.left);
            lemma_balanced_sized(node.right);
            lemma_near(node.left);
        }
        Self::skew(node);
        Self::split(node);
    }

    /// Rebalances the node after a removal from one of its subtrees.
    pub fn rebalance_remove<K, V>(node: &mut Box<Node<K, V>>)
        requires
            loose(**old(node)),
        ensures
            **final(node) == remove_fixed(**old(node)),
    {
        let left_level = level_of(&node.left);
        let right_level = level_of(&node.right);
        if left_level < node.balance.0 - 1 || right_level < node.balance.0 - 1 {
            proof {
                lemma_balanced_sized(node.left);
                lemma_balanced_sized(node.right);
            }
            node.balance = Aa(node.balance.0 - 1);
            if right_level > node.balance.0 {
                let node_level = node.balance.0;
                match &mut node.right {
                    Some(x) => {
                        x.balance = Aa(node_level);
                    },
                    None => {},
                }
            }
            proof {
                assert(**node == lowered(**old(node)));
                assert(sized(left_of(node.right)) && sized(right_of(node.right)));
                assert(sized(node.right));
                assert(sized(node.left));
            }
            Self::skew(node);
            match &mut node.right {
                Some(right) => {
                    Self::skew(right);
                    match &mut right.right {
                        Some(x) => {
                            Self::skew(x);
                        },
                        None => {},
                    }
                },
                None => {},
            }
            proof {
                assert(**node == skewed_right(skewed(lowered(**old(node)))));
                assert(sized(node.left));
                assert(sized(node.right));
            }
            Self::split(node);
            match &mut node.right {
                Some(x) => {
                    Self::split(x);
                },
                None => {},
            }
        }
    }
}

} // verus!
