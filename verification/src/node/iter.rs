//! In-order iteration from both ends over a tree, by an explicit stack of
//! visits that is open at both ends.

use crate::model::admits_lower;
use crate::model::admits_upper;
use crate::model::bound_of;
use crate::model::bound_key;
use crate::model::head;
use crate::model::lemma_bound_splits;
use crate::model::lemma_lower_index;
use crate::model::lemma_prefix_under;
use crate::model::lemma_suffix_over;
use crate::model::lemma_tail_sorted;
use crate::model::lemma_upper_index;
use crate::model::lemma_window_cut;
use crate::model::length;
use crate::model::lower_index;
use crate::model::same_keys;
use crate::model::sorted;
use crate::model::tail;
use crate::model::upper_index;
use crate::model::window;
use crate::model::Bound;
use crate::node::balanced;
use crate::node::entries;
use crate::node::find;
use crate::node::lemma_count;
use crate::node::lemma_with_value;
use crate::node::value_at_mut;
use crate::node::with_value;
use crate::order::KeyOrder;
use crate::order::QueryOrder;
use std::cmp::Ordering;
use crate::node::Link;
use crate::node::Node;
use std::collections::VecDeque;
use vstd::prelude::*;

verus! {

/// A node handed out for iteration: borrowed, or owned.
pub trait NodeRef: Sized {
    /// The type of the keys.
    type Key;

    /// The type of the values.
    type Value;

    /// What iteration yields for a node.
    type Item;

    /// The node referred to.
    spec fn tree(&self) -> Node<Self::Key, Self::Value>;

    /// The key and value that an item stands for.
    spec fn pair(item: Self::Item) -> (Self::Key, Self::Value);

    /// The node's key.
    fn key(&self) -> (k: &Self::Key)
        ensures
            *k == self.tree().key,
    ;

    /// The node's item.
    fn item(self) -> (i: Self::Item)
        ensures
            Self::pair(i) == (self.tree().key, self.tree().value),
    ;

    /// Hands out the left child. The node keeps its entry and its right
    /// child.
    fn left(&mut self) -> (child: Option<Self>)
        ensures
            match child {
                None => old(self).tree().left.is_none(),
                Some(c) => old(self).tree().left == Some(Box::new(c.tree())),
            },
            final(self).tree().key == old(self).tree().key,
            final(self).tree().value == old(self).tree().value,
            final(self).tree().right == old(self).tree().right,
    ;

    /// Hands out the right child. The node keeps its entry and its left
    /// child.
    fn right(&mut self) -> (child: Option<Self>)
        ensures
            match child {
                None => old(self).tree().right.is_none(),
                Some(c) => old(self).tree().right == Some(Box::new(c.tree())),
            },
            final(self).tree().key == old(self).tree().key,
            final(self).tree().value == old(self).tree().value,
            final(self).tree().left == old(self).tree().left,
    ;
}

/// The subtree that a child handed out stands for.
pub open spec fn subtree<N: NodeRef>(child: Option<N>) -> Link<N::Key, N::Value> {
    match child {
        None => None,
        Some(n) => Some(Box::new(n.tree())),
    }
}

/// A borrowed node.
pub struct MarkedNode<'a, K, V> {
    node: &'a Node<K, V>,
}

impl<'a, K, V> MarkedNode<'a, K, V> {
    /// The node borrowed.
    pub closed spec fn target(self) -> Node<K, V> {
        *self.node
    }

    /// The node borrowed from its owner.
    pub fn new(node: &'a Box<Node<K, V>>) -> (m: Self)
        ensures
            m.target() == **node,
    {
        MarkedNode { node: &**node }
    }

    /// The root of a tree, borrowed.
    pub fn root(link: &'a Link<K, V>) -> (m: Option<Self>)
        ensures
            match m {
                None => link.is_none(),
                Some(n) => *link == Some(Box::new(n.target())),
            },
    {
        match link {
            None => None,
            Some(node) => Some(MarkedNode::new(node)),
        }
    }
}

impl<'a, K, V> NodeRef for MarkedNode<'a, K, V> {
    type Key = K;

    type Value = V;

    type Item = (&'a K, &'a V);

    open spec fn tree(&self) -> Node<K, V> {
        self.target()
    }

    open spec fn pair(item: (&'a K, &'a V)) -> (K, V) {
        (*item.0, *item.1)
    }

    fn key(&self) -> (k: &K) {
        &self.node.key
    }

    fn item(self) -> (i: (&'a K, &'a V)) {
        (&self.node.key, &self.node.value)
    }

    fn left(&mut self) -> (child: Option<Self>) {
        MarkedNode::root(&self.node.left)
    }

    fn right(&mut self) -> (child: Option<Self>) {
        MarkedNode::root(&self.node.right)
    }
}

impl<K, V> NodeRef for Box<Node<K, V>> {
    type Key = K;

    type Value = V;

    type Item = (K, V);

    open spec fn tree(&self) -> Node<K, V> {
        **self
    }

    open spec fn pair(item: (K, V)) -> (K, V) {
        item
    }

    fn key(&self) -> (k: &K) {
        &self.key
    }

    fn item(self) -> (i: (K, V)) {
        let node = *self;
        (node.key, node.value)
    }

    fn left(&mut self) -> (child: Option<Self>) {
        self.left.take()
    }

    fn right(&mut self) -> (child: Option<Self>) {
        self.right.take()
    }
}

/// Which children of a visited node have been handed out: none, the left,
/// the right, both.
#[derive(Clone, Copy, Debug)]
pub enum Seen {
    /// Neither child.
    N,
    /// The left child.
    L,
    /// The right child.
    R,
    /// Both children.
    B,
}

impl Seen {
    /// The left child has been handed out.
    pub open spec fn left(self) -> bool {
        self is L || self is B
    }

    /// The right child has been handed out.
    pub open spec fn right(self) -> bool {
        self is R || self is B
    }
}

/// A node on the stack, with what has been seen of it.
pub struct Visit<N> {
    node: N,
    seen: Seen,
}

impl<N: NodeRef> Visit<N> {
    /// What has been seen of the node.
    pub closed spec fn mark(self) -> Seen {
        self.seen
    }

    /// The node visited.
    pub closed spec fn tree(self) -> Node<N::Key, N::Value> {
        self.node.tree()
    }

    /// The entries of the left subtree, unless it has been handed out.
    pub open spec fn left_part(self) -> Seq<(N::Key, N::Value)> {
        if self.mark().left() {
            Seq::empty()
        } else {
            entries(self.tree().left)
        }
    }

    /// The entries of the right subtree, unless it has been handed out.
    pub open spec fn right_part(self) -> Seq<(N::Key, N::Value)> {
        if self.mark().right() {
            Seq::empty()
        } else {
            entries(self.tree().right)
        }
    }

    /// The node's own entry.
    pub open spec fn entry(self) -> (N::Key, N::Value) {
        (self.tree().key, self.tree().value)
    }

    /// The entries still to come from this visit: the left subtree unless
    /// handed out, the node's own, the right subtree unless handed out.
    pub open spec fn part(self) -> Seq<(N::Key, N::Value)> {
        self.left_part().push(self.entry()) + self.right_part()
    }

    /// A visit of a node of which nothing has been seen.
    pub fn new(node: N) -> (v: Self)
        ensures
            v.mark() is N,
            v.tree() == node.tree(),
    {
        Visit { node, seen: Seen::N }
    }

    /// Hands out the left child, once.
    pub fn left(&mut self) -> (child: Option<N>)
        ensures
            final(self).mark().left(),
            final(self).mark().right() == old(self).mark().right(),
            old(self).mark().left() ==> child.is_none(),
            !old(self).mark().left() ==> subtree(child) == old(self).tree().left,
            final(self).tree().key == old(self).tree().key,
            final(self).tree().value == old(self).tree().value,
            final(self).tree().right == old(self).tree().right,
            old(self).part() =~= entries(subtree(child)) + final(self).part(),
            entries(subtree(child)) == old(self).left_part(),
            child.is_some() ==> old(self).left_part().len() > 0,
            final(self).left_part() == Seq::<(N::Key, N::Value)>::empty(),
            final(self).right_part() == old(self).right_part(),
            final(self).entry() == old(self).entry(),
    {
        match self.seen {
            Seen::N => {
                self.seen = Seen::L;
                self.node.left()
            },
            Seen::R => {
                self.seen = Seen::B;
                self.node.left()
            },
            Seen::L | Seen::B => None,
        }
    }

    /// Hands out the right child, once.
    pub fn right(&mut self) -> (child: Option<N>)
        ensures
            final(self).mark().right(),
            final(self).mark().left() == old(self).mark().left(),
            old(self).mark().right() ==> child.is_none(),
            !old(self).mark().right() ==> subtree(child) == old(self).tree().right,
            final(self).tree().key == old(self).tree().key,
            final(self).tree().value == old(self).tree().value,
            final(self).tree().left == old(self).tree().left,
            old(self).part() =~= final(self).part() + entries(subtree(child)),
            entries(subtree(child)) == old(self).right_part(),
            child.is_some() ==> old(self).right_part().len() > 0,
            final(self).right_part() == Seq::<(N::Key, N::Value)>::empty(),
            final(self).left_part() == old(self).left_part(),
            final(self).entry() == old(self).entry(),
    {
        match self.seen {
            Seen::N => {
                self.seen = Seen::R;
                self.node.right()
            },
            Seen::L => {
                self.seen = Seen::B;
                self.node.right()
            },
            Seen::R | Seen::B => None,
        }
    }

    /// The node's key.
    pub fn key(&self) -> (k: &N::Key)
        ensures
            *k == self.tree().key,
            *k == self.entry().0,
    {
        self.node.key()
    }

    /// The node's item.
    pub fn item(self) -> (i: N::Item)
        ensures
            N::pair(i) == (self.tree().key, self.tree().value),
    {
        self.node.item()
    }

    /// What has been seen of the node.
    pub fn seen(&self) -> (s: Seen)
        ensures
            s == self.mark(),
    {
        self.seen
    }
}

/// The entries still to come from a stack of visits: those of the visit at
/// the back first.
pub open spec fn flatten<N: NodeRef>(fs: Seq<Visit<N>>) -> Seq<(N::Key, N::Value)>
    decreases fs.len(),
{
    if fs.len() == 0 {
        Seq::empty()
    } else {
        fs.last().part() + flatten(fs.drop_last())
    }
}

/// A visit pushed at the back comes first.
pub proof fn lemma_flatten_back<N: NodeRef>(fs: Seq<Visit<N>>, f: Visit<N>)
    ensures
        flatten(fs.push(f)) =~= f.part() + flatten(fs),
{
    assert(fs.push(f).drop_last() =~= fs);
}

/// A visit pushed at the front comes last.
pub proof fn lemma_flatten_front<N: NodeRef>(fs: Seq<Visit<N>>, f: Visit<N>)
    ensures
        flatten(seq![f] + fs) =~= flatten(fs) + f.part(),
    decreases fs.len(),
{
    let gs = seq![f] + fs;
    if fs.len() == 0 {
        assert(gs.drop_last() =~= fs);
        assert(gs.last() == f);
    } else {
        assert(gs.drop_last() =~= seq![f] + fs.drop_last());
        assert(gs.last() == fs.last());
        lemma_flatten_front(fs.drop_last(), f);
    }
}

/// Every visit has at least its own entry to come.
pub proof fn lemma_flatten_len<N: NodeRef>(fs: Seq<Visit<N>>)
    ensures
        flatten(fs).len() >= fs.len(),
    decreases fs.len(),
{
    if fs.len() > 0 {
        lemma_flatten_len(fs.drop_last());
    }
}

/// How far the visit at the back is from yielding: 0 once its left child has
/// been handed out.
pub open spec fn back_distance<N: NodeRef>(fs: Seq<Visit<N>>) -> nat {
    if fs.len() == 0 || fs.last().mark().left() {
        0
    } else {
        entries(fs.last().tree().left).len() + 1
    }
}

/// How far the visit at the front is from yielding: 0 once its right child
/// has been handed out.
pub open spec fn front_distance<N: NodeRef>(fs: Seq<Visit<N>>) -> nat {
    if fs.len() == 0 || fs.first().mark().right() {
        0
    } else {
        entries(fs.first().tree().right).len() + 1
    }
}

/// An iterator over the entries of a tree in ascending order, from both
/// ends.
pub struct Iter<N> {
    visits: VecDeque<Visit<N>>,
    size: usize,
}

impl<N: NodeRef> Iter<N> {
    /// The entries still to come, in ascending order.
    pub closed spec fn remaining(self) -> Seq<(N::Key, N::Value)> {
        flatten(self.visits@)
    }

    /// The bound on the number of entries still to come.
    pub closed spec fn bound(self) -> nat {
        self.size as nat
    }

    /// The number of visits on the stack.
    pub closed spec fn depth(self) -> nat {
        self.visits@.len()
    }

    /// No more entries are to come than the bound says.
    pub open spec fn wf(self) -> bool {
        self.depth() <= self.remaining().len() <= self.bound()
    }

    /// An iterator over the tree under `root`, which holds `size` entries.
    pub fn new(root: Option<N>, size: usize) -> (it: Self)
        requires
            size == entries(subtree(root)).len(),
        ensures
            it.remaining() == entries(subtree(root)),
            it.bound() == size,
            it.wf(),
    {
        let mut visits = VecDeque::new();
        if let Some(node) = root {
            let visit = Visit::new(node);
            proof {
                lemma_flatten_back(visits@, visit);
                assert(visit.part() =~= entries(subtree(root)));
            }
            visits.push_back(visit);
        }
        Iter { visits, size }
    }

    /// The first of the entries still to come.
    pub fn next(&mut self) -> (r: Option<N::Item>)
        requires
            old(self).wf(),
        ensures
            final(self).wf(),
            match r {
                Some(i) => {
                    &&& old(self).remaining().len() > 0
                    &&& N::pair(i) == old(self).remaining().first()
                    &&& final(self).remaining() == old(self).remaining().drop_first()
                    &&& final(self).bound() == old(self).bound() - 1
                },
                None => {
                    &&& old(self).remaining().len() == 0
                    &&& final(self).remaining() == old(self).remaining()
                    &&& final(self).bound() == old(self).bound()
                },
            },
    {
        loop
            invariant
                self.wf(),
                self.remaining() == old(self).remaining(),
                self.bound() == old(self).bound(),
            decreases back_distance(self.visits@),
        {
            let ghost before = self.visits@;
            match self.visits.pop_back() {
                None => {
                    return None;
                },
                Some(mut visit) => {
                    let ghost rest = self.visits@;
                    proof {
                        lemma_flatten_len(rest);
                        assert(before.drop_last() =~= rest);
                    }
                    match visit.seen() {
                        Seen::N | Seen::R => {
                            let child = visit.left();
                            proof {
                                lemma_flatten_back(rest, visit);
                            }
                            self.visits.push_back(visit);
                            if let Some(node) = child {
                                let inner = Visit::new(node);
                                proof {
                                    lemma_flatten_back(rest.push(visit), inner);
                                    assert(inner.part() =~= entries(subtree(child)));
                                }
                                self.visits.push_back(inner);
                            }
                        },
                        Seen::L | Seen::B => {
                            let child = visit.right();
                            self.size = self.size - 1;
                            if let Some(node) = child {
                                let inner = Visit::new(node);
                                proof {
                                    lemma_flatten_back(rest, inner);
                                    assert(inner.part() =~= entries(subtree(child)));
                                    lemma_flatten_len(rest.push(inner));
                                }
                                self.visits.push_back(inner);
                            }
                            proof {
                                assert(self.remaining() =~= old(self).remaining().drop_first());
                            }
                            return Some(visit.item());
                        },
                    }
                },
            }
        }
    }

    /// The last of the entries still to come.
    pub fn next_back(&mut self) -> (r: Option<N::Item>)
        requires
            old(self).wf(),
        ensures
            final(self).wf(),
            match r {
                Some(i) => {
                    &&& old(self).remaining().len() > 0
                    &&& N::pair(i) == old(self).remaining().last()
                    &&& final(self).remaining() == old(self).remaining().drop_last()
                    &&& final(self).bound() == old(self).bound() - 1
                },
                None => {
                    &&& old(self).remaining().len() == 0
                    &&& final(self).remaining() == old(self).remaining()
                    &&& final(self).bound() == old(self).bound()
                },
            },
    {
        loop
            invariant
                self.wf(),
                self.remaining() == old(self).remaining(),
                self.bound() == old(self).bound(),
            decreases front_distance(self.visits@),
        {
            let ghost before = self.visits@;
            match self.visits.pop_front() {
                None => {
                    return None;
                },
                Some(mut visit) => {
                    let ghost rest = self.visits@;
                    proof {
                        lemma_flatten_len(rest);
                        assert(before =~= seq![visit] + rest);
                        lemma_flatten_front(rest, visit);
                    }
                    match visit.seen() {
                        Seen::N | Seen::L => {
                            let child = visit.right();
                            proof {
                                lemma_flatten_front(rest, visit);
                            }
                            self.visits.push_front(visit);
                            if let Some(node) = child {
                                let inner = Visit::new(node);
                                proof {
                                    lemma_flatten_front(seq![visit] + rest, inner);
                                    assert(inner.part() =~= entries(subtree(child)));
                                }
                                self.visits.push_front(inner);
                            }
                        },
                        Seen::R | Seen::B => {
                            let child = visit.left();
                            self.size = self.size - 1;
                            if let Some(node) = child {
                                let inner = Visit::new(node);
                                proof {
                                    lemma_flatten_front(rest, inner);
                                    assert(inner.part() =~= entries(subtree(child)));
                                    lemma_flatten_len(seq![inner] + rest);
                                }
                                self.visits.push_front(inner);
                            }
                            proof {
                                assert(self.remaining() =~= old(self).remaining().drop_last());
                            }
                            return Some(visit.item());
                        },
                    }
                },
            }
        }
    }

    /// All entries still to come, in ascending order.
    pub fn collect(self) -> (v: Vec<N::Item>)
        requires
            self.wf(),
        ensures
            v@.len() == self.remaining().len(),
            forall|i: int| 0 <= i < v@.len() ==> N::pair(#[trigger] v@[i]) == self.remaining()[i],
    {
        let mut it = self;
        let ghost s0 = it.remaining();
        let mut v: Vec<N::Item> = Vec::new();
        proof {
            assert(s0.subrange(0, s0.len() as int) =~= s0);
        }
        loop
            invariant
                it.wf(),
                s0 == self.remaining(),
                v@.len() <= s0.len(),
                it.remaining() == s0.subrange(v@.len() as int, s0.len() as int),
                forall|i: int| 0 <= i < v@.len() ==> N::pair(#[trigger] v@[i]) == s0[i],
            decreases it.remaining().len(),
        {
            match it.next() {
                None => {
                    return v;
                },
                Some(item) => {
                    proof {
                        assert(s0.subrange(v@.len() as int, s0.len() as int).drop_first()
                            =~= s0.subrange(v@.len() as int + 1, s0.len() as int));
                    }
                    v.push(item);
                },
            }
        }
    }

    /// All entries still to come, in descending order.
    pub fn collect_rev(self) -> (v: Vec<N::Item>)
        requires
            self.wf(),
        ensures
            v@.len() == self.remaining().len(),
            forall|i: int|
                0 <= i < v@.len() ==> N::pair(#[trigger] v@[i]) == self.remaining()[
                    self.remaining().len() - 1 - i
                ],
    {
        let mut it = self;
        let ghost s0 = it.remaining();
        let mut v: Vec<N::Item> = Vec::new();
        proof {
            assert(s0.subrange(0, s0.len() as int) =~= s0);
        }
        loop
            invariant
                it.wf(),
                s0 == self.remaining(),
                v@.len() <= s0.len(),
                it.remaining() == s0.subrange(0, s0.len() - v@.len()),
                forall|i: int|
                    0 <= i < v@.len() ==> N::pair(#[trigger] v@[i]) == s0[s0.len() - 1 - i],
            decreases it.remaining().len(),
        {
            match it.next_back() {
                None => {
                    return v;
                },
                Some(item) => {
                    proof {
                        assert(s0.subrange(0, s0.len() - v@.len()).drop_last() =~= s0.subrange(
                            0,
                            s0.len() - v@.len() - 1,
                        ));
                    }
                    v.push(item);
                },
            }
        }
    }

    /// The number of entries still to come, where the bound is exact.
    pub fn size_hint(&self) -> (r: (usize, Option<usize>))
        ensures
            r.0 == self.bound(),
            r.1 == Some(r.0),
    {
        (self.size, Some(self.size))
    }

    /// At least one entry is to come for each visit on the stack, and no
    /// more than the bound says.
    pub fn range_size_hint(&self) -> (r: (usize, Option<usize>))
        ensures
            r.0 == self.depth(),
            r.1 matches Some(n) && n == self.bound(),
    {
        (self.visits.len(), Some(self.size))
    }

    /// An iterator over the entries within both bounds of the tree under
    /// `root`, which holds `size` entries sorted by `order`. On each side the
    /// stack is trimmed once: what lies beyond the bound is dropped by whole
    /// subtrees, and only the nodes along the bound stay on the stack.
    pub fn range<Lo, Hi, C: QueryOrder<Lo, N::Key> + QueryOrder<Hi, N::Key>>(
        root: Option<N>,
        size: usize,
        order: &C,
        min: Bound<&Lo>,
        max: Bound<&Hi>,
    ) -> (it: Self)
        requires
            size == entries(subtree(root)).len(),
            sorted(order, entries(subtree(root))),
        ensures
            it.wf(),
            it.remaining() == window(
                order,
                entries(subtree(root)),
                bound_key::<Lo, N::Key, C>(order, min),
                bound_key::<Hi, N::Key, C>(order, max),
            ),
            it.bound() <= size,
    {
        let mut it = Iter::new(root, size);
        let ghost s = it.remaining();
        let ghost lo = bound_key::<Lo, N::Key, C>(order, min);
        let ghost hi = bound_key::<Hi, N::Key, C>(order, max);
        it.trim_lower(order, min);
        proof {
            lemma_bound_splits(order, s, lo);
            lemma_tail_sorted(order, s, lower_index(order, s, lo));
            lemma_window_cut(order, s, lo, hi);
        }
        it.trim_upper(order, max);
        it
    }

    /// The index among the entries to come of the entry of the visit at the
    /// back.
    pub closed spec fn back_offset(self) -> int {
        self.visits@.last().left_part().len() as int
    }

    /// The index among the entries to come of the entry of the visit at the
    /// front.
    pub closed spec fn front_index(self) -> int {
        self.remaining().len() - 1 - self.visits@.first().right_part().len()
    }

    /// How far the visit at the back is from yielding.
    pub closed spec fn back_rank(self) -> nat {
        back_distance(self.visits@)
    }

    /// How far the visit at the front is from yielding.
    pub closed spec fn front_rank(self) -> nat {
        front_distance(self.visits@)
    }

    /// Whether the stack is empty.
    fn is_done(&self) -> (b: bool)
        requires
            self.wf(),
        ensures
            b == (self.depth() == 0),
            b ==> self.remaining().len() == 0,
    {
        self.visits.len() == 0
    }

    /// The key of the visit at the back.
    fn back_key(&self) -> (k: &N::Key)
        requires
            self.wf(),
            self.depth() > 0,
        ensures
            0 <= self.back_offset() < self.remaining().len(),
            *k == self.remaining()[self.back_offset()].0,
    {
        let ghost fs = self.visits@;
        proof {
            lemma_flatten_len(fs.drop_last());
        }
        self.visits[self.visits.len() - 1].key()
    }

    /// The key of the visit at the front.
    fn front_key(&self) -> (k: &N::Key)
        requires
            self.wf(),
            self.depth() > 0,
        ensures
            0 <= self.front_index() < self.remaining().len(),
            *k == self.remaining()[self.front_index()].0,
    {
        let ghost fs = self.visits@;
        proof {
            assert(fs =~= seq![fs.first()] + fs.drop_first());
            lemma_flatten_front(fs.drop_first(), fs.first());
            lemma_flatten_len(fs.drop_first());
        }
        self.visits[0].key()
    }

    /// Puts the left child of the visit at the back on the stack, if it has
    /// one to hand out.
    fn descend_back(&mut self) -> (pushed: bool)
        requires
            old(self).wf(),
            old(self).depth() > 0,
        ensures
            final(self).wf(),
            final(self).remaining() == old(self).remaining(),
            final(self).bound() == old(self).bound(),
            final(self).depth() > 0,
            pushed ==> final(self).back_rank() < old(self).back_rank(),
            !pushed ==> final(self).back_offset() == 0 && old(self).back_offset() == 0,
    {
        let ghost before = self.visits@;
        let mut visit = self.visits.pop_back().unwrap();
        let ghost rest = self.visits@;
        proof {
            assert(before.drop_last() =~= rest);
        }
        let child = visit.left();
        proof {
            lemma_flatten_back(rest, visit);
        }
        self.visits.push_back(visit);
        match child {
            None => false,
            Some(node) => {
                let inner = Visit::new(node);
                proof {
                    lemma_flatten_back(rest.push(visit), inner);
                    assert(inner.part() =~= entries(subtree(child)));
                    lemma_flatten_len(rest.push(visit));
                }
                self.visits.push_back(inner);
                proof {
                    assert(self.remaining() =~= old(self).remaining());
                }
                true
            },
        }
    }

    /// Puts the right child of the visit at the front on the stack, if it
    /// has one to hand out.
    fn descend_front(&mut self) -> (pushed: bool)
        requires
            old(self).wf(),
            old(self).depth() > 0,
        ensures
            final(self).wf(),
            final(self).remaining() == old(self).remaining(),
            final(self).bound() == old(self).bound(),
            final(self).depth() > 0,
            pushed ==> final(self).front_rank() < old(self).front_rank(),
            !pushed ==> final(self).front_index() == final(self).remaining().len() - 1
                && old(self).front_index() == old(self).remaining().len() - 1,
    {
        let ghost before = self.visits@;
        let mut visit = self.visits.pop_front().unwrap();
        let ghost rest = self.visits@;
        proof {
            assert(before =~= seq![visit] + rest);
            lemma_flatten_front(rest, visit);
        }
        let child = visit.right();
        proof {
            lemma_flatten_front(rest, visit);
        }
        self.visits.push_front(visit);
        match child {
            None => false,
            Some(node) => {
                let inner = Visit::new(node);
                proof {
                    lemma_flatten_front(seq![visit] + rest, inner);
                    assert(inner.part() =~= entries(subtree(child)));
                    lemma_flatten_len(seq![visit] + rest);
                }
                self.visits.push_front(inner);
                proof {
                    assert(self.remaining() =~= old(self).remaining());
                }
                true
            },
        }
    }

    /// Drops what is to come before the entry of the visit at the back.
    fn drop_left_back(&mut self)
        requires
            old(self).wf(),
            old(self).depth() > 0,
        ensures
            final(self).wf(),
            final(self).remaining() == tail(old(self).remaining(), old(self).back_offset()),
            final(self).bound() <= old(self).bound(),
    {
        let ghost before = self.visits@;
        let mut visit = self.visits.pop_back().unwrap();
        let ghost rest = self.visits@;
        proof {
            assert(before.drop_last() =~= rest);
        }
        let child = visit.left();
        if child.is_some() {
            self.size = self.size - 1;
        }
        proof {
            lemma_flatten_back(rest, visit);
            lemma_flatten_len(rest.push(visit));
        }
        self.visits.push_back(visit);
        proof {
            assert(self.remaining() =~= tail(old(self).remaining(), old(self).back_offset()));
        }
    }

    /// Drops what is to come behind the entry of the visit at the front.
    fn drop_right_front(&mut self)
        requires
            old(self).wf(),
            old(self).depth() > 0,
        ensures
            final(self).wf(),
            final(self).remaining() == head(old(self).remaining(), old(self).front_index() + 1),
            final(self).bound() <= old(self).bound(),
    {
        let ghost before = self.visits@;
        let mut visit = self.visits.pop_front().unwrap();
        let ghost rest = self.visits@;
        proof {
            assert(before =~= seq![visit] + rest);
            lemma_flatten_front(rest, visit);
        }
        let child = visit.right();
        if child.is_some() {
            self.size = self.size - 1;
        }
        proof {
            lemma_flatten_front(rest, visit);
            lemma_flatten_len(seq![visit] + rest);
        }
        self.visits.push_front(visit);
        proof {
            assert(self.remaining() =~= head(
                old(self).remaining(),
                old(self).front_index() + 1,
            ));
        }
    }

    /// Drops the visit at the back with what is to come before its entry,
    /// and puts its right child in its place.
    fn drop_through_back(&mut self)
        requires
            old(self).wf(),
            old(self).depth() > 0,
        ensures
            final(self).wf(),
            final(self).remaining() == tail(old(self).remaining(), old(self).back_offset() + 1),
            final(self).bound() == old(self).bound() - 1,
    {
        let ghost before = self.visits@;
        let mut visit = self.visits.pop_back().unwrap();
        let ghost rest = self.visits@;
        proof {
            assert(before.drop_last() =~= rest);
            lemma_flatten_len(rest);
        }
        let child = visit.right();
        self.size = self.size - 1;
        if let Some(node) = child {
            let inner = Visit::new(node);
            proof {
                lemma_flatten_back(rest, inner);
                assert(inner.part() =~= entries(subtree(child)));
                lemma_flatten_len(rest.push(inner));
            }
            self.visits.push_back(inner);
        }
        proof {
            assert(self.remaining() =~= tail(old(self).remaining(), old(self).back_offset() + 1));
        }
    }

    /// Drops the visit at the front with what is to come behind its entry,
    /// and puts its left child in its place.
    fn drop_through_front(&mut self)
        requires
            old(self).wf(),
            old(self).depth() > 0,
        ensures
            final(self).wf(),
            final(self).remaining() == head(old(self).remaining(), old(self).front_index()),
            final(self).bound() == old(self).bound() - 1,
    {
        let ghost before = self.visits@;
        let mut visit = self.visits.pop_front().unwrap();
        let ghost rest = self.visits@;
        proof {
            assert(before =~= seq![visit] + rest);
            lemma_flatten_front(rest, visit);
            lemma_flatten_len(rest);
        }
        let child = visit.left();
        self.size = self.size - 1;
        if let Some(node) = child {
            let inner = Visit::new(node);
            proof {
                lemma_flatten_front(rest, inner);
                assert(inner.part() =~= entries(subtree(child)));
                lemma_flatten_len(seq![inner] + rest);
            }
            self.visits.push_front(inner);
        }
        proof {
            assert(self.remaining() =~= head(old(self).remaining(), old(self).front_index()));
        }
    }

    /// Drops the entries that the lower bound does not admit.
    fn trim_lower<Q, C: QueryOrder<Q, N::Key>>(&mut self, order: &C, min: Bound<&Q>)
        requires
            old(self).wf(),
            sorted(order, old(self).remaining()),
        ensures
            final(self).wf(),
            final(self).remaining() == tail(
                old(self).remaining(),
                lower_index(order, old(self).remaining(), bound_key::<Q, N::Key, C>(order, min)),
            ),
            final(self).bound() <= old(self).bound(),
    {
        let ghost s0 = self.remaining();
        let ghost b = bound_key::<Q, N::Key, C>(order, min);
        let (key, inclusive) = match min {
            Bound::Included(k) => (k, true),
            Bound::Excluded(k) => (k, false),
            Bound::Unbounded => {
                proof {
                    assert(tail(s0, 0) =~= s0);
                }
                return ;
            },
        };
        let ghost mut j: int = 0;
        proof {
            assert(tail(s0, 0) =~= s0);
        }
        loop
            invariant
                self.wf(),
                sorted(order, s0),
                0 <= j <= s0.len(),
                self.remaining() == tail(s0, j),
                forall|i: int| 0 <= i < j ==> !admits_lower(order, b, #[trigger] s0[i].0),
                b == bound_of(order.key(*key), inclusive),
                b == bound_key::<Q, N::Key, C>(order, min),
                self.bound() <= old(self).bound(),
                s0 == old(self).remaining(),
            decreases self.remaining().len(), self.back_rank(),
        {
            if self.is_done() {
                proof {
                    lemma_lower_index(order, s0, b, j);
                }
                return ;
            }
            let ghost p = self.back_offset();
            let ghost at = j + p;
            let node_key = self.back_key();
            proof {
                assert(self.remaining()[p] == s0[at]);
            }
            match order.compare_query(key, node_key) {
                Ordering::Less => {
                    if !self.descend_back() {
                        proof {
                            if order.less(s0[at].0, order.key(*key)) {
                                order.transitive(order.key(*key), s0[at].0, order.key(*key));
                                order.irreflexive(order.key(*key));
                            }
                            lemma_lower_index(order, s0, b, j);
                        }
                        return ;
                    }
                },
                Ordering::Equal => {
                    if inclusive {
                        self.drop_left_back();
                        proof {
                            assert(tail(tail(s0, j), p) =~= tail(s0, at));
                            assert forall|i: int| 0 <= i < at implies !admits_lower(
                                order,
                                b,
                                #[trigger] s0[i].0,
                            ) by {
                                if i >= j {
                                    order.splits(s0[i].0, order.key(*key), s0[at].0);
                                }
                            }
                            lemma_lower_index(order, s0, b, at);
                        }
                    } else {
                        self.drop_through_back();
                        proof {
                            assert(tail(tail(s0, j), p + 1) =~= tail(s0, at + 1));
                            lemma_prefix_under(order, s0, b, at);
                            if at + 1 < s0.len() {
                                order.splits(s0[at].0, order.key(*key), s0[at + 1].0);
                            }
                            lemma_lower_index(order, s0, b, at + 1);
                        }
                    }
                    return ;
                },
                Ordering::Greater => {
                    self.drop_through_back();
                    proof {
                        assert(tail(tail(s0, j), p + 1) =~= tail(s0, at + 1));
                        if order.less(order.key(*key), s0[at].0) {
                            order.transitive(order.key(*key), s0[at].0, order.key(*key));
                            order.irreflexive(order.key(*key));
                        }
                        lemma_prefix_under(order, s0, b, at);
                        j = at + 1;
                    }
                },
            }
        }
    }

    /// Drops the entries that the upper bound does not admit.
    fn trim_upper<Q, C: QueryOrder<Q, N::Key>>(&mut self, order: &C, max: Bound<&Q>)
        requires
            old(self).wf(),
            sorted(order, old(self).remaining()),
        ensures
            final(self).wf(),
            final(self).remaining() == head(
                old(self).remaining(),
                upper_index(order, old(self).remaining(), bound_key::<Q, N::Key, C>(order, max)),
            ),
            final(self).bound() <= old(self).bound(),
    {
        let ghost s0 = self.remaining();
        let ghost b = bound_key::<Q, N::Key, C>(order, max);
        let (key, inclusive) = match max {
            Bound::Included(k) => (k, true),
            Bound::Excluded(k) => (k, false),
            Bound::Unbounded => {
                proof {
                    assert(head(s0, upper_index(order, s0, b)) =~= s0);
                }
                return ;
            },
        };
        let ghost mut j: int = length(s0);
        proof {
            assert(head(s0, j) =~= s0);
        }
        loop
            invariant
                self.wf(),
                sorted(order, s0),
                0 <= j <= s0.len(),
                self.remaining() == head(s0, j),
                forall|i: int| j <= i < s0.len() ==> !admits_upper(order, b, #[trigger] s0[i].0),
                b == bound_of(order.key(*key), inclusive),
                b == bound_key::<Q, N::Key, C>(order, max),
                self.bound() <= old(self).bound(),
                s0 == old(self).remaining(),
            decreases self.remaining().len(), self.front_rank(),
        {
            if self.is_done() {
                proof {
                    lemma_upper_index(order, s0, b, j);
                }
                return ;
            }
            let ghost q = self.front_index();
            let node_key = self.front_key();
            proof {
                assert(self.remaining()[q] == s0[q]);
            }
            match order.compare_query(key, node_key) {
                Ordering::Greater => {
                    if !self.descend_front() {
                        proof {
                            if order.less(order.key(*key), s0[q].0) {
                                order.transitive(order.key(*key), s0[q].0, order.key(*key));
                                order.irreflexive(order.key(*key));
                            }
                            lemma_upper_index(order, s0, b, j);
                        }
                        return ;
                    }
                },
                Ordering::Equal => {
                    if inclusive {
                        self.drop_right_front();
                        proof {
                            assert(head(head(s0, j), q + 1) =~= head(s0, q + 1));
                            assert forall|i: int| q + 1 <= i < s0.len() implies !admits_upper(
                                order,
                                b,
                                #[trigger] s0[i].0,
                            ) by {
                                if i < j {
                                    order.splits(s0[q].0, order.key(*key), s0[i].0);
                                }
                            }
                            lemma_upper_index(order, s0, b, q + 1);
                        }
                    } else {
                        self.drop_through_front();
                        proof {
                            assert(head(head(s0, j), q) =~= head(s0, q));
                            lemma_suffix_over(order, s0, b, q);
                            if q > 0 {
                                order.splits(s0[q - 1].0, order.key(*key), s0[q].0);
                            }
                            lemma_upper_index(order, s0, b, q);
                        }
                    }
                    return ;
                },
                Ordering::Less => {
                    self.drop_through_front();
                    proof {
                        assert(head(head(s0, j), q) =~= head(s0, q));
                        if order.less(s0[q].0, order.key(*key)) {
                            order.transitive(order.key(*key), s0[q].0, order.key(*key));
                            order.irreflexive(order.key(*key));
                        }
                        lemma_suffix_over(order, s0, b, q);
                        j = q;
                    }
                },
            }
        }
    }
}

/// An iterator over the entries of a tree within two bounds, from both
/// ends.
pub struct Range<N>(Iter<N>);

impl<N: NodeRef> Range<N> {
    /// The entries still to come, in ascending order.
    pub closed spec fn remaining(self) -> Seq<(N::Key, N::Value)> {
        self.0.remaining()
    }

    /// The bound on the number of entries still to come.
    pub closed spec fn bound(self) -> nat {
        self.0.bound()
    }

    /// The number of visits on the stack.
    pub closed spec fn depth(self) -> nat {
        self.0.depth()
    }

    /// At least one entry is to come for each visit on the stack, and no
    /// more than the bound says.
    pub open spec fn wf(self) -> bool {
        self.depth() <= self.remaining().len() <= self.bound()
    }

    /// An iterator over the entries within both bounds of the tree under
    /// `root`, which holds `size` entries sorted by `order`.
    pub fn new<Lo, Hi, C: QueryOrder<Lo, N::Key> + QueryOrder<Hi, N::Key>>(
        root: Option<N>,
        size: usize,
        order: &C,
        min: Bound<&Lo>,
        max: Bound<&Hi>,
    ) -> (it: Self)
        requires
            size == entries(subtree(root)).len(),
            sorted(order, entries(subtree(root))),
        ensures
            it.wf(),
            it.remaining() == window(
                order,
                entries(subtree(root)),
                bound_key::<Lo, N::Key, C>(order, min),
                bound_key::<Hi, N::Key, C>(order, max),
            ),
            it.bound() <= size,
    {
        Range(Iter::range(root, size, order, min, max))
    }

    /// The first of the entries still to come.
    pub fn next(&mut self) -> (r: Option<N::Item>)
        requires
            old(self).wf(),
        ensures
            final(self).wf(),
            match r {
                Some(i) => {
                    &&& old(self).remaining().len() > 0
                    &&& N::pair(i) == old(self).remaining().first()
                    &&& final(self).remaining() == old(self).remaining().drop_first()
                    &&& final(self).bound() == old(self).bound() - 1
                },
                None => {
                    &&& old(self).remaining().len() == 0
                    &&& final(self).remaining() == old(self).remaining()
                    &&& final(self).bound() == old(self).bound()
                },
            },
    {
        self.0.next()
    }

    /// The last of the entries still to come.
    pub fn next_back(&mut self) -> (r: Option<N::Item>)
        requires
            old(self).wf(),
        ensures
            final(self).wf(),
            match r {
                Some(i) => {
                    &&& old(self).remaining().len() > 0
                    &&& N::pair(i) == old(self).remaining().last()
                    &&& final(self).remaining() == old(self).remaining().drop_last()
                    &&& final(self).bound() == old(self).bound() - 1
                },
                None => {
                    &&& old(self).remaining().len() == 0
                    &&& final(self).remaining() == old(self).remaining()
                    &&& final(self).bound() == old(self).bound()
                },
            },
    {
        self.0.next_back()
    }

    /// All entries still to come, in ascending order.
    pub fn collect(self) -> (v: Vec<N::Item>)
        requires
            self.wf(),
        ensures
            v@.len() == self.remaining().len(),
            forall|i: int| 0 <= i < v@.len() ==> N::pair(#[trigger] v@[i]) == self.remaining()[i],
    {
        self.0.collect()
    }

    /// All entries still to come, in descending order.
    pub fn collect_rev(self) -> (v: Vec<N::Item>)
        requires
            self.wf(),
        ensures
            v@.len() == self.remaining().len(),
            forall|i: int|
                0 <= i < v@.len() ==> N::pair(#[trigger] v@[i]) == self.remaining()[
                    self.remaining().len() - 1 - i
                ],
    {
        self.0.collect_rev()
    }

    /// A lower and an upper bound on the number of entries still to come:
    /// the number of visits on the stack, and the iterator's bound.
    pub fn size_hint(&self) -> (r: (usize, Option<usize>))
        ensures
            r.0 == self.depth(),
            r.1 matches Some(n) && n == self.bound(),
    {
        self.0.range_size_hint()
    }
}

/// An iterator over the entries of a tree in ascending order, from both
/// ends, which hands out each value for writing. An entry is lent for as
/// long as the iterator is not used again.
pub struct IterMut<'a, K, V> {
    pub root: &'a mut Link<K, V>,
    pub front: usize,
    pub back: usize,
}

impl<'a, K, V> IterMut<'a, K, V> {
    /// All entries of the tree.
    pub open spec fn all(self) -> Seq<(K, V)> {
        entries(*self.root)
    }

    /// The index of the first entry still to come.
    pub open spec fn start(self) -> int {
        self.front as int
    }

    /// The index behind the last entry still to come.
    pub open spec fn end(self) -> int {
        self.back as int
    }

    /// The entries still to come, in ascending order.
    pub open spec fn remaining(self) -> Seq<(K, V)> {
        self.all().subrange(self.start(), self.end())
    }

    /// The tree is balanced and the entries still to come lie in it.
    pub open spec fn wf(self) -> bool {
        &&& balanced(*self.root)
        &&& self.front <= self.back <= entries(*self.root).len()
    }

    /// The tree that the iterator goes over.
    pub open spec fn tree(self) -> Link<K, V> {
        *self.root
    }

    /// An iterator over the tree under `root`, which holds `size` entries.
    pub fn new(root: &'a mut Link<K, V>, size: usize) -> (it: Self)
        requires
            balanced(*old(root)),
            size == entries(*old(root)).len(),
        ensures
            it.wf(),
            it.tree() == *old(root),
            it.start() == 0,
            it.end() == size,
            it.remaining() == entries(*old(root)),
            *final(root) == *final(it.root),
    {
        proof {
            assert(entries(*root).subrange(0, size as int) =~= entries(*root));
        }
        IterMut { root, front: 0, back: size }
    }

    /// An iterator over the entries from index `front` to before index
    /// `back` of the tree under `root`.
    pub fn between(root: &'a mut Link<K, V>, front: usize, back: usize) -> (it: Self)
        requires
            balanced(*old(root)),
            front <= back <= entries(*old(root)).len(),
        ensures
            it.wf(),
            it.tree() == *old(root),
            it.start() == front,
            it.end() == back,
            *final(root) == *final(it.root),
    {
        IterMut { root, front, back }
    }

    /// An iterator over the entries within both bounds of the tree under
    /// `root`, which holds `size` entries sorted by `order`.
    pub fn range<Lo, Hi, C: QueryOrder<Lo, K> + QueryOrder<Hi, K>>(
        root: &'a mut Link<K, V>,
        size: usize,
        order: &C,
        min: Bound<&Lo>,
        max: Bound<&Hi>,
    ) -> (it: Self)
        requires
            balanced(*old(root)),
            sorted(order, entries(*old(root))),
            size == entries(*old(root)).len(),
        ensures
            it.wf(),
            it.tree() == *old(root),
            it.remaining() =~= window(
                order,
                entries(*old(root)),
                bound_key::<Lo, K, C>(order, min),
                bound_key::<Hi, K, C>(order, max),
            ),
            *final(root) == *final(it.root),
    {
        let front = lower_end(&*root, order, min);
        let back = upper_end(&*root, size, order, max);
        let back = if back < front {
            front
        } else {
            back
        };
        IterMut { root, front, back }
    }

    /// The first of the entries still to come.
    pub fn next(&mut self) -> (r: Option<(&K, &mut V)>)
        requires
            old(self).wf(),
        ensures
            final(self).wf(),
            final(self).end() == old(self).end(),
            *final(final(self).root) == *final(old(self).root),
            match r {
                Some((k, v)) => {
                    &&& old(self).remaining().len() > 0
                    &&& (*k, *v) == old(self).remaining().first()
                    &&& final(self).start() == old(self).start() + 1
                    &&& final(self).all() == old(self).all().update(
                        old(self).start(),
                        (*k, *final(v)),
                    )
                    &&& same_keys(final(self).all(), old(self).all())
                    &&& final(self).tree() == with_value(
                        old(self).tree(),
                        old(self).start(),
                        *final(v),
                    )
                },
                None => {
                    &&& old(self).remaining().len() == 0
                    &&& final(self).start() == old(self).start()
                    &&& final(self).tree() == old(self).tree()
                },
            },
    {
        if self.front < self.back {
            let ghost t = *self.root;
            let index = self.front;
            self.front = self.front + 1;
            let r = value_at_mut(self.root, index);
            proof {
                lemma_with_value(t, index as int, *final(r.1));
            }
            Some(r)
        } else {
            None
        }
    }

    /// The last of the entries still to come.
    pub fn next_back(&mut self) -> (r: Option<(&K, &mut V)>)
        requires
            old(self).wf(),
        ensures
            final(self).wf(),
            final(self).start() == old(self).start(),
            *final(final(self).root) == *final(old(self).root),
            match r {
                Some((k, v)) => {
                    &&& old(self).remaining().len() > 0
                    &&& (*k, *v) == old(self).remaining().last()
                    &&& final(self).end() == old(self).end() - 1
                    &&& final(self).all() == old(self).all().update(
                        old(self).end() - 1,
                        (*k, *final(v)),
                    )
                    &&& same_keys(final(self).all(), old(self).all())
                    &&& final(self).tree() == with_value(
                        old(self).tree(),
                        old(self).end() - 1,
                        *final(v),
                    )
                },
                None => {
                    &&& old(self).remaining().len() == 0
                    &&& final(self).end() == old(self).end()
                    &&& final(self).tree() == old(self).tree()
                },
            },
    {
        if self.front < self.back {
            let ghost t = *self.root;
            self.back = self.back - 1;
            let index = self.back;
            let r = value_at_mut(self.root, index);
            proof {
                lemma_with_value(t, index as int, *final(r.1));
            }
            Some(r)
        } else {
            None
        }
    }

    /// The number of entries still to come.
    pub fn size_hint(&self) -> (r: (usize, Option<usize>))
        requires
            self.wf(),
        ensures
            r.0 == self.remaining().len(),
            r.1 == Some(r.0),
    {
        (self.back - self.front, Some(self.back - self.front))
    }

    /// The number of entries still to come.
    pub fn range_size_hint(&self) -> (r: (usize, Option<usize>))
        requires
            self.wf(),
        ensures
            r.0 == self.remaining().len(),
            r.1 == Some(r.0),
    {
        self.size_hint()
    }
}

/// The index of the first entry that the lower bound admits.
pub fn lower_end<Q, K, V, C: QueryOrder<Q, K>>(root: &Link<K, V>, order: &C, min: Bound<&Q>) -> (i: usize)
    requires
        balanced(*root),
        sorted(order, entries(*root)),
    ensures
        i == lower_index(order, entries(*root), bound_key::<Q, K, C>(order, min)),
        i <= entries(*root).len(),
{
    proof {
        lemma_bound_splits(order, entries(*root), bound_key::<Q, K, C>(order, min));
        lemma_count(*root);
    }
    match min {
        Bound::Included(k) => find(root, order, k).0,
        Bound::Excluded(k) => {
            let (i, found) = find(root, order, k);
            if found {
                i + 1
            } else {
                i
            }
        },
        Bound::Unbounded => 0,
    }
}

/// The index behind the last entry that the upper bound admits, in a tree
/// of `size` entries.
pub fn upper_end<Q, K, V, C: QueryOrder<Q, K>>(
    root: &Link<K, V>,
    size: usize,
    order: &C,
    max: Bound<&Q>,
) -> (i: usize)
    requires
        balanced(*root),
        sorted(order, entries(*root)),
        size == entries(*root).len(),
    ensures
        i == upper_index(order, entries(*root), bound_key::<Q, K, C>(order, max)),
        i <= entries(*root).len(),
{
    proof {
        lemma_bound_splits(order, entries(*root), bound_key::<Q, K, C>(order, max));
    }
    match max {
        Bound::Included(k) => {
            let (i, found) = find(root, order, k);
            if found {
                i + 1
            } else {
                i
            }
        },
        Bound::Excluded(k) => find(root, order, k).0,
        Bound::Unbounded => size,
    }
}

} // verus!
