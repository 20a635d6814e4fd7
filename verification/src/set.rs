//! An ordered set based on a balanced binary search tree.

use crate::map::TreeMap;
use crate::lexical::lexical_keys;
use crate::model::below;
use crate::model::bound_key;
use crate::model::drop_at;
use crate::model::extreme_index;
use crate::model::holds;
use crate::model::in_range;
use crate::model::index_of;
use crate::model::key_of;
use crate::model::neighbor;
use crate::model::pick;
use crate::model::entry_of;
use crate::model::value_of;
use crate::model::put;
use crate::model::sorted;
use crate::model::unref_value;
use crate::model::window;
use crate::model::Bound;
use crate::node::entries;
use crate::node::tree_ok;
use crate::node::Link;
use crate::order::KeyOrder;
use crate::order::QueryOrder;
use compare::Natural;
use std::cmp::Ordering;
use vstd::prelude::*;

verus! {

/// An ordered set based on a balanced binary search tree.
///
/// The set is viewed as the sequence of its items in ascending order, each
/// paired with the unit value, as the map underneath holds them. Where an
/// item is inserted that the order takes for equivalent to one in the set,
/// the set keeps the item it has.
pub struct TreeSet<T, C = Natural<T>> {
    map: TreeMap<T, (), C>,
}

impl<T, C: KeyOrder<T>> View for TreeSet<T, C> {
    type V = Seq<(T, ())>;

    closed spec fn view(&self) -> Seq<(T, ())> {
        self.map@
    }
}

impl<T: Ord> TreeSet<T, Natural<T>> where Natural<T>: KeyOrder<T> {
    /// An empty set ordered by the natural order of its items.
    pub fn new() -> (s: Self)
        ensures
            s.wf(),
            s@ == Seq::<(T, ())>::empty(),
    {
        TreeSet { map: TreeMap::new() }
    }
}

impl<T, C: KeyOrder<T>> TreeSet<T, C> {
    /// The tree is balanced, its items are sorted and counted.
    pub closed spec fn wf(&self) -> bool {
        self.map.wf()
    }

    /// The order that the set is sorted by.
    pub closed spec fn key_order(&self) -> C {
        self.map.key_order()
    }

    /// The set is what this tree and this length make: it holds the tree's
    /// items, and it is well formed if the tree is balanced and sorted and
    /// the length is the tree's.
    pub open spec fn made_of(&self, root: Link<T, ()>, len: usize) -> bool {
        &&& self@ == entries(root)
        &&& self.wf() <==> tree_ok(&self.key_order(), root, len)
    }

    /// The number of entries whose key is less than the key that `q` stands
    /// for.
    pub open spec fn place<Q>(&self, q: Q) -> int
        where
            C: QueryOrder<Q, T>,
    {
        below(&self.key_order(), self@, self.key_order().key(q))
    }

    /// Whether an entry holds the key that `q` stands for.
    pub open spec fn holds<Q>(&self, q: Q) -> bool
        where
            C: QueryOrder<Q, T>,
    {
        holds(&self.key_order(), self@, self.key_order().key(q))
    }

    /// The index of the entry that holds the key that `q` stands for.
    pub open spec fn found<Q>(&self, q: Q) -> Option<int>
        where
            C: QueryOrder<Q, T>,
    {
        index_of(&self.key_order(), self@, self.key_order().key(q))
    }

    /// The entry that holds the key that `q` stands for.
    pub open spec fn held<Q>(&self, q: Q) -> Option<(T, ())>
        where
            C: QueryOrder<Q, T>,
    {
        entry_of(&self.key_order(), self@, self.key_order().key(q))
    }

    /// The value of the key that `q` stands for.
    pub open spec fn value_of<Q>(&self, q: Q) -> Option<()>
        where
            C: QueryOrder<Q, T>,
    {
        value_of(&self.key_order(), self@, self.key_order().key(q))
    }

    /// The index of the neighbour of the key that `q` stands for: toward the
    /// minimum its predecessor, toward the maximum its successor.
    pub open spec fn beside<Q>(&self, q: Q, inclusive: bool, toward_min: bool) -> Option<int>
        where
            C: QueryOrder<Q, T>,
    {
        neighbor(&self.key_order(), self@, self.key_order().key(q), inclusive, toward_min)
    }

    /// The tree that holds the items.
    pub closed spec fn tree(&self) -> Link<T, ()> {
        self.map.tree()
    }

    /// The root of the tree.
    pub fn root(&self) -> (link: &Link<T, ()>)
        ensures
            *link == self.tree(),
    {
        self.map.root()
    }

    /// The items of a set are strictly increasing under its order, whatever
    /// was done to it.
    pub proof fn lemma_sorted(&self)
        requires
            self.wf(),
        ensures
            sorted(&self.key_order(), self@),
    {
        self.map.lemma_sorted();
    }

    /// The tree of a set obeys the balance rules at every node, and every
    /// node records the size of its subtree, whatever was done to the set.
    pub proof fn lemma_balanced(&self)
        requires
            self.wf(),
        ensures
            crate::node::balanced(self.tree()),
            crate::node::sized(self.tree()),
            entries(self.tree()) == self@,
            crate::node::count(self.tree()) == self@.len(),
    {
        self.map.lemma_balanced();
    }

    /// An empty set ordered by `order`.
    pub fn with_cmp(order: C) -> (s: Self)
        ensures
            s.wf(),
            s@ == Seq::<(T, ())>::empty(),
            s.key_order() == order,
    {
        TreeSet { map: TreeMap::with_cmp(order) }
    }

    /// Whether the set is empty.
    pub fn is_empty(&self) -> (b: bool)
        requires
            self.wf(),
        ensures
            b == (self@.len() == 0),
    {
        self.map.is_empty()
    }

    /// The number of items.
    pub fn len(&self) -> (n: usize)
        requires
            self.wf(),
        ensures
            n == self@.len(),
    {
        self.map.len()
    }

    /// The order that the set is sorted by.
    pub fn cmp(&self) -> (c: &C)
        ensures
            *c == self.key_order(),
    {
        self.map.cmp()
    }

    /// Removes all items.
    pub fn clear(&mut self)
        ensures
            final(self).wf(),
            final(self)@ == Seq::<(T, ())>::empty(),
            final(self).key_order() == old(self).key_order(),
    {
        self.map.clear();
    }

    /// Puts `item` into the set. Returns whether the set did not hold it.
    pub fn insert(&mut self, item: T) -> (added: bool)
        requires
            old(self).wf(),
            old(self).holds(item) || old(self)@.len() < usize::MAX,
        ensures
            final(self).wf(),
            final(self).key_order() == old(self).key_order(),
            added == !old(self).holds(item),
            final(self)@.len() == old(self)@.len() + if added {
                1int
            } else {
                0int
            },
            final(self)@ == put(&old(self).key_order(), old(self)@, item, ()),
    {
        self.map.insert(item, ()).is_none()
    }

    /// Removes the item that the set holds for `item`. Returns whether it
    /// held one.
    pub fn remove<Q>(&mut self, item: &Q) -> (removed: bool)
        where
            C: QueryOrder<Q, T>,
        requires
            old(self).wf(),
        ensures
            final(self).wf(),
            final(self).key_order() == old(self).key_order(),
            removed == old(self).holds(*item),
            final(self)@ == drop_at(old(self)@, old(self).found(*item)),
    {
        self.map.remove(item).is_some()
    }

    /// The entry of `item`: occupied if the set holds the item.
    pub fn entry(&mut self, item: T) -> (e: Entry<'_, T, C>)
        requires
            old(self).wf(),
        ensures
            e.wf(),
            e.entries() == old(self)@,
            e.key_order() == old(self).key_order(),
            e.index() == below(&old(self).key_order(), old(self)@, item),
            e is Occupied <==> holds(&old(self).key_order(), old(self)@, item),
            e matches Entry::Vacant(v) ==> v.0.key == item,
            final(self).key_order() == old(self).key_order(),
            match e {
                Entry::Occupied(o) => final(self).made_of(*final(o.0.path.root), *final(o.0.len)),
                Entry::Vacant(v) => final(self).made_of(*final(v.0.path.root), *final(v.0.len)),
            },
    {
        match self.map.entry(item) {
            crate::map::Entry::Occupied(e) => Entry::Occupied(OccupiedEntry(e)),
            crate::map::Entry::Vacant(e) => Entry::Vacant(VacantEntry(e)),
        }
    }

    /// Whether the set holds `item`.
    pub fn contains<Q>(&self, item: &Q) -> (b: bool)
        where
            C: QueryOrder<Q, T>,
        requires
            self.wf(),
        ensures
            b == self.holds(*item),
    {
        self.map.contains_key(item)
    }

    /// The number of items less than `item`: the index of the item that the
    /// set holds for `item`, where there is one.
    pub fn rank<Q>(&self, item: &Q) -> (n: usize)
        where
            C: QueryOrder<Q, T>,
        requires
            self.wf(),
        ensures
            n == self.place(*item),
    {
        self.map.rank(item)
    }

    /// The last item.
    pub fn max(&self) -> (r: Option<&T>)
        requires
            self.wf(),
        ensures
            unref_value(r) == key_of(pick(self@, extreme_index(self@, false))),
    {
        match self.map.max() {
            Some(e) => Some(e.0),
            None => None,
        }
    }

    /// Removes the last item and returns it.
    pub fn remove_max(&mut self) -> (removed: Option<T>)
        requires
            old(self).wf(),
        ensures
            final(self).wf(),
            final(self).key_order() == old(self).key_order(),
            removed == key_of(pick(old(self)@, extreme_index(old(self)@, false))),
            final(self)@ == drop_at(old(self)@, extreme_index(old(self)@, false)),
    {
        match self.map.remove_max() {
            Some(e) => Some(e.0),
            None => None,
        }
    }

    /// The last item, as an occupied entry.
    pub fn max_entry(&mut self) -> (e: Option<OccupiedEntry<'_, T, C>>)
        requires
            old(self).wf(),
        ensures
            final(self).key_order() == old(self).key_order(),
            match e {
                Some(o) => {
                    &&& extreme_index(old(self)@, false) == Some(o.0.path.index as int)
                    &&& o.0.wf()
                    &&& entries(*o.0.path.root) == old(self)@
                    &&& o.0.path.order@ == old(self).key_order()
                    &&& final(self).made_of(*final(o.0.path.root), *final(o.0.len))
                },
                None => {
                    &&& extreme_index(old(self)@, false).is_none()
                    &&& final(self)@ == old(self)@
                    &&& final(self).wf()
                },
            },
    {
        match self.map.max_entry() {
            Some(e) => Some(OccupiedEntry(e)),
            None => None,
        }
    }

    /// The first item.
    pub fn min(&self) -> (r: Option<&T>)
        requires
            self.wf(),
        ensures
            unref_value(r) == key_of(pick(self@, extreme_index(self@, true))),
    {
        match self.map.min() {
            Some(e) => Some(e.0),
            None => None,
        }
    }

    /// Removes the first item and returns it.
    pub fn remove_min(&mut self) -> (removed: Option<T>)
        requires
            old(self).wf(),
        ensures
            final(self).wf(),
            final(self).key_order() == old(self).key_order(),
            removed == key_of(pick(old(self)@, extreme_index(old(self)@, true))),
            final(self)@ == drop_at(old(self)@, extreme_index(old(self)@, true)),
    {
        match self.map.remove_min() {
            Some(e) => Some(e.0),
            None => None,
        }
    }

    /// The first item, as an occupied entry.
    pub fn min_entry(&mut self) -> (e: Option<OccupiedEntry<'_, T, C>>)
        requires
            old(self).wf(),
        ensures
            final(self).key_order() == old(self).key_order(),
            match e {
                Some(o) => {
                    &&& extreme_index(old(self)@, true) == Some(o.0.path.index as int)
                    &&& o.0.wf()
                    &&& entries(*o.0.path.root) == old(self)@
                    &&& o.0.path.order@ == old(self).key_order()
                    &&& final(self).made_of(*final(o.0.path.root), *final(o.0.len))
                },
                None => {
                    &&& extreme_index(old(self)@, true).is_none()
                    &&& final(self)@ == old(self)@
                    &&& final(self).wf()
                },
            },
    {
        match self.map.min_entry() {
            Some(e) => Some(OccupiedEntry(e)),
            None => None,
        }
    }

    /// The last item less than `item`; if `inclusive`, the item that the set
    /// holds for `item` where there is one.
    pub fn pred<Q>(&self, item: &Q, inclusive: bool) -> (r: Option<&T>)
        where
            C: QueryOrder<Q, T>,
        requires
            self.wf(),
        ensures
            unref_value(r) == key_of(pick(self@, self.beside(*item, inclusive, true))),
    {
        match self.map.pred(item, inclusive) {
            Some(e) => Some(e.0),
            None => None,
        }
    }

    /// Removes the predecessor of `item` and returns it.
    pub fn remove_pred<Q>(&mut self, item: &Q, inclusive: bool) -> (removed: Option<T>)
        where
            C: QueryOrder<Q, T>,
        requires
            old(self).wf(),
        ensures
            final(self).wf(),
            final(self).key_order() == old(self).key_order(),
            removed == key_of(pick(old(self)@, old(self).beside(*item, inclusive, true))),
            final(self)@ == drop_at(old(self)@, old(self).beside(*item, inclusive, true)),
    {
        match self.map.remove_pred(item, inclusive) {
            Some(e) => Some(e.0),
            None => None,
        }
    }

    /// The predecessor of `item`, as an occupied entry.
    pub fn pred_entry<Q>(&mut self, item: &Q, inclusive: bool) -> (e: Option<OccupiedEntry<'_, T, C>>)
        where
            C: QueryOrder<Q, T>,
        requires
            old(self).wf(),
        ensures
            final(self).key_order() == old(self).key_order(),
            match e {
                Some(o) => {
                    &&& old(self).beside(*item, inclusive, true) == Some(o.0.path.index as int)
                    &&& o.0.wf()
                    &&& entries(*o.0.path.root) == old(self)@
                    &&& o.0.path.order@ == old(self).key_order()
                    &&& final(self).made_of(*final(o.0.path.root), *final(o.0.len))
                },
                None => {
                    &&& old(self).beside(*item, inclusive, true).is_none()
                    &&& final(self)@ == old(self)@
                    &&& final(self).wf()
                },
            },
    {
        match self.map.pred_entry(item, inclusive) {
            Some(e) => Some(OccupiedEntry(e)),
            None => None,
        }
    }

    /// The first item greater than `item`; if `inclusive`, the item that the
    /// set holds for `item` where there is one.
    pub fn succ<Q>(&self, item: &Q, inclusive: bool) -> (r: Option<&T>)
        where
            C: QueryOrder<Q, T>,
        requires
            self.wf(),
        ensures
            unref_value(r) == key_of(pick(self@, self.beside(*item, inclusive, false))),
    {
        match self.map.succ(item, inclusive) {
            Some(e) => Some(e.0),
            None => None,
        }
    }

    /// Removes the successor of `item` and returns it.
    pub fn remove_succ<Q>(&mut self, item: &Q, inclusive: bool) -> (removed: Option<T>)
        where
            C: QueryOrder<Q, T>,
        requires
            old(self).wf(),
        ensures
            final(self).wf(),
            final(self).key_order() == old(self).key_order(),
            removed == key_of(pick(old(self)@, old(self).beside(*item, inclusive, false))),
            final(self)@ == drop_at(old(self)@, old(self).beside(*item, inclusive, false)),
    {
        match self.map.remove_succ(item, inclusive) {
            Some(e) => Some(e.0),
            None => None,
        }
    }

    /// The successor of `item`, as an occupied entry.
    pub fn succ_entry<Q>(&mut self, item: &Q, inclusive: bool) -> (e: Option<OccupiedEntry<'_, T, C>>)
        where
            C: QueryOrder<Q, T>,
        requires
            old(self).wf(),
        ensures
            final(self).key_order() == old(self).key_order(),
            match e {
                Some(o) => {
                    &&& old(self).beside(*item, inclusive, false) == Some(o.0.path.index as int)
                    &&& o.0.wf()
                    &&& entries(*o.0.path.root) == old(self)@
                    &&& o.0.path.order@ == old(self).key_order()
                    &&& final(self).made_of(*final(o.0.path.root), *final(o.0.len))
                },
                None => {
                    &&& old(self).beside(*item, inclusive, false).is_none()
                    &&& final(self)@ == old(self)@
                    &&& final(self).wf()
                },
            },
    {
        match self.map.succ_entry(item, inclusive) {
            Some(e) => Some(OccupiedEntry(e)),
            None => None,
        }
    }

    /// The item at `index` in ascending order.
    pub fn select(&self, index: usize) -> (r: Option<&T>)
        requires
            self.wf(),
        ensures
            unref_value(r) == key_of(pick(self@, in_range(self@, index as int))),
    {
        match self.map.select(index) {
            Some(e) => Some(e.0),
            None => None,
        }
    }

    /// Removes the item at `index` and returns it.
    pub fn remove_select(&mut self, index: usize) -> (removed: Option<T>)
        requires
            old(self).wf(),
        ensures
            final(self).wf(),
            final(self).key_order() == old(self).key_order(),
            removed == key_of(pick(old(self)@, in_range(old(self)@, index as int))),
            final(self)@ == drop_at(old(self)@, in_range(old(self)@, index as int)),
    {
        match self.map.remove_select(index) {
            Some(e) => Some(e.0),
            None => None,
        }
    }

    /// The item at `index`, as an occupied entry.
    pub fn select_entry(&mut self, index: usize) -> (e: Option<OccupiedEntry<'_, T, C>>)
        requires
            old(self).wf(),
        ensures
            final(self).key_order() == old(self).key_order(),
            match e {
                Some(o) => {
                    &&& in_range(old(self)@, index as int) == Some(o.0.path.index as int)
                    &&& o.0.wf()
                    &&& entries(*o.0.path.root) == old(self)@
                    &&& o.0.path.order@ == old(self).key_order()
                    &&& final(self).made_of(*final(o.0.path.root), *final(o.0.len))
                },
                None => {
                    &&& in_range(old(self)@, index as int).is_none()
                    &&& final(self)@ == old(self)@
                    &&& final(self).wf()
                },
            },
    {
        match self.map.select_entry(index) {
            Some(e) => Some(OccupiedEntry(e)),
            None => None,
        }
    }

    /// Whether the two sets are equal item by item: as long as each other,
    /// with items that this set's order takes for equivalent.
    pub fn equals(&self, other: &Self) -> (b: bool)
        requires
            self.wf(),
            other.wf(),
        ensures
            b == (lexical_keys(&self.key_order(), self@, other@) == Ordering::Equal),
    {
        match self.map.compare_keys(&other.map) {
            Ordering::Equal => true,
            Ordering::Less => false,
            Ordering::Greater => false,
        }
    }

    /// How the two sets compare item by item, by this set's order.
    pub fn compare_to(&self, other: &Self) -> (o: Ordering)
        requires
            self.wf(),
            other.wf(),
        ensures
            o == lexical_keys(&self.key_order(), self@, other@),
    {
        self.map.compare_keys(&other.map)
    }

    /// An iterator over the items in ascending order.
    pub fn iter(&self) -> (it: Iter<'_, T>)
        requires
            self.wf(),
        ensures
            it.wf(),
            it.remaining() == self@,
    {
        Iter(self.map.iter())
    }

    /// An iterator that takes the set's items and yields them in ascending
    /// order.
    pub fn into_iter(self) -> (it: IntoIter<T>)
        requires
            self.wf(),
        ensures
            it.wf(),
            it.remaining() == self@,
    {
        IntoIter(self.map.into_iter())
    }

    /// An iterator that takes the set's items and yields those within both
    /// bounds in ascending order.
    pub fn into_range<Lo, Hi>(self, min: Bound<&Lo>, max: Bound<&Hi>) -> (it: IntoRange<T>)
        where
            C: QueryOrder<Lo, T> + QueryOrder<Hi, T>,
        requires
            self.wf(),
        ensures
            it.wf(),
            it.remaining() == window(
                &self.key_order(),
                self@,
                bound_key::<Lo, T, C>(&self.key_order(), min),
                bound_key::<Hi, T, C>(&self.key_order(), max),
            ),
            it.bound() <= self@.len(),
    {
        IntoRange(self.map.into_range(min, max))
    }

    /// An iterator over the items within both bounds in ascending order.
    pub fn range<Lo, Hi>(&self, min: Bound<&Lo>, max: Bound<&Hi>) -> (it: Range<'_, T>)
        where
            C: QueryOrder<Lo, T> + QueryOrder<Hi, T>,
        requires
            self.wf(),
        ensures
            it.wf(),
            it.remaining() == window(
                &self.key_order(),
                self@,
                bound_key::<Lo, T, C>(&self.key_order(), min),
                bound_key::<Hi, T, C>(&self.key_order(), max),
            ),
            it.bound() <= self@.len(),
    {
        Range(self.map.range(min, max))
    }
}

/// An iterator that owns the items of a set and yields them in ascending
/// order, from both ends.
pub struct IntoIter<T>(crate::map::IntoIter<T, ()>);

impl<T> IntoIter<T> {
    /// The items still to come, in ascending order, each with the unit
    /// value.
    pub closed spec fn remaining(self) -> Seq<(T, ())> {
        self.0.remaining()
    }

    /// The iterator is in order.
    pub closed spec fn wf(self) -> bool {
        self.0.wf()
    }

    /// The first of the items still to come.
    pub fn next(&mut self) -> (r: Option<T>)
        requires
            old(self).wf(),
        ensures
            final(self).wf(),
            match r {
                Some(e) => {
                    &&& old(self).remaining().len() > 0
                    &&& e == old(self).remaining().first().0
                    &&& final(self).remaining() == old(self).remaining().drop_first()
                },
                None => old(self).remaining().len() == 0 && final(self).remaining() == old(
                    self,
                ).remaining(),
            },
    {
        match self.0.next() {
            Some(e) => Some(e.0),
            None => None,
        }
    }

    /// The last of the items still to come.
    pub fn next_back(&mut self) -> (r: Option<T>)
        requires
            old(self).wf(),
        ensures
            final(self).wf(),
            match r {
                Some(e) => {
                    &&& old(self).remaining().len() > 0
                    &&& e == old(self).remaining().last().0
                    &&& final(self).remaining() == old(self).remaining().drop_last()
                },
                None => old(self).remaining().len() == 0 && final(self).remaining() == old(
                    self,
                ).remaining(),
            },
    {
        match self.0.next_back() {
            Some(e) => Some(e.0),
            None => None,
        }
    }

    /// All items still to come, in ascending order.
    pub fn collect(self) -> (v: Vec<T>)
        requires
            self.wf(),
        ensures
            v@.len() == self.remaining().len(),
            forall|i: int| 0 <= i < v@.len() ==> #[trigger] v@[i] == self.remaining()[i].0,
    {
        let mut it = self;
        let ghost s0 = it.remaining();
        let mut v: Vec<T> = Vec::new();
        proof {
            assert(s0.subrange(0, s0.len() as int) =~= s0);
        }
        loop
            invariant
                it.wf(),
                s0 == self.remaining(),
                v@.len() <= s0.len(),
                it.remaining() == s0.subrange(v@.len() as int, s0.len() as int),
                forall|i: int| 0 <= i < v@.len() ==> #[trigger] v@[i] == s0[i].0,
            decreases it.remaining().len(),
        {
            match it.next() {
                None => {
                    return v;
                },
                Some(item) => {
                    proof {
                        assert(s0.subrange(v@.len() as int, s0.len() as int).drop_first()
                            =~= s0.subrange(v@.len() as int + 1, s0.len() as int));
                    }
                    v.push(item);
                },
            }
        }
    }

    /// All items still to come, in descending order.
    pub fn collect_rev(self) -> (v: Vec<T>)
        requires
            self.wf(),
        ensures
            v@.len() == self.remaining().len(),
            forall|i: int|
                0 <= i < v@.len() ==> #[trigger] v@[i] == 
                    self.remaining()[self.remaining().len() - 1 - i].0,
    {
        let mut it = self;
        let ghost s0 = it.remaining();
        let mut v: Vec<T> = Vec::new();
        proof {
            assert(s0.subrange(0, s0.len() as int) =~= s0);
        }
        loop
            invariant
                it.wf(),
                s0 == self.remaining(),
                v@.len() <= s0.len(),
                it.remaining() == s0.subrange(0, s0.len() - v@.len()),
                forall|i: int| 0 <= i < v@.len() ==> #[trigger] v@[i] == s0[s0.len() - 1 - i].0,
            decreases it.remaining().len(),
        {
            match it.next_back() {
                None => {
                    return v;
                },
                Some(item) => {
                    proof {
                        assert(s0.subrange(0, s0.len() - v@.len()).drop_last() =~= s0.subrange(
                            0,
                            s0.len() - v@.len() - 1,
                        ));
                    }
                    v.push(item);
                },
            }
        }
    }

    /// The number of items still to come.
    pub fn size_hint(&self) -> (r: (usize, Option<usize>))
        requires
            self.wf(),
        ensures
            r.0 == self.remaining().len(),
            r.1 == Some(r.0),
    {
        self.0.size_hint()
    }

    /// The number of items still to come.
    pub fn len(&self) -> (n: usize)
        requires
            self.wf(),
        ensures
            n == self.remaining().len(),
    {
        self.0.len()
    }
}

/// An iterator over the items of a set in ascending order, from both ends.
pub struct Iter<'a, T>(crate::map::Iter<'a, T, ()>);

impl<'a, T> Iter<'a, T> {
    /// The items still to come, in ascending order, each with the unit
    /// value.
    pub closed spec fn remaining(self) -> Seq<(T, ())> {
        self.0.remaining()
    }

    /// The iterator is in order.
    pub closed spec fn wf(self) -> bool {
        self.0.wf()
    }

    /// The first of the items still to come.
    pub fn next(&mut self) -> (r: Option<&'a T>)
        requires
            old(self).wf(),
        ensures
            final(self).wf(),
            match r {
                Some(e) => {
                    &&& old(self).remaining().len() > 0
                    &&& *e == old(self).remaining().first().0
                    &&& final(self).remaining() == old(self).remaining().drop_first()
                },
                None => old(self).remaining().len() == 0 && final(self).remaining() == old(
                    self,
                ).remaining(),
            },
    {
        match self.0.next() {
            Some(e) => Some(e.0),
            None => None,
        }
    }

    /// The last of the items still to come.
    pub fn next_back(&mut self) -> (r: Option<&'a T>)
        requires
            old(self).wf(),
        ensures
            final(self).wf(),
            match r {
                Some(e) => {
                    &&& old(self).remaining().len() > 0
                    &&& *e == old(self).remaining().last().0
                    &&& final(self).remaining() == old(self).remaining().drop_last()
                },
                None => old(self).remaining().len() == 0 && final(self).remaining() == old(
                    self,
                ).remaining(),
            },
    {
        match self.0.next_back() {
            Some(e) => Some(e.0),
            None => None,
        }
    }

    /// All items still to come, in ascending order.
    pub fn collect(self) -> (v: Vec<&'a T>)
        requires
            self.wf(),
        ensures
            v@.len() == self.remaining().len(),
            forall|i: int| 0 <= i < v@.len() ==> *(#[trigger] v@[i]) == self.remaining()[i].0,
    {
        let mut it = self;
        let ghost s0 = it.remaining();
        let mut v: Vec<&'a T> = Vec::new();
        proof {
            assert(s0.subrange(0, s0.len() as int) =~= s0);
        }
        loop
            invariant
                it.wf(),
                s0 == self.remaining(),
                v@.len() <= s0.len(),
                it.remaining() == s0.subrange(v@.len() as int, s0.len() as int),
                forall|i: int| 0 <= i < v@.len() ==> *(#[trigger] v@[i]) == s0[i].0,
            decreases it.remaining().len(),
        {
            match it.next() {
                None => {
                    return v;
                },
                Some(item) => {
                    proof {
                        assert(s0.subrange(v@.len() as int, s0.len() as int).drop_first()
                            =~= s0.subrange(v@.len() as int + 1, s0.len() as int));
                    }
                    v.push(item);
                },
            }
        }
    }

    /// All items still to come, in descending order.
    pub fn collect_rev(self) -> (v: Vec<&'a T>)
        requires
            self.wf(),
        ensures
            v@.len() == self.remaining().len(),
            forall|i: int|
                0 <= i < v@.len() ==> *(#[trigger] v@[i]) == 
                    self.remaining()[self.remaining().len() - 1 - i].0,
    {
        let mut it = self;
        let ghost s0 = it.remaining();
        let mut v: Vec<&'a T> = Vec::new();
        proof {
            assert(s0.subrange(0, s0.len() as int) =~= s0);
        }
        loop
            invariant
                it.wf(),
                s0 == self.remaining(),
                v@.len() <= s0.len(),
                it.remaining() == s0.subrange(0, s0.len() - v@.len()),
                forall|i: int| 0 <= i < v@.len() ==> *(#[trigger] v@[i]) == s0[s0.len() - 1 - i].0,
            decreases it.remaining().len(),
        {
            match it.next_back() {
                None => {
                    return v;
                },
                Some(item) => {
                    proof {
                        assert(s0.subrange(0, s0.len() - v@.len()).drop_last() =~= s0.subrange(
                            0,
                            s0.len() - v@.len() - 1,
                        ));
                    }
                    v.push(item);
                },
            }
        }
    }

    /// The number of items still to come.
    pub fn size_hint(&self) -> (r: (usize, Option<usize>))
        requires
            self.wf(),
        ensures
            r.0 == self.remaining().len(),
            r.1 == Some(r.0),
    {
        self.0.size_hint()
    }

    /// The number of items still to come.
    pub fn len(&self) -> (n: usize)
        requires
            self.wf(),
        ensures
            n == self.remaining().len(),
    {
        self.0.len()
    }
}

/// An iterator that owns the items of a set and yields those within two
/// bounds in ascending order, from both ends.
pub struct IntoRange<T>(crate::map::IntoRange<T, ()>);

impl<T> IntoRange<T> {
    /// The items still to come, in ascending order, each with the unit
    /// value.
    pub closed spec fn remaining(self) -> Seq<(T, ())> {
        self.0.remaining()
    }

    /// The bound on the number of items still to come.
    pub closed spec fn bound(self) -> nat {
        self.0.bound()
    }

    /// The number of visits on the iterator's stack.
    pub closed spec fn depth(self) -> nat {
        self.0.depth()
    }

    /// At least one of the items is to come for each visit on the stack, and
    /// no more than the bound says.
    pub open spec fn wf(self) -> bool {
        self.depth() <= self.remaining().len() <= self.bound()
    }

    /// The first of the items still to come.
    pub fn next(&mut self) -> (r: Option<T>)
        requires
            old(self).wf(),
        ensures
            final(self).wf(),
            match r {
                Some(e) => {
                    &&& old(self).remaining().len() > 0
                    &&& e == old(self).remaining().first().0
                    &&& final(self).remaining() == old(self).remaining().drop_first()
                    &&& final(self).bound() == old(self).bound() - 1
                },
                None => {
                    &&& old(self).remaining().len() == 0
                    &&& final(self).remaining() == old(self).remaining()
                    &&& final(self).bound() == old(self).bound()
                },
            },
    {
        match self.0.next() {
            Some(e) => Some(e.0),
            None => None,
        }
    }

    /// The last of the items still to come.
    pub fn next_back(&mut self) -> (r: Option<T>)
        requires
            old(self).wf(),
        ensures
            final(self).wf(),
            match r {
                Some(e) => {
                    &&& old(self).remaining().len() > 0
                    &&& e == old(self).remaining().last().0
                    &&& final(self).remaining() == old(self).remaining().drop_last()
                    &&& final(self).bound() == old(self).bound() - 1
                },
                None => {
                    &&& old(self).remaining().len() == 0
                    &&& final(self).remaining() == old(self).remaining()
                    &&& final(self).bound() == old(self).bound()
                },
            },
    {
        match self.0.next_back() {
            Some(e) => Some(e.0),
            None => None,
        }
    }

    /// All items still to come, in ascending order.
    pub fn collect(self) -> (v: Vec<T>)
        requires
            self.wf(),
        ensures
            v@.len() == self.remaining().len(),
            forall|i: int| 0 <= i < v@.len() ==> #[trigger] v@[i] == self.remaining()[i].0,
    {
        let mut it = self;
        let ghost s0 = it.remaining();
        let mut v: Vec<T> = Vec::new();
        proof {
            assert(s0.subrange(0, s0.len() as int) =~= s0);
        }
        loop
            invariant
                it.wf(),
                s0 == self.remaining(),
                v@.len() <= s0.len(),
                it.remaining() == s0.subrange(v@.len() as int, s0.len() as int),
                forall|i: int| 0 <= i < v@.len() ==> #[trigger] v@[i] == s0[i].0,
            decreases it.remaining().len(),
        {
            match it.next() {
                None => {
                    return v;
                },
                Some(item) => {
                    proof {
                        assert(s0.subrange(v@.len() as int, s0.len() as int).drop_first()
                            =~= s0.subrange(v@.len() as int + 1, s0.len() as int));
                    }
                    v.push(item);
                },
            }
        }
    }

    /// All items still to come, in descending order.
    pub fn collect_rev(self) -> (v: Vec<T>)
        requires
            self.wf(),
        ensures
            v@.len() == self.remaining().len(),
            forall|i: int|
                0 <= i < v@.len() ==> #[trigger] v@[i] == 
                    self.remaining()[self.remaining().len() - 1 - i].0,
    {
        let mut it = self;
        let ghost s0 = it.remaining();
        let mut v: Vec<T> = Vec::new();
        proof {
            assert(s0.subrange(0, s0.len() as int) =~= s0);
        }
        loop
            invariant
                it.wf(),
                s0 == self.remaining(),
                v@.len() <= s0.len(),
                it.remaining() == s0.subrange(0, s0.len() - v@.len()),
                forall|i: int| 0 <= i < v@.len() ==> #[trigger] v@[i] == s0[s0.len() - 1 - i].0,
            decreases it.remaining().len(),
        {
            match it.next_back() {
                None => {
                    return v;
                },
                Some(item) => {
                    proof {
                        assert(s0.subrange(0, s0.len() - v@.len()).drop_last() =~= s0.subrange(
                            0,
                            s0.len() - v@.len() - 1,
                        ));
                    }
                    v.push(item);
                },
            }
        }
    }

    /// A lower and an upper bound on the number of items still to come: the
    /// number of visits on the stack, and the iterator's bound.
    pub fn size_hint(&self) -> (r: (usize, Option<usize>))
        ensures
            r.0 == self.depth(),
            r.1 matches Some(n) && n == self.bound(),
    {
        self.0.size_hint()
    }
}

/// An iterator over the items of a set within two bounds in ascending order,
/// from both ends.
pub struct Range<'a, T>(crate::map::Range<'a, T, ()>);

impl<'a, T> Range<'a, T> {
    /// The items still to come, in ascending order, each with the unit
    /// value.
    pub closed spec fn remaining(self) -> Seq<(T, ())> {
        self.0.remaining()
    }

    /// The bound on the number of items still to come.
    pub closed spec fn bound(self) -> nat {
        self.0.bound()
    }

    /// The number of visits on the iterator's stack.
    pub closed spec fn depth(self) -> nat {
        self.0.depth()
    }

    /// At least one of the items is to come for each visit on the stack, and
    /// no more than the bound says.
    pub open spec fn wf(self) -> bool {
        self.depth() <= self.remaining().len() <= self.bound()
    }

    /// The first of the items still to come.
    pub fn next(&mut self) -> (r: Option<&'a T>)
        requires
            old(self).wf(),
        ensures
            final(self).wf(),
            match r {
                Some(e) => {
                    &&& old(self).remaining().len() > 0
                    &&& *e == old(self).remaining().first().0
                    &&& final(self).remaining() == old(self).remaining().drop_first()
                    &&& final(self).bound() == old(self).bound() - 1
                },
                None => {
                    &&& old(self).remaining().len() == 0
                    &&& final(self).remaining() == old(self).remaining()
                    &&& final(self).bound() == old(self).bound()
                },
            },
    {
        match self.0.next() {
            Some(e) => Some(e.0),
            None => None,
        }
    }

    /// The last of the items still to come.
    pub fn next_back(&mut self) -> (r: Option<&'a T>)
        requires
            old(self).wf(),
        ensures
            final(self).wf(),
            match r {
                Some(e) => {
                    &&& old(self).remaining().len() > 0
                    &&& *e == old(self).remaining().last().0
                    &&& final(self).remaining() == old(self).remaining().drop_last()
                    &&& final(self).bound() == old(self).bound() - 1
                },
                None => {
                    &&& old(self).remaining().len() == 0
                    &&& final(self).remaining() == old(self).remaining()
                    &&& final(self).bound() == old(self).bound()
                },
            },
    {
        match self.0.next_back() {
            Some(e) => Some(e.0),
            None => None,
        }
    }

    /// All items still to come, in ascending order.
    pub fn collect(self) -> (v: Vec<&'a T>)
        requires
            self.wf(),
        ensures
            v@.len() == self.remaining().len(),
            forall|i: int| 0 <= i < v@.len() ==> *(#[trigger] v@[i]) == self.remaining()[i].0,
    {
        let mut it = self;
        let ghost s0 = it.remaining();
        let mut v: Vec<&'a T> = Vec::new();
        proof {
            assert(s0.subrange(0, s0.len() as int) =~= s0);
        }
        loop
            invariant
                it.wf(),
                s0 == self.remaining(),
                v@.len() <= s0.len(),
                it.remaining() == s0.subrange(v@.len() as int, s0.len() as int),
                forall|i: int| 0 <= i < v@.len() ==> *(#[trigger] v@[i]) == s0[i].0,
            decreases it.remaining().len(),
        {
            match it.next() {
                None => {
                    return v;
                },
                Some(item) => {
                    proof {
                        assert(s0.subrange(v@.len() as int, s0.len() as int).drop_first()
                            =~= s0.subrange(v@.len() as int + 1, s0.len() as int));
                    }
                    v.push(item);
                },
            }
        }
    }

    /// All items still to come, in descending order.
    pub fn collect_rev(self) -> (v: Vec<&'a T>)
        requires
            self.wf(),
        ensures
            v@.len() == self.remaining().len(),
            forall|i: int|
                0 <= i < v@.len() ==> *(#[trigger] v@[i]) == 
                    self.remaining()[self.remaining().len() - 1 - i].0,
    {
        let mut it = self;
        let ghost s0 = it.remaining();
        let mut v: Vec<&'a T> = Vec::new();
        proof {
            assert(s0.subrange(0, s0.len() as int) =~= s0);
        }
        loop
            invariant
                it.wf(),
                s0 == self.remaining(),
                v@.len() <= s0.len(),
                it.remaining() == s0.subrange(0, s0.len() - v@.len()),
                forall|i: int| 0 <= i < v@.len() ==> *(#[trigger] v@[i]) == s0[s0.len() - 1 - i].0,
            decreases it.remaining().len(),
        {
            match it.next_back() {
                None => {
                    return v;
                },
                Some(item) => {
                    proof {
                        assert(s0.subrange(0, s0.len() - v@.len()).drop_last() =~= s0.subrange(
                            0,
                            s0.len() - v@.len() - 1,
                        ));
                    }
                    v.push(item);
                },
            }
        }
    }

    /// A lower and an upper bound on the number of items still to come: the
    /// number of visits on the stack, and the iterator's bound.
    pub fn size_hint(&self) -> (r: (usize, Option<usize>))
        ensures
            r.0 == self.depth(),
            r.1 matches Some(n) && n == self.bound(),
    {
        self.0.size_hint()
    }
}

/// The place of an item in a set: the entry that holds it, or the gap where
/// it would stand.
pub enum Entry<'a, T, C> {
    /// The set holds the item.
    Occupied(OccupiedEntry<'a, T, C>),
    /// The set does not hold the item.
    Vacant(VacantEntry<'a, T, C>),
}

/// An entry of a set that holds an item.
pub struct OccupiedEntry<'a, T, C>(pub crate::node::entry::OccupiedEntry<'a, T, (), C>);

/// The place in a set where an item that it does not hold would stand.
pub struct VacantEntry<'a, T, C>(pub crate::node::entry::VacantEntry<'a, T, (), C>);

impl<'a, T, C: KeyOrder<T>> Entry<'a, T, C> {
    /// The entry is well formed.
    pub open spec fn wf(self) -> bool {
        match self {
            Entry::Occupied(o) => o.0.wf(),
            Entry::Vacant(v) => v.0.wf(),
        }
    }

    /// The items of the set that the entry is of.
    pub open spec fn entries(self) -> Seq<(T, ())> {
        match self {
            Entry::Occupied(o) => entries(*o.0.path.root),
            Entry::Vacant(v) => entries(*v.0.path.root),
        }
    }

    /// The order of the set that the entry is of.
    pub open spec fn key_order(self) -> C {
        match self {
            Entry::Occupied(o) => o.0.path.order@,
            Entry::Vacant(v) => v.0.path.order@,
        }
    }

    /// The index at which the item stands or would stand.
    pub open spec fn index(self) -> int {
        match self {
            Entry::Occupied(o) => o.0.path.index as int,
            Entry::Vacant(v) => v.0.path.index as int,
        }
    }
}

impl<'a, T, C: KeyOrder<T>> OccupiedEntry<'a, T, C> {
    /// The entry's item.
    pub fn get(&self) -> (item: &T)
        requires
            self.0.wf(),
        ensures
            *item == self.0.view().0,
    {
        self.0.key()
    }

    /// Removes the entry from the set and returns its item.
    pub fn remove(self) -> (item: T)
        requires
            self.0.wf(),
        ensures
            item == self.0.view().0,
            tree_ok(&self.0.path.order@, *final(self.0.path.root), *final(self.0.len)),
            entries(*final(self.0.path.root)) == entries(*old(self.0.path.root)).remove(
                self.0.path.index as int,
            ),
    {
        self.0.remove().0
    }
}

impl<'a, T, C: KeyOrder<T>> VacantEntry<'a, T, C> {
    /// Puts the entry's item into the set.
    pub fn insert(self)
        requires
            self.0.wf(),
            *old(self.0.len) < usize::MAX,
        ensures
            tree_ok(&self.0.path.order@, *final(self.0.path.root), *final(self.0.len)),
            entries(*final(self.0.path.root)) == entries(*old(self.0.path.root)).insert(
                self.0.path.index as int,
                (self.0.key, ()),
            ),
    {
        let _ = self.0.insert(());
    }
}

} // verus!
