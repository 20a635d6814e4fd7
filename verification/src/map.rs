//! An ordered map based on a balanced binary search tree.

use crate::model::at_index;
use crate::lexical::lexical;
use crate::lexical::lexical_keys;
use crate::lexical::lexical_partial;
use crate::lexical::same;
use crate::model::below;
use crate::model::bound_key;
use crate::model::window;
use crate::model::Bound;
use crate::model::extreme_index;
use crate::model::in_range;
use crate::model::neighbor;
use crate::model::unref;
use crate::model::drop_at;
use crate::model::entry_of;
use crate::model::holds;
use crate::model::index_of;
use crate::model::lemma_below_bounds;
use crate::model::pick;
use crate::model::lemma_same_keys_sorted;
use crate::model::put;
use crate::model::same_keys;
use crate::model::sorted;
use crate::model::unref_value;
use crate::model::value_of;
use crate::node::builder::Get;
use crate::node::builder::GetMut;
use crate::node::builder::PathBuilder;
use crate::node::closest;
use crate::node::extreme;
use crate::node::Max;
use crate::node::Min;
use crate::node::balanced;
use crate::node::entries;
use crate::node::entry::OccupiedEntry;
use crate::node::entry::VacantEntry;
use crate::node::find;
use crate::node::iter::subtree;
use crate::node::iter::IterMut;
use crate::node::iter::MarkedNode;
use crate::node::Node;
use crate::node::get;
use crate::node::lemma_count;
use crate::node::lemma_with_value;
use crate::node::tree_ok;
use crate::node::value_at_mut;
use crate::node::with_value;
use crate::node::Link;
use crate::order::natural_order;
use crate::order::KeyOrder;
use crate::order::QueryOrder;
use compare::Natural;
use std::cmp::Ordering;
use vstd::prelude::*;
use vstd::std_specs::cmp::OrdSpec;
use vstd::std_specs::cmp::PartialEqSpec;
use vstd::std_specs::cmp::PartialOrdSpec;

verus! {

/// An ordered map based on a balanced binary search tree.
///
/// The map is viewed as the sequence of its entries in ascending key order.
/// Where a key is inserted that the map holds already, under a key that the
/// order takes for equivalent, the map keeps the key it has and takes the new
/// value.
pub struct TreeMap<K, V, C = Natural<K>> {
    root: Link<K, V>,
    len: usize,
    order: C,
}

impl<K, V, C: KeyOrder<K>> View for TreeMap<K, V, C> {
    type V = Seq<(K, V)>;

    closed spec fn view(&self) -> Seq<(K, V)> {
        entries(self.root)
    }
}

impl<K: Ord, V> TreeMap<K, V, Natural<K>> where Natural<K>: KeyOrder<K> {
    /// An empty map ordered by the natural order of its keys.
    pub fn new() -> (m: Self)
        ensures
            m.wf(),
            m@ == Seq::<(K, V)>::empty(),
    {
        TreeMap::with_cmp(natural_order())
    }
}

impl<K, V, C: KeyOrder<K>> TreeMap<K, V, C> {
    /// The tree is balanced, its entries are sorted and counted.
    pub closed spec fn wf(&self) -> bool {
        tree_ok(&self.order, self.root, self.len)
    }

    /// The order that the map is sorted by.
    pub closed spec fn key_order(&self) -> C {
        self.order
    }

    /// The map is what this tree and this length make: it holds the tree's
    /// entries, and it is well formed if the tree is balanced and sorted and
    /// the length is the tree's.
    pub open spec fn made_of(&self, root: Link<K, V>, len: usize) -> bool {
        &&& self@ == entries(root)
        &&& self.wf() <==> tree_ok(&self.key_order(), root, len)
    }

    /// The number of entries whose key is less than the key that `q` stands
    /// for.
    pub open spec fn place<Q>(&self, q: Q) -> int
        where
            C: QueryOrder<Q, K>,
    {
        below(&self.key_order(), self@, self.key_order().key(q))
    }

    /// Whether an entry holds the key that `q` stands for.
    pub open spec fn holds<Q>(&self, q: Q) -> bool
        where
            C: QueryOrder<Q, K>,
    {
        holds(&self.key_order(), self@, self.key_order().key(q))
    }

    /// The index of the entry that holds the key that `q` stands for.
    pub open spec fn found<Q>(&self, q: Q) -> Option<int>
        where
            C: QueryOrder<Q, K>,
    {
        index_of(&self.key_order(), self@, self.key_order().key(q))
    }

    /// The entry that holds the key that `q` stands for.
    pub open spec fn held<Q>(&self, q: Q) -> Option<(K, V)>
        where
            C: QueryOrder<Q, K>,
    {
        entry_of(&self.key_order(), self@, self.key_order().key(q))
    }

    /// The value of the key that `q` stands for.
    pub open spec fn value_of<Q>(&self, q: Q) -> Option<V>
        where
            C: QueryOrder<Q, K>,
    {
        value_of(&self.key_order(), self@, self.key_order().key(q))
    }

    /// The index of the neighbour of the key that `q` stands for: toward the
    /// minimum its predecessor, toward the maximum its successor.
    pub open spec fn beside<Q>(&self, q: Q, inclusive: bool, toward_min: bool) -> Option<int>
        where
            C: QueryOrder<Q, K>,
    {
        neighbor(&self.key_order(), self@, self.key_order().key(q), inclusive, toward_min)
    }

    /// An empty map ordered by `order`.
    pub fn with_cmp(order: C) -> (m: Self)
        ensures
            m.wf(),
            m@ == Seq::<(K, V)>::empty(),
            m.key_order() == order,
    {
        TreeMap { root: None, len: 0, order }
    }

    /// Whether the map is empty.
    pub fn is_empty(&self) -> (b: bool)
        requires
            self.wf(),
        ensures
            b == (self@.len() == 0),
    {
        proof {
            lemma_count(self.root);
        }
        self.root.is_none()
    }

    /// The number of entries.
    pub fn len(&self) -> (n: usize)
        requires
            self.wf(),
        ensures
            n == self@.len(),
    {
        self.len
    }

    /// The order that the map is sorted by.
    pub fn cmp(&self) -> (c: &C)
        ensures
            *c == self.key_order(),
    {
        &self.order
    }

    /// Removes all entries.
    pub fn clear(&mut self)
        ensures
            final(self).wf(),
            final(self)@ == Seq::<(K, V)>::empty(),
            final(self).key_order() == old(self).key_order(),
    {
        self.root = None;
        self.len = 0;
    }

    /// Gives `key` the value `value` and returns the value it had.
    pub fn insert(&mut self, key: K, value: V) -> (old_value: Option<V>)
        requires
            old(self).wf(),
            old(self).holds(key) || old(self)@.len() < usize::MAX,
        ensures
            final(self).wf(),
            final(self).key_order() == old(self).key_order(),
            final(self)@ == put(&old(self).key_order(), old(self)@, key, value),
            final(self)@.len() == old(self)@.len() + if old(self).holds(key) {
                0int
            } else {
                1int
            },
            old_value == value_of(&old(self).key_order(), old(self)@, key),
    {
        proof {
            lemma_below_bounds(&self.order, entries(self.root), key);
        }
        let old_value = crate::node::insert(&mut self.root, &self.order, key, value);
        if old_value.is_none() {
            self.len = self.len + 1;
        }
        old_value
    }

    /// Removes the entry that holds `key` and returns it.
    pub fn remove<Q>(&mut self, key: &Q) -> (removed: Option<(K, V)>)
        where
            C: QueryOrder<Q, K>,
        requires
            old(self).wf(),
        ensures
            final(self).wf(),
            final(self).key_order() == old(self).key_order(),
            removed == old(self).held(*key),
            final(self)@ == drop_at(old(self)@, old(self).found(*key)),
    {
        let (index, found) = find(&self.root, &self.order, key);
        proof {
            lemma_below_bounds(&self.order, entries(self.root), self.order.key(*key));
        }
        PathBuilder::build(&mut self.root, &self.order, index, found).remove(&mut self.len)
    }

    /// The entry of `key`: occupied if the map holds the key.
    pub fn entry(&mut self, key: K) -> (e: Entry<'_, K, V, C>)
        requires
            old(self).wf(),
        ensures
            e.wf(),
            e.entries() == old(self)@,
            e.key_order() == old(self).key_order(),
            e.index() == below(&old(self).key_order(), old(self)@, key),
            e is Occupied <==> holds(&old(self).key_order(), old(self)@, key),
            e matches Entry::Vacant(v) ==> v.key == key,
            final(self).key_order() == old(self).key_order(),
            match e {
                Entry::Occupied(o) => final(self).made_of(*final(o.path.root), *final(o.len)),
                Entry::Vacant(v) => final(self).made_of(*final(v.path.root), *final(v.len)),
            },
    {
        let (index, found) = find(&self.root, &self.order, &key);
        proof {
            lemma_below_bounds(&self.order, entries(self.root), key);
        }
        PathBuilder::build(&mut self.root, &self.order, index, found).into_entry(&mut self.len, key)
    }

    /// Whether the map holds `key`.
    pub fn contains_key<Q>(&self, key: &Q) -> (b: bool)
        where
            C: QueryOrder<Q, K>,
        requires
            self.wf(),
        ensures
            b == self.holds(*key),
    {
        get(&self.root, &self.order, key).is_some()
    }

    /// The value of `key`.
    pub fn get<Q>(&self, key: &Q) -> (v: Option<&V>)
        where
            C: QueryOrder<Q, K>,
        requires
            self.wf(),
        ensures
            unref_value(v) == self.value_of(*key),
    {
        match get(&self.root, &self.order, key) {
            Some(e) => Some(e.1),
            None => None,
        }
    }

    /// The value of `key`, for writing.
    pub fn get_mut<Q>(&mut self, key: &Q) -> (v: Option<&mut V>)
        where
            C: QueryOrder<Q, K>,
        requires
            old(self).wf(),
        ensures
            final(self).wf(),
            final(self).key_order() == old(self).key_order(),
            match v {
                Some(v) => {
                    let at = old(self).place(*key);
                    &&& old(self).holds(*key)
                    &&& *v == old(self)@[at].1
                    &&& final(self)@ == old(self)@.update(at, (old(self)@[at].0, *final(v)))
                    &&& final(self).tree() == with_value(old(self).tree(), at, *final(v))
                },
                None => {
                    &&& !old(self).holds(*key)
                    &&& final(self)@ == old(self)@
                    &&& final(self).tree() == old(self).tree()
                },
            },
    {
        let (index, found) = find(&self.root, &self.order, key);
        proof {
            lemma_below_bounds(&self.order, entries(self.root), self.order.key(*key));
        }
        if found {
            let ghost t = self.root;
            let r = value_at_mut(&mut self.root, index);
            proof {
                lemma_with_value(t, index as int, *final(r.1));
                crate::model::lemma_update_sorted(
                    &self.order,
                    entries(t),
                    index as int,
                    *final(r.1),
                );
            }
            Some(r.1)
        } else {
            None
        }
    }
}

impl<K, V, C: KeyOrder<K>> TreeMap<K, V, C> {
    /// The entry at the index that a walk has found.
    fn get_spot(&self, spot: Option<usize>) -> (r: Option<(&K, &V)>)
        requires
            self.wf(),
            spot matches Some(i) ==> i < self@.len(),
        ensures
            unref(r) == pick(self@, at_index(spot)),
    {
        Get::build(&self.root, spot)
    }

    /// The key at the index that a walk has found, and its value for
    /// writing.
    fn get_mut_spot(&mut self, spot: Option<usize>) -> (r: Option<(&K, &mut V)>)
        requires
            old(self).wf(),
            spot matches Some(i) ==> i < old(self)@.len(),
        ensures
            final(self).wf(),
            final(self).key_order() == old(self).key_order(),
            match r {
                Some((k, v)) => {
                    &&& at_index(spot) matches Some(i)
                    &&& (*k, *v) == old(self)@[i]
                    &&& final(self)@ == old(self)@.update(i, (old(self)@[i].0, *final(v)))
                    &&& final(self).tree() == with_value(old(self).tree(), i, *final(v))
                },
                None => {
                    &&& spot.is_none()
                    &&& final(self)@ == old(self)@
                    &&& final(self).tree() == old(self).tree()
                },
            },
    {
        let ghost t = self.root;
        match GetMut::build(&mut self.root, spot) {
            Some((k, v)) => {
                proof {
                    let i = spot.unwrap() as int;
                    lemma_with_value(t, i, *final(v));
                    crate::model::lemma_update_sorted(&self.order, entries(t), i, *final(v));
                }
                Some((k, v))
            },
            None => None,
        }
    }

    /// Removes the entry at the index that a walk has found.
    fn remove_spot(&mut self, spot: Option<usize>) -> (removed: Option<(K, V)>)
        requires
            old(self).wf(),
            spot matches Some(i) ==> i < old(self)@.len(),
        ensures
            final(self).wf(),
            final(self).key_order() == old(self).key_order(),
            removed == pick(old(self)@, at_index(spot)),
            final(self)@ == drop_at(old(self)@, at_index(spot)),
    {
        PathBuilder::build_found(&mut self.root, &self.order, spot).remove(&mut self.len)
    }

    /// The occupied entry at the index that a walk has found.
    fn entry_spot(&mut self, spot: Option<usize>) -> (e: Option<OccupiedEntry<'_, K, V, C>>)
        requires
            old(self).wf(),
            spot matches Some(i) ==> i < old(self)@.len(),
        ensures
            final(self).key_order() == old(self).key_order(),
            match e {
                Some(o) => {
                    &&& at_index(spot) == Some(o.path.index as int)
                    &&& o.wf()
                    &&& entries(*o.path.root) == old(self)@
                    &&& o.path.order@ == old(self).key_order()
                    &&& final(self).made_of(*final(o.path.root), *final(o.len))
                },
                None => {
                    &&& spot.is_none()
                    &&& final(self)@ == old(self)@
                    &&& final(self).wf()
                },
            },
    {
        PathBuilder::build_found(&mut self.root, &self.order, spot).into_occupied_entry(
            &mut self.len,
        )
    }

    /// The index `index`, if the map has an entry there.
    fn spot_of(&self, index: usize) -> (spot: Option<usize>)
        requires
            self.wf(),
        ensures
            at_index(spot) == in_range(self@, index as int),
    {
        if index < self.len {
            Some(index)
        } else {
            None
        }
    }

    /// The last entry.
    pub fn max(&self) -> (r: Option<(&K, &V)>)
        requires
            self.wf(),
        ensures
            unref(r) == pick(self@, extreme_index(self@, false)),
    {
        let spot = extreme::<Max, K, V>(&self.root);
        self.get_spot(spot)
    }

    /// The last entry, its value for writing.
    pub fn max_mut(&mut self) -> (r: Option<(&K, &mut V)>)
        requires
            old(self).wf(),
        ensures
            final(self).wf(),
            final(self).key_order() == old(self).key_order(),
            match r {
                Some((k, v)) => {
                    &&& extreme_index(old(self)@, false) matches Some(i)
                    &&& (*k, *v) == old(self)@[i]
                    &&& final(self)@ == old(self)@.update(i, (old(self)@[i].0, *final(v)))
                    &&& final(self).tree() == with_value(old(self).tree(), i, *final(v))
                },
                None => {
                    &&& extreme_index(old(self)@, false).is_none()
                    &&& final(self)@ == old(self)@
                    &&& final(self).tree() == old(self).tree()
                },
            },
    {
        let spot = extreme::<Max, K, V>(&self.root);
        self.get_mut_spot(spot)
    }

    /// Removes the last entry and returns it.
    pub fn remove_max(&mut self) -> (removed: Option<(K, V)>)
        requires
            old(self).wf(),
        ensures
            final(self).wf(),
            final(self).key_order() == old(self).key_order(),
            removed == pick(old(self)@, extreme_index(old(self)@, false)),
            final(self)@ == drop_at(old(self)@, extreme_index(old(self)@, false)),
    {
        let spot = extreme::<Max, K, V>(&self.root);
        self.remove_spot(spot)
    }

    /// The last entry, as an occupied entry.
    pub fn max_entry(&mut self) -> (e: Option<OccupiedEntry<'_, K, V, C>>)
        requires
            old(self).wf(),
        ensures
            final(self).key_order() == old(self).key_order(),
            match e {
                Some(o) => {
                    &&& extreme_index(old(self)@, false) == Some(o.path.index as int)
                    &&& o.wf()
                    &&& entries(*o.path.root) == old(self)@
                    &&& o.path.order@ == old(self).key_order()
                    &&& final(self).made_of(*final(o.path.root), *final(o.len))
                },
                None => {
                    &&& extreme_index(old(self)@, false).is_none()
                    &&& final(self)@ == old(self)@
                    &&& final(self).wf()
                },
            },
    {
        let spot = extreme::<Max, K, V>(&self.root);
        self.entry_spot(spot)
    }

    /// The first entry.
    pub fn min(&self) -> (r: Option<(&K, &V)>)
        requires
            self.wf(),
        ensures
            unref(r) == pick(self@, extreme_index(self@, true)),
    {
        let spot = extreme::<Min, K, V>(&self.root);
        self.get_spot(spot)
    }

    /// The first entry, its value for writing.
    pub fn min_mut(&mut self) -> (r: Option<(&K, &mut V)>)
        requires
            old(self).wf(),
        ensures
            final(self).wf(),
            final(self).key_order() == old(self).key_order(),
            match r {
                Some((k, v)) => {
                    &&& extreme_index(old(self)@, true) matches Some(i)
                    &&& (*k, *v) == old(self)@[i]
                    &&& final(self)@ == old(self)@.update(i, (old(self)@[i].0, *final(v)))
                    &&& final(self).tree() == with_value(old(self).tree(), i, *final(v))
                },
                None => {
                    &&& extreme_index(old(self)@, true).is_none()
                    &&& final(self)@ == old(self)@
                    &&& final(self).tree() == old(self).tree()
                },
            },
    {
        let spot = extreme::<Min, K, V>(&self.root);
        self.get_mut_spot(spot)
    }

    /// Removes the first entry and returns it.
    pub fn remove_min(&mut self) -> (removed: Option<(K, V)>)
        requires
            old(self).wf(),
        ensures
            final(self).wf(),
            final(self).key_order() == old(self).key_order(),
            removed == pick(old(self)@, extreme_index(old(self)@, true)),
            final(self)@ == drop_at(old(self)@, extreme_index(old(self)@, true)),
    {
        let spot = extreme::<Min, K, V>(&self.root);
        self.remove_spot(spot)
    }

    /// The first entry, as an occupied entry.
    pub fn min_entry(&mut self) -> (e: Option<OccupiedEntry<'_, K, V, C>>)
        requires
            old(self).wf(),
        ensures
            final(self).key_order() == old(self).key_order(),
            match e {
                Some(o) => {
                    &&& extreme_index(old(self)@, true) == Some(o.path.index as int)
                    &&& o.wf()
                    &&& entries(*o.path.root) == old(self)@
                    &&& o.path.order@ == old(self).key_order()
                    &&& final(self).made_of(*final(o.path.root), *final(o.len))
                },
                None => {
                    &&& extreme_index(old(self)@, true).is_none()
                    &&& final(self)@ == old(self)@
                    &&& final(self).wf()
                },
            },
    {
        let spot = extreme::<Min, K, V>(&self.root);
        self.entry_spot(spot)
    }

    /// The last entry whose key is less than `key`; if `inclusive`, the entry that
    /// holds `key` where there is one.
    pub fn pred<Q>(&self, key: &Q, inclusive: bool) -> (r: Option<(&K, &V)>)
        where
            C: QueryOrder<Q, K>,
        requires
            self.wf(),
        ensures
            unref(r) == pick(self@, self.beside(*key, inclusive, true)),
    {
        proof {
            lemma_below_bounds(&self.order, entries(self.root), self.order.key(*key));
        }
        let spot = closest::<Min, Q, K, V, C>(&self.root, &self.order, key, inclusive);
        self.get_spot(spot)
    }

    /// The predecessor of `key`, its value for writing.
    pub fn pred_mut<Q>(&mut self, key: &Q, inclusive: bool) -> (r: Option<(&K, &mut V)>)
        where
            C: QueryOrder<Q, K>,
        requires
            old(self).wf(),
        ensures
            final(self).wf(),
            final(self).key_order() == old(self).key_order(),
            match r {
                Some((k, v)) => {
                    &&& old(self).beside(*key, inclusive, true) matches Some(i)
                    &&& (*k, *v) == old(self)@[i]
                    &&& final(self)@ == old(self)@.update(i, (old(self)@[i].0, *final(v)))
                    &&& final(self).tree() == with_value(old(self).tree(), i, *final(v))
                },
                None => {
                    &&& old(self).beside(*key, inclusive, true).is_none()
                    &&& final(self)@ == old(self)@
                    &&& final(self).tree() == old(self).tree()
                },
            },
    {
        proof {
            lemma_below_bounds(&self.order, entries(self.root), self.order.key(*key));
        }
        let spot = closest::<Min, Q, K, V, C>(&self.root, &self.order, key, inclusive);
        self.get_mut_spot(spot)
    }

    /// Removes the predecessor of `key` and returns it.
    pub fn remove_pred<Q>(&mut self, key: &Q, inclusive: bool) -> (removed: Option<(K, V)>)
        where
            C: QueryOrder<Q, K>,
        requires
            old(self).wf(),
        ensures
            final(self).wf(),
            final(self).key_order() == old(self).key_order(),
            removed == pick(old(self)@, old(self).beside(*key, inclusive, true)),
            final(self)@ == drop_at(old(self)@, old(self).beside(*key, inclusive, true)),
    {
        proof {
            lemma_below_bounds(&self.order, entries(self.root), self.order.key(*key));
        }
        let spot = closest::<Min, Q, K, V, C>(&self.root, &self.order, key, inclusive);
        self.remove_spot(spot)
    }

    /// The predecessor of `key`, as an occupied entry.
    pub fn pred_entry<Q>(&mut self, key: &Q, inclusive: bool) -> (e: Option<OccupiedEntry<'_, K, V, C>>)
        where
            C: QueryOrder<Q, K>,
        requires
            old(self).wf(),
        ensures
            final(self).key_order() == old(self).key_order(),
            match e {
                Some(o) => {
                    &&& old(self).beside(*key, inclusive, true) == Some(o.path.index as int)
                    &&& o.wf()
                    &&& entries(*o.path.root) == old(self)@
                    &&& o.path.order@ == old(self).key_order()
                    &&& final(self).made_of(*final(o.path.root), *final(o.len))
                },
                None => {
                    &&& old(self).beside(*key, inclusive, true).is_none()
                    &&& final(self)@ == old(self)@
                    &&& final(self).wf()
                },
            },
    {
        proof {
            lemma_below_bounds(&self.order, entries(self.root), self.order.key(*key));
        }
        let spot = closest::<Min, Q, K, V, C>(&self.root, &self.order, key, inclusive);
        self.entry_spot(spot)
    }

    /// The first entry whose key is greater than `key`; if `inclusive`, the entry
    /// that holds `key` where there is one.
    pub fn succ<Q>(&self, key: &Q, inclusive: bool) -> (r: Option<(&K, &V)>)
        where
            C: QueryOrder<Q, K>,
        requires
            self.wf(),
        ensures
            unref(r) == pick(self@, self.beside(*key, inclusive, false)),
    {
        let spot = closest::<Max, Q, K, V, C>(&self.root, &self.order, key, inclusive);
        self.get_spot(spot)
    }

    /// The successor of `key`, its value for writing.
    pub fn succ_mut<Q>(&mut self, key: &Q, inclusive: bool) -> (r: Option<(&K, &mut V)>)
        where
            C: QueryOrder<Q, K>,
        requires
            old(self).wf(),
        ensures
            final(self).wf(),
            final(self).key_order() == old(self).key_order(),
            match r {
                Some((k, v)) => {
                    &&& old(self).beside(*key, inclusive, false) matches Some(i)
                    &&& (*k, *v) == old(self)@[i]
                    &&& final(self)@ == old(self)@.update(i, (old(self)@[i].0, *final(v)))
                    &&& final(self).tree() == with_value(old(self).tree(), i, *final(v))
                },
                None => {
                    &&& old(self).beside(*key, inclusive, false).is_none()
                    &&& final(self)@ == old(self)@
                    &&& final(self).tree() == old(self).tree()
                },
            },
    {
        let spot = closest::<Max, Q, K, V, C>(&self.root, &self.order, key, inclusive);
        self.get_mut_spot(spot)
    }

    /// Removes the successor of `key` and returns it.
    pub fn remove_succ<Q>(&mut self, key: &Q, inclusive: bool) -> (removed: Option<(K, V)>)
        where
            C: QueryOrder<Q, K>,
        requires
            old(self).wf(),
        ensures
            final(self).wf(),
            final(self).key_order() == old(self).key_order(),
            removed == pick(old(self)@, old(self).beside(*key, inclusive, false)),
            final(self)@ == drop_at(old(self)@, old(self).beside(*key, inclusive, false)),
    {
        let spot = closest::<Max, Q, K, V, C>(&self.root, &self.order, key, inclusive);
        self.remove_spot(spot)
    }

    /// The successor of `key`, as an occupied entry.
    pub fn succ_entry<Q>(&mut self, key: &Q, inclusive: bool) -> (e: Option<OccupiedEntry<'_, K, V, C>>)
        where
            C: QueryOrder<Q, K>,
        requires
            old(self).wf(),
        ensures
            final(self).key_order() == old(self).key_order(),
            match e {
                Some(o) => {
                    &&& old(self).beside(*key, inclusive, false) == Some(o.path.index as int)
                    &&& o.wf()
                    &&& entries(*o.path.root) == old(self)@
                    &&& o.path.order@ == old(self).key_order()
                    &&& final(self).made_of(*final(o.path.root), *final(o.len))
                },
                None => {
                    &&& old(self).beside(*key, inclusive, false).is_none()
                    &&& final(self)@ == old(self)@
                    &&& final(self).wf()
                },
            },
    {
        let spot = closest::<Max, Q, K, V, C>(&self.root, &self.order, key, inclusive);
        self.entry_spot(spot)
    }

    /// The entry at `index` in ascending order.
    pub fn select(&self, index: usize) -> (r: Option<(&K, &V)>)
        requires
            self.wf(),
        ensures
            unref(r) == pick(self@, in_range(self@, index as int)),
    {
        let spot = self.spot_of(index);
        self.get_spot(spot)
    }

    /// The entry at `index`, its value for writing.
    pub fn select_mut(&mut self, index: usize) -> (r: Option<(&K, &mut V)>)
        requires
            old(self).wf(),
        ensures
            final(self).wf(),
            final(self).key_order() == old(self).key_order(),
            match r {
                Some((k, v)) => {
                    &&& in_range(old(self)@, index as int) matches Some(i)
                    &&& (*k, *v) == old(self)@[i]
                    &&& final(self)@ == old(self)@.update(i, (old(self)@[i].0, *final(v)))
                    &&& final(self).tree() == with_value(old(self).tree(), i, *final(v))
                },
                None => {
                    &&& in_range(old(self)@, index as int).is_none()
                    &&& final(self)@ == old(self)@
                    &&& final(self).tree() == old(self).tree()
                },
            },
    {
        let spot = self.spot_of(index);
        self.get_mut_spot(spot)
    }

    /// Removes the entry at `index` and returns it.
    pub fn remove_select(&mut self, index: usize) -> (removed: Option<(K, V)>)
        requires
            old(self).wf(),
        ensures
            final(self).wf(),
            final(self).key_order() == old(self).key_order(),
            removed == pick(old(self)@, in_range(old(self)@, index as int)),
            final(self)@ == drop_at(old(self)@, in_range(old(self)@, index as int)),
    {
        let spot = self.spot_of(index);
        self.remove_spot(spot)
    }

    /// The entry at `index`, as an occupied entry.
    pub fn select_entry(&mut self, index: usize) -> (e: Option<OccupiedEntry<'_, K, V, C>>)
        requires
            old(self).wf(),
        ensures
            final(self).key_order() == old(self).key_order(),
            match e {
                Some(o) => {
                    &&& in_range(old(self)@, index as int) == Some(o.path.index as int)
                    &&& o.wf()
                    &&& entries(*o.path.root) == old(self)@
                    &&& o.path.order@ == old(self).key_order()
                    &&& final(self).made_of(*final(o.path.root), *final(o.len))
                },
                None => {
                    &&& in_range(old(self)@, index as int).is_none()
                    &&& final(self)@ == old(self)@
                    &&& final(self).wf()
                },
            },
    {
        let spot = self.spot_of(index);
        self.entry_spot(spot)
    }

    /// The number of entries whose key is less than `key`: the index of the
    /// entry that holds `key`, where there is one.
    pub fn rank<Q>(&self, key: &Q) -> (n: usize)
        where
            C: QueryOrder<Q, K>,
        requires
            self.wf(),
        ensures
            n == self.place(*key),
    {
        find(&self.root, &self.order, key).0
    }

    /// The tree that holds the entries.
    pub closed spec fn tree(&self) -> Link<K, V> {
        self.root
    }

    /// The root of the tree.
    pub fn root(&self) -> (link: &Link<K, V>)
        ensures
            *link == self.tree(),
    {
        &self.root
    }

    /// The number of entries met on a walk over all of them in order: always
    /// the length.
    pub fn count(&self) -> (n: usize)
        requires
            self.wf(),
        ensures
            n == self@.len(),
    {
        self.iter().collect().len()
    }

    /// The keys of a map are strictly increasing under its order, whatever
    /// was done to it.
    pub proof fn lemma_sorted(&self)
        requires
            self.wf(),
        ensures
            sorted(&self.key_order(), self@),
    {
    }

    /// The tree of a map obeys the balance rules at every node, and every
    /// node records the size of its subtree, whatever was done to the map.
    pub proof fn lemma_balanced(&self)
        requires
            self.wf(),
        ensures
            balanced(self.tree()),
            crate::node::sized(self.tree()),
            entries(self.tree()) == self@,
            crate::node::count(self.tree()) == self@.len(),
    {
        crate::node::lemma_balanced_sized(self.root);
        lemma_count(self.root);
    }
}

/// An iterator that owns the entries of a map and yields them in ascending
/// order, from both ends.
pub struct IntoIter<K, V>(crate::node::iter::Iter<Box<Node<K, V>>>);

impl<K, V> IntoIter<K, V> {
    /// The entries still to come, in ascending order.
    pub closed spec fn remaining(self) -> Seq<(K, V)> {
        self.0.remaining()
    }

    /// The iterator is in order.
    pub closed spec fn wf(self) -> bool {
        self.0.wf() && self.0.bound() == self.0.remaining().len()
    }

    /// The first of the entries still to come.
    pub fn next(&mut self) -> (r: Option<(K, V)>)
        requires
            old(self).wf(),
        ensures
            final(self).wf(),
            match r {
                Some(e) => {
                    &&& old(self).remaining().len() > 0
                    &&& e == old(self).remaining().first()
                    &&& final(self).remaining() == old(self).remaining().drop_first()
                },
                None => old(self).remaining().len() == 0 && final(self).remaining() == old(
                    self,
                ).remaining(),
            },
    {
        self.0.next()
    }

    /// The last of the entries still to come.
    pub fn next_back(&mut self) -> (r: Option<(K, V)>)
        requires
            old(self).wf(),
        ensures
            final(self).wf(),
            match r {
                Some(e) => {
                    &&& old(self).remaining().len() > 0
                    &&& e == old(self).remaining().last()
                    &&& final(self).remaining() == old(self).remaining().drop_last()
                },
                None => old(self).remaining().len() == 0 && final(self).remaining() == old(
                    self,
                ).remaining(),
            },
    {
        self.0.next_back()
    }

    /// All entries still to come, in ascending order.
    pub fn collect(self) -> (v: Vec<(K, V)>)
        requires
            self.wf(),
        ensures
            v@.len() == self.remaining().len(),
            forall|i: int| 0 <= i < v@.len() ==> #[trigger] v@[i] == self.remaining()[i],
    {
        self.0.collect()
    }

    /// All entries still to come, in descending order.
    pub fn collect_rev(self) -> (v: Vec<(K, V)>)
        requires
            self.wf(),
        ensures
            v@.len() == self.remaining().len(),
            forall|i: int|
                0 <= i < v@.len() ==> #[trigger] v@[i] == 
                    self.remaining()[self.remaining().len() - 1 - i],
    {
        self.0.collect_rev()
    }

    /// The number of entries still to come.
    pub fn size_hint(&self) -> (r: (usize, Option<usize>))
        requires
            self.wf(),
        ensures
            r.0 == self.remaining().len(),
            r.1 == Some(r.0),
    {
        self.0.size_hint()
    }

    /// The number of entries still to come.
    pub fn len(&self) -> (n: usize)
        requires
            self.wf(),
        ensures
            n == self.remaining().len(),
    {
        self.0.size_hint().0
    }
}

/// An iterator over the entries of a map in ascending order, from both ends.
pub struct Iter<'a, K, V>(crate::node::iter::Iter<MarkedNode<'a, K, V>>);

impl<'a, K, V> Iter<'a, K, V> {
    /// The entries still to come, in ascending order.
    pub closed spec fn remaining(self) -> Seq<(K, V)> {
        self.0.remaining()
    }

    /// The iterator is in order.
    pub closed spec fn wf(self) -> bool {
        self.0.wf() && self.0.bound() == self.0.remaining().len()
    }

    /// The first of the entries still to come.
    pub fn next(&mut self) -> (r: Option<(&'a K, &'a V)>)
        requires
            old(self).wf(),
        ensures
            final(self).wf(),
            match r {
                Some(e) => {
                    &&& old(self).remaining().len() > 0
                    &&& (*e.0, *e.1) == old(self).remaining().first()
                    &&& final(self).remaining() == old(self).remaining().drop_first()
                },
                None => old(self).remaining().len() == 0 && final(self).remaining() == old(
                    self,
                ).remaining(),
            },
    {
        self.0.next()
    }

    /// The last of the entries still to come.
    pub fn next_back(&mut self) -> (r: Option<(&'a K, &'a V)>)
        requires
            old(self).wf(),
        ensures
            final(self).wf(),
            match r {
                Some(e) => {
                    &&& old(self).remaining().len() > 0
                    &&& (*e.0, *e.1) == old(self).remaining().last()
                    &&& final(self).remaining() == old(self).remaining().drop_last()
                },
                None => old(self).remaining().len() == 0 && final(self).remaining() == old(
                    self,
                ).remaining(),
            },
    {
        self.0.next_back()
    }

    /// All entries still to come, in ascending order.
    pub fn collect(self) -> (v: Vec<(&'a K, &'a V)>)
        requires
            self.wf(),
        ensures
            v@.len() == self.remaining().len(),
            forall|i: int| 0 <= i < v@.len() ==> (*(#[trigger] v@[i]).0, *v@[i].1) == self.remaining()[i],
    {
        self.0.collect()
    }

    /// All entries still to come, in descending order.
    pub fn collect_rev(self) -> (v: Vec<(&'a K, &'a V)>)
        requires
            self.wf(),
        ensures
            v@.len() == self.remaining().len(),
            forall|i: int|
                0 <= i < v@.len() ==> (*(#[trigger] v@[i]).0, *v@[i].1) == 
                    self.remaining()[self.remaining().len() - 1 - i],
    {
        self.0.collect_rev()
    }

    /// The number of entries still to come.
    pub fn size_hint(&self) -> (r: (usize, Option<usize>))
        requires
            self.wf(),
        ensures
            r.0 == self.remaining().len(),
            r.1 == Some(r.0),
    {
        self.0.size_hint()
    }

    /// The number of entries still to come.
    pub fn len(&self) -> (n: usize)
        requires
            self.wf(),
        ensures
            n == self.remaining().len(),
    {
        self.0.size_hint().0
    }
}

/// An iterator that owns the entries of a map and yields those within two
/// bounds in ascending order, from both ends.
pub struct IntoRange<K, V>(crate::node::iter::Range<Box<Node<K, V>>>);

impl<K, V> IntoRange<K, V> {
    /// The entries still to come, in ascending order.
    pub closed spec fn remaining(self) -> Seq<(K, V)> {
        self.0.remaining()
    }

    /// The bound on the number of entries still to come.
    pub closed spec fn bound(self) -> nat {
        self.0.bound()
    }

    /// The number of visits on the iterator's stack.
    pub closed spec fn depth(self) -> nat {
        self.0.depth()
    }

    /// At least one of the entries is to come for each visit on the stack, and
    /// no more than the bound says.
    pub open spec fn wf(self) -> bool {
        self.depth() <= self.remaining().len() <= self.bound()
    }

    /// The first of the entries still to come.
    pub fn next(&mut self) -> (r: Option<(K, V)>)
        requires
            old(self).wf(),
        ensures
            final(self).wf(),
            match r {
                Some(e) => {
                    &&& old(self).remaining().len() > 0
                    &&& e == old(self).remaining().first()
                    &&& final(self).remaining() == old(self).remaining().drop_first()
                    &&& final(self).bound() == old(self).bound() - 1
                },
                None => {
                    &&& old(self).remaining().len() == 0
                    &&& final(self).remaining() == old(self).remaining()
                    &&& final(self).bound() == old(self).bound()
                },
            },
    {
        self.0.next()
    }

    /// The last of the entries still to come.
    pub fn next_back(&mut self) -> (r: Option<(K, V)>)
        requires
            old(self).wf(),
        ensures
            final(self).wf(),
            match r {
                Some(e) => {
                    &&& old(self).remaining().len() > 0
                    &&& e == old(self).remaining().last()
                    &&& final(self).remaining() == old(self).remaining().drop_last()
                    &&& final(self).bound() == old(self).bound() - 1
                },
                None => {
                    &&& old(self).remaining().len() == 0
                    &&& final(self).remaining() == old(self).remaining()
                    &&& final(self).bound() == old(self).bound()
                },
            },
    {
        self.0.next_back()
    }

    /// All entries still to come, in ascending order.
    pub fn collect(self) -> (v: Vec<(K, V)>)
        requires
            self.wf(),
        ensures
            v@.len() == self.remaining().len(),
            forall|i: int| 0 <= i < v@.len() ==> #[trigger] v@[i] == self.remaining()[i],
    {
        self.0.collect()
    }

    /// All entries still to come, in descending order.
    pub fn collect_rev(self) -> (v: Vec<(K, V)>)
        requires
            self.wf(),
        ensures
            v@.len() == self.remaining().len(),
            forall|i: int|
                0 <= i < v@.len() ==> #[trigger] v@[i] == 
                    self.remaining()[self.remaining().len() - 1 - i],
    {
        self.0.collect_rev()
    }

    /// A lower and an upper bound on the number of entries still to come: the
    /// number of visits on the stack, and the iterator's bound.
    pub fn size_hint(&self) -> (r: (usize, Option<usize>))
        ensures
            r.0 == self.depth(),
            r.1 matches Some(n) && n == self.bound(),
    {
        self.0.size_hint()
    }
}

/// An iterator over the entries of a map within two bounds in ascending
/// order, from both ends.
pub struct Range<'a, K, V>(crate::node::iter::Range<MarkedNode<'a, K, V>>);

impl<'a, K, V> Range<'a, K, V> {
    /// The entries still to come, in ascending order.
    pub closed spec fn remaining(self) -> Seq<(K, V)> {
        self.0.remaining()
    }

    /// The bound on the number of entries still to come.
    pub closed spec fn bound(self) -> nat {
        self.0.bound()
    }

    /// The number of visits on the iterator's stack.
    pub closed spec fn depth(self) -> nat {
        self.0.depth()
    }

    /// At least one of the entries is to come for each visit on the stack, and
    /// no more than the bound says.
    pub open spec fn wf(self) -> bool {
        self.depth() <= self.remaining().len() <= self.bound()
    }

    /// The first of the entries still to come.
    pub fn next(&mut self) -> (r: Option<(&'a K, &'a V)>)
        requires
            old(self).wf(),
        ensures
            final(self).wf(),
            match r {
                Some(e) => {
                    &&& old(self).remaining().len() > 0
                    &&& (*e.0, *e.1) == old(self).remaining().first()
                    &&& final(self).remaining() == old(self).remaining().drop_first()
                    &&& final(self).bound() == old(self).bound() - 1
                },
                None => {
                    &&& old(self).remaining().len() == 0
                    &&& final(self).remaining() == old(self).remaining()
                    &&& final(self).bound() == old(self).bound()
                },
            },
    {
        self.0.next()
    }

    /// The last of the entries still to come.
    pub fn next_back(&mut self) -> (r: Option<(&'a K, &'a V)>)
        requires
            old(self).wf(),
        ensures
            final(self).wf(),
            match r {
                Some(e) => {
                    &&& old(self).remaining().len() > 0
                    &&& (*e.0, *e.1) == old(self).remaining().last()
                    &&& final(self).remaining() == old(self).remaining().drop_last()
                    &&& final(self).bound() == old(self).bound() - 1
                },
                None => {
                    &&& old(self).remaining().len() == 0
                    &&& final(self).remaining() == old(self).remaining()
                    &&& final(self).bound() == old(self).bound()
                },
            },
    {
        self.0.next_back()
    }

    /// All entries still to come, in ascending order.
    pub fn collect(self) -> (v: Vec<(&'a K, &'a V)>)
        requires
            self.wf(),
        ensures
            v@.len() == self.remaining().len(),
            forall|i: int| 0 <= i < v@.len() ==> (*(#[trigger] v@[i]).0, *v@[i].1) == self.remaining()[i],
    {
        self.0.collect()
    }

    /// All entries still to come, in descending order.
    pub fn collect_rev(self) -> (v: Vec<(&'a K, &'a V)>)
        requires
            self.wf(),
        ensures
            v@.len() == self.remaining().len(),
            forall|i: int|
                0 <= i < v@.len() ==> (*(#[trigger] v@[i]).0, *v@[i].1) == 
                    self.remaining()[self.remaining().len() - 1 - i],
    {
        self.0.collect_rev()
    }

    /// A lower and an upper bound on the number of entries still to come: the
    /// number of visits on the stack, and the iterator's bound.
    pub fn size_hint(&self) -> (r: (usize, Option<usize>))
        ensures
            r.0 == self.depth(),
            r.1 matches Some(n) && n == self.bound(),
    {
        self.0.size_hint()
    }
}

/// An iterator over the entries of a map within two bounds in ascending
/// order, from both ends, which hands out each value for writing.
pub struct RangeMut<'a, K, V>(pub IterMut<'a, K, V>);

impl<'a, K, V> RangeMut<'a, K, V> {
    /// The entries still to come, in ascending order.
    pub open spec fn remaining(self) -> Seq<(K, V)> {
        self.0.remaining()
    }

    /// The iterator is in order.
    pub open spec fn wf(self) -> bool {
        self.0.wf()
    }

    /// The first of the entries still to come.
    pub fn next(&mut self) -> (r: Option<(&K, &mut V)>)
        requires
            old(self).wf(),
        ensures
            final(self).wf(),
            final(self).0.end() == old(self).0.end(),
            *final(final(self).0.root) == *final(old(self).0.root),
            match r {
                Some((k, v)) => {
                    &&& old(self).remaining().len() > 0
                    &&& (*k, *v) == old(self).remaining().first()
                    &&& final(self).0.start() == old(self).0.start() + 1
                    &&& final(self).0.all() == old(self).0.all().update(
                        old(self).0.start(),
                        (*k, *final(v)),
                    )
                    &&& final(self).0.tree() == with_value(
                        old(self).0.tree(),
                        old(self).0.start(),
                        *final(v),
                    )
                },
                None => {
                    &&& old(self).remaining().len() == 0
                    &&& final(self).0.start() == old(self).0.start()
                    &&& final(self).0.tree() == old(self).0.tree()
                },
            },
    {
        self.0.next()
    }

    /// The last of the entries still to come.
    pub fn next_back(&mut self) -> (r: Option<(&K, &mut V)>)
        requires
            old(self).wf(),
        ensures
            final(self).wf(),
            final(self).0.start() == old(self).0.start(),
            *final(final(self).0.root) == *final(old(self).0.root),
            match r {
                Some((k, v)) => {
                    &&& old(self).remaining().len() > 0
                    &&& (*k, *v) == old(self).remaining().last()
                    &&& final(self).0.end() == old(self).0.end() - 1
                    &&& final(self).0.all() == old(self).0.all().update(
                        old(self).0.end() - 1,
                        (*k, *final(v)),
                    )
                    &&& final(self).0.tree() == with_value(
                        old(self).0.tree(),
                        old(self).0.end() - 1,
                        *final(v),
                    )
                },
                None => {
                    &&& old(self).remaining().len() == 0
                    &&& final(self).0.end() == old(self).0.end()
                    &&& final(self).0.tree() == old(self).0.tree()
                },
            },
    {
        self.0.next_back()
    }

    /// The number of entries still to come.
    pub fn size_hint(&self) -> (r: (usize, Option<usize>))
        requires
            self.wf(),
        ensures
            r.0 == self.remaining().len(),
            r.1 == Some(r.0),
    {
        self.0.range_size_hint()
    }
}

impl<K, V, C: KeyOrder<K>> TreeMap<K, V, C> {
    /// An iterator that takes the map's entries and yields them in
    /// ascending order.
    pub fn into_iter(self) -> (it: IntoIter<K, V>)
        requires
            self.wf(),
        ensures
            it.wf(),
            it.remaining() == self@,
    {
        proof {
            assert(subtree(self.root) == self.root);
        }
        IntoIter(crate::node::iter::Iter::new(self.root, self.len))
    }

    /// An iterator over the map's entries in ascending order.
    pub fn iter(&self) -> (it: Iter<'_, K, V>)
        requires
            self.wf(),
        ensures
            it.wf(),
            it.remaining() == self@,
    {
        let root = MarkedNode::root(&self.root);
        proof {
            assert(subtree(root) == self.root);
        }
        Iter(crate::node::iter::Iter::new(root, self.len))
    }

    /// An iterator over the map's entries in ascending order, which hands
    /// out each value for writing.
    pub fn iter_mut(&mut self) -> (it: IterMut<'_, K, V>)
        requires
            old(self).wf(),
        ensures
            it.wf(),
            it.all() == old(self)@,
            it.remaining() == old(self)@,
            it.start() == 0,
            it.end() == old(self)@.len(),
            final(self).key_order() == old(self).key_order(),
            final(self)@ == entries(*final(it.root)),
            balanced(*final(it.root)) && same_keys(entries(*final(it.root)), old(self)@)
                ==> final(self).wf(),
    {
        proof {
            let order = self.order;
            let before = self@;
            assert forall|t: Link<K, V>| balanced(t) && same_keys(entries(t), before) implies sorted(
                &order,
                #[trigger] entries(t),
            ) by {
                lemma_same_keys_sorted(&order, before, entries(t));
            }
        }
        IterMut::new(&mut self.root, self.len)
    }

    /// An iterator that takes the map's entries and yields those within
    /// both bounds in ascending order.
    pub fn into_range<Lo, Hi>(self, min: Bound<&Lo>, max: Bound<&Hi>) -> (it: IntoRange<K, V>)
        where
            C: QueryOrder<Lo, K> + QueryOrder<Hi, K>,
        requires
            self.wf(),
        ensures
            it.wf(),
            it.remaining() == window(
                &self.key_order(),
                self@,
                bound_key::<Lo, K, C>(&self.key_order(), min),
                bound_key::<Hi, K, C>(&self.key_order(), max),
            ),
            it.bound() <= self@.len(),
    {
        proof {
            assert(subtree(self.root) == self.root);
        }
        IntoRange(crate::node::iter::Range::new(self.root, self.len, &self.order, min, max))
    }

    /// An iterator over the map's entries within both bounds in ascending
    /// order.
    pub fn range<Lo, Hi>(&self, min: Bound<&Lo>, max: Bound<&Hi>) -> (it: Range<'_, K, V>)
        where
            C: QueryOrder<Lo, K> + QueryOrder<Hi, K>,
        requires
            self.wf(),
        ensures
            it.wf(),
            it.remaining() == window(
                &self.key_order(),
                self@,
                bound_key::<Lo, K, C>(&self.key_order(), min),
                bound_key::<Hi, K, C>(&self.key_order(), max),
            ),
            it.bound() <= self@.len(),
    {
        let root = MarkedNode::root(&self.root);
        proof {
            assert(subtree(root) == self.root);
        }
        Range(crate::node::iter::Range::new(root, self.len, &self.order, min, max))
    }

    /// An iterator over the map's entries within both bounds in ascending
    /// order, which hands out each value for writing.
    pub fn range_mut<Lo, Hi>(&mut self, min: Bound<&Lo>, max: Bound<&Hi>) -> (it: RangeMut<'_, K, V>)
        where
            C: QueryOrder<Lo, K> + QueryOrder<Hi, K>,
        requires
            old(self).wf(),
        ensures
            it.wf(),
            it.0.all() == old(self)@,
            it.remaining() =~= window(
                &old(self).key_order(),
                old(self)@,
                bound_key::<Lo, K, C>(&old(self).key_order(), min),
                bound_key::<Hi, K, C>(&old(self).key_order(), max),
            ),
            final(self).key_order() == old(self).key_order(),
            final(self)@ == entries(*final(it.0.root)),
            balanced(*final(it.0.root)) && same_keys(entries(*final(it.0.root)), old(self)@)
                ==> final(self).wf(),
    {
        proof {
            let order = self.order;
            let before = self@;
            assert forall|t: Link<K, V>| balanced(t) && same_keys(entries(t), before) implies sorted(
                &order,
                #[trigger] entries(t),
            ) by {
                lemma_same_keys_sorted(&order, before, entries(t));
            }
        }
        RangeMut(IterMut::range(&mut self.root, self.len, &self.order, min, max))
    }
}

impl<K, V, C: KeyOrder<K>> TreeMap<K, V, C> {
    /// Whether the two maps are equal entry by entry: as long as each other,
    /// with keys that this map's order takes for equivalent and equal values.
    pub fn equals(&self, other: &Self) -> (b: bool)
        where
            V: PartialEq,
        requires
            self.wf(),
            other.wf(),
        ensures
            V::obeys_eq_spec() ==> b == same(&self.key_order(), self@, other@),
    {
        let mut l = self.iter();
        let mut r = other.iter();
        loop
            invariant
                l.wf(),
                r.wf(),
                V::obeys_eq_spec() ==> same(&self.key_order(), self@, other@) == same(
                    &self.key_order(),
                    l.remaining(),
                    r.remaining(),
                ),
            decreases l.remaining().len(),
        {
            match (l.next(), r.next()) {
                (None, None) => {
                    return true;
                },
                (None, Some(_)) => {
                    return false;
                },
                (Some(_), None) => {
                    return false;
                },
                (Some(x), Some(y)) => {
                    match self.order.compare(x.0, y.0) {
                        Ordering::Equal => {
                            if !(x.1 == y.1) {
                                return false;
                            }
                        },
                        Ordering::Less => {
                            return false;
                        },
                        Ordering::Greater => {
                            return false;
                        },
                    }
                },
            }
        }
    }

    /// How the two maps compare entry by entry, keys by this map's order and
    /// values by their own.
    pub fn compare_to(&self, other: &Self) -> (o: Ordering)
        where
            V: Ord,
        requires
            self.wf(),
            other.wf(),
        ensures
            V::obeys_cmp_spec() ==> o == lexical(&self.key_order(), self@, other@),
    {
        let mut l = self.iter();
        let mut r = other.iter();
        loop
            invariant
                l.wf(),
                r.wf(),
                V::obeys_cmp_spec() ==> lexical(&self.key_order(), self@, other@) == lexical(
                    &self.key_order(),
                    l.remaining(),
                    r.remaining(),
                ),
            decreases l.remaining().len(),
        {
            match (l.next(), r.next()) {
                (None, None) => {
                    return Ordering::Equal;
                },
                (None, Some(_)) => {
                    return Ordering::Less;
                },
                (Some(_), None) => {
                    return Ordering::Greater;
                },
                (Some(x), Some(y)) => {
                    match self.order.compare(x.0, y.0) {
                        Ordering::Equal => {
                            match x.1.cmp(y.1) {
                                Ordering::Equal => {},
                                Ordering::Less => {
                                    return Ordering::Less;
                                },
                                Ordering::Greater => {
                                    return Ordering::Greater;
                                },
                            }
                        },
                        Ordering::Less => {
                            return Ordering::Less;
                        },
                        Ordering::Greater => {
                            return Ordering::Greater;
                        },
                    }
                },
            }
        }
    }

    /// How the two maps compare entry by entry where values need not be
    /// comparable.
    pub fn partial_compare_to(&self, other: &Self) -> (o: Option<Ordering>)
        where
            V: PartialOrd,
        requires
            self.wf(),
            other.wf(),
        ensures
            V::obeys_partial_cmp_spec() ==> o == lexical_partial(
                &self.key_order(),
                self@,
                other@,
            ),
    {
        let mut l = self.iter();
        let mut r = other.iter();
        loop
            invariant
                l.wf(),
                r.wf(),
                V::obeys_partial_cmp_spec() ==> lexical_partial(&self.key_order(), self@, other@)
                    == lexical_partial(&self.key_order(), l.remaining(), r.remaining()),
            decreases l.remaining().len(),
        {
            match (l.next(), r.next()) {
                (None, None) => {
                    return Some(Ordering::Equal);
                },
                (None, Some(_)) => {
                    return Some(Ordering::Less);
                },
                (Some(_), None) => {
                    return Some(Ordering::Greater);
                },
                (Some(x), Some(y)) => {
                    match self.order.compare(x.0, y.0) {
                        Ordering::Equal => {
                            match x.1.partial_cmp(y.1) {
                                Some(Ordering::Equal) => {},
                                other => {
                                    return other;
                                },
                            }
                        },
                        Ordering::Less => {
                            return Some(Ordering::Less);
                        },
                        Ordering::Greater => {
                            return Some(Ordering::Greater);
                        },
                    }
                },
            }
        }
    }

    /// How the two maps compare key by key, by this map's order.
    pub fn compare_keys(&self, other: &Self) -> (o: Ordering)
        requires
            self.wf(),
            other.wf(),
        ensures
            o == lexical_keys(&self.key_order(), self@, other@),
    {
        let mut l = self.iter();
        let mut r = other.iter();
        loop
            invariant
                l.wf(),
                r.wf(),
                lexical_keys(&self.key_order(), self@, other@) == lexical_keys(
                    &self.key_order(),
                    l.remaining(),
                    r.remaining(),
                ),
            decreases l.remaining().len(),
        {
            match (l.next(), r.next()) {
                (None, None) => {
                    return Ordering::Equal;
                },
                (None, Some(_)) => {
                    return Ordering::Less;
                },
                (Some(_), None) => {
                    return Ordering::Greater;
                },
                (Some(x), Some(y)) => {
                    match self.order.compare(x.0, y.0) {
                        Ordering::Equal => {},
                        Ordering::Less => {
                            return Ordering::Less;
                        },
                        Ordering::Greater => {
                            return Ordering::Greater;
                        },
                    }
                },
            }
        }
    }
}

/// The place of a key in a map: the entry that holds it, or the gap where
/// it would stand.
pub enum Entry<'a, K, V, C> {
    /// The map holds the key.
    Occupied(OccupiedEntry<'a, K, V, C>),
    /// The map does not hold the key.
    Vacant(VacantEntry<'a, K, V, C>),
}

impl<'a, K, V, C: KeyOrder<K>> Entry<'a, K, V, C> {
    /// The entry is well formed.
    pub open spec fn wf(self) -> bool {
        match self {
            Entry::Occupied(o) => o.wf(),
            Entry::Vacant(v) => v.wf(),
        }
    }

    /// The entries of the map that the entry is of.
    pub open spec fn entries(self) -> Seq<(K, V)> {
        match self {
            Entry::Occupied(o) => entries(*o.path.root),
            Entry::Vacant(v) => entries(*v.path.root),
        }
    }

    /// The order of the map that the entry is of.
    pub open spec fn key_order(self) -> C {
        match self {
            Entry::Occupied(o) => o.path.order@,
            Entry::Vacant(v) => v.path.order@,
        }
    }

    /// The index at which the entry stands or would stand.
    pub open spec fn index(self) -> int {
        match self {
            Entry::Occupied(o) => o.path.index as int,
            Entry::Vacant(v) => v.path.index as int,
        }
    }

    /// The value of the entry, for writing; a vacant entry is first filled
    /// with `default`.
    pub fn or_insert(self, default: V) -> (v: &'a mut V)
        requires
            self.wf(),
            self is Vacant ==> self.entries().len() < usize::MAX,
        ensures
            match self {
                Entry::Occupied(o) => {
                    &&& *v == o.view().1
                    &&& tree_ok(&o.path.order@, *final(o.path.root), *final(o.len))
                    &&& *final(o.path.root) == with_value(*o.path.root, self.index(), *final(v))
                    &&& *final(o.len) == *o.len
                    &&& entries(*final(o.path.root)) == self.entries().update(
                        self.index(),
                        (o.view().0, *final(v)),
                    )
                },
                Entry::Vacant(e) => {
                    &&& *v == default
                    &&& tree_ok(&e.path.order@, *final(e.path.root), *final(e.len))
                    &&& entries(*final(e.path.root)) == self.entries().insert(
                        self.index(),
                        (e.key, *final(v)),
                    )
                },
            },
    {
        match self {
            Entry::Occupied(e) => e.into_mut(),
            Entry::Vacant(e) => e.insert(default),
        }
    }

    /// The value of the entry, for writing; a vacant entry is first filled
    /// with what `default` returns.
    pub fn or_insert_with<F: FnOnce() -> V>(self, default: F) -> (v: &'a mut V)
        requires
            self.wf(),
            self is Vacant ==> self.entries().len() < usize::MAX && default.requires(()),
        ensures
            match self {
                Entry::Occupied(o) => {
                    &&& *v == o.view().1
                    &&& tree_ok(&o.path.order@, *final(o.path.root), *final(o.len))
                    &&& *final(o.path.root) == with_value(*o.path.root, self.index(), *final(v))
                    &&& *final(o.len) == *o.len
                    &&& entries(*final(o.path.root)) == self.entries().update(
                        self.index(),
                        (o.view().0, *final(v)),
                    )
                },
                Entry::Vacant(e) => {
                    &&& default.ensures((), *v)
                    &&& tree_ok(&e.path.order@, *final(e.path.root), *final(e.len))
                    &&& entries(*final(e.path.root)) == self.entries().insert(
                        self.index(),
                        (e.key, *final(v)),
                    )
                },
            },
    {
        match self {
            Entry::Occupied(e) => e.into_mut(),
            Entry::Vacant(e) => e.insert(default()),
        }
    }
}

} // verus!
