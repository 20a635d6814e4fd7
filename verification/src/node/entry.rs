//! Paths into a tree and the entries made from them.
//!
//! A path is the position that one walk over the tree has found. An entry
//! made from it changes the tree there without comparing keys again: the way
//! back down goes by the sizes that the nodes record.

use crate::map::Entry;
use crate::model::below;
use crate::model::holds;
use crate::model::lemma_insert_sorted;
use crate::model::lemma_remove_sorted;
use crate::model::lemma_update_sorted;
use crate::model::sorted;
use crate::node::balanced;
use crate::node::entries;
use crate::node::entry_at;
use crate::node::insert_at;
use crate::node::lemma_with_value;
use crate::node::remove_at;
use crate::node::tree_ok;
use crate::node::value_at_mut;
use crate::node::with_value;
use crate::node::Link;
use crate::order::KeyOrder;
use vstd::prelude::*;

verus! {

/// A position in a tree: the index `index` among its entries, which holds an
/// entry if `found` and is a gap before that index otherwise.
pub struct Path<'a, K, V, C> {
    pub root: &'a mut Link<K, V>,
    pub index: usize,
    pub found: bool,
    pub order: Ghost<C>,
}

/// An entry of a map that holds a key.
pub struct OccupiedEntry<'a, K, V, C> {
    pub path: Path<'a, K, V, C>,
    pub len: &'a mut usize,
}

/// The place in a map where a key that it does not hold would stand.
pub struct VacantEntry<'a, K, V, C> {
    pub path: Path<'a, K, V, C>,
    pub len: &'a mut usize,
    pub key: K,
}

impl<'a, K, V, C: KeyOrder<K>> Path<'a, K, V, C> {
    /// The tree is balanced and sorted and the position lies in it.
    pub open spec fn wf(self) -> bool {
        &&& balanced(*self.root)
        &&& sorted(&self.order@, entries(*self.root))
        &&& self.index <= entries(*self.root).len()
        &&& self.found ==> self.index < entries(*self.root).len()
    }

    /// The same position in the same tree.
    pub open spec fn same(self, other: Self) -> bool {
        &&& *self.root == *other.root
        &&& self.index == other.index
        &&& self.found == other.found
        &&& self.order == other.order
    }

    /// The entry at this position: occupied if the position holds one.
    pub fn into_entry(self, len: &'a mut usize, key: K) -> (e: Entry<'a, K, V, C>)
        ensures
            match e {
                Entry::Occupied(o) => self.found && o.path.same(self) && *final(o.path.root)
                    == *final(self.root) && *o.len == *old(len) && *final(o.len) == *final(len),
                Entry::Vacant(v) => !self.found && v.path.same(self) && *final(v.path.root)
                    == *final(self.root) && *v.len == *old(len) && *final(v.len) == *final(len)
                    && v.key == key,
            },
    {
        if self.found {
            Entry::Occupied(OccupiedEntry { path: self, len })
        } else {
            Entry::Vacant(VacantEntry { path: self, len, key })
        }
    }

    /// The occupied entry at this position, if it holds one.
    pub fn into_occupied_entry(self, len: &'a mut usize) -> (e: Option<OccupiedEntry<'a, K, V, C>>)
        ensures
            match e {
                Some(o) => self.found && o.path.same(self)
                    && *final(o.path.root) == *final(self.root)
                    && *o.len == *old(len) && *final(o.len) == *final(len),
                None => !self.found && *final(self.root) == *old(self.root)
                    && *final(len) == *old(len),
            },
    {
        if self.found {
            Some(OccupiedEntry { path: self, len })
        } else {
            None
        }
    }

    /// Removes the entry at this position, if it holds one, and counts the
    /// tree's length down.
    pub fn remove(self, len: &mut usize) -> (removed: Option<(K, V)>)
        requires
            self.wf(),
            *old(len) == entries(*old(self.root)).len(),
        ensures
            tree_ok(&self.order@, *final(self.root), *final(len)),
            self.found ==> removed == Some(entries(*old(self.root))[self.index as int])
                && entries(*final(self.root)) == entries(*old(self.root)).remove(
                self.index as int,
            ),
            !self.found ==> removed.is_none() && *final(self.root) == *old(self.root),
    {
        if self.found {
            proof {
                lemma_remove_sorted(&self.order@, entries(*self.root), self.index as int);
            }
            let removed = remove_at(self.root, self.index);
            *len = *len - 1;
            Some(removed)
        } else {
            None
        }
    }
}

impl<'a, K, V, C: KeyOrder<K>> OccupiedEntry<'a, K, V, C> {
    /// The entry stands for an entry of a balanced, sorted tree whose length
    /// is counted right.
    pub open spec fn wf(self) -> bool {
        &&& self.path.wf()
        &&& self.path.found
        &&& *self.len == entries(*self.path.root).len()
    }

    /// The entry's key and value.
    pub open spec fn view(self) -> (K, V) {
        entries(*self.path.root)[self.path.index as int]
    }

    /// The entry's key.
    pub fn key(&self) -> (k: &K)
        requires
            self.wf(),
        ensures
            *k == self.view().0,
    {
        entry_at(&*self.path.root, self.path.index).0
    }

    /// The entry's value.
    pub fn get(&self) -> (v: &V)
        requires
            self.wf(),
        ensures
            *v == self.view().1,
    {
        entry_at(&*self.path.root, self.path.index).1
    }

    /// The entry's value, for writing.
    pub fn get_mut(&mut self) -> (v: &mut V)
        requires
            old(self).wf(),
        ensures
            *v == old(self).view().1,
            final(self).wf(),
            final(self).path.index == old(self).path.index,
            final(self).path.order == old(self).path.order,
            *final(self).path.root == with_value(
                *old(self).path.root,
                old(self).path.index as int,
                *final(v),
            ),
            entries(*final(self).path.root) == entries(*old(self).path.root).update(
                old(self).path.index as int,
                (old(self).view().0, *final(v)),
            ),
            *final(self).len == *old(self).len,
            *final(final(self).path.root) == *final(old(self).path.root),
            *final(final(self).len) == *final(old(self).len),
    {
        let ghost t = *self.path.root;
        let ghost i = self.path.index as int;
        let r = value_at_mut(self.path.root, self.path.index);
        proof {
            lemma_with_value(t, i, *final(r.1));
            lemma_update_sorted(&self.path.order@, entries(t), i, *final(r.1));
        }
        r.1
    }

    /// The entry's value, for writing as long as the map is borrowed.
    pub fn into_mut(self) -> (v: &'a mut V)
        requires
            self.wf(),
        ensures
            *v == self.view().1,
            tree_ok(&self.path.order@, *final(self.path.root), *final(self.len)),
            *final(self.path.root) == with_value(
                *old(self.path.root),
                self.path.index as int,
                *final(v),
            ),
            entries(*final(self.path.root)) == entries(*old(self.path.root)).update(
                self.path.index as int,
                (self.view().0, *final(v)),
            ),
            *final(self.len) == *old(self.len),
    {
        let ghost t = *self.path.root;
        let ghost i = self.path.index as int;
        let r = value_at_mut(self.path.root, self.path.index);
        proof {
            lemma_with_value(t, i, *final(r.1));
            lemma_update_sorted(&self.path.order@, entries(t), i, *final(r.1));
        }
        r.1
    }

    /// Replaces the entry's value and returns the old one.
    pub fn insert(&mut self, value: V) -> (old_value: V)
        requires
            old(self).wf(),
        ensures
            old_value == old(self).view().1,
            final(self).wf(),
            final(self).view() == (old(self).view().0, value),
            final(self).path.index == old(self).path.index,
            final(self).path.order == old(self).path.order,
            *final(self).path.root == with_value(
                *old(self).path.root,
                old(self).path.index as int,
                value,
            ),
            entries(*final(self).path.root) == entries(*old(self).path.root).update(
                old(self).path.index as int,
                (old(self).view().0, value),
            ),
            *final(self).len == *old(self).len,
            *final(final(self).path.root) == *final(old(self).path.root),
            *final(final(self).len) == *final(old(self).len),
    {
        let mut value = value;
        let slot = self.get_mut();
        std::mem::swap(slot, &mut value);
        value
    }

    /// Removes the entry from the map and returns its key and value.
    pub fn remove(self) -> (removed: (K, V))
        requires
            self.wf(),
        ensures
            removed == self.view(),
            tree_ok(&self.path.order@, *final(self.path.root), *final(self.len)),
            entries(*final(self.path.root)) == entries(*old(self.path.root)).remove(
                self.path.index as int,
            ),
            *final(self.len) == entries(*final(self.path.root)).len(),
    {
        proof {
            lemma_remove_sorted(&self.path.order@, entries(*self.path.root), self.path.index as int);
        }
        let removed = remove_at(self.path.root, self.path.index);
        *self.len = *self.len - 1;
        removed
    }
}

impl<'a, K, V, C: KeyOrder<K>> VacantEntry<'a, K, V, C> {
    /// The entry marks the place of its key in a balanced, sorted tree that
    /// does not hold the key and whose length is counted right.
    pub open spec fn wf(self) -> bool {
        &&& self.path.wf()
        &&& !self.path.found
        &&& *self.len == entries(*self.path.root).len()
        &&& self.path.index == below(&self.path.order@, entries(*self.path.root), self.key)
        &&& !holds(&self.path.order@, entries(*self.path.root), self.key)
    }

    /// Puts the key with `value` into the map and returns the value for
    /// writing.
    pub fn insert(self, value: V) -> (v: &'a mut V)
        requires
            self.wf(),
            *old(self.len) < usize::MAX,
        ensures
            *v == value,
            tree_ok(&self.path.order@, *final(self.path.root), *final(self.len)),
            entries(*final(self.path.root)) == entries(*old(self.path.root)).insert(
                self.path.index as int,
                (self.key, *final(v)),
            ),
            *final(self.len) == *old(self.len) + 1,
    {
        let ghost s = entries(*self.path.root);
        let ghost i = self.path.index as int;
        *self.len = *self.len + 1;
        insert_at(self.path.root, self.path.index, self.key, value);
        let ghost t = *self.path.root;
        let r = value_at_mut(self.path.root, self.path.index);
        proof {
            lemma_with_value(t, i, *final(r.1));
            lemma_insert_sorted(&self.path.order@, s, self.key, *final(r.1));
            assert(s.insert(i, (self.key, value)).update(i, (self.key, *final(r.1))) =~= s.insert(
                i,
                (self.key, *final(r.1)),
            ));
        }
        r.1
    }
}

} // verus!
