//! What a walk's result is turned into: a borrowed entry, an entry whose
//! value can be written, or a path.

use crate::model::at_index;
use crate::model::pick;
use crate::model::unref;
use crate::node::balanced;
use crate::node::entries;
use crate::node::entry::Path;
use crate::node::entry_at;
use crate::node::value_at_mut;
use crate::node::with_value;
use crate::node::Link;
use crate::order::KeyOrder;
use vstd::prelude::*;

verus! {

/// Builds a borrowed entry.
pub struct Get;

/// Builds an entry whose value can be written.
pub struct GetMut;

/// Builds a path.
pub struct PathBuilder;

impl Get {
    /// The entry at the index that a walk has found.
    pub fn build<'a, K, V>(link: &'a Link<K, V>, spot: Option<usize>) -> (r: Option<(&'a K, &'a V)>)
        requires
            balanced(*link),
            spot matches Some(i) ==> i < entries(*link).len(),
        ensures
            unref(r) == pick(entries(*link), at_index(spot)),
    {
        match spot {
            Some(i) => Some(entry_at(link, i)),
            None => None,
        }
    }
}

impl GetMut {
    /// The key at the index that a walk has found, and its value for
    /// writing.
    pub fn build<'a, K, V>(link: &'a mut Link<K, V>, spot: Option<usize>) -> (r: Option<
        (&'a K, &'a mut V),
    >)
        requires
            balanced(*old(link)),
            spot matches Some(i) ==> i < entries(*old(link)).len(),
        ensures
            match r {
                Some((k, v)) => spot matches Some(i) && (*k, *v) == entries(*old(link))[i as int]
                    && *final(link) == with_value(*old(link), i as int, *final(v)),
                None => spot.is_none() && *final(link) == *old(link),
            },
    {
        match spot {
            Some(i) => Some(value_at_mut(link, i)),
            None => None,
        }
    }
}

impl PathBuilder {
    /// The path to the position that a walk has found.
    pub fn build<'a, K, V, C: KeyOrder<K>>(
        link: &'a mut Link<K, V>,
        order: &C,
        index: usize,
        found: bool,
    ) -> (p: Path<'a, K, V, C>)
        ensures
            p.index == index,
            p.found == found,
            p.order@ == *order,
            *p.root == *old(link),
            *final(p.root) == *final(link),
    {
        Path { root: link, index, found, order: Ghost(*order) }
    }

    /// The path to the entry at the index that a walk has found, or to no
    /// entry.
    pub fn build_found<'a, K, V, C: KeyOrder<K>>(
        link: &'a mut Link<K, V>,
        order: &C,
        spot: Option<usize>,
    ) -> (p: Path<'a, K, V, C>)
        ensures
            p.found == spot.is_some(),
            spot matches Some(i) ==> p.index == i,
            spot.is_none() ==> p.index == 0,
            p.order@ == *order,
            *p.root == *old(link),
            *final(p.root) == *final(link),
    {
        match spot {
            Some(i) => Self::build(link, order, i, true),
            None => Self::build(link, order, 0, false),
        }
    }
}

} // verus!
