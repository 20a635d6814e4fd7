//! Comparing two containers entry by entry, in their order.

use crate::model::equiv;
use crate::order::three_way;
use crate::order::KeyOrder;
use std::cmp::Ordering;
use vstd::prelude::*;
use vstd::std_specs::cmp::OrdSpec;
use vstd::std_specs::cmp::PartialEqSpec;
use vstd::std_specs::cmp::PartialOrdSpec;

verus! {

/// How two keys compare under an order.
pub open spec fn verdict<K, C: KeyOrder<K>>(order: &C, a: K, b: K) -> Ordering {
    three_way(order.less(a, b), order.less(b, a))
}

/// Two sequences are equal entry by entry: as long as each other, with
/// equivalent keys and equal values at every index.
pub open spec fn same<K, V: PartialEq, C: KeyOrder<K>>(
    order: &C,
    a: Seq<(K, V)>,
    b: Seq<(K, V)>,
) -> bool
    decreases a.len(),
{
    if a.len() == 0 {
        b.len() == 0
    } else if b.len() == 0 {
        false
    } else {
        &&& equiv(order, a[0].0, b[0].0)
        &&& a[0].1.eq_spec(&b[0].1)
        &&& same(order, a.drop_first(), b.drop_first())
    }
}

/// How two sequences compare entry by entry: the first entries that differ
/// decide, by their keys and then by their values; a sequence that ends
/// first is less.
pub open spec fn lexical<K, V: Ord, C: KeyOrder<K>>(
    order: &C,
    a: Seq<(K, V)>,
    b: Seq<(K, V)>,
) -> Ordering
    decreases a.len(),
{
    if a.len() == 0 {
        if b.len() == 0 {
            Ordering::Equal
        } else {
            Ordering::Less
        }
    } else if b.len() == 0 {
        Ordering::Greater
    } else {
        match verdict(order, a[0].0, b[0].0) {
            Ordering::Equal => match a[0].1.cmp_spec(&b[0].1) {
                Ordering::Equal => lexical(order, a.drop_first(), b.drop_first()),
                Ordering::Less => Ordering::Less,
                Ordering::Greater => Ordering::Greater,
            },
            Ordering::Less => Ordering::Less,
            Ordering::Greater => Ordering::Greater,
        }
    }
}

/// How two sequences compare entry by entry where values need not be
/// comparable: the first entries that differ decide, and values that do not
/// compare leave the sequences without an order.
pub open spec fn lexical_partial<K, V: PartialOrd, C: KeyOrder<K>>(
    order: &C,
    a: Seq<(K, V)>,
    b: Seq<(K, V)>,
) -> Option<Ordering>
    decreases a.len(),
{
    if a.len() == 0 {
        if b.len() == 0 {
            Some(Ordering::Equal)
        } else {
            Some(Ordering::Less)
        }
    } else if b.len() == 0 {
        Some(Ordering::Greater)
    } else {
        match verdict(order, a[0].0, b[0].0) {
            Ordering::Equal => match a[0].1.partial_cmp_spec(&b[0].1) {
                Some(Ordering::Equal) => lexical_partial(order, a.drop_first(), b.drop_first()),
                other => other,
            },
            Ordering::Less => Some(Ordering::Less),
            Ordering::Greater => Some(Ordering::Greater),
        }
    }
}

/// How two sequences compare key by key: the first keys that differ decide;
/// a sequence that ends first is less.
pub open spec fn lexical_keys<K, V, C: KeyOrder<K>>(
    order: &C,
    a: Seq<(K, V)>,
    b: Seq<(K, V)>,
) -> Ordering
    decreases a.len(),
{
    if a.len() == 0 {
        if b.len() == 0 {
            Ordering::Equal
        } else {
            Ordering::Less
        }
    } else if b.len() == 0 {
        Ordering::Greater
    } else {
        match verdict(order, a[0].0, b[0].0) {
            Ordering::Equal => lexical_keys(order, a.drop_first(), b.drop_first()),
            Ordering::Less => Ordering::Less,
            Ordering::Greater => Ordering::Greater,
        }
    }
}

} // verus!
