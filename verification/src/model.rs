//! The mathematical model of a tree: its entries in ascending key order.
//!
//! Every container in this crate is viewed as a `Seq<(K, V)>` that is strictly
//! increasing under the container's key order. The functions here say where a
//! key stands in such a sequence; the lemmas relate that to the shape
//! `left ++ [entry] ++ right` a tree node has.

use crate::order::KeyOrder;
use crate::order::QueryOrder;
use vstd::prelude::*;

verus! {

/// Neither key is less than the other.
pub open spec fn equiv<K, C: KeyOrder<K>>(order: &C, a: K, b: K) -> bool {
    !order.less(a, b) && !order.less(b, a)
}

/// The keys of `s` are strictly increasing.
pub open spec fn sorted<K, V, C: KeyOrder<K>>(order: &C, s: Seq<(K, V)>) -> bool {
    forall|i: int, j: int|
        0 <= i < j < s.len() ==> order.less(#[trigger] s[i].0, #[trigger] s[j].0)
}

/// The number of entries of `s` whose key is less than `k`. In a sorted
/// sequence this is the index at which `k` stands or would be inserted.
pub open spec fn below<K, V, C: KeyOrder<K>>(order: &C, s: Seq<(K, V)>, k: K) -> int
    decreases s.len(),
{
    if s.len() == 0 {
        0
    } else {
        below(order, s.drop_last(), k) + if order.less(s.last().0, k) {
            1int
        } else {
            0int
        }
    }
}

/// The sorted sequence `s` has an entry whose key is equivalent to `k`.
pub open spec fn holds<K, V, C: KeyOrder<K>>(order: &C, s: Seq<(K, V)>, k: K) -> bool {
    let at = below(order, s, k);
    at < s.len() && !order.less(k, s[at].0)
}

/// The entries of a node: those of its left subtree, its own, those of its
/// right subtree.
pub open spec fn join<K, V>(l: Seq<(K, V)>, e: (K, V), r: Seq<(K, V)>) -> Seq<(K, V)> {
    l.push(e) + r
}

/// Every key of `s` is less than `k`.
pub open spec fn all_less<K, V, C: KeyOrder<K>>(order: &C, s: Seq<(K, V)>, k: K) -> bool {
    forall|i: int| 0 <= i < s.len() ==> order.less(#[trigger] s[i].0, k)
}

/// `k` is less than every key of `s`.
pub open spec fn all_greater<K, V, C: KeyOrder<K>>(order: &C, s: Seq<(K, V)>, k: K) -> bool {
    forall|i: int| 0 <= i < s.len() ==> order.less(k, #[trigger] s[i].0)
}

pub proof fn lemma_below_bounds<K, V, C: KeyOrder<K>>(order: &C, s: Seq<(K, V)>, k: K)
    ensures
        0 <= below(order, s, k) <= s.len(),
    decreases s.len(),
{
    if s.len() > 0 {
        lemma_below_bounds(order, s.drop_last(), k);
    }
}

pub proof fn lemma_below_concat<K, V, C: KeyOrder<K>>(
    order: &C,
    a: Seq<(K, V)>,
    b: Seq<(K, V)>,
    k: K,
)
    ensures
        below(order, a + b, k) == below(order, a, k) + below(order, b, k),
    decreases b.len(),
{
    if b.len() == 0 {
        assert(a + b =~= a);
    } else {
        assert((a + b).drop_last() =~= a + b.drop_last());
        assert((a + b).last() == b.last());
        lemma_below_concat(order, a, b.drop_last(), k);
    }
}

pub proof fn lemma_below_all<K, V, C: KeyOrder<K>>(order: &C, s: Seq<(K, V)>, k: K)
    requires
        all_less(order, s, k),
    ensures
        below(order, s, k) == s.len(),
    decreases s.len(),
{
    if s.len() > 0 {
        let t = s.drop_last();
        assert forall|i: int| 0 <= i < t.len() implies order.less(#[trigger] t[i].0, k) by {
            assert(t[i] == s[i]);
        }
        lemma_below_all(order, t, k);
        assert(s.last() == s[s.len() - 1]);
    }
}

pub proof fn lemma_below_none<K, V, C: KeyOrder<K>>(order: &C, s: Seq<(K, V)>, k: K)
    requires
        forall|i: int| 0 <= i < s.len() ==> !order.less(#[trigger] s[i].0, k),
    ensures
        below(order, s, k) == 0,
    decreases s.len(),
{
    if s.len() > 0 {
        let t = s.drop_last();
        assert forall|i: int| 0 <= i < t.len() implies !order.less(#[trigger] t[i].0, k) by {
            assert(t[i] == s[i]);
        }
        lemma_below_none(order, t, k);
        assert(s.last() == s[s.len() - 1]);
    }
}

/// In a sorted sequence the keys less than `k` are exactly those before
/// index `below(s, k)`.
pub proof fn lemma_below_splits<K, V, C: KeyOrder<K>>(order: &C, s: Seq<(K, V)>, k: K)
    requires
        sorted(order, s),
    ensures
        0 <= below(order, s, k) <= s.len(),
        forall|i: int| 0 <= i < below(order, s, k) ==> order.less(#[trigger] s[i].0, k),
        forall|i: int| below(order, s, k) <= i < s.len() ==> !order.less(#[trigger] s[i].0, k),
    decreases s.len(),
{
    lemma_below_bounds(order, s, k);
    if s.len() > 0 {
        let t = s.drop_last();
        let x = s.last();
        assert forall|i: int, j: int| 0 <= i < j < t.len() implies order.less(
            #[trigger] t[i].0,
            #[trigger] t[j].0,
        ) by {
            assert(t[i] == s[i] && t[j] == s[j]);
        }
        lemma_below_splits(order, t, k);
        let at = below(order, t, k);
        assert forall|i: int| 0 <= i < t.len() implies t[i] == s[i] by {}
        if order.less(x.0, k) {
            if at < t.len() {
                assert(t[at] == s[at]);
                assert(order.less(s[at].0, s[s.len() - 1].0));
                order.transitive(s[at].0, x.0, k);
                assert(false);
            }
        }
    }
}

/// The index with all smaller keys before it and none after it is `below`.
pub proof fn lemma_below_unique<K, V, C: KeyOrder<K>>(order: &C, s: Seq<(K, V)>, k: K, r: int)
    requires
        0 <= r <= s.len(),
        forall|i: int| 0 <= i < r ==> order.less(#[trigger] s[i].0, k),
        forall|i: int| r <= i < s.len() ==> !order.less(#[trigger] s[i].0, k),
    ensures
        below(order, s, k) == r,
{
    let a = s.subrange(0, r);
    let b = s.subrange(r, s.len() as int);
    assert(s =~= a + b);
    assert forall|i: int| 0 <= i < a.len() implies order.less(#[trigger] a[i].0, k) by {
        assert(a[i] == s[i]);
    }
    assert forall|i: int| 0 <= i < b.len() implies !order.less(#[trigger] b[i].0, k) by {
        assert(b[i] == s[i + r]);
    }
    lemma_below_all(order, a, k);
    lemma_below_none(order, b, k);
    lemma_below_concat(order, a, b, k);
}

/// What sortedness of a node's entries says of its three parts.
pub proof fn lemma_sorted_parts<K, V, C: KeyOrder<K>>(
    order: &C,
    l: Seq<(K, V)>,
    e: (K, V),
    r: Seq<(K, V)>,
)
    requires
        sorted(order, join(l, e, r)),
    ensures
        sorted(order, l),
        sorted(order, r),
        all_less(order, l, e.0),
        all_greater(order, r, e.0),
{
    let s = join(l, e, r);
    assert(s[l.len() as int] == e);
    assert forall|i: int, j: int| 0 <= i < j < l.len() implies order.less(
        #[trigger] l[i].0,
        #[trigger] l[j].0,
    ) by {
        assert(s[i] == l[i] && s[j] == l[j]);
    }
    assert forall|i: int, j: int| 0 <= i < j < r.len() implies order.less(
        #[trigger] r[i].0,
        #[trigger] r[j].0,
    ) by {
        assert(s[l.len() + 1 + i] == r[i] && s[l.len() + 1 + j] == r[j]);
    }
    assert forall|i: int| 0 <= i < l.len() implies order.less(#[trigger] l[i].0, e.0) by {
        assert(s[i] == l[i]);
    }
    assert forall|i: int| 0 <= i < r.len() implies order.less(e.0, #[trigger] r[i].0) by {
        assert(s[l.len() + 1 + i] == r[i]);
    }
}

/// Where a key that is less than a node's key stands: where it stands in the
/// left subtree.
pub proof fn lemma_descend_left<K, V, C: KeyOrder<K>>(
    order: &C,
    l: Seq<(K, V)>,
    e: (K, V),
    r: Seq<(K, V)>,
    k: K,
)
    requires
        sorted(order, join(l, e, r)),
        order.less(k, e.0),
    ensures
        below(order, join(l, e, r), k) == below(order, l, k),
        holds(order, join(l, e, r), k) == holds(order, l, k),
{
    lemma_sorted_parts(order, l, e, r);
    let s = join(l, e, r);
    order.irreflexive(k);
    assert(!order.less(e.0, k)) by {
        if order.less(e.0, k) {
            order.transitive(k, e.0, k);
        }
    }
    assert forall|i: int| 0 <= i < r.len() implies !order.less(#[trigger] r[i].0, k) by {
        if order.less(r[i].0, k) {
            order.transitive(e.0, r[i].0, k);
        }
    }
    lemma_below_none(order, r, k);
    lemma_below_concat(order, l.push(e), r, k);
    assert(l.push(e).drop_last() =~= l);
    lemma_below_bounds(order, l, k);
    let at = below(order, l, k);
    if at < l.len() {
        assert(s[at] == l[at]);
    } else {
        assert(s[at] == e);
    }
}

/// Where a key that is greater than a node's key stands: behind the left
/// subtree and the node, where it stands in the right subtree.
pub proof fn lemma_descend_right<K, V, C: KeyOrder<K>>(
    order: &C,
    l: Seq<(K, V)>,
    e: (K, V),
    r: Seq<(K, V)>,
    k: K,
)
    requires
        sorted(order, join(l, e, r)),
        order.less(e.0, k),
    ensures
        below(order, join(l, e, r), k) == l.len() + 1 + below(order, r, k),
        holds(order, join(l, e, r), k) == holds(order, r, k),
{
    lemma_sorted_parts(order, l, e, r);
    let s = join(l, e, r);
    assert forall|i: int| 0 <= i < l.len() implies order.less(#[trigger] l[i].0, k) by {
        order.transitive(l[i].0, e.0, k);
    }
    lemma_below_all(order, l, k);
    lemma_below_concat(order, l.push(e), r, k);
    assert(l.push(e).drop_last() =~= l);
    lemma_below_bounds(order, r, k);
    let at = below(order, r, k);
    if at < r.len() {
        assert(s[l.len() + 1 + at] == r[at]);
    }
}

/// A key equivalent to a node's key stands at the node.
pub proof fn lemma_descend_here<K, V, C: KeyOrder<K>>(
    order: &C,
    l: Seq<(K, V)>,
    e: (K, V),
    r: Seq<(K, V)>,
    k: K,
)
    requires
        sorted(order, join(l, e, r)),
        equiv(order, k, e.0),
    ensures
        below(order, join(l, e, r), k) == l.len(),
        holds(order, join(l, e, r), k),
        join(l, e, r)[l.len() as int] == e,
{
    lemma_sorted_parts(order, l, e, r);
    let s = join(l, e, r);
    assert forall|i: int| 0 <= i < l.len() implies order.less(#[trigger] l[i].0, k) by {
        order.splits(l[i].0, k, e.0);
    }
    assert forall|i: int| 0 <= i < r.len() implies !order.less(#[trigger] r[i].0, k) by {
        if order.less(r[i].0, k) {
            order.transitive(e.0, r[i].0, k);
        }
    }
    lemma_below_all(order, l, k);
    lemma_below_none(order, r, k);
    lemma_below_concat(order, l.push(e), r, k);
    assert(l.push(e).drop_last() =~= l);
    assert(s[l.len() as int] == e);
}

/// Inserting an absent key where it stands keeps the sequence sorted.
pub proof fn lemma_insert_sorted<K, V, C: KeyOrder<K>>(order: &C, s: Seq<(K, V)>, k: K, v: V)
    requires
        sorted(order, s),
        !holds(order, s, k),
    ensures
        sorted(order, s.insert(below(order, s, k), (k, v))),
{
    lemma_below_splits(order, s, k);
    let at = below(order, s, k);
    let t = s.insert(at, (k, v));
    assert forall|i: int, j: int| 0 <= i < j < t.len() implies order.less(
        #[trigger] t[i].0,
        #[trigger] t[j].0,
    ) by {
        if j < at {
            assert(t[i] == s[i] && t[j] == s[j]);
        } else if j == at {
            assert(t[i] == s[i]);
        } else if i < at {
            assert(t[i] == s[i] && t[j] == s[j - 1]);
        } else if i == at {
            assert(t[j] == s[j - 1]);
            assert(order.less(k, s[at].0));
            if j - 1 > at {
                order.transitive(k, s[at].0, s[j - 1].0);
            }
        } else {
            assert(t[i] == s[i - 1] && t[j] == s[j - 1]);
        }
    }
}

/// Replacing a value keeps the sequence sorted.
pub proof fn lemma_update_sorted<K, V, C: KeyOrder<K>>(order: &C, s: Seq<(K, V)>, i: int, v: V)
    requires
        sorted(order, s),
        0 <= i < s.len(),
    ensures
        sorted(order, s.update(i, (s[i].0, v))),
{
    let t = s.update(i, (s[i].0, v));
    assert forall|a: int, b: int| 0 <= a < b < t.len() implies order.less(
        #[trigger] t[a].0,
        #[trigger] t[b].0,
    ) by {
        assert(t[a].0 == s[a].0 && t[b].0 == s[b].0);
    }
}

/// The two sequences hold the same keys at the same indices.
pub open spec fn same_keys<K, V>(a: Seq<(K, V)>, b: Seq<(K, V)>) -> bool {
    &&& a.len() == b.len()
    &&& forall|i: int| 0 <= i < a.len() ==> (#[trigger] a[i]).0 == b[i].0
}

/// A sequence with the keys of a sorted sequence is sorted.
pub proof fn lemma_same_keys_sorted<K, V, C: KeyOrder<K>>(
    order: &C,
    a: Seq<(K, V)>,
    b: Seq<(K, V)>,
)
    requires
        sorted(order, a),
        same_keys(b, a),
    ensures
        sorted(order, b),
{
    assert forall|i: int, j: int| 0 <= i < j < b.len() implies order.less(
        #[trigger] b[i].0,
        #[trigger] b[j].0,
    ) by {
        assert(b[i].0 == a[i].0 && b[j].0 == a[j].0);
    }
}

/// Removing an entry keeps the sequence sorted.
pub proof fn lemma_remove_sorted<K, V, C: KeyOrder<K>>(order: &C, s: Seq<(K, V)>, i: int)
    requires
        sorted(order, s),
        0 <= i < s.len(),
    ensures
        sorted(order, s.remove(i)),
{
    let t = s.remove(i);
    assert forall|a: int, b: int| 0 <= a < b < t.len() implies order.less(
        #[trigger] t[a].0,
        #[trigger] t[b].0,
    ) by {
        let a1 = if a < i { a } else { a + 1 };
        let b1 = if b < i { b } else { b + 1 };
        assert(t[a] == s[a1] && t[b] == s[b1]);
    }
}

/// The sequence after `k` is given the value `v`: the entry that holds `k`
/// keeps its key and takes the value; where none holds it, `(k, v)` is
/// inserted where `k` stands.
pub open spec fn put<K, V, C: KeyOrder<K>>(order: &C, s: Seq<(K, V)>, k: K, v: V) -> Seq<(K, V)> {
    let at = below(order, s, k);
    if holds(order, s, k) {
        s.update(at, (s[at].0, v))
    } else {
        s.insert(at, (k, v))
    }
}

/// The entry that holds `k`, if there is one.
pub open spec fn entry_of<K, V, C: KeyOrder<K>>(order: &C, s: Seq<(K, V)>, k: K) -> Option<(K, V)> {
    if holds(order, s, k) {
        Some(s[below(order, s, k)])
    } else {
        None
    }
}

/// The value that `k` has, if it has one.
pub open spec fn value_of<K, V, C: KeyOrder<K>>(order: &C, s: Seq<(K, V)>, k: K) -> Option<V> {
    if holds(order, s, k) {
        Some(s[below(order, s, k)].1)
    } else {
        None
    }
}

/// Giving a key a value keeps the sequence sorted.
pub proof fn lemma_put_sorted<K, V, C: KeyOrder<K>>(order: &C, s: Seq<(K, V)>, k: K, v: V)
    requires
        sorted(order, s),
    ensures
        sorted(order, put(order, s, k, v)),
{
    lemma_below_bounds(order, s, k);
    if holds(order, s, k) {
        lemma_update_sorted(order, s, below(order, s, k), v);
    } else {
        lemma_insert_sorted(order, s, k, v);
    }
}

/// Giving a value to a key below a node's key changes the left subtree.
pub proof fn lemma_put_left<K, V, C: KeyOrder<K>>(
    order: &C,
    l: Seq<(K, V)>,
    e: (K, V),
    r: Seq<(K, V)>,
    k: K,
    v: V,
)
    requires
        sorted(order, join(l, e, r)),
        order.less(k, e.0),
    ensures
        put(order, join(l, e, r), k, v) =~= join(put(order, l, k, v), e, r),
        value_of(order, join(l, e, r), k) == value_of(order, l, k),
{
    lemma_descend_left(order, l, e, r, k);
    lemma_below_bounds(order, l, k);
    let at = below(order, l, k);
    if at < l.len() {
        assert(join(l, e, r)[at] == l[at]);
    }
}

/// Giving a value to a key above a node's key changes the right subtree.
pub proof fn lemma_put_right<K, V, C: KeyOrder<K>>(
    order: &C,
    l: Seq<(K, V)>,
    e: (K, V),
    r: Seq<(K, V)>,
    k: K,
    v: V,
)
    requires
        sorted(order, join(l, e, r)),
        order.less(e.0, k),
    ensures
        put(order, join(l, e, r), k, v) =~= join(l, e, put(order, r, k, v)),
        value_of(order, join(l, e, r), k) == value_of(order, r, k),
{
    lemma_descend_right(order, l, e, r, k);
    lemma_below_bounds(order, r, k);
    let at = below(order, r, k);
    if at < r.len() {
        assert(join(l, e, r)[l.len() + 1 + at] == r[at]);
    }
}

/// Giving a value to a key equivalent to a node's key changes the node.
pub proof fn lemma_put_here<K, V, C: KeyOrder<K>>(
    order: &C,
    l: Seq<(K, V)>,
    e: (K, V),
    r: Seq<(K, V)>,
    k: K,
    v: V,
)
    requires
        sorted(order, join(l, e, r)),
        equiv(order, k, e.0),
    ensures
        put(order, join(l, e, r), k, v) =~= join(l, (e.0, v), r),
        value_of(order, join(l, e, r), k) == Some(e.1),
{
    lemma_descend_here(order, l, e, r, k);
}

/// A borrowed entry as a value.
pub open spec fn unref<K, V>(e: Option<(&K, &V)>) -> Option<(K, V)> {
    match e {
        Some((k, v)) => Some((*k, *v)),
        None => None,
    }
}

/// An index as a mathematical integer.
pub open spec fn at_index(i: Option<usize>) -> Option<int> {
    match i {
        Some(i) => Some(i as int),
        None => None,
    }
}

/// The index of the neighbour of `k` in the sorted sequence `s`: toward the
/// minimum, the last entry whose key is less than `k`; toward the maximum,
/// the first whose key is greater. If `inclusive`, an entry that holds `k`
/// is its own neighbour.
pub open spec fn neighbor<K, V, C: KeyOrder<K>>(
    order: &C,
    s: Seq<(K, V)>,
    k: K,
    inclusive: bool,
    toward_min: bool,
) -> Option<int> {
    let at = below(order, s, k);
    let present = holds(order, s, k);
    if toward_min {
        if inclusive && present {
            Some(at)
        } else if at > 0 {
            Some(at - 1)
        } else {
            None
        }
    } else {
        let i = if present && !inclusive {
            at + 1
        } else {
            at
        };
        if i < s.len() {
            Some(i)
        } else {
            None
        }
    }
}

/// The index of the first entry (toward the minimum) or the last.
pub open spec fn extreme_index<K, V>(s: Seq<(K, V)>, toward_min: bool) -> Option<int> {
    if s.len() == 0 {
        None
    } else if toward_min {
        Some(0)
    } else {
        Some(s.len() - 1)
    }
}

/// The entry at an index, if there is an index.
pub open spec fn pick<K, V>(s: Seq<(K, V)>, i: Option<int>) -> Option<(K, V)> {
    match i {
        Some(i) => Some(s[i]),
        None => None,
    }
}

/// The sequence without the entry at an index, if there is an index.
pub open spec fn drop_at<K, V>(s: Seq<(K, V)>, i: Option<int>) -> Seq<(K, V)> {
    match i {
        Some(i) => s.remove(i),
        None => s,
    }
}

/// The index of the entry that holds `k`, if there is one.
pub open spec fn index_of<K, V, C: KeyOrder<K>>(order: &C, s: Seq<(K, V)>, k: K) -> Option<int> {
    if holds(order, s, k) {
        Some(below(order, s, k))
    } else {
        None
    }
}

/// The index `i` if the sequence has one such, none otherwise.
pub open spec fn in_range<K, V>(s: Seq<(K, V)>, i: int) -> Option<int> {
    if 0 <= i < s.len() {
        Some(i)
    } else {
        None
    }
}

/// The key of an entry, if there is an entry.
pub open spec fn key_of<K, V>(e: Option<(K, V)>) -> Option<K> {
    match e {
        Some(e) => Some(e.0),
        None => None,
    }
}

/// A borrowed value as a value.
pub open spec fn unref_value<V>(v: Option<&V>) -> Option<V> {
    match v {
        Some(v) => Some(*v),
        None => None,
    }
}

/// One end of a range of keys.
pub enum Bound<T> {
    /// The range includes the key.
    Included(T),
    /// The range ends before the key.
    Excluded(T),
    /// The range has no end on this side.
    Unbounded,
}

/// The bound at the key that the bound's query stands for.
pub open spec fn bound_key<Q, K, C: QueryOrder<Q, K>>(order: &C, b: Bound<&Q>) -> Bound<K> {
    match b {
        Bound::Included(q) => Bound::Included(order.key(*q)),
        Bound::Excluded(q) => Bound::Excluded(order.key(*q)),
        Bound::Unbounded => Bound::Unbounded,
    }
}

/// The key `x` is not below the lower bound `b`.
pub open spec fn admits_lower<K, C: KeyOrder<K>>(order: &C, b: Bound<K>, x: K) -> bool {
    match b {
        Bound::Included(k) => !order.less(x, k),
        Bound::Excluded(k) => order.less(k, x),
        Bound::Unbounded => true,
    }
}

/// The key `x` is not above the upper bound `b`.
pub open spec fn admits_upper<K, C: KeyOrder<K>>(order: &C, b: Bound<K>, x: K) -> bool {
    match b {
        Bound::Included(k) => !order.less(k, x),
        Bound::Excluded(k) => order.less(x, k),
        Bound::Unbounded => true,
    }
}

/// The number of entries whose key is not greater than `k`.
pub open spec fn upto<K, V, C: KeyOrder<K>>(order: &C, s: Seq<(K, V)>, k: K) -> int {
    below(order, s, k) + if holds(order, s, k) {
        1int
    } else {
        0int
    }
}

/// The index of the first entry that the lower bound admits.
pub open spec fn lower_index<K, V, C: KeyOrder<K>>(order: &C, s: Seq<(K, V)>, b: Bound<K>) -> int {
    match b {
        Bound::Included(k) => below(order, s, k),
        Bound::Excluded(k) => upto(order, s, k),
        Bound::Unbounded => 0,
    }
}

/// The index behind the last entry that the upper bound admits.
pub open spec fn upper_index<K, V, C: KeyOrder<K>>(order: &C, s: Seq<(K, V)>, b: Bound<K>) -> int {
    match b {
        Bound::Included(k) => upto(order, s, k),
        Bound::Excluded(k) => below(order, s, k),
        Bound::Unbounded => s.len() as int,
    }
}

/// The entries of `s` from index `i` on.
pub open spec fn tail<K, V>(s: Seq<(K, V)>, i: int) -> Seq<(K, V)> {
    s.subrange(i, s.len() as int)
}

/// The entries of `s` before index `i`.
pub open spec fn head<K, V>(s: Seq<(K, V)>, i: int) -> Seq<(K, V)> {
    s.subrange(0, i)
}

/// The length of a sequence as an integer.
pub open spec fn length<K, V>(s: Seq<(K, V)>) -> int {
    s.len() as int
}

/// The bound at `k`, including it or not.
pub open spec fn bound_of<K>(k: K, inclusive: bool) -> Bound<K> {
    if inclusive {
        Bound::Included(k)
    } else {
        Bound::Excluded(k)
    }
}

/// The entries of `s` within both bounds.
pub open spec fn window<K, V, C: KeyOrder<K>>(
    order: &C,
    s: Seq<(K, V)>,
    min: Bound<K>,
    max: Bound<K>,
) -> Seq<(K, V)> {
    let lo = lower_index(order, s, min);
    let hi = upper_index(order, s, max);
    if lo <= hi {
        s.subrange(lo, hi)
    } else {
        Seq::empty()
    }
}

/// In a sorted sequence the keys not greater than `k` are exactly those
/// before index `upto(s, k)`.
pub proof fn lemma_upto_splits<K, V, C: KeyOrder<K>>(order: &C, s: Seq<(K, V)>, k: K)
    requires
        sorted(order, s),
    ensures
        0 <= upto(order, s, k) <= s.len(),
        forall|i: int| 0 <= i < upto(order, s, k) ==> !order.less(k, #[trigger] s[i].0),
        forall|i: int| upto(order, s, k) <= i < s.len() ==> order.less(k, #[trigger] s[i].0),
{
    lemma_below_splits(order, s, k);
    let at = below(order, s, k);
    assert forall|i: int| 0 <= i < upto(order, s, k) implies !order.less(k, #[trigger] s[i].0) by {
        if i < at {
            if order.less(k, s[i].0) {
                order.transitive(k, s[i].0, k);
                order.irreflexive(k);
            }
        }
    }
    assert forall|i: int| upto(order, s, k) <= i < s.len() implies order.less(
        k,
        #[trigger] s[i].0,
    ) by {
        if i == at {
        } else {
            assert(order.less(s[at].0, s[i].0));
            order.splits(s[at].0, k, s[i].0);
        }
    }
}

/// The bounds split a sorted sequence: the lower bound admits the entries
/// from `lower_index` on, the upper bound those before `upper_index`.
pub proof fn lemma_bound_splits<K, V, C: KeyOrder<K>>(order: &C, s: Seq<(K, V)>, b: Bound<K>)
    requires
        sorted(order, s),
    ensures
        0 <= lower_index(order, s, b) <= s.len(),
        0 <= upper_index(order, s, b) <= s.len(),
        forall|i: int|
            0 <= i < s.len() ==> (admits_lower(order, b, #[trigger] s[i].0) <==> lower_index(
                order,
                s,
                b,
            ) <= i),
        forall|i: int|
            0 <= i < s.len() ==> (admits_upper(order, b, #[trigger] s[i].0) <==> i < upper_index(
                order,
                s,
                b,
            )),
{
    match b {
        Bound::Included(k) => {
            lemma_below_splits(order, s, k);
            lemma_upto_splits(order, s, k);
        },
        Bound::Excluded(k) => {
            lemma_below_splits(order, s, k);
            lemma_upto_splits(order, s, k);
        },
        Bound::Unbounded => {},
    }
}

/// The index before which a lower bound admits nothing and at which it
/// admits the entry is its `lower_index`.
pub proof fn lemma_lower_index<K, V, C: KeyOrder<K>>(
    order: &C,
    s: Seq<(K, V)>,
    b: Bound<K>,
    j: int,
)
    requires
        sorted(order, s),
        0 <= j <= s.len(),
        forall|i: int| 0 <= i < j ==> !admits_lower(order, b, #[trigger] s[i].0),
        j < s.len() ==> admits_lower(order, b, s[j].0),
    ensures
        lower_index(order, s, b) == j,
{
    lemma_bound_splits(order, s, b);
    let lo = lower_index(order, s, b);
    if lo < j {
        assert(admits_lower(order, b, s[lo].0));
    } else if lo > j {
        assert(admits_lower(order, b, s[j].0));
    }
}

/// The index from which an upper bound admits nothing and before which it
/// admits the entry is its `upper_index`.
pub proof fn lemma_upper_index<K, V, C: KeyOrder<K>>(
    order: &C,
    s: Seq<(K, V)>,
    b: Bound<K>,
    j: int,
)
    requires
        sorted(order, s),
        0 <= j <= s.len(),
        forall|i: int| j <= i < s.len() ==> !admits_upper(order, b, #[trigger] s[i].0),
        j > 0 ==> admits_upper(order, b, s[j - 1].0),
    ensures
        upper_index(order, s, b) == j,
{
    lemma_bound_splits(order, s, b);
    let hi = upper_index(order, s, b);
    if hi > j {
        assert(admits_upper(order, b, s[j].0));
    } else if hi < j {
        assert(admits_upper(order, b, s[j - 1].0));
    }
}

/// What a lower bound does not admit, it admits nothing before.
pub proof fn lemma_prefix_under<K, V, C: KeyOrder<K>>(
    order: &C,
    s: Seq<(K, V)>,
    b: Bound<K>,
    n: int,
)
    requires
        sorted(order, s),
        0 <= n < s.len(),
        !admits_lower(order, b, s[n].0),
    ensures
        forall|i: int| 0 <= i <= n ==> !admits_lower(order, b, #[trigger] s[i].0),
{
    lemma_bound_splits(order, s, b);
}

/// What an upper bound does not admit, it admits nothing behind.
pub proof fn lemma_suffix_over<K, V, C: KeyOrder<K>>(
    order: &C,
    s: Seq<(K, V)>,
    b: Bound<K>,
    n: int,
)
    requires
        sorted(order, s),
        0 <= n < s.len(),
        !admits_upper(order, b, s[n].0),
    ensures
        forall|i: int| n <= i < s.len() ==> !admits_upper(order, b, #[trigger] s[i].0),
{
    lemma_bound_splits(order, s, b);
}

/// A part of a sorted sequence is sorted.
pub proof fn lemma_subrange_sorted<K, V, C: KeyOrder<K>>(
    order: &C,
    s: Seq<(K, V)>,
    a: int,
    b: int,
)
    requires
        sorted(order, s),
        0 <= a <= b <= s.len(),
    ensures
        sorted(order, s.subrange(a, b)),
{
    let t = s.subrange(a, b);
    assert forall|i: int, j: int| 0 <= i < j < t.len() implies order.less(
        #[trigger] t[i].0,
        #[trigger] t[j].0,
    ) by {
        assert(t[i] == s[a + i] && t[j] == s[a + j]);
    }
}

/// The end of a sorted sequence is sorted.
pub proof fn lemma_tail_sorted<K, V, C: KeyOrder<K>>(order: &C, s: Seq<(K, V)>, i: int)
    requires
        sorted(order, s),
        0 <= i <= s.len(),
    ensures
        sorted(order, tail(s, i)),
{
    lemma_subrange_sorted(order, s, i, s.len() as int);
}

/// Cutting a sorted sequence at the lower bound and then at the upper bound
/// leaves the window.
pub proof fn lemma_window_cut<K, V, C: KeyOrder<K>>(
    order: &C,
    s: Seq<(K, V)>,
    min: Bound<K>,
    max: Bound<K>,
)
    requires
        sorted(order, s),
    ensures
        ({
            let t = tail(s, lower_index(order, s, min));
            head(t, upper_index(order, t, max)) =~= window(order, s, min, max)
        }),
{
    lemma_bound_splits(order, s, min);
    lemma_bound_splits(order, s, max);
    let lo = lower_index(order, s, min);
    let hi = upper_index(order, s, max);
    let t = s.subrange(lo, s.len() as int);
    lemma_subrange_sorted(order, s, lo, s.len() as int);
    let j = if hi >= lo {
        hi - lo
    } else {
        0
    };
    assert forall|i: int| j <= i < t.len() implies !admits_upper(order, max, #[trigger] t[i].0) by {
        assert(t[i] == s[lo + i]);
    }
    if j > 0 {
        assert(t[j - 1] == s[lo + j - 1]);
    }
    lemma_upper_index(order, t, max, j);
}

} // verus!
