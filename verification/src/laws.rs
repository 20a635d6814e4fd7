//! Laws of the containers, stated over their model: a sequence of entries
//! that is sorted by a key order.

use crate::model::admits_lower;
use crate::model::admits_upper;
use crate::model::below;
use crate::model::drop_at;
use crate::model::entry_of;
use crate::model::equiv;
use crate::model::holds;
use crate::model::in_range;
use crate::model::index_of;
use crate::model::lemma_below_bounds;
use crate::model::lemma_below_splits;
use crate::model::lemma_below_unique;
use crate::model::lemma_bound_splits;
use crate::model::lemma_put_sorted;
use crate::model::lemma_remove_sorted;
use crate::model::lower_index;
use crate::model::pick;
use crate::model::put;
use crate::model::sorted;
use crate::model::upper_index;
use crate::model::value_of;
use crate::model::window;
use crate::model::Bound;
use crate::node::balanced;
use crate::node::count;
use crate::node::entries;
use crate::node::lemma_count;
use crate::node::level;
use crate::node::right_of;
use crate::node::Link;
use crate::order::KeyOrder;
use vstd::prelude::*;

verus! {

/// Equivalence of keys is transitive.
pub proof fn lemma_equiv_transitive<K, C: KeyOrder<K>>(order: &C, a: K, b: K, c: K)
    requires
        equiv(order, a, b),
        equiv(order, b, c),
    ensures
        equiv(order, a, c),
{
    if order.less(a, c) {
        order.splits(a, b, c);
    }
    if order.less(c, a) {
        order.splits(c, b, a);
    }
}

/// In a sorted sequence, an entry with a key equivalent to `k` stands at
/// index `below(s, k)`, and the sequence holds `k`.
pub proof fn lemma_equivalent_entry<K, V, C: KeyOrder<K>>(order: &C, s: Seq<(K, V)>, k: K, i: int)
    requires
        sorted(order, s),
        0 <= i < s.len(),
        equiv(order, s[i].0, k),
    ensures
        below(order, s, k) == i,
        holds(order, s, k),
{
    assert forall|j: int| 0 <= j < i implies order.less(#[trigger] s[j].0, k) by {
        order.splits(s[j].0, k, s[i].0);
    }
    assert forall|j: int| i <= j < s.len() implies !order.less(#[trigger] s[j].0, k) by {
        if j > i && order.less(s[j].0, k) {
            order.transitive(s[i].0, s[j].0, k);
        }
    }
    lemma_below_unique(order, s, k, i);
}

/// A sorted sequence holds `k` exactly if one of its keys is equivalent to
/// `k`.
pub proof fn lemma_holds_some<K, V, C: KeyOrder<K>>(order: &C, s: Seq<(K, V)>, k: K)
    requires
        sorted(order, s),
    ensures
        holds(order, s, k) <==> exists|i: int| 0 <= i < s.len() && equiv(order, #[trigger] s[i].0, k),
{
    lemma_below_splits(order, s, k);
    if holds(order, s, k) {
        let at = below(order, s, k);
        assert(equiv(order, s[at].0, k));
    }
    if exists|i: int| 0 <= i < s.len() && equiv(order, #[trigger] s[i].0, k) {
        let i = choose|i: int| 0 <= i < s.len() && equiv(order, #[trigger] s[i].0, k);
        lemma_equivalent_entry(order, s, k, i);
    }
}

/// What balance means at every node of a balanced tree: a leaf has level 1;
/// the left child is exactly one level below its parent; the right child is
/// on its parent's level or one below, and where it is on its parent's
/// level, its own right child is strictly lower; and the size recorded is
/// one more than the sizes recorded by the children.
pub proof fn law_levels<K, V>(link: Link<K, V>)
    requires
        balanced(link),
    ensures
        link matches Some(n) ==> {
            &&& n.left.is_none() && n.right.is_none() ==> n.balance.0 == 1
            &&& level(n.left) == n.balance.0 - 1
            &&& level(n.right) == n.balance.0 || level(n.right) == n.balance.0 - 1
            &&& level(n.right) == n.balance.0 ==> level(right_of(n.right)) < n.balance.0
            &&& n.size == 1 + count(n.left) + count(n.right)
            &&& balanced(n.left)
            &&& balanced(n.right)
        },
        count(link) == entries(link).len(),
{
    lemma_count(link);
}

/// The entries stay sorted by insertion and by removal: the key sequence of
/// a container is strictly increasing after every operation.
pub proof fn law_stays_sorted<K, V, C: KeyOrder<K>>(order: &C, s: Seq<(K, V)>, k: K, v: V)
    requires
        sorted(order, s),
    ensures
        sorted(order, put(order, s, k, v)),
        sorted(order, drop_at(s, index_of(order, s, k))),
{
    lemma_put_sorted(order, s, k, v);
    lemma_below_bounds(order, s, k);
    if holds(order, s, k) {
        lemma_remove_sorted(order, s, below(order, s, k));
    }
}

/// After a key is given a value, the key has that value.
pub proof fn law_get_after_insert<K, V, C: KeyOrder<K>>(order: &C, s: Seq<(K, V)>, k: K, v: V)
    requires
        sorted(order, s),
    ensures
        value_of(order, put(order, s, k, v), k) == Some(v),
{
    lemma_below_splits(order, s, k);
    lemma_put_sorted(order, s, k, v);
    let at = below(order, s, k);
    let t = put(order, s, k, v);
    order.irreflexive(k);
    if holds(order, s, k) {
        assert(t[at] == (s[at].0, v));
    } else {
        assert(t[at] == (k, v));
    }
    lemma_equivalent_entry(order, t, k, at);
}

/// After a key is removed, the sequence does not hold it, and none of the
/// keys left is equivalent to it.
pub proof fn law_absent_after_remove<K, V, C: KeyOrder<K>>(order: &C, s: Seq<(K, V)>, k: K)
    requires
        sorted(order, s),
    ensures
        !holds(order, drop_at(s, index_of(order, s, k)), k),
        value_of(order, drop_at(s, index_of(order, s, k)), k).is_none(),
        forall|i: int|
            0 <= i < drop_at(s, index_of(order, s, k)).len() ==> !equiv(
                order,
                #[trigger] drop_at(s, index_of(order, s, k))[i].0,
                k,
            ),
{
    let t = drop_at(s, index_of(order, s, k));
    lemma_below_splits(order, s, k);
    let at = below(order, s, k);
    assert forall|i: int| 0 <= i < t.len() implies !equiv(order, #[trigger] t[i].0, k) by {
        if holds(order, s, k) {
            let j = if i < at {
                i
            } else {
                i + 1
            };
            assert(t[i] == s[j]);
            if equiv(order, s[j].0, k) {
                lemma_equivalent_entry(order, s, k, j);
            }
        } else {
            if equiv(order, s[i].0, k) {
                lemma_equivalent_entry(order, s, k, i);
            }
        }
    }
    if holds(order, s, k) {
        lemma_remove_sorted(order, s, at);
    }
    lemma_holds_some(order, t, k);
}

/// The first insertion of a key returns nothing and makes the sequence one
/// longer; a second insertion returns the first value and keeps the length.
pub proof fn law_insert_twice<K, V, C: KeyOrder<K>>(order: &C, s: Seq<(K, V)>, k: K, v1: V, v2: V)
    requires
        sorted(order, s),
        !holds(order, s, k),
    ensures
        value_of(order, s, k).is_none(),
        put(order, s, k, v1).len() == s.len() + 1,
        value_of(order, put(order, s, k, v1), k) == Some(v1),
        put(order, put(order, s, k, v1), k, v2).len() == s.len() + 1,
        value_of(order, put(order, put(order, s, k, v1), k, v2), k) == Some(v2),
{
    lemma_below_bounds(order, s, k);
    law_get_after_insert(order, s, k, v1);
    lemma_below_bounds(order, put(order, s, k, v1), k);
    lemma_put_sorted(order, s, k, v1);
    law_get_after_insert(order, put(order, s, k, v1), k, v2);
}

/// An insertion loses no key and doubles none: afterwards the sequence is
/// sorted, so no two of its keys are equivalent; it holds a key exactly if
/// it held it before or the key is equivalent to the inserted one; and every
/// key that is not equivalent to the inserted one has the entry it had.
pub proof fn law_insert_keys<K, V, C: KeyOrder<K>>(order: &C, s: Seq<(K, V)>, k: K, v: V, other: K)
    requires
        sorted(order, s),
    ensures
        sorted(order, put(order, s, k, v)),
        holds(order, put(order, s, k, v), other) <==> holds(order, s, other) || equiv(
            order,
            other,
            k,
        ),
        !equiv(order, other, k) ==> entry_of(order, put(order, s, k, v), other) == entry_of(
            order,
            s,
            other,
        ),
        put(order, s, k, v).len() == s.len() + if holds(order, s, k) {
            0int
        } else {
            1int
        },
{
    lemma_put_sorted(order, s, k, v);
    lemma_below_splits(order, s, k);
    let at = below(order, s, k);
    let t = put(order, s, k, v);
    lemma_holds_some(order, s, other);
    lemma_holds_some(order, t, other);
    order.irreflexive(k);
    if holds(order, s, k) {
        assert(t[at] == (s[at].0, v));
        assert(equiv(order, s[at].0, k));
    } else {
        assert(t[at] == (k, v));
    }
    if holds(order, s, other) {
        let io = below(order, s, other);
        lemma_below_splits(order, s, other);
        assert(equiv(order, s[io].0, other));
        if holds(order, s, k) {
            assert(t[io].0 == s[io].0);
            lemma_equivalent_entry(order, t, other, io);
            if io == at {
                lemma_equiv_transitive(order, other, s[at].0, k);
            }
        } else {
            let jo = if io < at {
                io
            } else {
                io + 1
            };
            assert(t[jo] == s[io]);
            lemma_equivalent_entry(order, t, other, jo);
        }
    } else if equiv(order, other, k) {
        if holds(order, s, k) {
            lemma_equiv_transitive(order, s[at].0, k, other);
            lemma_equivalent_entry(order, s, other, at);
        } else {
            lemma_equivalent_entry(order, t, other, at);
        }
    } else if holds(order, t, other) {
        let jo = below(order, t, other);
        lemma_below_splits(order, t, other);
        assert(equiv(order, t[jo].0, other));
        if holds(order, s, k) {
            assert(t[jo].0 == s[jo].0);
            lemma_equivalent_entry(order, s, other, jo);
        } else {
            if jo == at {
                assert(false);
            }
            let io = if jo < at {
                jo
            } else {
                jo - 1
            };
            assert(t[jo] == s[io]);
            lemma_equivalent_entry(order, s, other, io);
        }
    }
}

/// A removal makes the sequence one shorter exactly if it held the key, and
/// leaves every key that is not equivalent to the removed one with the entry
/// it had.
pub proof fn law_remove_others<K, V, C: KeyOrder<K>>(order: &C, s: Seq<(K, V)>, k: K, other: K)
    requires
        sorted(order, s),
        !equiv(order, other, k),
    ensures
        drop_at(s, index_of(order, s, k)).len() == s.len() - if holds(order, s, k) {
            1int
        } else {
            0int
        },
        entry_of(order, drop_at(s, index_of(order, s, k)), other) == entry_of(order, s, other),
{
    lemma_below_splits(order, s, k);
    lemma_below_splits(order, s, other);
    if holds(order, s, k) {
        let at = below(order, s, k);
        let t = s.remove(at);
        lemma_remove_sorted(order, s, at);
        lemma_below_splits(order, t, other);
        lemma_holds_some(order, t, other);
        lemma_holds_some(order, s, other);
        if holds(order, s, other) {
            let io = below(order, s, other);
            assert(equiv(order, s[io].0, other));
            if io == at {
                lemma_equiv_transitive(order, other, s[at].0, k);
            }
            let jo = if io < at {
                io
            } else {
                io - 1
            };
            assert(t[jo] == s[io]);
            lemma_equivalent_entry(order, t, other, jo);
        } else {
            if holds(order, t, other) {
                let jo = below(order, t, other);
                assert(equiv(order, t[jo].0, other));
                let io = if jo < at {
                    jo
                } else {
                    jo + 1
                };
                assert(t[jo] == s[io]);
                lemma_equivalent_entry(order, s, other, io);
            }
        }
    }
}

/// The window of a sorted sequence between two bounds holds exactly the
/// entries that both bounds admit, in their order.
pub proof fn law_window_admits<K, V, C: KeyOrder<K>>(
    order: &C,
    s: Seq<(K, V)>,
    min: Bound<K>,
    max: Bound<K>,
)
    requires
        sorted(order, s),
    ensures
        window(order, s, min, max) =~= s.filter(
            |e: (K, V)| admits_lower(order, min, e.0) && admits_upper(order, max, e.0),
        ),
{
    lemma_bound_splits(order, s, min);
    lemma_bound_splits(order, s, max);
    let lo = lower_index(order, s, min);
    let hi = upper_index(order, s, max);
    let f = |e: (K, V)| admits_lower(order, min, e.0) && admits_upper(order, max, e.0);
    lemma_filter_window(s, f, lo, hi);
}

/// Where a predicate holds of exactly the entries from `lo` to before `hi`,
/// filtering by it leaves that part of the sequence.
pub proof fn lemma_filter_window<T>(s: Seq<T>, f: spec_fn(T) -> bool, lo: int, hi: int)
    requires
        0 <= lo <= s.len(),
        0 <= hi <= s.len(),
        forall|i: int| 0 <= i < s.len() ==> (f(#[trigger] s[i]) <==> lo <= i < hi),
    ensures
        s.filter(f) =~= if lo <= hi {
            s.subrange(lo, hi)
        } else {
            Seq::empty()
        },
    decreases s.len(),
{
    reveal(Seq::filter);
    if s.len() > 0 {
        let t = s.drop_last();
        let n = s.len() - 1;
        let lo1 = if lo <= n {
            lo
        } else {
            n
        };
        let hi1 = if hi <= n {
            hi
        } else {
            n
        };
        assert forall|i: int| 0 <= i < t.len() implies (f(#[trigger] t[i]) <==> lo1 <= i < hi1) by {
            assert(t[i] == s[i]);
        }
        lemma_filter_window(t, f, lo1, hi1);
        if f(s.last()) {
            assert(lo <= n < hi);
            assert(t.subrange(lo1, hi1).push(s.last()) =~= s.subrange(lo, hi));
        } else {
            if lo1 <= hi1 {
                assert(t.subrange(lo1, hi1) =~= if lo <= hi {
                    s.subrange(lo, hi)
                } else {
                    Seq::empty()
                });
            }
        }
    }
}

/// What an iterator yields from the back is the reverse of what it yields
/// from the front: where `front` holds the entries of `s` in their order and
/// `back` holds them from the last to the first, `back` is `front`
/// reversed.
pub proof fn law_back_is_reverse<T>(s: Seq<T>, front: Seq<T>, back: Seq<T>)
    requires
        front.len() == s.len(),
        back.len() == s.len(),
        forall|i: int| 0 <= i < s.len() ==> #[trigger] front[i] == s[i],
        forall|i: int| 0 <= i < s.len() ==> #[trigger] back[i] == s[s.len() - 1 - i],
    ensures
        back =~= front.reverse(),
        front =~= s,
{
}

/// Selecting and ranking are inverse: the entry at the rank of a key that
/// the sequence holds is the entry that holds the key, and the rank of the
/// key at a valid index is that index.
pub proof fn law_select_rank<K, V, C: KeyOrder<K>>(order: &C, s: Seq<(K, V)>, k: K, i: int)
    requires
        sorted(order, s),
    ensures
        holds(order, s, k) ==> pick(s, in_range(s, below(order, s, k))) == entry_of(order, s, k),
        0 <= i < s.len() ==> below(order, s, s[i].0) == i && in_range(
            s,
            below(order, s, s[i].0),
        ) == Some(i),
{
    lemma_below_bounds(order, s, k);
    if 0 <= i < s.len() {
        order.irreflexive(s[i].0);
        lemma_equivalent_entry(order, s, s[i].0, i);
    }
}

/// Filling a vacant entry, or taking an occupied one as it is, leaves what
/// inserting the key only where it is absent and then writing its value
/// leaves: the same sequence, and the same value handed out before it is
/// written to `w`.
pub proof fn law_or_insert<K, V, C: KeyOrder<K>>(order: &C, s: Seq<(K, V)>, k: K, v: V, w: V)
    requires
        sorted(order, s),
    ensures
        ({
            let at = below(order, s, k);
            let by_entry = if holds(order, s, k) {
                s.update(at, (s[at].0, w))
            } else {
                s.insert(at, (k, w))
            };
            let inserted = if holds(order, s, k) {
                s
            } else {
                put(order, s, k, v)
            };
            let at2 = below(order, inserted, k);
            &&& holds(order, inserted, k)
            &&& by_entry =~= inserted.update(at2, (inserted[at2].0, w))
            &&& inserted[at2].1 == if holds(order, s, k) {
                s[at].1
            } else {
                v
            }
        }),
{
    lemma_below_splits(order, s, k);
    let at = below(order, s, k);
    if !holds(order, s, k) {
        law_get_after_insert(order, s, k, v);
        let t = put(order, s, k, v);
        lemma_put_sorted(order, s, k, v);
        order.irreflexive(k);
        assert(t[at] == (k, v));
        lemma_equivalent_entry(order, t, k, at);
    }
}

} // verus!
