//! Key orders: the three-way comparison a tree is sorted by.

use crate::text::lemma_lex_irreflexive;
use crate::text::lemma_lex_splits;
use crate::text::lemma_lex_transitive;
use crate::text::lex_less;
use compare::Compare;
use compare::Natural;
use std::cmp::Ordering;
use vstd::prelude::*;
use vstd::std_specs::cmp::OrdSpec;

verus! {

/// `compare::Natural`, the comparator that orders keys by their own `Ord`.
/// It is taken as an opaque type: nothing is claimed of what it holds.
#[verifier::external_type_specification]
#[verifier::external_body]
#[verifier::reject_recursive_types(T)]
pub struct ExNatural<T: Ord + ?Sized>(Natural<T>);

/// A three-way comparison of keys together with the strict order it decides.
///
/// `less` must be a strict weak order: irreflexive, transitive, and such that
/// a key between two others in no way is equivalent to one of them. Two keys
/// are equivalent when neither is less than the other; equivalent keys need
/// not be identical.
pub trait KeyOrder<K> {
    /// The strict order on keys.
    spec fn less(&self, a: K, b: K) -> bool;

    /// Compares two keys.
    fn compare(&self, a: &K, b: &K) -> (o: Ordering)
        ensures
            o == three_way(self.less(*a, *b), self.less(*b, *a)),
    ;

    /// No key is less than itself.
    proof fn irreflexive(&self, a: K)
        ensures
            !self.less(a, a),
    ;

    /// `less` is transitive.
    proof fn transitive(&self, a: K, b: K, c: K)
        requires
            self.less(a, b),
            self.less(b, c),
        ensures
            self.less(a, c),
    ;

    /// If `a` is less than `c`, every key is above `a` or below `c`.
    proof fn splits(&self, a: K, b: K, c: K)
        requires
            self.less(a, c),
        ensures
            self.less(a, b) || self.less(b, c),
    ;
}

/// A key order that can also place a query of another type among the keys:
/// the query is compared as the key that it stands for. Every key order
/// places its own keys.
pub trait QueryOrder<Q, K>: KeyOrder<K> {
    /// The key that a query stands for.
    spec fn key(&self, q: Q) -> K;

    /// Compares a query with a key.
    fn compare_query(&self, q: &Q, k: &K) -> (o: Ordering)
        ensures
            o == three_way(self.less(self.key(*q), *k), self.less(*k, self.key(*q))),
    ;
}

impl<K, C: KeyOrder<K>> QueryOrder<K, K> for C {
    open spec fn key(&self, q: K) -> K {
        q
    }

    fn compare_query(&self, q: &K, k: &K) -> (o: Ordering) {
        self.compare(q, k)
    }
}

/// The result of a three-way comparison, given which side is less.
pub open spec fn three_way(lt: bool, gt: bool) -> Ordering {
    if lt {
        Ordering::Less
    } else if gt {
        Ordering::Greater
    } else {
        Ordering::Equal
    }
}

/// Calls `compare::Compare::compare` on a `compare::Natural`, whose body is
/// `Ord::cmp(l, r)`. The contract claims what is claimed of `Ord::cmp`
/// itself: where the key type's `cmp` obeys its specification, the result is
/// the one the specification gives. Nothing is proved of it.
#[verifier::external_body]
fn natural_compare<K: Ord>(order: &Natural<K>, a: &K, b: &K) -> (o: Ordering)
    ensures
        K::obeys_cmp_spec() ==> o == a.cmp_spec(b),
{
    Compare::compare(order, a, b)
}

/// Calls `compare::Compare::compare` on a `compare::Natural<String>`, whose
/// body is `Ord::cmp(l, r)`. std documents that strings are ordered
/// lexicographically by their bytes, which orders them by the code points of
/// their characters; the contract claims that order. Nothing is proved of it.
#[verifier::external_body]
fn natural_compare_text(order: &Natural<String>, a: &String, b: &String) -> (o: Ordering)
    ensures
        o == three_way(lex_less(a@, b@), lex_less(b@, a@)),
{
    Compare::compare(order, a, b)
}

/// Calls `compare::natural`, which makes the comparator of a key type's own
/// order. Nothing is claimed of the result.
#[verifier::external_body]
pub(crate) fn natural_order<K: Ord>() -> Natural<K> {
    compare::natural()
}

impl KeyOrder<u8> for Natural<u8> {
    open spec fn less(&self, a: u8, b: u8) -> bool {
        a < b
    }

    fn compare(&self, a: &u8, b: &u8) -> (o: Ordering) {
        natural_compare(self, a, b)
    }

    proof fn irreflexive(&self, a: u8) {
    }

    proof fn transitive(&self, a: u8, b: u8, c: u8) {
    }

    proof fn splits(&self, a: u8, b: u8, c: u8) {
    }
}

impl KeyOrder<u16> for Natural<u16> {
    open spec fn less(&self, a: u16, b: u16) -> bool {
        a < b
    }

    fn compare(&self, a: &u16, b: &u16) -> (o: Ordering) {
        natural_compare(self, a, b)
    }

    proof fn irreflexive(&self, a: u16) {
    }

    proof fn transitive(&self, a: u16, b: u16, c: u16) {
    }

    proof fn splits(&self, a: u16, b: u16, c: u16) {
    }
}

impl KeyOrder<u32> for Natural<u32> {
    open spec fn less(&self, a: u32, b: u32) -> bool {
        a < b
    }

    fn compare(&self, a: &u32, b: &u32) -> (o: Ordering) {
        natural_compare(self, a, b)
    }

    proof fn irreflexive(&self, a: u32) {
    }

    proof fn transitive(&self, a: u32, b: u32, c: u32) {
    }

    proof fn splits(&self, a: u32, b: u32, c: u32) {
    }
}

impl KeyOrder<u64> for Natural<u64> {
    open spec fn less(&self, a: u64, b: u64) -> bool {
        a < b
    }

    fn compare(&self, a: &u64, b: &u64) -> (o: Ordering) {
        natural_compare(self, a, b)
    }

    proof fn irreflexive(&self, a: u64) {
    }

    proof fn transitive(&self, a: u64, b: u64, c: u64) {
    }

    proof fn splits(&self, a: u64, b: u64, c: u64) {
    }
}

impl KeyOrder<u128> for Natural<u128> {
    open spec fn less(&self, a: u128, b: u128) -> bool {
        a < b
    }

    fn compare(&self, a: &u128, b: &u128) -> (o: Ordering) {
        natural_compare(self, a, b)
    }

    proof fn irreflexive(&self, a: u128) {
    }

    proof fn transitive(&self, a: u128, b: u128, c: u128) {
    }

    proof fn splits(&self, a: u128, b: u128, c: u128) {
    }
}

impl KeyOrder<usize> for Natural<usize> {
    open spec fn less(&self, a: usize, b: usize) -> bool {
        a < b
    }

    fn compare(&self, a: &usize, b: &usize) -> (o: Ordering) {
        natural_compare(self, a, b)
    }

    proof fn irreflexive(&self, a: usize) {
    }

    proof fn transitive(&self, a: usize, b: usize, c: usize) {
    }

    proof fn splits(&self, a: usize, b: usize, c: usize) {
    }
}

impl KeyOrder<i8> for Natural<i8> {
    open spec fn less(&self, a: i8, b: i8) -> bool {
        a < b
    }

    fn compare(&self, a: &i8, b: &i8) -> (o: Ordering) {
        natural_compare(self, a, b)
    }

    proof fn irreflexive(&self, a: i8) {
    }

    proof fn transitive(&self, a: i8, b: i8, c: i8) {
    }

    proof fn splits(&self, a: i8, b: i8, c: i8) {
    }
}

impl KeyOrder<i16> for Natural<i16> {
    open spec fn less(&self, a: i16, b: i16) -> bool {
        a < b
    }

    fn compare(&self, a: &i16, b: &i16) -> (o: Ordering) {
        natural_compare(self, a, b)
    }

    proof fn irreflexive(&self, a: i16) {
    }

    proof fn transitive(&self, a: i16, b: i16, c: i16) {
    }

    proof fn splits(&self, a: i16, b: i16, c: i16) {
    }
}

impl KeyOrder<i32> for Natural<i32> {
    open spec fn less(&self, a: i32, b: i32) -> bool {
        a < b
    }

    fn compare(&self, a: &i32, b: &i32) -> (o: Ordering) {
        natural_compare(self, a, b)
    }

    proof fn irreflexive(&self, a: i32) {
    }

    proof fn transitive(&self, a: i32, b: i32, c: i32) {
    }

    proof fn splits(&self, a: i32, b: i32, c: i32) {
    }
}

impl KeyOrder<i64> for Natural<i64> {
    open spec fn less(&self, a: i64, b: i64) -> bool {
        a < b
    }

    fn compare(&self, a: &i64, b: &i64) -> (o: Ordering) {
        natural_compare(self, a, b)
    }

    proof fn irreflexive(&self, a: i64) {
    }

    proof fn transitive(&self, a: i64, b: i64, c: i64) {
    }

    proof fn splits(&self, a: i64, b: i64, c: i64) {
    }
}

impl KeyOrder<i128> for Natural<i128> {
    open spec fn less(&self, a: i128, b: i128) -> bool {
        a < b
    }

    fn compare(&self, a: &i128, b: &i128) -> (o: Ordering) {
        natural_compare(self, a, b)
    }

    proof fn irreflexive(&self, a: i128) {
    }

    proof fn transitive(&self, a: i128, b: i128, c: i128) {
    }

    proof fn splits(&self, a: i128, b: i128, c: i128) {
    }
}

impl KeyOrder<isize> for Natural<isize> {
    open spec fn less(&self, a: isize, b: isize) -> bool {
        a < b
    }

    fn compare(&self, a: &isize, b: &isize) -> (o: Ordering) {
        natural_compare(self, a, b)
    }

    proof fn irreflexive(&self, a: isize) {
    }

    proof fn transitive(&self, a: isize, b: isize, c: isize) {
    }

    proof fn splits(&self, a: isize, b: isize, c: isize) {
    }
}

impl KeyOrder<String> for Natural<String> {
    open spec fn less(&self, a: String, b: String) -> bool {
        lex_less(a@, b@)
    }

    fn compare(&self, a: &String, b: &String) -> (o: Ordering) {
        natural_compare_text(self, a, b)
    }

    proof fn irreflexive(&self, a: String) {
        lemma_lex_irreflexive(a@);
    }

    proof fn transitive(&self, a: String, b: String, c: String) {
        lemma_lex_transitive(a@, b@, c@);
    }

    proof fn splits(&self, a: String, b: String, c: String) {
        lemma_lex_splits(a@, b@, c@);
    }
}

/// The reverse of a key order: what was greater is less.
pub struct Reversed<C>(pub C);

impl<K, C: KeyOrder<K>> KeyOrder<K> for Reversed<C> {
    open spec fn less(&self, a: K, b: K) -> bool {
        self.0.less(b, a)
    }

    fn compare(&self, a: &K, b: &K) -> (o: Ordering) {
        self.0.compare(b, a)
    }

    proof fn irreflexive(&self, a: K) {
        self.0.irreflexive(a);
    }

    proof fn transitive(&self, a: K, b: K, c: K) {
        self.0.transitive(c, b, a);
    }

    proof fn splits(&self, a: K, b: K, c: K) {
        self.0.splits(c, b, a);
    }
}

} // verus!
