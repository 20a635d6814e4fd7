//! The order of strings: by the code points of their characters, the first
//! difference deciding, a proper prefix being less.

use vstd::prelude::*;

verus! {

/// The code point of a character.
pub open spec fn code(c: char) -> int {
    c as int
}

/// `a` comes before `b`: at the first index where they differ `a` has the
/// smaller code point, or `a` ends there and `b` does not.
pub open spec fn lex_less(a: Seq<char>, b: Seq<char>) -> bool
    decreases a.len(),
{
    if b.len() == 0 {
        false
    } else if a.len() == 0 {
        true
    } else if code(a[0]) != code(b[0]) {
        code(a[0]) < code(b[0])
    } else {
        lex_less(a.drop_first(), b.drop_first())
    }
}

/// No string comes before itself.
pub proof fn lemma_lex_irreflexive(a: Seq<char>)
    ensures
        !lex_less(a, a),
    decreases a.len(),
{
    if a.len() > 0 {
        lemma_lex_irreflexive(a.drop_first());
    }
}

/// Coming before is transitive.
pub proof fn lemma_lex_transitive(a: Seq<char>, b: Seq<char>, c: Seq<char>)
    requires
        lex_less(a, b),
        lex_less(b, c),
    ensures
        lex_less(a, c),
    decreases a.len(),
{
    if a.len() > 0 && code(a[0]) == code(b[0]) && code(b[0]) == code(c[0]) {
        lemma_lex_transitive(a.drop_first(), b.drop_first(), c.drop_first());
    }
}

/// Of two strings one comes before the other, or they are the same.
pub proof fn lemma_lex_total(a: Seq<char>, b: Seq<char>)
    ensures
        lex_less(a, b) || lex_less(b, a) || a =~= b,
    decreases a.len(),
{
    if a.len() > 0 && b.len() > 0 && code(a[0]) == code(b[0]) {
        lemma_lex_total(a.drop_first(), b.drop_first());
        assert(a[0] == b[0]);
        if a.drop_first() =~= b.drop_first() {
            assert(a =~= seq![a[0]] + a.drop_first());
            assert(b =~= seq![b[0]] + b.drop_first());
        }
    }
}

/// Where `a` comes before `c`, every string comes behind `a` or before `c`.
pub proof fn lemma_lex_splits(a: Seq<char>, b: Seq<char>, c: Seq<char>)
    requires
        lex_less(a, c),
    ensures
        lex_less(a, b) || lex_less(b, c),
{
    lemma_lex_total(a, b);
    if lex_less(b, a) {
        lemma_lex_transitive(b, a, c);
    }
}

} // verus!
