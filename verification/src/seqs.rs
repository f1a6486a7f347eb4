//! Counting and summing over sequences: the arithmetic backbone of the
//! dependency analyzers and the variant counter.

use vstd::prelude::*;

verus! {

/// Sum of `f` over all elements of `s`.
pub open spec fn sum_over<T>(s: Seq<T>, f: spec_fn(T) -> nat) -> nat
    decreases s.len(),
{
    if s.len() == 0 {
        0
    } else {
        sum_over(s.drop_last(), f) + f(s.last())
    }
}

/// Number of elements of `s` satisfying `p`.
pub open spec fn count_where<T>(s: Seq<T>, p: spec_fn(T) -> bool) -> nat {
    sum_over(s, |x: T| if p(x) { 1nat } else { 0nat })
}

/// Extending a prefix by one element adds that element's term to the sum.
pub proof fn lemma_sum_take_step<T>(s: Seq<T>, f: spec_fn(T) -> nat, i: int)
    requires
        0 <= i < s.len(),
    ensures
        sum_over(s.take(i + 1), f) == sum_over(s.take(i), f) + f(s[i]),
{
    assert(s.take(i + 1).drop_last() =~= s.take(i));
    assert(s.take(i + 1).last() == s[i]);
}

/// Extending a prefix by one element adds 1 to the count exactly when the
/// element satisfies the predicate.
pub proof fn lemma_count_take_step<T>(s: Seq<T>, p: spec_fn(T) -> bool, i: int)
    requires
        0 <= i < s.len(),
    ensures
        count_where(s.take(i + 1), p) == count_where(s.take(i), p) + (if p(s[i]) {
            1nat
        } else {
            0nat
        }),
{
    lemma_sum_take_step(s, |x: T| if p(x) { 1nat } else { 0nat }, i);
}

/// A full-length prefix is the sequence itself.
pub proof fn lemma_take_all<T>(s: Seq<T>)
    ensures
        s.take(s.len() as int) == s,
{
    assert(s.take(s.len() as int) =~= s);
}

/// Functions that agree on the elements of `s` have the same sum over `s`.
pub proof fn lemma_sum_ext<T>(s: Seq<T>, f: spec_fn(T) -> nat, g: spec_fn(T) -> nat)
    requires
        forall|i: int| 0 <= i < s.len() ==> f(s[i]) == g(s[i]),
    ensures
        sum_over(s, f) == sum_over(s, g),
    decreases s.len(),
{
    if s.len() > 0 {
        lemma_sum_ext(s.drop_last(), f, g);
    }
}

/// Predicates that agree on the elements of `s` count the same elements.
pub proof fn lemma_count_ext<T>(s: Seq<T>, p: spec_fn(T) -> bool, q: spec_fn(T) -> bool)
    requires
        forall|i: int| 0 <= i < s.len() ==> p(s[i]) == q(s[i]),
    ensures
        count_where(s, p) == count_where(s, q),
{
    lemma_sum_ext(s, |x: T| if p(x) { 1nat } else { 0nat }, |x: T| if q(x) { 1nat } else { 0nat });
}

/// Sums distribute over concatenation.
pub proof fn lemma_sum_concat<T>(a: Seq<T>, b: Seq<T>, f: spec_fn(T) -> nat)
    ensures
        sum_over(a + b, f) == sum_over(a, f) + sum_over(b, f),
    decreases b.len(),
{
    if b.len() == 0 {
        assert(a + b =~= a);
    } else {
        assert((a + b).drop_last() =~= a + b.drop_last());
        assert((a + b).last() == b.last());
        lemma_sum_concat(a, b.drop_last(), f);
    }
}

/// Counts distribute over concatenation.
pub proof fn lemma_count_concat<T>(a: Seq<T>, b: Seq<T>, p: spec_fn(T) -> bool)
    ensures
        count_where(a + b, p) == count_where(a, p) + count_where(b, p),
{
    lemma_sum_concat(a, b, |x: T| if p(x) { 1nat } else { 0nat });
}

/// A count never exceeds the length of the sequence.
pub proof fn lemma_count_le_len<T>(s: Seq<T>, p: spec_fn(T) -> bool)
    ensures
        count_where(s, p) <= s.len(),
    decreases s.len(),
{
    if s.len() > 0 {
        lemma_count_le_len(s.drop_last(), p);
    }
}

/// Two predicates that disagree on every element split the sequence.
pub proof fn lemma_count_complement<T>(s: Seq<T>, p: spec_fn(T) -> bool, q: spec_fn(T) -> bool)
    requires
        forall|i: int| 0 <= i < s.len() ==> q(s[i]) == !p(s[i]),
    ensures
        count_where(s, p) + count_where(s, q) == s.len(),
    decreases s.len(),
{
    if s.len() > 0 {
        lemma_count_complement(s.drop_last(), p, q);
    }
}

/// Nothing is counted when no element qualifies.
pub proof fn lemma_count_zero<T>(s: Seq<T>, p: spec_fn(T) -> bool)
    requires
        forall|i: int| 0 <= i < s.len() ==> !p(s[i]),
    ensures
        count_where(s, p) == 0,
    decreases s.len(),
{
    if s.len() > 0 {
        lemma_count_zero(s.drop_last(), p);
    }
}

/// A sum of all-zero terms is zero.
pub proof fn lemma_sum_zero<T>(s: Seq<T>, f: spec_fn(T) -> nat)
    requires
        forall|i: int| 0 <= i < s.len() ==> f(s[i]) == 0,
    ensures
        sum_over(s, f) == 0,
    decreases s.len(),
{
    if s.len() > 0 {
        lemma_sum_zero(s.drop_last(), f);
    }
}

/// Pointwise addition splits a sum in two.
pub proof fn lemma_sum_split<T>(
    s: Seq<T>,
    h: spec_fn(T) -> nat,
    f: spec_fn(T) -> nat,
    g: spec_fn(T) -> nat,
)
    requires
        forall|i: int| 0 <= i < s.len() ==> h(s[i]) == f(s[i]) + g(s[i]),
    ensures
        sum_over(s, h) == sum_over(s, f) + sum_over(s, g),
    decreases s.len(),
{
    if s.len() > 0 {
        lemma_sum_split(s.drop_last(), h, f, g);
    }
}

/// The number of elements of `ys` that `a` forms a qualifying pair with.
pub open spec fn row_count_of<A, B>(ys: Seq<B>, p: spec_fn(A, B) -> bool, a: A) -> nat {
    count_where(ys, |b: B| p(a, b))
}

/// The number of elements of `xs` that form a qualifying pair with `b`.
pub open spec fn col_count_of<A, B>(xs: Seq<A>, p: spec_fn(A, B) -> bool, b: B) -> nat {
    count_where(xs, |a: A| p(a, b))
}

/// A sum of indicator terms is a count.
pub proof fn lemma_sum_as_count<T>(s: Seq<T>, f: spec_fn(T) -> nat, p: spec_fn(T) -> bool)
    requires
        forall|i: int| 0 <= i < s.len() ==> f(s[i]) == (if p(s[i]) {
            1nat
        } else {
            0nat
        }),
    ensures
        sum_over(s, f) == count_where(s, p),
    decreases s.len(),
{
    if s.len() > 0 {
        lemma_sum_as_count(s.drop_last(), f, p);
    }
}

/// Double counting: counting the pairs `(a, b)` with `p(a, b)` row by row
/// gives the same total as counting them column by column.
pub proof fn lemma_sum_exchange<A, B>(xs: Seq<A>, ys: Seq<B>, p: spec_fn(A, B) -> bool)
    ensures
        sum_over(xs, |a: A| row_count_of(ys, p, a)) == sum_over(
            ys,
            |b: B| col_count_of(xs, p, b),
        ),
    decreases xs.len(),
{
    let colf = |b: B| col_count_of(xs, p, b);
    if xs.len() == 0 {
        assert forall|i: int| 0 <= i < ys.len() implies colf(ys[i]) == 0 by {
            let b = ys[i];
            assert(col_count_of(xs, p, b) == count_where(xs, |a: A| p(a, b)));
        }
        lemma_sum_zero(ys, colf);
    } else {
        let a = xs.last();
        let rest = xs.drop_last();
        lemma_sum_exchange(rest, ys, p);
        let restcol = |b: B| col_count_of(rest, p, b);
        let lastind = |b: B| if p(a, b) { 1nat } else { 0nat };
        assert forall|i: int| 0 <= i < ys.len() implies colf(ys[i]) == restcol(ys[i]) + lastind(
            ys[i],
        ) by {
            let b = ys[i];
            assert(col_count_of(xs, p, b) == count_where(xs, |a: A| p(a, b)));
            assert(col_count_of(rest, p, b) == count_where(rest, |a: A| p(a, b)));
            let q = |a: A| p(a, b);
            let qn = |a: A| if q(a) { 1nat } else { 0nat };
            assert(count_where(xs, q) == sum_over(rest, qn) + qn(a));
        }
        lemma_sum_split(ys, colf, restcol, lastind);
        assert(sum_over(ys, lastind) == count_where(ys, |b: B| p(a, b))) by {
            lemma_sum_as_count(ys, lastind, |b: B| p(a, b));
        }
        assert(row_count_of(ys, p, a) == count_where(ys, |b: B| p(a, b)));
    }
}

} // verus!
