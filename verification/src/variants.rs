//! Variant counting: traces grouped by exact sequence equality, with the
//! number of occurrences of each distinct sequence.

use vstd::prelude::*;

verus! {

use vstd::multiset::Multiset;
use crate::seqs::{count_where, lemma_count_zero};
use crate::strutil::str_eq;

/// Two traces are the same variant exactly when their sequences are equal.
pub open spec fn same_trace(tr: Seq<Seq<char>>, key: Seq<Seq<char>>) -> bool {
    tr == key
}

/// The number of traces in the log equal to `key`.
pub open spec fn variant_count_in(traces: Seq<Seq<Seq<char>>>, key: Seq<Seq<char>>) -> nat {
    count_where(traces, |tr: Seq<Seq<char>>| same_trace(tr, key))
}

/// Extending the log by one trace raises exactly that trace's count.
proof fn lemma_variant_count_take_step(traces: Seq<Seq<Seq<char>>>, key: Seq<Seq<char>>, i: int)
    requires
        0 <= i < traces.len(),
    ensures
        variant_count_in(traces.take(i + 1), key) == variant_count_in(traces.take(i), key) + (
        if traces[i] == key {
            1nat
        } else {
            0nat
        }),
{
    assert(traces.take(i + 1).drop_last() =~= traces.take(i));
    assert(traces.take(i + 1).last() == traces[i]);
}

/// A variant count is the count in the log's multiset.
proof fn lemma_variant_count_eq_multiset(traces: Seq<Seq<Seq<char>>>, key: Seq<Seq<char>>)
    ensures
        variant_count_in(traces, key) == traces.to_multiset().count(key),
    decreases traces.len(),
{
    broadcast use vstd::multiset::group_multiset_axioms;

    if traces.len() == 0 {
        traces.to_multiset_ensures();
        assert(traces.to_multiset().count(key) <= traces.to_multiset().len());
    } else {
        let rest = traces.drop_last();
        lemma_variant_count_eq_multiset(rest, key);
        rest.to_multiset_ensures();
        assert(rest.push(traces.last()) =~= traces);
        assert(traces.to_multiset() =~= rest.to_multiset().insert(traces.last()));
    }
}

/// Variant counting is insensitive to the order of the traces: two logs
/// holding the same traces in any order give every variant the same count.
pub proof fn lemma_variants_permutation_invariant(
    t1: Seq<Seq<Seq<char>>>,
    t2: Seq<Seq<Seq<char>>>,
    key: Seq<Seq<char>>,
)
    requires
        t1.to_multiset() == t2.to_multiset(),
    ensures
        variant_count_in(t1, key) == variant_count_in(t2, key),
{
    lemma_variant_count_eq_multiset(t1, key);
    lemma_variant_count_eq_multiset(t2, key);
}

/// Whether two traces hold the same activities in the same order.
fn trace_eq(a: &Vec<&str>, b: &Vec<&str>) -> (r: bool)
    ensures
        r == (a.deep_view() == b.deep_view()),
{
    let ghost adv = a.deep_view();
    let ghost bdv = b.deep_view();
    if a.len() != b.len() {
        proof {
            assert(adv.len() != bdv.len());
        }
        return false;
    }
    let mut i: usize = 0;
    while i < a.len()
        invariant
            0 <= i <= a.len(),
            a.len() == b.len(),
            adv == a.deep_view(),
            bdv == b.deep_view(),
            adv.len() == a.len(),
            bdv.len() == b.len(),
            forall|j: int| 0 <= j < a.len() ==> adv[j] == a[j]@,
            forall|j: int| 0 <= j < b.len() ==> bdv[j] == b[j]@,
            forall|j: int| 0 <= j < i ==> adv[j] == bdv[j],
        decreases a.len() - i,
    {
        if !str_eq(a[i], b[i]) {
            proof {
                assert(adv[i as int] != bdv[i as int]);
            }
            return false;
        }
        i += 1;
    }
    proof {
        assert(adv =~= bdv);
    }
    true
}

/// A copy of a trace.
fn clone_trace<'a>(v: &Vec<&'a str>) -> (r: Vec<&'a str>)
    ensures
        r@ == v@,
        r.deep_view() == v.deep_view(),
{
    let mut r: Vec<&'a str> = Vec::new();
    let mut i: usize = 0;
    while i < v.len()
        invariant
            0 <= i <= v.len(),
            r@ == v@.take(i as int),
        decreases v.len() - i,
    {
        r.push(v[i]);
        proof {
            assert(v@.take(i + 1) =~= v@.take(i as int).push(v@[i as int]));
        }
        i += 1;
    }
    proof {
        assert(v@.take(v@.len() as int) =~= v@);
        assert(r.deep_view() =~= v.deep_view());
    }
    r
}

/// Groups the traces of a log by exact sequence equality and counts the
/// occurrences of each distinct sequence. Every distinct trace appears
/// exactly once as a key, with its number of occurrences in the whole log.
pub fn variants_of_traces<'a>(traces: Vec<Vec<&'a str>>) -> (r: Vec<(Vec<&'a str>, usize)>)
    ensures
        forall|k: int|
            0 <= k < r@.len() ==> (#[trigger] r@[k].1) as nat == variant_count_in(
                traces.deep_view(),
                r@[k].0.deep_view(),
            ) && r@[k].1 > 0,
        forall|k: int, l: int|
            #![trigger r@[k], r@[l]]
            0 <= k < l < r@.len() ==> r@[k].0.deep_view() != r@[l].0.deep_view(),
        forall|i: int|
            #![trigger traces.deep_view()[i]]
            0 <= i < traces.deep_view().len() ==> exists|k: int|
                0 <= k < r@.len() && (#[trigger] r@[k].0).deep_view() == traces.deep_view()[i],
{
    let ghost dv = traces.deep_view();
    let mut keys: Vec<Vec<&'a str>> = Vec::new();
    let mut counts: Vec<usize> = Vec::new();
    let mut i: usize = 0;
    while i < traces.len()
        invariant
            0 <= i <= traces.len(),
            dv == traces.deep_view(),
            dv.len() == traces.len(),
            forall|j: int| 0 <= j < traces.len() ==> dv[j] == traces[j].deep_view(),
            keys@.len() == counts@.len(),
            forall|k: int|
                0 <= k < keys@.len() ==> (#[trigger] counts@[k]) as nat == variant_count_in(
                    dv.take(i as int),
                    keys@[k].deep_view(),
                ) && counts@[k] > 0,
            forall|k: int, l: int|
                #![trigger keys@[k], keys@[l]]
                0 <= k < l < keys@.len() ==> keys@[k].deep_view() != keys@[l].deep_view(),
            forall|j: int|
                #![trigger dv[j]]
                0 <= j < i ==> exists|k: int|
                    0 <= k < keys@.len() && (#[trigger] keys@[k]).deep_view() == dv[j],
        decreases traces.len() - i,
    {
        let ghost old_keys = keys@;
        let mut found: bool = false;
        let mut k: usize = 0;
        while k < keys.len() && !found
            invariant
                0 <= k <= keys@.len(),
                keys@.len() == counts@.len(),
                0 <= i < traces.len(),
                dv == traces.deep_view(),
                dv.len() == traces.len(),
                dv[i as int] == traces[i as int].deep_view(),
                !found ==> forall|l: int| 0 <= l < k ==> keys@[l].deep_view() != dv[i as int],
                found ==> k < keys@.len() && keys@[k as int].deep_view() == dv[i as int],
            decreases keys@.len() - k + (if found {
                0int
            } else {
                1int
            }),
        {
            if trace_eq(&keys[k], &traces[i]) {
                found = true;
            } else {
                k += 1;
            }
        }
        if found {
            let c = counts[k];
            proof {
                lemma_variant_count_take_step(dv, keys@[k as int].deep_view(), i as int);
                crate::seqs::lemma_count_le_len(
                    dv.take(i as int),
                    |tr: Seq<Seq<char>>| same_trace(tr, keys@[k as int].deep_view()),
                );
            }
            counts.set(k, c + 1);
            proof {
                assert forall|l: int|
                    0 <= l < keys@.len() && l != k implies (#[trigger] counts@[l]) as nat
                    == variant_count_in(dv.take(i as int + 1), keys@[l].deep_view()) by {
                    lemma_variant_count_take_step(dv, keys@[l].deep_view(), i as int);
                }
            }
        } else {
            let key = clone_trace(&traces[i]);
            proof {
                assert forall|j: int| 0 <= j < i implies dv[j] != dv[i as int] by {
                    let kk = choose|kk: int|
                        0 <= kk < keys@.len() && (#[trigger] keys@[kk]).deep_view() == dv[j];
                }
                lemma_count_zero(
                    dv.take(i as int),
                    |tr: Seq<Seq<char>>| same_trace(tr, traces[i as int].deep_view()),
                );
                lemma_variant_count_take_step(dv, traces[i as int].deep_view(), i as int);
                assert forall|l: int| 0 <= l < keys@.len() implies (#[trigger] counts@[l]) as nat
                    == variant_count_in(dv.take(i as int + 1), keys@[l].deep_view()) by {
                    lemma_variant_count_take_step(dv, keys@[l].deep_view(), i as int);
                }
            }
            keys.push(key);
            counts.push(1);
        }
        proof {
            assert forall|j: int| #![trigger dv[j]] 0 <= j <= i implies exists|k2: int|
                0 <= k2 < keys@.len() && (#[trigger] keys@[k2]).deep_view() == dv[j] by {
                if j < i {
                    let k2 = choose|k2: int|
                        0 <= k2 < old_keys.len() && (#[trigger] old_keys[k2]).deep_view() == dv[j];
                    assert(keys@[k2].deep_view() == dv[j]);
                } else {
                    if found {
                        assert(keys@[k as int].deep_view() == dv[j]);
                    } else {
                        assert(keys@[keys@.len() - 1].deep_view() == dv[j]);
                    }
                }
            }
        }
        i += 1;
    }
    proof {
        crate::seqs::lemma_take_all(dv);
    }

    let mut r: Vec<(Vec<&'a str>, usize)> = Vec::new();
    let mut j: usize = 0;
    while j < keys.len()
        invariant
            0 <= j <= keys@.len(),
            keys@.len() == counts@.len(),
            r@.len() == j,
            forall|k: int|
                0 <= k < j ==> (#[trigger] r@[k]).0.deep_view() == keys@[k].deep_view() && r@[k].1
                    == counts@[k],
        decreases keys@.len() - j,
    {
        let key = clone_trace(&keys[j]);
        r.push((key, counts[j]));
        j += 1;
    }
    proof {
        assert forall|i: int| #![trigger dv[i]] 0 <= i < dv.len() implies exists|k: int|
            0 <= k < r@.len() && (#[trigger] r@[k].0).deep_view() == dv[i] by {
            let k = choose|k: int|
                0 <= k < keys@.len() && (#[trigger] keys@[k]).deep_view() == dv[i];
            assert(r@[k].0.deep_view() == dv[i]);
        }
    }
    r
}

} // verus!
