//! Temporal dependency analysis: whether one activity consistently precedes
//! another across a log, directly (adjacent) or eventually.

use vstd::prelude::*;

verus! {

use crate::seqs::{
    col_count_of,
    count_where,
    lemma_count_complement,
    lemma_count_concat,
    lemma_count_ext,
    lemma_count_take_step,
    lemma_sum_exchange,
    lemma_sum_ext,
    lemma_take_all,
    row_count_of,
    sum_over,
};
use crate::strutil::str_eq;
use crate::threshold::Threshold;

/// Direction of a temporal dependency.
#[derive(Debug, Clone, Copy, PartialEq, Eq, Structural)]
pub enum Direction {
    Forward,
    Backward,
}

/// Kind of a temporal dependency: adjacent in every observation, or merely
/// eventual.
#[derive(Debug, Clone, Copy, PartialEq, Eq, Structural)]
pub enum DependencyType {
    Direct,
    Eventual,
}

/// A temporal dependency between two activities.
#[derive(Debug, Clone, PartialEq, Eq)]
pub struct TemporalDependency {
    pub from: String,
    pub to: String,
    pub dependency_type: DependencyType,
    pub direction: Direction,
}

impl TemporalDependency {
    pub fn new(from: &str, to: &str, dependency_type: DependencyType, direction: Direction) -> (r:
        TemporalDependency)
        ensures
            r.from@ == from@,
            r.to@ == to@,
            r.dependency_type == dependency_type,
            r.direction == direction,
    {
        TemporalDependency { from: from.to_owned(), to: to.to_owned(), dependency_type, direction }
    }
}

/// The positions (in ascending order) at which activity `a` occurs in the
/// trace.
pub open spec fn positions_of(trace: Seq<Seq<char>>, a: Seq<char>) -> Seq<int>
    decreases trace.len(),
{
    if trace.len() == 0 {
        Seq::empty()
    } else {
        let rest = positions_of(trace.drop_last(), a);
        if trace.last() == a {
            rest.push(trace.len() - 1)
        } else {
            rest
        }
    }
}

/// How one occurrence pair is classified: direction by relative order,
/// kind by adjacency.
pub open spec fn classify_pair(a: int, b: int) -> (DependencyType, Direction) {
    if a < b {
        (
            if b - a == 1 {
                DependencyType::Direct
            } else {
                DependencyType::Eventual
            },
            Direction::Forward,
        )
    } else {
        (
            if a - b == 1 {
                DependencyType::Direct
            } else {
                DependencyType::Eventual
            },
            Direction::Backward,
        )
    }
}

/// Classifications of one `from`-occurrence at position `a` against every
/// `to`-occurrence; coinciding positions are skipped.
pub open spec fn row_classifications(a: int, tp: Seq<int>) -> Seq<(DependencyType, Direction)>
    decreases tp.len(),
{
    if tp.len() == 0 {
        Seq::empty()
    } else {
        let rest = row_classifications(a, tp.drop_last());
        if tp.last() == a {
            rest
        } else {
            rest.push(classify_pair(a, tp.last()))
        }
    }
}

/// Classifications of every (from-position, to-position) pair, all
/// combinations, in row-major order.
pub open spec fn cross_classifications(fp: Seq<int>, tp: Seq<int>) -> Seq<
    (DependencyType, Direction),
>
    decreases fp.len(),
{
    if fp.len() == 0 {
        Seq::empty()
    } else {
        cross_classifications(fp.drop_last(), tp) + row_classifications(fp.last(), tp)
    }
}

/// All pair classifications of `from` against `to` within one trace.
pub open spec fn trace_classifications(
    trace: Seq<Seq<char>>,
    from: Seq<char>,
    to: Seq<char>,
) -> Seq<(DependencyType, Direction)> {
    cross_classifications(positions_of(trace, from), positions_of(trace, to))
}

/// The aggregate of all pair classifications across all traces of the log.
pub open spec fn log_classifications(
    traces: Seq<Seq<Seq<char>>>,
    from: Seq<char>,
    to: Seq<char>,
) -> Seq<(DependencyType, Direction)>
    decreases traces.len(),
{
    if traces.len() == 0 {
        Seq::empty()
    } else {
        log_classifications(traces.drop_last(), from, to) + trace_classifications(
            traces.last(),
            from,
            to,
        )
    }
}

pub open spec fn forward_count(deps: Seq<(DependencyType, Direction)>) -> nat {
    count_where(deps, |d: (DependencyType, Direction)| d.1 == Direction::Forward)
}

pub open spec fn backward_count(deps: Seq<(DependencyType, Direction)>) -> nat {
    count_where(deps, |d: (DependencyType, Direction)| d.1 == Direction::Backward)
}

pub open spec fn eventual_count(deps: Seq<(DependencyType, Direction)>) -> nat {
    count_where(deps, |d: (DependencyType, Direction)| d.0 == DependencyType::Eventual)
}

/// The verdict over an aggregate of classifications: a dependency is
/// reported only when every observed ordering agreed on one direction and
/// the dominant share reaches the threshold; its kind is direct only when
/// every single classification was direct.
pub open spec fn spec_classify_dependencies(
    deps: Seq<(DependencyType, Direction)>,
    threshold: Threshold,
) -> Option<(DependencyType, Direction)> {
    let fc = forward_count(deps);
    let bc = backward_count(deps);
    let kind = if eventual_count(deps) > 0 {
        DependencyType::Eventual
    } else {
        DependencyType::Direct
    };
    if deps.len() == 0 {
        None
    } else if bc == 0 && threshold.spec_le_ratio(fc, deps.len()) {
        Some((kind, Direction::Forward))
    } else if fc == 0 && threshold.spec_le_ratio(bc, deps.len()) {
        Some((kind, Direction::Backward))
    } else {
        None
    }
}

/// The temporal dependency reported for a pair of activities over a log.
pub open spec fn spec_temporal_dependency(
    from: Seq<char>,
    to: Seq<char>,
    traces: Seq<Seq<Seq<char>>>,
    threshold: Threshold,
) -> Option<(DependencyType, Direction)> {
    spec_classify_dependencies(log_classifications(traces, from, to), threshold)
}

/// Positions of `a` in a one-longer prefix of the trace.
proof fn lemma_positions_take_step(trace: Seq<Seq<char>>, a: Seq<char>, i: int)
    requires
        0 <= i < trace.len(),
    ensures
        positions_of(trace.take(i + 1), a) == if trace[i] == a {
            positions_of(trace.take(i), a).push(i)
        } else {
            positions_of(trace.take(i), a)
        },
{
    assert(trace.take(i + 1).drop_last() =~= trace.take(i));
    assert(trace.take(i + 1).last() == trace[i]);
}

/// One row of classifications over a one-longer prefix of the
/// to-positions.
proof fn lemma_row_take_step(a: int, tp: Seq<int>, i: int)
    requires
        0 <= i < tp.len(),
    ensures
        row_classifications(a, tp.take(i + 1)) == if tp[i] == a {
            row_classifications(a, tp.take(i))
        } else {
            row_classifications(a, tp.take(i)).push(classify_pair(a, tp[i]))
        },
{
    assert(tp.take(i + 1).drop_last() =~= tp.take(i));
    assert(tp.take(i + 1).last() == tp[i]);
}

/// The cross classifications over a one-longer prefix of the
/// from-positions.
proof fn lemma_cross_take_step(fp: Seq<int>, tp: Seq<int>, i: int)
    requires
        0 <= i < fp.len(),
    ensures
        cross_classifications(fp.take(i + 1), tp) == cross_classifications(fp.take(i), tp)
            + row_classifications(fp[i], tp),
{
    assert(fp.take(i + 1).drop_last() =~= fp.take(i));
    assert(fp.take(i + 1).last() == fp[i]);
}

/// The aggregate classifications over a one-longer prefix of the log.
proof fn lemma_log_take_step(traces: Seq<Seq<Seq<char>>>, from: Seq<char>, to: Seq<char>, i: int)
    requires
        0 <= i < traces.len(),
    ensures
        log_classifications(traces.take(i + 1), from, to) == log_classifications(
            traces.take(i),
            from,
            to,
        ) + trace_classifications(traces[i], from, to),
{
    assert(traces.take(i + 1).drop_last() =~= traces.take(i));
    assert(traces.take(i + 1).last() == traces[i]);
}

/// Collects all pair classifications of `from` against `to` within a
/// single trace: every position of `from` is held against every position
/// of `to`, in order.
pub fn check_trace_dependency(from: &str, to: &str, trace: &Vec<&str>) -> (r: Vec<
    (DependencyType, Direction),
>)
    ensures
        r@ == trace_classifications(trace.deep_view(), from@, to@),
{
    let ghost dv = trace.deep_view();
    let mut from_positions: Vec<usize> = Vec::new();
    let mut to_positions: Vec<usize> = Vec::new();
    let ghost fseq = positions_of(dv, from@);
    let ghost tseq = positions_of(dv, to@);

    let mut i: usize = 0;
    while i < trace.len()
        invariant
            0 <= i <= trace.len(),
            dv == trace.deep_view(),
            dv.len() == trace.len(),
            forall|j: int| 0 <= j < trace.len() ==> dv[j] == trace[j]@,
            from_positions@.map_values(|u: usize| u as int) == positions_of(dv.take(i as int), from@),
            to_positions@.map_values(|u: usize| u as int) == positions_of(dv.take(i as int), to@),
            forall|j: int| 0 <= j < from_positions@.len() ==> from_positions@[j] < i,
            forall|j: int| 0 <= j < to_positions@.len() ==> to_positions@[j] < i,
        decreases trace.len() - i,
    {
        proof {
            lemma_positions_take_step(dv, from@, i as int);
            lemma_positions_take_step(dv, to@, i as int);
        }
        if str_eq(trace[i], from) {
            let ghost before = from_positions@;
            from_positions.push(i);
            proof {
                assert(from_positions@.map_values(|u: usize| u as int) =~= before.map_values(
                    |u: usize| u as int,
                ).push(i as int));
            }
        }
        if str_eq(trace[i], to) {
            let ghost before = to_positions@;
            to_positions.push(i);
            proof {
                assert(to_positions@.map_values(|u: usize| u as int) =~= before.map_values(
                    |u: usize| u as int,
                ).push(i as int));
            }
        }
        i += 1;
    }
    proof {
        lemma_take_all(dv);
    }
    let ghost fpv = from_positions@.map_values(|u: usize| u as int);
    let ghost tpv = to_positions@.map_values(|u: usize| u as int);

    let mut result: Vec<(DependencyType, Direction)> = Vec::new();
    let mut ia: usize = 0;
    while ia < from_positions.len()
        invariant
            0 <= ia <= from_positions.len(),
            fpv == from_positions@.map_values(|u: usize| u as int),
            tpv == to_positions@.map_values(|u: usize| u as int),
            result@ == cross_classifications(fpv.take(ia as int), tpv),
            trace_classifications(dv, from@, to@) == cross_classifications(fpv, tpv),
        decreases from_positions.len() - ia,
    {
        let a = from_positions[ia];
        let mut ib: usize = 0;
        while ib < to_positions.len()
            invariant
                0 <= ib <= to_positions.len(),
                0 <= ia < from_positions.len(),
                a == from_positions@[ia as int],
                fpv == from_positions@.map_values(|u: usize| u as int),
                tpv == to_positions@.map_values(|u: usize| u as int),
                result@ == cross_classifications(fpv.take(ia as int), tpv) + row_classifications(
                    a as int,
                    tpv.take(ib as int),
                ),
            decreases to_positions.len() - ib,
        {
            let b = to_positions[ib];
            proof {
                lemma_row_take_step(a as int, tpv, ib as int);
            }
            if b != a {
                let dependency_type = if (b > a && b - a == 1) || (a > b && a - b == 1) {
                    DependencyType::Direct
                } else {
                    DependencyType::Eventual
                };
                let direction = if a < b {
                    Direction::Forward
                } else {
                    Direction::Backward
                };
                result.push((dependency_type, direction));
            }
            ib += 1;
        }
        proof {
            lemma_take_all(tpv);
            lemma_cross_take_step(fpv, tpv, ia as int);
        }
        ia += 1;
    }
    proof {
        lemma_take_all(fpv);
    }
    result
}

/// The verdict over an aggregate of pair classifications; see
/// `spec_classify_dependencies` for the rule.
fn classify_dependencies(
    from: &str,
    to: &str,
    dependencies: &Vec<(DependencyType, Direction)>,
    threshold: Threshold,
) -> (r: Option<TemporalDependency>)
    requires
        threshold.wf(),
    ensures
        ({
            let s = spec_classify_dependencies(dependencies@, threshold);
            match r {
                Some(d) => s == Some((d.dependency_type, d.direction)) && d.from@ == from@ && d.to@
                    == to@,
                None => s is None,
            }
        }),
{
    let ghost dv = dependencies@;
    let total = dependencies.len();
    if total == 0 {
        return None;
    }
    let mut fwd: usize = 0;
    let mut eventual: usize = 0;
    let mut i: usize = 0;
    while i < total
        invariant
            0 <= i <= total,
            total == dependencies.len(),
            dv == dependencies@,
            fwd <= i,
            eventual <= i,
            fwd == count_where(
                dv.take(i as int),
                |d: (DependencyType, Direction)| d.1 == Direction::Forward,
            ),
            eventual == count_where(
                dv.take(i as int),
                |d: (DependencyType, Direction)| d.0 == DependencyType::Eventual,
            ),
        decreases total - i,
    {
        proof {
            lemma_count_take_step(
                dv,
                |d: (DependencyType, Direction)| d.1 == Direction::Forward,
                i as int,
            );
            lemma_count_take_step(
                dv,
                |d: (DependencyType, Direction)| d.0 == DependencyType::Eventual,
                i as int,
            );
        }
        let d = dependencies[i];
        if d.1 == Direction::Forward {
            fwd += 1;
        }
        if d.0 == DependencyType::Eventual {
            eventual += 1;
        }
        i += 1;
    }
    proof {
        lemma_take_all(dv);
        lemma_count_complement(
            dv,
            |d: (DependencyType, Direction)| d.1 == Direction::Forward,
            |d: (DependencyType, Direction)| d.1 == Direction::Backward,
        );
    }
    let bwd = total - fwd;
    let dependency_type = if eventual > 0 {
        DependencyType::Eventual
    } else {
        DependencyType::Direct
    };
    if bwd == 0 && threshold.le_ratio(fwd, total) {
        Some(TemporalDependency::new(from, to, dependency_type, Direction::Forward))
    } else if fwd == 0 && threshold.le_ratio(bwd, total) {
        Some(TemporalDependency::new(from, to, dependency_type, Direction::Backward))
    } else {
        None
    }
}

/// Checks for a temporal dependency between two activities across a log:
/// all occurrence pairs of the two activities are classified, and a
/// dependency is reported only when every classification agreed on one
/// direction; `None` means the pair is temporally independent.
pub fn check_temporal_dependency(
    from: &str,
    to: &str,
    traces: &Vec<Vec<&str>>,
    threshold: Threshold,
) -> (r: Option<TemporalDependency>)
    requires
        threshold.wf(),
    ensures
        ({
            let s = spec_temporal_dependency(from@, to@, traces.deep_view(), threshold);
            match r {
                Some(d) => s == Some((d.dependency_type, d.direction)) && d.from@ == from@ && d.to@
                    == to@,
                None => s is None,
            }
        }),
{
    let ghost dv = traces.deep_view();
    let mut dependencies: Vec<(DependencyType, Direction)> = Vec::new();
    let mut i: usize = 0;
    while i < traces.len()
        invariant
            0 <= i <= traces.len(),
            dv == traces.deep_view(),
            dv.len() == traces.len(),
            forall|j: int| 0 <= j < traces.len() ==> dv[j] == traces[j].deep_view(),
            dependencies@ == log_classifications(dv.take(i as int), from@, to@),
        decreases traces.len() - i,
    {
        proof {
            lemma_log_take_step(dv, from@, to@, i as int);
        }
        let mut trace_deps = check_trace_dependency(from, to, &traces[i]);
        dependencies.append(&mut trace_deps);
        i += 1;
    }
    proof {
        lemma_take_all(dv);
    }
    classify_dependencies(from, to, &dependencies, threshold)
}

/// The mirrored form of a reported temporal dependency when the two
/// activities are swapped: the direction flips, the kind stays.
pub open spec fn mirrored_temporal(p: (DependencyType, Direction)) -> (DependencyType, Direction) {
    (
        p.0,
        match p.1 {
            Direction::Forward => Direction::Backward,
            Direction::Backward => Direction::Forward,
        },
    )
}

/// Lowering the threshold never loses a reported temporal dependency.
pub proof fn lemma_temporal_threshold_monotone(
    from: Seq<char>,
    to: Seq<char>,
    traces: Seq<Seq<Seq<char>>>,
    t1: Threshold,
    t2: Threshold,
)
    requires
        t1.wf(),
        t2.wf(),
        t1.spec_le(t2),
        spec_temporal_dependency(from, to, traces, t2) is Some,
    ensures
        spec_temporal_dependency(from, to, traces, t1) is Some,
{
    let deps = log_classifications(traces, from, to);
    if backward_count(deps) == 0 && t2.spec_le_ratio(forward_count(deps), deps.len()) {
        Threshold::lemma_le_ratio_monotone(t1, t2, forward_count(deps), deps.len());
    }
    if forward_count(deps) == 0 && t2.spec_le_ratio(backward_count(deps), deps.len()) {
        Threshold::lemma_le_ratio_monotone(t1, t2, backward_count(deps), deps.len());
    }
}

/// The number of to-positions that one from-position at `a` is classified
/// against, filtered by a selector on the classification.
pub open spec fn sel_pair_count(
    tp: Seq<int>,
    sel: spec_fn((DependencyType, Direction)) -> bool,
    a: int,
) -> nat {
    count_where(tp, |b: int| (b < a || a < b) && sel(classify_pair(a, b)))
}

/// Counting a selector over one row is counting qualifying to-positions.
proof fn lemma_row_count(a: int, tp: Seq<int>, sel: spec_fn((DependencyType, Direction)) -> bool)
    ensures
        count_where(row_classifications(a, tp), sel) == sel_pair_count(tp, sel, a),
    decreases tp.len(),
{
    assert(sel_pair_count(tp, sel, a) == count_where(
        tp,
        |b: int| (b < a || a < b) && sel(classify_pair(a, b)),
    ));
    if tp.len() > 0 {
        let rest = tp.drop_last();
        lemma_row_count(a, rest, sel);
        assert(sel_pair_count(rest, sel, a) == count_where(
            rest,
            |b: int| (b < a || a < b) && sel(classify_pair(a, b)),
        ));
        if tp.last() != a {
            assert(row_classifications(a, tp).drop_last() =~= row_classifications(a, rest));
        }
    }
}

/// Counting a selector over the whole cross product, row by row.
proof fn lemma_cross_count(
    fp: Seq<int>,
    tp: Seq<int>,
    sel: spec_fn((DependencyType, Direction)) -> bool,
)
    ensures
        count_where(cross_classifications(fp, tp), sel) == sum_over(
            fp,
            |a: int| sel_pair_count(tp, sel, a),
        ),
    decreases fp.len(),
{
    if fp.len() > 0 {
        let rest = fp.drop_last();
        let a = fp.last();
        let bigf = |a: int| sel_pair_count(tp, sel, a);
        lemma_cross_count(rest, tp, sel);
        lemma_count_concat(cross_classifications(rest, tp), row_classifications(a, tp), sel);
        lemma_row_count(a, tp, sel);
        assert(bigf(a) == sel_pair_count(tp, sel, a));
        assert(sum_over(fp, bigf) == sum_over(rest, bigf) + bigf(a));
    }
}

/// The cross-product count of a selector, rephrased through an arbitrary
/// equivalent pair predicate.
proof fn lemma_cross_rows(
    fp: Seq<int>,
    tp: Seq<int>,
    sel: spec_fn((DependencyType, Direction)) -> bool,
    p: spec_fn(int, int) -> bool,
)
    requires
        forall|a: int, b: int| #[trigger] p(a, b) == (b != a && sel(classify_pair(a, b))),
    ensures
        count_where(cross_classifications(fp, tp), sel) == sum_over(
            fp,
            |a: int| row_count_of(tp, p, a),
        ),
{
    lemma_cross_count(fp, tp, sel);
    let f1 = |a: int| sel_pair_count(tp, sel, a);
    let f2 = |a: int| row_count_of(tp, p, a);
    assert forall|i: int| 0 <= i < fp.len() implies f1(fp[i]) == f2(fp[i]) by {
        let a = fp[i];
        assert(sel_pair_count(tp, sel, a) == count_where(
            tp,
            |b: int| (b < a || a < b) && sel(classify_pair(a, b)),
        ));
        assert(row_count_of(tp, p, a) == count_where(tp, |b: int| p(a, b)));
        lemma_count_ext(
            tp,
            |b: int| (b < a || a < b) && sel(classify_pair(a, b)),
            |b: int| p(a, b),
        );
    }
    lemma_sum_ext(fp, f1, f2);
}

/// Swapping the two position lists swaps the direction counts, keeps the
/// eventual count, and keeps the number of classifications.
proof fn lemma_cross_symmetric(fp: Seq<int>, tp: Seq<int>)
    ensures
        forward_count(cross_classifications(fp, tp)) == backward_count(
            cross_classifications(tp, fp),
        ),
        backward_count(cross_classifications(fp, tp)) == forward_count(
            cross_classifications(tp, fp),
        ),
        eventual_count(cross_classifications(fp, tp)) == eventual_count(
            cross_classifications(tp, fp),
        ),
        cross_classifications(fp, tp).len() == cross_classifications(tp, fp).len(),
{
    let sel_f = |d: (DependencyType, Direction)| d.1 == Direction::Forward;
    let sel_b = |d: (DependencyType, Direction)| d.1 == Direction::Backward;
    let sel_e = |d: (DependencyType, Direction)| d.0 == DependencyType::Eventual;
    let p_lt = |a: int, b: int| a < b;
    let p_gt = |a: int, b: int| b < a;
    let p_far = |a: int, b: int| (b < a || a < b) && (a < b + 1 || b + 1 < a) && (b < a + 1 || a + 1
        < b);

    // Forward over (fp, tp) against backward over (tp, fp).
    lemma_cross_rows(fp, tp, sel_f, p_lt);
    lemma_sum_exchange(fp, tp, p_lt);
    lemma_cross_rows(tp, fp, sel_b, p_gt);
    assert forall|i: int| 0 <= i < tp.len() implies (|b: int| col_count_of(fp, p_lt, b))(tp[i]) == (
    |a: int| row_count_of(fp, p_gt, a))(tp[i]) by {
        let t = tp[i];
        assert(col_count_of(fp, p_lt, t) == count_where(fp, |a: int| p_lt(a, t)));
        assert(row_count_of(fp, p_gt, t) == count_where(fp, |b: int| p_gt(t, b)));
        lemma_count_ext(fp, |a: int| p_lt(a, t), |b: int| p_gt(t, b));
    }
    lemma_sum_ext(tp, |b: int| col_count_of(fp, p_lt, b), |a: int| row_count_of(fp, p_gt, a));

    // Backward over (fp, tp) against forward over (tp, fp).
    lemma_cross_rows(fp, tp, sel_b, p_gt);
    lemma_sum_exchange(fp, tp, p_gt);
    lemma_cross_rows(tp, fp, sel_f, p_lt);
    assert forall|i: int| 0 <= i < tp.len() implies (|b: int| col_count_of(fp, p_gt, b))(tp[i]) == (
    |a: int| row_count_of(fp, p_lt, a))(tp[i]) by {
        let t = tp[i];
        assert(col_count_of(fp, p_gt, t) == count_where(fp, |a: int| p_gt(a, t)));
        assert(row_count_of(fp, p_lt, t) == count_where(fp, |b: int| p_lt(t, b)));
        lemma_count_ext(fp, |a: int| p_gt(a, t), |b: int| p_lt(t, b));
    }
    lemma_sum_ext(tp, |b: int| col_count_of(fp, p_gt, b), |a: int| row_count_of(fp, p_lt, a));

    // Eventual over (fp, tp) against eventual over (tp, fp).
    lemma_cross_rows(fp, tp, sel_e, p_far);
    lemma_sum_exchange(fp, tp, p_far);
    lemma_cross_rows(tp, fp, sel_e, p_far);
    assert forall|i: int| 0 <= i < tp.len() implies (|b: int| col_count_of(fp, p_far, b))(tp[i])
        == (|a: int| row_count_of(fp, p_far, a))(tp[i]) by {
        let t = tp[i];
        assert(col_count_of(fp, p_far, t) == count_where(fp, |a: int| p_far(a, t)));
        assert(row_count_of(fp, p_far, t) == count_where(fp, |b: int| p_far(t, b)));
        lemma_count_ext(fp, |a: int| p_far(a, t), |b: int| p_far(t, b));
    }
    lemma_sum_ext(tp, |b: int| col_count_of(fp, p_far, b), |a: int| row_count_of(fp, p_far, a));

    // Every classification is forward or backward, so the direction counts
    // determine the lengths.
    lemma_count_complement(cross_classifications(fp, tp), sel_f, sel_b);
    lemma_count_complement(cross_classifications(tp, fp), sel_f, sel_b);
}

/// Swapping the two activities swaps the direction counts of the whole
/// aggregate, keeps the eventual count, and keeps its size.
proof fn lemma_log_symmetric(traces: Seq<Seq<Seq<char>>>, from: Seq<char>, to: Seq<char>)
    ensures
        forward_count(log_classifications(traces, from, to)) == backward_count(
            log_classifications(traces, to, from),
        ),
        backward_count(log_classifications(traces, from, to)) == forward_count(
            log_classifications(traces, to, from),
        ),
        eventual_count(log_classifications(traces, from, to)) == eventual_count(
            log_classifications(traces, to, from),
        ),
        log_classifications(traces, from, to).len() == log_classifications(traces, to, from).len(),
    decreases traces.len(),
{
    let sel_f = |d: (DependencyType, Direction)| d.1 == Direction::Forward;
    let sel_b = |d: (DependencyType, Direction)| d.1 == Direction::Backward;
    let sel_e = |d: (DependencyType, Direction)| d.0 == DependencyType::Eventual;
    if traces.len() > 0 {
        let rest = traces.drop_last();
        let last = traces.last();
        lemma_log_symmetric(rest, from, to);
        lemma_cross_symmetric(positions_of(last, from), positions_of(last, to));
        lemma_count_concat(
            log_classifications(rest, from, to),
            trace_classifications(last, from, to),
            sel_f,
        );
        lemma_count_concat(
            log_classifications(rest, from, to),
            trace_classifications(last, from, to),
            sel_b,
        );
        lemma_count_concat(
            log_classifications(rest, from, to),
            trace_classifications(last, from, to),
            sel_e,
        );
        lemma_count_concat(
            log_classifications(rest, to, from),
            trace_classifications(last, to, from),
            sel_f,
        );
        lemma_count_concat(
            log_classifications(rest, to, from),
            trace_classifications(last, to, from),
            sel_b,
        );
        lemma_count_concat(
            log_classifications(rest, to, from),
            trace_classifications(last, to, from),
            sel_e,
        );
    }
}

/// Swapping the two activities either mirrors the reported temporal
/// dependency (same kind, opposite direction) or reports independence for
/// both orders; it never yields two unrelated results.
pub proof fn lemma_temporal_symmetry(
    from: Seq<char>,
    to: Seq<char>,
    traces: Seq<Seq<Seq<char>>>,
    threshold: Threshold,
)
    requires
        threshold.wf(),
    ensures
        ({
            let a = spec_temporal_dependency(from, to, traces, threshold);
            let b = spec_temporal_dependency(to, from, traces, threshold);
            match a {
                Some(p) => b == Some(mirrored_temporal(p)),
                None => b is None,
            }
        }),
{
    let deps = log_classifications(traces, from, to);
    let sdeps = log_classifications(traces, to, from);
    lemma_log_symmetric(traces, from, to);
    lemma_count_complement(
        deps,
        |d: (DependencyType, Direction)| d.1 == Direction::Forward,
        |d: (DependencyType, Direction)| d.1 == Direction::Backward,
    );
    lemma_count_complement(
        sdeps,
        |d: (DependencyType, Direction)| d.1 == Direction::Forward,
        |d: (DependencyType, Direction)| d.1 == Direction::Backward,
    );
}

} // verus!
