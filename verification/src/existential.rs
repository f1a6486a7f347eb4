//! Existential dependency analysis: whether occurrence of one activity
//! across a log implies (or excludes) occurrence of another, ignoring order.

use vstd::prelude::*;

verus! {

use crate::seqs::{count_where, lemma_count_ext, lemma_count_take_step, lemma_take_all};
use crate::strutil::{seq_has, trace_contains};
use crate::threshold::Threshold;

/// Direction of an existential dependency.
#[derive(Debug, Clone, Copy, PartialEq, Eq, Structural)]
pub enum Direction {
    Forward,
    Backward,
    Both,
}

/// Kind of an existential dependency. `Nand` and `Or` belong to the
/// taxonomy but are never produced by the analyzer.
#[derive(Debug, Clone, Copy, PartialEq, Eq, Structural)]
pub enum DependencyType {
    Implication,
    Equivalence,
    NegatedEquivalence,
    Nand,
    Or,
}

/// An existential dependency between two activities.
#[derive(Debug, Clone, PartialEq, Eq)]
pub struct ExistentialDependency {
    pub from: String,
    pub to: String,
    pub dependency_type: DependencyType,
    pub direction: Direction,
}

impl ExistentialDependency {
    /// An implication is directed; the bidirectional direction never goes
    /// with it.
    pub open spec fn wf(self) -> bool {
        !(self.dependency_type == DependencyType::Implication && self.direction
            == Direction::Both)
    }

    pub fn new(from: &str, to: &str, dependency_type: DependencyType, direction: Direction) -> (r:
        ExistentialDependency)
        requires
            !(dependency_type == DependencyType::Implication && direction == Direction::Both),
        ensures
            r.from@ == from@,
            r.to@ == to@,
            r.dependency_type == dependency_type,
            r.direction == direction,
            r.wf(),
    {
        ExistentialDependency { from: from.to_owned(), to: to.to_owned(), dependency_type, direction }
    }
}

/// Within one trace, occurrence of `from` implies occurrence of `to`.
pub open spec fn implication_holds_for(trace: Seq<Seq<char>>, from: Seq<char>, to: Seq<char>) -> bool {
    seq_has(trace, from) ==> seq_has(trace, to)
}

/// Within one trace, occurrence of `from` excludes occurrence of `to`.
pub open spec fn exclusion_holds_for(trace: Seq<Seq<char>>, from: Seq<char>, to: Seq<char>) -> bool {
    seq_has(trace, from) ==> !seq_has(trace, to)
}

/// Across a non-empty log, the fraction of traces in which occurrence of
/// `from` implies occurrence of `to` reaches the threshold. Traces without
/// `from` are vacuously compliant.
pub open spec fn spec_has_implication(
    from: Seq<char>,
    to: Seq<char>,
    traces: Seq<Seq<Seq<char>>>,
    threshold: Threshold,
) -> bool {
    &&& traces.len() > 0
    &&& threshold.spec_le_ratio(
        count_where(traces, |tr: Seq<Seq<char>>| implication_holds_for(tr, from, to)),
        traces.len(),
    )
}

/// Across a non-empty log, the fraction of traces in which occurrence of
/// `from` excludes occurrence of `to` reaches the threshold.
pub open spec fn spec_negated_equivalence(
    from: Seq<char>,
    to: Seq<char>,
    traces: Seq<Seq<Seq<char>>>,
    threshold: Threshold,
) -> bool {
    &&& traces.len() > 0
    &&& threshold.spec_le_ratio(
        count_where(traces, |tr: Seq<Seq<char>>| exclusion_holds_for(tr, from, to)),
        traces.len(),
    )
}

/// The existential dependency reported for a pair of activities: an
/// implication in either direction (an equivalence when both hold), else a
/// negated equivalence, else none.
pub open spec fn spec_existential_dependency(
    from: Seq<char>,
    to: Seq<char>,
    traces: Seq<Seq<Seq<char>>>,
    threshold: Threshold,
) -> Option<(DependencyType, Direction)> {
    let fwd = spec_has_implication(from, to, traces, threshold);
    let bwd = spec_has_implication(to, from, traces, threshold);
    if fwd || bwd {
        Some(
            (
                if fwd && bwd {
                    DependencyType::Equivalence
                } else {
                    DependencyType::Implication
                },
                if fwd {
                    Direction::Forward
                } else {
                    Direction::Backward
                },
            ),
        )
    } else if spec_negated_equivalence(from, to, traces, threshold) {
        Some((DependencyType::NegatedEquivalence, Direction::Forward))
    } else {
        None
    }
}

/// Decides whether occurrence of `from` implies occurrence of `to` in a
/// fraction of the traces that reaches the threshold.
pub fn has_implication(from: &str, to: &str, traces: &Vec<Vec<&str>>, threshold: Threshold) -> (r:
    bool)
    requires
        threshold.wf(),
    ensures
        r == spec_has_implication(from@, to@, traces.deep_view(), threshold),
{
    let ghost dv = traces.deep_view();
    let total = traces.len();
    if total == 0 {
        return false;
    }
    let mut valid: usize = 0;
    let mut i: usize = 0;
    while i < total
        invariant
            0 <= i <= total,
            total == traces.len(),
            dv == traces.deep_view(),
            dv.len() == traces.len(),
            forall|j: int| 0 <= j < traces.len() ==> dv[j] == traces[j].deep_view(),
            valid <= i,
            valid == count_where(
                dv.take(i as int),
                |tr: Seq<Seq<char>>| implication_holds_for(tr, from@, to@),
            ),
        decreases total - i,
    {
        let ok = if trace_contains(&traces[i], from) {
            trace_contains(&traces[i], to)
        } else {
            true
        };
        proof {
            lemma_count_take_step(
                dv,
                |tr: Seq<Seq<char>>| implication_holds_for(tr, from@, to@),
                i as int,
            );
        }
        if ok {
            valid += 1;
        }
        i += 1;
    }
    proof {
        lemma_take_all(dv);
    }
    threshold.le_ratio(valid, total)
}

/// Decides whether occurrence of `from` excludes occurrence of `to` in a
/// fraction of the traces that reaches the threshold.
pub fn negated_equivalence(from: &str, to: &str, traces: &Vec<Vec<&str>>, threshold: Threshold) -> (r:
    bool)
    requires
        threshold.wf(),
    ensures
        r == spec_negated_equivalence(from@, to@, traces.deep_view(), threshold),
{
    let ghost dv = traces.deep_view();
    let total = traces.len();
    if total == 0 {
        return false;
    }
    let mut valid: usize = 0;
    let mut i: usize = 0;
    while i < total
        invariant
            0 <= i <= total,
            total == traces.len(),
            dv == traces.deep_view(),
            dv.len() == traces.len(),
            forall|j: int| 0 <= j < traces.len() ==> dv[j] == traces[j].deep_view(),
            valid <= i,
            valid == count_where(
                dv.take(i as int),
                |tr: Seq<Seq<char>>| exclusion_holds_for(tr, from@, to@),
            ),
        decreases total - i,
    {
        let ok = if trace_contains(&traces[i], from) {
            !trace_contains(&traces[i], to)
        } else {
            true
        };
        proof {
            lemma_count_take_step(
                dv,
                |tr: Seq<Seq<char>>| exclusion_holds_for(tr, from@, to@),
                i as int,
            );
        }
        if ok {
            valid += 1;
        }
        i += 1;
    }
    proof {
        lemma_take_all(dv);
    }
    threshold.le_ratio(valid, total)
}

/// Checks for an existential dependency between two activities across a
/// log: an implication in either direction, an equivalence when both
/// directions hold, or a negated equivalence; `None` means the pair is
/// existentially independent.
pub fn check_existential_dependency(
    from: &str,
    to: &str,
    traces: &Vec<Vec<&str>>,
    threshold: Threshold,
) -> (r: Option<ExistentialDependency>)
    requires
        threshold.wf(),
    ensures
        ({
            let s = spec_existential_dependency(from@, to@, traces.deep_view(), threshold);
            match r {
                Some(d) => s == Some((d.dependency_type, d.direction)) && d.from@ == from@ && d.to@
                    == to@ && d.wf(),
                None => s is None,
            }
        }),
{
    let fwd = has_implication(from, to, traces, threshold);
    let bwd = has_implication(to, from, traces, threshold);
    if fwd || bwd {
        let dependency_type = if fwd && bwd {
            DependencyType::Equivalence
        } else {
            DependencyType::Implication
        };
        let direction = if fwd {
            Direction::Forward
        } else {
            Direction::Backward
        };
        Some(ExistentialDependency::new(from, to, dependency_type, direction))
    } else if negated_equivalence(from, to, traces, threshold) {
        Some(ExistentialDependency::new(from, to, DependencyType::NegatedEquivalence, Direction::Forward))
    } else {
        None
    }
}

/// The mirrored form of a reported dependency when the two activities are
/// swapped: an implication flips its direction, the symmetric kinds keep it.
pub open spec fn mirrored_existential(p: (DependencyType, Direction)) -> (DependencyType, Direction) {
    if p.0 == DependencyType::Implication {
        (
            p.0,
            match p.1 {
                Direction::Forward => Direction::Backward,
                Direction::Backward => Direction::Forward,
                Direction::Both => Direction::Both,
            },
        )
    } else {
        p
    }
}

/// Lowering the threshold never loses a reported existential dependency:
/// a pair reported dependent at a higher threshold is also reported
/// dependent at any lower one.
pub proof fn lemma_existential_threshold_monotone(
    from: Seq<char>,
    to: Seq<char>,
    traces: Seq<Seq<Seq<char>>>,
    t1: Threshold,
    t2: Threshold,
)
    requires
        t1.wf(),
        t2.wf(),
        t1.spec_le(t2),
        spec_existential_dependency(from, to, traces, t2) is Some,
    ensures
        spec_existential_dependency(from, to, traces, t1) is Some,
{
    if spec_has_implication(from, to, traces, t2) {
        Threshold::lemma_le_ratio_monotone(
            t1,
            t2,
            count_where(traces, |tr: Seq<Seq<char>>| implication_holds_for(tr, from, to)),
            traces.len(),
        );
    }
    if spec_has_implication(to, from, traces, t2) {
        Threshold::lemma_le_ratio_monotone(
            t1,
            t2,
            count_where(traces, |tr: Seq<Seq<char>>| implication_holds_for(tr, to, from)),
            traces.len(),
        );
    }
    if spec_negated_equivalence(from, to, traces, t2) {
        Threshold::lemma_le_ratio_monotone(
            t1,
            t2,
            count_where(traces, |tr: Seq<Seq<char>>| exclusion_holds_for(tr, from, to)),
            traces.len(),
        );
    }
}

/// Swapping the two activities either mirrors the reported dependency or
/// reports independence for both orders; it never yields two unrelated
/// results.
pub proof fn lemma_existential_symmetry(
    from: Seq<char>,
    to: Seq<char>,
    traces: Seq<Seq<Seq<char>>>,
    threshold: Threshold,
)
    ensures
        ({
            let a = spec_existential_dependency(from, to, traces, threshold);
            let b = spec_existential_dependency(to, from, traces, threshold);
            match a {
                Some(p) => b == Some(mirrored_existential(p)),
                None => b is None,
            }
        }),
{
    assert(count_where(traces, |tr: Seq<Seq<char>>| exclusion_holds_for(tr, from, to))
        == count_where(traces, |tr: Seq<Seq<char>>| exclusion_holds_for(tr, to, from))) by {
        lemma_count_ext(
            traces,
            |tr: Seq<Seq<char>>| exclusion_holds_for(tr, from, to),
            |tr: Seq<Seq<char>>| exclusion_holds_for(tr, to, from),
        );
    }
}

} // verus!
