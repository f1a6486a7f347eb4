//! The combined dependency record for one ordered pair of activities, and
//! its textual form in the dependency matrix.

use vstd::prelude::*;

verus! {

use crate::existential;
use crate::existential::ExistentialDependency;
use crate::temporal;
use crate::temporal::TemporalDependency;

/// The outcome of both analyzers for one ordered pair of activities.
#[derive(Clone)]
pub struct Dependency {
    pub from: String,
    pub to: String,
    pub temporal_dependency: Option<TemporalDependency>,
    pub existential_dependency: Option<ExistentialDependency>,
}

/// The textual form of a temporal dependency: its direction symbol,
/// suffixed with `d` when it is direct.
pub open spec fn temporal_text(p: (temporal::DependencyType, temporal::Direction)) -> Seq<char> {
    (match p.1 {
        temporal::Direction::Forward => "≺"@,
        temporal::Direction::Backward => "≻"@,
    }) + (match p.0 {
        temporal::DependencyType::Direct => "d"@,
        temporal::DependencyType::Eventual => ""@,
    })
}

/// The textual form of an existential dependency: an arrow for an
/// implication, else the kind's own symbol.
pub open spec fn existential_text(
    p: (existential::DependencyType, existential::Direction),
) -> Seq<char> {
    if p.0 == existential::DependencyType::Implication {
        match p.1 {
            existential::Direction::Forward => "=>"@,
            existential::Direction::Backward => "<="@,
            existential::Direction::Both => ""@,
        }
    } else {
        match p.0 {
            existential::DependencyType::Implication => ""@,
            existential::DependencyType::Equivalence => "⇔"@,
            existential::DependencyType::NegatedEquivalence => "⇎"@,
            existential::DependencyType::Nand => "⊼"@,
            existential::DependencyType::Or => "∨"@,
        }
    }
}

/// The textual form of a combined dependency: the temporal part and the
/// existential part separated by a comma, a dash for a missing part, and
/// `None` when both are missing.
pub open spec fn dependency_text(
    t: Option<(temporal::DependencyType, temporal::Direction)>,
    e: Option<(existential::DependencyType, existential::Direction)>,
) -> Seq<char> {
    match (t, e) {
        (Some(tp), Some(ep)) => temporal_text(tp) + ","@ + existential_text(ep),
        (Some(tp), None) => temporal_text(tp) + ",-"@,
        (None, Some(ep)) => "-,"@ + existential_text(ep),
        (None, None) => "None"@,
    }
}

impl Dependency {
    /// The temporal outcome as a kind and direction pair.
    pub open spec fn temporal_pair(self) -> Option<(temporal::DependencyType, temporal::Direction)> {
        match self.temporal_dependency {
            Some(d) => Some((d.dependency_type, d.direction)),
            None => None,
        }
    }

    /// The existential outcome as a kind and direction pair.
    pub open spec fn existential_pair(self) -> Option<
        (existential::DependencyType, existential::Direction),
    > {
        match self.existential_dependency {
            Some(d) => Some((d.dependency_type, d.direction)),
            None => None,
        }
    }

    /// The existential part, if any, carries no invalid direction.
    pub open spec fn wf(self) -> bool {
        match self.existential_dependency {
            Some(e) => e.wf(),
            None => true,
        }
    }

    pub fn new(
        from: String,
        to: String,
        temporal_dependency: Option<TemporalDependency>,
        existential_dependency: Option<ExistentialDependency>,
    ) -> (r: Dependency)
        ensures
            r.from == from,
            r.to == to,
            r.temporal_dependency == temporal_dependency,
            r.existential_dependency == existential_dependency,
    {
        Dependency { from, to, temporal_dependency, existential_dependency }
    }

    /// The textual form of this record, as one matrix cell holds it.
    pub fn render(&self) -> (r: String)
        requires
            self.wf(),
        ensures
            r@ == dependency_text(self.temporal_pair(), self.existential_pair()),
    {
        let mut out = String::new();
        match (&self.temporal_dependency, &self.existential_dependency) {
            (Some(t), Some(e)) => {
                append_temporal(&mut out, t);
                out.append(",");
                append_existential(&mut out, e);
            },
            (Some(t), None) => {
                append_temporal(&mut out, t);
                out.append(",-");
            },
            (None, Some(e)) => {
                out.append("-,");
                append_existential(&mut out, e);
            },
            (None, None) => {
                out.append("None");
            },
        }
        out
    }
}

/// Appends the temporal symbol to the cell text.
fn append_temporal(out: &mut String, t: &TemporalDependency)
    ensures
        final(out)@ == old(out)@ + temporal_text((t.dependency_type, t.direction)),
{
    match t.direction {
        temporal::Direction::Forward => out.append("≺"),
        temporal::Direction::Backward => out.append("≻"),
    }
    match t.dependency_type {
        temporal::DependencyType::Direct => out.append("d"),
        temporal::DependencyType::Eventual => out.append(""),
    }
}

/// Appends the existential symbol to the cell text.
fn append_existential(out: &mut String, e: &ExistentialDependency)
    requires
        e.wf(),
    ensures
        final(out)@ == old(out)@ + existential_text((e.dependency_type, e.direction)),
{
    match e.dependency_type {
        existential::DependencyType::Implication => {
            match e.direction {
                existential::Direction::Forward => out.append("=>"),
                existential::Direction::Backward => out.append("<="),
                existential::Direction::Both => out.append(""),
            }
        },
        existential::DependencyType::Equivalence => out.append("⇔"),
        existential::DependencyType::NegatedEquivalence => out.append("⇎"),
        existential::DependencyType::Nand => out.append("⊼"),
        existential::DependencyType::Or => out.append("∨"),
    }
}

} // verus!
