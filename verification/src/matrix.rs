//! The dependency matrix builder: both analyzers run at the exact
//! threshold over every ordered pair of distinct activities, rendered as a
//! fixed-width grid together with the log's aggregate quality counts.

use vstd::prelude::*;

verus! {

use vstd::string::StrSliceExecFns;
use crate::dependency::{dependency_text, Dependency};
use crate::existential;
use crate::existential::{check_existential_dependency, spec_existential_dependency};
use crate::seqs::{
    count_where,
    lemma_count_take_step,
    lemma_sum_take_step,
    lemma_take_all,
    sum_over,
};
use crate::strutil::str_eq;
use crate::temporal;
use crate::temporal::{check_temporal_dependency, spec_temporal_dependency};
use crate::threshold::Threshold;
use crate::traces::{activities_of, distinct_activities};

/// The threshold the matrix runs both analyzers at: a dependency must hold
/// in every qualifying trace.
pub open spec fn exact_threshold() -> Threshold {
    Threshold { num: 1, den: 1 }
}

/// The pair carries no temporal dependency.
pub open spec fn pair_pure_existence(
    a: Seq<char>,
    b: Seq<char>,
    traces: Seq<Seq<Seq<char>>>,
) -> bool {
    a != b && spec_temporal_dependency(a, b, traces, exact_threshold()) is None
}

/// The pair carries neither a temporal nor an existential dependency.
pub open spec fn pair_full_independence(
    a: Seq<char>,
    b: Seq<char>,
    traces: Seq<Seq<Seq<char>>>,
) -> bool {
    pair_pure_existence(a, b, traces) && spec_existential_dependency(
        a,
        b,
        traces,
        exact_threshold(),
    ) is None
}

/// The pair is an existential equivalence whose temporal side is eventual.
pub open spec fn pair_eventual_equivalence(
    a: Seq<char>,
    b: Seq<char>,
    traces: Seq<Seq<Seq<char>>>,
) -> bool {
    &&& a != b
    &&& (spec_existential_dependency(a, b, traces, exact_threshold()) matches Some(e) && e.0
        == existential::DependencyType::Equivalence)
    &&& (spec_temporal_dependency(a, b, traces, exact_threshold()) matches Some(t) && t.0
        == temporal::DependencyType::Eventual)
}

/// The pair is an existential equivalence whose temporal side is direct.
pub open spec fn pair_direct_equivalence(
    a: Seq<char>,
    b: Seq<char>,
    traces: Seq<Seq<Seq<char>>>,
) -> bool {
    &&& a != b
    &&& (spec_existential_dependency(a, b, traces, exact_threshold()) matches Some(e) && e.0
        == existential::DependencyType::Equivalence)
    &&& (spec_temporal_dependency(a, b, traces, exact_threshold()) matches Some(t) && t.0
        == temporal::DependencyType::Direct)
}

/// How many activities pair with `a` under the selector, `a` as the row.
pub open spec fn matrix_row_count(
    acts: Seq<Seq<char>>,
    traces: Seq<Seq<Seq<char>>>,
    sel: spec_fn(Seq<char>, Seq<char>, Seq<Seq<Seq<char>>>) -> bool,
    a: Seq<char>,
) -> nat {
    count_where(acts, |b: Seq<char>| sel(a, b, traces))
}

/// How many ordered pairs of activities satisfy the selector.
pub open spec fn matrix_pair_count(
    acts: Seq<Seq<char>>,
    traces: Seq<Seq<Seq<char>>>,
    sel: spec_fn(Seq<char>, Seq<char>, Seq<Seq<Seq<char>>>) -> bool,
) -> nat {
    sum_over(acts, |a: Seq<char>| matrix_row_count(acts, traces, sel, a))
}

/// A run of `n` spaces.
pub open spec fn spaces(n: int) -> Seq<char>
    decreases n,
{
    if n <= 0 {
        Seq::empty()
    } else {
        spaces(n - 1).push(' ')
    }
}

/// Text padded with spaces to the fixed cell width of the grid.
pub open spec fn padded(s: Seq<char>) -> Seq<char> {
    if s.len() >= 15 {
        s
    } else {
        s + spaces(15 - s.len())
    }
}

/// One cell of the grid: both analyzers' outcome for the ordered pair, or
/// a dash marker on the diagonal, padded to the cell width.
pub open spec fn cell_text(a: Seq<char>, b: Seq<char>, traces: Seq<Seq<Seq<char>>>) -> Seq<char> {
    if a == b {
        padded("-"@)
    } else {
        padded(
            dependency_text(
                spec_temporal_dependency(a, b, traces, exact_threshold()),
                spec_existential_dependency(a, b, traces, exact_threshold()),
            ),
        )
    }
}

/// The cells of one row, left to right over the column activities.
pub open spec fn row_cells(acts: Seq<Seq<char>>, traces: Seq<Seq<Seq<char>>>, a: Seq<char>) -> Seq<
    char,
>
    decreases acts.len(),
{
    if acts.len() == 0 {
        Seq::empty()
    } else {
        row_cells(acts.drop_last(), traces, a) + cell_text(a, acts.last(), traces)
    }
}

/// The header cells: the column activities, each padded.
pub open spec fn header_cells(acts: Seq<Seq<char>>) -> Seq<char>
    decreases acts.len(),
{
    if acts.len() == 0 {
        Seq::empty()
    } else {
        header_cells(acts.drop_last()) + padded(acts.last())
    }
}

/// The rows of the grid for the given row activities: each row is its
/// activity's padded label, its cells, and a line break.
pub open spec fn rows_text(
    acts_all: Seq<Seq<char>>,
    traces: Seq<Seq<Seq<char>>>,
    acts: Seq<Seq<char>>,
) -> Seq<char>
    decreases acts.len(),
{
    if acts.len() == 0 {
        Seq::empty()
    } else {
        rows_text(acts_all, traces, acts.drop_last()) + padded(acts.last()) + row_cells(
            acts_all,
            traces,
            acts.last(),
        ) + "\n"@
    }
}

/// The whole grid: a header of the column activities over one row per
/// activity.
pub open spec fn grid_text(acts: Seq<Seq<char>>, traces: Seq<Seq<Seq<char>>>) -> Seq<char> {
    padded(" "@) + header_cells(acts) + "\n"@ + rows_text(acts, traces, acts)
}

/// Pads text with spaces to the fixed cell width of the grid.
fn pad_to_width(s: String) -> (r: String)
    ensures
        r@ == padded(s@),
{
    let ghost orig = s@;
    let n = s.as_str().unicode_len();
    if n >= 15 {
        return s;
    }
    let mut r = s;
    let mut k: usize = n;
    proof {
        assert(spaces(0) =~= Seq::<char>::empty());
        assert(r@ =~= orig + spaces(0));
    }
    while k < 15
        invariant
            n <= k <= 15,
            n == orig.len(),
            r@ == orig + spaces(k - n),
        decreases 15 - k,
    {
        proof {
            reveal_strlit(" ");
            assert((orig + spaces(k - n)) + " "@ =~= orig + spaces(k + 1 - n));
        }
        r.append(" ");
        k += 1;
    }
    r
}

/// The grid cell and the aggregate flags for one ordered pair of distinct
/// activities.
fn matrix_cell(from: &String, to: &String, converted: &Vec<Vec<&str>>, threshold: Threshold) -> (r:
    (String, bool, bool, bool, bool))
    requires
        threshold == exact_threshold(),
        from@ != to@,
    ensures
        r.0@ == cell_text(from@, to@, converted.deep_view()),
        r.1 == pair_pure_existence(from@, to@, converted.deep_view()),
        r.2 == pair_full_independence(from@, to@, converted.deep_view()),
        r.3 == pair_eventual_equivalence(from@, to@, converted.deep_view()),
        r.4 == pair_direct_equivalence(from@, to@, converted.deep_view()),
{
    let temporal_dependency = check_temporal_dependency(
        from.as_str(),
        to.as_str(),
        converted,
        threshold,
    );
    let existential_dependency = check_existential_dependency(
        from.as_str(),
        to.as_str(),
        converted,
        threshold,
    );
    let temporal_none = temporal_dependency.is_none();
    let existential_none = existential_dependency.is_none();
    let is_equivalence = match &existential_dependency {
        Some(e) => e.dependency_type == existential::DependencyType::Equivalence,
        None => false,
    };
    let mut eventual_eq = false;
    let mut direct_eq = false;
    if is_equivalence {
        match &temporal_dependency {
            Some(t) => {
                match t.dependency_type {
                    temporal::DependencyType::Eventual => {
                        eventual_eq = true;
                    },
                    temporal::DependencyType::Direct => {
                        direct_eq = true;
                    },
                }
            },
            None => {},
        }
    }
    let dependency = Dependency::new(
        from.clone(),
        to.clone(),
        temporal_dependency,
        existential_dependency,
    );
    let cell = pad_to_width(dependency.render());
    (cell, temporal_none, temporal_none && existential_none, eventual_eq, direct_eq)
}

/// The traces as borrowed slices, for the analyzers.
fn as_str_traces<'a>(traces: &'a Vec<Vec<String>>) -> (r: Vec<Vec<&'a str>>)
    ensures
        r.deep_view() == traces.deep_view(),
{
    let ghost dv = traces.deep_view();
    let mut r: Vec<Vec<&'a str>> = Vec::new();
    let mut i: usize = 0;
    while i < traces.len()
        invariant
            0 <= i <= traces.len(),
            dv == traces.deep_view(),
            dv.len() == traces.len(),
            forall|j: int| 0 <= j < traces.len() ==> dv[j] == (#[trigger] traces[j]).deep_view(),
            r.deep_view() == dv.take(i as int),
            r@.len() == i,
        decreases traces.len() - i,
    {
        let ghost tdv = dv[i as int];
        let mut row: Vec<&'a str> = Vec::new();
        let mut j: usize = 0;
        while j < traces[i].len()
            invariant
                0 <= i < traces.len(),
                0 <= j <= traces[i as int].len(),
                dv == traces.deep_view(),
                tdv == dv[i as int],
                tdv == traces[i as int].deep_view(),
                tdv.len() == traces[i as int].len(),
                forall|l: int| 0 <= l < tdv.len() ==> tdv[l] == (#[trigger] traces[i as int][l])@,
                row.deep_view() == tdv.take(j as int),
                row@.len() == j,
            decreases traces[i as int].len() - j,
        {
            let ghost before = row.deep_view();
            row.push(traces[i][j].as_str());
            proof {
                assert(row.deep_view() =~= before.push(tdv[j as int]));
                assert(tdv.take(j + 1) =~= tdv.take(j as int).push(tdv[j as int]));
            }
            j += 1;
        }
        proof {
            assert(tdv.take(tdv.len() as int) =~= tdv);
        }
        let ghost before = r.deep_view();
        r.push(row);
        proof {
            assert(r.deep_view() =~= before.push(tdv));
            assert(dv.take(i + 1) =~= dv.take(i as int).push(dv[i as int]));
        }
        i += 1;
    }
    proof {
        assert(dv.take(dv.len() as int) =~= dv);
    }
    r
}

/// Runs both analyzers at the exact threshold over every ordered pair of
/// distinct activities. Returns the grid, then the number of pairs with
/// neither dependency, the number with no temporal dependency, the numbers
/// of eventual and of direct equivalences, and the number of activities.
#[verifier::loop_isolation(false)]
#[verifier::rlimit(90)]
pub fn generate_adj_matrix_from_activities_and_traces(
    activities: &Vec<String>,
    traces: &Vec<Vec<String>>,
) -> (r: (String, usize, usize, usize, usize, usize))
    requires
        activities@.len() * activities@.len() <= usize::MAX,
    ensures
        ({
            let acts = activities.deep_view();
            let ts = traces.deep_view();
            &&& r.0@ == grid_text(acts, ts)
            &&& r.1 as nat == matrix_pair_count(
                acts,
                ts,
                |a: Seq<char>, b: Seq<char>, t: Seq<Seq<Seq<char>>>| pair_full_independence(
                    a,
                    b,
                    t,
                ),
            )
            &&& r.2 as nat == matrix_pair_count(
                acts,
                ts,
                |a: Seq<char>, b: Seq<char>, t: Seq<Seq<Seq<char>>>| pair_pure_existence(a, b, t),
            )
            &&& r.3 as nat == matrix_pair_count(
                acts,
                ts,
                |a: Seq<char>, b: Seq<char>, t: Seq<Seq<Seq<char>>>| pair_eventual_equivalence(
                    a,
                    b,
                    t,
                ),
            )
            &&& r.4 as nat == matrix_pair_count(
                acts,
                ts,
                |a: Seq<char>, b: Seq<char>, t: Seq<Seq<Seq<char>>>| pair_direct_equivalence(
                    a,
                    b,
                    t,
                ),
            )
            &&& r.5 == activities@.len()
        }),
{
    let ghost acts = activities.deep_view();
    let ghost ts = traces.deep_view();
    let ghost sel_full = |a: Seq<char>, b: Seq<char>, t: Seq<Seq<Seq<char>>>|
        pair_full_independence(a, b, t);
    let ghost sel_pure = |a: Seq<char>, b: Seq<char>, t: Seq<Seq<Seq<char>>>| pair_pure_existence(
        a,
        b,
        t,
    );
    let ghost sel_ev = |a: Seq<char>, b: Seq<char>, t: Seq<Seq<Seq<char>>>|
        pair_eventual_equivalence(a, b, t);
    let ghost sel_dir = |a: Seq<char>, b: Seq<char>, t: Seq<Seq<Seq<char>>>|
        pair_direct_equivalence(a, b, t);
    let n = activities.len();
    let converted = as_str_traces(traces);
    let threshold = Threshold::exact();

    let mut full_independences: usize = 0;
    let mut pure_existences: usize = 0;
    let mut eventual_equivalences: usize = 0;
    let mut direct_equivalences: usize = 0;

    let mut output = pad_to_width(" ".to_owned());
    let mut j: usize = 0;
    while j < n
        invariant
            0 <= j <= n,
            output@ == padded(" "@) + header_cells(acts.take(j as int)),
        decreases n - j,
    {
        proof {
            assert(acts.take(j + 1).drop_last() =~= acts.take(j as int));
            assert(acts.take(j + 1).last() == acts[j as int]);
        }
        let cell = pad_to_width(activities[j].clone());
        output.append(cell.as_str());
        j += 1;
    }
    proof {
        lemma_take_all(acts);
    }
    output.append("\n");

    let mut i: usize = 0;
    while i < n
        invariant
            0 <= i <= n,
            output@ == padded(" "@) + header_cells(acts) + "\n"@ + rows_text(
                acts,
                ts,
                acts.take(i as int),
            ),
            full_independences as nat == sum_over(
                acts.take(i as int),
                |a: Seq<char>| matrix_row_count(acts, ts, sel_full, a),
            ),
            pure_existences as nat == sum_over(
                acts.take(i as int),
                |a: Seq<char>| matrix_row_count(acts, ts, sel_pure, a),
            ),
            eventual_equivalences as nat == sum_over(
                acts.take(i as int),
                |a: Seq<char>| matrix_row_count(acts, ts, sel_ev, a),
            ),
            direct_equivalences as nat == sum_over(
                acts.take(i as int),
                |a: Seq<char>| matrix_row_count(acts, ts, sel_dir, a),
            ),
            full_independences <= i * n && pure_existences <= i * n && eventual_equivalences <= i
                * n && direct_equivalences <= i * n,
        decreases n - i,
    {
        let from = &activities[i];
        let ghost a = acts[i as int];
        output.append(pad_to_width(from.clone()).as_str());
        let mut jj: usize = 0;
        while jj < n
            invariant
                0 <= jj <= n,
                0 <= i < n,
                a == acts[i as int],
                from@ == a,
                output@ == padded(" "@) + header_cells(acts) + "\n"@ + rows_text(
                    acts,
                    ts,
                    acts.take(i as int),
                ) + padded(a) + row_cells(acts.take(jj as int), ts, a),
                full_independences as nat == sum_over(
                    acts.take(i as int),
                    |a: Seq<char>| matrix_row_count(acts, ts, sel_full, a),
                ) + count_where(acts.take(jj as int), |b: Seq<char>| sel_full(a, b, ts)),
                pure_existences as nat == sum_over(
                    acts.take(i as int),
                    |a: Seq<char>| matrix_row_count(acts, ts, sel_pure, a),
                ) + count_where(acts.take(jj as int), |b: Seq<char>| sel_pure(a, b, ts)),
                eventual_equivalences as nat == sum_over(
                    acts.take(i as int),
                    |a: Seq<char>| matrix_row_count(acts, ts, sel_ev, a),
                ) + count_where(acts.take(jj as int), |b: Seq<char>| sel_ev(a, b, ts)),
                direct_equivalences as nat == sum_over(
                    acts.take(i as int),
                    |a: Seq<char>| matrix_row_count(acts, ts, sel_dir, a),
                ) + count_where(acts.take(jj as int), |b: Seq<char>| sel_dir(a, b, ts)),
                full_independences <= i * n + jj && pure_existences <= i * n + jj
                    && eventual_equivalences <= i * n + jj && direct_equivalences <= i * n + jj,
            decreases n - jj,
        {
            let ghost b = acts[jj as int];
            proof {
                assert(acts.take(jj + 1).drop_last() =~= acts.take(jj as int));
                assert(acts.take(jj + 1).last() == b);
                lemma_count_take_step(acts, |b: Seq<char>| sel_full(a, b, ts), jj as int);
                lemma_count_take_step(acts, |b: Seq<char>| sel_pure(a, b, ts), jj as int);
                lemma_count_take_step(acts, |b: Seq<char>| sel_ev(a, b, ts), jj as int);
                lemma_count_take_step(acts, |b: Seq<char>| sel_dir(a, b, ts), jj as int);
                assert(i * n + jj < n * n) by (nonlinear_arith)
                    requires
                        0 <= i < n,
                        0 <= jj < n,
                ;
            }
            let to = &activities[jj];
            proof {
                assert(to@ == b);
            }
            if !str_eq(from.as_str(), to.as_str()) {
                let (cell, pure_flag, full_flag, ev_flag, dir_flag) = matrix_cell(
                    from,
                    to,
                    &converted,
                    threshold,
                );
                if pure_flag {
                    pure_existences += 1;
                }
                if full_flag {
                    full_independences += 1;
                }
                if ev_flag {
                    eventual_equivalences += 1;
                }
                if dir_flag {
                    direct_equivalences += 1;
                }
                proof {
                    assert(cell@ == cell_text(a, b, ts));
                }
                output.append(cell.as_str());
            } else {
                let cell = pad_to_width("-".to_owned());
                proof {
                    assert(cell@ == cell_text(a, b, ts));
                }
                output.append(cell.as_str());
            }
            jj += 1;
        }
        proof {
            lemma_take_all(acts);
            assert(acts.take(i + 1).drop_last() =~= acts.take(i as int));
            assert(acts.take(i + 1).last() == a);
            lemma_sum_take_step(acts, |a: Seq<char>| matrix_row_count(acts, ts, sel_full, a), i as int);
            lemma_sum_take_step(acts, |a: Seq<char>| matrix_row_count(acts, ts, sel_pure, a), i as int);
            lemma_sum_take_step(acts, |a: Seq<char>| matrix_row_count(acts, ts, sel_ev, a), i as int);
            lemma_sum_take_step(acts, |a: Seq<char>| matrix_row_count(acts, ts, sel_dir, a), i as int);
            assert(i * n + n == (i + 1) * n) by (nonlinear_arith);
        }
        output.append("\n");
        i += 1;
    }
    proof {
        lemma_take_all(acts);
    }
    (
        output,
        full_independences,
        pure_existences,
        eventual_equivalences,
        direct_equivalences,
        n,
    )
}

/// Extracts the alphabet from the traces and builds the dependency matrix
/// over it; see `generate_adj_matrix_from_activities_and_traces`.
pub fn generate_adj_matrix_from_traces(traces: Vec<Vec<String>>) -> (r: (
    String,
    usize,
    usize,
    usize,
    usize,
    usize,
))
    requires
        ({
            let acts = activities_of(traces.deep_view());
            acts.len() * acts.len() <= usize::MAX
        }),
    ensures
        ({
            let acts = activities_of(traces.deep_view());
            let ts = traces.deep_view();
            &&& r.0@ == grid_text(acts, ts)
            &&& r.1 as nat == matrix_pair_count(
                acts,
                ts,
                |a: Seq<char>, b: Seq<char>, t: Seq<Seq<Seq<char>>>| pair_full_independence(
                    a,
                    b,
                    t,
                ),
            )
            &&& r.2 as nat == matrix_pair_count(
                acts,
                ts,
                |a: Seq<char>, b: Seq<char>, t: Seq<Seq<Seq<char>>>| pair_pure_existence(a, b, t),
            )
            &&& r.3 as nat == matrix_pair_count(
                acts,
                ts,
                |a: Seq<char>, b: Seq<char>, t: Seq<Seq<Seq<char>>>| pair_eventual_equivalence(
                    a,
                    b,
                    t,
                ),
            )
            &&& r.4 as nat == matrix_pair_count(
                acts,
                ts,
                |a: Seq<char>, b: Seq<char>, t: Seq<Seq<Seq<char>>>| pair_direct_equivalence(
                    a,
                    b,
                    t,
                ),
            )
            &&& r.5 == activities_of(traces.deep_view()).len()
        }),
{
    let activities = distinct_activities(&traces);
    generate_adj_matrix_from_activities_and_traces(&activities, &traces)
}

} // verus!
