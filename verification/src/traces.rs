//! The trace store: turns comma-separated text, one case per line, into an
//! ordered sequence of traces and extracts the alphabet of activities.

use vstd::prelude::*;

verus! {

use vstd::string::StrSliceExecFns;
use crate::strutil::str_eq;

/// Blank space inside a token.
pub open spec fn is_space(c: char) -> bool {
    c == ' ' || c == '\t' || c == '\r'
}

/// A token of nothing but blank space carries no activity.
pub open spec fn is_blank(t: Seq<char>) -> bool {
    forall|i: int| 0 <= i < t.len() ==> is_space(#[trigger] t[i])
}

/// The pieces of `s` between occurrences of `sep`: always one more piece
/// than separators, so empty text yields one empty piece.
pub open spec fn split_sep(s: Seq<char>, sep: char) -> Seq<Seq<char>>
    decreases s.len(),
{
    if s.len() == 0 {
        seq![Seq::empty()]
    } else {
        let rest = split_sep(s.drop_last(), sep);
        if s.last() == sep {
            rest.push(Seq::empty())
        } else {
            rest.update(rest.len() - 1, rest.last().push(s.last()))
        }
    }
}

/// The activities of one line: its comma-separated tokens, blank tokens
/// dropped, each remaining token kept exactly as written.
pub open spec fn parse_line(line: Seq<char>) -> Seq<Seq<char>> {
    split_sep(line, ',').filter(|t: Seq<char>| !is_blank(t))
}

/// The traces of the whole text: one per line with at least one activity.
pub open spec fn parse_traces(text: Seq<char>) -> Seq<Seq<Seq<char>>> {
    split_sep(text, '\n').map_values(|line: Seq<char>| parse_line(line)).filter(
        |tr: Seq<Seq<char>>| tr.len() > 0,
    )
}

/// A split has at least one piece.
proof fn lemma_split_len(s: Seq<char>, sep: char)
    ensures
        split_sep(s, sep).len() >= 1,
    decreases s.len(),
{
    if s.len() > 0 {
        lemma_split_len(s.drop_last(), sep);
    }
}

/// Splitting one more separator opens a new empty piece.
proof fn lemma_split_push_sep(s: Seq<char>, sep: char)
    ensures
        split_sep(s.push(sep), sep) == split_sep(s, sep).push(Seq::empty()),
{
    assert(s.push(sep).drop_last() =~= s);
}

/// Splitting one more ordinary character extends the last piece.
proof fn lemma_split_push_other(s: Seq<char>, sep: char, c: char)
    requires
        c != sep,
    ensures
        ({
            let rest = split_sep(s, sep);
            split_sep(s.push(c), sep) == rest.update(rest.len() - 1, rest.last().push(c))
        }),
{
    assert(s.push(c).drop_last() =~= s);
}

/// The distinct members of `items` joined to `acc`, each at its first
/// appearance.
pub open spec fn add_distinct(acc: Seq<Seq<char>>, items: Seq<Seq<char>>) -> Seq<Seq<char>>
    decreases items.len(),
{
    if items.len() == 0 {
        acc
    } else {
        let prev = add_distinct(acc, items.drop_last());
        if prev.contains(items.last()) {
            prev
        } else {
            prev.push(items.last())
        }
    }
}

/// The alphabet of a log: every distinct activity, in order of first
/// appearance.
pub open spec fn activities_of(traces: Seq<Seq<Seq<char>>>) -> Seq<Seq<char>>
    decreases traces.len(),
{
    if traces.len() == 0 {
        Seq::empty()
    } else {
        add_distinct(activities_of(traces.drop_last()), traces.last())
    }
}

/// Joining distinct members keeps exactly the old and the new ones.
proof fn lemma_add_distinct_props(acc: Seq<Seq<char>>, items: Seq<Seq<char>>)
    requires
        acc.no_duplicates(),
    ensures
        add_distinct(acc, items).no_duplicates(),
        forall|x: Seq<char>|
            #[trigger] add_distinct(acc, items).contains(x) <==> (acc.contains(x)
                || items.contains(x)),
    decreases items.len(),
{
    broadcast use vstd::seq_lib::group_seq_properties;

    if items.len() > 0 {
        let prev = add_distinct(acc, items.drop_last());
        lemma_add_distinct_props(acc, items.drop_last());
        assert forall|x: Seq<char>| #[trigger] add_distinct(acc, items).contains(x) implies (
        acc.contains(x) || items.contains(x)) by {
            if prev.contains(x) {
                if items.drop_last().contains(x) {
                    let j = choose|j: int|
                        0 <= j < items.drop_last().len() && items.drop_last()[j] == x;
                    assert(items[j] == x);
                }
            } else {
                assert(x == items.last());
                assert(items[items.len() - 1] == x);
            }
        }
        assert forall|x: Seq<char>| (acc.contains(x) || items.contains(x)) implies #[trigger]
        add_distinct(acc, items).contains(x) by {
            if items.contains(x) {
                let j = choose|j: int| 0 <= j < items.len() && items[j] == x;
                if j < items.len() - 1 {
                    assert(items.drop_last()[j] == x);
                }
            }
        }
    }
}

/// The alphabet never holds an activity twice.
pub proof fn lemma_activities_of_distinct(traces: Seq<Seq<Seq<char>>>)
    ensures
        activities_of(traces).no_duplicates(),
        forall|x: Seq<char>|
            #[trigger] activities_of(traces).contains(x) <==> exists|i: int|
                0 <= i < traces.len() && (#[trigger] traces[i]).contains(x),
    decreases traces.len(),
{
    broadcast use vstd::seq_lib::group_seq_properties;

    if traces.len() == 0 {
    } else {
        let rest = traces.drop_last();
        lemma_activities_of_distinct(rest);
        lemma_add_distinct_props(activities_of(rest), traces.last());
        assert forall|x: Seq<char>| #[trigger] activities_of(traces).contains(x) implies exists|
            i: int,
        | 0 <= i < traces.len() && (#[trigger] traces[i]).contains(x) by {
            if activities_of(rest).contains(x) {
                let i = choose|i: int| 0 <= i < rest.len() && (#[trigger] rest[i]).contains(x);
                assert(traces[i].contains(x));
            } else {
                assert(traces[traces.len() - 1].contains(x));
            }
        }
        assert forall|x: Seq<char>|
            exists|i: int| 0 <= i < traces.len() && (#[trigger] traces[i]).contains(x) implies #[
            trigger] activities_of(traces).contains(x) by {
            let i = choose|i: int| 0 <= i < traces.len() && (#[trigger] traces[i]).contains(x);
            if i < traces.len() - 1 {
                assert(rest[i].contains(x));
            }
        }
    }
}

/// Whether the alphabet gathered so far holds the activity.
fn contains_string(v: &Vec<String>, s: &String) -> (r: bool)
    ensures
        r == v.deep_view().contains(s@),
{
    let ghost dv = v.deep_view();
    let mut i: usize = 0;
    while i < v.len()
        invariant
            0 <= i <= v.len(),
            dv == v.deep_view(),
            dv.len() == v.len(),
            forall|j: int| 0 <= j < v.len() ==> dv[j] == v[j]@,
            forall|j: int| 0 <= j < i ==> dv[j] != s@,
        decreases v.len() - i,
    {
        if str_eq(v[i].as_str(), s.as_str()) {
            proof {
                assert(dv[i as int] == s@);
            }
            return true;
        }
        i += 1;
    }
    false
}

/// Gathers the alphabet of a log: every distinct activity, in order of
/// first appearance.
pub fn distinct_activities(traces: &Vec<Vec<String>>) -> (r: Vec<String>)
    ensures
        r.deep_view() == activities_of(traces.deep_view()),
        r.deep_view().no_duplicates(),
{
    let ghost dv = traces.deep_view();
    let mut r: Vec<String> = Vec::new();
    let mut i: usize = 0;
    while i < traces.len()
        invariant
            0 <= i <= traces.len(),
            dv == traces.deep_view(),
            dv.len() == traces.len(),
            forall|j: int| 0 <= j < traces.len() ==> dv[j] == (#[trigger] traces[j]).deep_view(),
            r.deep_view() == activities_of(dv.take(i as int)),
        decreases traces.len() - i,
    {
        proof {
            assert(dv.take(i + 1).drop_last() =~= dv.take(i as int));
            assert(dv.take(i + 1).last() == dv[i as int]);
        }
        let ghost tdv = dv[i as int];
        let mut j: usize = 0;
        while j < traces[i].len()
            invariant
                0 <= i < traces.len(),
                0 <= j <= traces[i as int].len(),
                dv == traces.deep_view(),
                tdv == dv[i as int],
                tdv == traces[i as int].deep_view(),
                tdv.len() == traces[i as int].len(),
                forall|l: int| 0 <= l < tdv.len() ==> tdv[l] == (#[trigger] traces[i as int][l])@,
                r.deep_view() == add_distinct(activities_of(dv.take(i as int)), tdv.take(j as int)),
            decreases traces[i as int].len() - j,
        {
            proof {
                assert(tdv.take(j + 1).drop_last() =~= tdv.take(j as int));
                assert(tdv.take(j + 1).last() == tdv[j as int]);
            }
            if !contains_string(&r, &traces[i][j]) {
                let ghost before = r.deep_view();
                r.push(traces[i][j].clone());
                proof {
                    assert(r.deep_view() =~= before.push(tdv[j as int]));
                }
            }
            j += 1;
        }
        proof {
            assert(tdv.take(tdv.len() as int) =~= tdv);
        }
        i += 1;
    }
    proof {
        assert(dv.take(dv.len() as int) =~= dv);
        lemma_activities_of_distinct(dv);
    }
    r
}

/// Splits text into traces as `get_traces` does, and also gathers the
/// alphabet: every distinct activity, in order of first appearance.
pub fn get_activities_and_traces(text: &str) -> (r: (Vec<String>, Vec<Vec<String>>))
    ensures
        r.1.deep_view() == parse_traces(text@),
        r.0.deep_view() == activities_of(parse_traces(text@)),
        r.0.deep_view().no_duplicates(),
{
    let traces = get_traces(text);
    let activities = distinct_activities(&traces);
    (activities, traces)
}

/// Whether the token holds nothing but blank space.
fn is_blank_str(s: &str) -> (r: bool)
    ensures
        r == is_blank(s@),
{
    let n = s.unicode_len();
    let mut i: usize = 0;
    while i < n
        invariant
            0 <= i <= n,
            n == s@.len(),
            forall|j: int| 0 <= j < i ==> is_space(#[trigger] s@[j]),
        decreases n - i,
    {
        let c = s.get_char(i);
        if !(c == ' ' || c == '\t' || c == '\r') {
            return false;
        }
        i += 1;
    }
    true
}

/// Splits text into traces: one trace per line, the line's comma-separated
/// tokens as its activities, blank tokens and activity-free lines dropped.
#[verifier::loop_isolation(false)]
#[verifier::rlimit(60)]
pub fn get_traces(text: &str) -> (r: Vec<Vec<String>>)
    ensures
        r.deep_view() == parse_traces(text@),
{
    broadcast use vstd::seq_lib::group_seq_properties;

    let ghost tv = text@;
    let n = text.unicode_len();
    let mut done: Vec<Vec<String>> = Vec::new();
    let mut cur_trace: Vec<String> = Vec::new();
    let mut line_start: usize = 0;
    let mut tok_start: usize = 0;
    let ghost mut done_lines: Seq<Seq<char>> = Seq::empty();
    let ghost mut cur_tokens: Seq<Seq<char>> = Seq::empty();
    proof {
        reveal(Seq::filter);
        assert(tv.take(0) =~= Seq::<char>::empty());
        assert(tv.subrange(0, 0) =~= Seq::<char>::empty());
        assert(split_sep(tv.take(0), '\n') =~= done_lines.push(tv.subrange(0, 0)));
        assert(split_sep(tv.subrange(0, 0), ',') =~= cur_tokens.push(tv.subrange(0, 0)));
        assert(done.deep_view() =~= done_lines.map_values(
            |line: Seq<char>| parse_line(line),
        ).filter(|tr: Seq<Seq<char>>| tr.len() > 0));
        assert(cur_trace.deep_view() =~= cur_tokens.filter(|t: Seq<char>| !is_blank(t)));
    }
    let mut i: usize = 0;
    while i < n
        invariant
            0 <= line_start <= tok_start <= i <= n,
            n == tv.len(),
            tv == text@,
            split_sep(tv.take(i as int), '\n') == done_lines.push(
                tv.subrange(line_start as int, i as int),
            ),
            split_sep(tv.subrange(line_start as int, i as int), ',') == cur_tokens.push(
                tv.subrange(tok_start as int, i as int),
            ),
            done.deep_view() == done_lines.map_values(|line: Seq<char>| parse_line(line)).filter(
                |tr: Seq<Seq<char>>| tr.len() > 0,
            ),
            cur_trace.deep_view() == cur_tokens.filter(|t: Seq<char>| !is_blank(t)),
        decreases n - i,
    {
        let c = text.get_char(i);
        proof {
            reveal(Seq::filter);
            assert(tv.take(i + 1) =~= tv.take(i as int).push(tv[i as int]));
        }
        if c == '\n' {
            proof {
                lemma_split_push_sep(tv.take(i as int), '\n');
                lemma_split_len(tv.take(i as int), '\n');
            }
            let tok = text.substring_char(tok_start, i);
            if !is_blank_str(tok) {
                let ghost before = cur_trace.deep_view();
                cur_trace.push(tok.to_owned());
                proof {
                    assert(cur_trace.deep_view() =~= before.push(tok@));
                }
            }
            proof {
                let line = tv.subrange(line_start as int, i as int);
                assert(cur_tokens.push(tok@).drop_last() =~= cur_tokens);
                assert(cur_trace.deep_view() =~= cur_tokens.push(tok@).filter(
                    |t: Seq<char>| !is_blank(t),
                ));
                assert(cur_trace.deep_view() =~= parse_line(line));
            }
            let trace_len = cur_trace.len();
            if trace_len > 0 {
                let ghost before = done.deep_view();
                done.push(cur_trace);
                proof {
                    assert(done.deep_view() =~= before.push(
                        parse_line(tv.subrange(line_start as int, i as int)),
                    ));
                }
            }
            cur_trace = Vec::new();
            proof {
                let line = tv.subrange(line_start as int, i as int);
                let newlines = done_lines.push(line);
                assert(newlines.map_values(|line: Seq<char>| parse_line(line)).drop_last()
                    =~= done_lines.map_values(|line: Seq<char>| parse_line(line)));
                assert(newlines.map_values(|line: Seq<char>| parse_line(line)).last()
                    == parse_line(line));
                assert(done.deep_view() =~= newlines.map_values(
                    |line: Seq<char>| parse_line(line),
                ).filter(|tr: Seq<Seq<char>>| tr.len() > 0));
                done_lines = newlines;
                cur_tokens = Seq::empty();
                assert(tv.subrange(i + 1, i + 1) =~= Seq::<char>::empty());
                assert(split_sep(tv.subrange(i + 1, i + 1), ',') =~= cur_tokens.push(
                    tv.subrange(i + 1, i + 1),
                ));
                assert(cur_trace.deep_view() =~= cur_tokens.filter(|t: Seq<char>| !is_blank(t)));
            }
            line_start = i + 1;
            tok_start = i + 1;
        } else if c == ',' {
            proof {
                lemma_split_push_other(tv.take(i as int), '\n', ',');
                lemma_split_len(tv.take(i as int), '\n');
                assert(done_lines.push(tv.subrange(line_start as int, i as int)).update(
                    done_lines.len() as int,
                    tv.subrange(line_start as int, i as int).push(','),
                ) =~= done_lines.push(tv.subrange(line_start as int, i as int).push(',')));
                assert(tv.subrange(line_start as int, i + 1) =~= tv.subrange(
                    line_start as int,
                    i as int,
                ).push(','));
                lemma_split_push_sep(tv.subrange(line_start as int, i as int), ',');
            }
            let tok = text.substring_char(tok_start, i);
            if !is_blank_str(tok) {
                let ghost before = cur_trace.deep_view();
                cur_trace.push(tok.to_owned());
                proof {
                    assert(cur_trace.deep_view() =~= before.push(tok@));
                }
            }
            proof {
                let newtokens = cur_tokens.push(tv.subrange(tok_start as int, i as int));
                assert(newtokens.drop_last() =~= cur_tokens);
                assert(cur_trace.deep_view() =~= newtokens.filter(|t: Seq<char>| !is_blank(t)));
                cur_tokens = newtokens;
                assert(tv.subrange(i + 1, i + 1) =~= Seq::<char>::empty());
                assert(split_sep(tv.subrange(line_start as int, i + 1), ',') =~= cur_tokens.push(
                    tv.subrange(i + 1, i + 1),
                ));
            }
            tok_start = i + 1;
        } else {
            proof {
                lemma_split_push_other(tv.take(i as int), '\n', c);
                lemma_split_len(tv.take(i as int), '\n');
                assert(done_lines.push(tv.subrange(line_start as int, i as int)).update(
                    done_lines.len() as int,
                    tv.subrange(line_start as int, i as int).push(c),
                ) =~= done_lines.push(tv.subrange(line_start as int, i as int).push(c)));
                assert(tv.subrange(line_start as int, i + 1) =~= tv.subrange(
                    line_start as int,
                    i as int,
                ).push(c));
                lemma_split_push_other(tv.subrange(line_start as int, i as int), ',', c);
                lemma_split_len(tv.subrange(line_start as int, i as int), ',');
                assert(cur_tokens.push(tv.subrange(tok_start as int, i as int)).update(
                    cur_tokens.len() as int,
                    tv.subrange(tok_start as int, i as int).push(c),
                ) =~= cur_tokens.push(tv.subrange(tok_start as int, i as int).push(c)));
                assert(tv.subrange(tok_start as int, i + 1) =~= tv.subrange(
                    tok_start as int,
                    i as int,
                ).push(c));
            }
        }
        i += 1;
    }
    proof {
        assert(tv.take(n as int) =~= tv);
    }
    let tok = text.substring_char(tok_start, n);
    if !is_blank_str(tok) {
        let ghost before = cur_trace.deep_view();
        cur_trace.push(tok.to_owned());
        proof {
            assert(cur_trace.deep_view() =~= before.push(tok@));
        }
    }
    proof {
        reveal(Seq::filter);
        let line = tv.subrange(line_start as int, n as int);
        assert(cur_tokens.push(tok@).drop_last() =~= cur_tokens);
        assert(cur_trace.deep_view() =~= cur_tokens.push(tok@).filter(
            |t: Seq<char>| !is_blank(t),
        ));
        assert(cur_trace.deep_view() =~= parse_line(line));
    }
    let trace_len = cur_trace.len();
    if trace_len > 0 {
        let ghost before = done.deep_view();
        done.push(cur_trace);
        proof {
            assert(done.deep_view() =~= before.push(
                parse_line(tv.subrange(line_start as int, n as int)),
            ));
        }
    }
    proof {
        reveal(Seq::filter);
        let line = tv.subrange(line_start as int, n as int);
        let alllines = done_lines.push(line);
        assert(alllines.map_values(|line: Seq<char>| parse_line(line)).drop_last()
            =~= done_lines.map_values(|line: Seq<char>| parse_line(line)));
        assert(alllines.map_values(|line: Seq<char>| parse_line(line)).last() == parse_line(line));
        assert(done.deep_view() =~= alllines.map_values(|line: Seq<char>| parse_line(line)).filter(
            |tr: Seq<Seq<char>>| tr.len() > 0,
        ));
    }
    done
}

} // verus!
