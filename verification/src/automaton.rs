//! The extended prefix automaton: a deterministic automaton built
//! incrementally over per-case event streams, whose states carry partition
//! labels that cluster them by shared prefix ancestry.

use vstd::prelude::*;

verus! {

use crate::seqs::{count_where, lemma_count_take_step, lemma_take_all};
use crate::strutil::str_eq;

/// One per-case event: the case it belongs to, a single-character activity
/// symbol, and an optional reference to the case whose last state precedes
/// it (absent only for a case's first event).
#[derive(Debug, Clone)]
pub struct Event {
    pub case: String,
    pub activity: char,
    pub predecessor: Option<String>,
}

/// The mathematical value of an event.
#[verifier::ext_equal]
pub struct EventModel {
    pub case: Seq<char>,
    pub activity: char,
    pub predecessor: Option<Seq<char>>,
}

impl View for Event {
    type V = EventModel;

    open spec fn view(&self) -> EventModel {
        EventModel {
            case: self.case@,
            activity: self.activity,
            predecessor: match self.predecessor {
                Some(c) => Some(c@),
                None => None,
            },
        }
    }
}

impl DeepView for Event {
    type V = EventModel;

    open spec fn deep_view(&self) -> EventModel {
        self.view()
    }
}

/// One automaton state: its partition label (absent only for the root) and
/// the events that terminated in it.
#[derive(Debug)]
pub struct State {
    pub partition: Option<usize>,
    pub sequences: Vec<Event>,
}

/// The mathematical value of a state.
#[verifier::ext_equal]
pub struct StateModel {
    pub partition: Option<nat>,
    pub sequences: Seq<EventModel>,
}

impl View for State {
    type V = StateModel;

    open spec fn view(&self) -> StateModel {
        StateModel {
            partition: match self.partition {
                Some(p) => Some(p as nat),
                None => None,
            },
            sequences: self.sequences.deep_view(),
        }
    }
}

/// The mathematical value of the automaton: states addressed by index
/// (the root is index 0), transitions as (source, symbol, target) triples,
/// and the alphabet in order of first appearance.
#[verifier::ext_equal]
pub struct AutomatonModel {
    pub states: Seq<StateModel>,
    pub transitions: Seq<(nat, char, nat)>,
    pub activities: Seq<char>,
}

/// The extended prefix automaton over an arena of integer-indexed states.
#[derive(Debug)]
pub struct ExtendedPrefixAutomaton {
    pub states: Vec<State>,
    pub transitions: Vec<(usize, char, usize)>,
    pub activities: Vec<char>,
    pub root: usize,
}

impl View for ExtendedPrefixAutomaton {
    type V = AutomatonModel;

    open spec fn view(&self) -> AutomatonModel {
        AutomatonModel {
            states: self.states@.map_values(|s: State| s@),
            transitions: self.transitions@.map_values(
                |t: (usize, char, usize)| (t.0 as nat, t.1, t.2 as nat),
            ),
            activities: self.activities@,
        }
    }
}

/// The build state: the automaton grown so far and, per case, the index of
/// the last state the case reached.
#[verifier::ext_equal]
pub struct BuildState {
    pub epa: AutomatonModel,
    pub last: Map<Seq<char>, nat>,
}

/// The automaton before any event: only the root state.
pub open spec fn initial_model() -> AutomatonModel {
    AutomatonModel {
        states: seq![StateModel { partition: None, sequences: Seq::empty() }],
        transitions: Seq::empty(),
        activities: Seq::empty(),
    }
}

pub open spec fn initial_build() -> BuildState {
    BuildState { epa: initial_model(), last: Map::empty() }
}

/// The state an event continues from: the last state of the referenced
/// case, the root when none is recorded or no reference is given.
pub open spec fn resolve_predecessor(last: Map<Seq<char>, nat>, e: EventModel) -> nat {
    match e.predecessor {
        Some(c) => if last.dom().contains(c) {
            last[c]
        } else {
            0
        },
        None => 0,
    }
}

/// The first transition from `src` labeled `sym`, if any.
pub open spec fn find_transition(ts: Seq<(nat, char, nat)>, src: nat, sym: char) -> Option<int>
    decreases ts.len(),
{
    if ts.len() == 0 {
        None
    } else {
        match find_transition(ts.drop_last(), src, sym) {
            Some(i) => Some(i),
            None => if ts.last().0 == src && ts.last().1 == sym {
                Some(ts.len() - 1)
            } else {
                None
            },
        }
    }
}

/// Whether any transition leaves `src`.
pub open spec fn has_outgoing(ts: Seq<(nat, char, nat)>, src: nat) -> bool {
    exists|i: int| 0 <= i < ts.len() && (#[trigger] ts[i]).0 == src
}

/// A state's partition number, zero for the root.
pub open spec fn partition_or_zero(s: StateModel) -> nat {
    match s.partition {
        Some(p) => p,
        None => 0,
    }
}

/// The largest partition number assigned to any state.
pub open spec fn max_partition(states: Seq<StateModel>) -> nat
    decreases states.len(),
{
    if states.len() == 0 {
        0
    } else {
        let rest = max_partition(states.drop_last());
        if partition_or_zero(states.last()) > rest {
            partition_or_zero(states.last())
        } else {
            rest
        }
    }
}

/// An event set: the event joins the state's set unless already present.
pub open spec fn insert_event(s: Seq<EventModel>, e: EventModel) -> Seq<EventModel> {
    if s.contains(e) {
        s
    } else {
        s.push(e)
    }
}

/// The model after recording an event in the target state's event set.
pub open spec fn record_event(m: AutomatonModel, tgt: int, e: EventModel) -> AutomatonModel {
    AutomatonModel {
        states: m.states.update(
            tgt,
            StateModel {
                partition: m.states[tgt].partition,
                sequences: insert_event(m.states[tgt].sequences, e),
            },
        ),
        transitions: m.transitions,
        activities: m.activities,
    }
}

/// The alphabet after registering a symbol.
pub open spec fn add_activity(acts: Seq<char>, c: char) -> Seq<char> {
    if acts.contains(c) {
        acts
    } else {
        acts.push(c)
    }
}

/// The partition assigned to a state created below `pred`: the first
/// partition below the root, a fresh one at a branching point, the
/// predecessor's own on a still-linear path.
pub open spec fn new_partition(m: AutomatonModel, pred: nat) -> nat {
    if pred == 0 {
        1
    } else if has_outgoing(m.transitions, pred) {
        max_partition(m.states) + 1
    } else {
        partition_or_zero(m.states[pred as int])
    }
}

/// One build step: resolve the predecessor state; reuse the matching
/// transition's target when one exists, else create a new state and
/// transition; record the event and move the case's pointer.
pub open spec fn step_model(b: BuildState, e: EventModel) -> BuildState {
    let pred = resolve_predecessor(b.last, e);
    match find_transition(b.epa.transitions, pred, e.activity) {
        Some(i) => {
            let tgt = b.epa.transitions[i].2;
            BuildState {
                epa: record_event(b.epa, tgt as int, e),
                last: b.last.insert(e.case, tgt),
            }
        },
        None => {
            let fresh = b.epa.states.len();
            let grown = AutomatonModel {
                states: b.epa.states.push(
                    StateModel { partition: Some(new_partition(b.epa, pred)), sequences: Seq::empty() },
                ),
                transitions: b.epa.transitions.push((pred, e.activity, fresh as nat)),
                activities: add_activity(b.epa.activities, e.activity),
            };
            BuildState {
                epa: record_event(grown, fresh as int, e),
                last: b.last.insert(e.case, fresh as nat),
            }
        },
    }
}

/// The build state after one case's events, in trace order.
pub open spec fn build_trace(b: BuildState, trace: Seq<EventModel>) -> BuildState
    decreases trace.len(),
{
    if trace.len() == 0 {
        b
    } else {
        step_model(build_trace(b, trace.drop_last()), trace.last())
    }
}

/// The build state after all cases' events, in encounter order.
pub open spec fn build_log(b: BuildState, log: Seq<Seq<EventModel>>) -> BuildState
    decreases log.len(),
{
    if log.len() == 0 {
        b
    } else {
        build_trace(build_log(b, log.drop_last()), log.last())
    }
}

/// The automaton built from a complete log of per-case event streams.
pub open spec fn build_model(log: Seq<Seq<EventModel>>) -> AutomatonModel {
    build_log(initial_build(), log).epa
}

/// The structural invariants of a built automaton: one root without a
/// partition, every other state with a positive one; every non-root state
/// the target of exactly the transition that created it, so the graph is a
/// forward-pointing tree reachable from the root; at most one transition
/// per (source, symbol) pair; a second partition only where some state
/// branches; an alphabet without duplicates.
pub open spec fn model_wf(m: AutomatonModel) -> bool {
    &&& m.states.len() >= 1
    &&& m.states[0].partition is None
    &&& forall|i: int|
        1 <= i < m.states.len() ==> 1 <= partition_or_zero(#[trigger] m.states[i])
            && m.states[i].partition is Some
    &&& max_partition(m.states) <= m.states.len() - 1
    &&& m.transitions.len() == m.states.len() - 1
    &&& forall|k: int|
        0 <= k < m.transitions.len() ==> (#[trigger] m.transitions[k]).2 == k + 1
            && m.transitions[k].0 < m.transitions[k].2
    &&& forall|k: int, l: int|
        #![trigger m.transitions[k], m.transitions[l]]
        0 <= k < l < m.transitions.len() ==> !(m.transitions[k].0 == m.transitions[l].0
            && m.transitions[k].1 == m.transitions[l].1)
    &&& (max_partition(m.states) >= 2 ==> exists|k: int, l: int|
        #![trigger m.transitions[k], m.transitions[l]]
        0 <= k < l < m.transitions.len() && m.transitions[k].0 == m.transitions[l].0)
    &&& m.activities.no_duplicates()
}

/// The invariants of a build in progress: a well-formed automaton and a
/// case pointer map whose values are valid state indices.
pub open spec fn build_wf(b: BuildState) -> bool {
    &&& model_wf(b.epa)
    &&& forall|c: Seq<char>|
        b.last.dom().contains(c) ==> #[trigger] b.last[c] < b.epa.states.len()
}

/// What `find_transition` returns: a matching index, or none exists.
proof fn lemma_find_transition_props(ts: Seq<(nat, char, nat)>, src: nat, sym: char)
    ensures
        match find_transition(ts, src, sym) {
            Some(i) => 0 <= i < ts.len() && ts[i].0 == src && ts[i].1 == sym,
            None => forall|k: int|
                0 <= k < ts.len() ==> !((#[trigger] ts[k]).0 == src && ts[k].1 == sym),
        },
    decreases ts.len(),
{
    if ts.len() > 0 {
        lemma_find_transition_props(ts.drop_last(), src, sym);
        if find_transition(ts, src, sym) is None {
            assert forall|k: int| 0 <= k < ts.len() implies !((#[trigger] ts[k]).0 == src && ts[k].1
                == sym) by {
                if k < ts.len() - 1 {
                    assert(ts.drop_last()[k] == ts[k]);
                }
            }
        }
    }
}

/// A match found in a prefix is the match for the whole sequence.
proof fn lemma_find_transition_from_prefix(ts: Seq<(nat, char, nat)>, src: nat, sym: char, j: int)
    requires
        0 <= j <= ts.len(),
        find_transition(ts.take(j), src, sym) is Some,
    ensures
        find_transition(ts, src, sym) == find_transition(ts.take(j), src, sym),
    decreases ts.len() - j,
{
    if j == ts.len() {
        lemma_take_all(ts);
    } else {
        assert(ts.take(j + 1).drop_last() =~= ts.take(j));
        lemma_find_transition_from_prefix(ts, src, sym, j + 1);
    }
}

/// No state's partition exceeds the maximum.
proof fn lemma_max_partition_bound(states: Seq<StateModel>, i: int)
    requires
        0 <= i < states.len(),
    ensures
        partition_or_zero(states[i]) <= max_partition(states),
    decreases states.len(),
{
    if i < states.len() - 1 {
        lemma_max_partition_bound(states.drop_last(), i);
    }
}

/// Appending a state extends the maximum to that state's partition.
proof fn lemma_max_partition_push(states: Seq<StateModel>, st: StateModel)
    ensures
        max_partition(states.push(st)) == if partition_or_zero(st) > max_partition(states) {
            partition_or_zero(st)
        } else {
            max_partition(states)
        },
{
    assert(states.push(st).drop_last() =~= states);
}

/// An update that keeps a state's partition keeps the maximum.
proof fn lemma_max_partition_update(states: Seq<StateModel>, i: int, st: StateModel)
    requires
        0 <= i < states.len(),
        st.partition == states[i].partition,
    ensures
        max_partition(states.update(i, st)) == max_partition(states),
    decreases states.len(),
{
    let updated = states.update(i, st);
    if i == states.len() - 1 {
        assert(updated.drop_last() =~= states.drop_last());
        assert(partition_or_zero(updated.last()) == partition_or_zero(states.last()));
    } else {
        assert(updated.drop_last() =~= states.drop_last().update(i, st));
        lemma_max_partition_update(states.drop_last(), i, st);
        assert(updated.last() == states.last());
    }
}

/// One build step preserves the build invariants.
#[verifier::rlimit(30)]
proof fn lemma_step_preserves_wf(b: BuildState, e: EventModel)
    requires
        build_wf(b),
    ensures
        build_wf(step_model(b, e)),
{
    let pred = resolve_predecessor(b.last, e);
    lemma_find_transition_props(b.epa.transitions, pred, e.activity);
    match find_transition(b.epa.transitions, pred, e.activity) {
        Some(i) => {
            let tgt = b.epa.transitions[i].2;
            let m2 = record_event(b.epa, tgt as int, e);
            assert(0 < tgt < b.epa.states.len());
            lemma_max_partition_update(
                b.epa.states,
                tgt as int,
                StateModel {
                    partition: b.epa.states[tgt as int].partition,
                    sequences: insert_event(b.epa.states[tgt as int].sequences, e),
                },
            );
            assert(m2.states.len() == b.epa.states.len());
            assert(m2.states[0] == b.epa.states[0]);
            assert forall|j: int| 1 <= j < m2.states.len() implies 1 <= partition_or_zero(
                #[trigger] m2.states[j],
            ) && m2.states[j].partition is Some by {
                assert(m2.states[j].partition == b.epa.states[j].partition);
            }
            assert(max_partition(m2.states) == max_partition(b.epa.states));
            assert(m2.transitions == b.epa.transitions);
            assert(m2.activities == b.epa.activities);
            assert(model_wf(m2));
        },
        None => {
            let fresh = b.epa.states.len();
            let part = new_partition(b.epa, pred);
            let st = StateModel { partition: Some(part), sequences: Seq::empty() };
            let grown = AutomatonModel {
                states: b.epa.states.push(st),
                transitions: b.epa.transitions.push((pred, e.activity, fresh as nat)),
                activities: add_activity(b.epa.activities, e.activity),
            };
            assert(pred < b.epa.states.len());
            if pred != 0 && !has_outgoing(b.epa.transitions, pred) {
                assert(1 <= partition_or_zero(b.epa.states[pred as int]));
                lemma_max_partition_bound(b.epa.states, pred as int);
            }
            lemma_max_partition_push(b.epa.states, st);
            // A fresh partition at a branching point makes two transitions
            // share the branching source.
            if max_partition(grown.states) >= 2 {
                if part > max_partition(b.epa.states) {
                    assert(pred != 0 && has_outgoing(b.epa.transitions, pred));
                    let w = choose|w: int|
                        0 <= w < b.epa.transitions.len() && (#[trigger] b.epa.transitions[w]).0
                            == pred;
                    assert(grown.transitions[w].0 == grown.transitions[
                        grown.transitions.len() - 1
                    ].0);
                } else {
                    assert(max_partition(b.epa.states) >= 2);
                    let (k, l) = choose|k: int, l: int|
                        #![trigger b.epa.transitions[k], b.epa.transitions[l]]
                        0 <= k < l < b.epa.transitions.len() && b.epa.transitions[k].0
                            == b.epa.transitions[l].0;
                    assert(grown.transitions[k].0 == grown.transitions[l].0);
                }
            }
            if add_activity(b.epa.activities, e.activity).len() > b.epa.activities.len() {
                assert(grown.activities.drop_last() =~= b.epa.activities);
            }
            assert(model_wf(grown));
            let m2 = record_event(grown, fresh as int, e);
            lemma_max_partition_update(
                grown.states,
                fresh as int,
                StateModel {
                    partition: grown.states[fresh as int].partition,
                    sequences: insert_event(grown.states[fresh as int].sequences, e),
                },
            );
            assert(m2.states.len() == grown.states.len());
            assert(m2.states[0] == grown.states[0]);
            assert forall|i: int| 1 <= i < m2.states.len() implies 1 <= partition_or_zero(
                #[trigger] m2.states[i],
            ) && m2.states[i].partition is Some by {
                assert(m2.states[i].partition == grown.states[i].partition);
            }
            assert(max_partition(m2.states) == max_partition(grown.states));
            assert(m2.transitions == grown.transitions);
            assert(m2.activities == grown.activities);
            assert(model_wf(m2));
        },
    }
}

/// Every automaton that a log builds satisfies the structural invariants.
pub proof fn lemma_build_log_wf(b: BuildState, log: Seq<Seq<EventModel>>)
    requires
        build_wf(b),
    ensures
        build_wf(build_log(b, log)),
    decreases log.len(),
{
    if log.len() > 0 {
        lemma_build_log_wf(b, log.drop_last());
        lemma_build_trace_wf(build_log(b, log.drop_last()), log.last());
    }
}

proof fn lemma_build_trace_wf(b: BuildState, trace: Seq<EventModel>)
    requires
        build_wf(b),
    ensures
        build_wf(build_trace(b, trace)),
    decreases trace.len(),
{
    if trace.len() > 0 {
        lemma_build_trace_wf(b, trace.drop_last());
        lemma_step_preserves_wf(build_trace(b, trace.drop_last()), trace.last());
    }
}

/// The build state before any event satisfies the invariants.
pub proof fn lemma_initial_build_wf()
    ensures
        build_wf(initial_build()),
{
    let m = initial_model();
    reveal_with_fuel(max_partition, 2);
    assert(m.states.drop_last() =~= Seq::<StateModel>::empty());
    assert(max_partition(m.states) == 0);
    assert(model_wf(m));
}

/// The structural invariants of a fully built automaton.
pub proof fn lemma_build_model_wf(log: Seq<Seq<EventModel>>)
    ensures
        model_wf(build_model(log)),
{
    lemma_initial_build_wf();
    lemma_build_log_wf(initial_build(), log);
}

/// Building is deterministic: the automaton is a function of the log
/// alone, so two builds from the same case and event order agree on every
/// state, partition, transition and alphabet entry.
pub proof fn lemma_build_deterministic(
    log: Seq<Seq<EventModel>>,
    m1: AutomatonModel,
    m2: AutomatonModel,
)
    requires
        m1 == build_model(log),
        m2 == build_model(log),
    ensures
        m1 == m2,
{
}

/// The case pointer store as a map: later entries shadow earlier ones,
/// though the store always keeps its keys distinct.
pub open spec fn last_map_of(s: Seq<(String, usize)>) -> Map<Seq<char>, nat>
    decreases s.len(),
{
    if s.len() == 0 {
        Map::empty()
    } else {
        last_map_of(s.drop_last()).insert(s.last().0@, s.last().1 as nat)
    }
}

/// The case pointer store holds each case at most once.
pub open spec fn last_keys_distinct(s: Seq<(String, usize)>) -> bool {
    forall|k: int, l: int| #![trigger s[k], s[l]] 0 <= k < l < s.len() ==> s[k].0@ != s[l].0@
}

/// What the case pointer map holds: exactly the stored entries.
proof fn lemma_last_map_props(s: Seq<(String, usize)>)
    requires
        last_keys_distinct(s),
    ensures
        forall|c: Seq<char>|
            #[trigger] last_map_of(s).dom().contains(c) ==> exists|i: int|
                0 <= i < s.len() && (#[trigger] s[i]).0@ == c,
        forall|i: int|
            0 <= i < s.len() ==> last_map_of(s).dom().contains((#[trigger] s[i]).0@)
                && last_map_of(s)[s[i].0@] == s[i].1 as nat,
    decreases s.len(),
{
    if s.len() > 0 {
        let rest = s.drop_last();
        lemma_last_map_props(rest);
        assert forall|c: Seq<char>| #[trigger] last_map_of(s).dom().contains(c) implies exists|
            i: int,
        | 0 <= i < s.len() && (#[trigger] s[i]).0@ == c by {
            if c == s.last().0@ {
                assert(s[s.len() - 1].0@ == c);
            } else {
                assert(last_map_of(rest).dom().contains(c));
                let i = choose|i: int| 0 <= i < rest.len() && (#[trigger] rest[i]).0@ == c;
                assert(rest[i] == s[i]);
                assert(s[i].0@ == c);
            }
        }
        assert forall|i: int| 0 <= i < s.len() implies last_map_of(s).dom().contains(
            (#[trigger] s[i]).0@,
        ) && last_map_of(s)[s[i].0@] == s[i].1 as nat by {
            if i < s.len() - 1 {
                assert(rest[i] == s[i]);
                assert(s[i].0@ != s.last().0@);
            }
        }
    }
}

/// Replacing the value stored for a case updates the map at that case.
proof fn lemma_last_map_update(s: Seq<(String, usize)>, j: int, p: (String, usize))
    requires
        last_keys_distinct(s),
        0 <= j < s.len(),
        p.0@ == s[j].0@,
    ensures
        last_map_of(s.update(j, p)) =~= last_map_of(s).insert(p.0@, p.1 as nat),
    decreases s.len(),
{
    let updated = s.update(j, p);
    if j == s.len() - 1 {
        assert(updated.drop_last() =~= s.drop_last());
        assert(last_map_of(s.drop_last()).insert(s.last().0@, s.last().1 as nat).insert(
            p.0@,
            p.1 as nat,
        ) =~= last_map_of(s.drop_last()).insert(p.0@, p.1 as nat));
    } else {
        assert(updated.drop_last() =~= s.drop_last().update(j, p));
        assert(s.drop_last()[j] == s[j]);
        lemma_last_map_update(s.drop_last(), j, p);
        assert(s.last().0@ != p.0@);
        assert(last_map_of(s.drop_last()).insert(p.0@, p.1 as nat).insert(
            s.last().0@,
            s.last().1 as nat,
        ) =~= last_map_of(s.drop_last()).insert(s.last().0@, s.last().1 as nat).insert(
            p.0@,
            p.1 as nat,
        ));
    }
}

/// Looks a case up in the pointer store.
#[verifier::loop_isolation(false)]
fn last_lookup(last_at: &Vec<(String, usize)>, c: &str) -> (r: Option<usize>)
    requires
        last_keys_distinct(last_at@),
    ensures
        match r {
            Some(v) => last_map_of(last_at@).dom().contains(c@) && last_map_of(last_at@)[c@]
                == v as nat,
            None => !last_map_of(last_at@).dom().contains(c@),
        },
{
    proof {
        lemma_last_map_props(last_at@);
    }
    let mut i: usize = 0;
    while i < last_at.len()
        invariant
            0 <= i <= last_at@.len(),
            forall|j: int| 0 <= j < i ==> (#[trigger] last_at@[j]).0@ != c@,
        decreases last_at@.len() - i,
    {
        if str_eq(last_at[i].0.as_str(), c) {
            proof {
                assert(last_at@[i as int].0@ == c@);
            }
            return Some(last_at[i].1);
        }
        i += 1;
    }
    proof {
        if last_map_of(last_at@).dom().contains(c@) {
            let i = choose|i: int| 0 <= i < last_at@.len() && (#[trigger] last_at@[i]).0@ == c@;
        }
    }
    None
}

/// Points a case at a state, replacing its earlier pointer if any.
#[verifier::loop_isolation(false)]
fn last_update(last_at: &mut Vec<(String, usize)>, c: &str, v: usize)
    requires
        last_keys_distinct(old(last_at)@),
    ensures
        last_keys_distinct(final(last_at)@),
        last_map_of(final(last_at)@) == last_map_of(old(last_at)@).insert(c@, v as nat),
{
    proof {
        lemma_last_map_props(old(last_at)@);
    }
    let mut i: usize = 0;
    while i < last_at.len()
        invariant
            0 <= i <= last_at@.len(),
            last_at@ == old(last_at)@,
            last_keys_distinct(last_at@),
            forall|j: int| 0 <= j < i ==> (#[trigger] last_at@[j]).0@ != c@,
        decreases last_at@.len() - i,
    {
        if str_eq(last_at[i].0.as_str(), c) {
            let entry = (c.to_owned(), v);
            proof {
                lemma_last_map_update(last_at@, i as int, entry);
            }
            last_at.set(i, entry);
            return ;
        }
        i += 1;
    }
    let entry = (c.to_owned(), v);
    last_at.push(entry);
    proof {
        assert(last_at@.drop_last() =~= old(last_at)@);
        assert(last_map_of(last_at@) =~= last_map_of(old(last_at)@).insert(c@, v as nat));
    }
}

/// Whether two events are equal in case, symbol and predecessor reference.
fn event_eq(a: &Event, b: &Event) -> (r: bool)
    ensures
        r == (a@ == b@),
{
    let cases_eq = str_eq(a.case.as_str(), b.case.as_str());
    let preds_eq = match (&a.predecessor, &b.predecessor) {
        (Some(x), Some(y)) => str_eq(x.as_str(), y.as_str()),
        (None, None) => true,
        _ => false,
    };
    cases_eq && a.activity == b.activity && preds_eq
}

/// A copy of an event.
fn clone_event(e: &Event) -> (r: Event)
    ensures
        r@ == e@,
{
    Event {
        case: e.case.clone(),
        activity: e.activity,
        predecessor: match &e.predecessor {
            Some(c) => Some(c.clone()),
            None => None,
        },
    }
}

/// Whether the state's event set already holds the event.
fn events_contain(v: &Vec<Event>, e: &Event) -> (r: bool)
    ensures
        r == v.deep_view().contains(e@),
{
    let ghost dv = v.deep_view();
    let mut i: usize = 0;
    while i < v.len()
        invariant
            0 <= i <= v.len(),
            dv == v.deep_view(),
            dv.len() == v.len(),
            forall|j: int| 0 <= j < v.len() ==> dv[j] == v[j]@,
            forall|j: int| 0 <= j < i ==> dv[j] != e@,
        decreases v.len() - i,
    {
        if event_eq(&v[i], e) {
            proof {
                assert(dv[i as int] == e@);
            }
            return true;
        }
        i += 1;
    }
    false
}

/// A copy of a state's event set.
fn clone_events(v: &Vec<Event>) -> (r: Vec<Event>)
    ensures
        r.deep_view() == v.deep_view(),
{
    let mut r: Vec<Event> = Vec::new();
    let mut i: usize = 0;
    while i < v.len()
        invariant
            0 <= i <= v.len(),
            r.deep_view() == v.deep_view().take(i as int),
            r@.len() == i,
        decreases v.len() - i,
    {
        let ghost before = r.deep_view();
        r.push(clone_event(&v[i]));
        proof {
            assert(r.deep_view() =~= before.push(v@[i as int]@));
            assert(v.deep_view().take(i + 1) =~= v.deep_view().take(i as int).push(
                v.deep_view()[i as int],
            ));
        }
        i += 1;
    }
    proof {
        assert(v.deep_view().take(v.deep_view().len() as int) =~= v.deep_view());
    }
    r
}

/// Records an event in the event set of the state at `idx`.
fn record_event_exec(states: &mut Vec<State>, idx: usize, e: &Event)
    requires
        idx < old(states).len(),
    ensures
        ({
            let old_m = old(states)@.map_values(|s: State| s@);
            final(states)@.map_values(|s: State| s@) == old_m.update(
                idx as int,
                StateModel {
                    partition: old_m[idx as int].partition,
                    sequences: insert_event(old_m[idx as int].sequences, e@),
                },
            )
        }),
{
    let ghost old_m = states@.map_values(|s: State| s@);
    let partition = states[idx].partition;
    let mut sequences = clone_events(&states[idx].sequences);
    if !events_contain(&sequences, e) {
        sequences.push(clone_event(e));
        proof {
            assert(sequences.deep_view() =~= old_m[idx as int].sequences.push(e@));
        }
    }
    let st = State { partition, sequences };
    proof {
        assert(st@ == StateModel {
            partition: old_m[idx as int].partition,
            sequences: insert_event(old_m[idx as int].sequences, e@),
        });
    }
    states.set(idx, st);
    proof {
        assert(states@.map_values(|s: State| s@) =~= old_m.update(
            idx as int,
            StateModel {
                partition: old_m[idx as int].partition,
                sequences: insert_event(old_m[idx as int].sequences, e@),
            },
        ));
    }
}

/// The largest partition number assigned so far.
fn max_partition_exec(states: &Vec<State>) -> (r: usize)
    ensures
        r as nat == max_partition(states@.map_values(|s: State| s@)),
{
    let ghost sv = states@.map_values(|s: State| s@);
    let mut r: usize = 0;
    let mut i: usize = 0;
    while i < states.len()
        invariant
            0 <= i <= states.len(),
            sv == states@.map_values(|s: State| s@),
            sv.len() == states.len(),
            r as nat == max_partition(sv.take(i as int)),
        decreases states.len() - i,
    {
        proof {
            assert(sv.take(i + 1).drop_last() =~= sv.take(i as int));
            assert(sv.take(i + 1).last() == sv[i as int]);
        }
        match states[i].partition {
            Some(p) => {
                if p > r {
                    r = p;
                }
            },
            None => {},
        }
        proof {
            assert(partition_or_zero(sv[i as int]) == match states@[i as int].partition {
                Some(p) => p as nat,
                None => 0nat,
            });
        }
        i += 1;
    }
    proof {
        lemma_take_all(sv);
    }
    r
}

/// Applies one event to the automaton under construction; see `step_model`
/// for the rule.
#[verifier::loop_isolation(false)]
#[verifier::rlimit(60)]
fn apply_event(epa: &mut ExtendedPrefixAutomaton, last_at: &mut Vec<(String, usize)>, e: &Event)
    requires
        last_keys_distinct(old(last_at)@),
        build_wf((BuildState { epa: old(epa)@, last: last_map_of(old(last_at)@) })),
        old(epa).root == 0,
    ensures
        last_keys_distinct(final(last_at)@),
        (BuildState { epa: final(epa)@, last: last_map_of(final(last_at)@) }) == step_model(
            (BuildState { epa: old(epa)@, last: last_map_of(old(last_at)@) }),
            e@,
        ),
        build_wf((BuildState { epa: final(epa)@, last: last_map_of(final(last_at)@) })),
        final(epa).root == 0,
{
    let ghost b = BuildState { epa: old(epa)@, last: last_map_of(old(last_at)@) };
    proof {
        lemma_step_preserves_wf(b, e@);
    }
    let sym = e.activity;
    let pred: usize = match &e.predecessor {
        Some(cref) => match last_lookup(last_at, cref.as_str()) {
            Some(v) => v,
            None => 0,
        },
        None => 0,
    };
    proof {
        assert(pred as nat == resolve_predecessor(b.last, e@));
        assert(pred < epa.states.len());
    }

    let ghost tv = epa@.transitions;
    let mut found: Option<usize> = None;
    let mut k: usize = 0;
    while k < epa.transitions.len() && found.is_none()
        invariant
            0 <= k <= epa.transitions.len(),
            match found {
                Some(f) => find_transition(tv, pred as nat, sym) == Some(f as int) && f
                    < epa.transitions.len(),
                None => find_transition(tv.take(k as int), pred as nat, sym) is None,
            },
        decreases epa.transitions.len() - k + (if found is Some {
            0int
        } else {
            1int
        }),
    {
        let t = epa.transitions[k];
        proof {
            assert(tv.take(k + 1).drop_last() =~= tv.take(k as int));
            assert(tv.take(k + 1).last() == tv[k as int]);
            assert(tv[k as int] == (t.0 as nat, t.1, t.2 as nat));
        }
        if t.0 == pred && t.1 == sym {
            proof {
                lemma_find_transition_from_prefix(tv, pred as nat, sym, k as int + 1);
            }
            found = Some(k);
        } else {
            k += 1;
        }
    }
    proof {
        if found is None {
            lemma_take_all(tv);
        }
        lemma_find_transition_props(tv, pred as nat, sym);
    }

    match found {
        Some(fidx) => {
            let tgt = epa.transitions[fidx].2;
            proof {
                assert(tgt as nat == b.epa.transitions[fidx as int].2);
                assert(tgt < epa.states.len());
            }
            record_event_exec(&mut epa.states, tgt, e);
            last_update(last_at, e.case.as_str(), tgt);
            proof {
                assert(BuildState { epa: epa@, last: last_map_of(last_at@) } =~~= step_model(
                    b,
                    e@,
                ));
            }
        },
        None => {
            let fresh = epa.states.len();
            let part: usize = if pred == 0 {
                1
            } else {
                let mut outgoing: bool = false;
                let mut q: usize = 0;
                while q < epa.transitions.len() && !outgoing
                    invariant
                        0 <= q <= epa.transitions.len(),
                        !outgoing ==> forall|l: int|
                            0 <= l < q ==> (#[trigger] tv[l]).0 != pred as nat,
                        outgoing ==> has_outgoing(tv, pred as nat),
                    decreases epa.transitions.len() - q + (if outgoing {
                        0int
                    } else {
                        1int
                    }),
                {
                    if epa.transitions[q].0 == pred {
                        proof {
                            assert(tv[q as int].0 == pred as nat);
                        }
                        outgoing = true;
                    } else {
                        q += 1;
                    }
                }
                if outgoing {
                    let m = max_partition_exec(&epa.states);
                    proof {
                        assert(m as nat <= b.epa.states.len() - 1);
                    }
                    m + 1
                } else {
                    proof {
                        assert(!has_outgoing(tv, pred as nat));
                    }
                    match epa.states[pred].partition {
                        Some(p) => p,
                        None => 0,
                    }
                }
            };
            proof {
                assert(part as nat == new_partition(b.epa, pred as nat));
            }
            let ghost states_before = epa@.states;
            let empty_events: Vec<Event> = Vec::new();
            proof {
                assert(empty_events.deep_view() =~= Seq::<EventModel>::empty());
            }
            epa.states.push(State { partition: Some(part), sequences: empty_events });
            proof {
                assert(epa@.states =~= states_before.push(
                    StateModel { partition: Some(part as nat), sequences: Seq::empty() },
                ));
            }
            let ghost trans_before = epa@.transitions;
            epa.transitions.push((pred, sym, fresh));
            proof {
                assert(epa@.transitions =~= trans_before.push(
                    (pred as nat, sym, fresh as nat),
                ));
            }
            let ghost acts_before = epa@.activities;
            let mut present: bool = false;
            let mut q: usize = 0;
            while q < epa.activities.len() && !present
                invariant
                    0 <= q <= epa.activities.len(),
                    acts_before == epa@.activities,
                    !present ==> forall|l: int| 0 <= l < q ==> epa.activities@[l] != sym,
                    present ==> acts_before.contains(sym),
                decreases epa.activities.len() - q + (if present {
                    0int
                } else {
                    1int
                }),
            {
                if epa.activities[q] == sym {
                    proof {
                        assert(acts_before[q as int] == sym);
                    }
                    present = true;
                } else {
                    q += 1;
                }
            }
            if !present {
                proof {
                    assert(!acts_before.contains(sym));
                }
                epa.activities.push(sym);
            }
            proof {
                assert(epa@.activities == add_activity(acts_before, sym));
            }
            record_event_exec(&mut epa.states, fresh, e);
            last_update(last_at, e.case.as_str(), fresh);
            proof {
                assert(BuildState { epa: epa@, last: last_map_of(last_at@) } =~~= step_model(
                    b,
                    e@,
                ));
            }
        },
    }
}

impl ExtendedPrefixAutomaton {
    /// The automaton holding only the root state.
    pub fn new() -> (r: ExtendedPrefixAutomaton)
        ensures
            r@ == initial_model(),
            r.root == 0,
    {
        let mut states: Vec<State> = Vec::new();
        let empty_events: Vec<Event> = Vec::new();
        proof {
            assert(empty_events.deep_view() =~= Seq::<EventModel>::empty());
        }
        states.push(State { partition: None, sequences: empty_events });
        let r = ExtendedPrefixAutomaton {
            states,
            transitions: Vec::new(),
            activities: Vec::new(),
            root: 0,
        };
        proof {
            assert(r@ =~~= initial_model());
        }
        r
    }

    /// Builds the automaton from per-case event streams, processing cases
    /// and events strictly in input order.
    pub fn build(plain_log: Vec<Vec<Event>>) -> (r: ExtendedPrefixAutomaton)
        ensures
            r@ == build_model(plain_log.deep_view()),
            model_wf(r@),
            r.root == 0,
    {
        let ghost dv = plain_log.deep_view();
        let mut epa = ExtendedPrefixAutomaton::new();
        let mut last_at: Vec<(String, usize)> = Vec::new();
        proof {
            lemma_initial_build_wf();
            assert(last_map_of(last_at@) =~= Map::<Seq<char>, nat>::empty());
            assert(BuildState { epa: epa@, last: last_map_of(last_at@) } =~~= initial_build());
        }
        let mut i: usize = 0;
        while i < plain_log.len()
            invariant
                0 <= i <= plain_log.len(),
                dv == plain_log.deep_view(),
                dv.len() == plain_log.len(),
                forall|ii: int|
                    0 <= ii < plain_log.len() ==> #[trigger] dv[ii] == plain_log[ii].deep_view(),
                last_keys_distinct(last_at@),
                (BuildState { epa: epa@, last: last_map_of(last_at@) }) == build_log(
                    initial_build(),
                    dv.take(i as int),
                ),
                build_wf((BuildState { epa: epa@, last: last_map_of(last_at@) })),
                epa.root == 0,
            decreases plain_log.len() - i,
        {
            let ghost bs0 = build_log(initial_build(), dv.take(i as int));
            let ghost tdv = dv[i as int];
            let mut j: usize = 0;
            while j < plain_log[i].len()
                invariant
                    0 <= i < plain_log.len(),
                    0 <= j <= plain_log[i as int].len(),
                    dv == plain_log.deep_view(),
                    dv.len() == plain_log.len(),
                    forall|ii: int|
                        0 <= ii < plain_log.len() ==> #[trigger] dv[ii] == plain_log[
                            ii
                        ].deep_view(),
                    tdv == dv[i as int],
                    tdv.len() == plain_log[i as int].len(),
                    forall|jj: int|
                        0 <= jj < tdv.len() ==> tdv[jj] == (#[trigger] plain_log[i as int]@[jj])@,
                    last_keys_distinct(last_at@),
                    (BuildState { epa: epa@, last: last_map_of(last_at@) }) == build_trace(
                        bs0,
                        tdv.take(j as int),
                    ),
                    build_wf((BuildState { epa: epa@, last: last_map_of(last_at@) })),
                    epa.root == 0,
                decreases plain_log[i as int].len() - j,
            {
                proof {
                    assert(tdv.take(j + 1).drop_last() =~= tdv.take(j as int));
                    assert(tdv.take(j + 1).last() == tdv[j as int]);
                }
                apply_event(&mut epa, &mut last_at, &plain_log[i][j]);
                j += 1;
            }
            proof {
                lemma_take_all(tdv);
                assert(dv.take(i + 1).drop_last() =~= dv.take(i as int));
                assert(dv.take(i + 1).last() == dv[i as int]);
            }
            i += 1;
        }
        proof {
            lemma_take_all(dv);
        }
        epa
    }

    /// The sizes of the non-empty partitions, in order of partition
    /// number. The entropy scores are derived from this distribution.
    pub fn partition_sizes(&self) -> (r: Vec<usize>)
        ensures
            r@.map_values(|c: usize| c as nat) == partition_sizes_of(self@.states),
    {
        let ghost sv = self@.states;
        let ghost full = Seq::new(
            max_partition(sv),
            |q: int| partition_size(sv, (q + 1) as nat),
        );
        let maxp = max_partition_exec(&self.states);
        let mut r: Vec<usize> = Vec::new();
        let mut q: usize = 0;
        while q < maxp
            invariant
                0 <= q <= maxp,
                maxp as nat == max_partition(sv),
                sv == self@.states,
                full == Seq::new(
                    max_partition(sv),
                    |q: int| partition_size(sv, (q + 1) as nat),
                ),
                r@.map_values(|c: usize| c as nat) == full.take(q as int).filter(
                    |c: nat| c > 0,
                ),
            decreases maxp - q,
        {
            let p = q + 1;
            let count = self.count_in_partition(p);
            proof {
                reveal(Seq::filter);
                assert(full.take(q + 1).drop_last() =~= full.take(q as int));
                assert(full.take(q + 1).last() == partition_size(sv, p as nat));
            }
            if count > 0 {
                let ghost before = r@.map_values(|c: usize| c as nat);
                r.push(count);
                proof {
                    assert(r@.map_values(|c: usize| c as nat) =~= before.push(count as nat));
                }
            }
            q += 1;
        }
        proof {
            assert(full.take(maxp as int) =~= full);
        }
        r
    }

    /// The number of states carrying the given partition number.
    fn count_in_partition(&self, p: usize) -> (r: usize)
        ensures
            r as nat == partition_size(self@.states, p as nat),
    {
        let ghost sv = self@.states;
        let mut r: usize = 0;
        let mut i: usize = 0;
        while i < self.states.len()
            invariant
                0 <= i <= self.states.len(),
                sv == self@.states,
                sv.len() == self.states.len(),
                r <= i,
                r as nat == count_where(
                    sv.take(i as int),
                    |s: StateModel| state_in_partition(s, p as nat),
                ),
            decreases self.states.len() - i,
        {
            proof {
                lemma_count_take_step(
                    sv,
                    |s: StateModel| state_in_partition(s, p as nat),
                    i as int,
                );
                assert(sv[i as int] == self.states@[i as int]@);
            }
            let matches_p = match self.states[i].partition {
                Some(q) => q == p,
                None => false,
            };
            if matches_p {
                r += 1;
            }
            i += 1;
        }
        proof {
            lemma_take_all(sv);
        }
        r
    }
}

impl Default for ExtendedPrefixAutomaton {
    /// The automaton holding only the root state.
    fn default() -> (r: ExtendedPrefixAutomaton)
        ensures
            r@ == initial_model(),
            r.root == 0,
    {
        ExtendedPrefixAutomaton::new()
    }
}

/// Whether a state carries the given partition number.
pub open spec fn state_in_partition(s: StateModel, p: nat) -> bool {
    s.partition == Some(p)
}

/// The number of states carrying the given partition number.
pub open spec fn partition_size(states: Seq<StateModel>, p: nat) -> nat {
    count_where(states, |s: StateModel| state_in_partition(s, p))
}

/// The distribution the entropy scores are computed from: the size of each
/// non-empty partition, in order of partition number.
pub open spec fn partition_sizes_of(states: Seq<StateModel>) -> Seq<nat> {
    Seq::new(max_partition(states), |q: int| partition_size(states, (q + 1) as nat)).filter(
        |c: nat| c > 0,
    )
}

/// An automaton without a branching state keeps every non-root state in
/// the first partition: its partition distribution is one linear chain.
pub proof fn lemma_linear_chain_single_partition(m: AutomatonModel)
    requires
        model_wf(m),
        forall|k: int, l: int|
            #![trigger m.transitions[k], m.transitions[l]]
            0 <= k < l < m.transitions.len() ==> m.transitions[k].0 != m.transitions[l].0,
    ensures
        forall|i: int| 1 <= i < m.states.len() ==> m.states[i].partition == Some(1nat),
{
    assert(max_partition(m.states) <= 1);
    assert forall|i: int| 1 <= i < m.states.len() implies m.states[i].partition == Some(1nat) by {
        lemma_max_partition_bound(m.states, i);
    }
}

/// All but the first element qualify: the count is one short of the
/// length.
proof fn lemma_count_all_but_first<T>(s: Seq<T>, p: spec_fn(T) -> bool)
    requires
        s.len() >= 1,
        !p(s[0]),
        forall|i: int| 1 <= i < s.len() ==> p(#[trigger] s[i]),
    ensures
        count_where(s, p) == s.len() - 1,
    decreases s.len(),
{
    if s.len() > 1 {
        assert(s.drop_last()[0] == s[0]);
        assert forall|i: int| 1 <= i < s.len() - 1 implies p(#[trigger] s.drop_last()[i]) by {
            assert(s.drop_last()[i] == s[i]);
        }
        lemma_count_all_but_first(s.drop_last(), p);
        assert(p(s.last()));
    } else {
        crate::seqs::lemma_count_zero(s.drop_last(), p);
        assert(!p(s.last()));
    }
}

/// An automaton without a branching state has a partition distribution of
/// exactly one block holding all its non-root states: the shape whose
/// variant entropy is zero.
pub proof fn lemma_linear_chain_partition_sizes(m: AutomatonModel)
    requires
        model_wf(m),
        m.states.len() >= 2,
        forall|k: int, l: int|
            #![trigger m.transitions[k], m.transitions[l]]
            0 <= k < l < m.transitions.len() ==> m.transitions[k].0 != m.transitions[l].0,
    ensures
        partition_sizes_of(m.states) =~= seq![(m.states.len() - 1) as nat],
{
    lemma_linear_chain_single_partition(m);
    lemma_max_partition_bound(m.states, 1);
    assert(max_partition(m.states) == 1);
    lemma_count_all_but_first(m.states, |s: StateModel| state_in_partition(s, 1nat));
    assert(partition_size(m.states, 1nat) == m.states.len() - 1);
    let full = Seq::new(1, |q: int| partition_size(m.states, (q + 1) as nat));
    assert(full.drop_last() =~= Seq::<nat>::empty());
    assert(full.last() == partition_size(m.states, 1nat));
    reveal(Seq::filter);
    assert(full.filter(|c: nat| c > 0) =~= seq![(m.states.len() - 1) as nat]);
}

} // verus!
