use egypt::{Event, ExtendedPrefixAutomaton, State};

fn event(case: &str, activity: char, predecessor: Option<&str>) -> Event {
    Event {
        case: case.to_string(),
        activity,
        predecessor: predecessor.map(String::from),
    }
}

/// The variant entropy over a partition-size distribution:
/// `S·log10(S) − Σ_p n_p·log10(n_p)` with the root excluded from `S`.
fn variant_entropy(state_count: usize, sizes: &[usize]) -> f64 {
    let s = state_count as f64;
    let s = if s > 1.0 { s - 1.0 } else { s };
    let sum_term: f64 = sizes
        .iter()
        .map(|&size| {
            let size = size as f64;
            size * size.log(10.0)
        })
        .sum();
    s * s.log(10.0) - sum_term
}

fn normalized_variant_entropy(state_count: usize, sizes: &[usize]) -> f64 {
    let s = state_count as f64;
    let s = if s > 1.0 { s - 1.0 } else { s };
    variant_entropy(state_count, sizes) / (s * s.log(10.0))
}

#[test]
fn build_branching_automaton() {
    let log = vec![
        vec![event("1", 'a', None), event("1", 'b', Some("1"))],
        vec![event("2", 'a', None), event("2", 'c', Some("2"))],
    ];
    let epa = ExtendedPrefixAutomaton::build(log);

    // Root plus three states: the shared `a` prefix is merged.
    assert_eq!(epa.states.len(), 4);
    assert_eq!(epa.root, 0);
    assert_eq!(epa.transitions, vec![(0, 'a', 1), (1, 'b', 2), (1, 'c', 3)]);
    assert_eq!(epa.activities, vec!['a', 'b', 'c']);

    // The `a` and `b` states stay linear in partition 1; the branch at the
    // `a` state opens partition 2.
    let partitions: Vec<Option<usize>> = epa.states.iter().map(|s| s.partition).collect();
    assert_eq!(partitions, vec![None, Some(1), Some(1), Some(2)]);
    assert_eq!(epa.partition_sizes(), vec![2, 1]);

    let entropy = variant_entropy(epa.states.len(), &epa.partition_sizes());
    let expected = 3.0 * 3.0f64.log(10.0) - 2.0 * 2.0f64.log(10.0);
    assert!((entropy - expected).abs() < 1e-9);
}

#[test]
fn build_is_deterministic() {
    let log = || {
        vec![
            vec![event("1", 'a', None), event("1", 'b', Some("1"))],
            vec![event("2", 'a', None), event("2", 'c', Some("2"))],
            vec![event("3", 'a', None), event("3", 'b', Some("3"))],
        ]
    };
    let first = ExtendedPrefixAutomaton::build(log());
    let second = ExtendedPrefixAutomaton::build(log());

    assert_eq!(first.transitions, second.transitions);
    assert_eq!(first.activities, second.activities);
    assert_eq!(first.root, second.root);
    assert_eq!(first.states.len(), second.states.len());
    let partitions = |epa: &ExtendedPrefixAutomaton| -> Vec<Option<usize>> {
        epa.states.iter().map(|s| s.partition).collect()
    };
    assert_eq!(partitions(&first), partitions(&second));
}

#[test]
fn linear_chain_has_zero_entropy() {
    let log = vec![vec![
        event("1", 'a', None),
        event("1", 'b', Some("1")),
        event("1", 'c', Some("1")),
    ]];
    let epa = ExtendedPrefixAutomaton::build(log);

    // One linear chain: every non-root state in partition 1.
    assert_eq!(epa.states.len(), 4);
    assert_eq!(epa.partition_sizes(), vec![3]);
    let entropy = variant_entropy(epa.states.len(), &epa.partition_sizes());
    assert!(entropy.abs() < 1e-12);
    let normalized = normalized_variant_entropy(epa.states.len(), &epa.partition_sizes());
    assert!(normalized.abs() < 1e-12);
}

#[test]
fn singleton_partitions_have_maximal_entropy() {
    // A state arena whose non-root states sit in singleton partitions: the
    // entropy reaches its bound and normalizes to one.
    let epa = ExtendedPrefixAutomaton {
        states: vec![
            State { partition: None, sequences: vec![] },
            State { partition: Some(1), sequences: vec![] },
            State { partition: Some(2), sequences: vec![] },
            State { partition: Some(3), sequences: vec![] },
        ],
        transitions: vec![(0, 'a', 1), (0, 'b', 2), (0, 'c', 3)],
        activities: vec!['a', 'b', 'c'],
        root: 0,
    };
    assert_eq!(epa.partition_sizes(), vec![1, 1, 1]);
    let s = 3.0f64;
    let entropy = variant_entropy(epa.states.len(), &epa.partition_sizes());
    assert!((entropy - s * s.log(10.0)).abs() < 1e-12);
    let normalized = normalized_variant_entropy(epa.states.len(), &epa.partition_sizes());
    assert!((normalized - 1.0).abs() < 1e-12);
}

#[test]
fn repeated_case_events_merge_into_one_state() {
    // The same case reaching the same state twice records both events in
    // the state's event set but creates no second state.
    let log = vec![
        vec![event("1", 'a', None)],
        vec![event("2", 'a', None)],
    ];
    let epa = ExtendedPrefixAutomaton::build(log);
    assert_eq!(epa.states.len(), 2);
    assert_eq!(epa.states[1].sequences.len(), 2);
    assert_eq!(epa.transitions, vec![(0, 'a', 1)]);
}

#[test]
fn unknown_predecessor_defaults_to_the_root() {
    // A predecessor reference with no recorded state falls back to the
    // root, so both events branch off the root into partition 1.
    let log = vec![vec![
        event("1", 'a', Some("unseen")),
        event("1", 'b', Some("unseen")),
    ]];
    let epa = ExtendedPrefixAutomaton::build(log);
    assert_eq!(epa.transitions, vec![(0, 'a', 1), (0, 'b', 2)]);
    let partitions: Vec<Option<usize>> = epa.states.iter().map(|s| s.partition).collect();
    assert_eq!(partitions, vec![None, Some(1), Some(1)]);
}

#[test]
fn empty_log_builds_only_the_root() {
    let epa = ExtendedPrefixAutomaton::build(vec![]);
    assert_eq!(epa.states.len(), 1);
    assert_eq!(epa.states[0].partition, None);
    assert!(epa.transitions.is_empty());
    assert!(epa.partition_sizes().is_empty());
}
