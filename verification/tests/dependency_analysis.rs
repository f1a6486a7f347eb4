use std::collections::HashMap;

use egypt::existential;
use egypt::existential::{check_existential_dependency, has_implication, ExistentialDependency};
use egypt::temporal::{
    check_temporal_dependency, check_trace_dependency, DependencyType, Direction,
    TemporalDependency,
};
use egypt::Threshold;

#[test]
fn test_has_implication() {
    let event_names = vec![
        vec!["A", "B", "C", "D"],
        vec!["A", "C", "B", "D"],
        vec!["A", "E", "D"],
        vec!["A", "D"],
    ];
    let activities = ["A", "B", "C", "D", "E"];
    let pairs = vec![
        ("A", "D"),
        ("B", "A"),
        ("B", "C"),
        ("B", "D"),
        ("C", "A"),
        ("C", "B"),
        ("C", "D"),
        ("D", "A"),
        ("E", "A"),
        ("E", "D"),
    ];
    activities.iter().for_each(|from| {
        activities.iter().for_each(|to| {
            if from != to {
                if pairs.contains(&(from, to)) {
                    assert!(has_implication(from, to, &event_names, Threshold::exact()));
                } else {
                    assert!(!has_implication(from, to, &event_names, Threshold::exact()));
                }
            }
        });
    });
}

#[test]
fn test_has_implication_with_noise() {
    let event_names = vec![
        vec!["A", "B", "C", "D"],
        vec!["A", "C", "B", "D"],
        vec!["A", "E", "D"],
        vec!["A", "D"],
        vec!["A", "C"], // Noise: D is missing
    ];
    let four_fifths = Threshold::new(4, 5).unwrap();
    assert!(has_implication("A", "D", &event_names, four_fifths));
    assert!(!has_implication("A", "D", &event_names, Threshold::exact()));
}

#[test]
fn test_with_loops_general() {
    let event_names = vec![
        vec!["A", "B", "C", "B", "D", "B"],
        vec!["A", "C", "B", "D"],
        vec!["B", "A", "C", "D", "B"],
    ];
    let mut pairs_and_deps = HashMap::new();

    pairs_and_deps.insert(
        ("A", "B"),
        check_temporal_dependency("A", "B", &event_names, Threshold::exact()),
    );
    pairs_and_deps.insert(
        ("A", "C"),
        check_temporal_dependency("A", "C", &event_names, Threshold::exact()),
    );
    pairs_and_deps.insert(
        ("B", "C"),
        check_temporal_dependency("B", "C", &event_names, Threshold::exact()),
    );
    pairs_and_deps.insert(
        ("C", "D"),
        check_temporal_dependency("C", "D", &event_names, Threshold::exact()),
    );
    pairs_and_deps.insert(
        ("B", "D"),
        check_temporal_dependency("B", "D", &event_names, Threshold::exact()),
    );

    // B and D are observed in both orders (B follows D inside loops), so
    // the all-or-nothing direction rule reports independence.
    let expected = HashMap::from([
        (("A", "B"), None),
        (
            ("A", "C"),
            Some(TemporalDependency::new(
                "A",
                "C",
                DependencyType::Eventual,
                Direction::Forward,
            )),
        ),
        (("B", "C"), None),
        (("B", "D"), None),
        (
            ("C", "D"),
            Some(TemporalDependency::new(
                "C",
                "D",
                DependencyType::Eventual,
                Direction::Forward,
            )),
        ),
    ]);

    pairs_and_deps.iter().for_each(|(key, value)| {
        assert_eq!(value, expected.get(key).unwrap());
    });
}

#[test]
fn test_with_loop_1() {
    let traces = vec![vec!["A", "B", "C", "A", "C"]];
    let trace = &traces[0];
    // Every pair of an A-position and a C-position is classified: A at 0
    // against C at 2 and 4, then A at 3 against C at 2 and 4.
    let expected = vec![
        (DependencyType::Eventual, Direction::Forward),
        (DependencyType::Eventual, Direction::Forward),
        (DependencyType::Direct, Direction::Backward),
        (DependencyType::Direct, Direction::Forward),
    ];
    assert_eq!(expected, check_trace_dependency("A", "C", trace));

    // One backward observation among forward ones: no agreed direction.
    let actual = check_temporal_dependency("A", "C", &traces, Threshold::exact());
    assert_eq!(None, actual);
}

#[test]
fn test_independence() {
    let traces = vec![vec!["A", "B", "C", "C", "A"]];
    let trace = &traces[0];
    let expected = vec![
        (DependencyType::Eventual, Direction::Forward),
        (DependencyType::Eventual, Direction::Forward),
        (DependencyType::Eventual, Direction::Backward),
        (DependencyType::Direct, Direction::Backward),
    ];
    assert_eq!(expected, check_trace_dependency("A", "C", trace));

    let actual = check_temporal_dependency("A", "C", &traces, Threshold::exact());
    assert_eq!(None, actual);
}

#[test]
fn test_with_loop_2() {
    let traces = vec![vec!["A", "C", "B", "C"]];
    let trace = &traces[0];
    let expected = vec![
        (DependencyType::Direct, Direction::Forward),
        (DependencyType::Eventual, Direction::Forward),
    ];
    assert_eq!(expected, check_trace_dependency("A", "C", trace));

    let actual = check_temporal_dependency("A", "C", &traces, Threshold::exact());
    let expected = Some(TemporalDependency::new(
        "A",
        "C",
        DependencyType::Eventual,
        Direction::Forward,
    ));
    assert_eq!(expected, actual);
}

#[test]
fn test_with_loop_3() {
    let traces = vec![vec!["C", "A", "C"]];
    let expected = vec![
        (DependencyType::Direct, Direction::Backward),
        (DependencyType::Direct, Direction::Forward),
    ];
    assert_eq!(expected, check_trace_dependency("A", "C", &traces[0]));

    let actual = check_temporal_dependency("A", "C", &traces, Threshold::exact());
    assert_eq!(None, actual);
}

fn scenario_traces() -> Vec<Vec<&'static str>> {
    vec![
        vec!["A", "B", "C", "D"],
        vec!["A", "C", "B", "D"],
        vec!["A", "E", "D"],
        vec!["A", "D"],
    ]
}

#[test]
fn scenario_temporal_a_before_d() {
    // A always precedes D, adjacent only in the last trace: eventual,
    // forward.
    let actual = check_temporal_dependency("A", "D", &scenario_traces(), Threshold::exact());
    let expected = Some(TemporalDependency::new(
        "A",
        "D",
        DependencyType::Eventual,
        Direction::Forward,
    ));
    assert_eq!(expected, actual);
}

#[test]
fn scenario_temporal_a_before_b() {
    // B is absent in two traces; where it appears it always follows A, so
    // the aggregate rule still reports a forward eventual dependency.
    let actual = check_temporal_dependency("A", "B", &scenario_traces(), Threshold::exact());
    let expected = Some(TemporalDependency::new(
        "A",
        "B",
        DependencyType::Eventual,
        Direction::Forward,
    ));
    assert_eq!(expected, actual);
}

#[test]
fn scenario_existential_a_and_e() {
    // Every trace with E also holds A, but not the other way round: an
    // implication from E back to A.
    let actual = check_existential_dependency("A", "E", &scenario_traces(), Threshold::exact());
    let expected = Some(ExistentialDependency::new(
        "A",
        "E",
        existential::DependencyType::Implication,
        existential::Direction::Backward,
    ));
    assert_eq!(expected, actual);
}

#[test]
fn threshold_monotone_existential() {
    // A pair reported dependent at the exact threshold stays reported at
    // every lower threshold.
    let event_names = vec![
        vec!["A", "B", "C", "D"],
        vec!["A", "C", "B", "D"],
        vec!["A", "E", "D"],
        vec!["A", "D"],
        vec!["A", "C"],
    ];
    let exact = check_existential_dependency("A", "D", &event_names, Threshold::exact());
    assert!(exact.is_some());
    let lower = check_existential_dependency("A", "D", &event_names, Threshold::new(4, 5).unwrap());
    assert!(lower.is_some());
}

#[test]
fn threshold_monotone_temporal() {
    let traces = scenario_traces();
    let exact = check_temporal_dependency("A", "D", &traces, Threshold::exact());
    assert!(exact.is_some());
    let lower = check_temporal_dependency("A", "D", &traces, Threshold::new(4, 5).unwrap());
    assert!(lower.is_some());
}

#[test]
fn symmetry_existential_mirrors() {
    let traces = scenario_traces();
    let forward = check_existential_dependency("A", "E", &traces, Threshold::exact()).unwrap();
    let backward = check_existential_dependency("E", "A", &traces, Threshold::exact()).unwrap();
    assert_eq!(forward.dependency_type, backward.dependency_type);
    assert_eq!(forward.direction, existential::Direction::Backward);
    assert_eq!(backward.direction, existential::Direction::Forward);
}

#[test]
fn symmetry_temporal_mirrors() {
    let traces = scenario_traces();
    let forward = check_temporal_dependency("A", "D", &traces, Threshold::exact()).unwrap();
    let backward = check_temporal_dependency("D", "A", &traces, Threshold::exact()).unwrap();
    assert_eq!(forward.dependency_type, backward.dependency_type);
    assert_eq!(forward.direction, Direction::Forward);
    assert_eq!(backward.direction, Direction::Backward);
}

#[test]
fn empty_log_reports_independence() {
    let traces: Vec<Vec<&str>> = vec![];
    assert_eq!(
        None,
        check_temporal_dependency("A", "B", &traces, Threshold::exact())
    );
    assert!(check_existential_dependency("A", "B", &traces, Threshold::exact()).is_none());
}

#[test]
fn negated_equivalence_reported() {
    // A and B never share a trace: a negated equivalence.
    let traces = vec![vec!["A", "C"], vec!["B", "C"], vec!["A"], vec!["B"]];
    let actual = check_existential_dependency("A", "B", &traces, Threshold::exact()).unwrap();
    assert_eq!(
        actual.dependency_type,
        existential::DependencyType::NegatedEquivalence
    );
    assert_eq!(actual.direction, existential::Direction::Forward);
}

#[test]
fn self_pair_is_independent() {
    // Occurrences of one activity against itself appear in both orders,
    // so no direction ever wins.
    let traces = vec![vec!["B", "A", "B"]];
    assert_eq!(
        None,
        check_temporal_dependency("B", "B", &traces, Threshold::exact())
    );
}

#[test]
fn zero_threshold_still_needs_agreement() {
    // Even a threshold of zero reports nothing when the observed orders
    // disagree.
    let traces = vec![vec!["A", "C", "A"]];
    let zero = Threshold::new(0, 1).unwrap();
    assert_eq!(None, check_temporal_dependency("A", "C", &traces, zero));
    // With agreement, a zero threshold reports the dependency.
    let agreeing = vec![vec!["A", "C"]];
    assert!(check_temporal_dependency("A", "C", &agreeing, zero).is_some());
}

#[test]
fn threshold_rejects_invalid_ratios() {
    assert!(Threshold::new(2, 1).is_none());
    assert!(Threshold::new(1, 0).is_none());
    assert!(Threshold::new(0, 1).is_some());
    assert!(Threshold::new(3, 4).is_some());
}
