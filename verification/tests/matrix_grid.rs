use egypt::existential::{self, ExistentialDependency};
use egypt::temporal::{self, TemporalDependency};
use egypt::{generate_adj_matrix_from_traces, Dependency};

fn strings(trace: &[&str]) -> Vec<String> {
    trace.iter().map(|s| s.to_string()).collect()
}

#[test]
fn matrix_of_two_equivalent_activities() {
    let traces = vec![strings(&["a", "b"]), strings(&["a", "b"])];
    let (grid, full, pure, eventual_eq, direct_eq, n) = generate_adj_matrix_from_traces(traces);

    let mut expected = String::new();
    expected.push_str(&format!("{:<15}", " "));
    expected.push_str(&format!("{:<15}", "a"));
    expected.push_str(&format!("{:<15}", "b"));
    expected.push('\n');
    expected.push_str(&format!("{:<15}", "a"));
    expected.push_str(&format!("{:<15}", "-"));
    expected.push_str(&format!("{:<15}", "≺d,⇔"));
    expected.push('\n');
    expected.push_str(&format!("{:<15}", "b"));
    expected.push_str(&format!("{:<15}", "≻d,⇔"));
    expected.push_str(&format!("{:<15}", "-"));
    expected.push('\n');

    assert_eq!(grid, expected);
    assert_eq!(full, 0);
    assert_eq!(pure, 0);
    assert_eq!(eventual_eq, 0);
    assert_eq!(direct_eq, 2);
    assert_eq!(n, 2);
}

#[test]
fn matrix_counts_independent_pairs() {
    // c and d each appear alone: no order is ever observed between them,
    // and neither implies the other.
    let traces = vec![strings(&["c"]), strings(&["d"])];
    let (_, full, pure, eventual_eq, direct_eq, n) = generate_adj_matrix_from_traces(traces);
    assert_eq!(n, 2);
    // No temporal dependency in either direction.
    assert_eq!(pure, 2);
    // They exclude each other, so a negated equivalence keeps the pairs
    // from full independence.
    assert_eq!(full, 0);
    assert_eq!(eventual_eq, 0);
    assert_eq!(direct_eq, 0);
}

#[test]
fn matrix_counts_eventual_equivalences() {
    let traces = vec![strings(&["a", "x", "b"]), strings(&["a", "b"])];
    let (_, full, _pure, eventual_eq, direct_eq, _) = generate_adj_matrix_from_traces(traces);
    // a and b always occur together with a before b, adjacent only once.
    assert_eq!(eventual_eq, 2);
    assert_eq!(direct_eq, 0);
    assert_eq!(full, 0);
}

#[test]
fn render_shows_both_parts() {
    let dep = Dependency::new(
        "a".to_string(),
        "b".to_string(),
        Some(TemporalDependency::new(
            "a",
            "b",
            temporal::DependencyType::Direct,
            temporal::Direction::Forward,
        )),
        Some(ExistentialDependency::new(
            "a",
            "b",
            existential::DependencyType::Equivalence,
            existential::Direction::Forward,
        )),
    );
    assert_eq!(dep.render(), "≺d,⇔");

    let eventual_only = Dependency::new(
        "a".to_string(),
        "b".to_string(),
        Some(TemporalDependency::new(
            "a",
            "b",
            temporal::DependencyType::Eventual,
            temporal::Direction::Backward,
        )),
        None,
    );
    assert_eq!(eventual_only.render(), "≻,-");

    let existential_only = Dependency::new(
        "a".to_string(),
        "b".to_string(),
        None,
        Some(ExistentialDependency::new(
            "a",
            "b",
            existential::DependencyType::Implication,
            existential::Direction::Backward,
        )),
    );
    assert_eq!(existential_only.render(), "-,<=");

    let neither = Dependency::new("a".to_string(), "b".to_string(), None, None);
    assert_eq!(neither.render(), "None");
}
