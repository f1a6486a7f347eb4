use std::collections::HashSet;

use egypt::{get_activities_and_traces, get_traces, variants_of_traces};

fn expected_sample_traces() -> Vec<Vec<String>> {
    vec![
        vec![
            "activity 3",
            "activity 3",
            "activity 3",
            "activity 3",
            "activity 3",
            "activity 1",
            "activity 1",
            "activity 2",
        ],
        vec!["activity 3", "activity 1", "activity 2"],
        vec![
            "activity 1",
            "activity 1",
            "activity 1",
            "activity 1",
            "activity 3",
            "activity 1",
            "activity 1",
            "activity 2",
        ],
        vec!["activity 3", "activity 1", "activity 1", "activity 2"],
    ]
    .into_iter()
    .map(|trace| trace.into_iter().map(String::from).collect())
    .collect()
}

#[test]
fn test_get_activities_and_traces() {
    let traces = "
activity 3,activity 3,activity 3,activity 3,activity 3,activity 1,activity 1,activity 2,
activity 3,activity 1,activity 2,
activity 1,activity 1,activity 1,activity 1,activity 3,activity 1,activity 1,activity 2,
activity 3,activity 1,activity 1,activity 2,
";
    let (activities, traces) = get_activities_and_traces(traces);
    let expected_activities: HashSet<_> = vec!["activity 1", "activity 2", "activity 3"]
        .into_iter()
        .map(String::from)
        .collect();
    assert_eq!(expected_activities, activities.into_iter().collect());

    assert_eq!(expected_sample_traces(), traces);
}

#[test]
fn test_get_traces() {
    let traces = "
activity 3,activity 3,activity 3,activity 3,activity 3,activity 1,activity 1,activity 2,
activity 3,activity 1,activity 2,
activity 1,activity 1,activity 1,activity 1,activity 3,activity 1,activity 1,activity 2,
activity 3,activity 1,activity 1,activity 2,
";
    assert_eq!(expected_sample_traces(), get_traces(traces));
}

#[test]
fn get_traces_drops_blank_tokens_and_lines() {
    let text = "a, ,b\n   \n\nc,";
    let traces = get_traces(text);
    assert_eq!(
        traces,
        vec![
            vec!["a".to_string(), "b".to_string()],
            vec!["c".to_string()],
        ]
    );
}

#[test]
fn get_traces_of_empty_text_is_empty() {
    assert!(get_traces("").is_empty());
    assert!(get_traces("\n\n").is_empty());
}

fn variant_count(result: &[(Vec<&str>, usize)], key: &[&str]) -> Option<usize> {
    result
        .iter()
        .find(|(k, _)| k.as_slice() == key)
        .map(|(_, c)| *c)
}

#[test]
fn test_variants_of_traces() {
    let traces = vec![
        vec!["A", "B", "C"],
        vec!["A", "B", "C"],
        vec!["B", "C", "D"],
        vec!["A", "B", "C"],
        vec!["B", "C", "D"],
        vec!["E", "F", "G"],
    ];

    let result = variants_of_traces(traces);
    assert_eq!(result.len(), 3);
    assert_eq!(variant_count(&result, &["A", "B", "C"]), Some(3));
    assert_eq!(variant_count(&result, &["B", "C", "D"]), Some(2));
    assert_eq!(variant_count(&result, &["E", "F", "G"]), Some(1));
}

#[test]
fn variants_are_order_sensitive_within_a_trace() {
    let result = variants_of_traces(vec![vec!["A", "B"], vec!["B", "A"]]);
    assert_eq!(result.len(), 2);
    assert_eq!(variant_count(&result, &["A", "B"]), Some(1));
    assert_eq!(variant_count(&result, &["B", "A"]), Some(1));
}

#[test]
fn duplicate_traces_share_one_variant() {
    let result = variants_of_traces(vec![vec!["A", "B"], vec!["A", "B"]]);
    assert_eq!(result.len(), 1);
    assert_eq!(variant_count(&result, &["A", "B"]), Some(2));
}

#[test]
fn variant_counts_ignore_trace_order() {
    let forward = variants_of_traces(vec![vec!["A", "B"], vec!["A", "C"], vec!["A", "B"]]);
    let reversed = variants_of_traces(vec![vec!["A", "B"], vec!["A", "C"], vec!["A", "B"]]
        .into_iter()
        .rev()
        .collect());
    for key in [&["A", "B"][..], &["A", "C"][..]] {
        assert_eq!(variant_count(&forward, key), variant_count(&reversed, key));
    }
}
