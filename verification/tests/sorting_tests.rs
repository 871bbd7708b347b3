use beam_search::beam_entry::PROBABILITY_ONE;
use beam_search::sorting::{top_n_elements, ScoredValue};

/// Fixed-point form of a probability given as a floating-point literal.
fn p(x: f64) -> i64 {
    (x * PROBABILITY_ONE as f64).round() as i64
}

#[test]
fn test_scored_value_new() {
    let _ = ScoredValue::new((String::from("abc"), p(0.1)), p(0.1));
}

#[test]
fn test_cmp() {
    let a = ScoredValue::new(String::from("abc"), p(0.1));
    let b = ScoredValue::new(String::from("def"), p(0.2));

    assert_ne!(a, b);
    assert!(a < b);
}

#[test]
fn test_top_n_elements() {
    let values = vec![
        ScoredValue::new("c", p(0.7)),
        ScoredValue::new("b", p(0.5)),
        ScoredValue::new("a", p(1.0)),
    ];
    let sorted = top_n_elements(values, 2);

    assert_eq!(sorted.len(), 2);
    assert_eq!("a", sorted[0].value);
    assert_eq!("c", sorted[1].value);
}

#[test]
fn test_equal_scores_compare_equal() {
    let a = ScoredValue::new(String::from("abc"), p(0.4));
    let b = ScoredValue::new(String::from("def"), p(0.4));
    assert_eq!(a, b);
    assert!(a <= b);
    assert!(a >= b);
}

#[test]
fn test_top_n_elements_empty_input() {
    let values: Vec<ScoredValue<&str>> = Vec::new();
    let sorted = top_n_elements(values, 3);
    assert_eq!(sorted.len(), 0);
}

#[test]
fn test_top_n_elements_zero_n() {
    let values = vec![
        ScoredValue::new("a", p(0.1)),
        ScoredValue::new("b", p(0.2)),
    ];
    let sorted = top_n_elements(values, 0);
    assert_eq!(sorted.len(), 0);
}

#[test]
fn test_top_n_elements_n_at_least_length_sorts_all() {
    let values = vec![
        ScoredValue::new("c", p(0.7)),
        ScoredValue::new("b", p(0.5)),
        ScoredValue::new("a", p(1.0)),
        ScoredValue::new("d", p(0.6)),
    ];
    let sorted = top_n_elements(values, 4);
    assert_eq!(sorted.len(), 4);
    assert_eq!("a", sorted[0].value);
    assert_eq!("c", sorted[1].value);
    assert_eq!("d", sorted[2].value);
    assert_eq!("b", sorted[3].value);
}

#[test]
fn test_top_n_elements_keeps_highest_scores() {
    let values = vec![
        ScoredValue::new("low", p(0.05)),
        ScoredValue::new("high", p(0.9)),
        ScoredValue::new("mid", p(0.4)),
        ScoredValue::new("tiny", p(0.01)),
        ScoredValue::new("peak", p(0.95)),
    ];
    let sorted = top_n_elements(values, 2);
    assert_eq!(sorted.len(), 2);
    assert_eq!("peak", sorted[0].value);
    assert_eq!(sorted[0].score, p(0.95));
    assert_eq!("high", sorted[1].value);
    assert_eq!(sorted[1].score, p(0.9));
}
