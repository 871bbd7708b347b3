use beam_search::beam_entry::PROBABILITY_ONE;
use beam_search::beam_state::{BeamState, DEFAULT_PRUNING_THRESHOLD};

/// Fixed-point form of a probability given as a floating-point literal.
fn p(x: f64) -> i64 {
    (x * PROBABILITY_ONE as f64).round() as i64
}

#[test]
fn test_beam_state_default() {
    let beam_state = BeamState::default();
    assert_eq!(beam_state.entries.len(), 0)
}

#[test]
fn test_beam_state_update_and_get() {
    let mut beam_state = BeamState::default();
    let key = String::from("test");

    beam_state.update(String::from("test"), p(0.1), p(0.1));

    assert_eq!(beam_state.entries.len(), 1);
    assert_eq!(beam_state.get_probabilities(&key).unwrap().pr_total, p(0.2));
}

#[test]
fn test_beam_state_prune() {
    let mut beam_state = BeamState::new(true, p(0.1));

    beam_state.update(String::from("a"), p(0.01), p(0.08));
    beam_state.update(String::from("b"), p(0.05), p(0.04));
    beam_state.update(String::from("c"), p(0.1), p(0.2));

    assert_eq!(beam_state.entries.len(), 3);

    beam_state.prune();

    assert_eq!(beam_state.entries.len(), 1);
}

#[test]
fn test_beam_state_sort() {
    let mut beam_state = BeamState::default();

    beam_state.update(String::from("a"), p(0.1), p(0.0));
    beam_state.update(String::from("b"), p(0.3), p(0.0));
    beam_state.update(String::from("c"), p(0.2), p(0.0));

    assert_eq!(beam_state.entries.len(), 3);

    let entries = beam_state.sort();
    assert_eq!(beam_state.entries.len(), entries.len());

    assert_eq!(entries[0].0, "b");
    assert_eq!(entries[1].0, "c");
    assert_eq!(entries[2].0, "a");
}

#[test]
fn test_beam_state_sort_top_n() {
    let mut beam_state = BeamState::default();

    beam_state.update(String::from("a"), p(0.1), p(0.0));
    beam_state.update(String::from("b"), p(0.3), p(0.0));
    beam_state.update(String::from("c"), p(0.2), p(0.0));
    beam_state.update(String::from("d"), p(0.0), p(0.05));

    assert_eq!(beam_state.entries.len(), 4);

    let n: usize = 3;
    let entries = beam_state.sort_top_n(n);
    assert_eq!(n, entries.len());

    assert_eq!(entries[0].0, "b");
    assert_eq!(entries[1].0, "c");
    assert_eq!(entries[2].0, "a");

    println!("{:?}", entries);
}

#[test]
fn test_default_threshold_value() {
    let beam_state = BeamState::default();
    assert!(beam_state.pruning);
    assert_eq!(beam_state.pruning_threshold, DEFAULT_PRUNING_THRESHOLD);
    assert_eq!(DEFAULT_PRUNING_THRESHOLD, p(1e-5));
}

#[test]
fn test_fresh_update_equals_zero_entry_then_update() {
    let mut with_update = BeamState::new(false, p(0.0));
    with_update.update(String::from("x"), p(0.25), p(0.5));
    let direct = with_update.get_probabilities(&String::from("x")).unwrap();

    // the record equals a zero entry to which one additive update was applied
    let mut zero = beam_search::beam_entry::BeamEntry::default();
    zero.update_probabilities(p(0.25), p(0.5));
    assert_eq!(direct.pr_non_blank, zero.pr_non_blank);
    assert_eq!(direct.pr_blank, zero.pr_blank);
    assert_eq!(direct.pr_total, zero.pr_total);
}

#[test]
fn test_update_same_key_never_duplicates() {
    let mut beam_state = BeamState::default();
    beam_state.update(String::from("k"), p(0.1), p(0.0));
    beam_state.update(String::from("k"), p(0.2), p(0.0));
    beam_state.update(String::from("k"), p(0.0), p(0.3));
    assert_eq!(beam_state.entries.len(), 1);
    let entry = beam_state.get_probabilities(&String::from("k")).unwrap();
    assert_eq!(entry.pr_total, p(0.6));
    assert_eq!(entry.pr_non_blank, p(0.3));
    assert_eq!(entry.pr_blank, p(0.3));
}

#[test]
fn test_get_absent_labeling_is_none() {
    let beam_state = BeamState::default();
    assert!(beam_state.get_probabilities(&String::from("missing")).is_none());
}

#[test]
fn test_prune_keeps_exactly_the_survivor() {
    let mut beam_state = BeamState::new(true, p(0.1));
    beam_state.update(String::from("a"), p(0.01), p(0.08));
    beam_state.update(String::from("b"), p(0.05), p(0.04));
    beam_state.update(String::from("c"), p(0.1), p(0.2));

    beam_state.prune();

    assert_eq!(beam_state.entries.len(), 1);
    let survivor = beam_state.get_probabilities(&String::from("c")).unwrap();
    assert_eq!(survivor.pr_total, p(0.3));
    assert!(beam_state.get_probabilities(&String::from("a")).is_none());
    assert!(beam_state.get_probabilities(&String::from("b")).is_none());
}

#[test]
fn test_prune_exact_threshold_is_removed() {
    let mut beam_state = BeamState::new(true, p(0.1));
    beam_state.update(String::from("edge"), p(0.1), p(0.0));
    beam_state.prune();
    assert_eq!(beam_state.entries.len(), 0);
}

#[test]
fn test_prune_disabled_has_no_effect() {
    let mut beam_state = BeamState::new(false, p(0.5));
    beam_state.update(String::from("small"), p(0.001), p(0.0));
    beam_state.prune();
    assert_eq!(beam_state.entries.len(), 1);
    let entry = beam_state.get_probabilities(&String::from("small")).unwrap();
    assert_eq!(entry.pr_total, p(0.001));
}

#[test]
fn test_prune_disabled_policy_not_applied_by_sort() {
    let mut beam_state = BeamState::new(false, p(0.5));
    beam_state.update(String::from("small"), p(0.001), p(0.0));
    let entries = beam_state.sort();
    assert_eq!(entries.len(), 1);
    assert_eq!(entries[0].0, "small");
}

#[test]
fn test_sort_on_empty_state() {
    let mut beam_state = BeamState::default();
    let entries = beam_state.sort();
    assert_eq!(entries.len(), 0);
}

#[test]
fn test_sort_top_n_matches_sort_prefix() {
    let mut first = BeamState::new(false, p(0.0));
    let mut second = BeamState::new(false, p(0.0));
    let data = [
        ("a", 0.1),
        ("b", 0.3),
        ("c", 0.2),
        ("d", 0.05),
        ("e", 0.25),
    ];
    for (key, pr) in data {
        first.update(String::from(key), p(pr), p(0.0));
        second.update(String::from(key), p(pr), p(0.0));
    }
    let full = first.sort();
    for n in 0..=data.len() {
        let top = second.sort_top_n(n);
        assert_eq!(top.len(), n.min(data.len()));
        for i in 0..top.len() {
            assert_eq!(top[i].1, full[i].1);
        }
    }
}

#[test]
fn test_sort_top_n_with_large_n_returns_all() {
    let mut beam_state = BeamState::default();
    beam_state.update(String::from("a"), p(0.1), p(0.0));
    beam_state.update(String::from("b"), p(0.3), p(0.0));
    let entries = beam_state.sort_top_n(10);
    assert_eq!(entries.len(), 2);
    assert_eq!(entries[0].0, "b");
    assert_eq!(entries[0].1, p(0.3));
    assert_eq!(entries[1].0, "a");
    assert_eq!(entries[1].1, p(0.1));
}
