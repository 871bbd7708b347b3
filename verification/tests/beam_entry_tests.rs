use beam_search::beam_entry::{BeamEntry, PROBABILITY_ONE};

/// Fixed-point form of a probability given as a floating-point literal.
fn p(x: f64) -> i64 {
    (x * PROBABILITY_ONE as f64).round() as i64
}

#[test]
fn test_beam_entry_default() {
    let entry = BeamEntry::default();
    assert_eq!(entry.pr_total, p(0.0));
    assert_eq!(entry.pr_non_blank, p(0.0));
    assert_eq!(entry.pr_blank, p(0.0));
}

#[test]
fn test_beam_entry_new() {
    let pr_non_blank = p(0.3);
    let pr_blank = p(0.7);
    let entry = BeamEntry::new(pr_non_blank, pr_blank);
    assert_eq!(entry.pr_total, pr_non_blank + pr_blank);
    assert_eq!(entry.pr_non_blank, pr_non_blank);
    assert_eq!(entry.pr_blank, pr_blank);
}

#[test]
fn test_update_probabilities() {
    let mut entry = BeamEntry::new(p(0.2), p(0.3));
    entry.update_probabilities(p(0.1), p(0.1));
    assert_eq!(entry.pr_total, p(0.7));
    assert_eq!(entry.pr_non_blank, p(0.3));
    assert_eq!(entry.pr_blank, p(0.4));
}

#[test]
fn test_updates_accumulate_over_many_calls() {
    let mut entry = BeamEntry::default();
    let deltas = [(p(0.1), p(0.0)), (p(0.05), p(0.2)), (p(0.0), p(0.15))];
    let mut sum = 0i64;
    for (nb, b) in deltas {
        entry.update_probabilities(nb, b);
        sum += nb + b;
    }
    assert_eq!(entry.pr_total, sum);
    assert_eq!(entry.pr_total, entry.pr_non_blank + entry.pr_blank);
    assert_eq!(entry.pr_non_blank, p(0.15));
    assert_eq!(entry.pr_blank, p(0.35));
}

#[test]
fn test_negative_deltas_are_applied() {
    let mut entry = BeamEntry::new(p(0.5), p(0.5));
    entry.update_probabilities(-p(0.2), -p(0.1));
    assert_eq!(entry.pr_non_blank, p(0.3));
    assert_eq!(entry.pr_blank, p(0.4));
    assert_eq!(entry.pr_total, p(0.7));
}
