use wordle_solver::FrequencyPredicate;

#[test]
fn new_predicate_has_no_bounds() {
    let predicate = FrequencyPredicate::new();
    assert_eq!(predicate.min_occurrences, None);
    assert_eq!(predicate.max_occurrences, None);
    assert!(predicate.is_noop());
}

#[test]
fn predicate_without_bounds_matches_every_count() {
    let predicate = FrequencyPredicate::new();
    assert!(predicate.matches(0));
    assert!(predicate.matches(1));
    assert!(predicate.matches(5));
    assert!(predicate.matches(255));
}

#[test]
fn update_min_sets_and_raises() {
    let mut predicate = FrequencyPredicate::new();
    predicate.update_min(1);
    assert_eq!(predicate.min_occurrences, Some(1));
    assert_eq!(predicate.max_occurrences, None);
    predicate.update_min(3);
    assert_eq!(predicate.min_occurrences, Some(3));
    assert!(!predicate.is_noop());
}

#[test]
fn update_min_never_lowers() {
    let mut predicate = FrequencyPredicate::new();
    predicate.update_min(3);
    predicate.update_min(1);
    assert_eq!(predicate.min_occurrences, Some(3));
    predicate.update_min(0);
    assert_eq!(predicate.min_occurrences, Some(3));
}

#[test]
fn update_max_sets_and_lowers() {
    let mut predicate = FrequencyPredicate::new();
    predicate.update_max(4);
    assert_eq!(predicate.max_occurrences, Some(4));
    assert_eq!(predicate.min_occurrences, None);
    predicate.update_max(2);
    assert_eq!(predicate.max_occurrences, Some(2));
    assert!(!predicate.is_noop());
}

#[test]
fn update_max_never_raises() {
    let mut predicate = FrequencyPredicate::new();
    predicate.update_max(2);
    predicate.update_max(4);
    assert_eq!(predicate.max_occurrences, Some(2));
}

#[test]
fn update_max_goes_by_the_upper_bound_alone() {
    let mut predicate = FrequencyPredicate::new();
    predicate.update_min(1);
    predicate.update_max(5);
    assert_eq!(predicate.max_occurrences, Some(5));
    predicate.update_max(3);
    assert_eq!(predicate.max_occurrences, Some(3));
    predicate.update_max(4);
    assert_eq!(predicate.max_occurrences, Some(3));
    assert_eq!(predicate.min_occurrences, Some(1));
}

#[test]
fn bounds_only_tighten_over_many_updates() {
    let mut predicate = FrequencyPredicate::new();
    let mut low = 0u8;
    let mut high = u8::MAX;
    for (new_min, new_max) in [(1u8, 5u8), (0, 4), (2, 6), (1, 3), (3, 3), (0, 9)] {
        predicate.update_min(new_min);
        predicate.update_max(new_max);
        let now_low = predicate.min_occurrences.unwrap();
        let now_high = predicate.max_occurrences.unwrap();
        assert!(now_low >= low);
        assert!(now_high <= high);
        low = now_low;
        high = now_high;
    }
    assert_eq!(predicate.min_occurrences, Some(3));
    assert_eq!(predicate.max_occurrences, Some(3));
}

#[test]
fn matches_is_inclusive_at_both_bounds() {
    let mut predicate = FrequencyPredicate::new();
    predicate.update_min(1);
    predicate.update_max(2);
    assert!(!predicate.matches(0));
    assert!(predicate.matches(1));
    assert!(predicate.matches(2));
    assert!(!predicate.matches(3));
}

#[test]
fn matches_with_one_bound() {
    let mut at_least = FrequencyPredicate::new();
    at_least.update_min(2);
    assert!(!at_least.matches(1));
    assert!(at_least.matches(2));
    assert!(at_least.matches(200));
    let mut at_most = FrequencyPredicate::new();
    at_most.update_max(0);
    assert!(at_most.matches(0));
    assert!(!at_most.matches(1));
}

#[test]
fn crossed_bounds_match_nothing() {
    let mut predicate = FrequencyPredicate::new();
    predicate.update_max(0);
    predicate.update_min(1);
    for count in 0..=5u8 {
        assert!(!predicate.matches(count));
    }
}
