use lib::conversion::{to_zero_based_index, to_zero_based_integer, zero_based_order};
use lib::fit::{flag_sum, initialize_coefficients};
use lib::layout::{compact_lengths_match, CardLayout};
use lib::likelihood::{likelihood_mode, LikelihoodMode};
use lib::moments::moment_count;

#[test]
fn moment_count_matches_packed_layout() {
    assert_eq!(moment_count(0), 1);
    assert_eq!(moment_count(1), 4);
    assert_eq!(moment_count(2), 10);
    assert_eq!(moment_count(3), 20);
    assert_eq!(moment_count(10), 1 + 10 + 55 + 220);
}

#[test]
fn one_based_indices_become_zero_based() {
    assert_eq!(to_zero_based_integer(1), 0);
    assert_eq!(to_zero_based_integer(17), 16);
    assert_eq!(to_zero_based_index(1), 0);
    assert_eq!(to_zero_based_index(42), 41);
    assert_eq!(zero_based_order(&[3, 1, 2]), vec![2, 0, 1]);
    assert!(zero_based_order(&[]).is_empty());
}

#[test]
fn card_layout_locates_every_block() {
    // 4 rows, 2 covariates, 1 time-dependent effect: 2*2 + 4 + 2*1 = 10 columns.
    let layout = CardLayout::new(4, 2, 1, 40).unwrap();
    assert_eq!(layout.card_columns(), 10);
    assert_eq!(layout.p_total(), 3);
    assert_eq!(layout.covariates(), (0, 8));
    assert_eq!(layout.entry_times(), (8, 12));
    assert_eq!(layout.exit_times(), (12, 16));
    assert_eq!(layout.statuses(), (16, 20));
    assert_eq!(layout.entry_order(), (20, 24));
    assert_eq!(layout.score_weights(), (24, 36));
    assert_eq!(layout.time_functions(), (36, 40));
    assert_eq!(layout.columns(3, 2), (12, 20));
    assert_eq!((layout.n(), layout.p(), layout.ntde()), (4, 2, 1));
}

#[test]
fn card_layout_rejects_wrong_lengths() {
    assert!(CardLayout::new(4, 2, 1, 39).is_none());
    assert!(CardLayout::new(4, 2, 1, 41).is_none());
    assert!(CardLayout::new(0, 2, 1, 0).is_some());
    assert!(CardLayout::new(2, usize::MAX / 2, 0, 0).is_none());
}

#[test]
fn compact_lengths_are_checked() {
    assert!(compact_lengths_match(5, 2, 0, 10, 15, 5, 0));
    assert!(compact_lengths_match(5, 2, 1, 10, 15, 5, 5));
    assert!(!compact_lengths_match(5, 2, 1, 10, 15, 5, 0));
    assert!(!compact_lengths_match(5, 2, 0, 9, 15, 5, 0));
    assert!(!compact_lengths_match(5, 2, 0, 10, 15, 4, 0));
    assert!(!compact_lengths_match(usize::MAX, 2, 0, 10, 15, 5, 0));
}

#[test]
fn likelihood_mode_follows_data_shape() {
    assert_eq!(likelihood_mode(1, true), LikelihoodMode::General);
    assert_eq!(likelihood_mode(2, false), LikelihoodMode::General);
    assert_eq!(likelihood_mode(0, true), LikelihoodMode::Fast);
    assert_eq!(likelihood_mode(0, false), LikelihoodMode::IntervalFast);
}

#[test]
fn coefficients_start_from_offsets_as_flagged() {
    let mut flags = vec![0, 1, 2, 1];
    let coefficients = initialize_coefficients(&mut flags, &[0.5, 1.5, 2.5, 3.5], 0.0);
    assert_eq!(coefficients, vec![0.5, 0.0, 2.5, 0.0]);
    assert_eq!(flags, vec![0, 1, 1, 1]);
    assert_eq!(flag_sum(&flags), Some(3));
}

#[test]
fn flag_sum_refuses_overflow() {
    assert_eq!(flag_sum(&[]), Some(0));
    assert_eq!(flag_sum(&[i32::MAX, 1, -5]), None);
    assert_eq!(flag_sum(&[i32::MAX, -5, 1]), Some(i32::MAX - 4));
}
