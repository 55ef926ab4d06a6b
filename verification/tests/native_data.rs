use lib::breslow::{breslow_runs, event_groups, propagate_tied_weights, tied_event_counts};
use lib::matrix::Matrix;
use lib::patterns::{build_pattern_data, maximum_patterns};

fn normalized_bits(value: f64) -> u64 {
    if value == 0.0 {
        0
    } else {
        value.to_bits()
    }
}

fn keys_of(x: &Matrix<f64>) -> Matrix<u64> {
    let bits: Vec<u64> = x.as_slice().iter().map(|&v| normalized_bits(v)).collect();
    Matrix::from_col_major(&bits, x.nrow(), x.ncol())
}

fn ties_of(t2: &[f64]) -> Vec<bool> {
    (0..t2.len())
        .map(|r| r + 1 < t2.len() && (t2[r] - t2[r + 1]).abs() < 0.0001)
        .collect()
}

#[test]
fn repeated_design_rows_are_compacted_into_patterns() {
    let mut repeated = Matrix::zeros(32, 2, 0.0);
    for row in 0..32 {
        repeated.set(row, 0, (row % 2) as f64);
        repeated.set(row, 1, ((row / 2) % 2) as f64);
    }
    let patterns = build_pattern_data(&repeated, &keys_of(&repeated)).unwrap();
    assert_eq!(patterns.patterns.nrow(), 4);
    assert_eq!(patterns.row_pattern.len(), 32);

    let mut unique = Matrix::zeros(32, 2, 0.0);
    for row in 0..32 {
        unique.set(row, 0, row as f64);
        unique.set(row, 1, row as f64 + 0.5);
    }
    assert!(build_pattern_data(&unique, &keys_of(&unique)).is_none());

    let mut three_column = Matrix::zeros(64, 3, 0.0);
    for row in 0..64 {
        three_column.set(row, 0, (row % 2) as f64);
        three_column.set(row, 1, ((row / 2) % 2) as f64);
        three_column.set(row, 2, ((row / 4) % 2) as f64);
    }
    let three_column_patterns =
        build_pattern_data(&three_column, &keys_of(&three_column)).unwrap();
    assert_eq!(three_column_patterns.patterns.nrow(), 8);
    assert_eq!(three_column_patterns.row_pattern.len(), 64);
}

#[test]
fn breslow_events_are_compacted_without_changing_tie_aggregation() {
    let mut x = Matrix::zeros(5, 2, 0.0);
    let mut weights = Matrix::zeros(5, 2, 0.0);
    for row in 0..5 {
        x.set(row, 0, row as f64 + 1.0);
        x.set(row, 1, 10.0 * (row as f64 + 1.0));
        weights.set(row, 0, 100.0 + row as f64);
        weights.set(row, 1, 200.0 + row as f64);
    }

    let t2 = [1.0, 1.0, 2.0, 2.0, 3.0];
    let ic = [1, 1, 0, 1, 0];
    let runs = breslow_runs(&ic, &ties_of(&t2)).unwrap();
    propagate_tied_weights(&mut weights, &runs);
    let groups = event_groups(&runs);

    let event_rows: Vec<usize> = groups.iter().map(|g| g.start).collect();
    let event_counts: Vec<i32> = groups.iter().map(|g| g.events).collect();
    let bresx: Vec<Vec<f64>> = groups
        .iter()
        .map(|g| {
            (0..2)
                .map(|c| {
                    let mut value = x.get(g.end, c);
                    for row in (g.start..g.end).rev() {
                        value += x.get(row, c);
                    }
                    value
                })
                .collect()
        })
        .collect();

    assert_eq!(event_rows, vec![0, 2]);
    assert_eq!(event_counts, vec![2, 1]);
    assert_eq!(bresx[0], vec![3.0, 30.0]);
    assert_eq!(bresx[1], vec![7.0, 70.0]);
    assert_eq!(weights.row(0), vec![101.0, 201.0]);
    assert_eq!(weights.row(2), vec![103.0, 203.0]);
}

#[test]
fn maximum_patterns_is_one_per_eight_rows() {
    assert_eq!(maximum_patterns(0), 1);
    assert_eq!(maximum_patterns(7), 1);
    assert_eq!(maximum_patterns(16), 2);
    assert_eq!(maximum_patterns(80), 10);
    assert_eq!(maximum_patterns(usize::MAX), u32::MAX as usize);
}

#[test]
fn patterns_are_numbered_by_first_appearance() {
    // Twenty-four rows allow three patterns.
    let mut first = vec![1.0, 0.0, 1.0, -0.0, 2.0, 1.0];
    let mut second = vec![5.0, 3.0, 5.0, 3.0, 4.0, 5.0];
    first.resize(24, 0.0);
    second.resize(24, 3.0);
    let mut values = first;
    values.extend_from_slice(&second);
    let x = Matrix::from_col_major(&values, 24, 2);
    let data = build_pattern_data(&x, &keys_of(&x)).unwrap();
    let mut expected = vec![0, 1, 0, 1, 2, 0];
    expected.resize(24, 1);
    assert_eq!(data.row_pattern, expected);
    assert_eq!(data.patterns.nrow(), 3);
    assert_eq!(data.patterns.row(0), vec![1.0, 5.0]);
    assert_eq!(data.patterns.row(1), vec![0.0, 3.0]);
    assert_eq!(data.patterns.row(2), vec![2.0, 4.0]);
}

#[test]
fn pattern_compaction_gives_up_past_the_limit() {
    // Sixteen rows allow two patterns; a third one abandons compaction.
    let mut values = vec![0.0; 16];
    values[15] = 2.0;
    values[14] = 1.0;
    let x = Matrix::from_col_major(&values, 16, 1);
    assert!(build_pattern_data(&x, &keys_of(&x)).is_none());
    values[15] = 1.0;
    let x = Matrix::from_col_major(&values, 16, 1);
    let data = build_pattern_data(&x, &keys_of(&x)).unwrap();
    assert_eq!(data.patterns.nrow(), 2);
}

#[test]
fn breslow_runs_cover_every_row() {
    let ic = [0, 1, 1, 0, 1, 1, 1];
    let tied = [true, true, true, true, true, false, false];
    let runs = breslow_runs(&ic, &tied).unwrap();
    let spans: Vec<(usize, usize, i32)> = runs.iter().map(|r| (r.start, r.end, r.events)).collect();
    // Row 3 has status 0, so it starts a new run even though its time ties.
    assert_eq!(spans, vec![(0, 2, 2), (3, 5, 2), (6, 6, 1)]);
    let total: i32 = runs.iter().map(|r| r.events).sum();
    assert_eq!(total, ic.iter().sum::<i32>());
}

#[test]
fn breslow_runs_without_events_are_dropped_from_groups() {
    let ic = [0, 0, 1, -1, 1];
    let tied = [false, false, true, false, false];
    let runs = breslow_runs(&ic, &tied).unwrap();
    let spans: Vec<(usize, usize, i32)> = runs.iter().map(|r| (r.start, r.end, r.events)).collect();
    assert_eq!(spans, vec![(0, 0, 0), (1, 1, 0), (2, 2, 1), (3, 3, -1), (4, 4, 1)]);
    let groups = event_groups(&runs);
    let starts: Vec<usize> = groups.iter().map(|g| g.start).collect();
    assert_eq!(starts, vec![2, 3, 4]);
}

#[test]
fn breslow_runs_refuse_overflowing_sums() {
    let ic = [i32::MAX, 1];
    assert!(breslow_runs(&ic, &[true, false]).is_none());
    assert!(breslow_runs(&ic, &[false, false]).is_some());
    assert!(breslow_runs(&[], &[]).unwrap().is_empty());
}

#[test]
fn tied_weights_take_the_last_row_of_their_run() {
    let ic = [1, 1, 1, 0];
    let tied = [true, true, false, false];
    let runs = breslow_runs(&ic, &tied).unwrap();
    let mut weights = Matrix::from_col_major(&[1, 2, 3, 4, 10, 20, 30, 40], 4, 2);
    propagate_tied_weights(&mut weights, &runs);
    assert_eq!(weights.as_slice(), &[3, 3, 3, 4, 30, 30, 30, 40]);
}

#[test]
fn tied_events_are_attributed_to_the_first_row_of_their_time() {
    // Times 1, 1, 1, 2, 3, 3: rows 1, 2 and 5 share the time of the row before.
    let ic = [1, 0, 1, 1, 1, 1];
    let same = [false, true, true, false, false, true];
    let counts = tied_event_counts(&ic, &same).unwrap();
    assert_eq!(counts, vec![2, 0, 0, 1, 2, 0]);
    assert_eq!(counts.iter().sum::<i32>(), ic.iter().sum::<i32>());
}

#[test]
fn tied_event_counts_ignore_the_first_flag_and_refuse_overflow() {
    let counts = tied_event_counts(&[1, 1], &[true, true]).unwrap();
    assert_eq!(counts, vec![2, 0]);
    assert!(tied_event_counts(&[i32::MAX, 1], &[false, true]).is_none());
    assert_eq!(tied_event_counts(&[i32::MAX, 1], &[false, false]), Some(vec![i32::MAX, 1]));
    assert_eq!(tied_event_counts(&[], &[]), Some(vec![]));
}

#[test]
fn event_groups_keep_every_event() {
    let ic = [1, 2, 0, -1, 1, 0, 3];
    let tied = [true, true, true, true, false, true, false];
    let runs = breslow_runs(&ic, &tied).unwrap();
    let groups = event_groups(&runs);
    assert_eq!(groups.iter().map(|g| g.events).sum::<i32>(), ic.iter().sum::<i32>());
    assert!(groups.iter().all(|g| g.events != 0));
}

#[test]
fn rows_share_a_pattern_exactly_when_their_keys_match() {
    let mut x = Matrix::zeros(48, 2, 0.0);
    for row in 0..48 {
        x.set(row, 0, (row % 3) as f64);
        x.set(row, 1, (row % 2) as f64);
    }
    let data = build_pattern_data(&x, &keys_of(&x)).unwrap();
    assert_eq!(data.patterns.nrow(), 6);
    for a in 0..48 {
        for b in 0..48 {
            let same_row = x.row(a) == x.row(b);
            assert_eq!(data.row_pattern[a] == data.row_pattern[b], same_row);
        }
    }
}
