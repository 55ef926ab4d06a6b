//! Grouping of tied event times for the Breslow approximation.
//!
//! Rows are sorted by event time. A row is joined to the run of the row
//! before it when it is an event (`ic >= 1`) and its time ties with that
//! row's time; the tie test on the times themselves is made by the caller
//! and handed in as one flag per row ("ties with the next row"). Every
//! run carries the sum of its event indicators; runs with a non-zero sum
//! are the event groups of the likelihood.

use vstd::prelude::*;
use crate::matrix::Matrix;

verus! {

/// A maximal block of consecutive rows `start ..= end` whose events share
/// one time, with the sum of their event indicators.
#[derive(Clone, Copy, Debug)]
pub struct TieRun {
    pub start: usize,
    pub end: usize,
    pub events: i32,
}

/// Row `row` is followed, within the same run, by row `row + 1`.
pub open spec fn joins_next(ic: Seq<i32>, tied: Seq<bool>, row: int) -> bool {
    &&& row + 1 < ic.len()
    &&& ic[row + 1] >= 1
    &&& tied[row]
}

/// The last row of the run that starts at `start`.
pub open spec fn run_end(ic: Seq<i32>, tied: Seq<bool>, start: int) -> int
    decreases ic.len() - start,
{
    if 0 <= start && joins_next(ic, tied, start) {
        run_end(ic, tied, start + 1)
    } else {
        start
    }
}

/// The runs, as `(start, end)` pairs, that cover rows `start ..` in order.
pub open spec fn runs_from(ic: Seq<i32>, tied: Seq<bool>, start: int) -> Seq<(int, int)>
    decreases ic.len() - start,
{
    if start < 0 || start >= ic.len() {
        Seq::empty()
    } else {
        let end = run_end(ic, tied, start);
        if end < start || end >= ic.len() {
            Seq::empty()
        } else {
            seq![(start, end)] + runs_from(ic, tied, end + 1)
        }
    }
}

/// The runs that cover all rows.
pub open spec fn tie_runs(ic: Seq<i32>, tied: Seq<bool>) -> Seq<(int, int)> {
    runs_from(ic, tied, 0)
}

/// Sum of the event indicators of rows `from .. to`.
pub open spec fn indicator_sum(ic: Seq<i32>, from: int, to: int) -> int
    decreases to - from,
{
    if to <= from {
        0
    } else {
        indicator_sum(ic, from, to - 1) + ic[to - 1]
    }
}

/// Within every run, each running sum of the event indicators fits an
/// `i32`.
pub open spec fn run_sums_fit(ic: Seq<i32>, tied: Seq<bool>) -> bool {
    forall|i: int, k: int|
        0 <= i < tie_runs(ic, tied).len() && tie_runs(ic, tied)[i].0 <= k <= tie_runs(ic, tied)[i].1
            ==> i32::MIN <= #[trigger] indicator_sum(ic, tie_runs(ic, tied)[i].0, k + 1)
            <= i32::MAX
}

proof fn lemma_run_end_bounds(ic: Seq<i32>, tied: Seq<bool>, start: int)
    requires
        0 <= start < ic.len(),
    ensures
        start <= run_end(ic, tied, start) < ic.len(),
        !joins_next(ic, tied, run_end(ic, tied, start)),
        forall|r: int| start <= r < run_end(ic, tied, start) ==> #[trigger] joins_next(ic, tied, r),
    decreases ic.len() - start,
{
    if joins_next(ic, tied, start) {
        lemma_run_end_bounds(ic, tied, start + 1);
    }
}

/// The runs start at `start`, follow one another without gap, and end at
/// the last row.
proof fn lemma_runs_from_shape(ic: Seq<i32>, tied: Seq<bool>, start: int)
    requires
        0 <= start <= ic.len(),
    ensures
        forall|i: int|
            0 <= i < runs_from(ic, tied, start).len() ==> {
                let run = #[trigger] runs_from(ic, tied, start)[i];
                &&& start <= run.0 <= run.1 < ic.len()
                &&& run.1 == run_end(ic, tied, run.0)
                &&& (i == 0 ==> run.0 == start)
                &&& (i + 1 < runs_from(ic, tied, start).len() ==> runs_from(ic, tied, start)[i
                    + 1].0 == run.1 + 1)
                &&& (i + 1 == runs_from(ic, tied, start).len() ==> run.1 == ic.len() - 1)
            },
        start < ic.len() ==> runs_from(ic, tied, start).len() > 0,
    decreases ic.len() - start,
{
    if start < ic.len() {
        lemma_run_end_bounds(ic, tied, start);
        let end = run_end(ic, tied, start);
        lemma_runs_from_shape(ic, tied, end + 1);
        let rest = runs_from(ic, tied, end + 1);
        assert(runs_from(ic, tied, start) == seq![(start, end)] + rest);
        assert forall|i: int| 0 <= i < runs_from(ic, tied, start).len() implies {
            let run = #[trigger] runs_from(ic, tied, start)[i];
            &&& start <= run.0 <= run.1 < ic.len()
            &&& run.1 == run_end(ic, tied, run.0)
            &&& (i == 0 ==> run.0 == start)
            &&& (i + 1 < runs_from(ic, tied, start).len() ==> runs_from(ic, tied, start)[i + 1].0
                == run.1 + 1)
            &&& (i + 1 == runs_from(ic, tied, start).len() ==> run.1 == ic.len() - 1)
        } by {
            if i > 0 {
                assert(runs_from(ic, tied, start)[i] == rest[i - 1]);
            }
            if i + 1 < runs_from(ic, tied, start).len() {
                assert(runs_from(ic, tied, start)[i + 1] == rest[i]);
            }
            if i == 0 && rest.len() == 0 {
                assert(end + 1 >= ic.len());
            }
        }
    }
}

/// Splits the rows into runs of tied events and sums the event indicators
/// of every run. `tied[r]` says whether the time of row `r` ties with that
/// of row `r + 1`; it is not read for the last row. The result is `None`
/// exactly when a running sum of indicators within a run leaves the `i32`
/// range.
pub fn breslow_runs(ic: &[i32], tied: &[bool]) -> (result: Option<Vec<TieRun>>)
    requires
        tied@.len() == ic@.len(),
    ensures
        result is None <==> !run_sums_fit(ic@, tied@),
        result matches Some(runs) ==> {
            &&& runs@.len() == tie_runs(ic@, tied@).len()
            &&& forall|i: int|
                0 <= i < runs@.len() ==> {
                    &&& (#[trigger] runs@[i]).start == tie_runs(ic@, tied@)[i].0
                    &&& runs@[i].end == tie_runs(ic@, tied@)[i].1
                    &&& runs@[i].events == indicator_sum(
                        ic@,
                        runs@[i].start as int,
                        runs@[i].end + 1,
                    )
                }
            &&& runs_within(runs@, ic@.len())
            &&& ic@.len() > 0 ==> runs@.len() > 0 && runs@[0].start == 0 && runs@[runs@.len()
                - 1].end == ic@.len() - 1
            &&& forall|i: int|
                0 <= i < runs@.len() - 1 ==> #[trigger] runs@[i + 1].start == runs@[i].end + 1
            &&& forall|i: int, r: int|
                #![trigger runs@[i], tied@[r]]
                0 <= i < runs@.len() && runs@[i].start <= r < runs@[i].end ==> tied@[r]
            &&& forall|i: int, r: int|
                #![trigger runs@[i], ic@[r + 1]]
                0 <= i < runs@.len() && runs@[i].start <= r < runs@[i].end ==> ic@[r + 1] >= 1
            &&& forall|i: int|
                #![trigger runs@[i]]
                0 <= i < runs@.len() ==> !(runs@[i].end + 1 < ic@.len() && ic@[runs@[i].end + 1] >= 1
                    && tied@[runs@[i].end as int])
            &&& forall|i: int|
                0 <= i < runs@.len() ==> #[trigger] runs@[i].events == indicator_sum(
                    ic@,
                    runs@[i].start as int,
                    runs@[i].end as int,
                ) + ic@[runs@[i].end as int]
        },
{
    let n = ic.len();
    let ghost all = tie_runs(ic@, tied@);
    let mut runs: Vec<TieRun> = Vec::new();
    let mut start: usize = 0;
    proof {
        lemma_runs_from_shape(ic@, tied@, 0);
    }
    while start < n
        invariant
            n == ic@.len(),
            tied@.len() == n,
            all == tie_runs(ic@, tied@),
            start <= n,
            runs@.len() <= all.len(),
            start < n ==> runs@.len() < all.len() && all[runs@.len() as int].0 == start,
            start == n ==> runs@.len() == all.len(),
            forall|i: int|
                0 <= i < all.len() ==> {
                    let run = #[trigger] all[i];
                    &&& 0 <= run.0 <= run.1 < n
                    &&& run.1 == run_end(ic@, tied@, run.0)
                    &&& (i + 1 < all.len() ==> all[i + 1].0 == run.1 + 1)
                    &&& (i + 1 == all.len() ==> run.1 == n - 1)
                },
            forall|i: int|
                0 <= i < runs@.len() ==> {
                    &&& (#[trigger] runs@[i]).start == all[i].0
                    &&& runs@[i].end == all[i].1
                    &&& runs@[i].events == indicator_sum(
                        ic@,
                        runs@[i].start as int,
                        runs@[i].end + 1,
                    )
                },
            forall|i: int, k: int|
                0 <= i < runs@.len() && all[i].0 <= k <= all[i].1 ==> i32::MIN
                    <= #[trigger] indicator_sum(ic@, all[i].0, k + 1) <= i32::MAX,
        decreases n - start,
    {
        let ghost index = runs@.len() as int;
        proof {
            lemma_run_end_bounds(ic@, tied@, start as int);
        }
        let mut end = start;
        while end + 1 < n && ic[end + 1] >= 1 && tied[end]
            invariant
                n == ic@.len(),
                tied@.len() == n,
                start <= end < n,
                run_end(ic@, tied@, end as int) == run_end(ic@, tied@, start as int),
            decreases n - end,
        {
            end += 1;
        }
        assert(end == all[index].1);
        let events = match run_event_sum(ic, start, end) {
            Some(sum) => sum,
            None => {
                proof {
                    let k = choose|k: int|
                        start <= k <= end && !(i32::MIN <= #[trigger] indicator_sum(
                            ic@,
                            start as int,
                            k + 1,
                        ) <= i32::MAX);
                    if run_sums_fit(ic@, tied@) {
                        assert(i32::MIN <= indicator_sum(ic@, all[index].0, k + 1) <= i32::MAX);
                    }
                }
                return None;
            },
        };
        runs.push(TieRun { start, end, events });
        start = end + 1;
    }
    proof {
        assert forall|i: int, j: int| 0 <= i < j < runs@.len() implies #[trigger] runs@[i].end
            < #[trigger] runs@[j].start by {
            lemma_consecutive_runs_ordered(runs@, i, j);
        }
        assert forall|i: int| #![trigger runs@[i]] 0 <= i < runs@.len() implies runs@[i].start
            < ic@.len() && runs@[i].end == run_end(ic@, tied@, runs@[i].start as int) by {
            assert(all[i].1 == run_end(ic@, tied@, all[i].0));
        }
        lemma_runs_join_exactly(ic@, tied@, runs@);
    }
    Some(runs)
}

/// Within each run every row after the first joins the row before it, and
/// the row after a run does not join it; each run's sum ends with its last
/// row's indicator.
proof fn lemma_run_joins(ic: Seq<i32>, tied: Seq<bool>, start: int, end: int)
    requires
        0 <= start < ic.len(),
        end == run_end(ic, tied, start),
    ensures
        start <= end < ic.len(),
        forall|r: int| start <= r && r < end ==> #[trigger] joins_next(ic, tied, r),
        forall|r: int| start <= r && r < end ==> #[trigger] ic[r + 1] >= 1,
        forall|r: int| start <= r && r < end ==> #[trigger] tied[r],
        !(end + 1 < ic.len() && ic[end + 1] >= 1 && tied[end]),
        indicator_sum(ic, start, end + 1) == indicator_sum(ic, start, end) + ic[end],
{
    lemma_run_end_bounds(ic, tied, start);
    assert forall|r: int| start <= r && r < end implies #[trigger] joins_next(ic, tied, r) by {
        assert(joins_next(ic, tied, r));
    }
    assert forall|r: int| start <= r && r < end implies #[trigger] ic[r + 1] >= 1 by {
        assert(joins_next(ic, tied, r));
    }
    assert forall|r: int| start <= r && r < end implies #[trigger] tied[r] by {
        assert(joins_next(ic, tied, r));
    }
}

proof fn lemma_runs_join_exactly(ic: Seq<i32>, tied: Seq<bool>, runs: Seq<TieRun>)
    requires
        forall|i: int|
            #![trigger runs[i]]
            0 <= i < runs.len() ==> runs[i].start < ic.len() && runs[i].end == run_end(
                ic,
                tied,
                runs[i].start as int,
            ),
    ensures
        forall|i: int, r: int|
            #![trigger runs[i], tied[r]]
            0 <= i < runs.len() && runs[i].start <= r < runs[i].end ==> tied[r],
        forall|i: int, r: int|
            #![trigger runs[i], ic[r + 1]]
            0 <= i < runs.len() && runs[i].start <= r < runs[i].end ==> ic[r + 1] >= 1,
        forall|i: int|
            #![trigger runs[i]]
            0 <= i < runs.len() ==> !(runs[i].end + 1 < ic.len() && ic[runs[i].end + 1] >= 1
                && tied[runs[i].end as int]),
        forall|i: int|
            0 <= i < runs.len() ==> indicator_sum(ic, #[trigger] runs[i].start as int, runs[i].end + 1)
                == indicator_sum(ic, runs[i].start as int, runs[i].end as int) + ic[runs[i].end as int],
{
    assert forall|i: int| #![trigger runs[i]] 0 <= i < runs.len() implies {
        &&& (forall|r: int| runs[i].start <= r < runs[i].end ==> #[trigger] tied[r])
        &&& (forall|r: int| runs[i].start <= r < runs[i].end ==> #[trigger] ic[r + 1] >= 1)
        &&& !(runs[i].end + 1 < ic.len() && ic[runs[i].end + 1] >= 1 && tied[runs[i].end as int])
        &&& indicator_sum(ic, runs[i].start as int, runs[i].end + 1) == indicator_sum(
            ic,
            runs[i].start as int,
            runs[i].end as int,
        ) + ic[runs[i].end as int]
    } by {
        let start = runs[i].start as int;
        let end = runs[i].end as int;
        assert(start < ic.len());
        assert(end == run_end(ic, tied, start));
        lemma_run_joins(ic, tied, start, end);
        assert(!(end + 1 < ic.len() && ic[end + 1] >= 1 && tied[end]));
    }
}

/// Sums the event indicators of rows `start ..= end`, or `None` when a
/// running sum leaves the `i32` range.
fn run_event_sum(ic: &[i32], start: usize, end: usize) -> (result: Option<i32>)
    requires
        start <= end < ic@.len(),
    ensures
        match result {
            Some(sum) => sum == indicator_sum(ic@, start as int, end + 1) && forall|k: int|
                start <= k <= end ==> i32::MIN <= #[trigger] indicator_sum(ic@, start as int, k + 1)
                    <= i32::MAX,
            None => exists|k: int|
                start <= k <= end && !(i32::MIN <= #[trigger] indicator_sum(ic@, start as int, k + 1)
                    <= i32::MAX),
        },
{
    let mut events: i32 = 0;
    let mut row = start;
    while row <= end
        invariant
            start <= row <= end + 1,
            end < ic@.len(),
            events == indicator_sum(ic@, start as int, row as int),
            forall|k: int|
                start <= k < row ==> i32::MIN <= #[trigger] indicator_sum(ic@, start as int, k + 1)
                    <= i32::MAX,
        decreases end + 1 - row,
    {
        assert(indicator_sum(ic@, start as int, row + 1) == indicator_sum(
            ic@,
            start as int,
            row as int,
        ) + ic@[row as int]);
        match events.checked_add(ic[row]) {
            Some(sum) => {
                events = sum;
            },
            None => {
                return None;
            },
        }
        row += 1;
    }
    Some(events)
}

/// Runs that follow one another without gap are ordered.
proof fn lemma_consecutive_runs_ordered(runs: Seq<TieRun>, i: int, j: int)
    requires
        0 <= i < j < runs.len(),
        forall|k: int| 0 <= k < runs.len() ==> #[trigger] runs[k].start <= runs[k].end,
        forall|k: int| 0 <= k < runs.len() - 1 ==> #[trigger] runs[k + 1].start == runs[k].end + 1,
    ensures
        runs[i].end < runs[j].start,
    decreases j - i,
{
    assert(runs[i + 1].start == runs[i].end + 1);
    if i + 1 < j {
        lemma_consecutive_runs_ordered(runs, i + 1, j);
        assert(runs[i + 1].start <= runs[i + 1].end);
    }
}

/// The sum over no rows is zero and over one row is that row's indicator.
pub proof fn lemma_indicator_sum_single(ic: Seq<i32>, row: int)
    ensures
        indicator_sum(ic, row, row) == 0,
        indicator_sum(ic, row, row + 1) == ic[row],
{
    assert(indicator_sum(ic, row, row) == 0);
}

/// The sum of the indicators over `from .. to` splits at any `mid`.
pub proof fn lemma_indicator_sum_split(ic: Seq<i32>, from: int, mid: int, to: int)
    requires
        from <= mid <= to,
    ensures
        indicator_sum(ic, from, to) == indicator_sum(ic, from, mid) + indicator_sum(ic, mid, to),
    decreases to - mid,
{
    if mid < to {
        lemma_indicator_sum_split(ic, from, mid, to - 1);
    }
}

/// Total of the indicator sums of a sequence of runs.
pub open spec fn runs_total(ic: Seq<i32>, runs: Seq<(int, int)>) -> int
    decreases runs.len(),
{
    if runs.len() == 0 {
        0
    } else {
        indicator_sum(ic, runs[0].0, runs[0].1 + 1) + runs_total(ic, runs.drop_first())
    }
}

proof fn lemma_runs_from_total(ic: Seq<i32>, tied: Seq<bool>, start: int)
    requires
        0 <= start <= ic.len(),
    ensures
        runs_total(ic, runs_from(ic, tied, start)) == indicator_sum(ic, start, ic.len() as int),
    decreases ic.len() - start,
{
    if start < ic.len() {
        lemma_run_end_bounds(ic, tied, start);
        let end = run_end(ic, tied, start);
        lemma_runs_from_total(ic, tied, end + 1);
        let whole = runs_from(ic, tied, start);
        assert(whole == seq![(start, end)] + runs_from(ic, tied, end + 1));
        assert(whole.drop_first() == runs_from(ic, tied, end + 1));
        lemma_indicator_sum_split(ic, start, end + 1, ic.len() as int);
    }
}

/// Grouping tied rows into runs loses no event: the run sums add up to the
/// sum of all event indicators.
pub proof fn lemma_tie_runs_keep_event_total(ic: Seq<i32>, tied: Seq<bool>)
    ensures
        runs_total(ic, tie_runs(ic, tied)) == indicator_sum(ic, 0, ic.len() as int),
{
    lemma_runs_from_total(ic, tied, 0);
}

/// The runs that hold at least one event, in order: the event groups.
pub open spec fn has_events(run: TieRun) -> bool {
    run.events != 0
}

/// Keeps the runs whose event indicators do not sum to zero.
pub fn event_groups(runs: &[TieRun]) -> (groups: Vec<TieRun>)
    ensures
        groups@ == runs@.filter(|run: TieRun| has_events(run)),
        groups@ == runs@.filter(|run: TieRun| run.events != 0),
{
    let mut groups: Vec<TieRun> = Vec::new();
    let mut i: usize = 0;
    while i < runs.len()
        invariant
            i <= runs@.len(),
            groups@ == runs@.subrange(0, i as int).filter(|run: TieRun| has_events(run)),
        decreases runs@.len() - i,
    {
        proof {
            reveal_with_fuel(Seq::<_>::filter, 1);
            assert(runs@.subrange(0, i + 1).drop_last() == runs@.subrange(0, i as int));
        }
        let run = runs[i];
        if run.events != 0 {
            groups.push(run);
        }
        i += 1;
    }
    assert(runs@.subrange(0, runs@.len() as int) == runs@);
    assert(runs@.filter(|run: TieRun| has_events(run)) =~= runs@.filter(|run: TieRun| run.events != 0)) by {
        assert((|run: TieRun| has_events(run)) =~= (|run: TieRun| run.events != 0));
    }
    groups
}

/// The runs are in increasing order, do not overlap, and stay inside
/// `rows` rows.
pub open spec fn runs_within(runs: Seq<TieRun>, rows: nat) -> bool {
    &&& forall|i: int| 0 <= i < runs.len() ==> #[trigger] runs[i].start <= runs[i].end < rows
    &&& forall|i: int, j: int| 0 <= i < j < runs.len() ==> #[trigger] runs[i].end < #[trigger] runs[j].start
}

/// Row `row` lies in none of the first `count` runs.
pub open spec fn outside_runs(runs: Seq<TieRun>, count: int, row: int) -> bool {
    forall|i: int| 0 <= i < count ==> !(#[trigger] runs[i].start <= row && row <= runs[i].end)
}

/// Gives every row of a run the weights of the run's last row; rows
/// outside all runs keep theirs.
pub fn propagate_tied_weights<T: Copy>(weights: &mut Matrix<T>, runs: &[TieRun])
    requires
        runs_within(runs@, old(weights).rows()),
    ensures
        final(weights).rows() == old(weights).rows(),
        final(weights).cols() == old(weights).cols(),
        forall|i: int, r: int, c: int|
            0 <= i < runs@.len() && runs@[i].start <= r <= runs@[i].end && 0 <= c < old(weights).cols() ==> #[trigger] final(weights).at(r, c) == old(weights).at(
                #[trigger] runs@[i].end as int,
                c,
            ),
        forall|r: int, c: int|
            0 <= r < old(weights).rows() && 0 <= c < old(weights).cols() && outside_runs(
                runs@,
                runs@.len() as int,
                r,
            ) ==> #[trigger] final(weights).at(r, c) == old(weights).at(r, c),
{
    let ghost initial = *weights;
    let mut i: usize = 0;
    while i < runs.len()
        invariant
            i <= runs@.len(),
            runs_within(runs@, initial.rows()),
            weights.rows() == initial.rows(),
            weights.cols() == initial.cols(),
            forall|k: int, r: int, c: int|
                0 <= k < i && runs@[k].start <= r <= runs@[k].end && 0 <= c < initial.cols()
                    ==> #[trigger] weights.at(r, c) == initial.at(
                    #[trigger] runs@[k].end as int,
                    c,
                ),
            forall|r: int, c: int|
                0 <= r < initial.rows() && 0 <= c < initial.cols() && outside_runs(
                    runs@,
                    i as int,
                    r,
                ) ==> #[trigger] weights.at(r, c) == initial.at(r, c),
        decreases runs@.len() - i,
    {
        let run = runs[i];
        assert(run == runs@[i as int]);
        assert(runs@[i as int].start <= runs@[i as int].end < initial.rows());
        assert(outside_runs(runs@, i as int, run.end as int)) by {
            assert forall|k: int| 0 <= k < i implies !(#[trigger] runs@[k].start <= run.end
                && run.end <= runs@[k].end) by {
                assert(runs@[k].end < runs@[i as int].start);
            }
        }
        if run.end > run.start {
            let last = weights.row(run.end);
            assert forall|c: int| 0 <= c < initial.cols() implies last@[c] == initial.at(
                run.end as int,
                c,
            ) by {
                assert(weights.at(run.end as int, c) == initial.at(run.end as int, c));
            }
            let ghost before = *weights;
            let mut row = run.start;
            while row < run.end
                invariant
                    run == runs@[i as int],
                    i < runs@.len(),
                    runs_within(runs@, initial.rows()),
                    run.start <= row <= run.end,
                    run.end < initial.rows(),
                    weights.rows() == initial.rows(),
                    weights.cols() == initial.cols(),
                    before.rows() == initial.rows(),
                    before.cols() == initial.cols(),
                    last@.len() == initial.cols(),
                    forall|c: int| 0 <= c < initial.cols() ==> last@[c] == initial.at(
                        run.end as int,
                        c,
                    ),
                    forall|r: int, c: int|
                        run.start <= r < row && 0 <= c < initial.cols() ==> #[trigger] weights.at(
                            r,
                            c,
                        ) == initial.at(run.end as int, c),
                    forall|r: int, c: int|
                        0 <= r < initial.rows() && 0 <= c < initial.cols() && !(run.start <= r
                            < row) ==> #[trigger] weights.at(r, c) == before.at(r, c),
                decreases run.end - row,
            {
                weights.set_row(row, last.as_slice());
                row += 1;
            }
        }
        proof {
            assert forall|k: int, r: int, c: int|
                0 <= k < i + 1 && runs@[k].start <= r <= runs@[k].end && 0 <= c < initial.cols()
                    implies #[trigger] weights.at(r, c) == initial.at(
                #[trigger] runs@[k].end as int,
                c,
            ) by {
                if k < i {
                    assert(runs@[k].end < runs@[i as int].start);
                }
            }
            assert forall|r: int, c: int|
                0 <= r < initial.rows() && 0 <= c < initial.cols() && outside_runs(
                    runs@,
                    i + 1,
                    r,
                ) implies #[trigger] weights.at(r, c) == initial.at(r, c) by {
                assert(outside_runs(runs@, i as int, r)) by {
                    assert forall|k: int| 0 <= k < i implies !(#[trigger] runs@[k].start <= r
                        && r <= runs@[k].end) by {
                        assert(!(runs@[k].start <= r && r <= runs@[k].end));
                    }
                }
                assert(!(runs@[i as int].start <= r && r <= runs@[i as int].end));
            }
        }
        i += 1;
    }
}

/// Total of the event sums carried by a sequence of runs.
pub open spec fn events_total(runs: Seq<TieRun>) -> int
    decreases runs.len(),
{
    if runs.len() == 0 {
        0
    } else {
        runs[0].events + events_total(runs.drop_first())
    }
}

proof fn lemma_events_total_matches(ic: Seq<i32>, runs: Seq<TieRun>, spans: Seq<(int, int)>)
    requires
        runs.len() == spans.len(),
        forall|i: int|
            0 <= i < runs.len() ==> (#[trigger] runs[i]).events == indicator_sum(
                ic,
                spans[i].0,
                spans[i].1 + 1,
            ),
    ensures
        events_total(runs) == runs_total(ic, spans),
    decreases runs.len(),
{
    if runs.len() > 0 {
        let rest = runs.drop_first();
        let rest_spans = spans.drop_first();
        assert forall|i: int| 0 <= i < rest.len() implies (#[trigger] rest[i]).events
            == indicator_sum(ic, rest_spans[i].0, rest_spans[i].1 + 1) by {
            assert(rest[i] == runs[i + 1]);
        }
        lemma_events_total_matches(ic, rest, rest_spans);
        assert(runs[0].events == indicator_sum(ic, spans[0].0, spans[0].1 + 1));
    }
}

proof fn lemma_events_total_filter(runs: Seq<TieRun>)
    ensures
        events_total(runs.filter(|run: TieRun| has_events(run))) == events_total(runs),
    decreases runs.len(),
{
    let keep = |run: TieRun| has_events(run);
    if runs.len() > 0 {
        let rest = runs.drop_first();
        lemma_events_total_filter(rest);
        assert(runs == seq![runs[0]] + rest);
        rest.lemma_filter_prepend(runs[0], keep);
        let kept_rest = rest.filter(keep);
        if has_events(runs[0]) {
            let kept = seq![runs[0]] + kept_rest;
            assert(kept.drop_first() == kept_rest);
            assert(events_total(kept) == runs[0].events + events_total(kept_rest));
        }
    }
}

/// The event groups carry every event: their event sums add up to the sum
/// of all event indicators, although the runs without events are dropped.
pub proof fn lemma_event_groups_keep_event_total(
    ic: Seq<i32>,
    tied: Seq<bool>,
    runs: Seq<TieRun>,
    groups: Seq<TieRun>,
)
    requires
        runs.len() == tie_runs(ic, tied).len(),
        forall|i: int|
            0 <= i < runs.len() ==> {
                &&& (#[trigger] runs[i]).start == tie_runs(ic, tied)[i].0
                &&& runs[i].end == tie_runs(ic, tied)[i].1
                &&& runs[i].events == indicator_sum(ic, runs[i].start as int, runs[i].end + 1)
            },
        groups == runs.filter(|run: TieRun| has_events(run)),
    ensures
        events_total(groups) == indicator_sum(ic, 0, ic.len() as int),
{
    lemma_events_total_matches(ic, runs, tie_runs(ic, tied));
    lemma_events_total_filter(runs);
    lemma_tie_runs_keep_event_total(ic, tied);
}

/// The last row of the block of rows that share the time of row `row`,
/// where `same[q]` says that row `q` has the time of row `q - 1`.
pub open spec fn block_end(same: Seq<bool>, row: int) -> int
    decreases same.len() - row,
{
    if 0 <= row && row + 1 < same.len() && same[row + 1] {
        block_end(same, row + 1)
    } else {
        row
    }
}

/// The events attributed to row `row` when rows are swept from the last:
/// the first row of a block of equal times takes the events of the whole
/// block, the others take none.
pub open spec fn attributed_events(ic: Seq<i32>, same: Seq<bool>, row: int) -> int {
    if row > 0 && same[row] {
        0
    } else {
        indicator_sum(ic, row, block_end(same, row) + 1)
    }
}

proof fn lemma_block_end_bounds(same: Seq<bool>, row: int)
    requires
        0 <= row < same.len(),
    ensures
        row <= block_end(same, row) < same.len(),
        forall|q: int| row < q <= block_end(same, row) ==> #[trigger] same[q],
        block_end(same, row) + 1 < same.len() ==> !same[block_end(same, row) + 1],
    decreases same.len() - row,
{
    if row + 1 < same.len() && same[row + 1] {
        lemma_block_end_bounds(same, row + 1);
    }
}

/// The events attributed to every row by a backward sweep over rows sorted
/// by time (`same[r]`: row `r` has the time of row `r - 1`), or `None` when
/// a running sum of a block's indicators leaves the `i32` range.
pub fn tied_event_counts(ic: &[i32], same: &[bool]) -> (result: Option<Vec<i32>>)
    requires
        same@.len() == ic@.len(),
    ensures
        result is None <==> exists|r: int|
            0 <= r < ic@.len() && !(i32::MIN <= #[trigger] indicator_sum(
                ic@,
                r,
                block_end(same@, r) + 1,
            ) <= i32::MAX),
        result matches Some(counts) ==> counts@.len() == ic@.len() && forall|r: int|
            0 <= r < ic@.len() ==> #[trigger] counts@[r] == attributed_events(ic@, same@, r),
        result matches Some(counts) ==> forall|r: int|
            0 < r < ic@.len() && same@[r] ==> #[trigger] counts@[r] == 0,
{
    let n = ic.len();
    let mut counts: Vec<i32> = Vec::with_capacity(n);
    let mut i: usize = 0;
    while i < n
        invariant
            i <= n,
            counts@.len() == i,
        decreases n - i,
    {
        counts.push(0);
        i += 1;
    }
    let mut tied: i32 = 0;
    let mut next: usize = n;
    while next > 0
        invariant
            n == ic@.len(),
            same@.len() == n,
            next <= n,
            counts@.len() == n,
            tied == (if 0 < next < n && same@[next as int] {
                indicator_sum(ic@, next as int, block_end(same@, next as int) + 1)
            } else {
                0
            }),
            forall|r: int| next <= r < n ==> #[trigger] counts@[r] == attributed_events(ic@, same@, r),
            forall|r: int|
                next <= r < n ==> i32::MIN <= #[trigger] indicator_sum(
                    ic@,
                    r,
                    block_end(same@, r) + 1,
                ) <= i32::MAX,
        decreases next,
    {
        let row = next - 1;
        proof {
            lemma_block_end_bounds(same@, row as int);
            let end = block_end(same@, row as int);
            lemma_indicator_sum_split(ic@, row as int, row + 1, end + 1);
            assert(indicator_sum(ic@, row as int, row + 1) == ic@[row as int]) by {
                assert(indicator_sum(ic@, row as int, row as int) == 0);
            }
            if row + 1 < n && same@[row + 1] {
                assert(end == block_end(same@, row + 1));
            } else {
                assert(end == row);
                assert(indicator_sum(ic@, row + 1, end + 1) == 0);
            }
        }
        let total = match tied.checked_add(ic[row]) {
            Some(value) => value,
            None => {
                return None;
            },
        };
        if row > 0 && same[row] {
            counts.set(row, 0);
            tied = total;
        } else {
            counts.set(row, total);
            tied = 0;
        }
        next = row;
    }
    Some(counts)
}

/// Sum of the attributed events of rows `from ..`.
pub open spec fn attributed_total(ic: Seq<i32>, same: Seq<bool>, from: int) -> int
    decreases ic.len() - from,
{
    if from < 0 || from >= ic.len() {
        0
    } else {
        attributed_events(ic, same, from) + attributed_total(ic, same, from + 1)
    }
}

proof fn lemma_block_rows_attribute_nothing(ic: Seq<i32>, same: Seq<bool>, from: int, end: int)
    requires
        0 < from <= end + 1,
        end < ic.len(),
        same.len() == ic.len(),
        forall|q: int| from <= q <= end ==> #[trigger] same[q],
    ensures
        attributed_total(ic, same, from) == attributed_total(ic, same, end + 1),
    decreases end + 1 - from,
{
    if from <= end {
        lemma_block_rows_attribute_nothing(ic, same, from + 1, end);
        assert(attributed_events(ic, same, from) == 0);
    }
}

proof fn lemma_attributed_total_from_block(ic: Seq<i32>, same: Seq<bool>, start: int)
    requires
        same.len() == ic.len(),
        0 <= start <= ic.len(),
        start == 0 || start == ic.len() || !same[start],
    ensures
        attributed_total(ic, same, start) == indicator_sum(ic, start, ic.len() as int),
    decreases ic.len() - start,
{
    if start < ic.len() {
        lemma_block_end_bounds(same, start);
        let end = block_end(same, start);
        lemma_block_rows_attribute_nothing(ic, same, start + 1, end);
        lemma_attributed_total_from_block(ic, same, end + 1);
        lemma_indicator_sum_split(ic, start, end + 1, ic.len() as int);
    }
}

/// Attributing the events of each block of equal times to its first row
/// loses no event.
pub proof fn lemma_attributed_events_keep_total(ic: Seq<i32>, same: Seq<bool>)
    requires
        same.len() == ic.len(),
    ensures
        attributed_total(ic, same, 0) == indicator_sum(ic, 0, ic.len() as int),
{
    lemma_attributed_total_from_block(ic, same, 0);
}

} // verus!
