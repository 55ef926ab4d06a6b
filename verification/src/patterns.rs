//! Compaction of repeated design rows into distinct patterns.
//!
//! Rows are compared by a key per entry (the bit pattern of the value, with
//! both zeros mapped to the same key). Each row is labelled with the number
//! of its pattern; patterns are numbered in the order in which their first
//! row appears. Compaction pays off only when patterns repeat often, so it
//! is abandoned once more than `maximum_patterns(n)` patterns show up.

use vstd::prelude::*;
use std::collections::HashMap;
use crate::matrix::Matrix;

verus! {

broadcast use vstd::std_specs::hash::group_hash_axioms;

/// The largest number of patterns worth keeping for `n` rows: one per eight
/// rows, at least one, and never more than a `u32` can number.
pub open spec fn maximum_patterns_spec(n: nat) -> nat {
    let per_eight: nat = if n / 8 >= 1 { n / 8 } else { 1 };
    if per_eight <= u32::MAX { per_eight } else { u32::MAX as nat }
}

/// Rows `a` and `b` carry the same key in every column.
pub open spec fn same_key(keys: Matrix<u64>, a: int, b: int) -> bool {
    forall|c: int| 0 <= c < keys.cols() ==> #[trigger] keys.at(a, c) == keys.at(b, c)
}

/// Two rows share their keys exactly when they agree in every column.
pub proof fn lemma_same_key_is_every_column(keys: Matrix<u64>, a: int, b: int)
    ensures
        same_key(keys, a, b) <==> forall|c: int| 0 <= c < keys.cols() ==> keys.at(a, c) == keys.at(
            b,
            c,
        ),
{
}

/// No row before `row` carries the key of `row`.
pub open spec fn first_occurrence(keys: Matrix<u64>, row: int) -> bool {
    forall|q: int| 0 <= q < row ==> !#[trigger] same_key(keys, q, row)
}

/// The rows among the first `m` that carry a key not seen before them, in
/// increasing order: the representative row of each pattern, in pattern
/// order.
pub open spec fn first_rows(keys: Matrix<u64>, m: nat) -> Seq<int>
    decreases m,
{
    if m == 0 {
        Seq::empty()
    } else {
        let earlier = first_rows(keys, (m - 1) as nat);
        if first_occurrence(keys, m - 1) {
            earlier.push(m - 1)
        } else {
            earlier
        }
    }
}

/// Looking at more rows never finds fewer patterns.
pub proof fn lemma_first_rows_grow(keys: Matrix<u64>, m: nat, n: nat)
    requires
        m <= n,
    ensures
        first_rows(keys, m).len() <= first_rows(keys, n).len(),
    decreases n - m,
{
    if m < n {
        lemma_first_rows_grow(keys, m, (n - 1) as nat);
    }
}

/// The distinct design rows and, for every row, the number of its pattern.
pub struct PatternData<T> {
    pub row_pattern: Vec<u32>,
    pub patterns: Matrix<T>,
}

/// The largest number of patterns worth keeping for `n` rows.
pub fn maximum_patterns(n: usize) -> (maximum: usize)
    ensures
        maximum == maximum_patterns_spec(n as nat),
        1 <= maximum <= u32::MAX,
        n < 8 ==> maximum == 1,
        8 <= n && n / 8 <= u32::MAX ==> maximum == n / 8,
        n / 8 > u32::MAX ==> maximum == u32::MAX,
{
    let per_eight = if n / 8 >= 1 { n / 8 } else { 1 };
    if per_eight <= u32::MAX as usize {
        per_eight
    } else {
        u32::MAX as usize
    }
}

/// The hash of one key sequence, folded entry by entry.
pub open spec fn key_fingerprint(values: Seq<u64>) -> u64
    decreases values.len(),
{
    if values.len() == 0 {
        0xcbf2_9ce4_8422_2325u64
    } else {
        vstd::wrapping::u64_specs::wrapping_add(
            vstd::wrapping::u64_specs::wrapping_mul(
                key_fingerprint(values.drop_last()),
                0x0000_0100_0000_01b3u64,
            ),
            values.last(),
        )
    }
}

/// The keys of row `row`, column by column.
pub open spec fn row_keys(keys: Matrix<u64>, row: int) -> Seq<u64> {
    Seq::new(keys.cols(), |c: int| keys.at(row, c))
}

/// Rows with the same keys share a fingerprint.
proof fn lemma_same_key_same_fingerprint(keys: Matrix<u64>, a: int, b: int)
    requires
        same_key(keys, a, b),
    ensures
        key_fingerprint(row_keys(keys, a)) == key_fingerprint(row_keys(keys, b)),
{
    assert(row_keys(keys, a) =~= row_keys(keys, b));
}

/// The fingerprint of the keys of row `row`.
fn row_fingerprint(keys: &Matrix<u64>, row: usize) -> (hash: u64)
    requires
        row < keys.rows(),
    ensures
        hash == key_fingerprint(row_keys(*keys, row as int)),
{
    let ncol = keys.ncol();
    let mut hash: u64 = 0xcbf2_9ce4_8422_2325u64;
    let mut col: usize = 0;
    while col < ncol
        invariant
            row < keys.rows(),
            ncol == keys.cols(),
            col <= ncol,
            hash == key_fingerprint(row_keys(*keys, row as int).subrange(0, col as int)),
        decreases ncol - col,
    {
        let ghost prefix = row_keys(*keys, row as int).subrange(0, col as int);
        let ghost longer = row_keys(*keys, row as int).subrange(0, col + 1);
        assert(longer.drop_last() =~= prefix);
        hash = hash.wrapping_mul(0x0000_0100_0000_01b3u64).wrapping_add(keys.get(row, col));
        col += 1;
    }
    assert(row_keys(*keys, row as int).subrange(0, ncol as int) =~= row_keys(*keys, row as int));
    hash
}

/// Whether rows `a` and `b` carry the same keys.
fn rows_share_key(keys: &Matrix<u64>, a: usize, b: usize) -> (same: bool)
    requires
        a < keys.rows(),
        b < keys.rows(),
    ensures
        same == same_key(*keys, a as int, b as int),
{
    let ncol = keys.ncol();
    let mut col: usize = 0;
    while col < ncol
        invariant
            a < keys.rows(),
            b < keys.rows(),
            ncol == keys.cols(),
            col <= ncol,
            forall|c: int| 0 <= c < col ==> #[trigger] keys.at(a as int, c) == keys.at(b as int, c),
        decreases ncol - col,
    {
        if keys.get(a, col) != keys.get(b, col) {
            return false;
        }
        col += 1;
    }
    true
}

/// Searches one bucket of pattern numbers for a pattern whose
/// representative row carries the keys of `row`.
fn find_in_bucket(
    keys: &Matrix<u64>,
    bucket: &Vec<u32>,
    pattern_rows: &Vec<usize>,
    row: usize,
) -> (found: Option<u32>)
    requires
        row < keys.rows(),
        forall|i: int| 0 <= i < bucket@.len() ==> bucket@[i] < pattern_rows@.len(),
        forall|i: int| 0 <= i < pattern_rows@.len() ==> pattern_rows@[i] < keys.rows(),
    ensures
        match found {
            Some(id) => bucket@.contains(id) && same_key(
                *keys,
                pattern_rows@[id as int] as int,
                row as int,
            ),
            None => forall|i: int|
                0 <= i < bucket@.len() ==> !same_key(
                    *keys,
                    pattern_rows@[bucket@[i] as int] as int,
                    row as int,
                ),
        },
{
    let mut i: usize = 0;
    while i < bucket.len()
        invariant
            row < keys.rows(),
            i <= bucket@.len(),
            forall|m: int| 0 <= m < bucket@.len() ==> bucket@[m] < pattern_rows@.len(),
            forall|m: int| 0 <= m < pattern_rows@.len() ==> pattern_rows@[m] < keys.rows(),
            forall|m: int|
                0 <= m < i ==> !same_key(*keys, pattern_rows@[bucket@[m] as int] as int, row as int),
        decreases bucket@.len() - i,
    {
        let id = bucket[i];
        if rows_share_key(keys, pattern_rows[id as usize], row) {
            assert(bucket@[i as int] == id);
            return Some(id);
        }
        i += 1;
    }
    None
}

/// The representatives are increasing row numbers below `m`, and each one
/// is the first row with its keys.
pub proof fn lemma_first_rows_shape(keys: Matrix<u64>, m: nat)
    ensures
        first_rows(keys, m).len() <= m,
        forall|i: int|
            0 <= i < first_rows(keys, m).len() ==> 0 <= #[trigger] first_rows(keys, m)[i] < m
                && first_occurrence(keys, first_rows(keys, m)[i]),
        forall|i: int, j: int|
            0 <= i < j < first_rows(keys, m).len() ==> #[trigger] first_rows(keys, m)[i]
                < #[trigger] first_rows(keys, m)[j],
    decreases m,
{
    if m > 0 {
        lemma_first_rows_shape(keys, (m - 1) as nat);
    }
}

/// Sharing keys is symmetric and transitive.
proof fn lemma_same_key_chain(keys: Matrix<u64>, a: int, b: int, c: int)
    ensures
        same_key(keys, a, b) ==> same_key(keys, b, a),
        same_key(keys, a, b) && same_key(keys, b, c) ==> same_key(keys, a, c),
{
    if same_key(keys, a, b) {
        assert forall|col: int| 0 <= col < keys.cols() implies #[trigger] keys.at(b, col) == keys.at(
            a,
            col,
        ) by {
            assert(keys.at(a, col) == keys.at(b, col));
        }
        if same_key(keys, b, c) {
            assert forall|col: int| 0 <= col < keys.cols() implies #[trigger] keys.at(a, col)
                == keys.at(c, col) by {
                assert(keys.at(a, col) == keys.at(b, col));
                assert(keys.at(b, col) == keys.at(c, col));
            }
        }
    }
}

/// Builds the representative matrix from the first row of every pattern.
fn finish_pattern_data<T: Copy>(
    x: &Matrix<T>,
    row_pattern: Vec<u32>,
    pattern_rows: &Vec<usize>,
) -> (data: PatternData<T>)
    requires
        pattern_rows@.len() <= x.rows(),
        forall|i: int| 0 <= i < pattern_rows@.len() ==> pattern_rows@[i] < x.rows(),
    ensures
        data.row_pattern@ == row_pattern@,
        data.patterns.rows() == pattern_rows@.len(),
        data.patterns.cols() == x.cols(),
        forall|i: int, c: int|
            0 <= i < pattern_rows@.len() && 0 <= c < x.cols() ==> #[trigger] data.patterns.at(i, c)
                == x.at(pattern_rows@[i] as int, c),
{
    let count = pattern_rows.len();
    let ncol = x.ncol();
    proof {
        assert(count * ncol <= x.rows() * x.cols()) by (nonlinear_arith)
            requires count <= x.rows(), ncol == x.cols();
    }
    let mut patterns = if count == 0 || ncol == 0 {
        let empty: Vec<T> = Vec::new();
        proof {
            assert(count * ncol == 0) by (nonlinear_arith)
                requires count == 0 || ncol == 0;
        }
        Matrix::from_col_major(empty.as_slice(), count, ncol)
    } else {
        Matrix::zeros(count, ncol, x.get(pattern_rows[0], 0))
    };
    let mut i: usize = 0;
    while i < count
        invariant
            count == pattern_rows@.len(),
            ncol == x.cols(),
            i <= count,
            patterns.rows() == count,
            patterns.cols() == ncol,
            forall|m: int| 0 <= m < pattern_rows@.len() ==> pattern_rows@[m] < x.rows(),
            forall|m: int, c: int|
                0 <= m < i && 0 <= c < ncol ==> #[trigger] patterns.at(m, c) == x.at(
                    pattern_rows@[m] as int,
                    c,
                ),
        decreases count - i,
    {
        let values = x.row(pattern_rows[i]);
        patterns.set_row(i, values.as_slice());
        i += 1;
    }
    PatternData { row_pattern, patterns }
}

/// Compacts the rows of `x` into patterns of equal keys, or gives up with
/// `None` once more than `maximum_patterns(n)` distinct patterns appear.
/// `keys` holds one key per entry of `x`; rows with equal keys in every
/// column share a pattern.
pub fn build_pattern_data<T: Copy>(x: &Matrix<T>, keys: &Matrix<u64>) -> (result: Option<
    PatternData<T>,
>)
    requires
        keys.rows() == x.rows(),
    ensures
        match result {
            None => first_rows(*keys, x.rows()).len() > maximum_patterns_spec(x.rows()),
            Some(data) => {
                let reps = first_rows(*keys, x.rows());
                &&& reps.len() <= maximum_patterns_spec(x.rows())
                &&& data.patterns.rows() == reps.len()
                &&& data.patterns.cols() == x.cols()
                &&& forall|i: int, c: int|
                    0 <= i < reps.len() && 0 <= c < x.cols() ==> #[trigger] data.patterns.at(i, c)
                        == x.at(reps[i], c)
                &&& data.row_pattern@.len() == x.rows()
                &&& forall|r: int|
                    0 <= r < x.rows() ==> #[trigger] data.row_pattern@[r] < reps.len() && same_key(
                        *keys,
                        reps[data.row_pattern@[r] as int],
                        r,
                    )
                &&& forall|r1: int, r2: int|
                    0 <= r1 < x.rows() && 0 <= r2 < x.rows() ==> (#[trigger] data.row_pattern@[r1]
                        == #[trigger] data.row_pattern@[r2] <==> same_key(*keys, r1, r2))
                &&& forall|r1: int, r2: int, c: int|
                    0 <= r1 < x.rows() && 0 <= r2 < x.rows() && 0 <= c < keys.cols()
                        && #[trigger] data.row_pattern@[r1] == #[trigger] data.row_pattern@[r2]
                        ==> #[trigger] keys.at(r1, c) == keys.at(r2, c)
                &&& forall|r1: int, r2: int|
                    0 <= r1 < x.rows() && 0 <= r2 < x.rows() && (forall|c: int|
                        0 <= c < keys.cols() ==> keys.at(r1, c) == keys.at(r2, c))
                        ==> #[trigger] data.row_pattern@[r1] == #[trigger] data.row_pattern@[r2]
                &&& forall|r: int, c: int|
                    0 <= r < x.rows() && 0 <= c < keys.cols() ==> #[trigger] keys.at(
                        reps[#[trigger] data.row_pattern@[r] as int],
                        c,
                    ) == keys.at(r, c)
            },
        },
{
    let n = x.nrow();
    let maximum = maximum_patterns(n);
    let mut lookup: HashMap<u64, Vec<u32>> = HashMap::new();
    let mut row_pattern: Vec<u32> = Vec::with_capacity(n);
    let mut pattern_rows: Vec<usize> = Vec::new();
    let mut row: usize = 0;
    while row < n
        invariant
            n == x.rows(),
            n == keys.rows(),
            row <= n,
            maximum == maximum_patterns_spec(n as nat),
            maximum <= u32::MAX,
            pattern_rows@.len() <= maximum,
            pattern_rows@.len() == first_rows(*keys, row as nat).len(),
            forall|i: int|
                0 <= i < pattern_rows@.len() ==> #[trigger] pattern_rows@[i] as int == first_rows(
                    *keys,
                    row as nat,
                )[i],
            forall|i: int| 0 <= i < pattern_rows@.len() ==> pattern_rows@[i] < row,
            row_pattern@.len() == row,
            forall|r: int|
                0 <= r < row ==> #[trigger] row_pattern@[r] < pattern_rows@.len() && same_key(
                    *keys,
                    pattern_rows@[row_pattern@[r] as int] as int,
                    r,
                ),
            forall|h: u64|
                #[trigger] lookup@.contains_key(h) ==> forall|j: int|
                    0 <= j < lookup@[h]@.len() ==> #[trigger] lookup@[h]@[j]
                        < pattern_rows@.len(),
            forall|i: int|
                0 <= i < pattern_rows@.len() ==> {
                    let h = key_fingerprint(row_keys(*keys, #[trigger] pattern_rows@[i] as int));
                    &&& lookup@.contains_key(h)
                    &&& lookup@[h]@.contains(i as u32)
                },
        decreases n - row,
    {
        proof {
            lemma_first_rows_shape(*keys, row as nat);
        }
        let hash = row_fingerprint(keys, row);
        let found = match lookup.get(&hash) {
            Some(bucket) => find_in_bucket(keys, bucket, &pattern_rows, row),
            None => None,
        };
        let ghost reps = first_rows(*keys, row as nat);
        let pattern = match found {
            Some(id) => {
                proof {
                    let rep = pattern_rows@[id as int] as int;
                    assert(!first_occurrence(*keys, row as int)) by {
                        assert(same_key(*keys, rep, row as int));
                    }
                    assert(first_rows(*keys, (row + 1) as nat) == reps);
                }
                id
            },
            None => {
                proof {
                    assert forall|q: int| 0 <= q < row implies !#[trigger] same_key(
                        *keys,
                        q,
                        row as int,
                    ) by {
                        if same_key(*keys, q, row as int) {
                            let id = row_pattern@[q];
                            let rep = pattern_rows@[id as int] as int;
                            assert(same_key(*keys, rep, q));
                            assert(same_key(*keys, rep, row as int)) by {
                                assert forall|c: int| 0 <= c < keys.cols() implies #[trigger] keys.at(
                                    rep,
                                    c,
                                ) == keys.at(row as int, c) by {
                                    assert(keys.at(rep, c) == keys.at(q, c));
                                    assert(keys.at(q, c) == keys.at(row as int, c));
                                }
                            }
                            lemma_same_key_same_fingerprint(*keys, rep, row as int);
                            assert(pattern_rows@[id as int] as int == rep);
                            assert(lookup@.contains_key(hash));
                            assert(lookup@[hash]@.contains(id));
                            let j = choose|j: int| 0 <= j < lookup@[hash]@.len() && lookup@[hash]@[j]
                                == id;
                            assert(!same_key(*keys, pattern_rows@[lookup@[hash]@[j] as int] as int, row as int));
                        }
                    }
                    assert(first_occurrence(*keys, row as int));
                    assert(first_rows(*keys, (row + 1) as nat) == reps.push(row as int));
                }
                if pattern_rows.len() >= maximum {
                    proof {
                        lemma_first_rows_grow(*keys, (row + 1) as nat, n as nat);
                    }
                    return None;
                }
                let id = pattern_rows.len() as u32;
                let ghost old_lookup = lookup@;
                let ghost old_rows = pattern_rows@;
                pattern_rows.push(row);
                let mut bucket = match lookup.remove(&hash) {
                    Some(existing) => existing,
                    None => Vec::new(),
                };
                let ghost old_bucket = bucket@;
                assert(old_lookup.contains_key(hash) ==> old_bucket == old_lookup[hash]@);
                assert(!old_lookup.contains_key(hash) ==> old_bucket.len() == 0);
                bucket.push(id);
                let ghost new_bucket = bucket;
                lookup.insert(hash, bucket);
                proof {
                    assert(lookup@ == old_lookup.insert(hash, new_bucket));
                    assert(new_bucket@ == old_bucket.push(id));
                    assert forall|i: int| 0 <= i < pattern_rows@.len() implies #[trigger] pattern_rows@[i]
                        as int == first_rows(*keys, (row + 1) as nat)[i] by {
                        if i < old_rows.len() {
                            assert(pattern_rows@[i] == old_rows[i]);
                        }
                    }
                    assert forall|h: u64| #[trigger] lookup@.contains_key(h) implies forall|j: int|
                        0 <= j < lookup@[h]@.len() ==> #[trigger] lookup@[h]@[j]
                            < pattern_rows@.len() by {
                        if h != hash {
                            assert(lookup@[h] == old_lookup[h]);
                        }
                    }
                    assert forall|i: int| 0 <= i < pattern_rows@.len() implies {
                        let h = key_fingerprint(row_keys(*keys, #[trigger] pattern_rows@[i] as int));
                        &&& lookup@.contains_key(h)
                        &&& lookup@[h]@.contains(i as u32)
                    } by {
                        let h = key_fingerprint(row_keys(*keys, pattern_rows@[i] as int));
                        if i < old_rows.len() {
                            assert(pattern_rows@[i] == old_rows[i]);
                            assert(old_lookup.contains_key(h));
                            assert(old_lookup[h]@.contains(i as u32));
                            if h == hash {
                                let k = choose|k: int| 0 <= k < old_bucket.len() && old_bucket[k]
                                    == i as u32;
                                assert(lookup@[h]@[k] == i as u32);
                            } else {
                                assert(lookup@[h] == old_lookup[h]);
                            }
                        } else {
                            assert(pattern_rows@[i] == row);
                            assert(lookup@[hash]@[old_bucket.len() as int] == id);
                        }
                    }
                }
                id
            },
        };
        row_pattern.push(pattern);
        row += 1;
    }
    proof {
        lemma_first_rows_shape(*keys, n as nat);
        let reps = first_rows(*keys, n as nat);
        assert forall|r1: int, r2: int|
            0 <= r1 < n && 0 <= r2 < n implies (#[trigger] row_pattern@[r1]
            == #[trigger] row_pattern@[r2] <==> same_key(*keys, r1, r2)) by {
            let i1 = row_pattern@[r1] as int;
            let i2 = row_pattern@[r2] as int;
            let a = reps[i1];
            let b = reps[i2];
            assert(pattern_rows@[i1] as int == a);
            assert(pattern_rows@[i2] as int == b);
            lemma_same_key_chain(*keys, a, r1, r2);
            lemma_same_key_chain(*keys, r1, a, r2);
            lemma_same_key_chain(*keys, a, r2, b);
            lemma_same_key_chain(*keys, r2, b, a);
            lemma_same_key_chain(*keys, a, r1, b);
            lemma_same_key_chain(*keys, b, r2, r1);
            lemma_same_key_chain(*keys, r1, r2, b);
            lemma_same_key_chain(*keys, a, b, a);
            lemma_same_key_chain(*keys, b, a, b);
            if same_key(*keys, r1, r2) && i1 != i2 {
                assert(same_key(*keys, a, b));
                if i1 < i2 {
                    assert(a < b);
                    assert(first_occurrence(*keys, b));
                    assert(!same_key(*keys, a, b));
                } else {
                    assert(b < a);
                    assert(first_occurrence(*keys, a));
                    assert(!same_key(*keys, b, a));
                }
            }
        }
    }
    Some(finish_pattern_data(x, row_pattern, &pattern_rows))
}

} // verus!
