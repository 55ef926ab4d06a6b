//! Set-up of the coefficient vector before the Newton-Raphson iterations.
//!
//! Every coefficient carries a flag: `1` estimates it from zero, `0` fixes
//! it at its offset, and `2` starts it at its offset and then estimates it.

use vstd::prelude::*;

verus! {

/// The coefficient a flag starts from: the offset for flags `0` and `2`,
/// `zero` otherwise.
pub open spec fn starting_value<T>(flag: i32, offset: T, zero: T) -> T {
    if flag == 0 || flag == 2 {
        offset
    } else {
        zero
    }
}

/// The flag a coefficient is estimated under: `2` becomes `1`, every other
/// flag stays.
pub open spec fn estimation_flag(flag: i32) -> i32 {
    if flag == 2 {
        1
    } else {
        flag
    }
}

/// Starts every coefficient from its offset or from `zero` as its flag
/// says, and turns the flags `2` into `1`.
pub fn initialize_coefficients<T: Copy>(flags: &mut Vec<i32>, offsets: &[T], zero: T) -> (coefficients: Vec<T>)
    requires
        old(flags)@.len() == offsets@.len(),
    ensures
        coefficients@.len() == offsets@.len(),
        final(flags)@.len() == old(flags)@.len(),
        forall|j: int| 0 <= j < offsets@.len() ==> #[trigger] coefficients@[j] == starting_value(
            old(flags)@[j],
            offsets@[j],
            zero,
        ),
        forall|j: int| 0 <= j < offsets@.len() ==> #[trigger] final(flags)@[j] == estimation_flag(
            old(flags)@[j],
        ),
        forall|j: int|
            0 <= j < offsets@.len() ==> #[trigger] coefficients@[j] == (if old(flags)@[j] == 0
                || old(flags)@[j] == 2 {
                offsets@[j]
            } else {
                zero
            }),
        forall|j: int|
            0 <= j < offsets@.len() ==> #[trigger] final(flags)@[j] == (if old(flags)@[j] == 2 {
                1
            } else {
                old(flags)@[j]
            }),
{
    let ghost initial = flags@;
    let mut coefficients: Vec<T> = Vec::with_capacity(offsets.len());
    let mut j: usize = 0;
    while j < offsets.len()
        invariant
            j <= offsets@.len(),
            flags@.len() == initial.len(),
            initial.len() == offsets@.len(),
            coefficients@.len() == j,
            forall|m: int| 0 <= m < j ==> #[trigger] coefficients@[m] == starting_value(
                initial[m],
                offsets@[m],
                zero,
            ),
            forall|m: int| 0 <= m < j ==> #[trigger] flags@[m] == estimation_flag(initial[m]),
            forall|m: int| j <= m < flags@.len() ==> #[trigger] flags@[m] == initial[m],
        decreases offsets@.len() - j,
    {
        let flag = flags[j];
        if flag == 0 {
            coefficients.push(offsets[j]);
        } else if flag == 2 {
            coefficients.push(offsets[j]);
            flags.set(j, 1);
        } else {
            coefficients.push(zero);
        }
        j += 1;
    }
    coefficients
}

/// The sum of the flags, or `None` when a running sum leaves the `i32`
/// range.
pub fn flag_sum(flags: &[i32]) -> (sum: Option<i32>)
    ensures
        sum matches Some(s) ==> s == flags_total(flags@, flags@.len() as int),
        sum is None <==> exists|m: int|
            0 <= m < flags@.len() && !(i32::MIN <= #[trigger] flags_total(flags@, m + 1)
                <= i32::MAX),
{
    let mut total: i32 = 0;
    let mut j: usize = 0;
    while j < flags.len()
        invariant
            j <= flags@.len(),
            total == flags_total(flags@, j as int),
            forall|m: int| 0 <= m < j ==> i32::MIN <= #[trigger] flags_total(flags@, m + 1)
                <= i32::MAX,
        decreases flags@.len() - j,
    {
        match total.checked_add(flags[j]) {
            Some(next) => {
                total = next;
            },
            None => {
                assert(flags_total(flags@, j + 1) == flags_total(flags@, j as int) + flags@[j as int]);
                assert(!(i32::MIN <= flags_total(flags@, j + 1) <= i32::MAX));
                return None;
            },
        }
        j += 1;
    }
    Some(total)
}

/// Sum of the first `m` flags.
pub open spec fn flags_total(flags: Seq<i32>, m: int) -> int
    decreases m,
{
    if m <= 0 {
        0
    } else {
        flags_total(flags, m - 1) + flags[m - 1]
    }
}

} // verus!
