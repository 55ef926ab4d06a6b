//! Layout of the arrays handed over by the calling environment.
//!
//! The "cards" array holds `n` rows in column-major order with
//! `2 p + 4 + 2 ntde` columns: the `p` covariates, the entry time, the exit
//! time, the status, the one-based position in entry order, `p + ntde`
//! score weights, and `ntde` time functions followed by `ntde` unused
//! columns. The compact calling convention hands over the covariates
//! (`n * p`), the response (`n * 3`: entry time, exit time, status), the
//! entry order (`n`) and the time functions (`n * ntde`) as separate arrays.

use vstd::prelude::*;

verus! {

/// Number of columns of the cards array.
pub open spec fn card_columns_spec(p: nat, ntde: nat) -> nat {
    2 * p + 4 + 2 * ntde
}

/// The shape of a valid cards array.
pub struct CardLayout {
    n: usize,
    p: usize,
    ntde: usize,
}

impl CardLayout {
    #[verifier::type_invariant]
    spec fn fits(self) -> bool {
        &&& card_columns_spec(self.p as nat, self.ntde as nat) <= usize::MAX
        &&& self.n * card_columns_spec(self.p as nat, self.ntde as nat) <= usize::MAX
    }

    /// Number of observations.
    pub closed spec fn rows(self) -> nat {
        self.n as nat
    }

    /// Number of covariates.
    pub closed spec fn covariates_count(self) -> nat {
        self.p as nat
    }

    /// Number of time-dependent effects.
    pub closed spec fn time_effects(self) -> nat {
        self.ntde as nat
    }

    /// The layout of a cards array of length `cards_len` for `n` rows, `p`
    /// covariates and `ntde` time-dependent effects, or `None` when the
    /// length does not match the shape.
    pub fn new(n: usize, p: usize, ntde: usize, cards_len: usize) -> (layout: Option<CardLayout>)
        ensures
            layout is Some <==> card_columns_spec(p as nat, ntde as nat) <= usize::MAX && cards_len
                == n * card_columns_spec(p as nat, ntde as nat),
            layout is Some <==> 2 * p + 4 + 2 * ntde <= usize::MAX && cards_len == n * (2 * p + 4 + 2
                * ntde),
            layout matches Some(l) ==> l.rows() == n && l.covariates_count() == p
                && l.time_effects() == ntde,
    {
        let twice_p = match p.checked_mul(2) {
            Some(v) => v,
            None => {
                return None;
            },
        };
        let twice_ntde = match ntde.checked_mul(2) {
            Some(v) => v,
            None => {
                return None;
            },
        };
        let with_fixed = match twice_p.checked_add(4) {
            Some(v) => v,
            None => {
                return None;
            },
        };
        let columns = match with_fixed.checked_add(twice_ntde) {
            Some(v) => v,
            None => {
                return None;
            },
        };
        match n.checked_mul(columns) {
            Some(total) => {
                if total == cards_len {
                    Some(CardLayout { n, p, ntde })
                } else {
                    None
                }
            },
            None => None,
        }
    }

    /// Number of observations.
    pub fn n(&self) -> (n: usize)
        ensures
            n == self.rows(),
    {
        self.n
    }

    /// Number of covariates.
    pub fn p(&self) -> (p: usize)
        ensures
            p == self.covariates_count(),
    {
        self.p
    }

    /// Number of time-dependent effects.
    pub fn ntde(&self) -> (ntde: usize)
        ensures
            ntde == self.time_effects(),
    {
        self.ntde
    }

    /// Number of coefficients: covariates plus time-dependent effects.
    pub fn p_total(&self) -> (p_total: usize)
        ensures
            p_total == self.covariates_count() + self.time_effects(),
    {
        proof {
            use_type_invariant(self);
        }
        self.p + self.ntde
    }

    /// Number of columns of the cards array.
    pub fn card_columns(&self) -> (columns: usize)
        ensures
            columns == card_columns_spec(self.covariates_count(), self.time_effects()),
            columns == 2 * self.covariates_count() + 4 + 2 * self.time_effects(),
    {
        proof {
            use_type_invariant(self);
        }
        2 * self.p + 4 + 2 * self.ntde
    }

    /// The positions `start .. end` of columns `first .. first + count`.
    pub fn columns(&self, first: usize, count: usize) -> (range: (usize, usize))
        requires
            first + count <= card_columns_spec(self.covariates_count(), self.time_effects()),
        ensures
            range.0 == self.rows() * first,
            range.1 == self.rows() * (first + count),
            range.0 <= range.1 <= self.rows() * card_columns_spec(
                self.covariates_count(),
                self.time_effects(),
            ),
    {
        proof {
            use_type_invariant(self);
            let n = self.n as nat;
            let total = card_columns_spec(self.p as nat, self.ntde as nat);
            assert(n * first <= n * (first + count) <= n * total) by (nonlinear_arith)
                requires first + count <= total;
        }
        (self.n * first, self.n * (first + count))
    }

    /// The positions of the covariates.
    pub fn covariates(&self) -> (range: (usize, usize))
        ensures
            range == (0usize, (self.rows() * self.covariates_count()) as usize),
    {
        proof {
            use_type_invariant(self);
        }
        self.columns(0, self.p)
    }

    /// The positions of the entry times.
    pub fn entry_times(&self) -> (range: (usize, usize))
        ensures
            range.0 == self.rows() * self.covariates_count(),
            range.1 == range.0 + self.rows(),
    {
        proof {
            use_type_invariant(self);
            assert(self.n * (self.p + 1) == self.n * self.p + self.n) by (nonlinear_arith);
        }
        self.columns(self.p, 1)
    }

    /// The positions of the exit times.
    pub fn exit_times(&self) -> (range: (usize, usize))
        ensures
            range.0 == self.rows() * (self.covariates_count() + 1),
            range.1 == range.0 + self.rows(),
    {
        proof {
            use_type_invariant(self);
            assert(self.n * (self.p + 1 + 1) == self.n * (self.p + 1) + self.n) by (
            nonlinear_arith);
        }
        self.columns(self.p + 1, 1)
    }

    /// The positions of the status indicators.
    pub fn statuses(&self) -> (range: (usize, usize))
        ensures
            range.0 == self.rows() * (self.covariates_count() + 2),
            range.1 == range.0 + self.rows(),
    {
        proof {
            use_type_invariant(self);
            assert(self.n * (self.p + 2 + 1) == self.n * (self.p + 2) + self.n) by (
            nonlinear_arith);
        }
        self.columns(self.p + 2, 1)
    }

    /// The positions of the one-based entry order.
    pub fn entry_order(&self) -> (range: (usize, usize))
        ensures
            range.0 == self.rows() * (self.covariates_count() + 3),
            range.1 == range.0 + self.rows(),
    {
        proof {
            use_type_invariant(self);
            assert(self.n * (self.p + 3 + 1) == self.n * (self.p + 3) + self.n) by (
            nonlinear_arith);
        }
        self.columns(self.p + 3, 1)
    }

    /// The positions of the score weights, one column per coefficient.
    pub fn score_weights(&self) -> (range: (usize, usize))
        ensures
            range.0 == self.rows() * (self.covariates_count() + 4),
            range.1 == self.rows() * (2 * self.covariates_count() + 4 + self.time_effects()),
            range.1 - range.0 == self.rows() * (self.covariates_count() + self.time_effects()),
    {
        proof {
            use_type_invariant(self);
            let n = self.n as int;
            let p = self.p as int;
            let t = self.ntde as int;
            assert(n * (p + 4 + (p + t)) - n * (p + 4) == n * (p + t)) by (nonlinear_arith);
        }
        self.columns(self.p + 4, self.p + self.ntde)
    }

    /// The positions of the time functions, one column per time-dependent
    /// effect.
    pub fn time_functions(&self) -> (range: (usize, usize))
        ensures
            range.0 == self.rows() * (2 * self.covariates_count() + 4 + self.time_effects()),
            range.1 == self.rows() * card_columns_spec(self.covariates_count(), self.time_effects()),
            range.1 - range.0 == self.rows() * self.time_effects(),
            range.1 == self.rows() * (2 * self.covariates_count() + 4 + 2 * self.time_effects()),
    {
        proof {
            use_type_invariant(self);
            let n = self.n as int;
            let p = self.p as int;
            let t = self.ntde as int;
            assert(n * (2 * p + 4 + t + t) - n * (2 * p + 4 + t) == n * t) by (nonlinear_arith);
        }
        self.columns(2 * self.p + 4 + self.ntde, self.ntde)
    }
}

/// Whether the separate arrays of the compact calling convention have the
/// lengths that `n` rows, `p` covariates and `ntde` time-dependent effects
/// call for.
pub fn compact_lengths_match(
    n: usize,
    p: usize,
    ntde: usize,
    covariates_len: usize,
    response_len: usize,
    order_len: usize,
    time_functions_len: usize,
) -> (matches: bool)
    ensures
        matches <==> covariates_len == n * p && response_len == n * 3 && order_len == n
            && time_functions_len == n * ntde,
{
    let covariates_ok = match n.checked_mul(p) {
        Some(v) => v == covariates_len,
        None => false,
    };
    let response_ok = match n.checked_mul(3) {
        Some(v) => v == response_len,
        None => false,
    };
    let time_ok = match n.checked_mul(ntde) {
        Some(v) => v == time_functions_len,
        None => false,
    };
    covariates_ok && response_ok && order_len == n && time_ok
}

} // verus!
