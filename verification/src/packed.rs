//! Packed storage of symmetric matrices and symmetric cubes.
//!
//! Only the entries with ordered indices (`j <= k`, or `j <= k <= l`) are
//! stored, one after another in the order of the nested loops
//! `for j in 0..p { for k in j..p { .. } }` (and a third loop `for l in
//! k..p` for cubes). An entry with unordered indices is read from the
//! stored entry with the same indices in increasing order.

use vstd::prelude::*;
use crate::moments::{pair_slots_from, triple_slots_from, lemma_pair_slots, lemma_triple_slots};

verus! {

/// Packed position of the ordered pair `j <= k < p`: all pairs whose first
/// index is below `j`, then `k - j`.
pub open spec fn pair_index(p: nat, j: int, k: int) -> int {
    (pair_slots_from(0, p) - pair_slots_from(j as nat, p)) + (k - j)
}

/// Packed position of the ordered triple `j <= k <= l < p`: all triples
/// whose first index is below `j`, then all pairs `(k', l')` with
/// `j <= k' < k`, then `l - k`.
pub open spec fn triple_index(p: nat, j: int, k: int, l: int) -> int {
    (triple_slots_from(0, p) - triple_slots_from(j as nat, p)) + (pair_slots_from(j as nat, p)
        - pair_slots_from(k as nat, p)) + (l - k)
}

/// The smaller and the larger of two indices.
pub open spec fn ordered_pair(a: int, b: int) -> (int, int) {
    if a <= b {
        (a, b)
    } else {
        (b, a)
    }
}

/// Three indices in increasing order.
pub open spec fn ordered_triple(a: int, b: int, c: int) -> (int, int, int) {
    if a <= b {
        if b <= c {
            (a, b, c)
        } else if a <= c {
            (a, c, b)
        } else {
            (c, a, b)
        }
    } else {
        if a <= c {
            (b, a, c)
        } else if b <= c {
            (b, c, a)
        } else {
            (c, b, a)
        }
    }
}

/// Reading a pair sorts it: the result is the two indices, smaller first,
/// and does not depend on their order.
pub proof fn lemma_ordered_pair_sorts(a: int, b: int)
    ensures
        ordered_pair(a, b).0 <= ordered_pair(a, b).1,
        ordered_pair(a, b) == (a, b) || ordered_pair(a, b) == (b, a),
        ordered_pair(a, b) == ordered_pair(b, a),
{
}

/// Reading a triple sorts it: the result is a rearrangement of the three
/// indices in increasing order, the same for every order of the inputs.
pub proof fn lemma_ordered_triple_sorts(a: int, b: int, c: int)
    ensures
        ordered_triple(a, b, c).0 <= ordered_triple(a, b, c).1 <= ordered_triple(a, b, c).2,
        ordered_triple(a, b, c) == (a, b, c) || ordered_triple(a, b, c) == (a, c, b)
            || ordered_triple(a, b, c) == (b, a, c) || ordered_triple(a, b, c) == (b, c, a)
            || ordered_triple(a, b, c) == (c, a, b) || ordered_triple(a, b, c) == (c, b, a),
        ordered_triple(a, b, c) == ordered_triple(b, a, c),
        ordered_triple(a, b, c) == ordered_triple(a, c, b),
        ordered_triple(a, b, c) == ordered_triple(c, b, a),
        ordered_triple(a, b, c) == ordered_triple(b, c, a),
        ordered_triple(a, b, c) == ordered_triple(c, a, b),
{
}

proof fn lemma_pair_slots_step(j: nat, p: nat)
    requires
        j < p,
    ensures
        pair_slots_from(j, p) == (p - j) + pair_slots_from(j + 1, p),
{
}

proof fn lemma_pair_slots_decrease(a: nat, b: nat, p: nat)
    requires
        a <= b,
    ensures
        pair_slots_from(a, p) >= pair_slots_from(b, p),
    decreases b - a,
{
    if a < b {
        lemma_pair_slots_decrease(a + 1, b, p);
    }
}

proof fn lemma_triple_slots_decrease(a: nat, b: nat, p: nat)
    requires
        a <= b,
    ensures
        triple_slots_from(a, p) >= triple_slots_from(b, p),
    decreases b - a,
{
    if a < b {
        lemma_triple_slots_decrease(a + 1, b, p);
    }
}

/// Within the pairs whose first index is at least `base`, the pair
/// `(k, l)` with `base <= k <= l < p` lies at offset
/// `pair_slots_from(base, p) - pair_slots_from(k, p) + (l - k)`, which is
/// below `pair_slots_from(base, p) - pair_slots_from(k + 1, p)`.
proof fn lemma_pair_offset_bound(base: nat, k: nat, l: int, p: nat)
    requires
        base <= k <= l < p,
    ensures
        0 <= (pair_slots_from(base, p) - pair_slots_from(k, p)) + (l - k) < pair_slots_from(base, p)
            - pair_slots_from(k + 1, p),
{
    lemma_pair_slots_decrease(base, k, p);
    lemma_pair_slots_step(k, p);
}

/// Pairs are packed injectively, in loop order, inside `0 .. p (p + 1) / 2`.
pub proof fn lemma_pair_index_order(p: nat, j1: int, k1: int, j2: int, k2: int)
    requires
        0 <= j1 <= k1 < p,
        0 <= j2 <= k2 < p,
    ensures
        0 <= pair_index(p, j1, k1) < pair_slots_from(0, p),
        (j1 < j2 || (j1 == j2 && k1 < k2)) ==> pair_index(p, j1, k1) < pair_index(p, j2, k2),
{
    lemma_pair_offset_bound(0, j1 as nat, k1, p);
    lemma_pair_offset_bound(j1 as nat, j1 as nat, k1, p);
    lemma_pair_slots_decrease(0, j1 as nat, p);
    lemma_pair_slots_decrease((j1 + 1) as nat, (k1 + 1) as nat, p);
    lemma_pair_slots_decrease((k1 + 1) as nat, p, p);
    if j1 < j2 {
        lemma_pair_slots_decrease((j1 + 1) as nat, j2 as nat, p);
    }
}

/// Triples are packed injectively, in loop order, inside
/// `0 .. p (p + 1) (p + 2) / 6`.
pub proof fn lemma_triple_index_order(p: nat, j1: int, k1: int, l1: int, j2: int, k2: int, l2: int)
    requires
        0 <= j1 <= k1 <= l1 < p,
        0 <= j2 <= k2 <= l2 < p,
    ensures
        0 <= triple_index(p, j1, k1, l1) < triple_slots_from(0, p),
        (j1 < j2 || (j1 == j2 && k1 < k2) || (j1 == j2 && k1 == k2 && l1 < l2)) ==> triple_index(
            p,
            j1,
            k1,
            l1,
        ) < triple_index(p, j2, k2, l2),
{
    lemma_pair_offset_bound(j1 as nat, k1 as nat, l1, p);
    lemma_pair_offset_bound(j2 as nat, k2 as nat, l2, p);
    lemma_pair_slots_decrease((k1 + 1) as nat, p, p);
    lemma_triple_slots_decrease(0, j1 as nat, p);
    lemma_triple_slots_decrease((j1 + 1) as nat, p, p);
    assert(triple_slots_from(j1 as nat, p) == pair_slots_from(j1 as nat, p) + triple_slots_from(
        (j1 + 1) as nat,
        p,
    ));
    if j1 < j2 {
        lemma_triple_slots_decrease((j1 + 1) as nat, j2 as nat, p);
        lemma_pair_slots_decrease(j2 as nat, k2 as nat, p);
    } else if j1 == j2 && k1 < k2 {
        lemma_pair_slots_decrease((k1 + 1) as nat, k2 as nat, p);
    }
}

/// The packed order is the order of the nested loops: the next `k` (or,
/// at the end of a row, the next `j` with `k = j`) takes the next slot.
pub proof fn lemma_pair_index_follows_loops(p: nat, j: int, k: int)
    requires
        0 <= j <= k < p,
    ensures
        pair_index(p, 0, 0) == 0,
        k + 1 < p ==> pair_index(p, j, k + 1) == pair_index(p, j, k) + 1,
        k + 1 == p && j + 1 < p ==> pair_index(p, j + 1, j + 1) == pair_index(p, j, k) + 1,
        k + 1 == p && j + 1 == p ==> pair_index(p, j, k) + 1 == pair_slots_from(0, p),
{
    lemma_pair_slots_step(j as nat, p);
}

/// The packed order of triples is the order of the nested loops.
pub proof fn lemma_triple_index_follows_loops(p: nat, j: int, k: int, l: int)
    requires
        0 <= j <= k <= l < p,
    ensures
        triple_index(p, 0, 0, 0) == 0,
        l + 1 < p ==> triple_index(p, j, k, l + 1) == triple_index(p, j, k, l) + 1,
        l + 1 == p && k + 1 < p ==> triple_index(p, j, k + 1, k + 1) == triple_index(p, j, k, l)
            + 1,
        l + 1 == p && k + 1 == p && j + 1 < p ==> triple_index(p, j + 1, j + 1, j + 1)
            == triple_index(p, j, k, l) + 1,
        l + 1 == p && k + 1 == p && j + 1 == p ==> triple_index(p, j, k, l) + 1
            == triple_slots_from(0, p),
{
    lemma_pair_slots_step(k as nat, p);
    assert(triple_slots_from(j as nat, p) == pair_slots_from(j as nat, p) + triple_slots_from(
        (j + 1) as nat,
        p,
    ));
}

/// Number of stored pairs from first index `j` on, computed in closed form.
fn pair_slots(p: usize, j: usize) -> (count: usize)
    requires
        j <= p,
        p * (p + 1) <= usize::MAX,
    ensures
        count == pair_slots_from(j as nat, p as nat),
{
    let m = p - j;
    proof {
        lemma_pair_slots(j as nat, p as nat);
        assert(m * (m + 1) <= p * (p + 1)) by (nonlinear_arith)
            requires m <= p;
        assert((m * (m + 1)) / 2 == pair_slots_from(j as nat, p as nat)) by (nonlinear_arith)
            requires 2 * pair_slots_from(j as nat, p as nat) == m * (m + 1);
    }
    m * (m + 1) / 2
}

/// Number of stored triples from first index `j` on, computed in closed
/// form.
fn triple_slots(p: usize, j: usize) -> (count: usize)
    requires
        j <= p,
        p * (p + 1) * (p + 2) <= usize::MAX,
    ensures
        count == triple_slots_from(j as nat, p as nat),
{
    let m = p - j;
    proof {
        lemma_triple_slots(j as nat, p as nat);
        assert(m * (m + 1) <= m * (m + 1) * (m + 2)) by (nonlinear_arith)
            requires m <= p;
        assert(m * (m + 1) * (m + 2) <= p * (p + 1) * (p + 2)) by (nonlinear_arith)
            requires m <= p;
        assert((m * (m + 1) * (m + 2)) / 6 == triple_slots_from(j as nat, p as nat)) by (
        nonlinear_arith)
            requires 6 * triple_slots_from(j as nat, p as nat) == m * (m + 1) * (m + 2);
    }
    m * (m + 1) * (m + 2) / 6
}

/// A symmetric `p`-by-`p` matrix that stores each pair of indices once.
pub struct SymmetricMatrix<T> {
    p: usize,
    data: Vec<T>,
}

impl<T> SymmetricMatrix<T> {
    #[verifier::type_invariant]
    spec fn well_formed(self) -> bool {
        &&& self.p * (self.p + 1) <= usize::MAX
        &&& self.data@.len() == pair_slots_from(0, self.p as nat)
    }

    /// The extent of both axes.
    pub closed spec fn size(self) -> nat {
        self.p as nat
    }

    /// The stored values, in packed order.
    pub closed spec fn packed_values(self) -> Seq<T> {
        self.data@
    }

    /// The entry at `(j, k)`, in either order.
    pub open spec fn at(self, j: int, k: int) -> T {
        let (a, b) = ordered_pair(j, k);
        self.packed_values()[pair_index(self.size(), a, b)]
    }

    /// The matrix is symmetric, and an ordered pair `j <= k` is read from its
    /// own packed slot.
    pub proof fn lemma_symmetric(self, j: int, k: int)
        ensures
            self.at(j, k) == self.at(k, j),
            j <= k ==> self.at(j, k) == self.packed_values()[pair_index(self.size(), j, k)],
    {
        lemma_ordered_pair_sorts(j, k);
    }

    /// A symmetric matrix of extent `p` with every entry equal to `zero`.
    pub fn zeros(p: usize, zero: T) -> (matrix: Self) where T: Copy
        requires
            p * (p + 1) <= usize::MAX,
        ensures
            matrix.size() == p,
            matrix.packed_values().len() == pair_slots_from(0, p as nat),
            forall|i: int| 0 <= i < matrix.packed_values().len() ==> matrix.packed_values()[i]
                == zero,
    {
        let len = pair_slots(p, 0);
        let mut data: Vec<T> = Vec::with_capacity(len);
        let mut i: usize = 0;
        while i < len
            invariant
                i <= len,
                data@.len() == i,
                forall|m: int| 0 <= m < i ==> data@[m] == zero,
            decreases len - i,
        {
            data.push(zero);
            i += 1;
        }
        SymmetricMatrix { p, data }
    }

    /// The extent of both axes.
    pub fn dimension(&self) -> (p: usize)
        ensures
            p == self.size(),
    {
        self.p
    }

    /// Number of stored values.
    pub fn len(&self) -> (len: usize)
        ensures
            len == self.packed_values().len(),
            len == pair_slots_from(0, self.size()),
    {
        proof {
            use_type_invariant(self);
        }
        self.data.len()
    }

    /// Packed position of `(j, k)`, in either order.
    fn index(&self, j: usize, k: usize) -> (position: usize)
        requires
            j < self.size(),
            k < self.size(),
        ensures
            position == pair_index(self.size(), ordered_pair(j as int, k as int).0, ordered_pair(
                j as int,
                k as int,
            ).1),
            position < self.packed_values().len(),
    {
        proof {
            use_type_invariant(self);
        }
        let (a, b) = if j <= k {
            (j, k)
        } else {
            (k, j)
        };
        proof {
            lemma_pair_index_order(self.p as nat, a as int, b as int, a as int, b as int);
            lemma_pair_slots_decrease(0, a as nat, self.p as nat);
        }
        let total = pair_slots(self.p, 0);
        let rest = pair_slots(self.p, a);
        total - rest + (b - a)
    }

    /// The entry at `(j, k)`, in either order.
    pub fn get(&self, j: usize, k: usize) -> (value: T) where T: Copy
        requires
            j < self.size(),
            k < self.size(),
        ensures
            value == self.at(j as int, k as int),
    {
        let position = self.index(j, k);
        self.data[position]
    }

    /// Overwrites the entry at `(j, k)` (and so at `(k, j)`); every other
    /// entry stays as it was.
    pub fn set(&mut self, j: usize, k: usize, value: T)
        requires
            j < old(self).size(),
            k < old(self).size(),
        ensures
            final(self).size() == old(self).size(),
            final(self).at(j as int, k as int) == value,
            forall|a: int, b: int|
                0 <= a < old(self).size() && 0 <= b < old(self).size() && ordered_pair(a, b)
                    != ordered_pair(j as int, k as int) ==> #[trigger] final(self).at(a, b) == old(self).at(a, b),
    {
        proof {
            use_type_invariant(&*self);
        }
        let position = self.index(j, k);
        self.set_packed(position, value);
        proof {
            assert forall|a: int, b: int|
                0 <= a < old(self).size() && 0 <= b < old(self).size() && ordered_pair(a, b)
                    != ordered_pair(j as int, k as int) implies #[trigger] self.at(a, b)
                == old(self).at(a, b) by {
                let (a1, b1) = ordered_pair(a, b);
                let (a2, b2) = ordered_pair(j as int, k as int);
                lemma_pair_index_order(self.p as nat, a1, b1, a2, b2);
                lemma_pair_index_order(self.p as nat, a2, b2, a1, b1);
            }
        }
    }

    /// The stored value at packed position `i`.
    pub fn packed(&self, i: usize) -> (value: T) where T: Copy
        requires
            i < self.packed_values().len(),
        ensures
            value == self.packed_values()[i as int],
    {
        self.data[i]
    }

    /// Overwrites the stored value at packed position `i`.
    pub fn set_packed(&mut self, i: usize, value: T)
        requires
            i < old(self).packed_values().len(),
        ensures
            final(self).size() == old(self).size(),
            final(self).packed_values() == old(self).packed_values().update(i as int, value),
    {
        proof {
            use_type_invariant(&*self);
        }
        let mut taken = SymmetricMatrix { p: 0, data: Vec::new() };
        proof {
            assert(pair_slots_from(0, 0) == 0);
        }
        std::mem::swap(self, &mut taken);
        let SymmetricMatrix { p, mut data } = taken;
        data.set(i, value);
        *self = SymmetricMatrix { p, data };
    }

    /// Sets every stored value to `value`.
    pub fn fill(&mut self, value: T) where T: Copy
        ensures
            final(self).size() == old(self).size(),
            final(self).packed_values().len() == old(self).packed_values().len(),
            forall|i: int| 0 <= i < final(self).packed_values().len() ==> final(self).packed_values()[i] == value,
    {
        let len = self.len();
        let mut i: usize = 0;
        while i < len
            invariant
                len == self.packed_values().len(),
                self.size() == old(self).size(),
                len == old(self).packed_values().len(),
                i <= len,
                forall|m: int| 0 <= m < i ==> self.packed_values()[m] == value,
            decreases len - i,
        {
            self.set_packed(i, value);
            i += 1;
        }
    }
}

/// A symmetric `p`-by-`p`-by-`p` array that stores each set of three
/// indices once.
pub struct SymmetricCube<T> {
    p: usize,
    data: Vec<T>,
}

impl<T> SymmetricCube<T> {
    #[verifier::type_invariant]
    spec fn well_formed(self) -> bool {
        &&& self.p * (self.p + 1) * (self.p + 2) <= usize::MAX
        &&& self.data@.len() == triple_slots_from(0, self.p as nat)
    }

    /// The extent of each axis.
    pub closed spec fn size(self) -> nat {
        self.p as nat
    }

    /// The stored values, in packed order.
    pub closed spec fn packed_values(self) -> Seq<T> {
        self.data@
    }

    /// The entry at `(j, k, l)`, in any order.
    pub open spec fn at(self, j: int, k: int, l: int) -> T {
        let (a, b, c) = ordered_triple(j, k, l);
        self.packed_values()[triple_index(self.size(), a, b, c)]
    }

    /// The cube is symmetric: every order of three indices reads the same
    /// entry, and an ordered triple `j <= k <= l` is read from its own packed
    /// slot.
    pub proof fn lemma_symmetric(self, j: int, k: int, l: int)
        ensures
            self.at(j, k, l) == self.at(k, j, l),
            self.at(j, k, l) == self.at(j, l, k),
            self.at(j, k, l) == self.at(l, k, j),
            self.at(j, k, l) == self.at(k, l, j),
            self.at(j, k, l) == self.at(l, j, k),
            j <= k <= l ==> self.at(j, k, l) == self.packed_values()[triple_index(
                self.size(),
                j,
                k,
                l,
            )],
    {
        lemma_ordered_triple_sorts(j, k, l);
    }

    /// A symmetric cube of extent `p` with every entry equal to `zero`.
    pub fn zeros(p: usize, zero: T) -> (cube: Self) where T: Copy
        requires
            p * (p + 1) * (p + 2) <= usize::MAX,
        ensures
            cube.size() == p,
            cube.packed_values().len() == triple_slots_from(0, p as nat),
            forall|i: int| 0 <= i < cube.packed_values().len() ==> cube.packed_values()[i] == zero,
    {
        let len = triple_slots(p, 0);
        let mut data: Vec<T> = Vec::with_capacity(len);
        let mut i: usize = 0;
        while i < len
            invariant
                i <= len,
                data@.len() == i,
                forall|m: int| 0 <= m < i ==> data@[m] == zero,
            decreases len - i,
        {
            data.push(zero);
            i += 1;
        }
        SymmetricCube { p, data }
    }

    /// The extent of each axis.
    pub fn dimension(&self) -> (p: usize)
        ensures
            p == self.size(),
    {
        self.p
    }

    /// Number of stored values.
    pub fn len(&self) -> (len: usize)
        ensures
            len == self.packed_values().len(),
            len == triple_slots_from(0, self.size()),
    {
        proof {
            use_type_invariant(self);
        }
        self.data.len()
    }

    /// Packed position of `(j, k, l)`, in any order.
    fn index(&self, j: usize, k: usize, l: usize) -> (position: usize)
        requires
            j < self.size(),
            k < self.size(),
            l < self.size(),
        ensures
            ({
                let (a, b, c) = ordered_triple(j as int, k as int, l as int);
                position == triple_index(self.size(), a, b, c)
            }),
            position < self.packed_values().len(),
    {
        proof {
            use_type_invariant(self);
        }
        let (a, b, c) = if j <= k {
            if k <= l {
                (j, k, l)
            } else if j <= l {
                (j, l, k)
            } else {
                (l, j, k)
            }
        } else {
            if j <= l {
                (k, j, l)
            } else if k <= l {
                (k, l, j)
            } else {
                (l, k, j)
            }
        };
        let p = self.p;
        proof {
            assert(p * (p + 1) <= p * (p + 1) * (p + 2)) by (nonlinear_arith);
            lemma_triple_index_order(p as nat, a as int, b as int, c as int, a as int, b as int, c as int);
            lemma_triple_slots_decrease(0, a as nat, p as nat);
            lemma_pair_slots_decrease(a as nat, b as nat, p as nat);
            lemma_pair_offset_bound(a as nat, b as nat, c as int, p as nat);
        }
        let total = triple_slots(p, 0);
        let rest = triple_slots(p, a);
        let from_a = pair_slots(p, a);
        let from_b = pair_slots(p, b);
        (total - rest) + (from_a - from_b) + (c - b)
    }

    /// The entry at `(j, k, l)`, in any order.
    pub fn get(&self, j: usize, k: usize, l: usize) -> (value: T) where T: Copy
        requires
            j < self.size(),
            k < self.size(),
            l < self.size(),
        ensures
            value == self.at(j as int, k as int, l as int),
    {
        let position = self.index(j, k, l);
        self.data[position]
    }

    /// Overwrites the entry at `(j, k, l)` (and so at every reordering of
    /// it); every other entry stays as it was.
    pub fn set(&mut self, j: usize, k: usize, l: usize, value: T)
        requires
            j < old(self).size(),
            k < old(self).size(),
            l < old(self).size(),
        ensures
            final(self).size() == old(self).size(),
            final(self).at(j as int, k as int, l as int) == value,
            forall|a: int, b: int, c: int|
                0 <= a < old(self).size() && 0 <= b < old(self).size() && 0 <= c < old(self).size()
                    && ordered_triple(a, b, c) != ordered_triple(j as int, k as int, l as int)
                    ==> #[trigger] final(self).at(a, b, c) == old(self).at(a, b, c),
    {
        proof {
            use_type_invariant(&*self);
        }
        let position = self.index(j, k, l);
        self.set_packed(position, value);
        proof {
            assert forall|a: int, b: int, c: int|
                0 <= a < old(self).size() && 0 <= b < old(self).size() && 0 <= c < old(self).size()
                    && ordered_triple(a, b, c) != ordered_triple(j as int, k as int, l as int)
                    implies #[trigger] self.at(a, b, c) == old(self).at(a, b, c) by {
                let (a1, b1, c1) = ordered_triple(a, b, c);
                let (a2, b2, c2) = ordered_triple(j as int, k as int, l as int);
                lemma_triple_index_order(self.p as nat, a1, b1, c1, a2, b2, c2);
                lemma_triple_index_order(self.p as nat, a2, b2, c2, a1, b1, c1);
            }
        }
    }

    /// The stored value at packed position `i`.
    pub fn packed(&self, i: usize) -> (value: T) where T: Copy
        requires
            i < self.packed_values().len(),
        ensures
            value == self.packed_values()[i as int],
    {
        self.data[i]
    }

    /// Overwrites the stored value at packed position `i`.
    pub fn set_packed(&mut self, i: usize, value: T)
        requires
            i < old(self).packed_values().len(),
        ensures
            final(self).size() == old(self).size(),
            final(self).packed_values() == old(self).packed_values().update(i as int, value),
    {
        proof {
            use_type_invariant(&*self);
        }
        let mut taken = SymmetricCube { p: 0, data: Vec::new() };
        proof {
            assert(triple_slots_from(0, 0) == 0);
        }
        std::mem::swap(self, &mut taken);
        let SymmetricCube { p, mut data } = taken;
        data.set(i, value);
        *self = SymmetricCube { p, data };
    }

    /// Sets every stored value to `value`.
    pub fn fill(&mut self, value: T) where T: Copy
        ensures
            final(self).size() == old(self).size(),
            final(self).packed_values().len() == old(self).packed_values().len(),
            forall|i: int| 0 <= i < final(self).packed_values().len() ==> final(self).packed_values()[i]
                == value,
    {
        let len = self.len();
        let mut i: usize = 0;
        while i < len
            invariant
                len == self.packed_values().len(),
                self.size() == old(self).size(),
                len == old(self).packed_values().len(),
                i <= len,
                forall|m: int| 0 <= m < i ==> self.packed_values()[m] == value,
            decreases len - i,
        {
            self.set_packed(i, value);
            i += 1;
        }
    }
}

} // verus!
