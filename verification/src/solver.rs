//! The linear program of one coalition in the form a cone solver takes:
//! `minimise cost . x  subject to  A x + s = b`, where the first rows of
//! `s` must be zero (flow conservation) and the others non-negative
//! (bandwidth, then `x >= 0`).
//!
//! The value of a coalition is minus the least cost; solving is left to the
//! caller.

use crate::amount::Amount;
use crate::lp::LPPrimitives;
use crate::shapley::{keep_places, with_places};
use crate::sparse::{entry_of, lemma_entry_push, lemma_entry_unnamed, SparseMatrix, Triplet};
use vstd::prelude::*;

verus! {

/// From this many variables on a program counts as large.
pub const LARGE_VARIABLES: usize = 100;

/// From this many constraint rows on a program counts as large.
pub const LARGE_CONSTRAINTS: usize = 200;

/// From this many operators on, fewer decimal places are kept of a solved
/// value.
pub const COARSE_FROM: usize = 13;

/// The decimal places kept of a solved value in a game of fewer than
/// thirteen operators.
pub const FINE_PLACES: u32 = 6;

/// The decimal places kept of a solved value in a game of thirteen
/// operators or more.
pub const COARSE_PLACES: u32 = 3;

/// The decimal places to keep of the value that a solver finds for a
/// coalition of a game of `n_ops` operators.
pub open spec fn places_kept(n_ops: int) -> int {
    if n_ops < COARSE_FROM {
        FINE_PLACES as int
    } else {
        COARSE_PLACES as int
    }
}

/// The decimal places to keep of the value that a solver finds for a
/// coalition: six, and three from thirteen operators on, where the shares
/// of more operators leave less room for the digits of a value.
pub fn solved_places(n_operators: usize) -> (places: u32)
    ensures
        places == places_kept(n_operators as int),
{
    if n_operators < COARSE_FROM {
        FINE_PLACES
    } else {
        COARSE_PLACES
    }
}

/// The value that a solver found for a coalition, with the decimal places
/// that are kept of it: rounded, half to even, where it has more.
pub fn kept_value(value: Amount, n_operators: usize) -> (kept: Amount)
    ensures
        kept == with_places(value, places_kept(n_operators as int)),
        kept.places() <= value.places(),
        value.places() > places_kept(n_operators as int) ==> kept.places() == places_kept(
            n_operators as int,
        ),
{
    keep_places(value, solved_places(n_operators))
}

/// A linear program `minimise cost . x  subject to  matrix x + s = b`, with
/// `s = 0` on the first `n_equalities` rows and `s >= 0` on the rest: the
/// `n_inequalities` bandwidth rows, then one row `-x_i <= 0` per variable.
#[derive(Debug)]
pub struct StandardForm {
    /// The constraint matrix.
    pub matrix: SparseMatrix,
    /// The right-hand side, one entry per row.
    pub b: Vec<Amount>,
    /// The objective, one entry per variable.
    pub cost: Vec<Amount>,
    /// The number of equality rows; they come first.
    pub n_equalities: usize,
    /// The number of bandwidth rows; they follow the equalities.
    pub n_inequalities: usize,
    /// The program is large: the solver may trade accuracy for speed.
    pub large: bool,
}

/// The places below `n` at which `mask` is true, in rising order.
pub open spec fn selected(mask: Seq<bool>, n: int) -> Seq<int>
    decreases n,
{
    if n <= 0 {
        Seq::empty()
    } else {
        let rest = selected(mask, n - 1);
        if mask[n - 1] {
            rest.push(n - 1)
        } else {
            rest
        }
    }
}

/// What [`selected`] lists lies below `n`, is in the mask and rises.
pub proof fn lemma_selected(mask: Seq<bool>, n: int)
    requires
        0 <= n <= mask.len(),
    ensures
        selected(mask, n).len() <= n,
        forall|q: int|
            0 <= q < selected(mask, n).len() ==> 0 <= #[trigger] selected(mask, n)[q] < n
                && mask[selected(mask, n)[q]],
        forall|p: int, q: int|
            0 <= p < q < selected(mask, n).len() ==> selected(mask, n)[p] < selected(mask, n)[q],
        forall|i: int| 0 <= i < n && mask[i] ==> selected(mask, n).contains(i),
    decreases n,
{
    if n > 0 {
        lemma_selected(mask, n - 1);
        let rest = selected(mask, n - 1);
        let all = selected(mask, n);
        assert forall|i: int| 0 <= i < n && mask[i] implies all.contains(i) by {
            if i < n - 1 {
                let w = choose|w: int| 0 <= w < rest.len() && rest[w] == i;
                assert(all[w] == i);
            } else {
                assert(all[all.len() - 1] == i);
            }
        }
    }
}

/// `form` is the program `lp` restricted to the bandwidth rows `rows` and
/// the variables `cols`: all equality rows, then the chosen bandwidth rows,
/// then the bounds `-x_i <= 0`, over the chosen variables only.
pub open spec fn is_restriction(
    form: &StandardForm,
    lp: &LPPrimitives,
    rows: Seq<int>,
    cols: Seq<int>,
) -> bool {
    let n_eq = lp.a_eq.nrows as int;
    let n_ub = rows.len() as int;
    let n = cols.len() as int;
    &&& form.matrix.well_formed()
    &&& form.matrix.ncols == n
    &&& form.matrix.nrows == n_eq + n_ub + n
    &&& form.n_equalities == n_eq
    &&& form.n_inequalities == n_ub
    &&& form.b.len() == n_eq + n_ub + n
    &&& form.cost.len() == n
    &&& forall|r: int, q: int|
        0 <= r < n_eq && 0 <= q < n ==> #[trigger] form.matrix.entry(r, q) == lp.a_eq.entry(
            r,
            cols[q],
        )
    &&& forall|t: int, q: int|
        0 <= t < n_ub && 0 <= q < n ==> #[trigger] form.matrix.entry(n_eq + t, q)
            == lp.a_ub.entry(rows[t], cols[q])
    &&& forall|i: int, q: int|
        0 <= i < n && 0 <= q < n ==> #[trigger] form.matrix.entry(n_eq + n_ub + i, q) == if i
            == q {
            -1int
        } else {
            0int
        }
    &&& forall|r: int| 0 <= r < n_eq ==> #[trigger] form.b[r] == lp.b_eq[r]
    &&& forall|t: int| 0 <= t < n_ub ==> #[trigger] form.b[n_eq + t] == lp.b_ub[rows[t]]
    &&& forall|i: int| 0 <= i < n ==> #[trigger] form.b[n_eq + n_ub + i] == Amount::of(0, 0)
    &&& forall|q: int| 0 <= q < n ==> #[trigger] form.cost[q] == lp.cost[cols[q]]
    &&& form.large == (n >= LARGE_VARIABLES || n_eq + n_ub + n >= LARGE_CONSTRAINTS)
}

/// Each place of `picked` as an integer.
pub open spec fn places(picked: Seq<usize>) -> Seq<int> {
    Seq::new(picked.len(), |q: int| picked[q] as int)
}

/// `place` gives for each of the first `n` places its rank in `picked`,
/// and `None` for a place that is not picked.
pub open spec fn ranks(picked: Seq<usize>, place: Seq<Option<usize>>, n: int) -> bool {
    &&& forall|a: int|
        0 <= a < n && (#[trigger] place[a]) is Some ==> place[a]->0 < picked.len()
            && picked[place[a]->0 as int] == a
    &&& forall|a: int, q: int|
        0 <= a < n && (#[trigger] place[a]) is None && 0 <= q < picked.len()
            ==> #[trigger] picked[q] != a
}

/// The places at which `mask` is true, and for each place of the mask its
/// rank among them.
fn positions(mask: &[bool]) -> (found: (Vec<usize>, Vec<Option<usize>>))
    ensures
        places(found.0@) == selected(mask@, mask.len() as int),
        found.1.len() == mask.len(),
        forall|q: int| 0 <= q < found.0.len() ==> #[trigger] found.0[q] < mask.len(),
        forall|p: int, q: int| 0 <= p < q < found.0.len() ==> found.0[p] < found.0[q],
        ranks(found.0@, found.1@, mask.len() as int),
{
    let mut picked: Vec<usize> = Vec::new();
    let mut place: Vec<Option<usize>> = Vec::new();
    let mut i: usize = 0;
    assert(places(picked@) =~= selected(mask@, 0));
    while i < mask.len()
        invariant
            i <= mask.len(),
            places(picked@) == selected(mask@, i as int),
            place.len() == i,
            forall|q: int| 0 <= q < picked.len() ==> #[trigger] picked[q] < i,
            forall|p: int, q: int| 0 <= p < q < picked.len() ==> picked[p] < picked[q],
            ranks(picked@, place@, i as int),
        decreases mask.len() - i,
    {
        let ghost before = places(picked@);
        if mask[i] {
            place.push(Some(picked.len()));
            picked.push(i);
            assert(places(picked@) =~= before.push(i as int));
        } else {
            place.push(None);
        }
        i += 1;
    }
    (picked, place)
}

/// The linear program of one coalition: the program `primitives`
/// restricted to the bandwidth rows and the variables that the masks admit.
/// All equality rows are kept: flow is conserved for every commodity,
/// whoever is in the coalition. `None` where the coalition has no variable
/// at all, or where the rows are too many to count.
pub fn coalition_program(primitives: &LPPrimitives, row_mask: &[bool], col_mask: &[bool]) -> (form:
    Option<StandardForm>)
    requires
        primitives.well_formed(),
        row_mask.len() == primitives.b_ub.len(),
        col_mask.len() == primitives.cost.len(),
    ensures
        form is Some <==> {
            let rows = selected(row_mask@, row_mask.len() as int);
            let cols = selected(col_mask@, col_mask.len() as int);
            cols.len() > 0 && primitives.a_eq.nrows + rows.len() + cols.len() <= usize::MAX
        },
        form is Some ==> is_restriction(
            &form->0,
            primitives,
            selected(row_mask@, row_mask.len() as int),
            selected(col_mask@, col_mask.len() as int),
        ),
{
    let (cols, col_place) = positions(col_mask);
    let (rows, row_place) = positions(row_mask);
    let ghost chosen_rows = selected(row_mask@, row_mask.len() as int);
    let ghost chosen_cols = selected(col_mask@, col_mask.len() as int);
    if cols.len() == 0 {
        return None;
    }
    let n = cols.len();
    let n_eq = primitives.a_eq.nrows;
    let n_ub = rows.len();
    let n_rows = match n_eq.checked_add(n_ub) {
        Some(upper) => match upper.checked_add(n) {
            Some(total) => total,
            None => {
                return None;
            },
        },
        None => {
            return None;
        },
    };
    let a_eq = &primitives.a_eq;
    let a_ub = &primitives.a_ub;
    let mut triplets: Vec<Triplet> = Vec::new();
    let mut i: usize = 0;
    while i < a_eq.triplets.len()
        invariant
            i <= a_eq.triplets.len(),
            a_eq.well_formed(),
            a_eq.ncols == col_mask.len(),
            n_eq == a_eq.nrows,
            n == cols.len(),
            col_place.len() == col_mask.len(),
            forall|p: int, q: int| 0 <= p < q < cols.len() ==> cols[p] < cols[q],
            ranks(cols@, col_place@, col_mask.len() as int),
            forall|k: int|
                0 <= k < triplets.len() ==> (#[trigger] triplets[k]).row < n_eq && triplets[k].col
                    < n,
            forall|r: int, q: int|
                0 <= r < n_eq && 0 <= q < n ==> #[trigger] entry_of(triplets@, r, q) == entry_of(
                    a_eq.triplets@.take(i as int),
                    r,
                    cols[q] as int,
                ),
        decreases a_eq.triplets.len() - i,
    {
        let t = a_eq.triplets[i];
        let ghost seen = a_eq.triplets@.take(i as int);
        let ghost next = a_eq.triplets@.take(i + 1);
        let ghost before = triplets@;
        assert(next =~= seen.push(t));
        match col_place[t.col] {
            Some(q0) => {
                let moved = Triplet { row: t.row, col: q0, value: t.value };
                triplets.push(moved);
                proof {
                    assert forall|r: int, q: int|
                        0 <= r < n_eq && 0 <= q < n implies #[trigger] entry_of(triplets@, r, q)
                        == entry_of(next, r, cols[q] as int) by {
                        lemma_entry_push(before, moved, r, q);
                        lemma_entry_push(seen, t, r, cols[q] as int);
                    }
                }
            },
            None => {
                proof {
                    assert forall|r: int, q: int|
                        0 <= r < n_eq && 0 <= q < n implies #[trigger] entry_of(triplets@, r, q)
                        == entry_of(next, r, cols[q] as int) by {
                        lemma_entry_push(seen, t, r, cols[q] as int);
                    }
                }
            },
        }
        i += 1;
    }
    proof {
        assert(a_eq.triplets@.take(a_eq.triplets.len() as int) =~= a_eq.triplets@);
        assert forall|t: int, q: int| 0 <= t < n_ub && 0 <= q < n implies #[trigger] entry_of(
            triplets@,
            n_eq + t,
            q,
        ) == 0 by {
            lemma_entry_unnamed(triplets@, n_eq + t, q);
        }
    }
    let mut j: usize = 0;
    while j < a_ub.triplets.len()
        invariant
            j <= a_ub.triplets.len(),
            a_ub.well_formed(),
            a_ub.ncols == col_mask.len(),
            a_ub.nrows == row_mask.len(),
            n_eq == a_eq.nrows,
            n == cols.len(),
            n_ub == rows.len(),
            n_eq + n_ub + n == n_rows,
            col_place.len() == col_mask.len(),
            row_place.len() == row_mask.len(),
            forall|p: int, q: int| 0 <= p < q < cols.len() ==> cols[p] < cols[q],
            forall|p: int, q: int| 0 <= p < q < rows.len() ==> rows[p] < rows[q],
            ranks(cols@, col_place@, col_mask.len() as int),
            ranks(rows@, row_place@, row_mask.len() as int),
            forall|k: int|
                0 <= k < triplets.len() ==> (#[trigger] triplets[k]).row < n_eq + n_ub
                    && triplets[k].col < n,
            forall|r: int, q: int|
                0 <= r < n_eq && 0 <= q < n ==> #[trigger] entry_of(triplets@, r, q)
                    == a_eq.entry(r, cols[q] as int),
            forall|t: int, q: int|
                0 <= t < n_ub && 0 <= q < n ==> #[trigger] entry_of(triplets@, n_eq + t, q)
                    == entry_of(a_ub.triplets@.take(j as int), rows[t] as int, cols[q] as int),
        decreases a_ub.triplets.len() - j,
    {
        let t = a_ub.triplets[j];
        let ghost seen = a_ub.triplets@.take(j as int);
        let ghost next = a_ub.triplets@.take(j + 1);
        let ghost before = triplets@;
        assert(next =~= seen.push(t));
        let target = match (row_place[t.row], col_place[t.col]) {
            (Some(r0), Some(q0)) => Some((r0, q0)),
            _ => None,
        };
        match target {
            Some((r0, q0)) => {
                let moved = Triplet { row: n_eq + r0, col: q0, value: t.value };
                triplets.push(moved);
                proof {
                    assert forall|r: int, q: int|
                        0 <= r < n_eq && 0 <= q < n implies #[trigger] entry_of(triplets@, r, q)
                        == a_eq.entry(r, cols[q] as int) by {
                        lemma_entry_push(before, moved, r, q);
                    }
                    assert forall|s: int, q: int|
                        0 <= s < n_ub && 0 <= q < n implies #[trigger] entry_of(
                        triplets@,
                        n_eq + s,
                        q,
                    ) == entry_of(next, rows[s] as int, cols[q] as int) by {
                        lemma_entry_push(before, moved, n_eq + s, q);
                        lemma_entry_push(seen, t, rows[s] as int, cols[q] as int);
                    }
                }
            },
            None => {
                proof {
                    assert forall|s: int, q: int|
                        0 <= s < n_ub && 0 <= q < n implies #[trigger] entry_of(
                        triplets@,
                        n_eq + s,
                        q,
                    ) == entry_of(next, rows[s] as int, cols[q] as int) by {
                        lemma_entry_push(seen, t, rows[s] as int, cols[q] as int);
                    }
                }
            },
        }
        j += 1;
    }
    proof {
        assert(a_ub.triplets@.take(a_ub.triplets.len() as int) =~= a_ub.triplets@);
        assert forall|a: int, q: int| 0 <= a < n && 0 <= q < n implies #[trigger] entry_of(
            triplets@,
            n_eq + n_ub + a,
            q,
        ) == 0 by {
            lemma_entry_unnamed(triplets@, n_eq + n_ub + a, q);
        }
    }
    let mut v: usize = 0;
    while v < n
        invariant
            v <= n,
            n == cols.len(),
            n_ub == rows.len(),
            n_eq == a_eq.nrows,
            n_eq + n_ub + n == n_rows,
            forall|k: int|
                0 <= k < triplets.len() ==> (#[trigger] triplets[k]).row < n_rows
                    && triplets[k].col < n,
            forall|r: int, q: int|
                0 <= r < n_eq && 0 <= q < n ==> #[trigger] entry_of(triplets@, r, q)
                    == a_eq.entry(r, cols[q] as int),
            forall|t: int, q: int|
                0 <= t < n_ub && 0 <= q < n ==> #[trigger] entry_of(triplets@, n_eq + t, q)
                    == a_ub.entry(rows[t] as int, cols[q] as int),
            forall|a: int, q: int|
                0 <= a < n && 0 <= q < n ==> #[trigger] entry_of(triplets@, n_eq + n_ub + a, q)
                    == if a == q && a < v {
                    -1int
                } else {
                    0int
                },
        decreases n - v,
    {
        let bound = Triplet { row: n_eq + n_ub + v, col: v, value: -1 };
        let ghost before = triplets@;
        triplets.push(bound);
        proof {
            assert forall|r: int, q: int|
                0 <= r < n_eq && 0 <= q < n implies #[trigger] entry_of(triplets@, r, q)
                == a_eq.entry(r, cols[q] as int) by {
                lemma_entry_push(before, bound, r, q);
            }
            assert forall|t: int, q: int|
                0 <= t < n_ub && 0 <= q < n implies #[trigger] entry_of(triplets@, n_eq + t, q)
                == a_ub.entry(rows[t] as int, cols[q] as int) by {
                lemma_entry_push(before, bound, n_eq + t, q);
            }
            assert forall|a: int, q: int|
                0 <= a < n && 0 <= q < n implies #[trigger] entry_of(
                triplets@,
                n_eq + n_ub + a,
                q,
            ) == if a == q && a < v + 1 {
                -1int
            } else {
                0int
            } by {
                lemma_entry_push(before, bound, n_eq + n_ub + a, q);
            }
        }
        v += 1;
    }
    let mut b: Vec<Amount> = Vec::new();
    let mut r: usize = 0;
    while r < n_eq
        invariant
            r <= n_eq,
            n_eq == primitives.b_eq.len(),
            b.len() == r,
            forall|a: int| 0 <= a < r ==> #[trigger] b[a] == primitives.b_eq[a],
        decreases n_eq - r,
    {
        b.push(primitives.b_eq[r]);
        r += 1;
    }
    let mut t: usize = 0;
    while t < n_ub
        invariant
            t <= n_ub,
            n_ub == rows.len(),
            n_eq == primitives.b_eq.len(),
            b.len() == n_eq + t,
            forall|q: int| 0 <= q < rows.len() ==> #[trigger] rows[q] < primitives.b_ub.len(),
            forall|a: int| 0 <= a < n_eq ==> #[trigger] b[a] == primitives.b_eq[a],
            forall|a: int|
                0 <= a < t ==> #[trigger] b[n_eq + a] == primitives.b_ub[rows[a] as int],
        decreases n_ub - t,
    {
        b.push(primitives.b_ub[rows[t]]);
        t += 1;
    }
    let mut z: usize = 0;
    while z < n
        invariant
            z <= n,
            n_ub == rows.len(),
            n_eq == primitives.b_eq.len(),
            n_eq + n_ub + n == n_rows,
            b.len() == n_eq + n_ub + z,
            forall|a: int| 0 <= a < n_eq ==> #[trigger] b[a] == primitives.b_eq[a],
            forall|a: int|
                0 <= a < n_ub ==> #[trigger] b[n_eq + a] == primitives.b_ub[rows[a] as int],
            forall|a: int| 0 <= a < z ==> #[trigger] b[n_eq + n_ub + a] == Amount::of(0, 0),
        decreases n - z,
    {
        b.push(Amount::zero());
        z += 1;
    }
    let mut cost: Vec<Amount> = Vec::new();
    let mut q: usize = 0;
    while q < n
        invariant
            q <= n,
            n == cols.len(),
            cost.len() == q,
            forall|a: int| 0 <= a < cols.len() ==> #[trigger] cols[a] < primitives.cost.len(),
            forall|a: int| 0 <= a < q ==> #[trigger] cost[a] == primitives.cost[cols[a] as int],
        decreases n - q,
    {
        cost.push(primitives.cost[cols[q]]);
        q += 1;
    }
    let large = n >= LARGE_VARIABLES || n_rows >= LARGE_CONSTRAINTS;
    let form = StandardForm {
        matrix: SparseMatrix { nrows: n_rows, ncols: n, triplets },
        b,
        cost,
        n_equalities: n_eq,
        n_inequalities: n_ub,
        large,
    };
    proof {
        assert(chosen_rows.len() == rows.len());
        assert(chosen_cols.len() == cols.len());
        assert forall|a: int| 0 <= a < rows.len() implies chosen_rows[a] == rows[a] by {
            assert(places(rows@)[a] == rows[a]);
        }
        assert forall|a: int| 0 <= a < cols.len() implies chosen_cols[a] == cols[a] by {
            assert(places(cols@)[a] == cols[a]);
        }
    }
    Some(form)
}

} // verus!
