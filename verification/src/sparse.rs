//! Sparse integer matrices in coordinate form, and the three operations
//! from which the linear program is assembled: repeating a matrix down the
//! diagonal, repeating it side by side, and picking columns.
//!
//! A matrix is a list of triplets `(row, column, value)`. Its entry at a
//! place is the sum of the values of the triplets at that place, so a place
//! that no triplet names holds zero.

use crate::error::ShapleyError;
use vstd::prelude::*;

verus! {

/// One stored value of a sparse matrix.
#[derive(Clone, Copy, Debug, PartialEq, Eq, Structural)]
pub struct Triplet {
    pub row: usize,
    pub col: usize,
    pub value: i64,
}

/// A sparse matrix of `nrows` by `ncols` integers.
#[derive(Debug)]
pub struct SparseMatrix {
    pub nrows: usize,
    pub ncols: usize,
    pub triplets: Vec<Triplet>,
}

/// What `triplet` adds to the entry at row `r`, column `c`.
pub open spec fn share_of(triplet: Triplet, r: int, c: int) -> int {
    if triplet.row == r && triplet.col == c {
        triplet.value as int
    } else {
        0
    }
}

/// The entry at row `r`, column `c` of the matrix that `triplets` describe.
pub open spec fn entry_of(triplets: Seq<Triplet>, r: int, c: int) -> int
    decreases triplets.len(),
{
    if triplets.len() == 0 {
        0
    } else {
        entry_of(triplets.drop_last(), r, c) + share_of(triplets.last(), r, c)
    }
}

/// Place `offset` of block `block`, where blocks are `size` long.
pub open spec fn at(block: int, size: int, offset: int) -> int {
    block * size + offset
}

impl SparseMatrix {
    /// Every triplet lies within the matrix.
    pub open spec fn well_formed(&self) -> bool {
        forall|k: int|
            0 <= k < self.triplets.len() ==> (#[trigger] self.triplets[k]).row < self.nrows
                && self.triplets[k].col < self.ncols
    }

    /// The entry at row `r`, column `c`.
    pub open spec fn entry(&self, r: int, c: int) -> int {
        entry_of(self.triplets@, r, c)
    }

    /// `self` is `block` repeated `count` times down the diagonal: the
    /// entry at row `r` of block row `b1` and column `c` of block column
    /// `b2` is that of `block` at `(r, c)` on the diagonal and zero off it.
    pub open spec fn is_block_diagonal_of(&self, block: &SparseMatrix, count: int) -> bool {
        &&& self.well_formed()
        &&& self.nrows == count * block.nrows
        &&& self.ncols == count * block.ncols
        &&& forall|b1: int, r: int, b2: int, c: int|
            0 <= b1 < count && 0 <= r < block.nrows && 0 <= b2 < count && 0 <= c < block.ncols
                ==> #[trigger] self.entry(at(b1, block.nrows as int, r), at(b2, block.ncols as int, c))
                == if b1 == b2 {
                block.entry(r, c)
            } else {
                0
            }
    }

    /// `self` is `block` repeated `count` times side by side: the entry at
    /// row `r` and column `c` of block column `b` is that of `block` at
    /// `(r, c)`.
    pub open spec fn is_tiling_of(&self, block: &SparseMatrix, count: int) -> bool {
        &&& self.well_formed()
        &&& self.nrows == block.nrows
        &&& self.ncols == count * block.ncols
        &&& forall|r: int, b: int, c: int|
            0 <= r < block.nrows && 0 <= b < count && 0 <= c < block.ncols
                ==> #[trigger] self.entry(r, at(b, block.ncols as int, c)) == block.entry(r, c)
    }

    /// `self` holds the columns `keep` of `source`, in that order.
    pub open spec fn is_selection_of(&self, source: &SparseMatrix, keep: Seq<usize>) -> bool {
        &&& self.well_formed()
        &&& self.nrows == source.nrows
        &&& self.ncols == keep.len()
        &&& forall|r: int, p: int|
            0 <= r < self.nrows && 0 <= p < keep.len() ==> #[trigger] self.entry(r, p)
                == source.entry(r, keep[p] as int)
    }

    /// Whether every triplet lies within the matrix.
    pub fn is_well_formed(&self) -> (fine: bool)
        ensures
            fine == self.well_formed(),
    {
        let mut k: usize = 0;
        while k < self.triplets.len()
            invariant
                k <= self.triplets.len(),
                forall|j: int|
                    0 <= j < k ==> (#[trigger] self.triplets[j]).row < self.nrows
                        && self.triplets[j].col < self.ncols,
            decreases self.triplets.len() - k,
        {
            if self.triplets[k].row >= self.nrows || self.triplets[k].col >= self.ncols {
                return false;
            }
            k += 1;
        }
        true
    }

    /// The matrix of `nrows` by `ncols` that `triplets` describe, or `None`
    /// where a triplet lies outside it.
    pub fn from_triplets(nrows: usize, ncols: usize, triplets: Vec<Triplet>) -> (m: Option<
        SparseMatrix,
    >)
        ensures
            m is Some <==> forall|k: int|
                0 <= k < triplets.len() ==> (#[trigger] triplets[k]).row < nrows
                    && triplets[k].col < ncols,
            m is Some ==> m->0.well_formed() && m->0.nrows == nrows && m->0.ncols == ncols
                && m->0.triplets == triplets,
    {
        let mut k: usize = 0;
        while k < triplets.len()
            invariant
                k <= triplets.len(),
                forall|j: int|
                    0 <= j < k ==> (#[trigger] triplets[j]).row < nrows && triplets[j].col
                        < ncols,
            decreases triplets.len() - k,
        {
            if triplets[k].row >= nrows || triplets[k].col >= ncols {
                return None;
            }
            k += 1;
        }
        Some(SparseMatrix { nrows, ncols, triplets })
    }
}

/// Adding a triplet adds its share to each entry.
pub proof fn lemma_entry_push(triplets: Seq<Triplet>, t: Triplet, r: int, c: int)
    ensures
        entry_of(triplets.push(t), r, c) == entry_of(triplets, r, c) + share_of(t, r, c),
{
    assert(triplets.push(t).drop_last() =~= triplets);
}

/// A place that no triplet names holds zero.
pub proof fn lemma_entry_unnamed(triplets: Seq<Triplet>, r: int, c: int)
    requires
        forall|k: int|
            0 <= k < triplets.len() ==> (#[trigger] triplets[k]).row != r || triplets[k].col != c,
    ensures
        entry_of(triplets, r, c) == 0,
    decreases triplets.len(),
{
    if triplets.len() > 0 {
        let rest = triplets.drop_last();
        assert forall|k: int| 0 <= k < rest.len() implies (#[trigger] rest[k]).row != r
            || rest[k].col != c by {
            assert(rest[k] == triplets[k]);
        }
        lemma_entry_unnamed(rest, r, c);
        assert(triplets.last() == triplets[triplets.len() - 1]);
    }
}

/// A place is fixed by its block and its offset within the block.
pub proof fn lemma_at_unique(b1: int, r1: int, b2: int, r2: int, size: int)
    requires
        0 <= r1 < size,
        0 <= r2 < size,
        at(b1, size, r1) == at(b2, size, r2),
    ensures
        b1 == b2,
        r1 == r2,
{
    assert(b1 == b2) by (nonlinear_arith)
        requires
            0 <= r1 < size,
            0 <= r2 < size,
            b1 * size + r1 == b2 * size + r2,
    ;
}

/// A place of an earlier block lies before each later block.
pub proof fn lemma_at_bound(b: int, size: int, r: int, count: int)
    requires
        0 <= b < count,
        0 <= r < size,
    ensures
        0 <= at(b, size, r) < count * size,
        b * size >= 0,
        (b + 1) * size == b * size + size,
{
    assert(0 <= b * size + r < count * size) by (nonlinear_arith)
        requires
            0 <= b < count,
            0 <= r < size,
    ;
    assert(b * size >= 0) by (nonlinear_arith)
        requires
            0 <= b,
            0 <= size,
    ;
    assert((b + 1) * size == b * size + size) by (nonlinear_arith);
}

/// A block starts no later than the whole ends.
pub proof fn lemma_offset_bound(b: int, size: int, count: int)
    requires
        0 <= b <= count,
        0 <= size,
    ensures
        0 <= b * size <= count * size,
{
    assert(0 <= b * size <= count * size) by (nonlinear_arith)
        requires
            0 <= b <= count,
            0 <= size,
    ;
}

/// Repeats `block` `count` times down the diagonal: block `b` of the result
/// stands `b` blocks down and `b` blocks to the right. Fails where the
/// dimensions leave `usize`.
pub fn block_diagonal(block: &SparseMatrix, count: usize) -> (stacked: Result<
    SparseMatrix,
    ShapleyError,
>)
    requires
        block.well_formed(),
    ensures
        stacked is Ok <==> count * block.nrows <= usize::MAX && count * block.ncols
            <= usize::MAX,
        stacked is Ok ==> stacked->Ok_0.is_block_diagonal_of(block, count as int),
        stacked is Err ==> stacked->Err_0 is ComputationError,
{
    let (nrows, ncols) = match (count.checked_mul(block.nrows), count.checked_mul(block.ncols)) {
        (Some(r), Some(c)) => (r, c),
        _ => {
            return Err(
                ShapleyError::ComputationError(
                    String::from_str("a block matrix has too many rows or columns"),
                ),
            );
        },
    };
    let n = block.nrows;
    let m = block.ncols;
    let mut triplets: Vec<Triplet> = Vec::new();
    let mut b: usize = 0;
    while b < count
        invariant
            b <= count,
            block.well_formed(),
            n == block.nrows,
            m == block.ncols,
            nrows == count * n,
            ncols == count * m,
            forall|k: int|
                0 <= k < triplets.len() ==> (#[trigger] triplets[k]).row < nrows
                    && triplets[k].col < ncols,
            forall|b1: int, r: int, b2: int, c: int|
                0 <= b1 < count && 0 <= r < n && 0 <= b2 < count && 0 <= c < m
                    ==> #[trigger] entry_of(triplets@, at(b1, n as int, r), at(b2, m as int, c))
                    == if b1 == b2 && b1 < b {
                    block.entry(r, c)
                } else {
                    0
                },
        decreases count - b,
    {
        proof {
            lemma_offset_bound(b as int, n as int, count as int);
            lemma_offset_bound(b as int, m as int, count as int);
        }
        let row_offset = b * n;
        let col_offset = b * m;
        let mut i: usize = 0;
        while i < block.triplets.len()
            invariant
                i <= block.triplets.len(),
                b < count,
                block.well_formed(),
                n == block.nrows,
                m == block.ncols,
                nrows == count * n,
                ncols == count * m,
                row_offset == b * n,
                col_offset == b * m,
                forall|k: int|
                    0 <= k < triplets.len() ==> (#[trigger] triplets[k]).row < nrows
                        && triplets[k].col < ncols,
                forall|b1: int, r: int, b2: int, c: int|
                    0 <= b1 < count && 0 <= r < n && 0 <= b2 < count && 0 <= c < m
                        ==> #[trigger] entry_of(
                        triplets@,
                        at(b1, n as int, r),
                        at(b2, m as int, c),
                    ) == if b1 == b2 && b1 < b {
                        block.entry(r, c)
                    } else if b1 == b2 && b1 == b {
                        entry_of(block.triplets@.take(i as int), r, c)
                    } else {
                        0
                    },
            decreases block.triplets.len() - i,
        {
            let t = block.triplets[i];
            proof {
                lemma_at_bound(b as int, n as int, t.row as int, count as int);
                lemma_at_bound(b as int, m as int, t.col as int, count as int);
            }
            let moved = Triplet { row: row_offset + t.row, col: col_offset + t.col, value: t.value };
            let ghost before = triplets@;
            triplets.push(moved);
            proof {
                let seen = block.triplets@.take(i as int);
                let next = block.triplets@.take(i + 1);
                assert(next =~= seen.push(t));
                assert forall|b1: int, r: int, b2: int, c: int|
                    0 <= b1 < count && 0 <= r < n && 0 <= b2 < count && 0 <= c < m
                        implies #[trigger] entry_of(
                    triplets@,
                    at(b1, n as int, r),
                    at(b2, m as int, c),
                ) == if b1 == b2 && b1 < b {
                    block.entry(r, c)
                } else if b1 == b2 && b1 == b {
                    entry_of(next, r, c)
                } else {
                    0
                } by {
                    let big_r = at(b1, n as int, r);
                    let big_c = at(b2, m as int, c);
                    lemma_entry_push(before, moved, big_r, big_c);
                    lemma_entry_push(seen, t, r, c);
                    if moved.row == big_r {
                        lemma_at_unique(b1, r, b as int, t.row as int, n as int);
                    }
                    if moved.col == big_c {
                        lemma_at_unique(b2, c, b as int, t.col as int, m as int);
                    }
                }
            }
            i += 1;
        }
        assert(block.triplets@.take(block.triplets.len() as int) =~= block.triplets@);
        b += 1;
    }
    Ok(SparseMatrix { nrows, ncols, triplets })
}

/// Repeats `block` `count` times side by side: block `b` of the result
/// stands `b` blocks to the right. Fails where the number of columns leaves
/// `usize`.
pub fn horizontal_concat(block: &SparseMatrix, count: usize) -> (tiled: Result<
    SparseMatrix,
    ShapleyError,
>)
    requires
        block.well_formed(),
    ensures
        tiled is Ok <==> count * block.ncols <= usize::MAX,
        tiled is Ok ==> tiled->Ok_0.is_tiling_of(block, count as int),
        tiled is Err ==> tiled->Err_0 is ComputationError,
{
    let ncols = match count.checked_mul(block.ncols) {
        Some(c) => c,
        None => {
            return Err(
                ShapleyError::ComputationError(
                    String::from_str("a tiled matrix has too many columns"),
                ),
            );
        },
    };
    let n = block.nrows;
    let m = block.ncols;
    let mut triplets: Vec<Triplet> = Vec::new();
    let mut b: usize = 0;
    while b < count
        invariant
            b <= count,
            block.well_formed(),
            n == block.nrows,
            m == block.ncols,
            ncols == count * m,
            forall|k: int|
                0 <= k < triplets.len() ==> (#[trigger] triplets[k]).row < n && triplets[k].col
                    < ncols,
            forall|r: int, b2: int, c: int|
                0 <= r < n && 0 <= b2 < count && 0 <= c < m ==> #[trigger] entry_of(
                    triplets@,
                    r,
                    at(b2, m as int, c),
                ) == if b2 < b {
                    block.entry(r, c)
                } else {
                    0
                },
        decreases count - b,
    {
        proof {
            lemma_offset_bound(b as int, m as int, count as int);
        }
        let col_offset = b * m;
        let mut i: usize = 0;
        while i < block.triplets.len()
            invariant
                i <= block.triplets.len(),
                b < count,
                block.well_formed(),
                n == block.nrows,
                m == block.ncols,
                ncols == count * m,
                col_offset == b * m,
                forall|k: int|
                    0 <= k < triplets.len() ==> (#[trigger] triplets[k]).row < n
                        && triplets[k].col < ncols,
                forall|r: int, b2: int, c: int|
                    0 <= r < n && 0 <= b2 < count && 0 <= c < m ==> #[trigger] entry_of(
                        triplets@,
                        r,
                        at(b2, m as int, c),
                    ) == if b2 < b {
                        block.entry(r, c)
                    } else if b2 == b {
                        entry_of(block.triplets@.take(i as int), r, c)
                    } else {
                        0
                    },
            decreases block.triplets.len() - i,
        {
            let t = block.triplets[i];
            proof {
                lemma_at_bound(b as int, m as int, t.col as int, count as int);
            }
            let moved = Triplet { row: t.row, col: col_offset + t.col, value: t.value };
            let ghost before = triplets@;
            triplets.push(moved);
            proof {
                let seen = block.triplets@.take(i as int);
                let next = block.triplets@.take(i + 1);
                assert(next =~= seen.push(t));
                assert forall|r: int, b2: int, c: int|
                    0 <= r < n && 0 <= b2 < count && 0 <= c < m implies #[trigger] entry_of(
                    triplets@,
                    r,
                    at(b2, m as int, c),
                ) == if b2 < b {
                    block.entry(r, c)
                } else if b2 == b {
                    entry_of(next, r, c)
                } else {
                    0
                } by {
                    let big_c = at(b2, m as int, c);
                    lemma_entry_push(before, moved, r, big_c);
                    lemma_entry_push(seen, t, r, c);
                    if moved.col == big_c {
                        lemma_at_unique(b2, c, b as int, t.col as int, m as int);
                    }
                }
            }
            i += 1;
        }
        assert(block.triplets@.take(block.triplets.len() as int) =~= block.triplets@);
        b += 1;
    }
    Ok(SparseMatrix { nrows: n, ncols, triplets })
}

/// Picks the columns `keep` of `matrix`, in that order: column `p` of the
/// result is column `keep[p]` of `matrix`. Fails where `keep` names a
/// column that the matrix does not have.
pub fn select_columns(matrix: &SparseMatrix, keep: &[usize]) -> (picked: Result<
    SparseMatrix,
    ShapleyError,
>)
    requires
        matrix.well_formed(),
    ensures
        picked is Ok <==> forall|p: int| 0 <= p < keep.len() ==> #[trigger] keep[p] < matrix.ncols,
        picked is Ok ==> picked->Ok_0.is_selection_of(matrix, keep@),
        picked is Err ==> picked->Err_0 is ComputationError,
{
    let n = matrix.nrows;
    let mut triplets: Vec<Triplet> = Vec::new();
    let mut p: usize = 0;
    while p < keep.len()
        invariant
            p <= keep.len(),
            matrix.well_formed(),
            n == matrix.nrows,
            forall|q: int| 0 <= q < p ==> #[trigger] keep[q] < matrix.ncols,
            forall|k: int|
                0 <= k < triplets.len() ==> (#[trigger] triplets[k]).row < n && triplets[k].col
                    < p,
            forall|r: int, q: int|
                0 <= r < n && 0 <= q < keep.len() ==> #[trigger] entry_of(triplets@, r, q) == if q
                    < p {
                    matrix.entry(r, keep[q] as int)
                } else {
                    0
                },
        decreases keep.len() - p,
    {
        let source = keep[p];
        if source >= matrix.ncols {
            return Err(
                ShapleyError::ComputationError(
                    String::from_str("a column to keep lies outside the matrix"),
                ),
            );
        }
        let mut i: usize = 0;
        while i < matrix.triplets.len()
            invariant
                i <= matrix.triplets.len(),
                p < keep.len(),
                source == keep[p as int],
                matrix.well_formed(),
                n == matrix.nrows,
                forall|k: int|
                    0 <= k < triplets.len() ==> (#[trigger] triplets[k]).row < n
                        && triplets[k].col <= p,
                forall|r: int, q: int|
                    0 <= r < n && 0 <= q < keep.len() ==> #[trigger] entry_of(triplets@, r, q)
                        == if q < p {
                        matrix.entry(r, keep[q] as int)
                    } else if q == p {
                        entry_of(matrix.triplets@.take(i as int), r, source as int)
                    } else {
                        0
                    },
            decreases matrix.triplets.len() - i,
        {
            let t = matrix.triplets[i];
            let ghost seen = matrix.triplets@.take(i as int);
            let ghost next = matrix.triplets@.take(i + 1);
            let ghost before = triplets@;
            assert(next =~= seen.push(t));
            if t.col == source {
                let moved = Triplet { row: t.row, col: p, value: t.value };
                triplets.push(moved);
                proof {
                    assert forall|r: int, q: int|
                        0 <= r < n && 0 <= q < keep.len() implies #[trigger] entry_of(
                        triplets@,
                        r,
                        q,
                    ) == if q < p {
                        matrix.entry(r, keep[q] as int)
                    } else if q == p {
                        entry_of(next, r, source as int)
                    } else {
                        0
                    } by {
                        lemma_entry_push(before, moved, r, q);
                        lemma_entry_push(seen, t, r, source as int);
                    }
                }
            } else {
                proof {
                    assert forall|r: int| 0 <= r < n implies entry_of(next, r, source as int)
                        == entry_of(seen, r, source as int) by {
                        lemma_entry_push(seen, t, r, source as int);
                    }
                }
            }
            i += 1;
        }
        assert(matrix.triplets@.take(matrix.triplets.len() as int) =~= matrix.triplets@);
        p += 1;
    }
    Ok(SparseMatrix { nrows: n, ncols: keep.len(), triplets })
}

} // verus!
