//! The two-dimensional array that holds the seed counts, seen as a sequence of rows.

use array2d::Array2D;
use vstd::prelude::*;

verus! {

#[verifier::external_type_specification]
#[verifier::external_body]
#[verifier::reject_recursive_types(T)]
pub struct ExArray2D<T>(Array2D<T>);

/// The cells of an array, row by row.
pub uninterp spec fn cells_of(a: Array2D<u8>) -> Seq<Seq<u8>>;

/// True when `g` has `rows` rows of `cols` cells each.
pub open spec fn is_shape(g: Seq<Seq<u8>>, rows: nat, cols: nat) -> bool {
    g.len() == rows && forall|r: int| 0 <= r < rows ==> #[trigger] g[r].len() == cols
}

/// Relies on Array2D::filled_with: every cell of a rows-by-columns array holds `v`.
#[verifier::external_body]
pub(crate) fn filled(v: u8, rows: usize, cols: usize) -> (a: Array2D<u8>)
    requires
        rows * cols <= usize::MAX,
    ensures
        is_shape(cells_of(a), rows as nat, cols as nat),
        forall|r: int, c: int|
            0 <= r < rows && 0 <= c < cols ==> #[trigger] cells_of(a)[r][c] == v,
{
    Array2D::filled_with(v, rows, cols)
}

/// Relies on Array2D's indexing by `(row, column)`: it reads that cell.
#[verifier::external_body]
pub(crate) fn cell(a: &Array2D<u8>, r: usize, c: usize) -> (v: u8)
    requires
        r < cells_of(*a).len(),
        c < cells_of(*a)[r as int].len(),
    ensures
        v == cells_of(*a)[r as int][c as int],
{
    a[(r, c)]
}

/// Relies on Array2D's mutable indexing by `(row, column)`: it writes that cell only.
#[verifier::external_body]
pub(crate) fn set_cell(a: &mut Array2D<u8>, r: usize, c: usize, v: u8)
    requires
        r < cells_of(*old(a)).len(),
        c < cells_of(*old(a))[r as int].len(),
    ensures
        cells_of(*final(a)) == cells_of(*old(a)).update(
            r as int,
            cells_of(*old(a))[r as int].update(c as int, v),
        ),
{
    a[(r, c)] = v;
}

/// Relies on Array2D's derived `Clone`: the copy holds the same cells.
#[verifier::external_body]
pub(crate) fn copy(a: &Array2D<u8>) -> (b: Array2D<u8>)
    ensures
        cells_of(b) == cells_of(*a),
{
    a.clone()
}

/// Sum of `row[lo..hi]`.
pub open spec fn range_sum(row: Seq<u8>, lo: int, hi: int) -> int
    decreases hi - lo,
{
    if hi <= lo {
        0
    } else {
        range_sum(row, lo, hi - 1) + row[hi - 1]
    }
}

pub proof fn lemma_range_sum_update(row: Seq<u8>, lo: int, hi: int, i: int, v: u8)
    requires
        0 <= lo,
        hi <= row.len(),
        0 <= i < row.len(),
    ensures
        range_sum(row.update(i, v), lo, hi) == range_sum(row, lo, hi) + (if lo <= i < hi {
            v - row[i]
        } else {
            0
        }),
    decreases hi - lo,
{
    if hi > lo {
        lemma_range_sum_update(row, lo, hi - 1, i, v);
    }
}

pub proof fn lemma_range_sum_bounds(row: Seq<u8>, lo: int, hi: int, i: int)
    requires
        0 <= lo <= i < hi <= row.len(),
    ensures
        range_sum(row, lo, hi) >= row[i],
    decreases hi - lo,
{
    lemma_range_sum_nonneg(row, lo, hi - 1);
    if i < hi - 1 {
        lemma_range_sum_bounds(row, lo, hi - 1, i);
    }
}

pub proof fn lemma_range_sum_nonneg(row: Seq<u8>, lo: int, hi: int)
    ensures
        range_sum(row, lo, hi) >= 0,
    decreases hi - lo,
{
    if hi > lo {
        lemma_range_sum_nonneg(row, lo, hi - 1);
    }
}

pub proof fn lemma_range_sum_upper(row: Seq<u8>, lo: int, hi: int)
    requires
        lo <= hi,
    ensures
        range_sum(row, lo, hi) <= 255 * (hi - lo),
    decreases hi - lo,
{
    if hi > lo {
        lemma_range_sum_upper(row, lo, hi - 1);
    }
}

pub proof fn lemma_range_sum_zero(row: Seq<u8>, lo: int, hi: int)
    requires
        forall|i: int| lo <= i < hi ==> row[i] == 0,
    ensures
        range_sum(row, lo, hi) == 0,
    decreases hi - lo,
{
    if hi > lo {
        lemma_range_sum_zero(row, lo, hi - 1);
    }
}

pub proof fn lemma_range_sum_split(row: Seq<u8>, lo: int, mid: int, hi: int)
    requires
        lo <= mid <= hi,
    ensures
        range_sum(row, lo, hi) == range_sum(row, lo, mid) + range_sum(row, mid, hi),
    decreases hi - mid,
{
    if hi > mid {
        lemma_range_sum_split(row, lo, mid, hi - 1);
    }
}

} // verus!
