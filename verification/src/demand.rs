//! The demand matrix: how much traffic each pair of nodes exchanges.

use vstd::prelude::*;
use ndarray::Array2;

verus! {

/// An `ndarray` array of two dimensions, held where the verifier does not
/// look: it sees the entries only.
#[verifier::external_body]
#[derive(Debug)]
pub struct Cells {
    grid: Array2<u64>,
}

/// The entries of an array, row by row.
pub uninterp spec fn cells_rows(cells: Cells) -> Seq<Seq<u64>>;

/// A square matrix of traffic volumes. The entry in row `i` and column `j`,
/// for `i < j`, is the traffic between the nodes at positions `i` and `j`;
/// routing reads no other entry.
#[derive(Debug)]
pub struct Intensity {
    cells: Cells,
}

impl View for Intensity {
    type V = Seq<Seq<u64>>;

    closed spec fn view(&self) -> Seq<Seq<u64>> {
        cells_rows(self.cells)
    }
}

/// Whether every row is as long as there are rows.
pub open spec fn is_square(rows: Seq<Seq<u64>>) -> bool {
    forall|i: int| 0 <= i < rows.len() ==> (#[trigger] rows[i]).len() == rows.len()
}

/// `n` rows of `n` zeros.
pub open spec fn zero_rows(n: nat) -> Seq<Seq<u64>> {
    Seq::new(n, |i: int| Seq::new(n, |j: int| 0u64))
}

/// The sum of the entries of `row` from column `lo` up to, not including,
/// column `hi`.
pub open spec fn range_sum(row: Seq<u64>, lo: int, hi: int) -> nat
    decreases hi - lo,
{
    if hi <= lo {
        0
    } else {
        range_sum(row, lo, hi - 1) + row[hi - 1] as nat
    }
}

/// The sum of all entries of the first `count` rows.
pub open spec fn rows_sum(rows: Seq<Seq<u64>>, count: int) -> nat
    decreases count,
{
    if count <= 0 {
        0
    } else {
        rows_sum(rows, count - 1) + range_sum(rows[count - 1], 0, rows[count - 1].len() as int)
    }
}

/// The sum of all entries.
pub open spec fn total(rows: Seq<Seq<u64>>) -> nat {
    rows_sum(rows, rows.len() as int)
}

/// A range of a row sums to no more than the range that starts further left.
pub proof fn lemma_range_sum_from(row: Seq<u64>, lo: int, hi: int, left: int)
    requires
        left <= lo,
    ensures
        range_sum(row, lo, hi) <= range_sum(row, left, hi),
    decreases hi - lo,
{
    if hi > lo {
        lemma_range_sum_from(row, lo, hi - 1, left);
    }
}

/// A range of a row sums to no more than the range that ends further right.
pub proof fn lemma_range_sum_grows(row: Seq<u64>, lo: int, hi: int, further: int)
    requires
        hi <= further,
    ensures
        range_sum(row, lo, hi) <= range_sum(row, lo, further),
    decreases further - hi,
{
    if hi < further {
        lemma_range_sum_grows(row, lo, hi, further - 1);
    }
}

/// More rows sum to no less.
pub proof fn lemma_rows_sum_grows(rows: Seq<Seq<u64>>, count: int, further: int)
    requires
        count <= further,
    ensures
        rows_sum(rows, count) <= rows_sum(rows, further),
    decreases further - count,
{
    if count < further {
        lemma_rows_sum_grows(rows, count, further - 1);
    }
}

/// `Array2::zeros`: an array of `n` rows and `n` columns of zeros. It panics
/// where the entries do not fit in memory that `isize` can address, which the
/// precondition leaves out.
#[verifier::external_body]
fn zero_cells(n: usize) -> (cells: Cells)
    requires
        n * n * 8 <= isize::MAX,
    ensures
        cells_rows(cells) == zero_rows(n as nat),
{
    Cells { grid: Array2::zeros((n, n)) }
}

/// `ArrayBase::nrows`: the number of rows.
#[verifier::external_body]
fn height(cells: &Cells) -> (n: usize)
    ensures
        n == cells_rows(*cells).len(),
{
    cells.grid.nrows()
}

/// Indexing an `ndarray` array by `[i, j]`: the entry in row `i`, column `j`.
/// It panics out of bounds, which the preconditions leave out.
#[verifier::external_body]
fn cell(cells: &Cells, i: usize, j: usize) -> (volume: u64)
    requires
        i < cells_rows(*cells).len(),
        j < cells_rows(*cells)[i as int].len(),
    ensures
        volume == cells_rows(*cells)[i as int][j as int],
{
    cells.grid[[i, j]]
}

/// Assigning through an index `[i, j]` of an `ndarray` array: that entry
/// changes and no other. It panics out of bounds, which the preconditions
/// leave out.
#[verifier::external_body]
fn store(cells: &mut Cells, i: usize, j: usize, volume: u64)
    requires
        i < cells_rows(*old(cells)).len(),
        j < cells_rows(*old(cells))[i as int].len(),
    ensures
        cells_rows(*final(cells)) == cells_rows(*old(cells)).update(i as int, cells_rows(*old(cells))[i as int].update(j as int, volume)),
    no_unwind
{
    cells.grid[[i, j]] = volume;
}

/// `ArrayBase::sum`: the sum of all entries. The additions are those of
/// `u64`, so the precondition leaves out a sum that `u64` cannot hold.
#[verifier::external_body]
fn sum(cells: &Cells) -> (s: u64)
    requires
        total(cells_rows(*cells)) <= u64::MAX,
    ensures
        s == total(cells_rows(*cells)),
{
    cells.grid.sum()
}

impl Intensity {
    /// Every matrix is square.
    #[verifier::type_invariant]
    spec fn square(self) -> bool {
        is_square(cells_rows(self.cells))
    }

    /// A matrix of `n` rows and `n` columns of zeros.
    pub(crate) fn blank(n: usize) -> (matrix: Intensity)
        requires
            n * n * 8 <= isize::MAX,
        ensures
            matrix@ == zero_rows(n as nat),
    {
        Intensity { cells: zero_cells(n) }
    }

    /// A matrix of `n` rows and `n` columns of zeros, unless its entries
    /// would not fit in memory that `isize` can address.
    pub fn zeros(n: usize) -> (made: Option<Intensity>)
        ensures
            made is Some <==> n * n * 8 <= isize::MAX,
            made matches Some(matrix) ==> matrix@ == zero_rows(n as nat),
    {
        let limit: usize = isize::MAX as usize;
        match n.checked_mul(n) {
            Some(cells) => match cells.checked_mul(8) {
                Some(bytes) => if bytes <= limit {
                    Some(Intensity::blank(n))
                } else {
                    None
                },
                None => None,
            },
            None => {
                assert(n * n * 8 > isize::MAX) by (nonlinear_arith)
                    requires
                        n * n > usize::MAX,
                        usize::MAX >= isize::MAX,
                ;
                None
            },
        }
    }

    /// The number of rows, which is the number of columns.
    pub fn size(&self) -> (n: usize)
        ensures
            n == self@.len(),
            is_square(self@),
    {
        proof {
            use_type_invariant(self);
        }
        height(&self.cells)
    }

    /// The entry in row `i`, column `j`, which the matrix must have.
    pub(crate) fn at(&self, i: usize, j: usize) -> (volume: u64)
        requires
            i < self@.len(),
            j < self@.len(),
        ensures
            volume == self@[i as int][j as int],
    {
        proof {
            use_type_invariant(self);
        }
        cell(&self.cells, i, j)
    }

    /// The entry in row `i`, column `j`, if the matrix has one there.
    pub fn get(&self, i: usize, j: usize) -> (volume: Option<u64>)
        ensures
            volume == (if i < self@.len() && j < self@.len() {
                Some(self@[i as int][j as int])
            } else {
                None
            }),
    {
        let n: usize = self.size();
        if i < n && j < n {
            Some(self.at(i, j))
        } else {
            None
        }
    }

    /// The sum of all entries, which `u64` must be able to hold.
    pub(crate) fn whole(&self) -> (sum: u64)
        requires
            total(self@) <= u64::MAX,
        ensures
            sum == total(self@),
    {
        sum(&self.cells)
    }

    /// The sum of all entries, if `u64` can hold it.
    pub fn checked_total(&self) -> (sum: Option<u64>)
        ensures
            sum is Some <==> total(self@) <= u64::MAX,
            sum matches Some(s) ==> s == total(self@),
    {
        let n: usize = self.size();
        let ghost rows = self@;
        let mut so_far: u64 = 0;
        let mut i: usize = 0;
        while i < n
            invariant
                i <= n,
                rows == self@,
                n == rows.len(),
                forall|r: int| 0 <= r < n ==> (#[trigger] rows[r]).len() == n,
                so_far == rows_sum(rows, i as int),
            decreases n - i,
        {
            let ghost above = so_far;
            let mut j: usize = 0;
            while j < n
                invariant
                    i < n,
                    j <= n,
                    rows == self@,
                    n == rows.len(),
                    forall|r: int| 0 <= r < n ==> (#[trigger] rows[r]).len() == n,
                    above == rows_sum(rows, i as int),
                    so_far == above + range_sum(rows[i as int], 0, j as int),
                decreases n - j,
            {
                match so_far.checked_add(self.at(i, j)) {
                    Some(more) => {
                        so_far = more;
                    },
                    None => {
                        proof {
                            lemma_range_sum_grows(rows[i as int], 0, j + 1, n as int);
                            lemma_rows_sum_grows(rows, i + 1, n as int);
                        }
                        return None;
                    },
                }
                j = j + 1;
            }
            i = i + 1;
        }
        Some(so_far)
    }

    /// Writes the entry in row `i`, column `j`, and says whether the matrix
    /// has one there; if it has not, nothing changes.
    pub fn set(&mut self, i: usize, j: usize, volume: u64) -> (written: bool)
        ensures
            written == (i < old(self)@.len() && j < old(self)@.len()),
            final(self)@ == (if written {
                old(self)@.update(i as int, old(self)@[i as int].update(j as int, volume))
            } else {
                old(self)@
            }),
    {
        let n: usize = self.size();
        if i < n && j < n {
            proof {
                use_type_invariant(&*self);
            }
            store(&mut self.cells, i, j, volume);
            true
        } else {
            false
        }
    }
}

} // verus!
