use crate::rational::{int_frac, Rational};
use vstd::prelude::*;
use vstd::slice::slice_subrange;

verus! {

/// Out-of-range access to a matrix.
#[derive(Clone, Copy, Debug, PartialEq, Eq, Structural)]
pub enum MatrixError {
    IndexOutOfRange,
}

/// A dense row-major matrix whose dimensions are fixed at construction.
pub struct VecMatrix<T> {
    values: Vec<T>,
    rowc: usize,
    colc: usize,
}

proof fn lemma_cell_index(rowc: int, colc: int, i: int, j: int)
    requires
        0 <= i < rowc,
        0 <= j < colc,
    ensures
        0 <= i * colc,
        i * colc + j < rowc * colc,
        i * colc + colc <= rowc * colc,
{
    assert(0 <= i * colc && i * colc + j < rowc * colc && i * colc + colc <= rowc * colc)
        by (nonlinear_arith)
        requires
            0 <= i < rowc,
            0 <= j < colc,
    ;
}

impl<T> View for VecMatrix<T> {
    type V = Seq<Seq<T>>;

    /// The rows, each a sequence of `cols()` cells.
    closed spec fn view(&self) -> Seq<Seq<T>> {
        Seq::new(
            self.rowc as nat,
            |i: int| Seq::new(self.colc as nat, |j: int| self.values@[i * self.colc + j]),
        )
    }
}

impl<T> VecMatrix<T> {
    /// The cell store holds exactly `rowc * colc` cells.
    pub closed spec fn wf(&self) -> bool {
        &&& self.values@.len() == self.rowc * self.colc
        &&& self.rowc * self.colc <= usize::MAX
    }

    /// The number of columns (also meaningful when there are no rows).
    pub closed spec fn cols(&self) -> nat {
        self.colc as nat
    }

    /// Every row holds exactly `cols()` cells.
    pub proof fn lemma_shape(&self)
        ensures
            forall|i: int| 0 <= i < self@.len() ==> #[trigger] self@[i].len() == self.cols(),
    {
    }

    /// A `rowc` by `colc` matrix with every cell equal to `fill`.
    pub fn new(rowc: usize, colc: usize, fill: T) -> (r: VecMatrix<T>)
        where
            T: Copy,
        requires
            rowc * colc <= usize::MAX,
        ensures
            r@ == Seq::new(rowc as nat, |i: int| Seq::new(colc as nat, |j: int| fill)),
            r.cols() == colc,
            r.wf(),
    {
        let len: usize = rowc * colc;
        let mut values: Vec<T> = Vec::with_capacity(len);
        let mut k: usize = 0;
        while k < len
            invariant
                k <= len,
                values@.len() == k,
                forall|m: int| 0 <= m < k ==> values@[m] == fill,
            decreases len - k,
        {
            values.push(fill);
            k = k + 1;
        }
        let r = VecMatrix { values, rowc, colc };
        proof {
            assert forall|i: int, j: int| 0 <= i < rowc && 0 <= j < colc implies #[trigger] r.values@[i * colc + j]
                == fill by {
                lemma_cell_index(rowc as int, colc as int, i, j);
            }
            let expected = Seq::new(rowc as nat, |i: int| Seq::new(colc as nat, |j: int| fill));
            assert forall|i: int| 0 <= i < rowc implies #[trigger] r@[i] =~= expected[i] by {}
            assert(r@ =~= expected);
        }
        r
    }

    pub fn rowc(&self) -> (r: usize)
        ensures
            r == self@.len(),
    {
        self.rowc
    }

    pub fn colc(&self) -> (r: usize)
        ensures
            r == self.cols(),
    {
        self.colc
    }

    /// The cell at `row`, `col`, both in range.
    pub fn cell(&self, row: usize, col: usize) -> (r: &T)
        requires
            self.wf(),
            row < self@.len(),
            col < self.cols(),
        ensures
            *r == self@[row as int][col as int],
    {
        proof {
            lemma_cell_index(self.rowc as int, self.colc as int, row as int, col as int);
        }
        &self.values[row * self.colc + col]
    }

    /// Replaces the cell at `row`, `col`, both in range.
    pub fn set_cell(&mut self, row: usize, col: usize, value: T)
        requires
            old(self).wf(),
            row < old(self)@.len(),
            col < old(self).cols(),
        ensures
            final(self)@ == old(self)@.update(
                row as int,
                old(self)@[row as int].update(col as int, value),
            ),
            final(self).cols() == old(self).cols(),
            final(self).wf(),
    {
        proof {
            lemma_cell_index(self.rowc as int, self.colc as int, row as int, col as int);
        }
        let ghost before = self@;
        assert(before[row as int].len() == self.colc);
        let idx: usize = row * self.colc + col;
        self.values.set(idx, value);
        proof {
            let expected = before.update(row as int, before[row as int].update(col as int, value));
            assert forall|i: int| 0 <= i < self.rowc implies #[trigger] self@[i] =~= expected[i] by {
                assert(before[i].len() == self.colc);
                assert forall|j: int| 0 <= j < self.colc implies #[trigger] self@[i][j]
                    == expected[i][j] by {
                    lemma_cell_index(self.rowc as int, self.colc as int, i, j);
                    if i != row || j != col {
                        assert(i * self.colc + j != row * self.colc + col) by (nonlinear_arith)
                            requires
                                0 <= i,
                                0 <= row,
                                0 <= j < self.colc,
                                0 <= col < self.colc,
                                i != row || j != col,
                        ;
                    }
                }
            }
            assert(self@ =~= before.update(row as int, before[row as int].update(col as int, value)));
        }
    }

    /// The cell at `row`, `col`, or `IndexOutOfRange`.
    pub fn get(&self, row: usize, col: usize) -> (r: Result<&T, MatrixError>)
        requires
            self.wf(),
        ensures
            row < self@.len() && col < self.cols() <==> r is Ok,
            r is Ok ==> *r->Ok_0 == self@[row as int][col as int],
            r is Err ==> r == Err::<&T, MatrixError>(MatrixError::IndexOutOfRange),
    {
        if row < self.rowc && col < self.colc {
            Ok(self.cell(row, col))
        } else {
            Err(MatrixError::IndexOutOfRange)
        }
    }

    /// Replaces the cell at `row`, `col`; out of range, nothing changes.
    pub fn set(&mut self, row: usize, col: usize, value: T) -> (r: Result<(), MatrixError>)
        requires
            old(self).wf(),
        ensures
            row < old(self)@.len() && col < old(self).cols() <==> r is Ok,
            r is Ok ==> final(self)@ == old(self)@.update(
                row as int,
                old(self)@[row as int].update(col as int, value),
            ),
            r is Err ==> r == Err::<(), MatrixError>(MatrixError::IndexOutOfRange) && final(self)@
                == old(self)@,
            final(self).cols() == old(self).cols(),
            final(self).wf(),
    {
        if row < self.rowc && col < self.colc {
            self.set_cell(row, col, value);
            Ok(())
        } else {
            Err(MatrixError::IndexOutOfRange)
        }
    }

    /// The `colc` contiguous cells of one row, or `IndexOutOfRange`.
    pub fn row(&self, row: usize) -> (r: Result<&[T], MatrixError>)
        requires
            self.wf(),
        ensures
            row < self@.len() <==> r is Ok,
            r is Ok ==> r->Ok_0@ == self@[row as int],
            r is Err ==> r == Err::<&[T], MatrixError>(MatrixError::IndexOutOfRange),
    {
        if row >= self.rowc {
            return Err(MatrixError::IndexOutOfRange);
        }
        proof {
            if self.colc > 0 {
                lemma_cell_index(self.rowc as int, self.colc as int, row as int, 0);
            } else {
                assert(row * self.colc == 0) by (nonlinear_arith)
                    requires
                        self.colc == 0,
                ;
            }
        }
        let begin: usize = row * self.colc;
        let cells = slice_subrange(self.values.as_slice(), begin, begin + self.colc);
        proof {
            assert(cells@ =~= self@[row as int]);
        }
        Ok(cells)
    }
}

/// Builds an `R` by `C` matrix of rationals from a rectangular array of integers.
pub fn literal<const R: usize, const C: usize>(arr: &[[isize; C]; R]) -> (r: VecMatrix<Rational>)
    requires
        R * C <= usize::MAX,
    ensures
        r@.len() == R,
        r.cols() == C,
        r.wf(),
        forall|i: int, j: int|
            0 <= i < R && 0 <= j < C ==> (#[trigger] r@[i][j])@ == int_frac(arr@[i]@[j] as int)
                && r@[i][j].wf(),
{
    let mut matrix = VecMatrix::new(R, C, Rational::zero());
    let mut i: usize = 0;
    while i < R
        invariant
            i <= R,
            matrix@.len() == R,
            matrix.cols() == C,
            matrix.wf(),
            forall|a: int| 0 <= a < R ==> #[trigger] matrix@[a].len() == C,
            forall|a: int, b: int|
                0 <= a < i && 0 <= b < C ==> (#[trigger] matrix@[a][b])@ == int_frac(
                    arr@[a]@[b] as int,
                ) && matrix@[a][b].wf(),
        decreases R - i,
    {
        let mut j: usize = 0;
        while j < C
            invariant
                i < R,
                j <= C,
                matrix@.len() == R,
                matrix.cols() == C,
                matrix.wf(),
                forall|a: int| 0 <= a < R ==> #[trigger] matrix@[a].len() == C,
                forall|a: int, b: int|
                    (0 <= a < i && 0 <= b < C) || (a == i && 0 <= b < j) ==> (#[trigger] matrix@[a][b])@
                        == int_frac(arr@[a]@[b] as int) && matrix@[a][b].wf(),
            decreases C - j,
        {
            let value = Rational::from_int(arr[i][j]);
            matrix.set_cell(i, j, value);
            j = j + 1;
        }
        i = i + 1;
    }
    matrix
}

} // verus!
