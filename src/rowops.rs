use crate::matrix::VecMatrix;
use crate::rational::{add_fits, add_frac, mul_fits, mul_frac, Frac, Rational, RationalError};
use vstd::prelude::*;

verus! {

/// Every cell is a canonical rational.
pub open spec fn cells_wf(m: Seq<Seq<Rational>>) -> bool {
    forall|i: int, j: int| 0 <= i < m.len() && 0 <= j < m[i].len() ==> (#[trigger] m[i][j]).wf()
}

/// A well-formed matrix of canonical rationals whose rows all have `cols()` cells.
pub open spec fn rational_matrix(m: VecMatrix<Rational>) -> bool {
    &&& m.wf()
    &&& cells_wf(m@)
    &&& forall|i: int| 0 <= i < m@.len() ==> (#[trigger] m@[i]).len() == m.cols()
}

/// An elementary row operation on a matrix of fractions.
pub enum RowOp {
    /// Exchange two rows.
    Swap(int, int),
    /// Multiply a row by a value.
    Scale(int, Frac),
    /// Add a multiple of the second row to the first.
    AddMultiple(int, int, Frac),
}

/// The matrix with each cell replaced by its model.
pub open spec fn frac_view(m: Seq<Seq<Rational>>) -> Seq<Seq<Frac>> {
    m.map_values(|row: Seq<Rational>| row.map_values(|x: Rational| x@))
}

/// The operation names rows of `m`, scales by a nonzero value, and adds a
/// multiple of a row to a different row: it can be undone.
pub open spec fn op_ok(m: Seq<Seq<Frac>>, op: RowOp) -> bool {
    match op {
        RowOp::Swap(a, b) => 0 <= a < m.len() && 0 <= b < m.len(),
        RowOp::Scale(r, s) => 0 <= r < m.len() && s.num != 0,
        RowOp::AddMultiple(d, src, _) => 0 <= d < m.len() && 0 <= src < m.len() && d != src,
    }
}

pub open spec fn apply_op(m: Seq<Seq<Frac>>, op: RowOp) -> Seq<Seq<Frac>> {
    match op {
        RowOp::Swap(a, b) => m.update(a, m[b]).update(b, m[a]),
        RowOp::Scale(r, s) => m.update(r, m[r].map_values(|x: Frac| mul_frac(x, s))),
        RowOp::AddMultiple(d, src, k) => m.update(
            d,
            Seq::new(m[d].len(), |c: int| add_frac(m[d][c], mul_frac(m[src][c], k))),
        ),
    }
}

/// The operations applied in order.
pub open spec fn apply_ops(m: Seq<Seq<Frac>>, ops: Seq<RowOp>) -> Seq<Seq<Frac>>
    decreases ops.len(),
{
    if ops.len() == 0 {
        m
    } else {
        apply_op(apply_ops(m, ops.drop_last()), ops.last())
    }
}

/// Each operation is valid on the matrix it is applied to.
pub open spec fn ops_ok(m: Seq<Seq<Frac>>, ops: Seq<RowOp>) -> bool {
    forall|i: int| 0 <= i < ops.len() ==> op_ok(apply_ops(m, ops.take(i)), #[trigger] ops[i])
}

/// `to` arises from `from` by a sequence of elementary row operations.
pub open spec fn row_equivalent(from: Seq<Seq<Frac>>, to: Seq<Seq<Frac>>) -> bool {
    exists|ops: Seq<RowOp>| ops_ok(from, ops) && #[trigger] apply_ops(from, ops) == to
}

/// Appending a valid operation to a valid sequence.
pub proof fn lemma_ops_push(m: Seq<Seq<Frac>>, ops: Seq<RowOp>, op: RowOp)
    requires
        ops_ok(m, ops),
        op_ok(apply_ops(m, ops), op),
    ensures
        ops_ok(m, ops.push(op)),
        apply_ops(m, ops.push(op)) == apply_op(apply_ops(m, ops), op),
{
    let ops2 = ops.push(op);
    assert(ops2.drop_last() =~= ops);
    assert forall|i: int| 0 <= i < ops2.len() implies op_ok(
        apply_ops(m, ops2.take(i)),
        #[trigger] ops2[i],
    ) by {
        if i < ops.len() {
            assert(ops2.take(i) =~= ops.take(i));
            assert(ops2[i] == ops[i]);
        } else {
            assert(ops2.take(i) =~= ops);
        }
    }
}

/// Multiplying every cell of row `r` by `s` stays within machine words.
pub open spec fn scale_fits(m: Seq<Seq<Frac>>, r: int, s: Frac) -> bool {
    forall|c: int| 0 <= c < m[r].len() ==> mul_fits(#[trigger] m[r][c], s)
}

/// Adding `k` times row `src` into row `dest` stays within machine words.
pub open spec fn add_row_fits(m: Seq<Seq<Frac>>, dest: int, src: int, k: Frac) -> bool {
    forall|c: int| 0 <= c < m[dest].len() ==> row_add_fits(#[trigger] m[dest][c], m[src][c], k)
}

/// `dest + src * k` can be formed without overflow.
pub open spec fn row_add_fits(dest: Frac, src: Frac, k: Frac) -> bool {
    mul_fits(src, k) && add_fits(dest, mul_frac(src, k))
}

proof fn lemma_set_cell_wf(m: Seq<Seq<Rational>>, n: nat, row: int, col: int, v: Rational)
    requires
        cells_wf(m),
        forall|i: int| 0 <= i < m.len() ==> (#[trigger] m[i]).len() == n,
        0 <= row < m.len(),
        0 <= col < n,
        v.wf(),
    ensures
        cells_wf(m.update(row, m[row].update(col, v))),
        forall|i: int|
            0 <= i < m.len() ==> (#[trigger] m.update(row, m[row].update(col, v))[i]).len() == n,
{
    let m1 = m.update(row, m[row].update(col, v));
    assert forall|i: int, j: int| 0 <= i < m1.len() && 0 <= j < m1[i].len() implies (
    #[trigger] m1[i][j]).wf() by {
        if i == row && j != col {
            assert(m1[i][j] == m[i][j]);
        }
        if i != row {
            assert(m1[i][j] == m[i][j]);
        }
    }
}

/// Multiplies every cell of row `row` by `scalar`. If any product overflows,
/// the matrix is left unchanged.
pub fn scale(matrix: &mut VecMatrix<Rational>, row: usize, scalar: &Rational) -> (r: Result<
    (),
    RationalError,
>)
    requires
        rational_matrix(*old(matrix)),
        scalar.wf(),
        row < old(matrix)@.len(),
    ensures
        rational_matrix(*final(matrix)),
        final(matrix).cols() == old(matrix).cols(),
        final(matrix)@.len() == old(matrix)@.len(),
        (forall|c: int|
            0 <= c < old(matrix).cols() ==> mul_fits(#[trigger] old(matrix)@[row as int][c]@, scalar@))
            <==> r is Ok,
        scale_fits(frac_view(old(matrix)@), row as int, scalar@) <==> r is Ok,
        r is Ok ==> forall|i: int|
            0 <= i < old(matrix)@.len() && i != row ==> #[trigger] final(matrix)@[i] == old(matrix)@[i],
        r is Ok ==> frac_view(final(matrix)@) == apply_op(
            frac_view(old(matrix)@),
            RowOp::Scale(row as int, scalar@),
        ),
        r is Ok ==> forall|c: int|
            0 <= c < old(matrix).cols() ==> (#[trigger] final(matrix)@[row as int][c])@ == mul_frac(
                old(matrix)@[row as int][c]@,
                scalar@,
            ),
        r is Err ==> r == Err::<(), RationalError>(RationalError::ArithmeticOverflow) && final(matrix)@ == old(matrix)@,
{
    let ghost m0 = matrix@;
    let cols = matrix.colc();
    let mut scaled: Vec<Rational> = Vec::new();
    let mut c: usize = 0;
    while c < cols
        invariant
            rational_matrix(*matrix),
            matrix@ == m0,
            cols == matrix.cols(),
            row < m0.len(),
            scalar.wf(),
            c <= cols,
            scaled@.len() == c,
            forall|k: int|
                0 <= k < c ==> mul_fits(#[trigger] m0[row as int][k]@, scalar@) && scaled@[k]@
                    == mul_frac(m0[row as int][k]@, scalar@) && scaled@[k].wf(),
        decreases cols - c,
    {
        let mut cell = *matrix.cell(row, c);
        match cell.mul_inplace(scalar) {
            Ok(()) => {},
            Err(e) => {
                proof {
                    assert(frac_view(m0)[row as int][c as int] == m0[row as int][c as int]@);
                }
                return Err(e);
            },
        }
        scaled.push(cell);
        c = c + 1;
    }
    proof {
        let f0 = frac_view(m0);
        assert forall|k: int| 0 <= k < f0[row as int].len() implies mul_fits(
            #[trigger] f0[row as int][k],
            scalar@,
        ) by {
            assert(mul_fits(m0[row as int][k]@, scalar@));
        }
    }
    c = 0;
    while c < cols
        invariant
            rational_matrix(*matrix),
            matrix@.len() == m0.len(),
            cols == matrix.cols(),
            cells_wf(m0),
            forall|i: int| 0 <= i < m0.len() ==> (#[trigger] m0[i]).len() == cols,
            row < m0.len(),
            c <= cols,
            scaled@.len() == cols,
            forall|k: int|
                0 <= k < cols ==> scaled@[k]@ == mul_frac(#[trigger] m0[row as int][k]@, scalar@)
                    && scaled@[k].wf(),
            forall|i: int| 0 <= i < m0.len() && i != row ==> #[trigger] matrix@[i] == m0[i],
            forall|k: int|
                0 <= k < c ==> (#[trigger] matrix@[row as int][k])@ == mul_frac(
                    m0[row as int][k]@,
                    scalar@,
                ),
            forall|k: int| c <= k < cols ==> #[trigger] matrix@[row as int][k] == m0[row as int][k],
        decreases cols - c,
    {
        proof {
            assert(scaled@[c as int]@ == mul_frac(m0[row as int][c as int]@, scalar@));
            lemma_set_cell_wf(matrix@, matrix.cols(), row as int, c as int, scaled@[c as int]);
        }
        matrix.set_cell(row, c, scaled[c]);
        c = c + 1;
    }
    proof {
        let f0 = frac_view(m0);
        let expected = apply_op(f0, RowOp::Scale(row as int, scalar@));
        let f = frac_view(matrix@);
        assert forall|i: int| 0 <= i < m0.len() implies #[trigger] f[i] =~= expected[i] by {
            if i == row {
                assert forall|k: int| 0 <= k < cols implies #[trigger] f[i][k] == expected[i][k] by {
                    assert(matrix@[row as int][k]@ == mul_frac(m0[row as int][k]@, scalar@));
                }
            } else {
                assert(matrix@[i] == m0[i]);
            }
        }
        assert(f =~= expected);
    }
    Ok(())
}

/// Adds `scalar` times row `src_row_idx` into row `dest_row_idx`. If any
/// product or sum overflows, the matrix is left unchanged.
pub fn add(
    matrix: &mut VecMatrix<Rational>,
    dest_row_idx: usize,
    src_row_idx: usize,
    scalar: &Rational,
) -> (r: Result<(), RationalError>)
    requires
        rational_matrix(*old(matrix)),
        scalar.wf(),
        dest_row_idx < old(matrix)@.len(),
        src_row_idx < old(matrix)@.len(),
        dest_row_idx != src_row_idx,
    ensures
        rational_matrix(*final(matrix)),
        final(matrix).cols() == old(matrix).cols(),
        final(matrix)@.len() == old(matrix)@.len(),
        (forall|c: int|
            0 <= c < old(matrix).cols() ==> row_add_fits(
                #[trigger] old(matrix)@[dest_row_idx as int][c]@,
                old(matrix)@[src_row_idx as int][c]@,
                scalar@,
            )) <==> r is Ok,
        add_row_fits(
            frac_view(old(matrix)@),
            dest_row_idx as int,
            src_row_idx as int,
            scalar@,
        ) <==> r is Ok,
        r is Ok ==> forall|i: int|
            0 <= i < old(matrix)@.len() && i != dest_row_idx ==> #[trigger] final(matrix)@[i] == old(matrix)@[i],
        r is Ok ==> frac_view(final(matrix)@) == apply_op(
            frac_view(old(matrix)@),
            RowOp::AddMultiple(dest_row_idx as int, src_row_idx as int, scalar@),
        ),
        r is Ok ==> forall|c: int|
            0 <= c < old(matrix).cols() ==> (#[trigger] final(matrix)@[dest_row_idx as int][c])@
                == add_frac(
                old(matrix)@[dest_row_idx as int][c]@,
                mul_frac(old(matrix)@[src_row_idx as int][c]@, scalar@),
            ),
        r is Err ==> r == Err::<(), RationalError>(RationalError::ArithmeticOverflow) && final(matrix)@ == old(matrix)@,
{
    let ghost m0 = matrix@;
    let cols = matrix.colc();
    let mut sums: Vec<Rational> = Vec::new();
    let mut c: usize = 0;
    while c < cols
        invariant
            rational_matrix(*matrix),
            matrix@ == m0,
            cols == matrix.cols(),
            dest_row_idx < m0.len(),
            src_row_idx < m0.len(),
            scalar.wf(),
            c <= cols,
            sums@.len() == c,
            forall|k: int|
                0 <= k < c ==> row_add_fits(
                    #[trigger] m0[dest_row_idx as int][k]@,
                    m0[src_row_idx as int][k]@,
                    scalar@,
                ) && sums@[k]@ == add_frac(
                    m0[dest_row_idx as int][k]@,
                    mul_frac(m0[src_row_idx as int][k]@, scalar@),
                ) && sums@[k].wf(),
        decreases cols - c,
    {
        let mut term = *matrix.cell(src_row_idx, c);
        proof {
            assert(frac_view(m0)[dest_row_idx as int][c as int] == m0[dest_row_idx as int][c as int]@);
            assert(frac_view(m0)[src_row_idx as int][c as int] == m0[src_row_idx as int][c as int]@);
        }
        match term.mul_inplace(scalar) {
            Ok(()) => {},
            Err(e) => {
                return Err(e);
            },
        }
        let mut sum = *matrix.cell(dest_row_idx, c);
        match sum.add_inplace(term) {
            Ok(()) => {},
            Err(e) => {
                return Err(e);
            },
        }
        sums.push(sum);
        c = c + 1;
    }
    proof {
        let f0 = frac_view(m0);
        assert forall|k: int| 0 <= k < f0[dest_row_idx as int].len() implies row_add_fits(
            #[trigger] f0[dest_row_idx as int][k],
            f0[src_row_idx as int][k],
            scalar@,
        ) by {
            assert(row_add_fits(
                m0[dest_row_idx as int][k]@,
                m0[src_row_idx as int][k]@,
                scalar@,
            ));
        }
    }
    c = 0;
    while c < cols
        invariant
            rational_matrix(*matrix),
            matrix@.len() == m0.len(),
            cols == matrix.cols(),
            cells_wf(m0),
            forall|i: int| 0 <= i < m0.len() ==> (#[trigger] m0[i]).len() == cols,
            dest_row_idx < m0.len(),
            c <= cols,
            sums@.len() == cols,
            forall|k: int|
                0 <= k < cols ==> sums@[k]@ == add_frac(
                    #[trigger] m0[dest_row_idx as int][k]@,
                    mul_frac(m0[src_row_idx as int][k]@, scalar@),
                ) && sums@[k].wf(),
            forall|i: int| 0 <= i < m0.len() && i != dest_row_idx ==> #[trigger] matrix@[i] == m0[i],
            forall|k: int|
                0 <= k < c ==> (#[trigger] matrix@[dest_row_idx as int][k])@ == add_frac(
                    m0[dest_row_idx as int][k]@,
                    mul_frac(m0[src_row_idx as int][k]@, scalar@),
                ),
            forall|k: int|
                c <= k < cols ==> #[trigger] matrix@[dest_row_idx as int][k] == m0[dest_row_idx as int][k],
        decreases cols - c,
    {
        proof {
            lemma_set_cell_wf(matrix@, matrix.cols(), dest_row_idx as int, c as int, sums@[c as int]);
            assert(sums@[c as int]@ == add_frac(m0[dest_row_idx as int][c as int]@, mul_frac(m0[src_row_idx as int][c as int]@, scalar@)));
        }
        matrix.set_cell(dest_row_idx, c, sums[c]);
        c = c + 1;
    }
    proof {
        let f0 = frac_view(m0);
        let expected = apply_op(
            f0,
            RowOp::AddMultiple(dest_row_idx as int, src_row_idx as int, scalar@),
        );
        let f = frac_view(matrix@);
        assert forall|i: int| 0 <= i < m0.len() implies #[trigger] f[i] =~= expected[i] by {
            if i == dest_row_idx {
                assert forall|k: int| 0 <= k < cols implies #[trigger] f[i][k] == expected[i][k] by {
                    assert(matrix@[i][k]@ == add_frac(
                        m0[i][k]@,
                        mul_frac(m0[src_row_idx as int][k]@, scalar@),
                    ));
                }
            } else {
                assert(matrix@[i] == m0[i]);
            }
        }
        assert(f =~= expected);
    }
    Ok(())
}

/// Exchanges rows `a` and `b`.
pub fn swap(matrix: &mut VecMatrix<Rational>, a: usize, b: usize)
    requires
        rational_matrix(*old(matrix)),
        a < old(matrix)@.len(),
        b < old(matrix)@.len(),
    ensures
        rational_matrix(*final(matrix)),
        final(matrix).cols() == old(matrix).cols(),
        final(matrix)@ == old(matrix)@.update(a as int, old(matrix)@[b as int]).update(
            b as int,
            old(matrix)@[a as int],
        ),
        frac_view(final(matrix)@) == apply_op(
            frac_view(old(matrix)@),
            RowOp::Swap(a as int, b as int),
        ),
{
    let ghost m0 = matrix@;
    let cols = matrix.colc();
    let mut temp: Vec<Rational> = Vec::with_capacity(cols);
    let mut i: usize = 0;
    while i < cols
        invariant
            matrix@ == m0,
            rational_matrix(*matrix),
            cols == matrix.cols(),
            a < m0.len(),
            i <= cols,
            temp@.len() == i,
            forall|k: int| 0 <= k < i ==> temp@[k] == #[trigger] m0[a as int][k],
        decreases cols - i,
    {
        temp.push(*matrix.cell(a, i));
        i = i + 1;
    }
    i = 0;
    while i < cols
        invariant
            rational_matrix(*matrix),
            matrix@.len() == m0.len(),
            cols == matrix.cols(),
            cells_wf(m0),
            forall|i: int| 0 <= i < m0.len() ==> (#[trigger] m0[i]).len() == cols,
            a < m0.len(),
            b < m0.len(),
            i <= cols,
            temp@.len() == cols,
            forall|k: int| 0 <= k < cols ==> temp@[k] == #[trigger] m0[a as int][k],
            forall|r: int, k: int|
                0 <= r < m0.len() && 0 <= k < cols ==> #[trigger] matrix@[r][k] == if r == b && k
                    < i {
                    m0[a as int][k]
                } else if r == a && k < i {
                    m0[b as int][k]
                } else {
                    m0[r][k]
                },
        decreases cols - i,
    {
        let v = *matrix.cell(b, i);
        proof {
            lemma_set_cell_wf(matrix@, matrix.cols(), a as int, i as int, v);
        }
        matrix.set_cell(a, i, v);
        proof {
            assert(temp@[i as int] == m0[a as int][i as int]);
            lemma_set_cell_wf(matrix@, matrix.cols(), b as int, i as int, temp@[i as int]);
        }
        matrix.set_cell(b, i, temp[i]);
        i = i + 1;
    }
    proof {
        let expected = m0.update(a as int, m0[b as int]).update(b as int, m0[a as int]);
        assert forall|r: int| 0 <= r < m0.len() implies #[trigger] matrix@[r] =~= expected[r] by {}
        assert(matrix@ =~= expected);
        let f0 = frac_view(m0);
        let fexp = apply_op(f0, RowOp::Swap(a as int, b as int));
        let f = frac_view(matrix@);
        assert forall|r: int| 0 <= r < m0.len() implies #[trigger] f[r] =~= fexp[r] by {}
        assert(f =~= fexp);
    }
}

} // verus!
