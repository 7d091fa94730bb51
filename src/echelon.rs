use crate::matrix::VecMatrix;
use crate::rational::{
    add_frac, lemma_add_zero_right, lemma_additive_identity, lemma_inverse_law, lemma_mul_one,
    lemma_mul_zero_left, lemma_normalize, lemma_normalize_canonical, lemma_zero_canonical, mul_frac,
    inverse_frac, neg_frac, one_frac, zero_frac, Frac, Rational, RationalError,
};
use crate::rowops::{
    add_row_fits, apply_op, apply_ops, frac_view, lemma_ops_push, ops_ok, rational_matrix, row_equivalent,
    scale, scale_fits, swap, RowOp,
};
use vstd::prelude::*;

verus! {

pub open spec fn is_zero(x: Rational) -> bool {
    x@.num == 0
}

/// All cells of `row` before column `j` are zero.
pub open spec fn zero_before(row: Seq<Rational>, j: int) -> bool {
    forall|c: int| 0 <= c < j ==> is_zero(#[trigger] row[c])
}

/// Column of the first nonzero cell of `row` at or after `c`; `row.len()` if none.
pub open spec fn pivot_from(row: Seq<Rational>, c: int) -> int
    decreases row.len() - c,
{
    if c < 0 || c >= row.len() {
        row.len() as int
    } else if !is_zero(row[c]) {
        c
    } else {
        pivot_from(row, c + 1)
    }
}

/// Column of the leftmost nonzero cell of `row`; `row.len()` for a zero row.
pub open spec fn pivot(row: Seq<Rational>) -> int {
    pivot_from(row, 0)
}

/// Row echelon form over `n` columns: zero rows come last, and the pivot
/// column strictly increases from one nonzero row to any later one.
pub open spec fn is_ref(m: Seq<Seq<Rational>>, n: nat) -> bool {
    &&& forall|r: int| 0 <= r < m.len() ==> (#[trigger] m[r]).len() == n
    &&& forall|r1: int, r2: int|
        0 <= r1 < r2 < m.len() ==> pivot(#[trigger] m[r2]) == n || pivot(#[trigger] m[r1]) < pivot(
            m[r2],
        )
}

/// Every pivot cell is exactly one.
pub open spec fn pivots_one(m: Seq<Seq<Rational>>, n: nat) -> bool {
    forall|r: int| 0 <= r < m.len() && pivot(#[trigger] m[r]) < n ==> m[r][pivot(m[r])]@ == one_frac()
}

/// Reduced row echelon form: row echelon form, pivots equal to one, and every
/// other cell of a pivot's column zero.
pub open spec fn is_rref(m: Seq<Seq<Rational>>, n: nat) -> bool {
    &&& is_ref(m, n)
    &&& pivots_one(m, n)
    &&& forall|r1: int, r2: int|
        0 <= r1 < m.len() && 0 <= r2 < m.len() && r1 != r2 && pivot(#[trigger] m[r1]) < n ==> is_zero(
            #[trigger] m[r2][pivot(m[r1])],
        )
}

/// First row at or after `k` whose cell in column `j` is nonzero; `m.len()` if none.
pub open spec fn first_nonzero(m: Seq<Seq<Frac>>, j: int, k: int) -> int
    decreases m.len() - k,
{
    if k < 0 || k >= m.len() {
        m.len() as int
    } else if m[k][j].num != 0 {
        k
    } else {
        first_nonzero(m, j, k + 1)
    }
}

/// Zeroes column `j` in rows `k..end` by adding to each row with a nonzero
/// entry there the negated entry times the pivot row `i`; `None` as soon as
/// one addition would overflow.
pub open spec fn clear_column(m: Seq<Seq<Frac>>, i: int, j: int, k: int, end: int) -> Option<
    Seq<Seq<Frac>>,
>
    decreases end - k,
{
    if k >= end {
        Some(m)
    } else if m[k][j].num == 0 {
        clear_column(m, i, j, k + 1, end)
    } else {
        let s = neg_frac(m[k][j]);
        if add_row_fits(m, k, i, s) {
            clear_column(apply_op(m, RowOp::AddMultiple(k, i, s)), i, j, k + 1, end)
        } else {
            None
        }
    }
}

/// The forward pass from cursor `(i, j)`: find a row at or below `i` with a
/// nonzero entry in column `j` (none: move to the next column), swap it up,
/// scale it by the entry's inverse, clear the column below, and move the
/// cursor down and right. `None` when an operation would overflow.
pub open spec fn forward(m: Seq<Seq<Frac>>, rows: nat, n: nat, i: nat, j: nat) -> Option<
    Seq<Seq<Frac>>,
>
    decreases (rows - i) + (n - j),
{
    if i >= rows || j >= n {
        Some(m)
    } else {
        let k = first_nonzero(m, j as int, i as int);
        if k >= rows {
            forward(m, rows, n, i, j + 1)
        } else {
            let m1 = if k == i {
                m
            } else {
                apply_op(m, RowOp::Swap(i as int, k))
            };
            let s = inverse_frac(m1[i as int][j as int]);
            if !scale_fits(m1, i as int, s) {
                None
            } else {
                match clear_column(
                    apply_op(m1, RowOp::Scale(i as int, s)),
                    i as int,
                    j as int,
                    i + 1 as int,
                    rows as int,
                ) {
                    Some(m2) => forward(m2, rows, n, i + 1, j + 1),
                    None => None,
                }
            }
        }
    }
}

/// The backward pass from cursor `(i, j)` over a matrix in row echelon form:
/// a zero at `(i, j)` moves to the next column; a pivot clears its column
/// above and moves the cursor down and right.
pub open spec fn backward(m: Seq<Seq<Frac>>, rows: nat, n: nat, i: nat, j: nat) -> Option<
    Seq<Seq<Frac>>,
>
    decreases (rows - i) + (n - j),
{
    if i >= rows || j >= n {
        Some(m)
    } else if m[i as int][j as int].num == 0 {
        backward(m, rows, n, i, j + 1)
    } else {
        match clear_column(m, i as int, j as int, 0, i as int) {
            Some(m2) => backward(m2, rows, n, i + 1, j + 1),
            None => None,
        }
    }
}

/// What row reduction to echelon form makes of `m` (with `n` columns), or
/// `None` when an intermediate value would overflow.
pub open spec fn echelon_result(m: Seq<Seq<Frac>>, n: nat) -> Option<Seq<Seq<Frac>>> {
    forward(m, m.len(), n, 0, 0)
}

/// What reduction to reduced echelon form makes of `m`, or `None` on overflow.
pub open spec fn reduced_result(m: Seq<Seq<Frac>>, n: nat) -> Option<Seq<Seq<Frac>>> {
    match echelon_result(m, n) {
        Some(m1) => backward(m1, m.len(), n, 0, 0),
        None => None,
    }
}

proof fn lemma_pivot_from(row: Seq<Rational>, c: int)
    requires
        0 <= c <= row.len(),
    ensures
        c <= pivot_from(row, c) <= row.len(),
        forall|k: int| c <= k < pivot_from(row, c) ==> is_zero(#[trigger] row[k]),
        pivot_from(row, c) < row.len() ==> !is_zero(row[pivot_from(row, c)]),
    decreases row.len() - c,
{
    if c < row.len() && is_zero(row[c]) {
        lemma_pivot_from(row, c + 1);
    }
}

/// The pivot is the first nonzero column, or the row length.
proof fn lemma_pivot(row: Seq<Rational>)
    ensures
        0 <= pivot(row) <= row.len(),
        zero_before(row, pivot(row)),
        pivot(row) < row.len() ==> !is_zero(row[pivot(row)]),
{
    lemma_pivot_from(row, 0);
}

proof fn lemma_pivot_at_from(row: Seq<Rational>, c: int, p: int)
    requires
        0 <= c <= p <= row.len(),
        forall|k: int| c <= k < p ==> is_zero(#[trigger] row[k]),
        p == row.len() || !is_zero(row[p]),
    ensures
        pivot_from(row, c) == p,
    decreases row.len() - c,
{
    if c < p {
        lemma_pivot_at_from(row, c + 1, p);
    }
}

/// A row that is zero before `p` and nonzero at `p` (or ends there) has pivot `p`.
proof fn lemma_pivot_at(row: Seq<Rational>, p: int)
    requires
        0 <= p <= row.len(),
        zero_before(row, p),
        p == row.len() || !is_zero(row[p]),
    ensures
        pivot(row) == p,
{
    lemma_pivot_at_from(row, 0, p);
}

/// Invariant of the forward pass at cursor `(i, j)`: rows above `i` have
/// increasing pivots left of `j`, each equal to one; rows from `i` on are zero
/// left of `j`.
spec fn forward_inv(m: Seq<Seq<Rational>>, n: nat, i: int, j: int) -> bool {
    &&& forall|r: int| 0 <= r < m.len() ==> (#[trigger] m[r]).len() == n
    &&& forall|r: int|
        0 <= r < i ==> pivot(#[trigger] m[r]) < j && m[r][pivot(m[r])]@ == one_frac()
    &&& forall|r1: int, r2: int|
        0 <= r1 < r2 < i ==> pivot(#[trigger] m[r1]) < pivot(#[trigger] m[r2])
    &&& forall|r: int| i <= r < m.len() ==> zero_before(#[trigger] m[r], j)
}

/// Computes the row echelon form in place, scaling each pivot to one.
/// Succeeds exactly when `echelon_result` has a value, and leaves that value;
/// otherwise an intermediate value would overflow, and the matrix holds an
/// intermediate state that is still row-equivalent to the input.
pub fn row_echelon(matrix: &mut VecMatrix<Rational>) -> (r: Result<(), RationalError>)
    requires
        rational_matrix(*old(matrix)),
    ensures
        rational_matrix(*final(matrix)),
        final(matrix).cols() == old(matrix).cols(),
        final(matrix)@.len() == old(matrix)@.len(),
        r is Ok ==> is_ref(final(matrix)@, final(matrix).cols()) && pivots_one(
            final(matrix)@,
            final(matrix).cols(),
        ),
        r is Err ==> r == Err::<(), RationalError>(RationalError::ArithmeticOverflow),
        is_rref(old(matrix)@, old(matrix).cols()) ==> r is Ok && final(matrix)@ == old(matrix)@,
        row_equivalent(frac_view(old(matrix)@), frac_view(final(matrix)@)),
        r is Ok <==> echelon_result(frac_view(old(matrix)@), old(matrix).cols()) is Some,
        r is Ok ==> echelon_result(frac_view(old(matrix)@), old(matrix).cols()) == Some(
            frac_view(final(matrix)@),
        ),
{
    let rowc = matrix.rowc();
    let colc = matrix.colc();
    let ghost n = matrix.cols();
    let mut i: usize = 0;
    let mut j: usize = 0;
    let ghost f0 = frac_view(matrix@);
    let ghost mut ops: Seq<RowOp> = Seq::empty();
    let ghost target = forward(f0, rowc as nat, n, 0, 0);
    proof {
        assert(apply_ops(f0, ops) == f0);
    }
    while i < rowc && j < colc
        invariant
            rational_matrix(*matrix),
            matrix@.len() == rowc,
            matrix.cols() == n,
            colc == n,
            n == old(matrix).cols(),
            rowc == old(matrix)@.len(),
            i <= rowc,
            j <= colc,
            forward_inv(matrix@, n, i as int, j as int),
            ops_ok(f0, ops),
            apply_ops(f0, ops) == frac_view(matrix@),
            f0 == frac_view(old(matrix)@),
            is_rref(old(matrix)@, n) ==> matrix@ == old(matrix)@,
            target == echelon_result(frac_view(old(matrix)@), n),
            forward(frac_view(matrix@), rowc as nat, n, i as nat, j as nat) == target,
        decreases (rowc - i) + (colc - j),
    {
        let ghost fs = frac_view(matrix@);
        let ghost mut piv_row: int = i as int;
        proof {
            assert(fs[i as int][j as int] == matrix@[i as int][j as int]@);
        }
        if matrix.cell(i, j).numerator() == 0 {
            // Look below for a row with a nonzero entry in this column.
            let mut k: usize = i + 1;
            while k < rowc && matrix.cell(k, j).numerator() == 0
                invariant
                    rational_matrix(*matrix),
                    matrix@.len() == rowc,
                    matrix.cols() == n,
                    colc == n,
                    i < k <= rowc,
                    j < colc,
                    forall|q: int| i < q < k ==> is_zero(#[trigger] matrix@[q][j as int]),
                    ops_ok(f0, ops),
                    apply_ops(f0, ops) == frac_view(matrix@),
                    f0 == frac_view(old(matrix)@),
                    frac_view(matrix@) == fs,
                    first_nonzero(fs, j as int, i as int) == first_nonzero(fs, j as int, k as int),
                decreases rowc - k,
            {
                proof {
                    assert(fs[k as int][j as int] == matrix@[k as int][j as int]@);
                }
                k = k + 1;
            }
            proof {
                if k < rowc {
                    assert(fs[k as int][j as int] == matrix@[k as int][j as int]@);
                }
            }
            proof {
                // In reduced form no row below has an entry in this column.
                if is_rref(old(matrix)@, n) && k < rowc {
                    let m = matrix@;
                    assert(zero_before(m[i as int], j as int));
                    assert(zero_before(m[i as int], j + 1));
                    lemma_pivot_lower_bound(m[i as int], j + 1);
                    assert(pivot(m[k as int]) == n || pivot(m[i as int]) < pivot(m[k as int]));
                    lemma_pivot(m[k as int]);
                    assert(is_zero(m[k as int][j as int]));
                }
            }
            if k < rowc {
                swap(matrix, i, k);
                proof {
                    piv_row = k as int;
                    lemma_ops_push(f0, ops, RowOp::Swap(i as int, k as int));
                    ops = ops.push(RowOp::Swap(i as int, k as int));
                }
            } else {
                // No row at or below `i` has a pivot in this column.
                proof {
                    let m = matrix@;
                    assert forall|r: int| i <= r < m.len() implies zero_before(
                        #[trigger] m[r],
                        j + 1,
                    ) by {
                        assert(zero_before(m[r], j as int));
                        if r > i {
                            assert(is_zero(matrix@[r][j as int]));
                        }
                        assert(is_zero(m[r][j as int]));
                    }
                }
                j = j + 1;
                continue;
            }
        }
        let ghost m1 = matrix@;
        let ghost m1f = frac_view(m1);
        assert(!is_zero(m1[i as int][j as int]));
        proof {
            assert(first_nonzero(fs, j as int, i as int) == piv_row);
            assert(m1f == if piv_row == i {
                fs
            } else {
                apply_op(fs, RowOp::Swap(i as int, piv_row))
            });
            assert(m1f[i as int][j as int] == m1[i as int][j as int]@);
        }
        proof {
            lemma_zero_canonical(one_frac());
            lemma_normalize_canonical(one_frac());
            if is_rref(old(matrix)@, n) {
                lemma_pivot_at(m1[i as int], j as int);
                assert(m1[i as int][j as int]@ == one_frac());
                assert forall|c: int| 0 <= c < n implies crate::rational::mul_fits(
                    #[trigger] m1[i as int][c]@,
                    one_frac(),
                ) by {
                    lemma_mul_one(m1[i as int][c]@);
                }
            }
        }
        let minv = match Rational::multiplicative_inverse(matrix.cell(i, j)) {
            Ok(x) => x,
            Err(e) => {
                return Err(e);
            },
        };
        proof {
            let x = m1[i as int][j as int]@;
            lemma_normalize(x.sign, x.den, x.num);
        }
        proof {
            assert(forward(fs, rowc as nat, n, i as nat, j as nat) == if !scale_fits(
                m1f,
                i as int,
                minv@,
            ) {
                None
            } else {
                match clear_column(
                    apply_op(m1f, RowOp::Scale(i as int, minv@)),
                    i as int,
                    j as int,
                    i + 1 as int,
                    rowc as int,
                ) {
                    Some(m2) => forward(m2, rowc as nat, n, (i + 1) as nat, (j + 1) as nat),
                    None => None,
                }
            });
        }
        match scale(matrix, i, &minv) {
            Ok(()) => {},
            Err(e) => {
                proof {
                    assert(frac_view(m1) == m1f);
                    assert(!scale_fits(m1f, i as int, minv@));
                    assert(target is None);
                }
                return Err(e);
            },
        }
        proof {
            lemma_ops_push(f0, ops, RowOp::Scale(i as int, minv@));
            ops = ops.push(RowOp::Scale(i as int, minv@));
        }
        proof {
            let m = matrix@;
            if is_rref(old(matrix)@, n) {
                assert forall|c: int| 0 <= c < n implies #[trigger] m[i as int][c] == m1[i as int][c] by {
                    lemma_mul_one(m1[i as int][c]@);
                    Rational::lemma_view_injective(m[i as int][c], m1[i as int][c]);
                }
                assert forall|r: int| 0 <= r < rowc implies #[trigger] m[r] =~= m1[r] by {}
                assert(m =~= m1);
            }
            lemma_mul_zero_left(minv@);
            assert(crate::rational::mul_fits(m1[i as int][j as int]@, minv@));
            lemma_inverse_law(m1[i as int][j as int]@);
            assert(m[i as int][j as int]@ == one_frac());
            assert forall|c: int| 0 <= c < j implies is_zero(#[trigger] m[i as int][c]) by {
                assert(zero_before(m1[i as int], j as int));
                assert(is_zero(m1[i as int][c]));
                assert(m1[i as int][c].wf());
                lemma_zero_canonical(m1[i as int][c]@);
            }
        }
        let ghost m2 = matrix@;
        proof {
            if is_rref(old(matrix)@, n) {
                lemma_pivot_at(m2[i as int], j as int);
            }
        }
        let mut k: usize = i + 1;
        while k < rowc
            invariant
                rational_matrix(*matrix),
                matrix@.len() == rowc,
                matrix.cols() == n,
                n == old(matrix).cols(),
                rowc == old(matrix)@.len(),
                i < rowc,
                j < colc,
                colc == n,
                i < k <= rowc,
                m2.len() == rowc,
                forall|r: int| 0 <= r < rowc ==> (#[trigger] m2[r]).len() == n,
                forall|r: int| 0 <= r <= i ==> #[trigger] matrix@[r] == m2[r],
                forall|r: int| k <= r < rowc ==> #[trigger] matrix@[r] == m2[r],
                forall|r: int| i <= r < rowc ==> zero_before(#[trigger] m2[r], j as int),
                m2[i as int][j as int]@ == one_frac(),
                forall|r: int| i < r < k ==> zero_before(#[trigger] matrix@[r], j + 1),
                is_rref(old(matrix)@, n) ==> matrix@ == old(matrix)@ && pivot(m2[i as int]) == j,
                target == echelon_result(frac_view(old(matrix)@), n),
                target == match clear_column(
                    frac_view(matrix@),
                    i as int,
                    j as int,
                    k as int,
                    rowc as int,
                ) {
                    Some(m4) => forward(m4, rowc as nat, n, (i + 1) as nat, (j + 1) as nat),
                    None => None,
                },
                ops_ok(f0, ops),
                apply_ops(f0, ops) == frac_view(matrix@),
                f0 == frac_view(old(matrix)@),
            decreases rowc - k,
        {
            let ghost fk = frac_view(matrix@);
            proof {
                assert(fk[k as int][j as int] == matrix@[k as int][j as int]@);
            }
            if matrix.cell(k, j).numerator() != 0 {
                let ghost m3 = matrix@;
                let scalar = Rational::additive_inverse(matrix.cell(k, j));
                match crate::rowops::add(matrix, k, i, &scalar) {
                    Ok(()) => {},
                    Err(e) => {
                        proof {
                            assert(frac_view(m3) == fk);
                            assert(scalar@ == neg_frac(fk[k as int][j as int]));
                            assert(!add_row_fits(fk, k as int, i as int, scalar@));
                            assert(clear_column(fk, i as int, j as int, k as int, rowc as int) is None);
                            assert(target is None);
                        }
                        return Err(e);
                    },
                }
                proof {
                    lemma_ops_push(f0, ops, RowOp::AddMultiple(k as int, i as int, scalar@));
                    ops = ops.push(RowOp::AddMultiple(k as int, i as int, scalar@));
                }
                proof {
                    let m = matrix@;
                    lemma_mul_zero_left(scalar@);
                    lemma_mul_one(scalar@);
                    lemma_zero_canonical(zero_frac());
                    lemma_add_zero_right(zero_frac());
                    lemma_additive_identity(m3[k as int][j as int]@);
                    assert(m3[i as int] == m2[i as int]);
                    assert(m3[k as int] == m2[k as int]);
                    assert forall|c: int| 0 <= c <= j implies is_zero(#[trigger] m[k as int][c]) by {
                        assert(m[k as int][c]@ == add_frac(
                            m3[k as int][c]@,
                            mul_frac(m3[i as int][c]@, scalar@),
                        ));
                        if c < j {
                            assert(is_zero(m2[k as int][c]));
                            assert(is_zero(m2[i as int][c]));
                            assert(m3[k as int][c].wf());
                            assert(m3[i as int][c].wf());
                            lemma_zero_canonical(m3[k as int][c]@);
                            lemma_zero_canonical(m3[i as int][c]@);
                        }
                    }
                    assert(zero_before(m[k as int], j + 1));
                }
            } else {
                proof {
                    let m = matrix@;
                    assert(zero_before(m2[k as int], j as int));
                    assert forall|c: int| 0 <= c <= j implies is_zero(#[trigger] m[k as int][c]) by {
                        if c < j {
                            assert(is_zero(m2[k as int][c]));
                        }
                    }
                }
            }
            k = k + 1;
        }
        proof {
            let m = matrix@;
            assert(m[i as int] == m2[i as int]);
            lemma_pivot_at(m[i as int], j as int);
            assert forall|r: int| 0 <= r < i implies #[trigger] m[r] == m1[r] by {
                assert(m[r] == m2[r]);
            }
            assert forall|r: int| i + 1 <= r < rowc implies zero_before(#[trigger] m[r], j + 1) by {}
            assert forall|r1: int, r2: int|
                0 <= r1 < r2 < i + 1 implies pivot(#[trigger] m[r1]) < pivot(#[trigger] m[r2]) by {
                assert(m[r1] == m1[r1]);
                if r2 < i {
                    assert(m[r2] == m1[r2]);
                }
            }
            assert forall|r: int|
                0 <= r < i + 1 implies pivot(#[trigger] m[r]) < j + 1 && m[r][pivot(m[r])]@
                == one_frac() by {
                if r < i {
                    assert(m[r] == m1[r]);
                }
            }
        }
        i = i + 1;
        j = j + 1;
    }
    proof {
        let m = matrix@;
        assert(forward(frac_view(m), rowc as nat, n, i as nat, j as nat) == Some(frac_view(m)));
        assert forall|r: int| i <= r < rowc implies pivot(#[trigger] m[r]) == n by {
            if j == colc {
                lemma_pivot_at(m[r], n as int);
            }
        }
        assert forall|r1: int, r2: int|
            0 <= r1 < r2 < m.len() implies pivot(#[trigger] m[r2]) == n || pivot(#[trigger] m[r1])
            < pivot(m[r2]) by {}
        assert forall|r: int|
            0 <= r < m.len() && pivot(#[trigger] m[r]) < n implies m[r][pivot(m[r])]@
            == one_frac() by {}
    }
    Ok(())
}

/// Rows that agree left of `j`, where the first has its pivot, share that pivot.
proof fn lemma_pivot_agree(a: Seq<Rational>, b: Seq<Rational>, j: int)
    requires
        a.len() == b.len(),
        pivot(a) < j <= a.len(),
        forall|c: int| 0 <= c < j ==> #[trigger] a[c] == b[c],
    ensures
        pivot(b) == pivot(a),
{
    lemma_pivot(a);
    let p = pivot(a);
    assert forall|c: int| 0 <= c < p implies is_zero(#[trigger] b[c]) by {
        assert(a[c] == b[c]);
    }
    assert(a[p] == b[p]);
    lemma_pivot_at(b, p);
}

/// A row that is zero before `p` has its pivot at or after `p`.
proof fn lemma_pivot_lower_bound(row: Seq<Rational>, p: int)
    requires
        0 <= p <= row.len(),
        zero_before(row, p),
    ensures
        pivot(row) >= p,
{
    lemma_pivot(row);
    if pivot(row) < p {
        assert(is_zero(row[pivot(row)]));
    }
}

/// Invariant of the backward pass at cursor `(i, j)`: the matrix is in row
/// echelon form with unit pivots; rows above `i` have their pivots left of `j`
/// with those pivot columns cleared; rows from `i` on are zero left of `j`.
spec fn backward_inv(m: Seq<Seq<Rational>>, n: nat, i: int, j: int) -> bool {
    &&& is_ref(m, n)
    &&& pivots_one(m, n)
    &&& forall|r: int| 0 <= r < i ==> pivot(#[trigger] m[r]) < j
    &&& forall|r: int| i <= r < m.len() ==> zero_before(#[trigger] m[r], j)
    &&& forall|r1: int, r2: int|
        0 <= r1 < i && 0 <= r2 < m.len() && r1 != r2 ==> is_zero(
            #[trigger] m[r2][pivot(#[trigger] m[r1])],
        )
}

/// Computes the reduced row echelon form in place. Succeeds exactly when
/// `reduced_result` has a value, and leaves that value; otherwise an
/// intermediate value would overflow, and the matrix holds an intermediate
/// state that is still row-equivalent to the input.
pub fn reduced_row_echelon(matrix: &mut VecMatrix<Rational>) -> (r: Result<(), RationalError>)
    requires
        rational_matrix(*old(matrix)),
    ensures
        rational_matrix(*final(matrix)),
        final(matrix).cols() == old(matrix).cols(),
        final(matrix)@.len() == old(matrix)@.len(),
        r is Ok ==> is_rref(final(matrix)@, final(matrix).cols()),
        r is Err ==> r == Err::<(), RationalError>(RationalError::ArithmeticOverflow),
        is_rref(old(matrix)@, old(matrix).cols()) ==> r is Ok && final(matrix)@ == old(matrix)@,
        row_equivalent(frac_view(old(matrix)@), frac_view(final(matrix)@)),
        r is Ok <==> reduced_result(frac_view(old(matrix)@), old(matrix).cols()) is Some,
        r is Ok ==> reduced_result(frac_view(old(matrix)@), old(matrix).cols()) == Some(
            frac_view(final(matrix)@),
        ),
{
    match row_echelon(matrix) {
        Ok(()) => {},
        Err(e) => {
            return Err(e);
        },
    }
    let ghost f0 = frac_view(old(matrix)@);
    let ghost mut ops: Seq<RowOp> = choose|ops: Seq<RowOp>|
        ops_ok(f0, ops) && apply_ops(f0, ops) == frac_view(matrix@);
    let ghost target = reduced_result(f0, old(matrix).cols());
    let rowc = matrix.rowc();
    let colc = matrix.colc();
    let ghost n = matrix.cols();
    let mut i: usize = 0;
    let mut j: usize = 0;
    while i < rowc && j < colc
        invariant
            rational_matrix(*matrix),
            matrix@.len() == rowc,
            matrix.cols() == n,
            colc == n,
            n == old(matrix).cols(),
            rowc == old(matrix)@.len(),
            i <= rowc,
            j <= colc,
            backward_inv(matrix@, n, i as int, j as int),
            ops_ok(f0, ops),
            apply_ops(f0, ops) == frac_view(matrix@),
            f0 == frac_view(old(matrix)@),
            is_rref(old(matrix)@, n) ==> matrix@ == old(matrix)@,
            target == reduced_result(frac_view(old(matrix)@), n),
            backward(frac_view(matrix@), rowc as nat, n, i as nat, j as nat) == target,
        decreases (rowc - i) + (colc - j),
    {
        let ghost ma = matrix@;
        proof {
            assert(frac_view(ma)[i as int][j as int] == ma[i as int][j as int]@);
        }
        // Below the cursor every entry of this column is already zero.
        if matrix.cell(i, j).numerator() == 0 {
            proof {
                assert forall|r: int| i <= r < rowc implies zero_before(#[trigger] ma[r], j + 1) by {
                    assert(zero_before(ma[i as int], j as int));
                    assert(zero_before(ma[i as int], j + 1));
                    lemma_pivot_lower_bound(ma[i as int], j + 1);
                    if r > i {
                        assert(pivot(ma[r]) == n || pivot(ma[i as int]) < pivot(ma[r]));
                        lemma_pivot(ma[r]);
                        assert forall|c: int| 0 <= c < j + 1 implies is_zero(#[trigger] ma[r][c]) by {
                            assert(c < pivot(ma[r]));
                        }
                    }
                }
            }
            j = j + 1;
            continue;
        }
        proof {
            lemma_pivot_at(ma[i as int], j as int);
        }
        let mut k: usize = 0;
        while k < i
            invariant
                rational_matrix(*matrix),
                matrix@.len() == rowc,
                matrix.cols() == n,
                colc == n,
                n == old(matrix).cols(),
                rowc == old(matrix)@.len(),
                i < rowc,
                j < colc,
                k <= i,
                ma.len() == rowc,
                backward_inv(ma, n, i as int, j as int),
                pivot(ma[i as int]) == j,
                forall|r: int| i <= r < rowc ==> #[trigger] matrix@[r] == ma[r],
                forall|r: int, c: int|
                    0 <= r < rowc && 0 <= c < j ==> #[trigger] matrix@[r][c] == ma[r][c],
                forall|r: int| 0 <= r < k ==> is_zero(#[trigger] matrix@[r][j as int]),
                is_rref(old(matrix)@, n) ==> matrix@ == old(matrix)@ && ma == old(matrix)@,
                ops_ok(f0, ops),
                apply_ops(f0, ops) == frac_view(matrix@),
                f0 == frac_view(old(matrix)@),
                target == reduced_result(frac_view(old(matrix)@), n),
                target == match clear_column(frac_view(matrix@), i as int, j as int, k as int, i as int) {
                    Some(m4) => backward(m4, rowc as nat, n, (i + 1) as nat, (j + 1) as nat),
                    None => None,
                },
            decreases i - k,
        {
            let ghost fk = frac_view(matrix@);
            proof {
                assert(fk[k as int][j as int] == matrix@[k as int][j as int]@);
            }
            proof {
                // In reduced form the pivot's column is already clear.
                if is_rref(old(matrix)@, n) {
                    assert(is_zero(ma[k as int][pivot(ma[i as int])]));
                }
            }
            if matrix.cell(k, j).numerator() != 0 {
                let ghost m3 = matrix@;
                let scalar = Rational::additive_inverse(matrix.cell(k, j));
                match crate::rowops::add(matrix, k, i, &scalar) {
                    Ok(()) => {},
                    Err(e) => {
                        proof {
                            assert(frac_view(m3) == fk);
                            assert(scalar@ == neg_frac(fk[k as int][j as int]));
                            assert(!add_row_fits(fk, k as int, i as int, scalar@));
                            assert(clear_column(fk, i as int, j as int, k as int, i as int) is None);
                            assert(target is None);
                        }
                        return Err(e);
                    },
                }
                proof {
                    lemma_ops_push(f0, ops, RowOp::AddMultiple(k as int, i as int, scalar@));
                    ops = ops.push(RowOp::AddMultiple(k as int, i as int, scalar@));
                }
                proof {
                    let m = matrix@;
                    lemma_mul_zero_left(scalar@);
                    lemma_mul_one(scalar@);
                    lemma_additive_identity(m3[k as int][j as int]@);
                    assert(m3[i as int] == ma[i as int]);
                    assert(ma[i as int][j as int]@ == one_frac());
                    assert(is_zero(m[k as int][j as int]));
                    assert forall|r: int, c: int|
                        0 <= r < rowc && 0 <= c < j implies #[trigger] m[r][c] == ma[r][c] by {
                        if r == k {
                            lemma_pivot(ma[i as int]);
                            assert(is_zero(ma[i as int][c]));
                            assert(ma[i as int][c].wf());
                            lemma_zero_canonical(ma[i as int][c]@);
                            assert(m3[k as int][c].wf());
                            lemma_add_zero_right(m3[k as int][c]@);
                            assert(m[k as int][c]@ == m3[k as int][c]@);
                            Rational::lemma_view_injective(m[k as int][c], m3[k as int][c]);
                        }
                    }
                    assert forall|r: int| 0 <= r < k + 1 implies is_zero(#[trigger] m[r][j as int]) by {
                        if r < k {
                            assert(m[r] == m3[r]);
                        }
                    }
                }
            }
            k = k + 1;
        }
        proof {
            let m = matrix@;
            assert forall|r: int| 0 <= r < rowc implies pivot(#[trigger] m[r]) == pivot(ma[r]) by {
                if r < i {
                    assert(pivot(ma[r]) < j);
                    assert forall|c: int| 0 <= c < j implies #[trigger] ma[r][c] == m[r][c] by {}
                    lemma_pivot_agree(ma[r], m[r], j as int);
                } else {
                    assert(m[r] == ma[r]);
                }
            }
            assert forall|r: int| 0 <= r < rowc implies (#[trigger] m[r]).len() == n by {
                assert(ma[r].len() == n);
            }
            assert forall|r1: int, r2: int|
                0 <= r1 < r2 < m.len() implies pivot(#[trigger] m[r2]) == n || pivot(#[trigger] m[r1])
                < pivot(m[r2]) by {
                assert(pivot(ma[r2]) == n || pivot(ma[r1]) < pivot(ma[r2]));
            }
            assert forall|r: int|
                0 <= r < m.len() && pivot(#[trigger] m[r]) < n implies m[r][pivot(m[r])]@
                == one_frac() by {
                assert(pivot(ma[r]) < n);
                if r < i {
                    lemma_pivot(ma[r]);
                    assert(m[r][pivot(m[r])] == ma[r][pivot(ma[r])]);
                } else {
                    assert(m[r] == ma[r]);
                }
            }
            assert forall|r: int| i + 1 <= r < rowc implies zero_before(#[trigger] m[r], j + 1) by {
                assert(m[r] == ma[r]);
                assert(pivot(ma[r]) == n || pivot(ma[i as int]) < pivot(ma[r]));
                lemma_pivot(ma[r]);
                assert forall|c: int| 0 <= c < j + 1 implies is_zero(#[trigger] ma[r][c]) by {
                    assert(c < pivot(ma[r]));
                }
            }
            assert forall|r: int| 0 <= r < i + 1 implies pivot(#[trigger] m[r]) < j + 1 by {}
            assert forall|r1: int, r2: int|
                0 <= r1 < i + 1 && 0 <= r2 < m.len() && r1 != r2 implies is_zero(
                #[trigger] m[r2][pivot(#[trigger] m[r1])],
            ) by {
                if r1 == i {
                    if r2 > i {
                        assert(m[r2] == ma[r2]);
                        assert(pivot(ma[r2]) == n || pivot(ma[i as int]) < pivot(ma[r2]));
                        lemma_pivot(ma[r2]);
                        assert(j < pivot(ma[r2]));
                    }
                } else {
                    assert(pivot(ma[r1]) < j);
                    lemma_pivot(ma[r1]);
                    assert(m[r2][pivot(ma[r1])] == ma[r2][pivot(ma[r1])]);
                    assert(is_zero(ma[r2][pivot(ma[r1])]));
                }
            }
        }
        i = i + 1;
        j = j + 1;
    }
    proof {
        let m = matrix@;
        assert forall|r: int| i <= r < rowc implies pivot(#[trigger] m[r]) == n by {
            if j == colc {
                lemma_pivot_at(m[r], n as int);
            }
        }
        assert forall|r1: int, r2: int|
            0 <= r1 < m.len() && 0 <= r2 < m.len() && r1 != r2 && pivot(#[trigger] m[r1]) < n implies is_zero(
            #[trigger] m[r2][pivot(m[r1])],
        ) by {
            assert(r1 < i);
        }
    }
    Ok(())
}

} // verus!
