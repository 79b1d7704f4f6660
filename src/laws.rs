//! Algebraic laws of the operations, proved over the model.
use crate::model::{
    cofactor_entry, cofactor_fits, cofactors, det, det_fits, dot, dot_fits, expansion, fits,
    identity, is_rect, lemma_minor_shape, minor, n_cols, product, product_fits, signed,
    transposed,
};
use crate::sums::{
    lemma_sum_ext, lemma_sum_first, lemma_sum_signed_scale, lemma_sum_swap, lemma_sum_swap_adjacent,
    sum,
};
use vstd::prelude::*;

verus! {

/// The determinant of a 2x2 matrix `[[a, b], [c, d]]` is `a*d - b*c`.
pub proof fn lemma_det_two(m: Seq<Seq<i64>>)
    requires
        m.len() == 2,
        is_rect(m),
        n_cols(m) == 2,
    ensures
        det(m) == m[0][0] * m[1][1] - m[0][1] * m[1][0],
{
    lemma_minor_shape(m, 0, 0);
    lemma_minor_shape(m, 0, 1);
    let m0 = minor(m, 0, 0);
    let m1 = minor(m, 0, 1);
    assert(m0[0][0] == m[1][1]);
    assert(m1[0][0] == m[1][0]);
    assert(det(m0) == m[1][1]);
    assert(det(m1) == m[1][0]);
    assert(expansion(m, 0) == 0);
    assert(expansion(m, 1) == signed(0, m[0][0] * det(m0)));
    assert(expansion(m, 2) == expansion(m, 1) + signed(1, m[0][1] * det(m1)));
}


/// Transposing twice gives the matrix back, for every rectangular matrix
/// that has columns or has no rows (a matrix of empty rows loses its row
/// count, since its transpose has no rows).
pub proof fn lemma_transpose_involution(m: Seq<Seq<i64>>)
    requires
        is_rect(m),
        m.len() == 0 || n_cols(m) > 0,
    ensures
        transposed(transposed(m)) == m,
{
    let t = transposed(m);
    let tt = transposed(t);
    if m.len() > 0 {
        assert(t[0].len() == m.len());
        assert forall|i: int| 0 <= i < m.len() implies #[trigger] tt[i] == m[i] by {
            assert(m[i].len() == m[0].len());
            assert(tt[i] =~= m[i]);
        }
    }
    assert(tt =~= m);
}

proof fn lemma_dot_identity(a: Seq<Seq<i64>>, i: int, k: int, j: nat)
    requires
        is_rect(a),
        0 <= i < a.len(),
        0 <= k < n_cols(a),
        j <= n_cols(a),
    ensures
        dot(a, identity(n_cols(a)), i, k, j) == if k < j {
            a[i][k] as int
        } else {
            0
        },
        dot_fits(a, identity(n_cols(a)), i, k, j),
    decreases j,
{
    if j > 0 {
        lemma_dot_identity(a, i, k, (j - 1) as nat);
        assert(a[i].len() == n_cols(a));
        let e = identity(n_cols(a))[j - 1][k];
        if k == j - 1 {
            assert(e == 1);
        } else {
            assert(e == 0);
        }
    }
}

/// Multiplying by the identity matrix on the right gives the matrix back, and
/// every step of that product stays in range.
pub proof fn lemma_product_identity(a: Seq<Seq<i64>>)
    requires
        is_rect(a),
    ensures
        product_fits(a, identity(n_cols(a))),
        product(a, identity(n_cols(a))) == a,
{
    let n = n_cols(a);
    let id = identity(n);
    assert(n_cols(id) == n) by {
        if n > 0 {
            assert(id[0].len() == n);
        }
    }
    assert forall|i: int, k: int| 0 <= i < a.len() && 0 <= k < n_cols(id) implies #[trigger] dot_fits(
        a,
        id,
        i,
        k,
        n_cols(a),
    ) by {
        lemma_dot_identity(a, i, k, n);
    }
    let p = product(a, id);
    assert forall|i: int| 0 <= i < a.len() implies #[trigger] p[i] == a[i] by {
        assert(a[i].len() == n);
        assert forall|k: int| 0 <= k < n implies #[trigger] p[i][k] == a[i][k] by {
            lemma_dot_identity(a, i, k, n);
        }
        assert(p[i] =~= a[i]);
    }
    assert(p =~= a);
}


/// The `j`-th term of the expansion along the first row.
pub open spec fn row_term(m: Seq<Seq<i64>>, j: int) -> int {
    signed(j, m[0][j] * det(minor(m, 0, j)))
}

/// The `i`-th term of the expansion along the first column.
pub open spec fn col_term(m: Seq<Seq<i64>>, i: int) -> int {
    signed(i, m[i][0] * det(minor(m, i, 0)))
}

proof fn lemma_expansion_sum(m: Seq<Seq<i64>>, k: nat)
    requires
        m.len() > 0,
    ensures
        expansion(m, k) == sum(k, |j: int| row_term(m, j)),
    decreases k,
{
    if k > 0 {
        lemma_expansion_sum(m, (k - 1) as nat);
    }
}

proof fn lemma_minor_minor(m: Seq<Seq<i64>>, a: int, b: int)
    requires
        is_rect(m),
        m.len() >= 3,
        n_cols(m) == m.len(),
        0 <= a < m.len() - 1,
        0 <= b < m.len() - 1,
    ensures
        minor(minor(m, 0, b + 1), a, 0) == minor(minor(m, a + 1, 0), 0, b),
{
    let n = m.len() as int;
    let r = minor(m, 0, b + 1);
    let c = minor(m, a + 1, 0);
    lemma_minor_shape(m, 0, b + 1);
    lemma_minor_shape(m, a + 1, 0);
    lemma_minor_shape(r, a, 0);
    lemma_minor_shape(c, 0, b);
    let x = minor(r, a, 0);
    let y = minor(c, 0, b);
    assert forall|i: int| 0 <= i < n - 2 implies #[trigger] x[i] == y[i] by {
        assert forall|j: int| 0 <= j < n - 2 implies #[trigger] x[i][j] == y[i][j] by {}
        assert(x[i] =~= y[i]);
    }
    assert(x =~= y);
}

proof fn lemma_signed_signed(k: int, l: int, a: int, x: int)
    requires
        0 <= k,
        0 <= l,
    ensures
        signed(k, a * signed(l, x)) == signed(k + l, a * x),
{
    assert(a * -x == -(a * x)) by (nonlinear_arith);
}


/// The determinant equals the Laplace expansion along the first column.
pub proof fn lemma_det_first_column(m: Seq<Seq<i64>>)
    requires
        is_rect(m),
        m.len() >= 2,
        n_cols(m) == m.len(),
    ensures
        det(m) == sum(m.len(), |i: int| col_term(m, i)),
    decreases m.len(),
{
    let n = m.len();
    let rows = |j: int| row_term(m, j);
    let cols = |i: int| col_term(m, i);
    lemma_minor_shape(m, 0, 0);
    if n == 2 {
        lemma_det_two(m);
        lemma_minor_shape(m, 1, 0);
        assert(minor(m, 0, 0)[0][0] == m[1][1]);
        assert(minor(m, 1, 0)[0][0] == m[0][1]);
        assert(sum(0, cols) == 0);
        assert(sum(1, cols) == col_term(m, 0));
        assert(sum(2, cols) == col_term(m, 0) + col_term(m, 1));
        assert(m[1][0] * m[0][1] == m[0][1] * m[1][0]) by (nonlinear_arith);
        return;
    }
    let k = (n - 1) as nat;
    let g = |i: int, j: int|
        signed(i + j + 1, m[0][j + 1] * m[i + 1][0] * det(minor(minor(m, 0, j + 1), i, 0)));
    lemma_expansion_sum(m, n);
    assert(det(m) == sum(n, rows));
    lemma_sum_first(n, rows);
    lemma_sum_first(n, cols);
    let rows1 = |j: int| rows(j + 1);
    let cols1 = |i: int| cols(i + 1);
    let by_row = |j: int| sum(k, |i: int| g(i, j));
    let by_col = |i: int| sum(k, |j: int| g(i, j));
    assert forall|j: int| 0 <= j < k implies #[trigger] rows1(j) == by_row(j) by {
        let mm = minor(m, 0, j + 1);
        lemma_minor_shape(m, 0, j + 1);
        lemma_det_first_column(mm);
        let a = m[0][j + 1] as int;
        let inner = |i: int| col_term(mm, i);
        lemma_sum_signed_scale(k, j + 1, a, inner);
        let scaled = |i: int| signed(j + 1, a * inner(i));
        assert forall|i: int| 0 <= i < k implies #[trigger] scaled(i) == g(i, j) by {
            let b = mm[i][0] as int;
            let d = det(minor(mm, i, 0));
            assert(b == m[i + 1][0]);
            lemma_signed_signed(j + 1, i, a, b * d);
            assert(a * (b * d) == a * b * d) by (nonlinear_arith);
        }
        lemma_sum_ext(k, scaled, |i: int| g(i, j));
    }
    assert forall|i: int| 0 <= i < k implies #[trigger] cols1(i) == by_col(i) by {
        let mm = minor(m, i + 1, 0);
        lemma_minor_shape(m, i + 1, 0);
        lemma_expansion_sum(mm, k);
        let b = m[i + 1][0] as int;
        let inner = |j: int| row_term(mm, j);
        assert(det(mm) == sum(k, inner));
        lemma_sum_signed_scale(k, i + 1, b, inner);
        let scaled = |j: int| signed(i + 1, b * inner(j));
        assert forall|j: int| 0 <= j < k implies #[trigger] scaled(j) == g(i, j) by {
            let a = mm[0][j] as int;
            let d = det(minor(mm, 0, j));
            assert(a == m[0][j + 1]);
            lemma_minor_minor(m, i, j);
            lemma_signed_signed(i + 1, j, b, a * d);
            assert(b * (a * d) == a * b * d) by (nonlinear_arith);
        }
        lemma_sum_ext(k, scaled, |j: int| g(i, j));
    }
    lemma_sum_ext(k, rows1, by_row);
    lemma_sum_ext(k, cols1, by_col);
    lemma_sum_swap(k, k, g);
}

proof fn lemma_minor_transpose(m: Seq<Seq<i64>>, r: int, c: int)
    requires
        is_rect(m),
        m.len() >= 2,
        n_cols(m) == m.len(),
        0 <= r < m.len(),
        0 <= c < m.len(),
    ensures
        minor(transposed(m), r, c) == transposed(minor(m, c, r)),
{
    let n = m.len() as int;
    let t = transposed(m);
    assert(t[0].len() == n);
    assert forall|i: int| 0 <= i < t.len() implies #[trigger] t[i].len() == t[0].len() by {}
    lemma_minor_shape(t, r, c);
    lemma_minor_shape(m, c, r);
    let x = minor(t, r, c);
    let y = transposed(minor(m, c, r));
    assert forall|i: int| 0 <= i < n - 1 implies #[trigger] x[i] == y[i] by {
        assert forall|j: int| 0 <= j < n - 1 implies #[trigger] x[i][j] == y[i][j] by {}
        assert(x[i] =~= y[i]);
    }
    assert(x =~= y);
}

/// A square matrix and its transpose have the same determinant.
pub proof fn lemma_det_transpose(m: Seq<Seq<i64>>)
    requires
        is_rect(m),
        m.len() >= 1,
        n_cols(m) == m.len(),
    ensures
        det(transposed(m)) == det(m),
    decreases m.len(),
{
    let n = m.len();
    let t = transposed(m);
    assert(t.len() == n);
    assert(t[0].len() == n);
    assert forall|i: int| 0 <= i < t.len() implies #[trigger] t[i].len() == t[0].len() by {}
    if n == 1 {
        return;
    }
    lemma_expansion_sum(t, n);
    assert forall|j: int| 0 <= j < n implies #[trigger] row_term(t, j) == col_term(m, j) by {
        lemma_minor_transpose(m, 0, j);
        lemma_minor_shape(m, j, 0);
        lemma_det_transpose(minor(m, j, 0));
    }
    lemma_sum_ext(n, |j: int| row_term(t, j), |i: int| col_term(m, i));
    lemma_det_first_column(m);
}


/// `m` with rows `r` and `r + 1` exchanged.
pub open spec fn swap_rows(m: Seq<Seq<i64>>, r: int) -> Seq<Seq<i64>> {
    Seq::new(
        m.len(),
        |i: int|
            if i == r {
                m[r + 1]
            } else if i == r + 1 {
                m[r]
            } else {
                m[i]
            },
    )
}

proof fn lemma_swap_rows_shape(m: Seq<Seq<i64>>, r: int)
    requires
        is_rect(m),
        0 <= r,
        r + 1 < m.len(),
    ensures
        is_rect(swap_rows(m, r)),
        n_cols(swap_rows(m, r)) == n_cols(m),
        swap_rows(m, r).len() == m.len(),
{
    let s = swap_rows(m, r);
    assert(m[r].len() == m[0].len() && m[r + 1].len() == m[0].len());
    assert forall|i: int| 0 <= i < s.len() implies #[trigger] s[i].len() == s[0].len() by {
        assert(m[i].len() == m[0].len());
    }
}

proof fn lemma_minor_swap_rows(m: Seq<Seq<i64>>, r: int, p: int)
    requires
        is_rect(m),
        m.len() >= 3,
        n_cols(m) == m.len(),
        0 <= r,
        r + 1 < m.len(),
        0 <= p < m.len(),
    ensures
        p == r ==> minor(swap_rows(m, r), p, 0) == minor(m, r + 1, 0),
        p == r + 1 ==> minor(swap_rows(m, r), p, 0) == minor(m, r, 0),
        p < r ==> minor(swap_rows(m, r), p, 0) == swap_rows(minor(m, p, 0), r - 1),
        p > r + 1 ==> minor(swap_rows(m, r), p, 0) == swap_rows(minor(m, p, 0), r),
{
    let n = m.len() as int;
    let s = swap_rows(m, r);
    lemma_swap_rows_shape(m, r);
    lemma_minor_shape(s, p, 0);
    lemma_minor_shape(m, p, 0);
    lemma_minor_shape(m, r, 0);
    lemma_minor_shape(m, r + 1, 0);
    let x = minor(s, p, 0);
    let y = if p == r {
        minor(m, r + 1, 0)
    } else if p == r + 1 {
        minor(m, r, 0)
    } else if p < r {
        swap_rows(minor(m, p, 0), r - 1)
    } else {
        swap_rows(minor(m, p, 0), r)
    };
    assert forall|i: int| 0 <= i < n - 1 implies #[trigger] x[i] == y[i] by {
        assert forall|j: int| 0 <= j < n - 1 implies #[trigger] x[i][j] == y[i][j] by {}
        assert(x[i] =~= y[i]);
    }
    assert(x =~= y);
}

/// Exchanging two neighbouring rows negates the determinant.
pub proof fn lemma_det_swap_rows(m: Seq<Seq<i64>>, r: int)
    requires
        is_rect(m),
        m.len() >= 2,
        n_cols(m) == m.len(),
        0 <= r,
        r + 1 < m.len(),
    ensures
        det(swap_rows(m, r)) == -det(m),
    decreases m.len(),
{
    let n = m.len();
    let s = swap_rows(m, r);
    lemma_swap_rows_shape(m, r);
    if n == 2 {
        lemma_det_two(m);
        lemma_det_two(s);
        let (a, b, c, d) = (m[0][0] as int, m[0][1] as int, m[1][0] as int, m[1][1] as int);
        assert(c * b - d * a == -(a * d - b * c)) by (nonlinear_arith);
        return;
    }
    lemma_det_first_column(m);
    lemma_det_first_column(s);
    let f = |p: int| col_term(m, p);
    let sigma = |p: int|
        if p == r {
            r + 1
        } else if p == r + 1 {
            r
        } else {
            p
        };
    let g = |p: int| col_term(s, p);
    let fs = |p: int| f(sigma(p));
    let h = |p: int| signed(1, 1 * fs(p));
    assert forall|p: int| 0 <= p < n implies #[trigger] g(p) == h(p) by {
        lemma_minor_swap_rows(m, r, p);
        lemma_minor_shape(m, p, 0);
        let a = m[p][0] as int;
        if p < r || p > r + 1 {
            let rr = if p < r {
                r - 1
            } else {
                r
            };
            lemma_det_swap_rows(minor(m, p, 0), rr);
            let d = det(minor(m, p, 0));
            assert(a * -d == -(a * d)) by (nonlinear_arith);
        }
    }
    lemma_sum_ext(n, g, h);
    lemma_sum_signed_scale(n, 1, 1, fs);
    lemma_sum_ext(n, h, |i: int| signed(1, 1 * fs(i)));
    lemma_sum_ext(n, fs, |i: int| f(if i == r { r + 1 } else if i == r + 1 { r } else { i }));
    lemma_sum_swap_adjacent(n, r, f);
}


/// `m` with row `i` moved to the top, the rows above it moving down by one.
pub open spec fn lifted(m: Seq<Seq<i64>>, i: int) -> Seq<Seq<i64>> {
    Seq::new(
        m.len(),
        |k: int|
            if k == 0 {
                m[i]
            } else if k <= i {
                m[k - 1]
            } else {
                m[k]
            },
    )
}

proof fn lemma_lifted_shape(m: Seq<Seq<i64>>, i: int)
    requires
        is_rect(m),
        0 <= i < m.len(),
    ensures
        is_rect(lifted(m, i)),
        n_cols(lifted(m, i)) == n_cols(m),
        lifted(m, i).len() == m.len(),
{
    let l = lifted(m, i);
    assert(m[i].len() == m[0].len());
    assert forall|k: int| 0 <= k < l.len() implies #[trigger] l[k].len() == l[0].len() by {
        assert(m[k].len() == m[0].len());
        if k > 0 {
            assert(m[k - 1].len() == m[0].len());
        }
    }
}

proof fn lemma_det_lifted(m: Seq<Seq<i64>>, i: int)
    requires
        is_rect(m),
        m.len() >= 1,
        n_cols(m) == m.len(),
        0 <= i < m.len(),
    ensures
        det(lifted(m, i)) == signed(i, det(m)),
    decreases i,
{
    if i == 0 {
        assert(lifted(m, 0) =~= m);
    } else {
        let m1 = swap_rows(m, i - 1);
        lemma_swap_rows_shape(m, i - 1);
        lemma_det_swap_rows(m, i - 1);
        lemma_det_lifted(m1, i - 1);
        assert(lifted(m1, i - 1) =~= lifted(m, i));
    }
}

proof fn lemma_minor_lifted(m: Seq<Seq<i64>>, i: int, j: int)
    requires
        is_rect(m),
        m.len() >= 2,
        n_cols(m) == m.len(),
        0 <= i < m.len(),
        0 <= j < m.len(),
    ensures
        minor(lifted(m, i), 0, j) == minor(m, i, j),
{
    let n = m.len() as int;
    let l = lifted(m, i);
    lemma_lifted_shape(m, i);
    lemma_minor_shape(l, 0, j);
    lemma_minor_shape(m, i, j);
    let x = minor(l, 0, j);
    let y = minor(m, i, j);
    assert forall|a: int| 0 <= a < n - 1 implies #[trigger] x[a] == y[a] by {
        assert forall|b: int| 0 <= b < n - 1 implies #[trigger] x[a][b] == y[a][b] by {}
        assert(x[a] =~= y[a]);
    }
    assert(x =~= y);
}

/// The determinant equals the Laplace expansion along any row `i`: the sum
/// of each entry of the row times its cofactor.
pub proof fn lemma_det_row_expansion(m: Seq<Seq<i64>>, i: int)
    requires
        is_rect(m),
        m.len() >= 2,
        n_cols(m) == m.len(),
        0 <= i < m.len(),
    ensures
        det(m) == sum(m.len(), |j: int| m[i][j] * cofactor_entry(m, i, j)),
{
    let n = m.len();
    let l = lifted(m, i);
    lemma_lifted_shape(m, i);
    lemma_det_lifted(m, i);
    lemma_expansion_sum(l, n);
    let terms = |j: int| row_term(l, j);
    lemma_sum_signed_scale(n, i, 1, terms);
    let target = |j: int| m[i][j] * cofactor_entry(m, i, j);
    assert forall|j: int| 0 <= j < n implies #[trigger] signed(i, 1 * terms(j)) == target(j) by {
        lemma_minor_lifted(m, i, j);
        let a = m[i][j] as int;
        let d = det(minor(m, i, j));
        assert(l[0][j] == a);
        lemma_signed_signed(i, j, 1, a * d);
        assert(a * -d == -(a * d)) by (nonlinear_arith);
    }
    lemma_sum_ext(n, |j: int| signed(i, 1 * terms(j)), target);
}

/// A square matrix with two equal rows has determinant zero.
pub proof fn lemma_det_equal_rows(m: Seq<Seq<i64>>, i: int, k: int)
    requires
        is_rect(m),
        m.len() >= 2,
        n_cols(m) == m.len(),
        0 <= i < k < m.len(),
        m[i] == m[k],
    ensures
        det(m) == 0,
    decreases k - i,
{
    lemma_det_swap_rows(m, k - 1);
    if k == i + 1 {
        assert(swap_rows(m, i) =~= m);
    } else {
        let m1 = swap_rows(m, k - 1);
        lemma_swap_rows_shape(m, k - 1);
        lemma_det_equal_rows(m1, i, k - 1);
    }
}


proof fn lemma_dot_sum(a: Seq<Seq<i64>>, b: Seq<Seq<i64>>, i: int, k: int, n: nat)
    ensures
        dot(a, b, i, k, n) == sum(n, |j: int| a[i][j] * b[j][k]),
    decreases n,
{
    if n > 0 {
        lemma_dot_sum(a, b, i, k, (n - 1) as nat);
    }
}

proof fn lemma_minor_replaced_row(m: Seq<Seq<i64>>, k: int, row: Seq<i64>, j: int)
    requires
        0 <= k < m.len(),
    ensures
        minor(m.update(k, row), k, j) == minor(m, k, j),
{
    let x = minor(m.update(k, row), k, j);
    let y = minor(m, k, j);
    assert forall|a: int| 0 <= a < x.len() implies #[trigger] x[a] == y[a] by {
        assert(x[a] =~= y[a]);
    }
    assert(x =~= y);
}

/// A square matrix times its adjugate is its determinant times the identity
/// (the exact form of "a matrix times its inverse is the identity"), wherever
/// the cofactors fit in `i64`.
pub proof fn lemma_adjugate_product(m: Seq<Seq<i64>>)
    requires
        is_rect(m),
        m.len() >= 2,
        n_cols(m) == m.len(),
        cofactor_fits(m),
    ensures
        forall|i: int, k: int|
            0 <= i < m.len() && 0 <= k < m.len() ==> #[trigger] dot(
                m,
                transposed(cofactors(m)),
                i,
                k,
                m.len(),
            ) == if i == k {
                det(m)
            } else {
                0
            },
{
    let n = m.len();
    let adj = transposed(cofactors(m));
    assert(cofactors(m)[0].len() == n);
    assert forall|i: int, k: int| 0 <= i < n && 0 <= k < n implies #[trigger] dot(
        m,
        adj,
        i,
        k,
        n,
    ) == if i == k {
        det(m)
    } else {
        0
    } by {
        lemma_dot_sum(m, adj, i, k, n);
        let with_cofactors = |j: int| m[i][j] * cofactor_entry(m, k, j);
        assert forall|j: int| 0 <= j < n implies #[trigger] (m[i][j] * adj[j][k]) == with_cofactors(
            j,
        ) by {
            assert(det_fits(minor(m, k, j)) && fits(cofactor_entry(m, k, j)));
        }
        lemma_sum_ext(n, |j: int| m[i][j] * adj[j][k], with_cofactors);
        if i == k {
            lemma_det_row_expansion(m, i);
        } else {
            let m2 = m.update(k, m[i]);
            assert(m[i].len() == m[0].len());
            assert forall|a: int| 0 <= a < n implies #[trigger] m2[a].len() == m2[0].len() by {
                assert(m[a].len() == m[0].len());
            }
            lemma_det_row_expansion(m2, k);
            assert forall|j: int| 0 <= j < n implies #[trigger] (m2[k][j] * cofactor_entry(m2, k, j))
                == with_cofactors(j) by {
                lemma_minor_replaced_row(m, k, m[i], j);
            }
            lemma_sum_ext(n, |j: int| m2[k][j] * cofactor_entry(m2, k, j), with_cofactors);
            if i < k {
                lemma_det_equal_rows(m2, i, k);
            } else {
                lemma_det_equal_rows(m2, k, i);
            }
        }
    }
}

} // verus!
