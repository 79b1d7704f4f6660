//! The matrix type and its operations.
use crate::model::{
    cofactor_entry, cofactor_fits, cofactors, det, det_fits, dot, dot_fits, expansion,
    expansion_fits, fits, identity, is_empty, is_rect, is_square, lemma_dot_fits_prefix,
    lemma_cofactor_sign, lemma_expansion_fits_prefix, lemma_minor_shape, minor, n_cols, product, product_fits,
    scale_fits, scaled, signed, transposed,
};
use crate::laws::lemma_det_two;
use crate::text::{joined, lemma_joined_push, matrix_text, push_row, row_text};
use vstd::prelude::*;

verus! {

/// Why an operation on matrices failed.
#[derive(Debug, Clone, Copy, PartialEq, Eq)]
pub enum MatrixError {
    /// An operand has no rows, or rows of length zero.
    EmptyMatrix,
    /// Rows of unequal length, a square operation on a non-square matrix, or
    /// a product whose inner dimensions disagree.
    ShapeMismatch,
    /// A minor asked for outside the matrix, or of a matrix with a single row
    /// or column.
    IndexOutOfRange,
    /// An inverse asked for of a matrix whose determinant is zero.
    Singular,
    /// A value, or a partial sum on the way to it, does not fit in an `i64`.
    Overflow,
}

/// A rectangular grid of integers. Every row has the same length.
#[derive(Debug, PartialEq, Eq)]
pub struct Matrix {
    m: Vec<Vec<i64>>,
}

/// A matrix of fractions over one common denominator: entry `(i, j)` stands
/// for `numerators[i][j] / denominator`.
#[derive(Debug, PartialEq, Eq)]
pub struct ScaledMatrix {
    pub numerators: Matrix,
    pub denominator: i64,
}

impl View for Matrix {
    type V = Seq<Seq<i64>>;

    closed spec fn view(&self) -> Seq<Seq<i64>> {
        self.m@.map_values(|r: Vec<i64>| r@)
    }
}

impl Matrix {
    #[verifier::type_invariant]
    spec fn rectangular(&self) -> bool {
        is_rect(self@)
    }

    /// Builds a matrix from its rows; rows of unequal length are refused.
    pub fn new(rows: Vec<Vec<i64>>) -> (r: Result<Matrix, MatrixError>)
        ensures
            match r {
                Ok(a) => is_rect(rows@.map_values(|v: Vec<i64>| v@)) && a@ == rows@.map_values(
                    |v: Vec<i64>| v@,
                ),
                Err(e) => !is_rect(rows@.map_values(|v: Vec<i64>| v@)) && e == MatrixError::ShapeMismatch,
            },
    {
        let ghost s = rows@.map_values(|v: Vec<i64>| v@);
        let mut i: usize = 0;
        while i < rows.len()
            invariant
                0 <= i <= rows.len(),
                s == rows@.map_values(|v: Vec<i64>| v@),
                forall|k: int| 0 <= k < i ==> #[trigger] s[k].len() == s[0].len(),
            decreases rows.len() - i,
        {
            if rows[i].len() != rows[0].len() {
                assert(s[i as int].len() != s[0].len());
                return Err(MatrixError::ShapeMismatch);
            }
            i = i + 1;
        }
        Ok(Matrix { m: rows })
    }

    /// The identity matrix of size `n`.
    pub fn identity(n: usize) -> (r: Matrix)
        ensures
            r@ == identity(n as nat),
    {
        let mut res: Vec<Vec<i64>> = Vec::new();
        let mut i: usize = 0;
        while i < n
            invariant
                0 <= i <= n,
                res@.len() == i,
                forall|x: int| 0 <= x < i ==> #[trigger] res@[x]@ == identity(n as nat)[x],
            decreases n - i,
        {
            let mut buffer: Vec<i64> = Vec::new();
            let mut j: usize = 0;
            while j < n
                invariant
                    0 <= j <= n,
                    0 <= i < n,
                    buffer@.len() == j,
                    forall|y: int| 0 <= y < j ==> #[trigger] buffer@[y] == identity(n as nat)[i as int][y],
                decreases n - j,
            {
                buffer.push(if i == j { 1 } else { 0 });
                j = j + 1;
            }
            assert(buffer@ =~= identity(n as nat)[i as int]);
            res.push(buffer);
            i = i + 1;
        }
        let r = Matrix { m: res };
        assert(r@ =~= identity(n as nat));
        r
    }

    /// The number of rows.
    pub fn rows(&self) -> (r: usize)
        ensures
            r == self@.len(),
    {
        self.m.len()
    }

    /// The number of columns (zero for a matrix without rows).
    pub fn cols(&self) -> (r: usize)
        ensures
            r == n_cols(self@),
    {
        if self.m.len() == 0 {
            0
        } else {
            self.m[0].len()
        }
    }

    /// The entry at row `i`, column `j`.
    pub fn get(&self, i: usize, j: usize) -> (r: i64)
        requires
            i < self@.len(),
            j < n_cols(self@),
        ensures
            r == self@[i as int][j as int],
    {
        proof {
            use_type_invariant(self);
            assert(self@[i as int].len() == self@[0].len());
            assert(self.m@[i as int]@ == self@[i as int]);
        }
        self.m[i][j]
    }

    /// A copy of the rows.
    pub fn to_rows(&self) -> (r: Vec<Vec<i64>>)
        ensures
            r@.map_values(|v: Vec<i64>| v@) == self@,
    {
        let mut out: Vec<Vec<i64>> = Vec::new();
        let mut i: usize = 0;
        while i < self.m.len()
            invariant
                0 <= i <= self.m.len(),
                out@.len() == i,
                forall|k: int| 0 <= k < i ==> #[trigger] out@[k]@ == self@[k],
            decreases self.m.len() - i,
        {
            out.push(self.m[i].clone());
            i = i + 1;
        }
        assert(out@.map_values(|v: Vec<i64>| v@) =~= self@);
        out
    }

    /// The product `self * other`: entry `(i, k)` is the sum over `j` of
    /// `self[i][j] * other[j][k]`, accumulated from zero.
    pub fn multiply_matrix(&self, other: Matrix) -> (res: Result<Matrix, MatrixError>)
        ensures
            is_empty(self@) || is_empty(other@) ==> res == Err::<Matrix, MatrixError>(
                MatrixError::EmptyMatrix,
            ),
            !is_empty(self@) && !is_empty(other@) && n_cols(self@) != other@.len() ==> res == Err::<
                Matrix,
                MatrixError,
            >(MatrixError::ShapeMismatch),
            !is_empty(self@) && !is_empty(other@) && n_cols(self@) == other@.len() && product_fits(
                self@,
                other@,
            ) ==> (res matches Ok(p) && p@ == product(self@, other@)),
            !is_empty(self@) && !is_empty(other@) && n_cols(self@) == other@.len() && !product_fits(
                self@,
                other@,
            ) ==> res == Err::<Matrix, MatrixError>(MatrixError::Overflow),
    {
        proof {
            use_type_invariant(self);
            use_type_invariant(&other);
        }
        if other.m.len() == 0 || other.m[0].len() == 0 || self.m.len() == 0 || self.m[0].len()
            == 0 {
            return Err(MatrixError::EmptyMatrix);
        }
        let l = self.m.len();
        let mid = self.m[0].len();
        let n = other.m[0].len();
        if mid != other.m.len() {
            return Err(MatrixError::ShapeMismatch);
        }
        let ghost a = self@;
        let ghost b = other@;
        let mut res: Vec<Vec<i64>> = Vec::new();
        let mut i: usize = 0;
        while i < l
            invariant
                0 <= i <= l,
                a == self@,
                b == other@,
                l == a.len(),
                mid == n_cols(a),
                mid == b.len(),
                n == n_cols(b),
                is_rect(a),
                is_rect(b),
                res@.len() == i,
                forall|x: int| 0 <= x < i ==> #[trigger] res@[x]@ == product(a, b)[x],
                forall|x: int, z: int|
                    0 <= x < i && 0 <= z < n ==> #[trigger] dot_fits(a, b, x, z, mid as nat),
            decreases l - i,
        {
            let mut buffer: Vec<i64> = Vec::new();
            let mut k: usize = 0;
            while k < n
                invariant
                    0 <= k <= n,
                    0 <= i < l,
                    a == self@,
                    b == other@,
                    l == a.len(),
                    mid == n_cols(a),
                    mid == b.len(),
                    n == n_cols(b),
                    is_rect(a),
                    is_rect(b),
                    buffer@.len() == k,
                    forall|z: int| 0 <= z < k ==> #[trigger] buffer@[z] == product(a, b)[i as int][z],
                    forall|x: int, z: int|
                        0 <= x < i && 0 <= z < n ==> #[trigger] dot_fits(a, b, x, z, mid as nat),
                    forall|z: int| 0 <= z < k ==> #[trigger] dot_fits(a, b, i as int, z, mid as nat),
                decreases n - k,
            {
                let mut acc: i64 = 0;
                let mut j: usize = 0;
                while j < mid
                    invariant
                        0 <= j <= mid,
                        0 <= i < l,
                        0 <= k < n,
                        a == self@,
                        b == other@,
                        l == a.len(),
                        mid == n_cols(a),
                        mid == b.len(),
                        n == n_cols(b),
                        is_rect(a),
                        is_rect(b),
                        dot_fits(a, b, i as int, k as int, j as nat),
                        acc == dot(a, b, i as int, k as int, j as nat),
                    decreases mid - j,
                {
                    assert(a[i as int].len() == mid);
                    assert(b[j as int].len() == n);
                    assert(self.m@[i as int]@ == a[i as int]);
                    assert(other.m@[j as int]@ == b[j as int]);
                    let ghost j1 = (j + 1) as nat;
                    let p = match self.m[i][j].checked_mul(other.m[j][k]) {
                        Some(x) => x,
                        None => {
                            proof {
                                if product_fits(a, b) {
                                    assert(dot_fits(a, b, i as int, k as int, mid as nat));
                                    lemma_dot_fits_prefix(a, b, i as int, k as int, j1, mid as nat);
                                }
                            }
                            return Err(MatrixError::Overflow);
                        },
                    };
                    acc = match acc.checked_add(p) {
                        Some(x) => x,
                        None => {
                            proof {
                                if product_fits(a, b) {
                                    assert(dot_fits(a, b, i as int, k as int, mid as nat));
                                    lemma_dot_fits_prefix(a, b, i as int, k as int, j1, mid as nat);
                                }
                            }
                            return Err(MatrixError::Overflow);
                        },
                    };
                    j = j + 1;
                }
                buffer.push(acc);
                k = k + 1;
            }
            assert(buffer@ =~= product(a, b)[i as int]);
            res.push(buffer);
            i = i + 1;
        }
        let p = Matrix { m: res };
        assert(p@ =~= product(a, b));
        Ok(p)
    }

    /// Each entry multiplied by `scalar`.
    pub fn multiply_scalar(&self, scalar: i64) -> (res: Result<Matrix, MatrixError>)
        ensures
            is_empty(self@) ==> res == Err::<Matrix, MatrixError>(MatrixError::EmptyMatrix),
            !is_empty(self@) && scale_fits(self@, scalar) ==> (res matches Ok(p) && p@ == scaled(
                self@,
                scalar,
            )),
            !is_empty(self@) && !scale_fits(self@, scalar) ==> res == Err::<Matrix, MatrixError>(
                MatrixError::Overflow,
            ),
    {
        proof {
            use_type_invariant(self);
        }
        let h = self.m.len();
        if h == 0 || self.m[0].len() == 0 {
            return Err(MatrixError::EmptyMatrix);
        }
        let w = self.m[0].len();
        let ghost m = self@;
        let mut res: Vec<Vec<i64>> = Vec::new();
        let mut i: usize = 0;
        while i < h
            invariant
                0 <= i <= h,
                m == self@,
                h == m.len(),
                w == n_cols(m),
                is_rect(m),
                res@.len() == i,
                forall|x: int| 0 <= x < i ==> #[trigger] res@[x]@ == scaled(m, scalar)[x],
                forall|x: int, y: int| 0 <= x < i && 0 <= y < w ==> fits(scalar * #[trigger] m[x][y]),
            decreases h - i,
        {
            assert(m[i as int].len() == w);
            assert(self.m@[i as int]@ == m[i as int]);
            let mut buffer: Vec<i64> = Vec::new();
            let mut j: usize = 0;
            while j < w
                invariant
                    0 <= j <= w,
                    0 <= i < h,
                    m == self@,
                    h == m.len(),
                    w == n_cols(m),
                    m[i as int].len() == w,
                    self.m@[i as int]@ == m[i as int],
                    buffer@.len() == j,
                    forall|z: int| 0 <= z < j ==> #[trigger] buffer@[z] == scaled(m, scalar)[i as int][z],
                    forall|x: int, y: int| 0 <= x < i && 0 <= y < w ==> fits(scalar * #[trigger] m[x][y]),
                    forall|y: int| 0 <= y < j ==> fits(scalar * #[trigger] m[i as int][y]),
                decreases w - j,
            {
                let v = match scalar.checked_mul(self.m[i][j]) {
                    Some(x) => x,
                    None => {
                        assert(!fits(scalar * m[i as int][j as int]));
                        return Err(MatrixError::Overflow);
                    },
                };
                buffer.push(v);
                j = j + 1;
            }
            assert(buffer@ =~= scaled(m, scalar)[i as int]);
            res.push(buffer);
            i = i + 1;
        }
        let p = Matrix { m: res };
        assert(p@ =~= scaled(m, scalar));
        proof {
            assert forall|x: int, y: int| 0 <= x < m.len() && 0 <= y < m[x].len() implies fits(
                scalar * #[trigger] m[x][y],
            ) by {
                assert(m[x].len() == w);
            }
        }
        Ok(p)
    }

    /// A minor: `self` without row `row` and column `col`.
    pub fn without_rc(&self, row: usize, col: usize) -> (res: Result<Matrix, MatrixError>)
        ensures
            is_empty(self@) ==> res == Err::<Matrix, MatrixError>(MatrixError::EmptyMatrix),
            !is_empty(self@) && (self@.len() <= 1 || n_cols(self@) <= 1 || row >= self@.len()
                || col >= n_cols(self@)) ==> res == Err::<Matrix, MatrixError>(
                MatrixError::IndexOutOfRange,
            ),
            !is_empty(self@) && 1 < self@.len() && 1 < n_cols(self@) && row < self@.len() && col
                < n_cols(self@) ==> (res matches Ok(a) && a@ == minor(self@, row as int, col as int)),
    {
        proof {
            use_type_invariant(self);
        }
        let h = self.m.len();
        if h == 0 || self.m[0].len() == 0 {
            return Err(MatrixError::EmptyMatrix);
        }
        let w = self.m[0].len();
        if h <= 1 || w <= 1 || row >= h || col >= w {
            return Err(MatrixError::IndexOutOfRange);
        }
        let ghost mm = minor(self@, row as int, col as int);
        proof {
            lemma_minor_shape(self@, row as int, col as int);
        }
        let mut res: Vec<Vec<i64>> = Vec::new();
        let mut i: usize = 0;
        while i < h
            invariant
                0 <= i <= h,
                h == self@.len(),
                w == n_cols(self@),
                1 < h,
                1 < w,
                row < h,
                col < w,
                is_rect(self@),
                mm == minor(self@, row as int, col as int),
                mm.len() == h - 1,
                forall|a: int| 0 <= a < h - 1 ==> #[trigger] mm[a].len() == w - 1,
                forall|a: int, b: int|
                    0 <= a < h - 1 && 0 <= b < w - 1 ==> #[trigger] mm[a][b] == self@[if a
                        < row {
                        a
                    } else {
                        a + 1
                    }][if b < col {
                        b
                    } else {
                        b + 1
                    }],
                res@.len() == if i <= row {
                    i as int
                } else {
                    i - 1
                },
                forall|k: int| 0 <= k < res@.len() ==> #[trigger] res@[k]@ == mm[k],
            decreases h - i,
        {
            let mut buffer: Vec<i64> = Vec::new();
            let mut j: usize = 0;
            while j < w
                invariant
                    0 <= j <= w,
                    0 <= i < h,
                    h == self@.len(),
                    w == n_cols(self@),
                    col < w,
                    is_rect(self@),
                    buffer@.len() == if j <= col {
                        j as int
                    } else {
                        j - 1
                    },
                    forall|b: int|
                        0 <= b < buffer@.len() ==> #[trigger] buffer@[b] == self@[i as int][if b
                            < col {
                            b
                        } else {
                            b + 1
                        }],
                decreases w - j,
            {
                assert(self@[i as int].len() == w);
                assert(self.m@[i as int]@ == self@[i as int]);
                if j != col {
                    buffer.push(self.m[i][j]);
                }
                j = j + 1;
            }
            if i != row {
                let ghost k: int = res@.len() as int;
                assert(buffer@ =~= mm[k]);
                res.push(buffer);
            }
            i = i + 1;
        }
        let a = Matrix { m: res };
        assert(a@ =~= mm);
        Ok(a)
    }

    /// The determinant, by Laplace expansion along the first row (sizes one
    /// and two directly). Every step is checked for overflow.
    pub fn determinant(&self) -> (res: Result<i64, MatrixError>)
        ensures
            is_empty(self@) ==> res == Err::<i64, MatrixError>(MatrixError::EmptyMatrix),
            !is_empty(self@) && !is_square(self@) ==> res == Err::<i64, MatrixError>(
                MatrixError::ShapeMismatch,
            ),
            !is_empty(self@) && is_square(self@) && det_fits(self@) ==> res == Ok::<i64, MatrixError>(
                det(self@) as i64,
            ) && fits(det(self@)),
            !is_empty(self@) && is_square(self@) && !det_fits(self@) ==> res == Err::<
                i64,
                MatrixError,
            >(MatrixError::Overflow),
        decreases self@.len(),
    {
        proof {
            use_type_invariant(self);
        }
        let h = self.m.len();
        if h == 0 || self.m[0].len() == 0 {
            return Err(MatrixError::EmptyMatrix);
        }
        let w = self.m[0].len();
        if h != w {
            return Err(MatrixError::ShapeMismatch);
        }
        let ghost m = self@;
        proof {
            assert(self.m@[0]@ == m[0]);
        }
        if h == 1 {
            return Ok(self.m[0][0]);
        }
        proof {
            assert(self.m@[1]@ == m[1]);
            assert(m[1].len() == m[0].len());
        }
        if h == 2 {
            proof {
                lemma_det_two(m);
            }
            let a = self.m[0][0];
            let b = self.m[0][1];
            let c = self.m[1][0];
            let d = self.m[1][1];
            let ad = match a.checked_mul(d) {
                Some(x) => x,
                None => return Err(MatrixError::Overflow),
            };
            let bc = match b.checked_mul(c) {
                Some(x) => x,
                None => return Err(MatrixError::Overflow),
            };
            return match ad.checked_sub(bc) {
                Some(x) => Ok(x),
                None => Err(MatrixError::Overflow),
            };
        }
        let mut total: i64 = 0;
        let mut i: usize = 0;
        while i < w
            invariant
                0 <= i <= w,
                h == w,
                w > 2,
                m == self@,
                m.len() == w,
                n_cols(m) == w,
                is_rect(m),
                expansion_fits(m, i as nat),
                total == expansion(m, i as nat),
            decreases w - i,
        {
            proof {
                lemma_minor_shape(m, 0, i as int);
            }
            let mnr = match self.without_rc(0, i) {
                Ok(x) => x,
                Err(e) => return Err(e),
            };
            let ghost mm = minor(m, 0, i as int);
            let ghost k1 = (i + 1) as nat;
            assert(expansion(m, k1) == expansion(m, i as nat) + signed(
                i as int,
                m[0][i as int] * det(mm),
            ));
            let d = match mnr.determinant() {
                Ok(x) => x,
                Err(_) => {
                    proof {
                        if det_fits(m) {
                            lemma_expansion_fits_prefix(m, k1, w as nat);
                        }
                    }
                    return Err(MatrixError::Overflow);
                },
            };
            let p = match self.m[0][i].checked_mul(d) {
                Some(x) => x,
                None => {
                    proof {
                        if det_fits(m) {
                            lemma_expansion_fits_prefix(m, k1, w as nat);
                        }
                    }
                    return Err(MatrixError::Overflow);
                },
            };
            let next = if i % 2 == 0 {
                total.checked_add(p)
            } else {
                total.checked_sub(p)
            };
            total = match next {
                Some(x) => x,
                None => {
                    proof {
                        if det_fits(m) {
                            lemma_expansion_fits_prefix(m, k1, w as nat);
                        }
                    }
                    return Err(MatrixError::Overflow);
                },
            };
            i = i + 1;
        }
        Ok(total)
    }

    /// The cofactor matrix: entry `(i, j)` is the determinant of the minor at
    /// `(i, j)`, negated where `i + j` is odd. A matrix of size one has no
    /// minors, so its cofactor matrix is refused.
    pub fn cofactor(&self) -> (res: Result<Matrix, MatrixError>)
        ensures
            is_empty(self@) ==> res == Err::<Matrix, MatrixError>(MatrixError::EmptyMatrix),
            !is_empty(self@) && !is_square(self@) ==> res == Err::<Matrix, MatrixError>(
                MatrixError::ShapeMismatch,
            ),
            !is_empty(self@) && is_square(self@) && self@.len() == 1 ==> res == Err::<
                Matrix,
                MatrixError,
            >(MatrixError::IndexOutOfRange),
            !is_empty(self@) && is_square(self@) && self@.len() > 1 && cofactor_fits(self@) ==> (res matches Ok(
                a,
            ) && a@ == cofactors(self@)),
            !is_empty(self@) && is_square(self@) && self@.len() > 1 && !cofactor_fits(self@) ==> res
                == Err::<Matrix, MatrixError>(MatrixError::Overflow),
    {
        proof {
            use_type_invariant(self);
        }
        let h = self.m.len();
        if h == 0 || self.m[0].len() == 0 {
            return Err(MatrixError::EmptyMatrix);
        }
        let n = self.m[0].len();
        if h != n {
            return Err(MatrixError::ShapeMismatch);
        }
        if n == 1 {
            return Err(MatrixError::IndexOutOfRange);
        }
        let ghost m = self@;
        let mut res: Vec<Vec<i64>> = Vec::new();
        let mut i: usize = 0;
        while i < n
            invariant
                0 <= i <= n,
                h == n,
                n > 1,
                m == self@,
                m.len() == n,
                n_cols(m) == n,
                is_rect(m),
                res@.len() == i,
                forall|a: int| 0 <= a < i ==> #[trigger] res@[a]@ == cofactors(m)[a],
                forall|a: int, b: int|
                    0 <= a < i && 0 <= b < n ==> det_fits(#[trigger] minor(m, a, b)) && fits(
                        cofactor_entry(m, a, b),
                    ),
            decreases n - i,
        {
            let mut buffer: Vec<i64> = Vec::new();
            let mut j: usize = 0;
            while j < n
                invariant
                    0 <= j <= n,
                    0 <= i < n,
                    h == n,
                    n > 1,
                    m == self@,
                    m.len() == n,
                    n_cols(m) == n,
                    is_rect(m),
                    buffer@.len() == j,
                    forall|b: int|
                        0 <= b < j ==> #[trigger] buffer@[b] == cofactor_entry(m, i as int, b),
                    forall|a: int, b: int|
                        0 <= a < i && 0 <= b < n ==> det_fits(#[trigger] minor(m, a, b)) && fits(
                            cofactor_entry(m, a, b),
                        ),
                    forall|b: int|
                        0 <= b < j ==> det_fits(#[trigger] minor(m, i as int, b)) && fits(
                            cofactor_entry(m, i as int, b),
                        ),
                decreases n - j,
            {
                proof {
                    lemma_minor_shape(m, i as int, j as int);
                    lemma_cofactor_sign(m, i as int, j as int);
                }
                let mnr = match self.without_rc(i, j) {
                    Ok(x) => x,
                    Err(e) => return Err(e),
                };
                let d = match mnr.determinant() {
                    Ok(x) => x,
                    Err(_) => {
                        assert(!det_fits(minor(m, i as int, j as int)));
                        return Err(MatrixError::Overflow);
                    },
                };
                let v = if (i % 2 == 0) == (j % 2 == 0) {
                    d
                } else if d == i64::MIN {
                    assert(!fits(cofactor_entry(m, i as int, j as int)));
                    return Err(MatrixError::Overflow);
                } else {
                    -d
                };
                buffer.push(v);
                j = j + 1;
            }
            assert(buffer@ =~= cofactors(m)[i as int]);
            res.push(buffer);
            i = i + 1;
        }
        let a = Matrix { m: res };
        assert(a@ =~= cofactors(m));
        Ok(a)
    }

    /// The adjugate: the transpose of the cofactor matrix.
    pub fn adjugate(&self) -> (res: Result<Matrix, MatrixError>)
        ensures
            is_empty(self@) ==> res == Err::<Matrix, MatrixError>(MatrixError::EmptyMatrix),
            !is_empty(self@) && !is_square(self@) ==> res == Err::<Matrix, MatrixError>(
                MatrixError::ShapeMismatch,
            ),
            !is_empty(self@) && is_square(self@) && self@.len() == 1 ==> res == Err::<
                Matrix,
                MatrixError,
            >(MatrixError::IndexOutOfRange),
            !is_empty(self@) && is_square(self@) && self@.len() > 1 && cofactor_fits(self@) ==> (res matches Ok(
                a,
            ) && a@ == transposed(cofactors(self@))),
            !is_empty(self@) && is_square(self@) && self@.len() > 1 && !cofactor_fits(self@) ==> res
                == Err::<Matrix, MatrixError>(MatrixError::Overflow),
    {
        match self.cofactor() {
            Ok(c) => Ok(c.transpose()),
            Err(e) => Err(e),
        }
    }

    /// The exact inverse, as the adjugate over the determinant. The
    /// determinant is computed first: a singular matrix is refused before the
    /// adjugate is formed.
    pub fn inverse(&self) -> (res: Result<ScaledMatrix, MatrixError>)
        ensures
            is_empty(self@) ==> res == Err::<ScaledMatrix, MatrixError>(MatrixError::EmptyMatrix),
            !is_empty(self@) && !is_square(self@) ==> res == Err::<ScaledMatrix, MatrixError>(
                MatrixError::ShapeMismatch,
            ),
            !is_empty(self@) && is_square(self@) && !det_fits(self@) ==> res == Err::<
                ScaledMatrix,
                MatrixError,
            >(MatrixError::Overflow),
            !is_empty(self@) && is_square(self@) && det_fits(self@) && det(self@) == 0 ==> res
                == Err::<ScaledMatrix, MatrixError>(MatrixError::Singular),
            !is_empty(self@) && is_square(self@) && det_fits(self@) && det(self@) != 0
                && self@.len() == 1 ==> res == Err::<ScaledMatrix, MatrixError>(
                MatrixError::IndexOutOfRange,
            ),
            !is_empty(self@) && is_square(self@) && det_fits(self@) && det(self@) != 0
                && self@.len() > 1 && !cofactor_fits(self@) ==> res == Err::<
                ScaledMatrix,
                MatrixError,
            >(MatrixError::Overflow),
            !is_empty(self@) && is_square(self@) && det_fits(self@) && det(self@) != 0
                && self@.len() > 1 && cofactor_fits(self@) ==> (res matches Ok(s) && s.numerators@
                == transposed(cofactors(self@)) && s.denominator == det(self@)),
    {
        let d = match self.determinant() {
            Ok(x) => x,
            Err(e) => return Err(e),
        };
        if d == 0 {
            return Err(MatrixError::Singular);
        }
        match self.adjugate() {
            Ok(a) => Ok(ScaledMatrix { numerators: a, denominator: d }),
            Err(e) => Err(e),
        }
    }

    /// The matrix as text: `[` and `]` around its rows, each row as
    /// `[a, b, c]`, the rows separated by a comma and a line break.
    pub fn to_text(&self) -> (r: String)
        ensures
            r@ == matrix_text(self@),
    {
        let ghost texts = self@.map_values(|r: Seq<i64>| row_text(r));
        let mut s = String::new();
        proof {
            reveal_strlit("[");
        }
        s.append("[");
        let mut i: usize = 0;
        while i < self.m.len()
            invariant
                0 <= i <= self.m.len(),
                texts == self@.map_values(|r: Seq<i64>| row_text(r)),
                s@ == seq!['['] + joined(texts.subrange(0, i as int), seq![',', '\n']),
            decreases self.m.len() - i,
        {
            proof {
                lemma_joined_push(texts.subrange(0, i as int), seq![',', '\n'], texts[i as int]);
                assert(texts.subrange(0, i as int).push(texts[i as int]) =~= texts.subrange(
                    0,
                    i + 1,
                ));
                reveal_strlit(",\n");
            }
            let ghost before = s@;
            assert(texts[i as int] == row_text(self.m@[i as int]@));
            assert(",\n"@ =~= seq![',', '\n']);
            if i > 0 {
                s.append(",\n");
            }
            assert(i > 0 ==> s@ == before + seq![',', '\n']);
            assert(i == 0 ==> s@ == before);
            push_row(&mut s, &self.m[i]);
            i = i + 1;
            assert(s@ =~= seq!['['] + joined(texts.subrange(0, i as int), seq![',', '\n']));
        }
        proof {
            reveal_strlit("]");
        }
        s.append("]");
        assert(texts.subrange(0, self@.len() as int) =~= texts);
        assert(s@ =~= matrix_text(self@));
        s
    }

    /// The transpose: entry `(j, i)` of the result is entry `(i, j)` of `self`.
    pub fn transpose(&self) -> (r: Matrix)
        ensures
            r@ == transposed(self@),
    {
        proof {
            use_type_invariant(self);
        }
        let h = self.m.len();
        let w: usize = if h == 0 { 0 } else { self.m[0].len() };
        let mut res: Vec<Vec<i64>> = Vec::new();
        let mut j: usize = 0;
        while j < w
            invariant
                0 <= j <= w,
                h == self@.len(),
                w == n_cols(self@),
                is_rect(self@),
                res@.len() == j,
                forall|k: int| 0 <= k < j ==> #[trigger] res@[k]@ == transposed(self@)[k],
            decreases w - j,
        {
            let mut buffer: Vec<i64> = Vec::new();
            let mut i: usize = 0;
            while i < h
                invariant
                    0 <= i <= h,
                    0 <= j < w,
                    h == self@.len(),
                    w == n_cols(self@),
                    is_rect(self@),
                    buffer@.len() == i,
                    forall|k: int| 0 <= k < i ==> #[trigger] buffer@[k] == self@[k][j as int],
                decreases h - i,
            {
                assert(self@[i as int].len() == w);
                buffer.push(self.m[i][j]);
                i = i + 1;
            }
            assert(buffer@ =~= transposed(self@)[j as int]);
            res.push(buffer);
            j = j + 1;
        }
        let r = Matrix { m: res };
        assert(r@ =~= transposed(self@));
        r
    }
}

} // verus!
