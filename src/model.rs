//! The mathematical model: matrices as sequences of rows, and the quantities
//! that the operations compute, stated over unbounded integers.
use vstd::prelude::*;

verus! {

/// `x` can be held in an `i64`.
pub open spec fn fits(x: int) -> bool {
    i64::MIN <= x <= i64::MAX
}

/// Every row has the length of the first.
pub open spec fn is_rect(m: Seq<Seq<i64>>) -> bool {
    forall|i: int| 0 <= i < m.len() ==> #[trigger] m[i].len() == m[0].len()
}

/// The number of columns (zero for a matrix without rows).
pub open spec fn n_cols(m: Seq<Seq<i64>>) -> nat {
    if m.len() == 0 {
        0
    } else {
        m[0].len()
    }
}

/// No rows, or rows of length zero.
pub open spec fn is_empty(m: Seq<Seq<i64>>) -> bool {
    m.len() == 0 || m[0].len() == 0
}

/// As many rows as columns.
pub open spec fn is_square(m: Seq<Seq<i64>>) -> bool {
    m.len() == n_cols(m)
}

/// Rows and columns swapped.
pub open spec fn transposed(m: Seq<Seq<i64>>) -> Seq<Seq<i64>> {
    Seq::new(n_cols(m), |j: int| Seq::new(m.len(), |i: int| m[i][j]))
}


/// `m` without row `r` and column `c`.
pub open spec fn minor(m: Seq<Seq<i64>>, r: int, c: int) -> Seq<Seq<i64>> {
    Seq::new(
        (m.len() - 1) as nat,
        |i: int|
            {
                let row = if i < r {
                    m[i]
                } else {
                    m[i + 1]
                };
                Seq::new((row.len() - 1) as nat, |j: int| if j < c { row[j] } else { row[j + 1] })
            },
    )
}

/// `x` with the sign of the position `k` in a Laplace expansion: kept where
/// `k` is even, negated where it is odd.
pub open spec fn signed(k: int, x: int) -> int {
    if k % 2 == 0 {
        x
    } else {
        -x
    }
}

/// The determinant of a square matrix: its sole entry for size one, and
/// otherwise the Laplace expansion along the first row (one, the empty
/// product, for a matrix without rows, which no operation asks for).
pub open spec fn det(m: Seq<Seq<i64>>) -> int
    decreases m.len(), m.len() + 1,
{
    if m.len() == 0 {
        1
    } else if m.len() == 1 {
        m[0][0] as int
    } else {
        expansion(m, m.len())
    }
}

/// The sum of the first `k` terms of the expansion along the first row.
pub open spec fn expansion(m: Seq<Seq<i64>>, k: nat) -> int
    decreases m.len(), k,
{
    if k == 0 || m.len() == 0 {
        0
    } else {
        expansion(m, (k - 1) as nat) + signed(k - 1, m[0][k - 1] * det(minor(m, 0, k - 1)))
    }
}

/// Every value that the determinant's computation passes through fits in an
/// `i64`: the products and difference of size two, and in larger sizes the
/// determinants of the minors, each term and each partial sum.
pub open spec fn det_fits(m: Seq<Seq<i64>>) -> bool
    decreases m.len(), m.len() + 1,
{
    if m.len() <= 1 {
        true
    } else if m.len() == 2 {
        fits(m[0][0] * m[1][1]) && fits(m[0][1] * m[1][0]) && fits(
            m[0][0] * m[1][1] - m[0][1] * m[1][0],
        )
    } else {
        expansion_fits(m, m.len())
    }
}

/// The first `k` steps of the expansion along the first row stay in range.
pub open spec fn expansion_fits(m: Seq<Seq<i64>>, k: nat) -> bool
    decreases m.len(), k,
{
    if k == 0 || m.len() == 0 {
        true
    } else {
        &&& expansion_fits(m, (k - 1) as nat)
        &&& det_fits(minor(m, 0, k - 1))
        &&& fits(m[0][k - 1] * det(minor(m, 0, k - 1)))
        &&& fits(expansion(m, k))
    }
}


/// Entry `(i, j)` of the cofactor matrix: the determinant of the minor at
/// `(i, j)`, negated where `i + j` is odd.
pub open spec fn cofactor_entry(m: Seq<Seq<i64>>, i: int, j: int) -> int {
    signed(i + j, det(minor(m, i, j)))
}

/// Every cofactor of `m` can be computed, and held, in `i64`.
pub open spec fn cofactor_fits(m: Seq<Seq<i64>>) -> bool {
    forall|i: int, j: int|
        0 <= i < m.len() && 0 <= j < m.len() ==> det_fits(#[trigger] minor(m, i, j)) && fits(
            cofactor_entry(m, i, j),
        )
}

/// The cofactor matrix of a square matrix.
pub open spec fn cofactors(m: Seq<Seq<i64>>) -> Seq<Seq<i64>> {
    Seq::new(m.len(), |i: int| Seq::new(m.len(), |j: int| cofactor_entry(m, i, j) as i64))
}

/// The identity matrix of size `n`.
pub open spec fn identity(n: nat) -> Seq<Seq<i64>> {
    Seq::new(n, |i: int| Seq::new(n, |j: int| if i == j { 1i64 } else { 0i64 }))
}

/// Every entry of `m` times `s` fits in an `i64`.
pub open spec fn scale_fits(m: Seq<Seq<i64>>, s: i64) -> bool {
    forall|i: int, j: int| 0 <= i < m.len() && 0 <= j < m[i].len() ==> fits(s * #[trigger] m[i][j])
}

/// Each entry of `m` multiplied by `s`.
pub open spec fn scaled(m: Seq<Seq<i64>>, s: i64) -> Seq<Seq<i64>> {
    Seq::new(m.len(), |i: int| Seq::new(m[i].len(), |j: int| (s * m[i][j]) as i64))
}

/// The sum over `j < n` of `a[i][j] * b[j][k]`.
pub open spec fn dot(a: Seq<Seq<i64>>, b: Seq<Seq<i64>>, i: int, k: int, n: nat) -> int
    decreases n,
{
    if n == 0 {
        0
    } else {
        dot(a, b, i, k, (n - 1) as nat) + a[i][n - 1] * b[n - 1][k]
    }
}

/// Each product and each partial sum of `dot(a, b, i, k, n)` fits in an `i64`.
pub open spec fn dot_fits(a: Seq<Seq<i64>>, b: Seq<Seq<i64>>, i: int, k: int, n: nat) -> bool
    decreases n,
{
    n == 0 || (dot_fits(a, b, i, k, (n - 1) as nat) && fits(a[i][n - 1] * b[n - 1][k]) && fits(
        dot(a, b, i, k, n),
    ))
}

/// Every entry of the product `a * b` can be computed in `i64`.
pub open spec fn product_fits(a: Seq<Seq<i64>>, b: Seq<Seq<i64>>) -> bool {
    forall|i: int, k: int|
        0 <= i < a.len() && 0 <= k < n_cols(b) ==> #[trigger] dot_fits(a, b, i, k, n_cols(a))
}

/// The matrix product `a * b`: entry `(i, k)` is the sum over `j` of
/// `a[i][j] * b[j][k]`.
pub open spec fn product(a: Seq<Seq<i64>>, b: Seq<Seq<i64>>) -> Seq<Seq<i64>> {
    Seq::new(a.len(), |i: int| Seq::new(n_cols(b), |k: int| dot(a, b, i, k, n_cols(a)) as i64))
}

/// The steps of a sum that stay in range form a prefix.
pub proof fn lemma_dot_fits_prefix(
    a: Seq<Seq<i64>>,
    b: Seq<Seq<i64>>,
    i: int,
    k: int,
    j: nat,
    n: nat,
)
    requires
        j <= n,
        dot_fits(a, b, i, k, n),
    ensures
        dot_fits(a, b, i, k, j),
    decreases n,
{
    if j < n {
        lemma_dot_fits_prefix(a, b, i, k, j, (n - 1) as nat);
    }
}

/// The sign of a cofactor goes by the parities of its row and column.
pub proof fn lemma_cofactor_sign(m: Seq<Seq<i64>>, i: int, j: int)
    requires
        0 <= i,
        0 <= j,
    ensures
        cofactor_entry(m, i, j) == if (i % 2 == 0) == (j % 2 == 0) {
            det(minor(m, i, j))
        } else {
            -det(minor(m, i, j))
        },
{
}

/// The steps of the expansion that stay in range form a prefix.
pub proof fn lemma_expansion_fits_prefix(m: Seq<Seq<i64>>, j: nat, k: nat)
    requires
        j <= k,
        expansion_fits(m, k),
    ensures
        expansion_fits(m, j),
    decreases k,
{
    if j < k {
        lemma_expansion_fits_prefix(m, j, (k - 1) as nat);
    }
}

/// Size and entries of a minor of a rectangular matrix.
pub proof fn lemma_minor_shape(m: Seq<Seq<i64>>, r: int, c: int)
    requires
        is_rect(m),
        m.len() > 1,
        n_cols(m) > 1,
        0 <= r < m.len(),
        0 <= c < n_cols(m),
    ensures
        minor(m, r, c).len() == m.len() - 1,
        is_rect(minor(m, r, c)),
        n_cols(minor(m, r, c)) == n_cols(m) - 1,
        forall|i: int, j: int|
            0 <= i < m.len() - 1 && 0 <= j < n_cols(m) - 1 ==> #[trigger] minor(m, r, c)[i][j]
                == m[if i < r {
                i
            } else {
                i + 1
            }][if j < c {
                j
            } else {
                j + 1
            }],
{
    let mm = minor(m, r, c);
    assert forall|i: int| 0 <= i < mm.len() implies #[trigger] mm[i].len() == mm[0].len() by {
        assert(m[i].len() == m[0].len());
        assert(m[i + 1].len() == m[0].len());
        assert(m[1].len() == m[0].len());
    }
    assert(m[1].len() == m[0].len());
    assert forall|i: int, j: int|
        0 <= i < m.len() - 1 && 0 <= j < n_cols(m) - 1 implies #[trigger] mm[i][j] == m[if i < r {
        i
    } else {
        i + 1
    }][if j < c {
        j
    } else {
        j + 1
    }] by {
        assert(m[i].len() == m[0].len());
        assert(m[i + 1].len() == m[0].len());
    }
}

} // verus!
