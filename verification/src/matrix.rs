//! Dense square matrices of fixed-point numbers: the mathematical model and
//! the executable operations on rows of `i64`.

use vstd::prelude::*;
use vstd::arithmetic::div_mod::{
    lemma_div_pos_is_pos, lemma_mod_pos_bound, lemma_multiply_divide_lt,
};
use crate::error::QuantumError;
use crate::fixed::{abs, fixed_mul, fixed_mul_i64, ONE, ONE_SQUARED, round_div};
use crate::sums::{dot, ints, lemma_dot_prefix_bound, prod_term, sum};

verus! {

/// The matrix that a vector of rows holds.
pub open spec fn grid(rows: Seq<Vec<i64>>) -> Seq<Seq<int>> {
    Seq::new(rows.len(), |r: int| ints(rows[r]@))
}

/// Whether `m` has `d` rows of `d` entries each.
pub open spec fn is_square(m: Seq<Seq<int>>, d: nat) -> bool {
    &&& m.len() == d
    &&& forall|r: int| 0 <= r < d ==> (#[trigger] m[r]).len() == d
}

/// Whether no entry of the square matrix `m` exceeds `limit` in magnitude.
pub open spec fn entries_within(m: Seq<Seq<int>>, limit: int) -> bool {
    forall|r: int, c: int|
        0 <= r < m.len() && 0 <= c < m.len() ==> abs(#[trigger] m[r][c]) <= limit
}

/// The identity matrix of dimension `d`.
pub open spec fn identity(d: nat) -> Seq<Seq<int>> {
    Seq::new(d, |r: int| Seq::new(d, |c: int| if r == c { ONE as int } else { 0 }))
}

/// The Kronecker product of two square matrices: the entry at row
/// `i * b.len() + k` and column `j * b.len() + l` is the rounded product of
/// `a[i][j]` and `b[k][l]`.
pub open spec fn kron(a: Seq<Seq<int>>, b: Seq<Seq<int>>) -> Seq<Seq<int>> {
    let d = a.len() * b.len();
    Seq::new(
        d,
        |r: int|
            Seq::new(
                d,
                |c: int|
                    fixed_mul(
                        a[r / (b.len() as int)][c / (b.len() as int)],
                        b[r % (b.len() as int)][c % (b.len() as int)],
                    ),
            ),
    )
}

/// The entrywise sum of two square matrices of one dimension.
pub open spec fn mat_add(a: Seq<Seq<int>>, b: Seq<Seq<int>>) -> Seq<Seq<int>> {
    Seq::new(a.len(), |r: int| Seq::new(a.len(), |c: int| a[r][c] + b[r][c]))
}

/// The product of a matrix and a column vector, each component rounded to
/// the nearest unit.
pub open spec fn mat_vec(m: Seq<Seq<int>>, v: Seq<int>) -> Seq<int> {
    Seq::new(m.len(), |r: int| round_div(dot(m[r], v), ONE as int))
}

/// Column `j` of a matrix.
pub open spec fn column(m: Seq<Seq<int>>, j: int) -> Seq<int> {
    Seq::new(m.len(), |r: int| m[r][j])
}

/// The dot product of columns `i` and `j`: an entry of the transpose of `m`
/// times `m`, in units of the square of one.
pub open spec fn gram(m: Seq<Seq<int>>, i: int, j: int) -> int {
    dot(column(m, i), column(m, j))
}

/// Whether the columns of `m` are of length one and at right angles to each
/// other: every entry of the transpose of `m` times `m` is within
/// `tolerance` of the matching entry of the identity, in units of the
/// square of one.
pub open spec fn is_orthogonal(m: Seq<Seq<int>>, tolerance: int) -> bool {
    forall|i: int, j: int|
        0 <= i < m.len() && 0 <= j < m.len() ==> abs(
            #[trigger] gram(m, i, j) - (if i == j {
                ONE_SQUARED as int
            } else {
                0
            }),
        ) <= tolerance
}

/// A two by two matrix from its entries, row by row.
pub(crate) fn grid2(m00: i64, m01: i64, m10: i64, m11: i64) -> (rows: Vec<Vec<i64>>)
    ensures
        rows.len() == 2,
        grid(rows@) == seq![seq![m00 as int, m01 as int], seq![m10 as int, m11 as int]],
{
    let mut top: Vec<i64> = Vec::new();
    top.push(m00);
    top.push(m01);
    let mut bottom: Vec<i64> = Vec::new();
    bottom.push(m10);
    bottom.push(m11);
    let mut rows: Vec<Vec<i64>> = Vec::new();
    rows.push(top);
    rows.push(bottom);
    proof {
        let want = seq![seq![m00 as int, m01 as int], seq![m10 as int, m11 as int]];
        assert(grid(rows@)[0] =~= want[0]);
        assert(grid(rows@)[1] =~= want[1]);
        assert(grid(rows@) =~= want);
    }
    rows
}

/// The identity matrix of dimension `d`.
pub(crate) fn identity_grid(d: usize) -> (rows: Vec<Vec<i64>>)
    ensures
        rows.len() == d,
        grid(rows@) == identity(d as nat),
{
    let mut rows: Vec<Vec<i64>> = Vec::new();
    let mut r: usize = 0;
    while r < d
        invariant
            r <= d,
            rows.len() == r,
            forall|i: int| 0 <= i < r ==> ints((#[trigger] rows[i])@) == identity(d as nat)[i],
        decreases d - r,
    {
        let mut row: Vec<i64> = Vec::new();
        let mut c: usize = 0;
        while c < d
            invariant
                c <= d,
                r < d,
                row.len() == c,
                forall|j: int|
                    0 <= j < c ==> #[trigger] row[j] == (if r as int == j {
                        ONE
                    } else {
                        0i64
                    }),
            decreases d - c,
        {
            row.push(if r == c { ONE } else { 0 });
            c += 1;
        }
        assert(ints(row@) =~= identity(d as nat)[r as int]);
        rows.push(row);
        r += 1;
    }
    assert(grid(rows@) =~= identity(d as nat));
    rows
}

/// The Kronecker product of two square matrices.
pub(crate) fn kronecker(a: &Vec<Vec<i64>>, b: &Vec<Vec<i64>>) -> (rows: Vec<Vec<i64>>)
    requires
        is_square(grid(a@), a.len() as nat),
        is_square(grid(b@), b.len() as nat),
        a.len() * b.len() <= usize::MAX,
        entries_within(grid(a@), 0x1_0000_0000),
        entries_within(grid(b@), 0x1_0000_0000),
    ensures
        rows.len() == a.len() * b.len(),
        grid(rows@) == kron(grid(a@), grid(b@)),
{
    let da = a.len();
    let db = b.len();
    let d = da * db;
    let ghost want = kron(grid(a@), grid(b@));
    let mut rows: Vec<Vec<i64>> = Vec::new();
    let mut r: usize = 0;
    while r < d
        invariant
            r <= d,
            d == da * db,
            da == a.len(),
            db == b.len(),
            want == kron(grid(a@), grid(b@)),
            is_square(grid(a@), da as nat),
            is_square(grid(b@), db as nat),
            entries_within(grid(a@), 0x1_0000_0000),
            entries_within(grid(b@), 0x1_0000_0000),
            rows.len() == r,
            forall|i: int| 0 <= i < r ==> ints((#[trigger] rows[i])@) == want[i],
        decreases d - r,
    {
        proof {
            lemma_block_index(r as int, da as int, db as int);
        }
        let ar = r / db;
        let br = r % db;
        let mut row: Vec<i64> = Vec::new();
        let mut c: usize = 0;
        while c < d
            invariant
                c <= d,
                r < d,
                d == da * db,
                da == a.len(),
                db == b.len(),
                ar == r / db,
                br == r % db,
                ar < da,
                br < db,
                is_square(grid(a@), da as nat),
                is_square(grid(b@), db as nat),
                entries_within(grid(a@), 0x1_0000_0000),
                entries_within(grid(b@), 0x1_0000_0000),
                row.len() == c,
                forall|j: int|
                    0 <= j < c ==> #[trigger] row[j] as int == fixed_mul(
                        grid(a@)[ar as int][j / (db as int)],
                        grid(b@)[br as int][j % (db as int)],
                    ),
            decreases d - c,
        {
            proof {
                lemma_block_index(c as int, da as int, db as int);
            }
            let ac = c / db;
            let bc = c % db;
            assert(grid(a@)[ar as int].len() == da);
            assert(grid(b@)[br as int].len() == db);
            let x = a[ar][ac];
            let y = b[br][bc];
            assert(x as int == grid(a@)[ar as int][ac as int]);
            assert(y as int == grid(b@)[br as int][bc as int]);
            row.push(fixed_mul_i64(x, y));
            c += 1;
        }
        assert(ints(row@) =~= want[r as int]);
        rows.push(row);
        r += 1;
    }
    assert(grid(rows@) =~= want);
    rows
}

/// An index below `da * db` splits into a block below `da` and an offset
/// below `db`.
pub proof fn lemma_block_index(i: int, da: int, db: int)
    requires
        0 <= i < da * db,
        0 <= da,
        0 <= db,
    ensures
        db > 0,
        0 <= i / db < da,
        0 <= i % db < db,
{
    assert(db > 0) by (nonlinear_arith)
        requires
            0 <= i < da * db,
            0 <= da,
            0 <= db,
    ;
    assert(i < db * da) by (nonlinear_arith)
        requires
            i < da * db,
    ;
    lemma_multiply_divide_lt(i, db, da);
    lemma_div_pos_is_pos(i, db);
    lemma_mod_pos_bound(i, db);
}

/// The entrywise sum of two square matrices of one dimension.
pub(crate) fn grid_add(a: &Vec<Vec<i64>>, b: &Vec<Vec<i64>>) -> (rows: Vec<Vec<i64>>)
    requires
        is_square(grid(a@), a.len() as nat),
        is_square(grid(b@), a.len() as nat),
        entries_within(grid(a@), 0x1_0000_0000),
        entries_within(grid(b@), 0x1_0000_0000),
    ensures
        rows.len() == a.len(),
        grid(rows@) == mat_add(grid(a@), grid(b@)),
{
    let d = a.len();
    let ghost want = mat_add(grid(a@), grid(b@));
    let mut rows: Vec<Vec<i64>> = Vec::new();
    let mut r: usize = 0;
    while r < d
        invariant
            r <= d,
            d == a.len(),
            want == mat_add(grid(a@), grid(b@)),
            is_square(grid(a@), d as nat),
            is_square(grid(b@), d as nat),
            entries_within(grid(a@), 0x1_0000_0000),
            entries_within(grid(b@), 0x1_0000_0000),
            rows.len() == r,
            forall|i: int| 0 <= i < r ==> ints((#[trigger] rows[i])@) == want[i],
        decreases d - r,
    {
        let mut row: Vec<i64> = Vec::new();
        let mut c: usize = 0;
        while c < d
            invariant
                c <= d,
                r < d,
                d == a.len(),
                is_square(grid(a@), d as nat),
                is_square(grid(b@), d as nat),
                entries_within(grid(a@), 0x1_0000_0000),
                entries_within(grid(b@), 0x1_0000_0000),
                row.len() == c,
                forall|j: int|
                    0 <= j < c ==> #[trigger] row[j] as int == grid(a@)[r as int][j] + grid(
                        b@,
                    )[r as int][j],
            decreases d - c,
        {
            assert(grid(a@)[r as int].len() == d);
            assert(grid(b@)[r as int].len() == d);
            let x = a[r][c];
            let y = b[r][c];
            assert(x as int == grid(a@)[r as int][c as int]);
            assert(y as int == grid(b@)[r as int][c as int]);
            row.push(x + y);
            c += 1;
        }
        assert(ints(row@) =~= want[r as int]);
        rows.push(row);
        r += 1;
    }
    assert(grid(rows@) =~= want);
    rows
}

/// The dot product of two vectors of one length, exactly.  The bounds on
/// the components say that no partial sum overflows.
pub(crate) fn dot_i128(
    row: &Vec<i64>,
    v: &Vec<i64>,
    Ghost(limit_row): Ghost<int>,
    Ghost(limit_v): Ghost<int>,
) -> (d: i128)
    requires
        row.len() == v.len(),
        0 <= limit_row,
        0 <= limit_v,
        row.len() * (limit_row * limit_v) <= 0x2000_0000_0000_0000_0000_0000_0000_0000,
        forall|i: int| 0 <= i < row.len() ==> abs(#[trigger] ints(row@)[i]) <= limit_row,
        forall|i: int| 0 <= i < v.len() ==> abs(#[trigger] ints(v@)[i]) <= limit_v,
    ensures
        d == dot(ints(row@), ints(v@)),
        abs(d as int) <= row.len() * (limit_row * limit_v),
{
    let n = row.len();
    let ghost f = prod_term(ints(row@), ints(v@));
    let ghost cap = limit_row * limit_v;
    let mut acc: i128 = 0;
    let mut i: usize = 0;
    proof {
        assert(0 <= cap) by (nonlinear_arith)
            requires
                cap == limit_row * limit_v,
                0 <= limit_row,
                0 <= limit_v,
        ;
    }
    while i < n
        invariant
            i <= n,
            n == row.len(),
            n == v.len(),
            f == prod_term(ints(row@), ints(v@)),
            cap == limit_row * limit_v,
            0 <= cap,
            n * cap <= 0x2000_0000_0000_0000_0000_0000_0000_0000,
            forall|k: int| 0 <= k < row.len() ==> abs(#[trigger] ints(row@)[k]) <= limit_row,
            forall|k: int| 0 <= k < v.len() ==> abs(#[trigger] ints(v@)[k]) <= limit_v,
            acc == sum(f, i as nat),
        decreases n - i,
    {
        let x = row[i];
        let y = v[i];
        proof {
            lemma_dot_prefix_bound(ints(row@), ints(v@), i as nat, limit_row, limit_v);
            lemma_dot_prefix_bound(ints(row@), ints(v@), (i + 1) as nat, limit_row, limit_v);
            assert(abs(ints(row@)[i as int]) <= limit_row);
            assert(abs(ints(v@)[i as int]) <= limit_v);
            assert(abs(x as int * y as int) <= limit_row * limit_v) by (nonlinear_arith)
                requires
                    abs(x as int) <= limit_row,
                    abs(y as int) <= limit_v,
            ;
            assert(f(i as int) == x as int * y as int);
            assert(i * cap <= (i + 1) * cap && (i + 1) * cap <= n * cap) by (nonlinear_arith)
                requires
                    0 <= cap,
                    0 <= i,
                    i + 1 <= n,
            ;
        }
        acc = acc + (x as i128) * (y as i128);
        i += 1;
    }
    proof {
        lemma_dot_prefix_bound(ints(row@), ints(v@), n as nat, limit_row, limit_v);
    }
    acc
}

/// A copy of a vector.
pub(crate) fn copy_of(v: &Vec<i64>) -> (copy: Vec<i64>)
    ensures
        copy@ == v@,
{
    let mut copy: Vec<i64> = Vec::new();
    let mut i: usize = 0;
    while i < v.len()
        invariant
            i <= v.len(),
            copy.len() == i,
            forall|k: int| 0 <= k < i ==> #[trigger] copy@[k] == v@[k],
        decreases v.len() - i,
    {
        copy.push(v[i]);
        i += 1;
    }
    assert(copy@ =~= v@);
    copy
}

/// An `N` by `N` operator on the amplitudes of a register.
#[derive(Debug)]
pub struct SquareMatrix<const N: usize> {
    rows: Vec<Vec<i64>>,
}

impl<const N: usize> View for SquareMatrix<N> {
    type V = Seq<Seq<int>>;

    closed spec fn view(&self) -> Seq<Seq<int>> {
        grid(self.rows@)
    }
}

impl<const N: usize> Clone for SquareMatrix<N> {
    fn clone(&self) -> (copy: Self)
        ensures
            copy@ == self@,
    {
        proof {
            use_type_invariant(self);
        }
        let mut rows: Vec<Vec<i64>> = Vec::new();
        let mut r: usize = 0;
        while r < self.rows.len()
            invariant
                r <= self.rows.len(),
                rows.len() == r,
                forall|k: int| 0 <= k < r ==> (#[trigger] rows@[k])@ == self.rows@[k]@,
            decreases self.rows.len() - r,
        {
            rows.push(copy_of(&self.rows[r]));
            r += 1;
        }
        assert(grid(rows@) =~~= grid(self.rows@));
        SquareMatrix { rows }
    }
}

impl<const N: usize> SquareMatrix<N> {
    #[verifier::type_invariant]
    spec fn well_formed(self) -> bool {
        is_square(grid(self.rows@), N as nat)
    }

    /// The number of rows, which is the number of columns.
    pub fn dimension(&self) -> (d: usize)
        ensures
            d == N,
            is_square(self@, N as nat),
    {
        proof {
            use_type_invariant(self);
        }
        N
    }

    /// The matrix with the given rows, where there are `N` of them with
    /// `N` entries each.
    pub fn from_rows(rows: Vec<Vec<i64>>) -> (r: Result<Self, QuantumError>)
        ensures
            match r {
                Ok(m) => is_square(grid(rows@), N as nat) && m@ == grid(rows@),
                Err(e) => e == QuantumError::DimensionMismatch && !is_square(
                    grid(rows@),
                    N as nat,
                ),
            },
    {
        if rows.len() != N {
            return Err(QuantumError::DimensionMismatch);
        }
        let mut r: usize = 0;
        while r < N
            invariant
                r <= N,
                rows.len() == N,
                forall|k: int| 0 <= k < r ==> (#[trigger] grid(rows@)[k]).len() == N,
            decreases N - r,
        {
            if rows[r].len() != N {
                assert(grid(rows@)[r as int].len() != N);
                return Err(QuantumError::DimensionMismatch);
            }
            r += 1;
        }
        Ok(SquareMatrix { rows })
    }

    /// The identity matrix.
    pub fn identity() -> (m: Self)
        ensures
            m@ == identity(N as nat),
    {
        SquareMatrix { rows: identity_grid(N) }
    }

    /// Wraps rows that are known to form an `N` by `N` matrix.
    pub(crate) fn from_grid(rows: Vec<Vec<i64>>) -> (m: Self)
        requires
            is_square(grid(rows@), N as nat),
        ensures
            m@ == grid(rows@),
    {
        SquareMatrix { rows }
    }

    /// The rows of the matrix.
    pub(crate) fn rows(&self) -> (rows: &Vec<Vec<i64>>)
        ensures
            grid(rows@) == self@,
            is_square(self@, N as nat),
    {
        proof {
            use_type_invariant(self);
        }
        &self.rows
    }

    /// The entry at row `r` and column `c`.
    pub fn get(&self, r: usize, c: usize) -> (x: i64)
        requires
            r < N,
            c < N,
        ensures
            x == self@[r as int][c as int],
    {
        proof {
            use_type_invariant(self);
            assert(grid(self.rows@)[r as int].len() == N);
        }
        self.rows[r][c]
    }
}

} // verus!
