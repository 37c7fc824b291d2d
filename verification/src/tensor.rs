//! Embedding a small matrix into the operator space of a whole register.
//!
//! An index of the joint space is read as a string of bits, qubit 0 first.
//! A matrix of dimension `d` that acts on adjacent qubits is embedded with
//! the identity on every other qubit; `low` is the weight of the last qubit
//! it acts on, so the bits it acts on are those of `(index / low) % d`.

use vstd::prelude::*;
use vstd::arithmetic::div_mod::{
    lemma_div_denominator, lemma_div_pos_is_pos, lemma_fundamental_div_mod,
    lemma_fundamental_div_mod_converse, lemma_mod_pos_bound,
};
use vstd::arithmetic::power2::{
    lemma_pow2_pos, lemma_pow2_strictly_increases, lemma_pow2_unfold, pow2,
};
use crate::fixed::{abs, lemma_fixed_mul_unit, ONE};
use crate::matrix::{
    column, entries_within, gram, grid, identity, identity_grid, is_square, kron, kronecker,
    lemma_block_index,
};
use crate::sums::{dot, lemma_dot_pair, lemma_dot_single};

verus! {

/// The part of an index that a matrix of dimension `d` at weight `low`
/// acts on.
pub open spec fn block_index(r: int, d: int, low: int) -> int {
    (r / low) % d
}

/// Whether two indices agree in every bit outside the block.
pub open spec fn same_outside(r: int, c: int, d: int, low: int) -> bool {
    r % low == c % low && r / (d * low) == c / (d * low)
}

/// An entry of the embedding of `f` at weight `low`.
pub open spec fn embedded_entry(f: Seq<Seq<int>>, low: int, r: int, c: int) -> int {
    let d = f.len() as int;
    if same_outside(r, c, d, low) {
        f[block_index(r, d, low)][block_index(c, d, low)]
    } else {
        0
    }
}

/// The embedding of `f` at weight `low` into dimension `dim`: the tensor
/// product of an identity, `f`, and the identity of dimension `low`.
pub open spec fn embedded(f: Seq<Seq<int>>, dim: nat, low: nat) -> Seq<Seq<int>> {
    Seq::new(dim, |r: int| Seq::new(dim, |c: int| embedded_entry(f, low as int, r, c)))
}

/// An index is made of the bits above the block, the block and the bits
/// below it.
pub proof fn lemma_index_decompose(r: int, d: int, low: int)
    requires
        0 <= r,
        0 < d,
        0 < low,
    ensures
        r == (r / (d * low)) * (d * low) + block_index(r, d, low) * low + r % low,
        0 <= block_index(r, d, low) < d,
        0 <= r % low < low,
        0 <= r / (d * low),
        d * low > 0,
{
    let q = r / low;
    let b = q % d;
    lemma_fundamental_div_mod(r, low);
    lemma_fundamental_div_mod(q, d);
    lemma_div_pos_is_pos(r, low);
    lemma_mod_pos_bound(q, d);
    lemma_mod_pos_bound(r, low);
    lemma_div_denominator(r, low, d);
    assert(q / d == r / (d * low)) by {
        assert(low * d == d * low) by (nonlinear_arith);
    }
    assert(d * low > 0) by (nonlinear_arith)
        requires
            0 < d,
            0 < low,
    ;
    lemma_div_pos_is_pos(r, d * low);
    let hi = q / d;
    assert(r == hi * (d * low) + b * low + r % low) by (nonlinear_arith)
        requires
            r == low * q + r % low,
            q == d * hi + b,
    ;
}

/// The three parts determine the index.
pub proof fn lemma_index_compose(hi: int, b: int, lo: int, d: int, low: int)
    requires
        0 <= hi,
        0 <= b < d,
        0 <= lo < low,
    ensures
        ({
            let r = hi * (d * low) + b * low + lo;
            &&& 0 <= r
            &&& r / (d * low) == hi
            &&& block_index(r, d, low) == b
            &&& r % low == lo
        }),
{
    let r = hi * (d * low) + b * low + lo;
    assert(r == (hi * d + b) * low + lo) by (nonlinear_arith)
        requires
            r == hi * (d * low) + b * low + lo,
    ;
    lemma_fundamental_div_mod_converse(r, low, hi * d + b, lo);
    lemma_fundamental_div_mod_converse(hi * d + b, d, hi, b);
    assert(0 <= b * low + lo < d * low) by (nonlinear_arith)
        requires
            0 <= b < d,
            0 <= lo < low,
    ;
    lemma_fundamental_div_mod_converse(r, d * low, hi, b * low + lo);
    assert(0 <= r) by (nonlinear_arith)
        requires
            r == hi * (d * low) + (b * low + lo),
            0 <= hi,
            0 <= b * low + lo,
            0 < d * low,
    ;
}

/// Indices that agree outside the block and in it are equal.
pub proof fn lemma_index_unique(r: int, c: int, d: int, low: int)
    requires
        0 <= r,
        0 <= c,
        0 < d,
        0 < low,
        same_outside(r, c, d, low),
        block_index(r, d, low) == block_index(c, d, low),
    ensures
        r == c,
{
    lemma_index_decompose(r, d, low);
    lemma_index_decompose(c, d, low);
}

/// The index that agrees with `r` outside the block and has `b` in it.
pub open spec fn with_block(r: int, b: int, d: int, low: int) -> int {
    r - block_index(r, d, low) * low + b * low
}

/// `with_block` does what it says, and stays below any dimension that is a
/// multiple of the block's span.
pub proof fn lemma_with_block(r: int, b: int, d: int, low: int)
    requires
        0 <= r,
        0 <= b < d,
        0 < low,
    ensures
        0 <= with_block(r, b, d, low),
        same_outside(with_block(r, b, d, low), r, d, low),
        block_index(with_block(r, b, d, low), d, low) == b,
        with_block(r, block_index(r, d, low), d, low) == r,
{
    lemma_index_decompose(r, d, low);
    lemma_index_compose(r / (d * low), b, r % low, d, low);
}

/// `with_block` keeps an index below a dimension that the span divides.
pub proof fn lemma_with_block_bound(r: int, b: int, d: int, low: int, blocks: int)
    requires
        0 <= r < blocks * (d * low),
        0 <= b < d,
        0 < low,
    ensures
        with_block(r, b, d, low) < blocks * (d * low),
{
    lemma_index_decompose(r, d, low);
    let hi = r / (d * low);
    let span = d * low;
    assert(hi < blocks) by (nonlinear_arith)
        requires
            hi * span <= r,
            r < blocks * span,
            span > 0,
    ;
    assert(b * low + r % low < span) by (nonlinear_arith)
        requires
            0 <= b < d,
            0 <= r % low < low,
            span == d * low,
    ;
    assert(hi * span + span <= blocks * span) by (nonlinear_arith)
        requires
            hi < blocks,
            span > 0,
    ;
}

/// The tensor product of two identities is an identity.
pub proof fn lemma_kron_identity(dim: nat)
    ensures
        kron(identity(dim), identity(2)) == identity(2 * dim),
{
    let k = kron(identity(dim), identity(2));
    let want = identity(2 * dim);
    assert(identity(dim).len() == dim);
    assert(identity(2).len() == 2);
    assert(k.len() == identity(dim).len() * identity(2).len());
    assert(k.len() == want.len());
    assert forall|r: int| 0 <= r < 2 * dim implies #[trigger] k[r] == want[r] by {
        assert(k[r].len() == want[r].len());
        assert forall|c: int| 0 <= c < 2 * dim implies #[trigger] k[r][c] == want[r][c] by {
            lemma_block_index(r, dim as int, 2);
            lemma_block_index(c, dim as int, 2);
            let x = identity(dim)[r / 2][c / 2];
            let y = identity(2)[r % 2][c % 2];
            lemma_fixed_mul_unit(x);
            lemma_fixed_mul_unit(y);
        }
        assert(k[r] =~= want[r]);
    }
    assert(k =~= want);
}

/// The tensor product of an identity and `f` is `f` embedded at weight one.
pub proof fn lemma_kron_place(f: Seq<Seq<int>>, dim: nat)
    requires
        f.len() > 0,
    ensures
        kron(identity(dim), f) == embedded(f, dim * f.len(), 1),
{
    let d = f.len() as int;
    let k = kron(identity(dim), f);
    let want = embedded(f, dim * f.len(), 1);
    assert(identity(dim).len() == dim);
    assert(k.len() == identity(dim).len() * f.len());
    assert(k.len() == want.len());
    assert forall|r: int| 0 <= r < dim * d implies #[trigger] k[r] == want[r] by {
        assert(k[r].len() == want[r].len());
        assert forall|c: int| 0 <= c < dim * d implies #[trigger] k[r][c] == want[r][c] by {
            lemma_block_index(r, dim as int, d);
            lemma_block_index(c, dim as int, d);
            let y = f[r % d][c % d];
            lemma_fixed_mul_unit(y);
            assert(d * 1 == d);
            assert(r / 1 == r && c / 1 == c);
            assert(r % 1 == 0 && c % 1 == 0);
        }
        assert(k[r] =~= want[r]);
    }
    assert(k =~= want);
}

/// The tensor product of an embedding and the identity of one more qubit
/// is the embedding at twice the weight.
pub proof fn lemma_kron_extend(f: Seq<Seq<int>>, dim: nat, low: nat)
    requires
        f.len() > 0,
        low > 0,
    ensures
        kron(embedded(f, dim, low), identity(2)) == embedded(f, 2 * dim, 2 * low),
{
    let d = f.len() as int;
    let e = embedded(f, dim, low);
    let k = kron(e, identity(2));
    let want = embedded(f, 2 * dim, 2 * low);
    assert(e.len() == dim);
    assert(identity(2).len() == 2);
    assert(k.len() == e.len() * identity(2).len());
    assert(k.len() == want.len());
    assert forall|r: int| 0 <= r < 2 * dim implies #[trigger] k[r] == want[r] by {
        assert(k[r].len() == want[r].len());
        assert forall|c: int| 0 <= c < 2 * dim implies #[trigger] k[r][c] == want[r][c] by {
            lemma_block_index(r, dim as int, 2);
            lemma_block_index(c, dim as int, 2);
            let x = e[r / 2][c / 2];
            lemma_fixed_mul_unit(x);
            lemma_halve(r, d, low as int);
            lemma_halve(c, d, low as int);
        }
        assert(k[r] =~= want[r]);
    }
    assert(k =~= want);
}

/// How the parts of an index relate to those of its half.
pub proof fn lemma_halve(r: int, d: int, low: int)
    requires
        0 <= r,
        0 < d,
        0 < low,
    ensures
        block_index(r, d, 2 * low) == block_index(r / 2, d, low),
        r / (d * (2 * low)) == (r / 2) / (d * low),
        r % (2 * low) == 2 * ((r / 2) % low) + r % 2,
        0 <= r % 2 < 2,
{
    lemma_div_denominator(r, 2, low);
    assert(d * low > 0) by (nonlinear_arith)
        requires
            0 < d,
            0 < low,
    ;
    lemma_div_denominator(r, 2, d * low);
    assert(2 * (d * low) == d * (2 * low)) by (nonlinear_arith);
    vstd::arithmetic::div_mod::lemma_breakdown(r, 2, low);
}

/// Powers of two are positive and double with each step.
pub proof fn lemma_pow2_step(e: nat)
    ensures
        pow2(0) == 1,
        pow2(e) > 0,
        pow2(e + 1) == 2 * pow2(e),
{
    lemma_pow2_pos(e);
    lemma_pow2_unfold(e + 1);
    vstd::arithmetic::power2::lemma2_to64();
}

/// Powers of two grow with the exponent.
pub proof fn lemma_pow2_monotonic(e1: nat, e2: nat)
    requires
        e1 <= e2,
    ensures
        pow2(e1) <= pow2(e2),
{
    if e1 < e2 {
        lemma_pow2_strictly_increases(e1, e2);
    }
}

/// An embedding is square, and its entries are bounded as those of the
/// embedded matrix are.
pub proof fn lemma_embedded_within(f: Seq<Seq<int>>, dim: nat, low: nat, limit: int)
    requires
        f.len() > 0,
        low > 0,
        limit >= 0,
        entries_within(f, limit),
    ensures
        is_square(embedded(f, dim, low), dim),
        entries_within(embedded(f, dim, low), limit),
{
    let e = embedded(f, dim, low);
    let d = f.len() as int;
    assert forall|r: int, c: int| 0 <= r < e.len() && 0 <= c < e.len() implies abs(
        #[trigger] e[r][c],
    ) <= limit by {
        lemma_index_decompose(r, d, low as int);
        lemma_index_decompose(c, d, low as int);
        if same_outside(r, c, d, low as int) {
            assert(abs(f[block_index(r, d, low as int)][block_index(c, d, low as int)]) <= limit);
        }
    }
}

/// The identity is square, with entries of magnitude at most one.
pub proof fn lemma_identity_within(dim: nat)
    ensures
        is_square(identity(dim), dim),
        entries_within(identity(dim), ONE as int),
{
}

/// The dimension of the space of `lead` qubits, a matrix of dimension `d`
/// and `trail` qubits.
pub open spec fn joint_dim(lead: nat, d: nat, trail: nat) -> nat {
    pow2(lead) * d * pow2(trail)
}

/// The tensor product of square matrices, accumulated from the first on.
/// The product of none is the one by one identity.
pub open spec fn tensor_product(factors: Seq<Seq<Seq<int>>>) -> Seq<Seq<int>>
    decreases factors.len(),
{
    if factors.len() == 0 {
        identity(1)
    } else {
        kron(tensor_product(factors.drop_last()), factors.last())
    }
}

/// `count` factors: `f` at position `at`, the two by two identity at every
/// other position.
pub open spec fn factors_with(f: Seq<Seq<int>>, count: nat, at: nat) -> Seq<Seq<Seq<int>>> {
    Seq::new(
        count,
        |k: int|
            if k == at {
                f
            } else {
                identity(2)
            },
    )
}

/// The tensor product of two by two identities is an identity.
pub proof fn lemma_tensor_product_identity(f: Seq<Seq<int>>, count: nat, at: nat)
    requires
        at >= count,
    ensures
        tensor_product(factors_with(f, count, at)) == identity(pow2(count)),
    decreases count,
{
    lemma_pow2_step(0);
    if count > 0 {
        let shorter = (count - 1) as nat;
        lemma_pow2_step(shorter);
        assert(factors_with(f, count, at).drop_last() =~= factors_with(f, shorter, at));
        lemma_tensor_product_identity(f, shorter, at);
        lemma_kron_identity(pow2(shorter));
    }
}

/// The embedding of `f` is the tensor product of identities on the qubits
/// before it, `f` itself, and identities on the qubits after it.
pub proof fn lemma_tensor_product_embedded(f: Seq<Seq<int>>, count: nat, at: nat)
    requires
        f.len() > 0,
        at < count,
    ensures
        tensor_product(factors_with(f, count, at)) == embedded(
            f,
            joint_dim(at, f.len(), (count - 1 - at) as nat),
            pow2((count - 1 - at) as nat),
        ),
    decreases count,
{
    let shorter = (count - 1) as nat;
    lemma_pow2_step(0);
    assert(factors_with(f, count, at).drop_last() =~= factors_with(f, shorter, at));
    if at == shorter {
        lemma_tensor_product_identity(f, shorter, at);
        lemma_kron_place(f, pow2(at));
        assert(joint_dim(at, f.len(), 0) == pow2(at) * f.len()) by (nonlinear_arith)
            requires
                joint_dim(at, f.len(), 0) == pow2(at) * f.len() * pow2(0),
                pow2(0) == 1,
        ;
    } else {
        let trail = (shorter - 1 - at) as nat;
        lemma_tensor_product_embedded(f, shorter, at);
        lemma_pow2_step(trail);
        lemma_kron_extend(f, joint_dim(at, f.len(), trail), pow2(trail));
        assert(2 * joint_dim(at, f.len(), trail) == joint_dim(at, f.len(), trail + 1))
            by (nonlinear_arith)
            requires
                joint_dim(at, f.len(), trail) == pow2(at) * f.len() * pow2(trail),
                joint_dim(at, f.len(), trail + 1) == pow2(at) * f.len() * pow2(trail + 1),
                pow2(trail + 1) == 2 * pow2(trail),
        ;
    }
}

/// Embeds `f` below `lead` qubits and above `trail` qubits: the tensor
/// product of `lead` identities, `f`, and `trail` identities, accumulated
/// from qubit 0 on.
pub(crate) fn embed(f: &Vec<Vec<i64>>, lead: usize, trail: usize) -> (rows: Vec<Vec<i64>>)
    requires
        f.len() > 0,
        is_square(grid(f@), f.len() as nat),
        entries_within(grid(f@), 0x1_0000_0000),
        joint_dim(lead as nat, f.len() as nat, trail as nat) <= usize::MAX,
    ensures
        rows.len() == joint_dim(lead as nat, f.len() as nat, trail as nat),
        grid(rows@) == embedded(
            grid(f@),
            joint_dim(lead as nat, f.len() as nat, trail as nat),
            pow2(trail as nat),
        ),
{
    let ghost d = f.len() as nat;
    let ghost total = pow2(lead as nat) * d * pow2(trail as nat);
    let two = identity_grid(2);
    let mut acc = identity_grid(1);
    let mut i: usize = 0;
    proof {
        lemma_pow2_step(0);
        lemma_pow2_step(lead as nat);
        lemma_pow2_step(trail as nat);
        lemma_identity_within(2);
        assert(pow2(lead as nat) <= total) by (nonlinear_arith)
            requires
                total == pow2(lead as nat) * d * pow2(trail as nat),
                d > 0,
                pow2(trail as nat) > 0,
        ;
    }
    while i < lead
        invariant
            i <= lead,
            grid(two@) == identity(2),
            grid(acc@) == identity(pow2(i as nat)),
            pow2(lead as nat) <= usize::MAX,
        decreases lead - i,
    {
        proof {
            lemma_pow2_step(i as nat);
            lemma_pow2_monotonic((i + 1) as nat, lead as nat);
            lemma_identity_within(pow2(i as nat));
            lemma_identity_within(2);
            lemma_kron_identity(pow2(i as nat));
            assert(grid(acc@).len() == acc.len());
            assert(grid(two@).len() == two.len());
        }
        acc = kronecker(&acc, &two);
        i += 1;
    }
    proof {
        lemma_identity_within(pow2(lead as nat));
        lemma_kron_place(grid(f@), pow2(lead as nat));
        assert(grid(acc@).len() == acc.len());
        assert(grid(f@).len() == f.len());
        assert(pow2(lead as nat) * d <= total) by (nonlinear_arith)
            requires
                total == pow2(lead as nat) * d * pow2(trail as nat),
                pow2(lead as nat) * d >= 0,
                pow2(trail as nat) > 0,
        ;
    }
    acc = kronecker(&acc, f);
    let mut j: usize = 0;
    let ghost span = pow2(lead as nat) * d;
    while j < trail
        invariant
            j <= trail,
            d == f.len(),
            d > 0,
            span == pow2(lead as nat) * d,
            total == span * pow2(trail as nat),
            total <= usize::MAX,
            entries_within(grid(f@), 0x1_0000_0000),
            grid(two@) == identity(2),
            grid(acc@) == embedded(grid(f@), span * pow2(j as nat), pow2(j as nat)),
        decreases trail - j,
    {
        proof {
            let low = pow2(j as nat);
            lemma_pow2_step(j as nat);
            lemma_pow2_monotonic((j + 1) as nat, trail as nat);
            lemma_identity_within(2);
            lemma_embedded_within(grid(f@), span * low, low, 0x1_0000_0000);
            lemma_kron_extend(grid(f@), span * low, low);
            assert(grid(acc@).len() == acc.len());
            assert(grid(two@).len() == two.len());
            assert(2 * (span * low) == span * pow2((j + 1) as nat)) by (nonlinear_arith)
                requires
                    pow2((j + 1) as nat) == 2 * low,
            ;
            assert(span * pow2((j + 1) as nat) <= total) by (nonlinear_arith)
                requires
                    total == span * pow2(trail as nat),
                    pow2((j + 1) as nat) <= pow2(trail as nat),
                    span >= 0,
            ;
        }
        acc = kronecker(&acc, &two);
        j += 1;
    }
    acc
}

/// A row of the embedding of a two by two matrix meets a vector in the two
/// components whose indices agree with the row's outside the block.
pub proof fn lemma_embedded_row(f: Seq<Seq<int>>, blocks: nat, low: nat, v: Seq<int>, r: int)
    requires
        is_square(f, 2),
        low > 0,
        v.len() == blocks * (2 * low),
        0 <= r < v.len(),
    ensures
        ({
            let b = block_index(r, 2, low as int);
            let p = with_block(r, 0, 2, low as int);
            let q = with_block(r, 1, 2, low as int);
            &&& 0 <= p < q < v.len()
            &&& (b == 0 || b == 1)
            &&& r == (if b == 0 {
                p
            } else {
                q
            })
            &&& dot(embedded(f, v.len(), low)[r], v) == f[b][0] * v[p] + f[b][1] * v[q]
        }),
{
    let dim = v.len();
    let lw = low as int;
    let b = block_index(r, 2, lw);
    let p = with_block(r, 0, 2, lw);
    let q = with_block(r, 1, 2, lw);
    let row = embedded(f, dim, low)[r];
    lemma_index_decompose(r, 2, lw);
    lemma_with_block(r, 0, 2, lw);
    lemma_with_block(r, 1, 2, lw);
    lemma_with_block_bound(r, 0, 2, lw, blocks as int);
    lemma_with_block_bound(r, 1, 2, lw, blocks as int);
    assert(q == p + lw);
    assert forall|i: int| 0 <= i < row.len() && i != p && i != q implies #[trigger] row[i] == 0
        || v[i] == 0 by {
        if same_outside(r, i, 2, lw) {
            lemma_index_decompose(i, 2, lw);
            let bi = block_index(i, 2, lw);
            lemma_with_block(r, bi, 2, lw);
            lemma_index_unique(i, with_block(r, bi, 2, lw), 2, lw);
        }
    }
    lemma_dot_pair(row, v, p, q);
    assert(row[p] == f[b][0]);
    assert(row[q] == f[b][1]);
}

/// The dot product of two columns of the embedding of a two by two matrix
/// is that of the matching columns of the matrix, or zero where the columns
/// differ outside the block.
pub proof fn lemma_embedded_gram(f: Seq<Seq<int>>, blocks: nat, low: nat, i: int, j: int)
    requires
        is_square(f, 2),
        low > 0,
        0 <= i < blocks * (2 * low),
        0 <= j < blocks * (2 * low),
    ensures
        ({
            let bi = block_index(i, 2, low as int);
            let bj = block_index(j, 2, low as int);
            &&& 0 <= bi < 2
            &&& 0 <= bj < 2
            &&& gram(embedded(f, blocks * (2 * low), low), i, j) == (if same_outside(
                i,
                j,
                2,
                low as int,
            ) {
                f[0][bi] * f[0][bj] + f[1][bi] * f[1][bj]
            } else {
                0
            })
        }),
{
    let dim = blocks * (2 * low);
    let lw = low as int;
    let m = embedded(f, dim, low);
    let ci = column(m, i);
    let cj = column(m, j);
    let bi = block_index(i, 2, lw);
    let bj = block_index(j, 2, lw);
    let p = with_block(i, 0, 2, lw);
    let q = with_block(i, 1, 2, lw);
    lemma_index_decompose(i, 2, lw);
    lemma_index_decompose(j, 2, lw);
    lemma_with_block(i, 0, 2, lw);
    lemma_with_block(i, 1, 2, lw);
    lemma_with_block_bound(i, 0, 2, lw, blocks as int);
    lemma_with_block_bound(i, 1, 2, lw, blocks as int);
    assert(q == p + lw);
    assert(ci.len() == dim);
    assert forall|r: int| 0 <= r < ci.len() && r != p && r != q implies #[trigger] ci[r] == 0
        || cj[r] == 0 by {
        if same_outside(r, i, 2, lw) {
            lemma_index_decompose(r, 2, lw);
            let br = block_index(r, 2, lw);
            lemma_with_block(i, br, 2, lw);
            lemma_index_unique(r, with_block(i, br, 2, lw), 2, lw);
        }
    }
    lemma_dot_pair(ci, cj, p, q);
    assert(ci[p] == f[0][bi]);
    assert(ci[q] == f[1][bi]);
    if same_outside(i, j, 2, lw) {
        assert(cj[p] == f[0][bj]);
        assert(cj[q] == f[1][bj]);
    } else {
        assert(cj[p] == 0);
        assert(cj[q] == 0);
        assert(ci[p] * 0 == 0 && ci[q] * 0 == 0) by (nonlinear_arith);
    }
}

/// Whether `f` has, in each column `c`, a one in row `sigma(c)` and zeros
/// elsewhere, for a `sigma` that sends no two columns to one row.
pub open spec fn is_permutation_matrix(f: Seq<Seq<int>>, sigma: spec_fn(int) -> int) -> bool {
    &&& is_square(f, f.len())
    &&& forall|c: int| 0 <= c < f.len() ==> 0 <= #[trigger] sigma(c) < f.len()
    &&& forall|c1: int, c2: int|
        0 <= c1 < f.len() && 0 <= c2 < f.len() && #[trigger] sigma(c1) == #[trigger] sigma(c2)
            ==> c1 == c2
    &&& forall|a: int, c: int|
        0 <= a < f.len() && 0 <= c < f.len() ==> #[trigger] f[a][c] == (if a == sigma(c) {
            ONE as int
        } else {
            0
        })
}

/// The columns of the embedding of a permutation matrix are of length one
/// and at right angles to each other, exactly.
pub proof fn lemma_embedded_permutation_gram(
    f: Seq<Seq<int>>,
    sigma: spec_fn(int) -> int,
    blocks: nat,
    low: nat,
    i: int,
    j: int,
)
    requires
        f.len() > 0,
        is_permutation_matrix(f, sigma),
        low > 0,
        0 <= i < blocks * (f.len() * low),
        0 <= j < blocks * (f.len() * low),
    ensures
        gram(embedded(f, blocks * (f.len() * low), low), i, j) == (if i == j {
            ONE as int * ONE as int
        } else {
            0
        }),
{
    let d = f.len() as int;
    let dim = blocks * (f.len() * low);
    let lw = low as int;
    let m = embedded(f, dim, low);
    let ci = column(m, i);
    let cj = column(m, j);
    let bi = block_index(i, d, lw);
    let bj = block_index(j, d, lw);
    lemma_index_decompose(i, d, lw);
    lemma_index_decompose(j, d, lw);
    let p = with_block(i, sigma(bi), d, lw);
    lemma_with_block(i, sigma(bi), d, lw);
    lemma_with_block_bound(i, sigma(bi), d, lw, blocks as int);
    assert(ci.len() == dim);
    assert forall|r: int| 0 <= r < ci.len() && r != p implies #[trigger] ci[r] == 0 || cj[r]
        == 0 by {
        if same_outside(r, i, d, lw) {
            lemma_index_decompose(r, d, lw);
            let br = block_index(r, d, lw);
            if br == sigma(bi) {
                lemma_index_unique(r, p, d, lw);
            } else {
                assert(f[br][bi] == 0);
            }
        }
    }
    lemma_dot_single(ci, cj, p);
    assert(ci[p] == f[sigma(bi)][bi]);
    assert(ci[p] == ONE as int);
    if i == j {
        assert(cj[p] == ONE as int);
    } else {
        if same_outside(p, j, d, lw) {
            if sigma(bi) == sigma(bj) {
                lemma_index_unique(i, j, d, lw);
            }
            assert(cj[p] == f[sigma(bi)][bj]);
            assert(cj[p] == 0);
        }
        assert(cj[p] == 0);
        assert(ci[p] * 0 == 0) by (nonlinear_arith);
    }
}

/// A row of the identity meets a vector in one component.
pub proof fn lemma_identity_row(v: Seq<int>, r: int)
    requires
        0 <= r < v.len(),
    ensures
        dot(identity(v.len())[r], v) == ONE as int * v[r],
{
    let row = identity(v.len())[r];
    assert forall|i: int| 0 <= i < row.len() && i != r implies #[trigger] row[i] == 0 || v[i]
        == 0 by {}
    lemma_dot_single(row, v, r);
}

/// The columns of the identity are of length one and at right angles.
pub proof fn lemma_identity_gram(dim: nat, i: int, j: int)
    requires
        0 <= i < dim,
        0 <= j < dim,
    ensures
        gram(identity(dim), i, j) == (if i == j {
            ONE as int * ONE as int
        } else {
            0
        }),
{
    let ci = column(identity(dim), i);
    let cj = column(identity(dim), j);
    assert forall|r: int| 0 <= r < ci.len() && r != i implies #[trigger] ci[r] == 0 || cj[r]
        == 0 by {}
    lemma_dot_single(ci, cj, i);
    if i != j {
        assert(ci[i] * 0 == 0) by (nonlinear_arith);
    }
}

} // verus!
