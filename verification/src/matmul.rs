//! Batched matrix products.
use vstd::prelude::*;

use crate::dtype::Dtype;
use crate::elementwise::{lemma_joined, mixed_error, same_device_dtype, source_rank};
use crate::error::{Error, ErrorKind};
use crate::index::{
    fits, in_bounds, lemma_ravel, lemma_unravel, lemma_volume_concat, lemma_volume_zero, ravel,
    unravel, volume,
};
use crate::par::par_fill;
use crate::scalar::{
    every, folds, is_product, is_sum, is_zero, lemma_folds_start, lemma_folds_step, Arith, Scalars,
};
use crate::shape::{
    aligned, broadcast_error, broadcast_shapes, compatible, joined, joint_rank, numel,
};
use crate::storage::Data;
use crate::tensor::{copied, numel_error, Tensor, TensorModel, Model, Outcome, outcome};
use crate::text::{decimal, with_two_numbers};
use crate::views::narrowed;

verus! {

/// The left operand as a matrix: a vector becomes a row.
pub open spec fn left_matrix(shape: Seq<usize>) -> Seq<usize> {
    if shape.len() == 1 {
        seq![1, shape[0]]
    } else {
        shape
    }
}

/// The right operand as a matrix: a vector becomes a column.
pub open spec fn right_matrix(shape: Seq<usize>) -> Seq<usize> {
    if shape.len() == 1 {
        seq![shape[0], 1]
    } else {
        shape
    }
}

/// The leading axes of a stack of matrices.
pub open spec fn batch_axes(shape: Seq<usize>) -> Seq<usize> {
    shape.take(shape.len() - 2)
}

/// Rows of a stack of matrices.
pub open spec fn rows_of(shape: Seq<usize>) -> usize {
    shape[shape.len() - 2]
}

/// Columns of a stack of matrices.
pub open spec fn columns_of(shape: Seq<usize>) -> usize {
    shape[shape.len() - 1]
}

/// The shape of a product before promoted axes are taken out.
pub open spec fn product_shape(a: Seq<usize>, b: Seq<usize>) -> Seq<usize> {
    joined(batch_axes(left_matrix(a)), batch_axes(right_matrix(b))).push(
        rows_of(left_matrix(a)),
    ).push(columns_of(right_matrix(b)))
}

/// The shape of a product: an axis that promotion put in is taken out again, so a vector times a
/// matrix is a vector, and two vectors give a scalar.
pub open spec fn result_shape(a: Seq<usize>, b: Seq<usize>) -> Seq<usize> {
    let batch = joined(batch_axes(left_matrix(a)), batch_axes(right_matrix(b)));
    let rows = if a.len() == 1 {
        batch
    } else {
        batch.push(rows_of(left_matrix(a)))
    };
    if b.len() == 1 {
        rows
    } else {
        rows.push(columns_of(right_matrix(b)))
    }
}

/// `r` is `p + x * y`.
pub open spec fn multiply_add<T, A: Arith<T>>() -> spec_fn(T, (T, T), T) -> bool {
    |p: T, xy: (T, T), r: T|
        exists|t: T| #[trigger] is_product::<T, A>(xy.0, xy.1, t) && is_sum::<T, A>(p, t, r)
}

/// `r` is the sum of the products of the pairs, from the left and from a zero on.
pub open spec fn sums_products<T, A: Arith<T>>(pairs: Seq<(T, T)>, r: T) -> bool {
    exists|z: T| #[trigger]
        is_zero::<T, A>(z) && folds(
            multiply_add::<T, A>(),
            pairs,
            every(),
            pairs.len() as int,
            z,
            r,
        )
}

/// The dimensions of a stack of products.
pub ghost struct Stack {
    pub m: int,
    pub n: int,
    pub k: int,
    pub a_batch: Seq<usize>,
    pub b_batch: Seq<usize>,
}

impl Stack {
    /// The common batch shape.
    pub open spec fn batch(self) -> Seq<usize> {
        joined(self.a_batch, self.b_batch)
    }

    /// The pairs of elements whose products make up the output of rank `q`.
    pub open spec fn pairs<T>(self, a: Seq<T>, b: Seq<T>, q: int) -> Seq<(T, T)> {
        let at = q / (self.m * self.n);
        let i = (q % (self.m * self.n)) / self.n;
        let j = (q % (self.m * self.n)) % self.n;
        let x = source_rank(self.a_batch, self.batch(), at) * (self.m * self.k) + i * self.k;
        let y = source_rank(self.b_batch, self.batch(), at) * (self.k * self.n) + j;
        Seq::new(self.k as nat, |p: int| (a[x + p], b[y + p * self.n]))
    }
}

/// The dimensions of the product of two shapes.
pub open spec fn stack_of(a: Seq<usize>, b: Seq<usize>) -> Stack {
    Stack {
        m: rows_of(left_matrix(a)) as int,
        n: columns_of(right_matrix(b)) as int,
        k: columns_of(left_matrix(a)) as int,
        a_batch: batch_axes(left_matrix(a)),
        b_batch: batch_axes(right_matrix(b)),
    }
}

/// Every element of `c` is the inner product that its place asks for.
pub open spec fn multiplies<T, A: Arith<T>>(s: Stack, a: Seq<T>, b: Seq<T>, c: Seq<T>) -> bool {
    forall|q: int| 0 <= q < c.len() ==> sums_products::<T, A>(s.pairs(a, b, q), #[trigger] c[q])
}

/// Shapes that can be multiplied.
pub open spec fn matmul_ok(a: Seq<usize>, b: Seq<usize>) -> bool {
    &&& a.len() > 0 && b.len() > 0
    &&& columns_of(left_matrix(a)) == rows_of(right_matrix(b))
    &&& compatible(batch_axes(left_matrix(a)), batch_axes(right_matrix(b)))
    &&& fits(product_shape(a, b))
    &&& fits(left_matrix(a)) && fits(right_matrix(b))
}

/// The value of a product.
pub open spec fn matmul_value<S: Scalars>(
    a: TensorModel<S::F, S::D>,
    b: TensorModel<S::F, S::D>,
    r: TensorModel<S::F, S::D>,
) -> bool {
    let s = stack_of(a.shape, b.shape);
    &&& r.plain(result_shape(a.shape, b.shape)) && r.valid() && r.elems() == r.data
    &&& r.data.len() == volume(product_shape(a.shape, b.shape))
    &&& match (a.elems(), b.elems(), r.data) {
        (Data::F32(x), Data::F32(y), Data::F32(z)) => multiplies::<S::F, S>(s, x, y, z),
        (Data::F64(x), Data::F64(y), Data::F64(z)) => multiplies::<S::D, S>(s, x, y, z),
        _ => false,
    }
}

/// Why a product was refused.
pub open spec fn matmul_error<F, D>(
    e: Error,
    a: TensorModel<F, D>,
    b: TensorModel<F, D>,
) -> bool {
    let l = left_matrix(a.shape);
    let r = right_matrix(b.shape);
    if a.dtype() != b.dtype() || a.device != b.device {
        mixed_error(e, "matmul"@, a, b)
    } else if !a.dtype().floating() {
        e.says(ErrorKind::Dtype, "matmul"@, "float only"@)
    } else if a.shape.len() == 0 || b.shape.len() == 0 {
        e.says(ErrorKind::Shape, "matmul"@, "rank-0 is not allowed"@)
    } else if columns_of(l) != rows_of(r) {
        e.says(
            ErrorKind::BackendPrecheck,
            "matmul"@,
            "contracting dims differ "@ + decimal(columns_of(l) as nat) + " & "@ + decimal(
                rows_of(r) as nat,
            ),
        )
    } else if !compatible(batch_axes(l), batch_axes(r)) {
        broadcast_error(e, batch_axes(l), batch_axes(r))
    } else {
        numel_error(e)
    }
}

/// Rank of the source matrix that a broadcast batch shows at rank `flat`.
pub fn batch_index_to_src(flat: usize, out_batch: &[usize], src_batch: &[usize]) -> (r: usize)
    requires
        src_batch@.len() <= out_batch@.len(),
        compatible(src_batch@, out_batch@),
        volume(src_batch@) == 0 ==> volume(out_batch@) == 0,
        volume(src_batch@) <= usize::MAX,
        flat < volume(out_batch@),
    ensures
        r == source_rank(src_batch@, out_batch@, flat as int),
        r < volume(src_batch@),
{
    let rank: usize = out_batch.len();
    let pad: usize = rank - src_batch.len();
    let ghost idx = unravel(out_batch@, flat as int);
    let ghost total = source_rank(src_batch@, out_batch@, flat as int);
    let ghost small = narrowed(src_batch@, idx);
    proof {
        lemma_unravel(out_batch@, flat as int);
        lemma_narrowed_bounds(src_batch@, out_batch@, idx);
        lemma_ravel(src_batch@, small);
        assert(out_batch@.take(out_batch@.len() as int) =~= out_batch@);
        assert(src_batch@.take(src_batch@.len() as int) =~= src_batch@);
        assert(src_batch@.skip(src_batch@.len() as int) =~= Seq::<usize>::empty());
        assert(1 * total == total) by (nonlinear_arith);
        assert(small.take(small.len() as int) =~= small);
    }
    let mut off: usize = 0;
    let mut st: usize = 1;
    let mut rem: usize = flat;
    let mut i: usize = src_batch.len();
    while i > 0
        invariant
            i <= src_batch@.len(),
            rank == out_batch@.len(),
            pad == out_batch@.len() - src_batch@.len(),
            src_batch@.len() <= out_batch@.len(),
            0 <= total < volume(src_batch@) <= usize::MAX,
            in_bounds(out_batch@, idx),
            in_bounds(src_batch@, small),
            idx == unravel(out_batch@, flat as int),
            small == narrowed(src_batch@, idx),
            rem < volume(out_batch@.take(i + pad)),
            idx.take(i + pad) == unravel(out_batch@.take(i + pad), rem as int),
            st == volume(src_batch@.skip(i as int)),
            off + st * ravel(src_batch@.take(i as int), small.take(i as int)) == total,
        decreases i,
    {
        i = i - 1;
        let ghost lead = out_batch@.take(i + 1 + pad);
        let d: usize = out_batch[i + pad];
        proof {
            assert(lead.drop_last() =~= out_batch@.take(i + pad));
            assert(lead.last() == d);
            let v = volume(out_batch@.take(i + pad)) as int;
            assert(d > 0 && rem / d < v) by (nonlinear_arith)
                requires
                    0 <= rem < v * d,
                    d >= 0,
                    v >= 0,
            ;
        }
        let c: usize = rem % d;
        let sd: usize = src_batch[i];
        let x: usize = if sd == 1 {
            0
        } else {
            c
        };
        proof {
            let here = unravel(lead, rem as int);
            assert(idx.take(i + 1 + pad) == here);
            assert(here.last() == c);
            assert(here.drop_last() =~= unravel(out_batch@.take(i + pad), (rem / d) as int));
            assert(idx[i + pad] == here[i + pad]);
            assert(idx.take(i + pad) =~= idx.take(i + 1 + pad).drop_last());
            assert(small[i as int] == x);
            let ss = src_batch@.take(i + 1);
            assert(ss.drop_last() =~= src_batch@.take(i as int));
            assert(small.take(i + 1).drop_last() =~= small.take(i as int));
            let inner = ravel(src_batch@.take(i as int), small.take(i as int));
            assert forall|j: int| 0 <= j < i implies 0 <= #[trigger] small.take(i as int)[j]
                < src_batch@.take(i as int)[j] by {
                assert(0 <= small[j] < src_batch@[j]);
            }
            lemma_ravel(src_batch@.take(i as int), small.take(i as int));
            assert(0 <= small[i as int] < src_batch@[i as int]);
            let m = st as int;
            assert(m * (inner * sd + x) == (m * sd) * inner + m * x && 0 <= (m * sd) * inner && 0
                <= m * x) by (nonlinear_arith)
                requires
                    m >= 0,
                    inner >= 0,
                    sd >= 0,
                    x >= 0,
            ;
            assert(src_batch@.skip(i as int).skip(1) =~= src_batch@.skip(i + 1));
            crate::index::lemma_volume_first(src_batch@.skip(i as int));
            assert(src_batch@.take(i as int) + src_batch@.skip(i as int) =~= src_batch@);
            lemma_volume_concat(src_batch@.take(i as int), src_batch@.skip(i as int));
            let p = volume(src_batch@.take(i as int)) as int;
            let q = volume(src_batch@.skip(i as int)) as int;
            assert(q <= p * q && q > 0) by (nonlinear_arith)
                requires
                    p * q > 0,
                    p >= 0,
                    q >= 0,
            ;
            assert(sd * m == m * sd) by (nonlinear_arith);
        }
        off = off + st * x;
        st = st * sd;
        rem = rem / d;
    }
    proof {
        assert(src_batch@.take(0).len() == 0);
        let m = st as int;
        assert(m * 0 == 0) by (nonlinear_arith);
    }
    off
}

/// What a broadcast shows lies in the source.
pub proof fn lemma_narrowed_bounds(src: Seq<usize>, shape: Seq<usize>, idx: Seq<int>)
    requires
        src.len() <= shape.len(),
        compatible(src, shape),
        volume(src) == 0 ==> volume(shape) == 0,
        in_bounds(shape, idx),
    ensures
        in_bounds(src, narrowed(src, idx)),
{
    let small = narrowed(src, idx);
    let pad = shape.len() - src.len();
    lemma_ravel(shape, idx);
    lemma_volume_zero(src);
    assert(joint_rank(src, shape) == shape.len());
    assert forall|k: int| 0 <= k < src.len() implies 0 <= #[trigger] small[k] < src[k] by {
        assert(aligned(src, shape.len() as int, k + pad) == src[k]);
        assert(aligned(shape, shape.len() as int, k + pad) == shape[k + pad]);
        assert(0 <= idx[k + pad] < shape[k + pad]);
        assert(src[k] != 0);
    }
}

/// One inner product: `k` steps along `a` by one and along `b` by `n`.
fn inner_product<T: Copy, A: Arith<T>>(
    a: &[T],
    b: &[T],
    x: usize,
    y: usize,
    k: usize,
    n: usize,
) -> (r: T)
    requires
        x + k <= a@.len(),
        k > 0 ==> y + (k - 1) * n < b@.len(),
    ensures
        sums_products::<T, A>(Seq::new(k as nat, |p: int| (a@[x + p], b@[y + p * n])), r),
{
    let ghost pairs = Seq::new(k as nat, |p: int| (a@[x + p], b@[y + p * n]));
    let z: T = A::zero();
    let mut acc: T = z;
    let mut p: usize = 0;
    let blen: usize = b.len();
    let alen: usize = a.len();
    proof {
        assert(is_zero::<T, A>(z));
        lemma_folds_start(multiply_add::<T, A>(), pairs, every(), z);
    }
    while p < k
        invariant
            p <= k,
            blen == b@.len(),
            alen == a@.len(),
            x + k <= a@.len(),
            k > 0 ==> y + (k - 1) * n < b@.len(),
            pairs == Seq::new(k as nat, |p: int| (a@[x + p], b@[y + p * n])),
            folds(multiply_add::<T, A>(), pairs, every(), p as int, z, acc),
        decreases k - p,
    {
        proof {
            assert(0 <= p * n <= (k - 1) * n) by (nonlinear_arith)
                requires
                    0 <= p <= k - 1,
                    n >= 0,
            ;
        }
        let av: T = a[x + p];
        let bv: T = b[y + p * n];
        let t: T = A::times(av, bv);
        let next: T = A::plus(acc, t);
        proof {
            assert(pairs[p as int] == (av, bv));
            assert(is_product::<T, A>(pairs[p as int].0, pairs[p as int].1, t));
            assert(is_sum::<T, A>(acc, t, next));
            assert(multiply_add::<T, A>()(acc, pairs[p as int], next));
            lemma_folds_step(multiply_add::<T, A>(), pairs, every(), p as int, z, acc, next);
        }
        acc = next;
        p = p + 1;
    }
    acc
}

/// Every inner product of a stack of matrices, in row-major order.
fn multiply_stack<T: Copy + Send + Sync, A: Arith<T>>(
    a: &[T],
    b: &[T],
    a_batch: &[usize],
    b_batch: &[usize],
    batch: &[usize],
    m: usize,
    n: usize,
    k: usize,
    total: usize,
) -> (c: Vec<T>)
    requires
        compatible(a_batch@, b_batch@),
        batch@ == joined(a_batch@, b_batch@),
        total == volume(batch@) * (m * n),
        a@.len() == volume(a_batch@) * (m * k),
        b@.len() == volume(b_batch@) * (k * n),
    ensures
        c@.len() == total,
        multiplies::<T, A>(
            Stack {
                m: m as int,
                n: n as int,
                k: k as int,
                a_batch: a_batch@,
                b_batch: b_batch@,
            },
            a@,
            b@,
            c@,
        ),
{
    let ghost s = Stack {
        m: m as int,
        n: n as int,
        k: k as int,
        a_batch: a_batch@,
        b_batch: b_batch@,
    };
    let alen: usize = a.len();
    let blen: usize = b.len();
    let cell = |q: usize| -> (r: T)
        requires
            q < total,
            compatible(a_batch@, b_batch@),
            batch@ == joined(a_batch@, b_batch@),
            total == volume(batch@) * (m * n),
            a@.len() == volume(a_batch@) * (m * k),
            b@.len() == volume(b_batch@) * (k * n),
            alen == a@.len(),
            blen == b@.len()
        ensures
            sums_products::<T, A>(
                (Stack {
                    m: m as int,
                    n: n as int,
                    k: k as int,
                    a_batch: a_batch@,
                    b_batch: b_batch@,
                }).pairs(a@, b@, q as int),
                r,
            )
    {
        product_cell::<T, A>(a, b, a_batch, b_batch, batch, m, n, k, q)
    };
    let c: Vec<T> = par_fill(total, cell);
    proof {
        assert forall|q: int| 0 <= q < c@.len() implies sums_products::<T, A>(
            s.pairs(a@, b@, q),
            #[trigger] c@[q],
        ) by {
            assert(call_ensures(cell, (q as usize,), c@[q]));
        }
    }
    c
}

/// The inner product of output rank `q`.
fn product_cell<T: Copy, A: Arith<T>>(
    a: &[T],
    b: &[T],
    a_batch: &[usize],
    b_batch: &[usize],
    batch: &[usize],
    m: usize,
    n: usize,
    k: usize,
    q: usize,
) -> (r: T)
    requires
        compatible(a_batch@, b_batch@),
        batch@ == joined(a_batch@, b_batch@),
        q < volume(batch@) * (m * n),
        volume(batch@) * (m * n) <= usize::MAX,
        a@.len() == volume(a_batch@) * (m * k),
        b@.len() == volume(b_batch@) * (k * n),
    ensures
        sums_products::<T, A>(
            (Stack {
                m: m as int,
                n: n as int,
                k: k as int,
                a_batch: a_batch@,
                b_batch: b_batch@,
            }).pairs(a@, b@, q as int),
            r,
        ),
{
    let ghost s = Stack {
        m: m as int,
        n: n as int,
        k: k as int,
        a_batch: a_batch@,
        b_batch: b_batch@,
    };
    let alen: usize = a.len();
    let blen: usize = b.len();
    let ghost v = volume(batch@) as int;
    proof {
        lemma_joined(a_batch@, b_batch@);
        assert(m * n > 0 && m > 0 && n > 0 && v > 0) by (nonlinear_arith)
            requires
                0 <= q < v * (m * n),
                v >= 0,
                m >= 0,
                n >= 0,
        ;
        assert(m * n <= v * (m * n)) by (nonlinear_arith)
            requires
                v > 0,
                m * n > 0,
        ;
    }
    let cell: usize = m * n;
    let at: usize = q / cell;
    let rest: usize = q % cell;
    let i: usize = rest / n;
    let j: usize = rest % n;
    proof {
        assert(at < v) by (nonlinear_arith)
            requires
                0 <= q < v * cell,
                cell > 0,
                at == q / cell,
        ;
        assert(0 <= i < m && 0 <= j < n) by (nonlinear_arith)
            requires
                0 <= rest < m * n,
                n > 0,
                i == rest / n,
                j == rest % n,
        ;
        lemma_volume_zero(a_batch@);
        lemma_volume_zero(b_batch@);
    }
    if k == 0 {
        let r: T = inner_product::<T, A>(a, b, 0, 0, 0, n);
        proof {
            assert(s.pairs(a@, b@, q as int) =~= Seq::<(T, T)>::empty());
            assert(Seq::new(0, |p: int| (a@[0 + p], b@[0 + p * n])) =~= Seq::<(T, T)>::empty());
        }
        return r;
    }
    proof {
        let va = volume(a_batch@) as int;
        let vb = volume(b_batch@) as int;
        let mk = m * k;
        let kn = k * n;
        assert(mk >= 1 && kn >= 1) by (nonlinear_arith)
            requires
                m > 0,
                k > 0,
                n > 0,
                mk == m * k,
                kn == k * n,
        ;
        assert(va <= va * mk && vb <= vb * kn) by (nonlinear_arith)
            requires
                va >= 0,
                vb >= 0,
                mk >= 1,
                kn >= 1,
        ;
    }
    let ai: usize = batch_index_to_src(at, batch, a_batch);
    let bi: usize = batch_index_to_src(at, batch, b_batch);
    proof {
        let va = volume(a_batch@) as int;
        let vb = volume(b_batch@) as int;
        let mk = m * k;
        let kn = k * n;
        assert(ai * mk + mk <= va * mk && mk <= va * mk && 0 <= ai * mk) by (nonlinear_arith)
            requires
                0 <= ai < va,
                mk >= 1,
        ;
        assert(bi * kn + kn <= vb * kn && kn <= vb * kn && 0 <= bi * kn) by (nonlinear_arith)
            requires
                0 <= bi < vb,
                kn >= 1,
        ;
        assert(i * k + k <= mk && 0 <= i * k) by (nonlinear_arith)
            requires
                0 <= i < m,
                k > 0,
                mk == m * k,
        ;
        assert(j + (k - 1) * n < kn) by (nonlinear_arith)
            requires
                0 <= j < n,
                k > 0,
                kn == k * n,
        ;
    }
    let x: usize = ai * (m * k) + i * k;
    let y: usize = bi * (k * n) + j;
    let r: T = inner_product::<T, A>(a, b, x, y, k, n);
    proof {
        assert(s.pairs(a@, b@, q as int) =~= Seq::new(
            k as nat,
            |p: int| (a@[x + p], b@[y + p * n]),
        ));
    }
    r
}

/// The volume of a stack of matrices.
proof fn lemma_stack_volume(batch: Seq<usize>, m: usize, n: usize)
    ensures
        volume(batch.push(m).push(n)) == volume(batch) * (m * n),
{
    let s = batch.push(m);
    assert(s.push(n).drop_last() =~= s);
    assert(s.drop_last() =~= batch);
    assert(volume(s) == volume(batch) * (m as nat));
    assert(volume(s.push(n)) == volume(s) * (n as nat));
    let v = volume(batch) as int;
    assert((v * m) * n == v * (m * n)) by (nonlinear_arith);
}

/// A shape of rank two or more is its batch axes, its rows and its columns.
proof fn lemma_split_matrix(shape: Seq<usize>)
    requires
        shape.len() >= 2,
    ensures
        shape == batch_axes(shape).push(rows_of(shape)).push(columns_of(shape)),
        volume(shape) == volume(batch_axes(shape)) * (rows_of(shape) * columns_of(shape)),
{
    assert(shape =~= batch_axes(shape).push(rows_of(shape)).push(columns_of(shape)));
    lemma_stack_volume(batch_axes(shape), rows_of(shape), columns_of(shape));
}

/// Promoting a vector keeps its volume.
proof fn lemma_promoted(shape: Seq<usize>)
    requires
        shape.len() > 0,
    ensures
        left_matrix(shape).len() >= 2,
        right_matrix(shape).len() >= 2,
        volume(left_matrix(shape)) == volume(shape),
        volume(right_matrix(shape)) == volume(shape),
{
    if shape.len() == 1 {
        let d = shape[0];
        assert(shape =~= seq![d]);
        crate::construct::lemma_line(d);
        lemma_split_matrix(seq![1, d]);
        lemma_split_matrix(seq![d, 1]);
        assert(batch_axes(seq![1, d]) =~= Seq::<usize>::empty());
        assert(batch_axes(seq![d, 1]) =~= Seq::<usize>::empty());
        assert(volume(Seq::<usize>::empty()) == 1);
        assert(1 * (1 * (d as int)) == d && 1 * ((d as int) * 1) == d) by (nonlinear_arith);
    }
}

fn promote_left(shape: &[usize]) -> (r: Vec<usize>)
    ensures
        r@ == left_matrix(shape@),
{
    if shape.len() == 1 {
        let mut v: Vec<usize> = Vec::new();
        v.push(1);
        v.push(shape[0]);
        assert(v@ =~= left_matrix(shape@));
        v
    } else {
        copied(shape)
    }
}

fn promote_right(shape: &[usize]) -> (r: Vec<usize>)
    ensures
        r@ == right_matrix(shape@),
{
    if shape.len() == 1 {
        let mut v: Vec<usize> = Vec::new();
        v.push(shape[0]);
        v.push(1);
        assert(v@ =~= right_matrix(shape@));
        v
    } else {
        copied(shape)
    }
}

/// The shape of a product without the axes that promotion put in.
fn squeeze_matmul(batch: &[usize], m: usize, n: usize, left: bool, right: bool) -> (r: Vec<usize>)
    ensures
        r@ == ({
            let rows = if left {
                batch@
            } else {
                batch@.push(m)
            };
            if right {
                rows
            } else {
                rows.push(n)
            }
        }),
{
    let mut shape: Vec<usize> = copied(batch);
    if !left {
        shape.push(m);
    }
    if !right {
        shape.push(n);
    }
    shape
}

/// Taking out axes of size one keeps the elements countable and their number.
proof fn lemma_squeezed(batch: Seq<usize>, m: usize, n: usize, left: bool, right: bool)
    requires
        left ==> m == 1,
        right ==> n == 1,
        fits(batch.push(m).push(n)),
    ensures
        ({
            let rows = if left {
                batch
            } else {
                batch.push(m)
            };
            let shape = if right {
                rows
            } else {
                rows.push(n)
            };
            fits(shape) && volume(shape) == volume(batch.push(m).push(n))
        }),
{
    let full = batch.push(m).push(n);
    let rows = if left {
        batch
    } else {
        batch.push(m)
    };
    let shape = if right {
        rows
    } else {
        rows.push(n)
    };
    let v = volume(batch) as int;
    assert(full.drop_last() =~= batch.push(m));
    assert(batch.push(m).drop_last() =~= batch);
    assert(batch.push(n).drop_last() =~= batch);
    assert(volume(batch.push(m)) == volume(batch) * (m as nat));
    assert(volume(full) == volume(batch.push(m)) * (n as nat));
    assert(volume(batch.push(n)) == volume(batch) * (n as nat));
    assert(v * 1 == v) by (nonlinear_arith);
    let w = volume(batch.push(m)) as int;
    assert(w * 1 == w) by (nonlinear_arith);
    assert forall|k: int| 0 <= k <= shape.len() implies volume(#[trigger] shape.take(k))
        <= usize::MAX by {
        if k <= batch.len() {
            assert(shape.take(k) =~= full.take(k));
        } else if k == shape.len() {
            assert(shape.take(k) =~= shape);
            assert(full.take(full.len() as int) =~= full);
        } else {
            assert(shape.take(k) =~= full.take(k));
        }
    }
}

/// What `matmul` comes to.
pub open spec fn matmul_out<S: Scalars>(a: Model<S>, b: Model<S>, r: Outcome<S>) -> bool {
    match r {
        Ok(t) => {
            &&& a.dtype() == b.dtype() && a.device == b.device && a.dtype().floating()
            &&& matmul_ok(a.shape, b.shape) && matmul_value::<S>(a, b, t)
        },
        Err(e) => !(a.dtype() == b.dtype() && a.device == b.device
            && a.dtype().floating() && matmul_ok(a.shape, b.shape)) && matmul_error(e, a, b),
    }
}

/// Matrix product: rank-0 is rejected, vectors are promoted, batches broadcast.
pub fn matmul<S: Scalars>(a: &Tensor<S>, b: &Tensor<S>) -> (r: Result<Tensor<S>, Error>)
    ensures
        matmul_out::<S>(a@, b@, outcome(r)),
{
    let dtype: Dtype = match same_device_dtype("matmul", a, b) {
        Ok(d) => d,
        Err(e) => {
            return Err(e);
        },
    };
    if !dtype.is_float() {
        return Err(Error::dtype("matmul", "float only".to_owned()));
    }
    if a.rank() == 0 || b.rank() == 0 {
        return Err(Error::shape("matmul", "rank-0 is not allowed".to_owned()));
    }
    let la: Vec<usize> = promote_left(a.shape());
    let rb: Vec<usize> = promote_right(b.shape());
    proof {
        lemma_promoted(a@.shape);
        lemma_promoted(b@.shape);
        lemma_split_matrix(la@);
        lemma_split_matrix(rb@);
    }
    let ar: usize = la.len();
    let br: usize = rb.len();
    let k_a: usize = la[ar - 1];
    let k_b: usize = rb[br - 2];
    if k_a != k_b {
        return Err(
            Error::new(
                ErrorKind::BackendPrecheck,
                "matmul",
                with_two_numbers("contracting dims differ ", k_a, " & ", k_b),
            ),
        );
    }
    let m: usize = la[ar - 2];
    let n: usize = rb[br - 1];
    let a_batch: &[usize] = vstd::slice::slice_subrange(la.as_slice(), 0, ar - 2);
    let b_batch: &[usize] = vstd::slice::slice_subrange(rb.as_slice(), 0, br - 2);
    proof {
        assert(a_batch@ =~= batch_axes(la@));
        assert(b_batch@ =~= batch_axes(rb@));
    }
    let batch: Vec<usize> = match broadcast_shapes(a_batch, b_batch) {
        Ok(s) => s,
        Err(e) => {
            return Err(e);
        },
    };
    let mut full: Vec<usize> = copied(batch.as_slice());
    full.push(m);
    full.push(n);
    proof {
        assert(full@ =~= product_shape(a@.shape, b@.shape));
        lemma_stack_volume(batch@, m, n);
    }
    let total: usize = match numel(full.as_slice()) {
        Ok(t) => t,
        Err(e) => {
            return Err(e);
        },
    };
    match numel(la.as_slice()) {
        Ok(_) => {},
        Err(e) => {
            return Err(e);
        },
    }
    match numel(rb.as_slice()) {
        Ok(_) => {},
        Err(e) => {
            return Err(e);
        },
    }
    let left: bool = a.rank() == 1;
    let right: bool = b.rank() == 1;
    let shape: Vec<usize> = squeeze_matmul(batch.as_slice(), m, n, left, right);
    proof {
        lemma_squeezed(batch@, m, n, left, right);
    }
    match dtype {
        Dtype::F32 => {
            let av: Vec<S::F> = match a.to_vec_f32() {
                Ok(v) => v,
                Err(e) => {
                    return Err(e);
                },
            };
            let bv: Vec<S::F> = match b.to_vec_f32() {
                Ok(v) => v,
                Err(e) => {
                    return Err(e);
                },
            };
            let c: Vec<S::F> = multiply_stack::<S::F, S>(
                av.as_slice(),
                bv.as_slice(),
                a_batch,
                b_batch,
                batch.as_slice(),
                m,
                n,
                k_a,
                total,
            );
            Tensor::from_vec_f32(c, shape.as_slice())
        },
        _ => {
            let av: Vec<S::D> = match a.to_vec_f64() {
                Ok(v) => v,
                Err(e) => {
                    return Err(e);
                },
            };
            let bv: Vec<S::D> = match b.to_vec_f64() {
                Ok(v) => v,
                Err(e) => {
                    return Err(e);
                },
            };
            let c: Vec<S::D> = multiply_stack::<S::D, S>(
                av.as_slice(),
                bv.as_slice(),
                a_batch,
                b_batch,
                batch.as_slice(),
                m,
                n,
                k_a,
                total,
            );
            Tensor::from_vec_f64(c, shape.as_slice())
        },
    }
}

/// How a library for dense products may read a rank-2 view: whether it is transposed, and the
/// distance between its leading entries. `None` where it is neither row- nor column-major.
pub fn blas_layout(shape: &[usize], strides: &[isize]) -> (r: Option<(bool, usize)>)
    requires
        shape@.len() == 2,
        strides@.len() == 2,
    ensures
        r == (if strides@[1] == 1 && strides@[0] == shape@[1] as isize {
            Some((false, crate::matmul::at_least_one(shape@[1])))
        } else if strides@[0] == 1 && strides@[1] == shape@[0] as isize {
            Some((true, crate::matmul::at_least_one(shape@[0])))
        } else {
            None
        }),
{
    let (m, k): (usize, usize) = (shape[0], shape[1]);
    if strides[1] == 1 && strides[0] == k as isize {
        Some((
            false,
            if k == 0 {
                1
            } else {
                k
            },
        ))
    } else if strides[0] == 1 && strides[1] == m as isize {
        Some((
            true,
            if m == 0 {
                1
            } else {
                m
            },
        ))
    } else {
        None
    }
}

/// `d`, or one where it is zero.
pub open spec fn at_least_one(d: usize) -> usize {
    if d == 0 {
        1
    } else {
        d
    }
}

/// Reading a rank-2 view by its layout finds the view's own slots.
pub proof fn law_blas_layout<F, D>(
    m: TensorModel<F, D>,
    i: int,
    j: int,
    transposed: bool,
    lead: usize,
)
    requires
        m.valid(),
        m.shape.len() == 2,
        m.shape[0] <= isize::MAX,
        m.shape[1] <= isize::MAX,
        0 <= i < m.shape[0],
        0 <= j < m.shape[1],
        if transposed {
            m.strides[0] == 1 && m.strides[1] == m.shape[0] as isize && lead == m.shape[0]
        } else {
            m.strides[1] == 1 && m.strides[0] == m.shape[1] as isize && lead == m.shape[1]
        },
    ensures
        m.slot(seq![i, j]) == m.offset + if transposed {
            j * lead + i
        } else {
            i * lead + j
        },
{
    let idx = seq![i, j];
    let st = m.strides;
    assert(idx.drop_last() =~= seq![i]);
    assert(seq![i].drop_last() =~= Seq::<int>::empty());
    assert(crate::index::dot(Seq::<int>::empty(), st.drop_last().drop_last()) == 0);
    assert(crate::index::dot(seq![i], st.drop_last()) == i * st[0]);
    assert(crate::index::dot(idx, st) == i * st[0] + j * st[1]);
    assert(i * 1 == i && j * 1 == j) by (nonlinear_arith);
}

} // verus!
