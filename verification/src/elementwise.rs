//! Broadcasting elementwise kernels.
use vstd::prelude::*;

use crate::dtype::Dtype;
use crate::error::{Error, ErrorKind};
use crate::index::{
    dot, fits, in_bounds, lemma_dot_concat, lemma_origin_dot, lemma_ravel, lemma_unravel,
    lemma_volume_zero, origin, packed, ravel, unravel, volume,
};
use crate::par::par_fill;
use crate::scalar::Scalars;
use crate::shape::{
    aligned, broadcast_error, broadcast_shapes, broadcast_strides, compatible, joined, joint_rank,
    numel, stretched, walk_fits,
};
use crate::storage::Data;
use crate::tensor::{numel_error, Tensor, TensorModel};
use crate::views::{broadcasted, law_broadcast_reads, narrowed};

verus! {

/// Rank, in a box of `src` dimensions, of the element that a broadcast to `shape` shows at rank
/// `i`.
pub open spec fn source_rank(src: Seq<usize>, shape: Seq<usize>, i: int) -> int {
    ravel(src, narrowed(src, unravel(shape, i)))
}

/// Every item of `out` stands in the relation `rel` to the items that broadcasting pairs up.
pub open spec fn zips<T>(
    rel: spec_fn(T, T, T) -> bool,
    a_shape: Seq<usize>,
    a: Seq<T>,
    b_shape: Seq<usize>,
    b: Seq<T>,
    out: Seq<T>,
) -> bool {
    let shape = joined(a_shape, b_shape);
    &&& out.len() == volume(shape)
    &&& forall|i: int|
        0 <= i < out.len() ==> rel(
            a[source_rank(a_shape, shape, i)],
            b[source_rank(b_shape, shape, i)],
            #[trigger] out[i],
        )
}

/// A relation that implies another.
pub proof fn lemma_zips_weaken<T>(
    rel: spec_fn(T, T, T) -> bool,
    rel2: spec_fn(T, T, T) -> bool,
    a_shape: Seq<usize>,
    a: Seq<T>,
    b_shape: Seq<usize>,
    b: Seq<T>,
    out: Seq<T>,
)
    requires
        zips(rel, a_shape, a, b_shape, b, out),
        forall|x: T, y: T, z: T| #[trigger] rel(x, y, z) ==> rel2(x, y, z),
    ensures
        zips(rel2, a_shape, a, b_shape, b, out),
{
    let shape = joined(a_shape, b_shape);
    assert forall|i: int| 0 <= i < out.len() implies rel2(
        a[source_rank(a_shape, shape, i)],
        b[source_rank(b_shape, shape, i)],
        #[trigger] out[i],
    ) by {
        assert(rel(
            a[source_rank(a_shape, shape, i)],
            b[source_rank(b_shape, shape, i)],
            out[i],
        ));
    }
}

/// Every item of `out` stands in the relation `rel` to the item of `a` in its place.
pub open spec fn maps<T, U>(rel: spec_fn(T, U) -> bool, a: Seq<T>, out: Seq<U>) -> bool {
    &&& out.len() == a.len()
    &&& forall|i: int| 0 <= i < out.len() ==> rel(a[i], #[trigger] out[i])
}

/// Each of two compatible shapes broadcasts to their common shape.
pub proof fn lemma_joined(a: Seq<usize>, b: Seq<usize>)
    requires
        compatible(a, b),
    ensures
        compatible(a, joined(a, b)),
        compatible(b, joined(a, b)),
        a.len() <= joined(a, b).len(),
        b.len() <= joined(a, b).len(),
        volume(a) == 0 ==> volume(joined(a, b)) == 0,
        volume(b) == 0 ==> volume(joined(a, b)) == 0,
{
    let j = joined(a, b);
    let n = j.len() as int;
    assert(joint_rank(a, j) == n && joint_rank(b, j) == n);
    assert forall|i: int| 0 <= i < n implies ({
        let da = #[trigger] aligned(a, n, i);
        let dj = aligned(j, n, i);
        da == dj || da == 1 || dj == 1
    }) by {
        assert(aligned(a, joint_rank(a, b) as int, i) == aligned(a, n, i));
    }
    assert forall|i: int| 0 <= i < n implies ({
        let db = #[trigger] aligned(b, n, i);
        let dj = aligned(j, n, i);
        db == dj || db == 1 || dj == 1
    }) by {
        assert(aligned(a, joint_rank(a, b) as int, i) == aligned(a, n, i));
    }
    lemma_volume_zero(a);
    lemma_volume_zero(b);
    lemma_volume_zero(j);
    if volume(a) == 0 {
        let k = choose|k: int| 0 <= k < a.len() && #[trigger] a[k] == 0;
        let i = k + n - a.len();
        assert(aligned(a, n, i) == 0);
        assert(j[i] == 0);
    }
    if volume(b) == 0 {
        let k = choose|k: int| 0 <= k < b.len() && #[trigger] b[k] == 0;
        let i = k + n - b.len();
        assert(aligned(b, n, i) == 0);
        assert(aligned(a, joint_rank(a, b) as int, i) == aligned(a, n, i));
        assert(j[i] == 0);
    }
}

/// Storage slot of the position of rank `r`, found by taking `r` apart from the last axis on.
pub fn slot_of_rank(base: usize, shape: &[usize], strides: &[isize], r: usize) -> (o: i128)
    requires
        walk_fits(base as int, shape@, strides@),
        r < volume(shape@),
    ensures
        o == base + dot(unravel(shape@, r as int), strides@),
{
    let mut o: i128 = base as i128;
    let mut rem: usize = r;
    let mut k: usize = shape.len();
    let ghost idx = unravel(shape@, r as int);
    let ghost mut tail: Seq<int> = Seq::empty();
    proof {
        lemma_unravel(shape@, r as int);
        assert(shape@.take(k as int) =~= shape@);
        assert(idx =~= idx + tail);
    }
    while k > 0
        invariant
            k <= shape@.len(),
            strides@.len() == shape@.len(),
            walk_fits(base as int, shape@, strides@),
            in_bounds(shape@, idx),
            rem < volume(shape@.take(k as int)),
            idx == unravel(shape@.take(k as int), rem as int) + tail,
            tail.len() == shape@.len() - k,
            o == base + dot(tail, strides@.skip(k as int)),
        decreases k,
    {
        k = k - 1;
        let ghost lead = shape@.take(k + 1);
        let d: usize = shape[k];
        let s: isize = strides[k];
        proof {
            assert(lead.drop_last() =~= shape@.take(k as int));
            assert(lead.last() == d);
            let v = volume(shape@.take(k as int)) as int;
            assert(d > 0 && rem / d < v) by (nonlinear_arith)
                requires
                    0 <= rem < v * d,
                    d >= 0,
                    v >= 0,
            ;
        }
        let i: usize = rem % d;
        let ghost before = tail;
        proof {
            tail = seq![i as int] + tail;
            assert(idx =~= unravel(shape@.take(k as int), (rem / d) as int) + tail);
            assert(strides@.skip(k as int) =~= seq![s] + strides@.skip(k + 1));
            lemma_dot_concat(seq![i as int], seq![s], before, strides@.skip(k + 1));
            assert(seq![i as int].drop_last() =~= Seq::<int>::empty());
            assert(dot(Seq::<int>::empty(), seq![s].drop_last()) == 0);
            assert(dot(seq![i as int], seq![s]) == i * s);
            let front = origin(k as nat);
            let padded = front + tail;
            assert forall|j: int| 0 <= j < shape@.len() implies 0 <= #[trigger] padded[j]
                < shape@[j] by {
                assert(0 <= idx[j] < shape@[j]);
                if j >= k {
                    assert(padded[j] == tail[j - k]);
                    assert(idx[j] == tail[j - k]);
                }
            }
            assert(in_bounds(shape@, padded));
            lemma_dot_concat(front, strides@.take(k as int), tail, strides@.skip(k as int));
            lemma_origin_dot(strides@.take(k as int));
            assert(strides@.take(k as int) + strides@.skip(k as int) =~= strides@);
            crate::shape::lemma_step_product(i, s);
        }
        rem = rem / d;
        o = o + (i as i128) * (s as i128);
    }
    proof {
        assert(shape@.take(0).len() == 0);
        assert(idx =~= tail);
        assert(strides@.skip(0) =~= strides@);
    }
    o
}

/// Rows laid end to end.
pub fn concat_rows<T: Copy>(rows: &Vec<Vec<T>>, inner: usize) -> (r: Vec<T>)
    requires
        forall|k: int| 0 <= k < rows@.len() ==> (#[trigger] rows@[k])@.len() == inner,
    ensures
        r@.len() == rows@.len() * inner,
        forall|k: int, j: int|
            0 <= k < rows@.len() && 0 <= j < inner ==> #[trigger] r@[k * inner + j] == rows@[k]@[j],
{
    let mut out: Vec<T> = Vec::new();
    let mut k: usize = 0;
    proof {
        assert(0 * inner == 0) by (nonlinear_arith);
    }
    while k < rows.len()
        invariant
            k <= rows@.len(),
            out@.len() == k * inner,
            forall|k: int| 0 <= k < rows@.len() ==> (#[trigger] rows@[k])@.len() == inner,
            forall|p: int, j: int|
                0 <= p < k && 0 <= j < inner ==> #[trigger] out@[p * inner + j] == rows@[p]@[j],
        decreases rows@.len() - k,
    {
        let row: &Vec<T> = &rows[k];
        let ghost before = out@;
        let mut j: usize = 0;
        while j < row.len()
            invariant
                j <= row@.len(),
                row@.len() == inner,
                before.len() == k * inner,
                out@ == before + row@.take(j as int),
            decreases row@.len() - j,
        {
            out.push(row[j]);
            j = j + 1;
            proof {
                assert(out@ =~= before + row@.take(j as int));
            }
        }
        proof {
            let a = k as int;
            let b = inner as int;
            assert((a + 1) * b == a * b + b) by (nonlinear_arith);
            assert forall|p: int, q: int| 0 <= p < k + 1 && 0 <= q < inner implies #[trigger] out@[p
                * inner + q] == rows@[p]@[q] by {
                if p < k {
                    assert(p * inner + q < k * inner && p * inner + q >= 0) by (nonlinear_arith)
                        requires
                            0 <= p < k,
                            0 <= q < inner,
                    ;
                    assert(before[p * inner + q] == rows@[p]@[q]);
                }
            }
        }
        k = k + 1;
    }
    out
}

/// One operand of a broadcasting kernel: a buffer, the slot of the origin, and strides over the
/// output's axes.
pub struct Operand<'a, T> {
    pub data: &'a [T],
    pub offset: usize,
    pub strides: Vec<isize>,
}

impl<'a, T> Operand<'a, T> {
    /// Every position of the output lies in the buffer.
    pub open spec fn covers(&self, shape: Seq<usize>) -> bool {
        &&& self.strides@.len() == shape.len()
        &&& self.data@.len() <= usize::MAX
        &&& forall|idx: Seq<int>| #[trigger]
            in_bounds(shape, idx) ==> 0 <= self.offset + dot(idx, self.strides@) < self.data@.len()
    }

    /// The element at rank `i` of the output.
    pub open spec fn at(&self, shape: Seq<usize>, i: int) -> T {
        self.data@[self.offset + dot(unravel(shape, i), self.strides@)]
    }
}

/// Slots of two operands along one row.
proof fn lemma_row_slot(
    base: int,
    len: int,
    shape: Seq<usize>,
    strides: Seq<isize>,
    r: int,
    j: int,
)
    requires
        shape.len() > 0,
        strides.len() == shape.len(),
        0 <= len <= usize::MAX,
        forall|idx: Seq<int>| #[trigger]
            in_bounds(shape, idx) ==> 0 <= base + dot(idx, strides) < len,
        0 <= r < volume(shape.drop_last()),
        0 <= j < shape.last(),
    ensures
        ({
            let start = base + dot(unravel(shape.drop_last(), r), strides.drop_last());
            let i = r * shape.last() + j;
            &&& 0 <= i < volume(shape)
            &&& unravel(shape, i) == unravel(shape.drop_last(), r).push(j)
            &&& 0 <= start < len
            &&& start + j * strides.last() == base + dot(unravel(shape, i), strides)
            &&& 0 <= start + j * strides.last() < len
        }),
{
    let lead = shape.drop_last();
    let d = shape.last() as int;
    let v = volume(lead) as int;
    let i = r * d + j;
    assert(0 <= i < v * d && i / d == r && i % d == j) by (nonlinear_arith)
        requires
            0 <= r < v,
            0 <= j < d,
            i == r * d + j,
    ;
    lemma_unravel(shape, i);
    lemma_unravel(lead, r);
    let row = unravel(lead, r);
    assert(unravel(shape, i) =~= row.push(j));
    assert(row.push(j).drop_last() =~= row);
    let first = row.push(0);
    assert forall|k: int| 0 <= k < shape.len() implies 0 <= #[trigger] first[k] < shape[k] by {
        if k < lead.len() {
            assert(first[k] == row[k] && lead[k] == shape[k]);
        }
    }
    assert(in_bounds(shape, first));
    assert(first.drop_last() =~= row);
    let s = strides.last() as int;
    assert(0 * s == 0) by (nonlinear_arith);
}

/// The leading axes alone stay inside the buffer too.
proof fn lemma_lead_walk(
    base: int,
    len: int,
    shape: Seq<usize>,
    strides: Seq<isize>,
)
    requires
        shape.len() > 0,
        strides.len() == shape.len(),
        0 <= len <= usize::MAX,
        shape.last() > 0,
        forall|idx: Seq<int>| #[trigger]
            in_bounds(shape, idx) ==> 0 <= base + dot(idx, strides) < len,
    ensures
        walk_fits(base, shape.drop_last(), strides.drop_last()),
{
    let lead = shape.drop_last();
    let ls = strides.drop_last();
    assert forall|idx: Seq<int>| #[trigger] in_bounds(lead, idx) implies isize::MIN <= base + dot(
        idx,
        ls,
    ) <= usize::MAX by {
        let first = idx.push(0);
        assert forall|k: int| 0 <= k < shape.len() implies 0 <= #[trigger] first[k] < shape[k] by {
            if k < lead.len() {
                assert(first[k] == idx[k] && lead[k] == shape[k]);
            }
        }
        assert(in_bounds(shape, first));
        assert(first.drop_last() =~= idx);
        let s = strides.last() as int;
        assert(0 * s == 0) by (nonlinear_arith);
    }
}

/// One row of a broadcasting kernel: both operands step along the last axis.
fn zip_row<T: Copy, F: Fn(T, T) -> T>(
    shape: &[usize],
    a: &Operand<T>,
    b: &Operand<T>,
    r: usize,
    f: &F,
) -> (out: Vec<T>)
    requires
        shape@.len() > 0,
        a.covers(shape@),
        b.covers(shape@),
        r < volume(shape@.drop_last()),
        forall|x: T, y: T| #[trigger] call_requires(*f, (x, y)),
    ensures
        out@.len() == shape@.last(),
        forall|j: int|
            0 <= j < out@.len() ==> call_ensures(
                *f,
                (
                    a.at(shape@, r * shape@.last() + j),
                    b.at(shape@, r * shape@.last() + j),
                ),
                #[trigger] out@[j],
            ),
{
    let rank: usize = shape.len();
    let inner: usize = shape[rank - 1];
    let mut out: Vec<T> = Vec::with_capacity(inner);
    if inner == 0 {
        return out;
    }
    let (ia, ib): (isize, isize) = (a.strides[rank - 1], b.strides[rank - 1]);
    let lead: &[usize] = vstd::slice::slice_subrange(shape, 0, rank - 1);
    let sa: &[isize] = vstd::slice::slice_subrange(a.strides.as_slice(), 0, rank - 1);
    let sb: &[isize] = vstd::slice::slice_subrange(b.strides.as_slice(), 0, rank - 1);
    proof {
        assert(lead@ =~= shape@.drop_last());
        assert(sa@ =~= a.strides@.drop_last());
        assert(sb@ =~= b.strides@.drop_last());
        lemma_lead_walk(a.offset as int, a.data@.len() as int, shape@, a.strides@);
        lemma_lead_walk(b.offset as int, b.data@.len() as int, shape@, b.strides@);
    }
    let mut ao: i128 = slot_of_rank(a.offset, lead, sa, r);
    let mut bo: i128 = slot_of_rank(b.offset, lead, sb, r);
    let ghost a0 = ao as int;
    let ghost b0 = bo as int;
    let mut j: usize = 0;
    proof {
        let x = ia as int;
        let y = ib as int;
        assert(0 * x == 0 && 0 * y == 0) by (nonlinear_arith);
    }
    while j < inner
        invariant
            j <= inner,
            inner == shape@.last(),
            rank == shape@.len(),
            rank > 0,
            ia == a.strides@.last(),
            ib == b.strides@.last(),
            a.covers(shape@),
            b.covers(shape@),
            r < volume(shape@.drop_last()),
            a0 == a.offset + dot(unravel(shape@.drop_last(), r as int), a.strides@.drop_last()),
            b0 == b.offset + dot(unravel(shape@.drop_last(), r as int), b.strides@.drop_last()),
            ao == a0 + j * ia,
            bo == b0 + j * ib,
            out@.len() == j,
            forall|x: T, y: T| #[trigger] call_requires(*f, (x, y)),
            forall|k: int|
                0 <= k < j ==> call_ensures(
                    *f,
                    (
                        a.at(shape@, r * shape@.last() + k),
                        b.at(shape@, r * shape@.last() + k),
                    ),
                    #[trigger] out@[k],
                ),
        decreases inner - j,
    {
        proof {
            lemma_row_slot(
                a.offset as int,
                a.data@.len() as int,
                shape@,
                a.strides@,
                r as int,
                j as int,
            );
            lemma_row_slot(
                b.offset as int,
                b.data@.len() as int,
                shape@,
                b.strides@,
                r as int,
                j as int,
            );
            let k = j as int;
            let x = ia as int;
            let y = ib as int;
            assert((k + 1) * x == k * x + x && (k + 1) * y == k * y + y) by (nonlinear_arith);
        }
        let av: T = a.data[ao as usize];
        let bv: T = b.data[bo as usize];
        out.push(f(av, bv));
        ao = ao + ia as i128;
        bo = bo + ib as i128;
        j = j + 1;
    }
    out
}

/// Broadcasting elementwise kernel: rows of the output in parallel, each a loop along the last
/// axis.
pub fn zip_kernel<T: Copy + Send + Sync, F: Fn(T, T) -> T + Sync + Send>(
    shape: &[usize],
    a: Operand<T>,
    b: Operand<T>,
    f: F,
) -> (out: Vec<T>)
    requires
        a.covers(shape@),
        b.covers(shape@),
        volume(shape@) <= usize::MAX,
        forall|x: T, y: T| #[trigger] call_requires(f, (x, y)),
    ensures
        out@.len() == volume(shape@),
        forall|i: int|
            0 <= i < out@.len() ==> call_ensures(
                f,
                (a.at(shape@, i), b.at(shape@, i)),
                #[trigger] out@[i],
            ),
{
    let rank: usize = shape.len();
    if rank == 0 {
        proof {
            assert(in_bounds(shape@, Seq::<int>::empty()));
            assert(dot(Seq::<int>::empty(), a.strides@) == 0);
            assert(dot(Seq::<int>::empty(), b.strides@) == 0);
        }
        let mut one: Vec<T> = Vec::new();
        one.push(f(a.data[a.offset], b.data[b.offset]));
        return one;
    }
    if crate::shape::has_zero(shape) {
        return Vec::new();
    }
    let inner: usize = shape[rank - 1];
    let lead: &[usize] = vstd::slice::slice_subrange(shape, 0, rank - 1);
    proof {
        lemma_volume_zero(shape@);
        assert(shape@[rank - 1] != 0);
        assert(lead@ =~= shape@.drop_last());
        crate::index::lemma_volume_prefix(shape@, rank - 1);
        assert(shape@.take(rank - 1) =~= shape@.drop_last());
    }
    let outer: usize = volume_of(lead);
    let g = &f;
    let pa = &a;
    let pb = &b;
    let row = |r: usize| -> (v: Vec<T>)
        requires
            r < volume(shape@.drop_last()),
            shape@.len() > 0,
            pa.covers(shape@),
            pb.covers(shape@),
            forall|x: T, y: T| #[trigger] call_requires(*g, (x, y))
        ensures
            v@.len() == shape@.last(),
            forall|j: int|
                0 <= j < v@.len() ==> call_ensures(
                    *g,
                    (
                        pa.at(shape@, r * shape@.last() + j),
                        pb.at(shape@, r * shape@.last() + j),
                    ),
                    #[trigger] v@[j],
                )
    {
        zip_row(shape, pa, pb, r, g)
    };
    let rows: Vec<Vec<T>> = par_fill(outer, row);
    proof {
        assert forall|k: int| 0 <= k < rows@.len() implies (#[trigger] rows@[k])@.len()
            == inner by {
            assert(call_ensures(row, (k as usize,), rows@[k]));
        }
    }
    let out: Vec<T> = concat_rows(&rows, inner);
    proof {
        assert forall|i: int| 0 <= i < out@.len() implies call_ensures(
            f,
            (a.at(shape@, i), b.at(shape@, i)),
            #[trigger] out@[i],
        ) by {
            let d = inner as int;
            let k = i / d;
            let j = i % d;
            let v = outer as int;
            assert(0 <= k < v && 0 <= j < d && i == k * d + j) by (nonlinear_arith)
                requires
                    0 <= i < v * d,
                    d > 0,
                    k == i / d,
                    j == i % d,
            ;
            assert(call_ensures(row, (k as usize,), rows@[k]));
            assert(out@[k * inner + j] == rows@[k]@[j]);
        }
    }
    out
}

/// Product of the dimensions, where it fits.
pub fn volume_of(shape: &[usize]) -> (r: usize)
    requires
        0 < volume(shape@) <= usize::MAX,
    ensures
        r == volume(shape@),
{
    proof {
        assert forall|k: int| 0 <= k <= shape@.len() implies volume(#[trigger] shape@.take(k))
            <= usize::MAX by {
            crate::index::lemma_volume_prefix(shape@, k);
        }
        assert(fits(shape@));
    }
    match numel(shape) {
        Ok(n) => n,
        Err(_) => 0,
    }
}

/// What a broadcast shows at rank `i` is the element of that source rank.
pub proof fn lemma_source<F, D, T>(m: TensorModel<F, D>, data: Seq<T>, shape: Seq<usize>, i: int)
    requires
        m.valid(),
        data.len() == m.data.len(),
        m.shape.len() <= shape.len(),
        compatible(m.shape, shape),
        volume(m.shape) == 0 ==> volume(shape) == 0,
        0 <= i < volume(shape),
    ensures
        0 <= source_rank(m.shape, shape, i) < volume(m.shape),
        data[m.offset + dot(unravel(shape, i), stretched(m.shape, m.strides, shape))] == packed(
            data,
            m.offset,
            m.shape,
            m.strides,
        )[source_rank(m.shape, shape, i)],
{
    let idx = unravel(shape, i);
    lemma_unravel(shape, i);
    law_broadcast_reads(m, shape, idx);
    let small = narrowed(m.shape, idx);
    lemma_ravel(m.shape, small);
    assert(broadcasted(m, shape).slot(idx) == m.slot(small));
}

/// A broadcast of the view covers the output.
proof fn lemma_covers<F, D, T>(m: TensorModel<F, D>, operand: Operand<T>, shape: Seq<usize>)
    requires
        m.valid(),
        operand.data@.len() == m.data.len(),
        m.data.len() <= usize::MAX,
        operand.offset == m.offset,
        operand.strides@ == stretched(m.shape, m.strides, shape),
        m.shape.len() <= shape.len(),
        compatible(m.shape, shape),
        volume(m.shape) == 0 ==> volume(shape) == 0,
    ensures
        operand.covers(shape),
{
    assert forall|idx: Seq<int>| #[trigger] in_bounds(shape, idx) implies 0 <= operand.offset + dot(
        idx,
        operand.strides@,
    ) < operand.data@.len() by {
        law_broadcast_reads(m, shape, idx);
        assert(broadcasted(m, shape).slot(idx) == m.slot(narrowed(m.shape, idx)));
    }
}

/// The value of a broadcasting binary op on two floating tensors.
pub open spec fn binary_value<S: Scalars>(
    a: TensorModel<S::F, S::D>,
    b: TensorModel<S::F, S::D>,
    rel32: spec_fn(S::F, S::F, S::F) -> bool,
    rel64: spec_fn(S::D, S::D, S::D) -> bool,
    r: TensorModel<S::F, S::D>,
) -> bool {
    &&& compatible(a.shape, b.shape) && fits(joined(a.shape, b.shape))
    &&& r.plain(joined(a.shape, b.shape)) && r.valid() && r.elems() == r.data
    &&& match (a.elems(), b.elems(), r.data) {
        (Data::F32(x), Data::F32(y), Data::F32(z)) => zips(rel32, a.shape, x, b.shape, y, z),
        (Data::F64(x), Data::F64(y), Data::F64(z)) => zips(rel64, a.shape, x, b.shape, y, z),
        _ => false,
    }
}

/// Why two shapes could not be taken together.
pub open spec fn join_error(e: Error, a: Seq<usize>, b: Seq<usize>) -> bool {
    if compatible(a, b) {
        !fits(joined(a, b)) && numel_error(e)
    } else {
        broadcast_error(e, a, b)
    }
}

/// Why a broadcasting op on 32-bit floats was refused.
pub open spec fn binary_f32_error<F, D>(
    e: Error,
    op: Seq<char>,
    a: TensorModel<F, D>,
    b: TensorModel<F, D>,
) -> bool {
    if a.dtype() != b.dtype() {
        e.says(ErrorKind::Dtype, op, "mixed dtypes"@)
    } else if !(compatible(a.shape, b.shape) && fits(joined(a.shape, b.shape))) {
        join_error(e, a.shape, b.shape)
    } else {
        a.dtype() != Dtype::F32 && e.says(ErrorKind::Dtype, "storage"@, "expected f32"@)
    }
}

/// Broadcasting elementwise binary op on 32-bit floats.
///
/// Works on arbitrary strides without materializing broadcast copies.
pub fn binary_f32<S: Scalars, F: Fn(S::F, S::F) -> S::F + Sync + Send>(
    op: &'static str,
    a: &Tensor<S>,
    b: &Tensor<S>,
    f: F,
) -> (r: Result<Tensor<S>, Error>)
    requires
        forall|x: S::F, y: S::F| #[trigger] call_requires(f, (x, y)),
    ensures
        r matches Ok(t) ==> a@.data is F32 && b@.data is F32 && binary_value::<S>(
            a@,
            b@,
            |x: S::F, y: S::F, z: S::F| call_ensures(f, (x, y), z),
            |x: S::D, y: S::D, z: S::D| false,
            t@,
        ),
        r matches Err(e) ==> binary_f32_error(e, op@, a@, b@),
{
    if a.dtype() != b.dtype() {
        return Err(Error::dtype(op, "mixed dtypes".to_owned()));
    }
    let shape: Vec<usize> = match broadcast_shapes(a.shape(), b.shape()) {
        Ok(s) => s,
        Err(e) => {
            return Err(e);
        },
    };
    match numel(shape.as_slice()) {
        Ok(_) => {},
        Err(e) => {
            return Err(e);
        },
    }
    let asrc: &[S::F] = match a.storage_f32() {
        Ok(v) => v,
        Err(e) => {
            return Err(e);
        },
    };
    let bsrc: &[S::F] = match b.storage_f32() {
        Ok(v) => v,
        Err(e) => {
            return Err(e);
        },
    };
    proof {
        lemma_joined(a@.shape, b@.shape);
        assert(shape@.take(shape@.len() as int) =~= shape@);
    }
    let sa: Vec<isize> = match broadcast_strides(a.shape(), a.strides(), shape.as_slice()) {
        Ok(s) => s,
        Err(e) => {
            return Err(e);
        },
    };
    let sb: Vec<isize> = match broadcast_strides(b.shape(), b.strides(), shape.as_slice()) {
        Ok(s) => s,
        Err(e) => {
            return Err(e);
        },
    };
    let left: Operand<S::F> = Operand { data: asrc, offset: a.storage_offset(), strides: sa };
    let right: Operand<S::F> = Operand { data: bsrc, offset: b.storage_offset(), strides: sb };
    proof {
        lemma_covers(a@, left, shape@);
        lemma_covers(b@, right, shape@);
    }
    let out: Vec<S::F> = zip_kernel(shape.as_slice(), left, right, f);
    proof {
        assert forall|i: int| 0 <= i < out@.len() implies call_ensures(
            f,
            (
                a@.f32s()[source_rank(a@.shape, shape@, i)],
                b@.f32s()[source_rank(b@.shape, shape@, i)],
            ),
            #[trigger] out@[i],
        ) by {
            lemma_source(a@, asrc@, shape@, i);
            lemma_source(b@, bsrc@, shape@, i);
        }
    }
    Tensor::from_vec_f32(out, shape.as_slice())
}

/// The same for 64-bit floats.
fn binary_f64<S: Scalars, F: Fn(S::D, S::D) -> S::D + Sync + Send>(
    a: &Tensor<S>,
    b: &Tensor<S>,
    f: F,
) -> (r: Result<Tensor<S>, Error>)
    requires
        a@.data is F64,
        b@.data is F64,
        forall|x: S::D, y: S::D| #[trigger] call_requires(f, (x, y)),
    ensures
        r matches Ok(t) ==> binary_value::<S>(
            a@,
            b@,
            |x: S::F, y: S::F, z: S::F| false,
            |x: S::D, y: S::D, z: S::D| call_ensures(f, (x, y), z),
            t@,
        ),
        r matches Err(e) ==> !(compatible(a@.shape, b@.shape) && fits(joined(a@.shape, b@.shape)))
            && join_error(e, a@.shape, b@.shape),
{
    let shape: Vec<usize> = match broadcast_shapes(a.shape(), b.shape()) {
        Ok(s) => s,
        Err(e) => {
            return Err(e);
        },
    };
    match numel(shape.as_slice()) {
        Ok(_) => {},
        Err(e) => {
            return Err(e);
        },
    }
    let asrc: &[S::D] = match a.storage_f64() {
        Ok(v) => v,
        Err(e) => {
            return Err(e);
        },
    };
    let bsrc: &[S::D] = match b.storage_f64() {
        Ok(v) => v,
        Err(e) => {
            return Err(e);
        },
    };
    proof {
        lemma_joined(a@.shape, b@.shape);
        assert(shape@.take(shape@.len() as int) =~= shape@);
    }
    let sa: Vec<isize> = match broadcast_strides(a.shape(), a.strides(), shape.as_slice()) {
        Ok(s) => s,
        Err(e) => {
            return Err(e);
        },
    };
    let sb: Vec<isize> = match broadcast_strides(b.shape(), b.strides(), shape.as_slice()) {
        Ok(s) => s,
        Err(e) => {
            return Err(e);
        },
    };
    let left: Operand<S::D> = Operand { data: asrc, offset: a.storage_offset(), strides: sa };
    let right: Operand<S::D> = Operand { data: bsrc, offset: b.storage_offset(), strides: sb };
    proof {
        lemma_covers(a@, left, shape@);
        lemma_covers(b@, right, shape@);
    }
    let out: Vec<S::D> = zip_kernel(shape.as_slice(), left, right, f);
    proof {
        assert forall|i: int| 0 <= i < out@.len() implies call_ensures(
            f,
            (
                a@.f64s()[source_rank(a@.shape, shape@, i)],
                b@.f64s()[source_rank(b@.shape, shape@, i)],
            ),
            #[trigger] out@[i],
        ) by {
            lemma_source(a@, asrc@, shape@, i);
            lemma_source(b@, bsrc@, shape@, i);
        }
    }
    Tensor::from_vec_f64(out, shape.as_slice())
}

/// Why tensors of different dtypes or devices were refused.
pub open spec fn mixed_error<F, D>(
    e: Error,
    op: Seq<char>,
    a: TensorModel<F, D>,
    b: TensorModel<F, D>,
) -> bool {
    if a.dtype() != b.dtype() {
        e.says(ErrorKind::Dtype, op, "mixed dtypes"@)
    } else {
        a.device != b.device && e.says(ErrorKind::Device, op, "mixed devices"@)
    }
}

/// The dtype that two tensors on one device share.
pub fn same_device_dtype<S: Scalars>(op: &'static str, a: &Tensor<S>, b: &Tensor<S>) -> (r: Result<
    Dtype,
    Error,
>)
    ensures
        r matches Ok(d) ==> d == a@.dtype() && d == b@.dtype() && a@.device == b@.device,
        r matches Err(e) ==> mixed_error(e, op@, a@, b@),
{
    if b.dtype() != a.dtype() {
        return Err(Error::dtype(op, "mixed dtypes".to_owned()));
    }
    if b.device() != a.device() {
        return Err(Error::device(op, "mixed devices".to_owned()));
    }
    Ok(a.dtype())
}

/// Why a broadcasting op on floats was refused.
pub open spec fn binary_error<F, D>(
    e: Error,
    op: Seq<char>,
    a: TensorModel<F, D>,
    b: TensorModel<F, D>,
) -> bool {
    if a.dtype() != b.dtype() || a.device != b.device {
        mixed_error(e, op, a, b)
    } else if !a.dtype().floating() {
        e.says(ErrorKind::Dtype, op, "expected floating tensors"@)
    } else {
        !(compatible(a.shape, b.shape) && fits(joined(a.shape, b.shape))) && join_error(
            e,
            a.shape,
            b.shape,
        )
    }
}

/// Broadcasting elementwise binary op on floats of either width.
pub fn binary_float<
    S: Scalars,
    F: Fn(S::F, S::F) -> S::F + Sync + Send,
    G: Fn(S::D, S::D) -> S::D + Sync + Send,
>(op: &'static str, a: &Tensor<S>, b: &Tensor<S>, f32e: F, f64e: G) -> (r: Result<Tensor<S>, Error>)
    requires
        forall|x: S::F, y: S::F| #[trigger] call_requires(f32e, (x, y)),
        forall|x: S::D, y: S::D| #[trigger] call_requires(f64e, (x, y)),
    ensures
        r matches Ok(t) ==> a@.dtype() == b@.dtype() && a@.device == b@.device && binary_value::<S>(
            a@,
            b@,
            |x: S::F, y: S::F, z: S::F| call_ensures(f32e, (x, y), z),
            |x: S::D, y: S::D, z: S::D| call_ensures(f64e, (x, y), z),
            t@,
        ),
        r matches Err(e) ==> binary_error(e, op@, a@, b@),
{
    let dtype: Dtype = match same_device_dtype(op, a, b) {
        Ok(d) => d,
        Err(e) => {
            return Err(e);
        },
    };
    match dtype {
        Dtype::F32 => binary_f32(op, a, b, f32e),
        Dtype::F64 => binary_f64(a, b, f64e),
        Dtype::I64 => Err(Error::dtype(op, "expected floating tensors".to_owned())),
    }
}

/// A value under relations that imply others.
pub proof fn lemma_binary_weaken<S: Scalars>(
    a: TensorModel<S::F, S::D>,
    b: TensorModel<S::F, S::D>,
    rel32: spec_fn(S::F, S::F, S::F) -> bool,
    rel64: spec_fn(S::D, S::D, S::D) -> bool,
    new32: spec_fn(S::F, S::F, S::F) -> bool,
    new64: spec_fn(S::D, S::D, S::D) -> bool,
    r: TensorModel<S::F, S::D>,
)
    requires
        binary_value::<S>(a, b, rel32, rel64, r),
        forall|x: S::F, y: S::F, z: S::F| #[trigger] rel32(x, y, z) ==> new32(x, y, z),
        forall|x: S::D, y: S::D, z: S::D| #[trigger] rel64(x, y, z) ==> new64(x, y, z),
    ensures
        binary_value::<S>(a, b, new32, new64, r),
{
    match (a.elems(), b.elems(), r.data) {
        (Data::F32(x), Data::F32(y), Data::F32(z)) => {
            lemma_zips_weaken(rel32, new32, a.shape, x, b.shape, y, z);
        },
        (Data::F64(x), Data::F64(y), Data::F64(z)) => {
            lemma_zips_weaken(rel64, new64, a.shape, x, b.shape, y, z);
        },
        _ => {},
    }
}

/// The value of an elementwise op on a floating tensor.
pub open spec fn unary_value<S: Scalars>(
    a: TensorModel<S::F, S::D>,
    rel32: spec_fn(S::F, S::F) -> bool,
    rel64: spec_fn(S::D, S::D) -> bool,
    r: TensorModel<S::F, S::D>,
) -> bool {
    &&& fits(a.shape) && r.plain(a.shape) && r.valid() && r.elems() == r.data
    &&& match (a.elems(), r.data) {
        (Data::F32(x), Data::F32(y)) => maps(rel32, x, y),
        (Data::F64(x), Data::F64(y)) => maps(rel64, x, y),
        _ => false,
    }
}

/// Why an elementwise op on floats was refused.
pub open spec fn unary_error<F, D>(e: Error, op: Seq<char>, a: TensorModel<F, D>) -> bool {
    if a.dtype().floating() {
        !fits(a.shape) && numel_error(e)
    } else {
        e.says(ErrorKind::Dtype, op, "expected float"@)
    }
}

/// A value under relations that imply others.
pub proof fn lemma_unary_weaken<S: Scalars>(
    a: TensorModel<S::F, S::D>,
    rel32: spec_fn(S::F, S::F) -> bool,
    rel64: spec_fn(S::D, S::D) -> bool,
    new32: spec_fn(S::F, S::F) -> bool,
    new64: spec_fn(S::D, S::D) -> bool,
    r: TensorModel<S::F, S::D>,
)
    requires
        unary_value::<S>(a, rel32, rel64, r),
        forall|x: S::F, y: S::F| #[trigger] rel32(x, y) ==> new32(x, y),
        forall|x: S::D, y: S::D| #[trigger] rel64(x, y) ==> new64(x, y),
    ensures
        unary_value::<S>(a, new32, new64, r),
{
    match (a.elems(), r.data) {
        (Data::F32(x), Data::F32(y)) => {
            assert forall|i: int| 0 <= i < y.len() implies new32(x[i], #[trigger] y[i]) by {
                assert(rel32(x[i], y[i]));
            }
        },
        (Data::F64(x), Data::F64(y)) => {
            assert forall|i: int| 0 <= i < y.len() implies new64(x[i], #[trigger] y[i]) by {
                assert(rel64(x[i], y[i]));
            }
        },
        _ => {},
    }
}

/// Applies `f` to every item, in parallel above the threshold.
pub fn map_values<T: Copy + Send + Sync, U: Send, F: Fn(T) -> U + Sync + Send>(
    v: &[T],
    f: F,
) -> (r: Vec<U>)
    requires
        forall|x: T| #[trigger] call_requires(f, (x,)),
    ensures
        maps(|x: T, y: U| call_ensures(f, (x,), y), v@, r@),
{
    let g = &f;
    let one = |i: usize| -> (y: U)
        requires
            i < v@.len(),
            forall|x: T| #[trigger] call_requires(*g, (x,))
        ensures
            call_ensures(*g, (v@[i as int],), y)
    {
        g(v[i])
    };
    par_fill(v.len(), one)
}

/// Why an op that takes 32-bit floats was refused.
pub open spec fn only_f32_error<F, D>(
    e: Error,
    kind_op: Seq<char>,
    message: Seq<char>,
    a: TensorModel<F, D>,
) -> bool {
    if a.dtype() == Dtype::F32 {
        !fits(a.shape) && numel_error(e)
    } else {
        e.says(ErrorKind::Dtype, kind_op, message)
    }
}

/// Apply a scalar function of 32-bit floats elementwise.
pub fn map_f32<S: Scalars, F: Fn(S::F) -> S::F + Sync + Send>(x: &Tensor<S>, f: F) -> (r: Result<
    Tensor<S>,
    Error,
>)
    requires
        forall|v: S::F| #[trigger] call_requires(f, (v,)),
    ensures
        r matches Ok(t) ==> x@.data is F32 && unary_value::<S>(
            x@,
            |v: S::F, y: S::F| call_ensures(f, (v,), y),
            |v: S::D, y: S::D| false,
            t@,
        ),
        r matches Err(e) ==> only_f32_error(e, "map_f32"@, "f32 only"@, x@),
{
    if x.dtype() != Dtype::F32 {
        return Err(Error::dtype("map_f32", "f32 only".to_owned()));
    }
    match x.to_vec_f32() {
        Ok(v) => {
            let out: Vec<S::F> = map_values(v.as_slice(), f);
            Tensor::from_vec_f32(out, x.shape())
        },
        Err(e) => Err(e),
    }
}

/// Apply a scalar function of floats elementwise.
pub fn map_float<
    S: Scalars,
    F: Fn(S::F) -> S::F + Sync + Send,
    G: Fn(S::D) -> S::D + Sync + Send,
>(op: &'static str, a: &Tensor<S>, f32e: F, f64e: G) -> (r: Result<Tensor<S>, Error>)
    requires
        forall|v: S::F| #[trigger] call_requires(f32e, (v,)),
        forall|v: S::D| #[trigger] call_requires(f64e, (v,)),
    ensures
        r matches Ok(t) ==> unary_value::<S>(
            a@,
            |v: S::F, y: S::F| call_ensures(f32e, (v,), y),
            |v: S::D, y: S::D| call_ensures(f64e, (v,), y),
            t@,
        ),
        r matches Err(e) ==> unary_error(e, op@, a@),
{
    match a.dtype() {
        Dtype::F32 => match a.to_vec_f32() {
            Ok(v) => {
                let out: Vec<S::F> = map_values(v.as_slice(), f32e);
                Tensor::from_vec_f32(out, a.shape())
            },
            Err(e) => Err(e),
        },
        Dtype::F64 => match a.to_vec_f64() {
            Ok(v) => {
                let out: Vec<S::D> = map_values(v.as_slice(), f64e);
                Tensor::from_vec_f64(out, a.shape())
            },
            Err(e) => Err(e),
        },
        Dtype::I64 => Err(Error::dtype(op, "expected float".to_owned())),
    }
}

} // verus!
