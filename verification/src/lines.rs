//! Lines of a tensor along an axis, and sums over them.
use vstd::prelude::*;
use crate::algebra::{lemma_total_agree, lemma_total_joined};
use crate::device::Device::Cpu;
use crate::elementwise::{source_rank, zips};
use crate::index::{fits, in_bounds, lemma_ravel, lemma_unravel, ravel, unravel, volume};
use crate::par::{ceiling, PAR_MIN};
use crate::reduce::{
    all_marked, asked_axes, axis_sums, contributes, kept_index, kept_rank, kept_shape, marked,
    one_marked, sum_block, sum_out, sums, sums_by_blocks, sums_picked, SUM_BLOCK,
};
use crate::ring::{lemma_sums_total, Ring};
use crate::rules::axis_alone;
use crate::scalar::{every, Arith, Scalars};
use crate::shape::joined;
use crate::tensor::Model;
use crate::views::narrowed;

verus! {

/// The elements that agree with the one of rank `i` in every coordinate but that on `axis`.
pub open spec fn in_line(shape: Seq<usize>, axis: int, i: int) -> spec_fn(int) -> bool {
    |k: int|
        forall|j: int|
            0 <= j < shape.len() && j != axis ==> #[trigger] unravel(shape, k)[j] == unravel(
                shape,
                i,
            )[j]
}

/// Where the line of the element of rank `i` goes when the axis is taken together.
pub open spec fn line_rank(shape: Seq<usize>, axis: int, i: int) -> int {
    ravel(line_shape(shape, axis), unravel(shape, i).update(axis, 0))
}

/// The shape with one axis taken together.
pub open spec fn line_shape(shape: Seq<usize>, axis: int) -> Seq<usize> {
    shape.update(axis, 1)
}

/// Marking one axis.
pub(crate) proof fn lemma_axis_marks(axis: usize, rank: nat)
    requires
        axis < rank <= isize::MAX,
    ensures
        marked(asked_axes(axis_alone(axis), rank), rank) == one_marked(
            rank,
            axis as int,
        ),
{
    let asked = asked_axes(axis_alone(axis), rank);
    assert(asked.len() == 1 && asked[0] == axis);
    let m = marked(asked, rank);
    assert forall|k: int| 0 <= k < rank implies #[trigger] m[k] == (k == axis) by {
        if k == axis {
            assert(asked[0] == k);
        }
    }
    assert(m =~= one_marked(rank, axis as int));
}

/// What stays of a shape whose marked axes become one.
pub(crate) proof fn lemma_kept_ones(shape: Seq<usize>, red: Seq<bool>)
    requires
        red.len() == shape.len(),
    ensures
        kept_shape(shape, red, true) == Seq::new(
            shape.len(),
            |k: int|
                if red[k] {
                    1usize
                } else {
                    shape[k]
                },
        ),
    decreases shape.len(),
{
    let want = Seq::new(
        shape.len(),
        |k: int|
            if red[k] {
                1usize
            } else {
                shape[k]
            },
    );
    if shape.len() > 0 {
        lemma_kept_ones(shape.drop_last(), red.drop_last());
    }
    assert(kept_shape(shape, red, true) =~= want);
}

pub(crate) proof fn lemma_kept_zeros(idx: Seq<int>, red: Seq<bool>)
    requires
        red.len() == idx.len(),
    ensures
        kept_index(idx, red, true) == Seq::new(
            idx.len(),
            |k: int|
                if red[k] {
                    0int
                } else {
                    idx[k]
                },
        ),
    decreases idx.len(),
{
    let want = Seq::new(
        idx.len(),
        |k: int|
            if red[k] {
                0int
            } else {
                idx[k]
            },
    );
    if idx.len() > 0 {
        lemma_kept_zeros(idx.drop_last(), red.drop_last());
    }
    assert(kept_index(idx, red, true) =~= want);
}

/// Lines as a reduction over one axis sees them.
pub(crate) proof fn lemma_line(shape: Seq<usize>, axis: int, i: int)
    requires
        0 <= axis < shape.len(),
        0 <= i < volume(shape),
    ensures
        kept_shape(shape, one_marked(shape.len(), axis), true) == line_shape(
            shape,
            axis,
        ),
        joined(shape, line_shape(shape, axis)) == shape,
        joined(line_shape(shape, axis), shape) == shape,
        source_rank(shape, shape, i) == i,
        source_rank(line_shape(shape, axis), shape, i) == line_rank(shape, axis, i),
        0 <= line_rank(shape, axis, i) < volume(line_shape(shape, axis)),
        kept_rank(shape, one_marked(shape.len(), axis), true, i) == line_rank(
            shape,
            axis,
            i,
        ),
        in_line(shape, axis, i)(i),
{
    let red = one_marked(shape.len(), axis);
    let small = line_shape(shape, axis);
    lemma_kept_ones(shape, red);
    assert(kept_shape(shape, red, true) =~= small);
    assert(joined(shape, small) =~= shape);
    assert(joined(small, shape) =~= shape);
    lemma_unravel(shape, i);
    let idx = unravel(shape, i);
    lemma_kept_zeros(idx, red);
    assert(kept_index(idx, red, true) =~= idx.update(axis, 0));
    assert(narrowed(shape, idx) =~= idx) by {
        assert forall|k: int| 0 <= k < shape.len() implies narrowed(shape, idx)[k] == idx[k] by {
            assert(0 <= idx[k] < shape[k]);
        }
    }
    assert(narrowed(small, idx) =~= idx.update(axis, 0)) by {
        assert forall|k: int| 0 <= k < shape.len() implies narrowed(small, idx)[k] == idx.update(
            axis,
            0,
        )[k] by {
            assert(0 <= idx[k] < shape[k]);
        }
    }
    assert(in_bounds(small, idx.update(axis, 0))) by {
        assert forall|k: int| 0 <= k < small.len() implies 0 <= #[trigger] idx.update(axis, 0)[k]
            < small[k] by {
            assert(0 <= idx[k] < shape[k]);
        }
    }
    lemma_ravel(small, idx.update(axis, 0));
}

/// Two elements are in one line where a reduction takes them together.
pub(crate) proof fn lemma_same_line(shape: Seq<usize>, axis: int, i: int, k: int)
    requires
        0 <= axis < shape.len(),
        0 <= i < volume(shape),
        0 <= k < volume(shape),
    ensures
        in_line(shape, axis, i)(k) == (line_rank(shape, axis, i) == line_rank(shape, axis, k)),
{
    let small = line_shape(shape, axis);
    lemma_unravel(shape, i);
    lemma_unravel(shape, k);
    let a = unravel(shape, i).update(axis, 0);
    let b = unravel(shape, k).update(axis, 0);
    assert(in_bounds(small, a) && in_bounds(small, b)) by {
        assert forall|j: int| 0 <= j < small.len() implies 0 <= #[trigger] a[j] < small[j] by {
            assert(0 <= unravel(shape, i)[j] < shape[j]);
        }
        assert forall|j: int| 0 <= j < small.len() implies 0 <= #[trigger] b[j] < small[j] by {
            assert(0 <= unravel(shape, k)[j] < shape[j]);
        }
    }
    lemma_ravel(small, a);
    lemma_ravel(small, b);
    if in_line(shape, axis, i)(k) {
        assert(a =~= b);
    }
    if a == b {
        assert forall|j: int| 0 <= j < shape.len() && j != axis implies #[trigger] unravel(
            shape,
            k,
        )[j] == unravel(shape, i)[j] by {
            assert(a[j] == b[j]);
        }
    }
}

/// Sums over an axis are the sums over its lines.
pub(crate) proof fn lemma_line_sums<T, A: Arith<T>>(
    r: Ring<T>,
    shape: Seq<usize>,
    axis: int,
    xs: Seq<T>,
    out: Seq<T>,
    i: int,
)
    requires
        r.computes::<A>(),
        0 <= axis < shape.len(),
        xs.len() == volume(shape),
        0 <= i < volume(shape),
        axis_sums::<T, A>(
            shape,
            one_marked(shape.len(), axis),
            true,
            xs,
            out,
        ),
    ensures
        out[line_rank(shape, axis, i)] == r.total(
            xs,
            in_line(shape, axis, i),
            xs.len() as int,
        ),
{
    let red = one_marked(shape.len(), axis);
    lemma_line(shape, axis, i);
    let o = line_rank(shape, axis, i);
    let pick = contributes(shape, red, true, o);
    assert(sums_picked::<T, A>(xs, pick, out[o]));
    lemma_sums_total::<T, A>(r, xs, pick, out[o]);
    let n = xs.len() as int;
    assert forall|k: int| 0 <= k < n implies #[trigger] pick(k) == in_line(shape, axis, i)(k) by {
        lemma_line(shape, axis, k);
        lemma_same_line(shape, axis, i, k);
    }
    lemma_total_agree(r, xs, xs, pick, in_line(shape, axis, i), n);
}

/// The sum of the sums of blocks is the sum.
pub(crate) proof fn lemma_blocks_total<T, A: Arith<T>>(r: Ring<T>, xs: Seq<T>, v: T)
    requires
        r.computes::<A>(),
        sums_by_blocks::<T, A>(xs, v),
    ensures
        v == r.total(xs, every(), xs.len() as int),
{
    let parts = choose|parts: Seq<T>|
        {
            &&& parts.len() == ceiling(xs.len() as int, SUM_BLOCK as int)
            &&& forall|c: int|
                0 <= c < parts.len() ==> sums::<T, A>(
                    sum_block(xs, c),
                    #[trigger] parts[c],
                )
            &&& #[trigger] sums::<T, A>(parts, v)
        };
    lemma_sums_total::<T, A>(r, parts, every(), v);
    lemma_some_blocks::<T, A>(r, xs, parts, parts.len() as int);
}

/// As far as the first `c` blocks go.
spec fn block_end(n: int, c: int) -> int {
    if c * SUM_BLOCK < n {
        c * SUM_BLOCK
    } else {
        n
    }
}

proof fn lemma_some_blocks<T, A: Arith<T>>(r: Ring<T>, xs: Seq<T>, parts: Seq<T>, c: int)
    requires
        r.computes::<A>(),
        parts.len() == ceiling(xs.len() as int, SUM_BLOCK as int),
        forall|k: int|
            0 <= k < parts.len() ==> sums::<T, A>(
                sum_block(xs, k),
                #[trigger] parts[k],
            ),
        0 <= c <= parts.len(),
    ensures
        r.total(parts, every(), c) == r.total(xs, every(), block_end(xs.len() as int, c)),
        c == parts.len() ==> block_end(xs.len() as int, c) == xs.len(),
    decreases c,
{
    let n = xs.len() as int;
    if c > 0 {
        lemma_some_blocks::<T, A>(r, xs, parts, c - 1);
        let block = sum_block(xs, c - 1);
        assert(sums::<T, A>(block, parts[c - 1]));
        lemma_sums_total::<T, A>(r, block, every(), parts[c - 1]);
        let m = (c - 1) * SUM_BLOCK;
        assert(m < n);
        let e = block_end(n, c);
        assert(m <= e);
        lemma_total_joined(r, xs, every(), m, e);
        let late = |i: int| every()(i + m);
        assert(block.len() == e - m);
        assert forall|i: int| 0 <= i < e - m && #[trigger] late(i) implies xs.skip(m)[i]
            == block[i] by {
        }
        lemma_total_agree(r, xs.skip(m), block, late, every(), e - m);
        assert(block_end(n, c - 1) == m);
    }
}

/// What a sum over one axis, which stays, holds for 32-bit data.
pub(crate) proof fn lemma_sum_lines_f32<S: Scalars>(
    r: Ring<S::F>,
    x: Model<S>,
    axis: usize,
    t: Model<S>,
)
    requires
        r.computes::<S>(),
        x.data is F32,
        axis < x.shape.len() <= isize::MAX,
        sum_out::<S>(x, axis_alone(axis), true, Ok(t)),
    ensures
        t.data is F32,
        t.shape == line_shape(x.shape, axis as int),
        t.f32s() == t.data->F32_0,
        t.device == Cpu,
        forall|i: int|
            0 <= i < volume(x.shape) ==> t.data->F32_0[#[trigger] line_rank(
                x.shape,
                axis as int,
                i,
            )] == r.total(x.f32s(), in_line(x.shape, axis as int, i), volume(x.shape) as int),
{
    let shape = x.shape;
    lemma_axis_marks(axis, shape.len());
    let red = one_marked(shape.len(), axis as int);
    lemma_kept_ones(shape, red);
    assert(kept_shape(shape, red, true) =~= line_shape(shape, axis as int));
    assert(t.elems() == t.data);
    let xs = x.f32s();
    let out = t.data->F32_0;
    if all_marked(red) && x.contiguous() && fits(x.shape) && xs.len() >= PAR_MIN {
        lemma_blocks_total::<S::F, S>(r, xs, out[0]);
        assert(shape.len() == 1) by {
            if shape.len() > 1 {
                let other: int = if axis == 0 {
                    1
                } else {
                    0
                };
                assert(red[other]);
            }
        }
        assert forall|i: int| 0 <= i < volume(shape) implies out[#[trigger] line_rank(
            shape,
            axis as int,
            i,
        )] == r.total(xs, in_line(shape, axis as int, i), volume(shape) as int) by {
            lemma_line(shape, axis as int, i);
            assert(out.len() == 1);
            assert(line_rank(shape, axis as int, i) == 0);
            lemma_total_agree(
                r,
                xs,
                xs,
                every(),
                in_line(shape, axis as int, i),
                volume(shape) as int,
            );
        }
    } else {
        assert forall|i: int| 0 <= i < volume(shape) implies out[#[trigger] line_rank(
            shape,
            axis as int,
            i,
        )] == r.total(xs, in_line(shape, axis as int, i), volume(shape) as int) by {
            lemma_line_sums::<S::F, S>(r, shape, axis as int, xs, out, i);
        }
    }
}

/// What a sum over one axis, which stays, holds for 64-bit data.
pub(crate) proof fn lemma_sum_lines_f64<S: Scalars>(
    r: Ring<S::D>,
    x: Model<S>,
    axis: usize,
    t: Model<S>,
)
    requires
        r.computes::<S>(),
        x.data is F64,
        axis < x.shape.len() <= isize::MAX,
        sum_out::<S>(x, axis_alone(axis), true, Ok(t)),
    ensures
        t.data is F64,
        t.shape == line_shape(x.shape, axis as int),
        t.f64s() == t.data->F64_0,
        forall|i: int|
            0 <= i < volume(x.shape) ==> t.data->F64_0[#[trigger] line_rank(
                x.shape,
                axis as int,
                i,
            )] == r.total(x.f64s(), in_line(x.shape, axis as int, i), volume(x.shape) as int),
{
    let shape = x.shape;
    lemma_axis_marks(axis, shape.len());
    let red = one_marked(shape.len(), axis as int);
    lemma_kept_ones(shape, red);
    assert(kept_shape(shape, red, true) =~= line_shape(shape, axis as int));
    assert(t.elems() == t.data);
    assert forall|i: int| 0 <= i < volume(shape) implies t.data->F64_0[#[trigger] line_rank(
        shape,
        axis as int,
        i,
    )] == r.total(x.f64s(), in_line(shape, axis as int, i), volume(shape) as int) by {
        lemma_line_sums::<S::D, S>(r, shape, axis as int, x.f64s(), t.data->F64_0, i);
    }
}

/// A relation of two tensors of one shape, place by place.
pub(crate) proof fn lemma_zips_same<T>(
    rel: spec_fn(T, T, T) -> bool,
    shape: Seq<usize>,
    a: Seq<T>,
    b: Seq<T>,
    out: Seq<T>,
)
    requires
        zips(rel, shape, a, shape, b, out),
    ensures
        joined(shape, shape) == shape,
        out.len() == volume(shape),
        forall|i: int| 0 <= i < volume(shape) ==> rel(a[i], b[i], #[trigger] out[i]),
{
    assert(joined(shape, shape) =~= shape);
    assert forall|i: int| 0 <= i < volume(shape) implies rel(a[i], b[i], #[trigger] out[i]) by {
        lemma_unravel(shape, i);
        let idx = unravel(shape, i);
        assert(narrowed(shape, idx) =~= idx) by {
            assert forall|k: int| 0 <= k < shape.len() implies narrowed(shape, idx)[k]
                == idx[k] by {
                assert(0 <= idx[k] < shape[k]);
            }
        }
    }
}

/// A relation of a tensor and one number for each of its lines.
pub(crate) proof fn lemma_zips_lines<T>(
    rel: spec_fn(T, T, T) -> bool,
    shape: Seq<usize>,
    axis: int,
    a: Seq<T>,
    b: Seq<T>,
    out: Seq<T>,
)
    requires
        0 <= axis < shape.len(),
        zips(rel, shape, a, line_shape(shape, axis), b, out),
    ensures
        joined(shape, line_shape(shape, axis)) == shape,
        out.len() == volume(shape),
        forall|i: int|
            0 <= i < volume(shape) ==> rel(
                a[i],
                b[line_rank(shape, axis, i)],
                #[trigger] out[i],
            ),
{
    assert(joined(shape, line_shape(shape, axis)) =~= shape);
    assert forall|i: int| 0 <= i < volume(shape) implies rel(
        a[i],
        b[line_rank(shape, axis, i)],
        #[trigger] out[i],
    ) by {
        lemma_line(shape, axis, i);
    }
}

} // verus!
