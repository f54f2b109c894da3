//! A product with a matrix that has one row more, for a column of ones: its cotangents against those
//! of the product with the matrix without that row.
use vstd::prelude::*;
use vstd::arithmetic::div_mod::{lemma_div_denominator, lemma_mod_breakdown};
use crate::block_grads::alike;
use crate::block_shapes::{lemma_top, lemma_turned};
use crate::elementwise::source_rank;
use crate::error::Error;
use crate::fused::{top_of_out, top_rows, turned_product_of, turned_product_out};
use crate::guarded::cut_out;
use crate::index::{dot, fits, in_bounds, lemma_ravel, lemma_unravel, ravel, unravel, volume};
use crate::matmul::{
    batch_axes, matmul_ok, matmul_out, multiplies, multiply_add, result_shape, stack_of,
    sums_products,
};
use crate::ring::{lemma_matrix_fits, lemma_matrix_volume, lemma_plain_of, plain_of, Ring};
use crate::routes::{band, cat_parts};
use crate::scalar::{
    every, folds, is_product, is_sum, is_zero, lemma_folds_start, lemma_folds_step, Arith, Scalars,
};
use crate::shape::{joined, lemma_row_strides};
use crate::tensor::{passes, Model, Outcome};
use crate::views::{
    law_slice_reads, lemma_axes_valid, range_at, slice_fits, slice_shape, slice_start,
    slice_starts, slice_step, sliced, steps_ok, swapped_axes, transpose_out, with_axes,
};

verus! {

/// Every list of pairs has a sum of products.
proof fn lemma_sum_exists<T, A: Arith<T>>(ring: Ring<T>, pairs: Seq<(T, T)>, n: int) -> (r: T)
    requires
        ring.computes::<A>(),
        0 <= n <= pairs.len(),
    ensures
        folds(multiply_add::<T, A>(), pairs, every(), n, ring.zero, r),
    decreases n,
{
    let step = multiply_add::<T, A>();
    if n == 0 {
        lemma_folds_start(step, pairs, every(), ring.zero);
        ring.zero
    } else {
        let p = lemma_sum_exists::<T, A>(ring, pairs, n - 1);
        let xy = pairs[n - 1];
        let t = ring.times(xy.0, xy.1);
        let r = ring.plus(p, t);
        assert(is_product::<T, A>(xy.0, xy.1, t));
        assert(is_sum::<T, A>(p, t, r));
        assert(step(p, xy, r));
        lemma_folds_step(step, pairs, every(), n - 1, ring.zero, p, r);
        r
    }
}

/// Some sum of the products of the pairs.
spec fn some_sum<T, A: Arith<T>>(pairs: Seq<(T, T)>) -> T {
    choose|r: T| sums_products::<T, A>(pairs, r)
}

proof fn lemma_some_sum<T, A: Arith<T>>(ring: Ring<T>, pairs: Seq<(T, T)>)
    requires
        ring.computes::<A>(),
    ensures
        sums_products::<T, A>(pairs, some_sum::<T, A>(pairs)),
{
    let r = lemma_sum_exists::<T, A>(ring, pairs, pairs.len() as int);
    assert(is_zero::<T, A>(ring.zero));
    assert(sums_products::<T, A>(pairs, r));
}

/// Batch, row and column of an element of a stack of matrices.
proof fn lemma_place(b: usize, s: usize, n: usize, q: int)
    requires
        0 <= q < volume(seq![b, s, n]),
    ensures
        ({
            let u = unravel(seq![b, s, n], q);
            &&& u.len() == 3
            &&& 0 <= u[0] < b && 0 <= u[1] < s && 0 <= u[2] < n
            &&& q / (s * n) == u[0]
            &&& (q % (s * n)) / (n as int) == u[1]
            &&& (q % (s * n)) % (n as int) == u[2]
        }),
{
    let shape = seq![b, s, n];
    let u = unravel(shape, q);
    lemma_unravel(shape, q);
    assert(0 <= u[0] < shape[0] && 0 <= u[1] < shape[1] && 0 <= u[2] < shape[2]);
    reveal_with_fuel(unravel, 4);
    assert(shape.drop_last() =~= seq![b, s]);
    assert(shape.drop_last().drop_last() =~= seq![b]);
    let (si, ni) = (s as int, n as int);
    let f = q / ni;
    assert(u[2] == q % ni);
    assert(u[1] == f % si);
    assert(u[0] == (f / si) % (b as int));
    lemma_div_denominator(q, ni, si);
    lemma_mod_breakdown(q, ni, si);
    assert(ni * si == s * n) by (nonlinear_arith)
        requires
            ni == n,
            si == s,
    ;
    assert((ni * (f % si) + q % ni) / ni == f % si && (ni * (f % si) + q % ni) % ni == q % ni)
        by (nonlinear_arith)
        requires
            ni > 0,
            0 <= q % ni < ni,
            0 <= f % si,
    ;
    lemma_unravel(shape, q);
    assert(q / (s * n) == f / si);
    assert(0 <= f / si < b) by {
        lemma_stack_volume(b, s, n);
        assert(0 <= q / (s * n) < b) by (nonlinear_arith)
            requires
                0 <= q < b * (s * n),
                s * n > 0,
        ;
    }
    assert((f / si) % (b as int) == f / si) by (nonlinear_arith)
        requires
            0 <= f / si < b,
    ;
}

/// The size of a stack of matrices.
proof fn lemma_stack_volume(b: usize, s: usize, n: usize)
    ensures
        volume(seq![b, s, n]) == b * (s * n),
{
    let shape = seq![b, s, n];
    lemma_matrix_volume(b, s);
    assert(shape.drop_last() =~= seq![b, s]);
    assert(volume(shape) == volume(seq![b, s]) * (n as nat));
    assert((b * s) * n == b * (s * n)) by (nonlinear_arith);
}

/// The element of a matrix in row `j` and column `p`.
proof fn lemma_matrix_place(r: usize, c: usize, j: int, p: int)
    requires
        0 <= j < r,
        0 <= p < c,
    ensures
        0 <= j * c + p < volume(seq![r, c]),
        unravel(seq![r, c], j * c + p) == seq![j, p],
        in_bounds(seq![r, c], seq![j, p]),
{
    let shape = seq![r, c];
    let idx = seq![j, p];
    lemma_ravel(shape, idx);
    reveal_with_fuel(ravel, 3);
    assert(shape.drop_last() =~= seq![r]);
    assert(idx.drop_last() =~= seq![j]);
    assert(ravel(seq![r], seq![j]) == j);
    assert(ravel(shape, idx) == j * c + p);
}

/// What a matrix that has been turned shows.
proof fn lemma_turned_element<S: Scalars>(m: Model<S>, t: Model<S>, r: usize, c: usize, j: int, p: int)
    requires
        m.data is F32,
        m.shape == seq![r, c],
        m.strides.len() == 2,
        transpose_out::<S>(m, Ok(t)),
        0 <= j < r,
        0 <= p < c,
    ensures
        t.shape == seq![c, r],
        t.data is F32,
        t.f32s()[p * r + j] == m.f32s()[j * c + p],
{
    assert(t.shape =~= seq![c, r]);
    assert(t.strides =~= seq![m.strides[1], m.strides[0]]);
    lemma_matrix_place(r, c, j, p);
    lemma_matrix_place(c, r, p, j);
    reveal_with_fuel(dot, 3);
    let x = seq![j, p];
    let y = seq![p, j];
    assert(x.drop_last() =~= seq![j]);
    assert(y.drop_last() =~= seq![p]);
    assert(m.strides.drop_last().last() == m.strides[0]);
    assert(t.strides.drop_last().last() == t.strides[0]);
    assert(dot(x, m.strides) == j * m.strides[0] + p * m.strides[1]);
    assert(dot(y, t.strides) == p * m.strides[1] + j * m.strides[0]);
}

/// What the rows without the last show.
proof fn lemma_top_element<S: Scalars>(wa: Model<S>, top: Model<S>, d: usize, n: usize, j: int, p: int)
    requires
        wa.valid(),
        wa.data is F32,
        d + 1 <= isize::MAX,
        wa.shape == seq![(d + 1) as usize, n],
        top_of_out::<S>(wa, Ok(top)),
        0 <= j < d,
        0 <= p < n,
    ensures
        top.shape == seq![d, n],
        top.strides.len() == 2,
        top.data is F32,
        top.f32s()[j * n + p] == wa.f32s()[j * n + p],
{
    let rows = (d + 1) as usize;
    let ranges = top_rows(rows);
    lemma_top::<S>(wa, top, d, n);
    assert(slice_fits(wa, ranges));
    lemma_matrix_place(d, n, j, p);
    lemma_matrix_place(rows, n, j, p);
    let idx = seq![j, p];
    assert(range_at(ranges, 0) == ranges[0]);
    assert(range_at(ranges, 1) == ranges[1]);
    assert(sliced(wa, ranges).shape == top.shape);
    law_slice_reads(wa, ranges, idx);
    let whole = Seq::new(
        wa.shape.len(),
        |k: int| slice_starts(wa.shape, ranges)[k] + idx[k] * slice_step(range_at(ranges, k)),
    );
    assert(slice_start(rows as int, ranges[0]) == 0);
    assert(slice_start(n as int, ranges[1]) == 0);
    assert forall|k: int| 0 <= k < 2 implies #[trigger] whole[k] == idx[k] by {
        let step = slice_step(range_at(ranges, k));
        assert(step == 1);
        assert(idx[k] * step == idx[k]) by (nonlinear_arith)
            requires
                step == 1,
        ;
    }
    assert(whole =~= idx);
}

/// The cotangent of the widened input, column by column: what the rows without the last give, and
/// beside it what the last row gives.
spec fn wide_data<S: Scalars>(
    b: usize,
    s: usize,
    d: usize,
    n: usize,
    gua: Model<S>,
    wt: Model<S>,
    pa: Model<S>,
) -> Seq<S::F> {
    let wide = seq![b, s, (d + 1) as usize];
    Seq::new(
        volume(wide),
        |q: int|
            if unravel(wide, q)[2] < d {
                pa.f32s()[ravel(seq![b, s, d], unravel(wide, q))]
            } else {
                some_sum::<S::F, S>(
                    stack_of(gua.shape, wt.shape).pairs(gua.f32s(), wt.f32s(), q),
                )
            },
    )
}

/// A column that the rows without the last give is a column of the whole product.
proof fn lemma_wide_pairs<S: Scalars>(
    b: usize,
    s: usize,
    d: usize,
    n: usize,
    gua: Model<S>,
    wa: Model<S>,
    wt: Model<S>,
    top: Model<S>,
    tt: Model<S>,
    q: int,
)
    requires
        wa.valid(),
        wa.data is F32,
        d + 1 <= isize::MAX,
        gua.shape == seq![b, s, n],
        wa.shape == seq![(d + 1) as usize, n],
        transpose_out::<S>(wa, Ok(wt)),
        top_of_out::<S>(wa, Ok(top)),
        transpose_out::<S>(top, Ok(tt)),
        0 <= q < volume(seq![b, s, (d + 1) as usize]),
        unravel(seq![b, s, (d + 1) as usize], q)[2] < d,
        wt.shape == seq![n, (d + 1) as usize],
        tt.shape == seq![n, d],
    ensures
        ({
            let k = ravel(seq![b, s, d], unravel(seq![b, s, (d + 1) as usize], q));
            &&& 0 <= k < volume(seq![b, s, d])
            &&& stack_of(gua.shape, wt.shape).pairs(gua.f32s(), wt.f32s(), q) == stack_of(
                gua.shape,
                tt.shape,
            ).pairs(gua.f32s(), tt.f32s(), k)
        }),
{
    let e = (d + 1) as usize;
    let u = unravel(seq![b, s, e], q);
    lemma_place(b, s, e, q);
    assert(in_bounds(seq![b, s, d], u));
    lemma_ravel(seq![b, s, d], u);
    let k = ravel(seq![b, s, d], u);
    lemma_place(b, s, d, k);
    let x = stack_of(gua.shape, wt.shape);
    let y = stack_of(gua.shape, tt.shape);
    assert(batch_axes(gua.shape) =~= seq![b]);
    assert(batch_axes(wt.shape) =~= Seq::<usize>::empty());
    assert(batch_axes(tt.shape) =~= Seq::<usize>::empty());
    assert(x.batch() == y.batch());
    let j = u[2];
    let z = source_rank(Seq::<usize>::empty(), x.batch(), u[0]);
    assert(z == 0);
    assert(0 * (n * e) == 0 && 0 * (n * d) == 0);
    let left = x.pairs(gua.f32s(), wt.f32s(), q);
    let right = y.pairs(gua.f32s(), tt.f32s(), k);
    assert forall|p: int| 0 <= p < n implies #[trigger] left[p] == right[p] by {
        lemma_top_element::<S>(wa, top, d, n, j, p);
        lemma_turned_element::<S>(wa, wt, e, n, j, p);
        lemma_turned_element::<S>(top, tt, d, n, j, p);
        assert(wt.f32s()[p * e + j] == tt.f32s()[p * d + j]);
    }
    assert(left =~= right);
}

/// The turned view of a matrix.
proof fn lemma_turned_view<S: Scalars>(m: Model<S>, r: usize, c: usize) -> (t: Model<S>)
    requires
        m.valid(),
        m.shape == seq![r, c],
    ensures
        transpose_out::<S>(m, Ok(t)),
        t.shape == seq![c, r],
        t.device == m.device,
        t.dtype() == m.dtype(),
{
    let axes = swapped_axes(2);
    assert(axes =~= seq![1int, 0int]);
    assert(axes.contains(0)) by {
        assert(axes[1] == 0);
    }
    assert(axes.contains(1)) by {
        assert(axes[0] == 1);
    }
    lemma_axes_valid(m, axes);
    let t = with_axes(m, axes).detached();
    assert(t.valid()) by {
        assert forall|idx: Seq<int>| #[trigger] in_bounds(t.shape, idx) implies 0 <= t.slot(idx)
            < t.data.len() by {
            assert(in_bounds(with_axes(m, axes).shape, idx));
            assert(t.slot(idx) == with_axes(m, axes).slot(idx));
        }
    }
    assert(t.shape =~= seq![c, r]);
    t
}

/// The product with the whole matrix exists, and its leading columns are the product with the rows
/// without the last.
pub(crate) proof fn lemma_wide_product<S: Scalars>(
    ring: Ring<S::F>,
    b: usize,
    s: usize,
    d: usize,
    n: usize,
    gua: Model<S>,
    wa: Model<S>,
    top: Model<S>,
    pa: Model<S>,
) -> (wide: Model<S>)
    requires
        ring.computes::<S>(),
        wa.valid(),
        wa.data is F32,
        d + 1 <= isize::MAX,
        gua.shape == seq![b, s, n],
        gua.data is F32,
        gua.device == wa.device,
        wa.shape == seq![(d + 1) as usize, n],
        (d + 1) * n <= usize::MAX,
        fits(seq![b, s, (d + 1) as usize]),
        top_of_out::<S>(wa, Ok(top)),
        turned_product_out::<S>(gua, top, Ok(pa)),
    ensures
        turned_product_out::<S>(gua, wa, Ok(wide)),
        wide.plain(seq![b, s, (d + 1) as usize]),
        wide.valid(),
        wide.data is F32,
        pa.plain(seq![b, s, d]),
        pa.data is F32,
        pa.f32s() == pa.data->F32_0,
        forall|q: int|
            0 <= q < volume(seq![b, s, (d + 1) as usize]) && unravel(
                seq![b, s, (d + 1) as usize],
                q,
            )[2] < d ==> #[trigger] wide.data->F32_0[q] == pa.f32s()[ravel(
                seq![b, s, d],
                unravel(seq![b, s, (d + 1) as usize], q),
            )],
{
    let e = (d + 1) as usize;
    let shape = seq![b, s, e];
    let rp: Outcome<S> = Ok(pa);
    let o = choose|o: Outcome<S>| #[trigger]
        transpose_out::<S>(top, o) && passes(o, rp, turned_product_of::<S>(gua, o->Ok_0, rp));
    let tt = o->Ok_0;
    lemma_top::<S>(wa, top, d, n);
    lemma_turned::<S>(top, tt);
    let wt = lemma_turned_view::<S>(wa, e, n);
    assert(n * e <= usize::MAX) by (nonlinear_arith)
        requires
            e * n <= usize::MAX,
    ;
    lemma_matrix_fits(n, e);
    let data = wide_data::<S>(b, s, d, n, gua, wt, pa);
    let wide = plain_of::<S>(shape, data);
    lemma_plain_of::<S>(shape, data);
    assert(batch_axes(gua.shape) =~= seq![b]);
    assert(batch_axes(wt.shape) =~= Seq::<usize>::empty());
    assert(batch_axes(tt.shape) =~= Seq::<usize>::empty());
    assert(joined(seq![b], Seq::<usize>::empty()) =~= seq![b]);
    assert(seq![b].push(s).push(e) =~= shape);
    assert(seq![b].push(s).push(d) =~= seq![b, s, d]);
    assert(result_shape(gua.shape, wt.shape) =~= shape);
    assert(result_shape(gua.shape, tt.shape) =~= seq![b, s, d]);
    let st = stack_of(gua.shape, wt.shape);
    assert(pa.data is F32);
    assert(pa.f32s() == pa.data->F32_0) by {
        assert(pa.elems() == pa.data);
    }
    assert forall|q: int| 0 <= q < data.len() implies sums_products::<S::F, S>(
        st.pairs(gua.f32s(), wt.f32s(), q),
        #[trigger] data[q],
    ) by {
        if unravel(shape, q)[2] < d {
            lemma_wide_pairs::<S>(b, s, d, n, gua, wa, wt, top, tt, q);
            let k = ravel(seq![b, s, d], unravel(shape, q));
            assert(pa.data->F32_0.len() == volume(seq![b, s, d]));
            assert(sums_products::<S::F, S>(
                stack_of(gua.shape, tt.shape).pairs(gua.f32s(), tt.f32s(), k),
                pa.data->F32_0[k],
            ));
        } else {
            lemma_some_sum::<S::F, S>(ring, st.pairs(gua.f32s(), wt.f32s(), q));
        }
    }
    assert(multiplies::<S::F, S>(st, gua.f32s(), wt.f32s(), data));
    assert(matmul_ok(gua.shape, wt.shape));
    let rw: Outcome<S> = Ok(wide);
    assert(matmul_out::<S>(gua, wt, rw));
    assert(turned_product_of::<S>(gua, wt, rw));
    let ot: Outcome<S> = Ok(wt);
    assert(transpose_out::<S>(wa, ot) && passes(ot, rw, turned_product_of::<S>(gua, ot->Ok_0, rw)));
    wide
}

/// A band of the last axis of a stack of matrices.
proof fn lemma_band_cut<S: Scalars>(
    m: Model<S>,
    b: usize,
    s: usize,
    e: usize,
    start: int,
    end: int,
) -> (t: Model<S>)
    requires
        m.plain(seq![b, s, e]),
        m.valid(),
        volume(seq![b, s, e]) <= usize::MAX,
        e <= isize::MAX,
        0 <= start <= end <= e,
        start < e,
    ensures
        cut_out::<S>("cat"@, m, band(3, 2, start, end), Ok(t)),
        t == sliced(m, band(3, 2, start, end)).detached(),
        t.shape == seq![b, s, (end - start) as usize],
        forall|idx: Seq<int>| #[trigger]
            in_bounds(t.shape, idx) ==> in_bounds(m.shape, seq![idx[0], idx[1], start + idx[2]])
                && t.slot(idx) == m.slot(seq![idx[0], idx[1], start + idx[2]]),
{
    let ranges = band(3, 2, start, end);
    let starts = slice_starts(m.shape, ranges);
    assert(m.strides.len() == 3);
    assert(starts =~= seq![0int, 0, start]);
    assert(range_at(ranges, 0) == (None::<isize>, None::<isize>, None::<isize>));
    assert(range_at(ranges, 1) == (None::<isize>, None::<isize>, None::<isize>));
    assert(range_at(ranges, 2) == (Some(start as isize), Some(end as isize), Some(1isize)));
    assert(steps_ok(ranges, 3));
    let st = m.strides;
    assert(st[2] == 1 || e == 1) by {
        reveal_with_fuel(volume, 1);
        assert(m.shape.skip(3) =~= Seq::<usize>::empty());
    }
    reveal_with_fuel(dot, 4);
    let zero = seq![0int];
    let two = seq![0int, 0];
    assert(starts.take(1) =~= zero);
    assert(starts.take(2) =~= two);
    assert(starts.take(3) =~= starts);
    assert(two.drop_last() =~= zero);
    assert(zero.drop_last() =~= Seq::<int>::empty());
    assert(starts.drop_last() =~= two);
    assert(st.take(3) =~= st);
    assert(st.drop_last() =~= st.take(2));
    assert(st.take(2).drop_last() =~= st.take(1));
    assert(0 * st[0] == 0 && 0 * st[1] == 0) by (nonlinear_arith);
    assert(start * st[2] == start) by (nonlinear_arith)
        requires
            st[2] == 1 || start == 0,
    ;
    assert(dot(starts.take(1), st.take(1)) == 0);
    assert(dot(starts.take(2), st.take(2)) == 0);
    assert(dot(starts, st) == start);
    assert forall|k: int| 0 <= k < 3 implies st[k] * slice_step(#[trigger] range_at(ranges, k))
        == st[k] by {
        let step = slice_step(range_at(ranges, k));
        assert(st[k] * step == st[k]) by (nonlinear_arith)
            requires
                step == 1,
        ;
    }
    assert(m.offset == 0);
    assert(slice_fits(m, ranges)) by {
        assert forall|k: int| 0 <= k < 3 implies isize::MIN <= m.strides[k] * slice_step(
            #[trigger] range_at(ranges, k),
        ) <= isize::MAX && isize::MIN <= m.offset + dot(starts.take(k + 1), st.take(k + 1))
            <= usize::MAX by {
            assert(k == 0 || k == 1 || k == 2);
        }
    }
    let t = sliced(m, ranges).detached();
    assert(slice_shape(m.shape, ranges) =~= seq![b, s, (end - start) as usize]);
    assert forall|idx: Seq<int>| #[trigger] in_bounds(t.shape, idx) implies in_bounds(
        m.shape,
        seq![idx[0], idx[1], start + idx[2]],
    ) && t.slot(idx) == m.slot(seq![idx[0], idx[1], start + idx[2]]) by {
        assert(in_bounds(sliced(m, ranges).shape, idx));
        law_slice_reads(m, ranges, idx);
        let whole = Seq::new(
            m.shape.len(),
            |k: int| slice_starts(m.shape, ranges)[k] + idx[k] * slice_step(range_at(ranges, k)),
        );
        assert forall|k: int| 0 <= k < 3 implies #[trigger] whole[k] == seq![
            idx[0],
            idx[1],
            start + idx[2],
        ][k] by {
            let step = slice_step(range_at(ranges, k));
            assert(idx[k] * step == idx[k]) by (nonlinear_arith)
                requires
                    step == 1,
            ;
        }
        assert(whole =~= seq![idx[0], idx[1], start + idx[2]]);
        assert(t.slot(idx) == sliced(m, ranges).slot(idx));
    }
    assert(t.valid());
    t
}

/// The pieces of the column of ones put beside a tensor: the leading columns, and the last.
pub(crate) proof fn lemma_ones_pieces<S: Scalars>(
    b: usize,
    s: usize,
    d: usize,
    wide: Model<S>,
    pa: Model<S>,
) -> (r: (Model<S>, Model<S>))
    requires
        d + 1 <= isize::MAX,
        fits(seq![b, s, (d + 1) as usize]),
        wide.plain(seq![b, s, (d + 1) as usize]),
        wide.valid(),
        wide.data is F32,
        pa.plain(seq![b, s, d]),
        pa.data is F32,
        forall|q: int|
            0 <= q < volume(seq![b, s, (d + 1) as usize]) && unravel(
                seq![b, s, (d + 1) as usize],
                q,
            )[2] < d ==> #[trigger] wide.data->F32_0[q] == pa.f32s()[ravel(
                seq![b, s, d],
                unravel(seq![b, s, (d + 1) as usize], q),
            )],
    ensures
        cat_parts::<S>(
            wide,
            2,
            seq![d, 1],
            0,
            0,
            Seq::<Model<S>>::empty(),
            Ok(seq![r.0, r.1]),
        ),
        r.0.free(),
        alike::<S>(r.0, pa),
{
    let e = (d + 1) as usize;
    let shape = seq![b, s, e];
    assert(shape.take(3) =~= shape);
    let left = lemma_band_cut::<S>(wide, b, s, e, 0, d as int);
    let right = lemma_band_cut::<S>(wide, b, s, e, d as int, e as int);
    let r: Result<Seq<Model<S>>, Error> = Ok(seq![left, right]);
    let sizes = seq![d, 1usize];
    let none = Seq::<Model<S>>::empty();
    assert(none.push(left).push(right) =~= seq![left, right]);
    reveal_with_fuel(cat_parts, 4);
    assert(cat_parts::<S>(wide, 2, sizes, 2, e as int, none.push(left).push(right), r));
    let ol: Outcome<S> = Ok(left);
    let or: Outcome<S> = Ok(right);
    assert(cut_out::<S>("cat"@, wide, band(3, 2, d as int, d + 1), or));
    assert(cat_parts::<S>(wide, 2, sizes, 1, d as int, none.push(left), r));
    assert(cut_out::<S>("cat"@, wide, band(3, 2, 0, 0 + d), ol));
    assert(cat_parts::<S>(wide, 2, sizes, 0, 0, none, r));
    assert forall|i: int| 0 <= i < volume(seq![b, s, d]) implies #[trigger] left.f32s()[i]
        == pa.f32s()[i] by {
        let small = seq![b, s, d];
        lemma_place(b, s, d, i);
        lemma_unravel(small, i);
        let u = unravel(small, i);
        assert(in_bounds(left.shape, u));
        assert(seq![u[0], u[1], 0 + u[2]] =~= u);
        assert(left.slot(u) == wide.slot(u));
        lemma_row_strides(shape, u);
        lemma_ravel(shape, u);
        let q = ravel(shape, u);
        assert(unravel(shape, q) == u);
        assert(wide.slot(u) == q);
    }
    assert(left.f32s() =~= pa.f32s());
    (left, right)
}

} // verus!
