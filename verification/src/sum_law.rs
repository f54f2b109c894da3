//! The gradients of sums and means: what goes back is what the changes of the elements call for.
use vstd::prelude::*;
use crate::ad::{axes_count, mean_recorded, mean_tracked, sum_tracked, times_size};
use crate::algebra::{
    lemma_spread, lemma_total_agree, lemma_total_scaled, lemma_zero, multiple, products, scaled,
};
use crate::calculus::{
    cancels, carries, exact, lemma_cancels, lemma_carries, lemma_carries_multiple, lemma_change,
    lemma_counts, lemma_divides, Change,
};
use crate::cpu::{mul_scalar_out, scaled_f32, scaled_f64};
use crate::elementwise::{lemma_source, source_rank, unary_value};
use crate::error::Error;
use crate::guarded::stretch_out;
use crate::index::{fits, lemma_ravel, lemma_unravel, packed, ravel, unravel, volume};
use crate::lines::{lemma_blocks_total, lemma_kept_ones, lemma_kept_zeros};
use crate::nodes::{recorded, tracked_out, Node, RuleModel};
use crate::norm_law::alike;
use crate::optim_law::{lemma_times_f32, lemma_times_f64};
use crate::par::PAR_MIN;
use crate::pointwise_law::{lemma_one_f32, lemma_one_f64};
use crate::reduce::{
    all_marked, asked_axes, axes_product, contributes, is_share, kept_index, kept_rank, kept_shape,
    lemma_kept_all, lemma_kept_bounds, lemma_kept_concat, marked, mean_of_sum, mean_out, sum_out,
    sum_value,
};
use crate::ring::{group_sums, grouped, law_sums_regroup, lemma_laws, lemma_sums_total, Ring};
use crate::rms_law::{changes, lemma_multiple_rests, lemma_total_change};
use crate::rules::{
    mean_parts, mean_scaled_parts, mean_shares, mean_spread, mean_zeros, regrown_out, sum_parts,
    unsqueeze_reduced_out,
};
use crate::scalar::{every, folds, is_one, is_product, is_quotient, is_zero, runs, Arith, Scalars};
use crate::shape::axis_at;
use crate::tape::Backward;
use crate::tensor::{gives, passes, Model, Outcome, TensorModel};
use crate::views::{broadcasted, law_unsqueeze_reads, narrowed, unsqueeze_out, unsqueezed};

verus! {

/// Axes kept as ones do not change where an element goes.
proof fn lemma_kept_either(shape: Seq<usize>, red: Seq<bool>, idx: Seq<int>)
    requires
        red.len() == shape.len(),
        idx.len() == shape.len(),
    ensures
        volume(kept_shape(shape, red, true)) == volume(kept_shape(shape, red, false)),
        ravel(kept_shape(shape, red, true), kept_index(idx, red, true)) == ravel(
            kept_shape(shape, red, false),
            kept_index(idx, red, false),
        ),
    decreases shape.len(),
{
    if shape.len() > 0 {
        let (s, m, x) = (shape.drop_last(), red.drop_last(), idx.drop_last());
        lemma_kept_either(s, m, x);
        let a = kept_shape(s, m, true);
        let b = kept_shape(s, m, false);
        let i = kept_index(x, m, true);
        let j = kept_index(x, m, false);
        if red.last() {
            assert(a.push(1).drop_last() =~= a);
            assert(i.push(0).drop_last() =~= i);
        } else {
            assert(a.push(shape.last()).drop_last() =~= a);
            assert(b.push(shape.last()).drop_last() =~= b);
            assert(i.push(idx.last()).drop_last() =~= i);
            assert(j.push(idx.last()).drop_last() =~= j);
        }
    }
}

/// An axis of size one adds a zero to every position.
proof fn lemma_unravel_insert(shape: Seq<usize>, ax: int, i: int)
    requires
        0 <= ax <= shape.len(),
    ensures
        volume(shape.insert(ax, 1)) == volume(shape),
        unravel(shape.insert(ax, 1), i) == unravel(shape, i).insert(ax, 0),
        unravel(shape, i).len() == shape.len(),
    decreases shape.len(),
{
    let wide = shape.insert(ax, 1);
    lemma_unravel_len(shape, i);
    if ax == shape.len() {
        assert(wide.drop_last() =~= shape);
        assert(i / 1 == i && i % 1 == 0);
        assert(unravel(wide, i) =~= unravel(shape, i).insert(ax, 0));
    } else {
        let front = shape.drop_last();
        let d = shape.last() as int;
        assert(wide.drop_last() =~= front.insert(ax, 1));
        assert(wide.last() == shape.last());
        lemma_unravel_insert(front, ax, i / d);
        assert(unravel(wide, i) =~= unravel(shape, i).insert(ax, 0));
    }
}

proof fn lemma_unravel_len(shape: Seq<usize>, i: int)
    ensures
        unravel(shape, i).len() == shape.len(),
    decreases shape.len(),
{
    if shape.len() > 0 {
        lemma_unravel_len(shape.drop_last(), i / (shape.last() as int));
    }
}

/// A new axis of size one leaves the elements as they are.
pub(crate) proof fn lemma_unsqueezed_elems<F, D, T>(m: TensorModel<F, D>, ax: int, data: Seq<T>)
    requires
        m.valid(),
        0 <= ax <= m.shape.len(),
    ensures
        packed(data, m.offset, unsqueezed(m, ax).shape, unsqueezed(m, ax).strides) == packed(
            data,
            m.offset,
            m.shape,
            m.strides,
        ),
{
    let wide = m.shape.insert(ax, 1);
    let u = unsqueezed(m, ax);
    lemma_unravel_insert(m.shape, ax, 0);
    let a = packed(data, m.offset, u.shape, u.strides);
    let b = packed(data, m.offset, m.shape, m.strides);
    assert forall|i: int| 0 <= i < volume(m.shape) implies a[i] == b[i] by {
        lemma_unravel_insert(m.shape, ax, i);
        lemma_unravel(wide, i);
        let idx = unravel(wide, i);
        law_unsqueeze_reads(m, ax, idx);
        assert(idx.remove(ax) =~= unravel(m.shape, i));
    }
    assert(a =~= b);
}

/// Putting back the axes that a reduction took away.
proof fn lemma_regrown<S: Scalars>(
    m: Model<S>,
    shape: Seq<usize>,
    marks: Seq<bool>,
    k: int,
    o: Model<S>,
)
    requires
        m.valid(),
        marks.len() == shape.len() <= isize::MAX,
        0 <= k <= marks.len(),
        m.shape == kept_shape(shape.take(k), marks.take(k), true) + kept_shape(
            shape.skip(k),
            marks.skip(k),
            false,
        ),
        regrown_out::<S>(m, marks, k, Ok(o)),
    ensures
        o.valid(),
        o.shape == kept_shape(shape, marks, true),
        o.data == m.data,
        o.f32s() == m.f32s(),
        o.f64s() == m.f64s(),
    decreases marks.len() - k,
{
    let a = kept_shape(shape.take(k), marks.take(k), true);
    if k >= marks.len() {
        assert(shape.take(k) =~= shape);
        assert(marks.take(k) =~= marks);
        assert(m.shape =~= a);
    } else {
        let (s1, m1) = (shape.take(k + 1), marks.take(k + 1));
        assert(s1.drop_last() =~= shape.take(k));
        assert(m1.drop_last() =~= marks.take(k));
        let b = kept_shape(shape.skip(k + 1), marks.skip(k + 1), false);
        let (s0, m0) = (seq![shape[k]], seq![marks[k]]);
        assert(shape.skip(k) =~= s0 + shape.skip(k + 1));
        assert(marks.skip(k) =~= m0 + marks.skip(k + 1));
        lemma_kept_concat(s0, m0, shape.skip(k + 1), marks.skip(k + 1), false);
        reveal_with_fuel(kept_shape, 2);
        assert(s0.drop_last().len() == 0);
        assert(m0.last() == marks[k] && s0.last() == shape[k]);
        assert(a.len() == k) by {
            lemma_kept_ones(shape.take(k), marks.take(k));
        }
        if !marks[k] {
            assert(kept_shape(s0, m0, false) =~= seq![shape[k]]);
            assert(a + (seq![shape[k]] + b) =~= a.push(shape[k]) + b);
            lemma_regrown::<S>(m, shape, marks, k + 1, o);
        } else {
            let r: Outcome<S> = Ok(o);
            let u = choose|u: Outcome<S>| #[trigger]
                unsqueeze_out::<S>(m, (k as isize) as int, u) && passes(
                    u,
                    r,
                    regrown_out::<S>(u->Ok_0, marks, k + 1, r),
                );
            assert(kept_shape(s0, m0, false) =~= Seq::<usize>::empty());
            assert(m.shape =~= a + b);
            assert(axis_at(k, (m.shape.len() + 1) as int) == k);
            assert(u->Ok_0 == unsqueezed(m, k));
            assert(m.shape.insert(k, 1) =~= a.push(1) + b);
            lemma_unsqueezed_elems(m, k, m.data->F32_0);
            lemma_unsqueezed_elems(m, k, m.data->F64_0);
            lemma_regrown::<S>(u->Ok_0, shape, marks, k + 1, o);
        }
    }
}

/// Reading the kept axes of a position.
pub(crate) proof fn lemma_kept_source(shape: Seq<usize>, red: Seq<bool>, i: int)
    requires
        red.len() == shape.len(),
        0 <= i < volume(shape),
    ensures
        source_rank(kept_shape(shape, red, true), shape, i) == kept_rank(shape, red, true, i),
        kept_rank(shape, red, true, i) == kept_rank(shape, red, false, i),
        0 <= kept_rank(shape, red, false, i) < volume(kept_shape(shape, red, false)),
        0 <= kept_rank(shape, red, true, i) < volume(kept_shape(shape, red, true)),
{
    lemma_unravel(shape, i);
    let idx = unravel(shape, i);
    lemma_kept_ones(shape, red);
    lemma_kept_zeros(idx, red);
    let small = kept_shape(shape, red, true);
    assert(narrowed(small, idx) =~= kept_index(idx, red, true)) by {
        assert forall|k: int| 0 <= k < shape.len() implies narrowed(small, idx)[k] == kept_index(
            idx,
            red,
            true,
        )[k] by {
            assert(0 <= idx[k] < shape[k]);
        }
    }
    lemma_kept_either(shape, red, idx);
    lemma_kept_bounds(shape, red, true, idx);
    lemma_kept_bounds(shape, red, false, idx);
    lemma_ravel(kept_shape(shape, red, true), kept_index(idx, red, true));
    lemma_ravel(kept_shape(shape, red, false), kept_index(idx, red, false));
}

/// Where every element goes.
pub open spec fn goes_to(shape: Seq<usize>, red: Seq<bool>, keep: bool) -> spec_fn(int) -> int {
    |i: int| kept_rank(shape, red, keep, i)
}

/// The balance of a reduction: with each element's piece the cotangent of where it goes, and each
/// value the sum of what goes there, both sides add up alike.
proof fn lemma_reduced_balance<T>(
    r: Ring<T>,
    d: Change<T>,
    to: spec_fn(int) -> int,
    xs: Seq<T>,
    ys: Seq<T>,
    gs: Seq<T>,
    ps: Seq<T>,
)
    requires
        r.lawful(),
        d.adds(r),
        d.multiplies(r),
        ps.len() == xs.len(),
        gs.len() == ys.len(),
        forall|i: int| 0 <= i < xs.len() ==> 0 <= #[trigger] to(i) < ys.len(),
        forall|i: int| 0 <= i < xs.len() ==> #[trigger] ps[i] == gs[to(i)],
        forall|o: int|
            0 <= o < ys.len() ==> #[trigger] ys[o] == r.total(
                xs,
                grouped(to, o),
                xs.len() as int,
            ),
    ensures
        r.total(products(r, ps, changes(d, xs)), every(), xs.len() as int) == r.total(
            products(r, gs, changes(d, ys)),
            every(),
            ys.len() as int,
        ),
{
    let n = xs.len() as int;
    let ds = changes(d, xs);
    let left = products(r, ps, ds);
    law_sums_regroup(r, left, to, ys.len(), every(), every(), n);
    let groups = group_sums(r, left, to, ys.len(), n);
    let right = products(r, gs, changes(d, ys));
    assert forall|o: int| 0 <= o < ys.len() implies groups[o] == right[o] by {
        let pick = grouped(to, o);
        lemma_total_change(r, d, xs, pick, n);
        let s = scaled(r, gs[o], ds);
        assert forall|i: int| 0 <= i < n && #[trigger] pick(i) implies left[i] == s[i] by {
            assert(ps[i] == gs[to(i)]);
        }
        lemma_total_agree(r, left, s, pick, pick, n);
        lemma_total_scaled(r, gs[o], ds, pick, n);
    }
    assert(groups =~= right);
}

/// So many times so many.
proof fn lemma_multiple_product<T>(r: Ring<T>, a: nat, b: nat)
    requires
        r.lawful(),
    ensures
        multiple(r, a * b) == r.times(multiple(r, a), multiple(r, b)),
    decreases b,
{
    let x = multiple(r, a);
    lemma_zero(r, x);
    if b > 0 {
        lemma_multiple_product(r, a, (b - 1) as nat);
        lemma_spread(r, x, multiple(r, (b - 1) as nat), r.one);
        lemma_multiple_sum(r, a * ((b - 1) as nat), a);
        assert(a * b == a * ((b - 1) as nat) + a) by (nonlinear_arith)
            requires
                b > 0,
        ;
    } else {
        assert(a * b == 0) by (nonlinear_arith)
            requires
                b == 0,
        ;
    }
}

/// So many and so many more.
proof fn lemma_multiple_sum<T>(r: Ring<T>, a: nat, b: nat)
    requires
        r.lawful(),
    ensures
        multiple(r, a + b) == r.plus(multiple(r, a), multiple(r, b)),
    decreases b,
{
    lemma_zero(r, multiple(r, a));
    if b > 0 {
        lemma_multiple_sum(r, a, (b - 1) as nat);
        lemma_laws(r, multiple(r, a), multiple(r, (b - 1) as nat), r.one);
    }
}

/// The number of elements of the axes, counted in the arithmetic.
proof fn lemma_counted<S: Scalars>(
    q: Ring<S::D>,
    shape: Seq<usize>,
    axes: Seq<usize>,
    acc: Seq<S::D>,
    one: S::D,
    p: int,
)
    requires
        exact::<S::D, S>(q),
        one == q.one,
        0 <= p <= axes.len(),
        runs(times_size::<S>(shape), axes, every(), axes.len() as int, one, acc),
        axes_product(shape, axes.take(p)) < usize::MAX,
        forall|k: int| 0 <= k < axes.len() ==> shape[#[trigger] axes[k] as int] > 0,
    ensures
        acc[p] == multiple(q, axes_product(shape, axes.take(p)) as nat),
        axes_product(shape, axes.take(p)) > 0,
    decreases p,
{
    reveal_with_fuel(multiple, 2);
    lemma_zero(q, q.one);
    if p > 0 {
        let t = axes.take(p);
        assert(t.drop_last() =~= axes.take(p - 1));
        let before = axes_product(shape, axes.take(p - 1));
        let size = shape[axes[p - 1] as int];
        lemma_product_grows(shape, axes.take(p - 1));
        assert(before < usize::MAX) by (nonlinear_arith)
            requires
                before * size < usize::MAX,
                before >= 0,
                size > 0,
        ;
        lemma_counted::<S>(q, shape, axes, acc, one, p - 1);
        let step = times_size::<S>(shape);
        assert(every()(p - 1));
        assert(step(acc[p - 1], axes[p - 1], acc[p - 1 + 1]));
        let c = choose|c: S::D| #[trigger]
            call_ensures(<S as Arith<S::D>>::count, (size,), c) && is_product::<S::D, S>(
                acc[p - 1],
                c,
                acc[p],
            );
        lemma_counts::<S::D, S>(q, size, c);
        lemma_multiple_product(q, before as nat, size as nat);
        assert(before * size > 0) by (nonlinear_arith)
            requires
                before > 0,
                size > 0,
        ;
    }
}

/// A count is not negative.
proof fn lemma_product_grows(shape: Seq<usize>, axes: Seq<usize>)
    ensures
        0 <= axes_product(shape, axes) <= usize::MAX,
    decreases axes.len(),
{
    if axes.len() > 0 {
        lemma_product_grows(shape, axes.drop_last());
        let b = axes_product(shape, axes.drop_last());
        let s = shape[axes.last() as int] as int;
        assert(b * s >= 0) by (nonlinear_arith)
            requires
                b >= 0,
                s >= 0,
        ;
    }
}

/// The factor that means go back with is the factor that they are made with.
proof fn lemma_share<S: Scalars>(
    q: Ring<S::D>,
    shape: Seq<usize>,
    axes: Seq<usize>,
    n: S::D,
    k: S::D,
    one: S::D,
    l: S::D,
)
    requires
        exact::<S::D, S>(q),
        axes_product(shape, axes) < usize::MAX,
        forall|k: int| 0 <= k < axes.len() ==> shape[#[trigger] axes[k] as int] > 0,
        multiple(q, axes_product(shape, axes) as nat) != q.zero,
        axes_count::<S>(shape, axes, n),
        is_share::<S::D, S>(axes_product(shape, axes) as usize, k),
        one == q.one,
        n != q.zero ==> is_quotient::<S::D, S>(one, n, l),
    ensures
        n == multiple(q, axes_product(shape, axes) as nat),
        q.times(k, n) == q.one,
        l == k,
{
    let first = choose|first: S::D| #[trigger]
        is_one::<S::D, S>(first) && folds(
            times_size::<S>(shape),
            axes,
            every(),
            axes.len() as int,
            first,
            n,
        );
    let acc = choose|acc: Seq<S::D>| #[trigger]
        runs(times_size::<S>(shape), axes, every(), axes.len() as int, first, acc) && acc[axes.len()
            as int] == n;
    assert(axes.take(axes.len() as int) =~= axes);
    lemma_product_grows(shape, axes);
    lemma_counted::<S>(q, shape, axes, acc, first, axes.len() as int);
    let c = axes_product(shape, axes) as usize;
    let (u, count) = choose|u: S::D, count: S::D| #[trigger]
        is_one::<S::D, S>(u) && #[trigger] call_ensures(
            <S as Arith<S::D>>::count,
            (c,),
            count,
        ) && is_quotient::<S::D, S>(u, count, k);
    lemma_counts::<S::D, S>(q, c, count);
    lemma_divides::<S::D, S>(q, u, count, k);
    lemma_divides::<S::D, S>(q, one, n, l);
    lemma_cancels(q, l, k, n);
}

/// A fraction of a whole number does not change.
proof fn lemma_share_rests<T>(r: Ring<T>, d: Change<T>, k: T, n: nat)
    requires
        r.lawful(),
        cancels(r),
        d.adds(r),
        d.multiplies(r),
        multiple(r, n) != r.zero,
        r.times(k, multiple(r, n)) == r.one,
    ensures
        d.at(k) == r.zero,
{
    let c = multiple(r, n);
    lemma_multiple_rests(r, d, n);
    lemma_change(r, d, k, c);
    lemma_zero(r, k);
    lemma_zero(r, r.times(d.at(k), c));
    lemma_zero(r, c);
    lemma_cancels(r, d.at(k), r.zero, c);
}

/// The balance of a mean, from that of the sum.
proof fn lemma_mean_balance<T>(
    r: Ring<T>,
    d: Change<T>,
    k: T,
    ss: Seq<T>,
    ys: Seq<T>,
    gs: Seq<T>,
    us: Seq<T>,
    total: T,
)
    requires
        r.lawful(),
        d.adds(r),
        d.multiplies(r),
        d.at(k) == r.zero,
        ys.len() == ss.len(),
        gs.len() == ss.len(),
        us.len() == ss.len(),
        forall|o: int| 0 <= o < ss.len() ==> #[trigger] ys[o] == r.times(ss[o], k),
        forall|o: int| 0 <= o < ss.len() ==> #[trigger] us[o] == r.times(gs[o], k),
        total == r.total(products(r, us, changes(d, ss)), every(), ss.len() as int),
    ensures
        total == r.total(products(r, gs, changes(d, ys)), every(), ss.len() as int),
{
    let a = products(r, us, changes(d, ss));
    let b = products(r, gs, changes(d, ys));
    assert forall|o: int| 0 <= o < ss.len() implies a[o] == b[o] by {
        lemma_change(r, d, ss[o], k);
        let e = d.at(ss[o]);
        lemma_zero(r, ss[o]);
        lemma_zero(r, r.times(e, k));
        lemma_laws(r, gs[o], k, e);
        lemma_laws(r, k, e, e);
    }
    assert(a =~= b);
}

proof fn lemma_counted_positive(shape: Seq<usize>, axes: Seq<usize>)
    requires
        forall|k: int| 0 <= k < axes.len() ==> shape[#[trigger] axes[k] as int] > 0,
    ensures
        axes_product(shape, axes) > 0,
    decreases axes.len(),
{
    if axes.len() > 0 {
        let front = axes.drop_last();
        assert forall|k: int| 0 <= k < front.len() implies shape[#[trigger] front[k] as int]
            > 0 by {
            assert(front[k] == axes[k]);
        }
        lemma_counted_positive(shape, front);
        let b = axes_product(shape, front);
        let s = shape[axes.last() as int] as int;
        assert(axes[axes.len() - 1] == axes.last());
        assert(b * s > 0) by (nonlinear_arith)
            requires
                b > 0,
                s > 0,
        ;
    }
}

/// The number that a mean records is that of its elements.
proof fn lemma_number<S: Scalars>(q: Ring<S::D>, shape: Seq<usize>, axes: Seq<usize>, n: S::D)
    requires
        exact::<S::D, S>(q),
        axes_product(shape, axes) < usize::MAX,
        forall|k: int| 0 <= k < axes.len() ==> shape[#[trigger] axes[k] as int] > 0,
        axes_count::<S>(shape, axes, n),
    ensures
        n == multiple(q, axes_product(shape, axes) as nat),
{
    let first = choose|first: S::D| #[trigger]
        is_one::<S::D, S>(first) && folds(
            times_size::<S>(shape),
            axes,
            every(),
            axes.len() as int,
            first,
            n,
        );
    let acc = choose|acc: Seq<S::D>| #[trigger]
        runs(times_size::<S>(shape), axes, every(), axes.len() as int, first, acc) && acc[axes.len()
            as int] == n;
    assert(axes.take(axes.len() as int) =~= axes);
    lemma_counted::<S>(q, shape, axes, acc, first, axes.len() as int);
}

/// The elements of a sum over any axes.
pub(crate) proof fn lemma_sum_groups_f32<S: Scalars>(
    r: Ring<S::F>,
    x: Model<S>,
    red: Seq<bool>,
    keep: bool,
    t: Model<S>,
)
    requires
        r.computes::<S>(),
        x.data is F32,
        red.len() == x.shape.len(),
        sum_value::<S>(x, red, keep, t),
    ensures
        t.shape == kept_shape(x.shape, red, keep),
        t.data is F32,
        t.f32s().len() == volume(kept_shape(x.shape, red, keep)),
        forall|o: int|
            0 <= o < t.f32s().len() ==> #[trigger] t.f32s()[o] == r.total(
                x.f32s(),
                grouped(goes_to(x.shape, red, keep), o),
                volume(x.shape) as int,
            ),
{
    assert(t.elems() == t.data);
    let n = volume(x.shape) as int;
    let xs = x.f32s();
    let w = t.data->F32_0;
    if all_marked(red) && x.contiguous() && fits(x.shape) && xs.len() >= PAR_MIN {
        lemma_blocks_total::<S::F, S>(r, xs, w[0]);
        let to = grouped(goes_to(x.shape, red, keep), 0);
        assert forall|i: int| 0 <= i < n implies every()(i) == #[trigger] to(i) by {
            lemma_unravel(x.shape, i);
            lemma_kept_all(x.shape, red, keep, unravel(x.shape, i));
        }
        lemma_total_agree(r, xs, xs, every(), to, n);
        assert(volume(kept_shape(x.shape, red, keep)) == 1) by {
            lemma_unravel(x.shape, 0);
            lemma_kept_all(x.shape, red, keep, unravel(x.shape, 0));
        }
    } else {
        assert forall|o: int| 0 <= o < w.len() implies #[trigger] w[o] == r.total(
            xs,
            grouped(goes_to(x.shape, red, keep), o),
            n,
        ) by {
            let pick = contributes(x.shape, red, keep, o);
            lemma_sums_total::<S::F, S>(r, xs, pick, w[o]);
            let to = grouped(goes_to(x.shape, red, keep), o);
            assert forall|i: int| 0 <= i < n implies #[trigger] pick(i) == to(i) by {
            }
            lemma_total_agree(r, xs, xs, pick, to, n);
        }
    }
}

/// The piece of a reduction: the cotangent of where each element goes.
proof fn lemma_spread_back_f32<S: Scalars>(
    op: Seq<char>,
    gy: Model<S>,
    shape: Seq<usize>,
    marks: Seq<bool>,
    keep: bool,
    p: Model<S>,
)
    requires
        gy.valid(),
        gy.data is F32,
        marks.len() == shape.len() <= isize::MAX,
        gy.shape == kept_shape(shape, marks, keep),
        unsqueeze_reduced_out::<S>(op, gy, shape, marks, keep, Ok(p)),
    ensures
        p.shape == shape,
        p.data is F32,
        forall|i: int|
            0 <= i < volume(shape) ==> #[trigger] p.f32s()[i] == gy.f32s()[kept_rank(
                shape,
                marks,
                keep,
                i,
            )],
{
    let res: Outcome<S> = Ok(p);
    let g = if keep {
        gy
    } else {
        let o = choose|o: Outcome<S>| #[trigger]
            regrown_out::<S>(gy, marks, 0, o) && passes(
                o,
                res,
                stretch_out::<S>(op, o->Ok_0, shape, res),
            );
        assert(shape.skip(0) =~= shape);
        assert(marks.skip(0) =~= marks);
        assert(kept_shape(shape.take(0), marks.take(0), true) =~= Seq::<usize>::empty());
        assert(gy.shape =~= kept_shape(shape.take(0), marks.take(0), true) + kept_shape(
            shape.skip(0),
            marks.skip(0),
            false,
        ));
        lemma_regrown::<S>(gy, shape, marks, 0, o->Ok_0);
        o->Ok_0
    };
    let small = kept_shape(shape, marks, true);
    assert(g.shape == small);
    assert(p == broadcasted(g, shape));
    assert forall|i: int| 0 <= i < volume(shape) implies #[trigger] p.f32s()[i]
        == gy.f32s()[kept_rank(shape, marks, keep, i)] by {
        lemma_kept_source(shape, marks, i);
        lemma_source(g, g.data->F32_0, shape, i);
    }
}

/// The gradient of a sum over any axes: the pieces, each times the change of its element, add up to
/// the cotangents times the changes of the sums. On 32-bit floats.
pub proof fn law_sum_gradient_f32<S: Scalars>(
    r: Ring<S::F>,
    d: Change<S::F>,
    before: Seq<Node<S>>,
    after: Seq<Node<S>>,
    x: Model<S>,
    axes: Option<Seq<isize>>,
    keepdims: bool,
    y: Model<S>,
    gy: Model<S>,
    parts: Seq<Model<S>>,
)
    requires
        r.computes::<S>(),
        d.adds(r),
        d.multiplies(r),
        x.data is F32,
        x.in_graph,
        x.shape.len() <= isize::MAX,
        gy.valid(),
        gy.data is F32,
        gy.shape == y.shape,
        sum_tracked::<S>(before, after, x, axes, keepdims, Ok(y)),
        after.len() > 0,
        after.last().vjp(gy, Ok(parts)),
    ensures
        after.len() == before.len() + 1,
        after.last().sources() == seq![x],
        parts.len() == 1,
        parts[0].shape == x.shape,
        r.total(
            products(r, parts[0].f32s(), changes(d, x.f32s())),
            every(),
            volume(x.shape) as int,
        ) == r.total(
            products(r, gy.f32s(), changes(d, y.f32s())),
            every(),
            volume(y.shape) as int,
        ),
{
    let res: Outcome<S> = Ok(y);
    let rp: Result<Seq<Model<S>>, Error> = Ok(parts);
    let shape = x.shape;
    let marks = marked(asked_axes(axes, shape.len()), shape.len());
    let v = choose|v: Outcome<S>| #[trigger]
        sum_out::<S>(x, axes, keepdims, v) && tracked_out::<S>(
            before,
            after,
            x.in_graph,
            v,
            seq![x],
            RuleModel::Sum { shape, marks, keep: keepdims },
            res,
        );
    let t = v->Ok_0;
    assert(alike::<S>(y, t));
    lemma_sum_groups_f32::<S>(r, x, marks, keepdims, t);
    reveal(sum_parts);
    let o = choose|o: Outcome<S>| #[trigger]
        unsqueeze_reduced_out::<S>("sum"@, gy, shape, marks, keepdims, o) && passes(
            o,
            rp,
            gives(rp, seq![o->Ok_0]),
        );
    assert(parts == seq![o->Ok_0]);
    lemma_spread_back_f32::<S>("sum"@, gy, shape, marks, keepdims, o->Ok_0);
    let to = goes_to(shape, marks, keepdims);
    assert forall|i: int| 0 <= i < volume(shape) implies 0 <= #[trigger] to(i) < volume(
        y.shape,
    ) by {
        lemma_kept_source(shape, marks, i);
    }
    lemma_reduced_balance(r, d, to, x.f32s(), y.f32s(), gy.f32s(), parts[0].f32s());
}

/// The gradient of a mean over any axes: the pieces, each times the change of its element, add up
/// to the cotangents times the changes of the means. On 32-bit floats.
pub proof fn law_mean_gradient_f32<S: Scalars>(
    r: Ring<S::F>,
    q: Ring<S::D>,
    to: spec_fn(S::D) -> S::F,
    d: Change<S::F>,
    before: Seq<Node<S>>,
    after: Seq<Node<S>>,
    x: Model<S>,
    axes: Option<Seq<isize>>,
    keepdims: bool,
    y: Model<S>,
    gy: Model<S>,
    parts: Seq<Model<S>>,
)
    requires
        exact::<S::F, S>(r),
        exact::<S::D, S>(q),
        carries::<S>(r, q, to),
        d.adds(r),
        d.multiplies(r),
        x.data is F32,
        x.in_graph,
        x.shape.len() <= isize::MAX,
        gy.data is F32,
        gy.shape == y.shape,
        mean_tracked::<S>(before, after, x, axes, keepdims, Ok(y)),
        after.len() > 0,
        after.last().vjp(gy, Ok(parts)),
        axes_product(x.shape, asked_axes(axes, x.shape.len())) < usize::MAX,
        forall|k: int|
            0 <= k < asked_axes(axes, x.shape.len()).len()
                ==> x.shape[#[trigger] asked_axes(axes, x.shape.len())[k] as int] > 0,
        multiple(q, axes_product(x.shape, asked_axes(axes, x.shape.len())) as nat) != q.zero,
        multiple(r, axes_product(x.shape, asked_axes(axes, x.shape.len())) as nat) != r.zero,
        forall|u: S::D, v: S::D, b: bool| #[trigger]
            call_ensures(<S as Arith<S::D>>::same, (u, v), b) ==> b == (u == v),
    ensures
        after.len() == before.len() + 1,
        after.last().sources() == seq![x],
        parts.len() == 1,
        parts[0].shape == x.shape,
        r.total(
            products(r, parts[0].f32s(), changes(d, x.f32s())),
            every(),
            volume(x.shape) as int,
        ) == r.total(
            products(r, gy.f32s(), changes(d, y.f32s())),
            every(),
            volume(y.shape) as int,
        ),
{
    let res: Outcome<S> = Ok(y);
    let rp: Result<Seq<Model<S>>, Error> = Ok(parts);
    let shape = x.shape;
    let ax = asked_axes(axes, shape.len());
    let marks = marked(ax, shape.len());
    let count = axes_product(shape, ax) as usize;
    lemma_product_grows(shape, ax);
    let v = choose|v: Outcome<S>| #[trigger]
        mean_out::<S>(x, axes, keepdims, v) && v is Ok && mean_recorded::<S>(
            before,
            after,
            x,
            axes,
            keepdims,
            v->Ok_0,
            res,
        );
    let t = v->Ok_0;
    assert(alike::<S>(y, t));
    let n = choose|n: S::D| #[trigger]
        axes_count::<S>(shape, ax, n) && recorded::<S>(
            before,
            after,
            seq![x],
            RuleModel::Mean { shape, marks, keep: keepdims, n },
        );
    reveal(mean_parts);
    let (z, none) = choose|z: S::D, none: bool| #[trigger]
        is_zero::<S::D, S>(z) && #[trigger] call_ensures(
            <S as Arith<S::D>>::same,
            (n, z),
            none,
        ) && if none {
            mean_zeros::<S>(shape, gy.dtype(), rp)
        } else {
            mean_shares::<S>(shape, marks, keepdims, n, gy, rp)
        };
    let s = choose|s: Model<S>| #[trigger]
        sum_value::<S>(x, marks, keepdims, s) && mean_of_sum::<S>(s, count, t);
    lemma_counted_positive(shape, ax);
    let k = choose|k: S::D| #[trigger]
        is_share::<S::D, S>(count, k) && unary_value::<S>(
            s,
            scaled_f32::<S>(k),
            scaled_f64::<S>(k),
            t,
        );
    assert(n != q.zero) by {
        lemma_number::<S>(q, shape, ax, n);
    }
    assert(mean_shares::<S>(shape, marks, keepdims, n, gy, rp));
    let (one, l) = choose|one: S::D, l: S::D| #[trigger]
        is_one::<S::D, S>(one) && #[trigger] is_quotient::<S::D, S>(one, n, l)
            && mean_scaled_parts::<S>(shape, marks, keepdims, l, gy, rp);
    lemma_share::<S>(q, shape, ax, n, k, one, l);
    reveal(mean_scaled_parts);
    let g = choose|o: Outcome<S>| #[trigger]
        mul_scalar_out::<S>(gy, l, o) && passes(
            o,
            rp,
            mean_spread::<S>(shape, marks, keepdims, o->Ok_0, rp),
        );
    let gk = g->Ok_0;
    let o = choose|o: Outcome<S>| #[trigger]
        unsqueeze_reduced_out::<S>("mean"@, gk, shape, marks, keepdims, o) && passes(
            o,
            rp,
            gives(rp, seq![o->Ok_0]),
        );
    assert(parts == seq![o->Ok_0]);
    lemma_carries::<S>(r, q, to, k, n);
    lemma_carries_multiple::<S>(r, q, to, count as nat);
    let f = to(k);
    lemma_share_rests(r, d, f, count as nat);
    lemma_sum_groups_f32::<S>(r, x, marks, keepdims, s);
    lemma_times_f32::<S>(r, q, to, gy, l, gk);
    lemma_one_f32::<S>(s, scaled_f32::<S>(k), scaled_f64::<S>(k), t);
    assert forall|i: int| 0 <= i < s.f32s().len() implies #[trigger] y.f32s()[i] == r.times(
        s.f32s()[i],
        f,
    ) by {
        assert(scaled_f32::<S>(k)(s.f32s()[i], t.f32s()[i]));
        assert(is_product::<S::F, S>(s.f32s()[i], f, t.f32s()[i]));
    }
    lemma_spread_back_f32::<S>("mean"@, gk, shape, marks, keepdims, o->Ok_0);
    let to = goes_to(shape, marks, keepdims);
    assert forall|i: int| 0 <= i < volume(shape) implies 0 <= #[trigger] to(i) < volume(
        y.shape,
    ) by {
        lemma_kept_source(shape, marks, i);
    }
    lemma_reduced_balance(r, d, to, x.f32s(), s.f32s(), gk.f32s(), parts[0].f32s());
    let total = r.total(
        products(r, gk.f32s(), changes(d, s.f32s())),
        every(),
        s.f32s().len() as int,
    );
    lemma_mean_balance(
        r,
        d,
        f,
        s.f32s(),
        y.f32s(),
        gy.f32s(),
        gk.f32s(),
        total,
    );
}

/// The elements of a sum over any axes.
pub(crate) proof fn lemma_sum_groups_f64<S: Scalars>(
    r: Ring<S::D>,
    x: Model<S>,
    red: Seq<bool>,
    keep: bool,
    t: Model<S>,
)
    requires
        r.computes::<S>(),
        x.data is F64,
        red.len() == x.shape.len(),
        sum_value::<S>(x, red, keep, t),
    ensures
        t.shape == kept_shape(x.shape, red, keep),
        t.data is F64,
        t.f64s().len() == volume(kept_shape(x.shape, red, keep)),
        forall|o: int|
            0 <= o < t.f64s().len() ==> #[trigger] t.f64s()[o] == r.total(
                x.f64s(),
                grouped(goes_to(x.shape, red, keep), o),
                volume(x.shape) as int,
            ),
{
    assert(t.elems() == t.data);
    let n = volume(x.shape) as int;
    let xs = x.f64s();
    let w = t.data->F64_0;
    {
        assert forall|o: int| 0 <= o < w.len() implies #[trigger] w[o] == r.total(
            xs,
            grouped(goes_to(x.shape, red, keep), o),
            n,
        ) by {
            let pick = contributes(x.shape, red, keep, o);
            lemma_sums_total::<S::D, S>(r, xs, pick, w[o]);
            let to = grouped(goes_to(x.shape, red, keep), o);
            assert forall|i: int| 0 <= i < n implies #[trigger] pick(i) == to(i) by {
            }
            lemma_total_agree(r, xs, xs, pick, to, n);
        }
    }
}

/// The piece of a reduction: the cotangent of where each element goes.
proof fn lemma_spread_back_f64<S: Scalars>(
    op: Seq<char>,
    gy: Model<S>,
    shape: Seq<usize>,
    marks: Seq<bool>,
    keep: bool,
    p: Model<S>,
)
    requires
        gy.valid(),
        gy.data is F64,
        marks.len() == shape.len() <= isize::MAX,
        gy.shape == kept_shape(shape, marks, keep),
        unsqueeze_reduced_out::<S>(op, gy, shape, marks, keep, Ok(p)),
    ensures
        p.shape == shape,
        p.data is F64,
        forall|i: int|
            0 <= i < volume(shape) ==> #[trigger] p.f64s()[i] == gy.f64s()[kept_rank(
                shape,
                marks,
                keep,
                i,
            )],
{
    let res: Outcome<S> = Ok(p);
    let g = if keep {
        gy
    } else {
        let o = choose|o: Outcome<S>| #[trigger]
            regrown_out::<S>(gy, marks, 0, o) && passes(
                o,
                res,
                stretch_out::<S>(op, o->Ok_0, shape, res),
            );
        assert(shape.skip(0) =~= shape);
        assert(marks.skip(0) =~= marks);
        assert(kept_shape(shape.take(0), marks.take(0), true) =~= Seq::<usize>::empty());
        assert(gy.shape =~= kept_shape(shape.take(0), marks.take(0), true) + kept_shape(
            shape.skip(0),
            marks.skip(0),
            false,
        ));
        lemma_regrown::<S>(gy, shape, marks, 0, o->Ok_0);
        o->Ok_0
    };
    let small = kept_shape(shape, marks, true);
    assert(g.shape == small);
    assert(p == broadcasted(g, shape));
    assert forall|i: int| 0 <= i < volume(shape) implies #[trigger] p.f64s()[i]
        == gy.f64s()[kept_rank(shape, marks, keep, i)] by {
        lemma_kept_source(shape, marks, i);
        lemma_source(g, g.data->F64_0, shape, i);
    }
}

/// The gradient of a sum over any axes: the pieces, each times the change of its element, add up to
/// the cotangents times the changes of the sums. On 64-bit floats.
pub proof fn law_sum_gradient_f64<S: Scalars>(
    r: Ring<S::D>,
    d: Change<S::D>,
    before: Seq<Node<S>>,
    after: Seq<Node<S>>,
    x: Model<S>,
    axes: Option<Seq<isize>>,
    keepdims: bool,
    y: Model<S>,
    gy: Model<S>,
    parts: Seq<Model<S>>,
)
    requires
        r.computes::<S>(),
        d.adds(r),
        d.multiplies(r),
        x.data is F64,
        x.in_graph,
        x.shape.len() <= isize::MAX,
        gy.valid(),
        gy.data is F64,
        gy.shape == y.shape,
        sum_tracked::<S>(before, after, x, axes, keepdims, Ok(y)),
        after.len() > 0,
        after.last().vjp(gy, Ok(parts)),
    ensures
        after.len() == before.len() + 1,
        after.last().sources() == seq![x],
        parts.len() == 1,
        parts[0].shape == x.shape,
        r.total(
            products(r, parts[0].f64s(), changes(d, x.f64s())),
            every(),
            volume(x.shape) as int,
        ) == r.total(
            products(r, gy.f64s(), changes(d, y.f64s())),
            every(),
            volume(y.shape) as int,
        ),
{
    let res: Outcome<S> = Ok(y);
    let rp: Result<Seq<Model<S>>, Error> = Ok(parts);
    let shape = x.shape;
    let marks = marked(asked_axes(axes, shape.len()), shape.len());
    let v = choose|v: Outcome<S>| #[trigger]
        sum_out::<S>(x, axes, keepdims, v) && tracked_out::<S>(
            before,
            after,
            x.in_graph,
            v,
            seq![x],
            RuleModel::Sum { shape, marks, keep: keepdims },
            res,
        );
    let t = v->Ok_0;
    assert(alike::<S>(y, t));
    lemma_sum_groups_f64::<S>(r, x, marks, keepdims, t);
    reveal(sum_parts);
    let o = choose|o: Outcome<S>| #[trigger]
        unsqueeze_reduced_out::<S>("sum"@, gy, shape, marks, keepdims, o) && passes(
            o,
            rp,
            gives(rp, seq![o->Ok_0]),
        );
    assert(parts == seq![o->Ok_0]);
    lemma_spread_back_f64::<S>("sum"@, gy, shape, marks, keepdims, o->Ok_0);
    let to = goes_to(shape, marks, keepdims);
    assert forall|i: int| 0 <= i < volume(shape) implies 0 <= #[trigger] to(i) < volume(
        y.shape,
    ) by {
        lemma_kept_source(shape, marks, i);
    }
    lemma_reduced_balance(r, d, to, x.f64s(), y.f64s(), gy.f64s(), parts[0].f64s());
}

/// The gradient of a mean over any axes: the pieces, each times the change of its element, add up
/// to the cotangents times the changes of the means. On 64-bit floats.
pub proof fn law_mean_gradient_f64<S: Scalars>(
    r: Ring<S::D>,
    d: Change<S::D>,
    before: Seq<Node<S>>,
    after: Seq<Node<S>>,
    x: Model<S>,
    axes: Option<Seq<isize>>,
    keepdims: bool,
    y: Model<S>,
    gy: Model<S>,
    parts: Seq<Model<S>>,
)
    requires
        exact::<S::D, S>(r),
        d.adds(r),
        d.multiplies(r),
        x.data is F64,
        x.in_graph,
        x.shape.len() <= isize::MAX,
        gy.data is F64,
        gy.shape == y.shape,
        mean_tracked::<S>(before, after, x, axes, keepdims, Ok(y)),
        after.len() > 0,
        after.last().vjp(gy, Ok(parts)),
        axes_product(x.shape, asked_axes(axes, x.shape.len())) < usize::MAX,
        forall|k: int|
            0 <= k < asked_axes(axes, x.shape.len()).len()
                ==> x.shape[#[trigger] asked_axes(axes, x.shape.len())[k] as int] > 0,
        multiple(r, axes_product(x.shape, asked_axes(axes, x.shape.len())) as nat) != r.zero,
        multiple(r, axes_product(x.shape, asked_axes(axes, x.shape.len())) as nat) != r.zero,
        forall|u: S::D, v: S::D, b: bool| #[trigger]
            call_ensures(<S as Arith<S::D>>::same, (u, v), b) ==> b == (u == v),
    ensures
        after.len() == before.len() + 1,
        after.last().sources() == seq![x],
        parts.len() == 1,
        parts[0].shape == x.shape,
        r.total(
            products(r, parts[0].f64s(), changes(d, x.f64s())),
            every(),
            volume(x.shape) as int,
        ) == r.total(
            products(r, gy.f64s(), changes(d, y.f64s())),
            every(),
            volume(y.shape) as int,
        ),
{
    let res: Outcome<S> = Ok(y);
    let rp: Result<Seq<Model<S>>, Error> = Ok(parts);
    let shape = x.shape;
    let ax = asked_axes(axes, shape.len());
    let marks = marked(ax, shape.len());
    let count = axes_product(shape, ax) as usize;
    lemma_product_grows(shape, ax);
    let v = choose|v: Outcome<S>| #[trigger]
        mean_out::<S>(x, axes, keepdims, v) && v is Ok && mean_recorded::<S>(
            before,
            after,
            x,
            axes,
            keepdims,
            v->Ok_0,
            res,
        );
    let t = v->Ok_0;
    assert(alike::<S>(y, t));
    let n = choose|n: S::D| #[trigger]
        axes_count::<S>(shape, ax, n) && recorded::<S>(
            before,
            after,
            seq![x],
            RuleModel::Mean { shape, marks, keep: keepdims, n },
        );
    reveal(mean_parts);
    let (z, none) = choose|z: S::D, none: bool| #[trigger]
        is_zero::<S::D, S>(z) && #[trigger] call_ensures(
            <S as Arith<S::D>>::same,
            (n, z),
            none,
        ) && if none {
            mean_zeros::<S>(shape, gy.dtype(), rp)
        } else {
            mean_shares::<S>(shape, marks, keepdims, n, gy, rp)
        };
    let s = choose|s: Model<S>| #[trigger]
        sum_value::<S>(x, marks, keepdims, s) && mean_of_sum::<S>(s, count, t);
    lemma_counted_positive(shape, ax);
    let k = choose|k: S::D| #[trigger]
        is_share::<S::D, S>(count, k) && unary_value::<S>(
            s,
            scaled_f32::<S>(k),
            scaled_f64::<S>(k),
            t,
        );
    assert(n != r.zero) by {
        lemma_number::<S>(r, shape, ax, n);
    }
    assert(mean_shares::<S>(shape, marks, keepdims, n, gy, rp));
    let (one, l) = choose|one: S::D, l: S::D| #[trigger]
        is_one::<S::D, S>(one) && #[trigger] is_quotient::<S::D, S>(one, n, l)
            && mean_scaled_parts::<S>(shape, marks, keepdims, l, gy, rp);
    lemma_share::<S>(r, shape, ax, n, k, one, l);
    reveal(mean_scaled_parts);
    let g = choose|o: Outcome<S>| #[trigger]
        mul_scalar_out::<S>(gy, l, o) && passes(
            o,
            rp,
            mean_spread::<S>(shape, marks, keepdims, o->Ok_0, rp),
        );
    let gk = g->Ok_0;
    let o = choose|o: Outcome<S>| #[trigger]
        unsqueeze_reduced_out::<S>("mean"@, gk, shape, marks, keepdims, o) && passes(
            o,
            rp,
            gives(rp, seq![o->Ok_0]),
        );
    assert(parts == seq![o->Ok_0]);
    let f = k;
    lemma_share_rests(r, d, f, count as nat);
    lemma_sum_groups_f64::<S>(r, x, marks, keepdims, s);
    lemma_times_f64::<S>(r, gy, l, gk);
    lemma_one_f64::<S>(s, scaled_f32::<S>(k), scaled_f64::<S>(k), t);
    assert forall|i: int| 0 <= i < s.f64s().len() implies #[trigger] y.f64s()[i] == r.times(
        s.f64s()[i],
        f,
    ) by {
        assert(scaled_f64::<S>(k)(s.f64s()[i], t.f64s()[i]));
        assert(is_product::<S::D, S>(s.f64s()[i], f, t.f64s()[i]));
    }
    lemma_spread_back_f64::<S>("mean"@, gk, shape, marks, keepdims, o->Ok_0);
    let to = goes_to(shape, marks, keepdims);
    assert forall|i: int| 0 <= i < volume(shape) implies 0 <= #[trigger] to(i) < volume(
        y.shape,
    ) by {
        lemma_kept_source(shape, marks, i);
    }
    lemma_reduced_balance(r, d, to, x.f64s(), s.f64s(), gk.f64s(), parts[0].f64s());
    let total = r.total(
        products(r, gk.f64s(), changes(d, s.f64s())),
        every(),
        s.f64s().len() as int,
    );
    lemma_mean_balance(
        r,
        d,
        f,
        s.f64s(),
        y.f64s(),
        gy.f64s(),
        gk.f64s(),
        total,
    );
}

} // verus!
