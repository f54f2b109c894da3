//! What the variance, the standard deviation and the logarithm of a sum of exponentials are.
use vstd::prelude::*;
use crate::ad::{
    add_tracked, exp_tracked, goes_on, log_tracked, mean_tracked, mul_tracked, sqrt_tracked,
    sub_tracked, sum_tracked,
};
use crate::ad_composed::{
    axis_only, logsumexp_tracked, stable_sum_logarithm, stable_sum_powers, stable_sum_shifted,
    stable_sum_total, stable_sum_tracked, stable_sum_trimmed, stable_sum_unshifted, stddev_root,
    stddev_tracked, variance_centered, variance_mean, variance_squares, variance_tracked,
};
use crate::algebra::{
    differences, lemma_total_agree, lemma_total_scaled, lemma_undo, lemma_zero, multiple, products,
    scaled,
};
use crate::calculus::{
    carries, exact, exponents, grows, lemma_carries, lemma_carries_multiple, lemma_counts,
    lemma_divides, lemma_exponents, lemma_squares_back,
};
use crate::cpu::{add_out, mul_out, scaled_f32, scaled_f64, sub_out};
use crate::elementwise::{maps, unary_value};
use crate::index::volume;
use crate::lines::{
    in_line, lemma_axis_marks, lemma_line, lemma_same_line, lemma_sum_lines_f32,
    lemma_sum_lines_f64, lemma_zips_lines, lemma_zips_same, line_rank, line_shape,
};
use crate::nodes::Node;
use crate::norm_law::{alike, lemma_mean_lines_f32, lemma_mean_lines_f64, lemma_whole_axis};
use crate::pointwise_law::{lemma_one_f32, lemma_one_f64, lemma_two_f32, lemma_two_f64};
use crate::reduce::{
    amax_out, asked_axes, is_share, kept_rank, marked, mean_of_sum, mean_out, sum_out, sum_value,
};
use crate::ring::{grouped, lemma_laws, Ring};
use crate::rules::axis_alone;
use crate::scalar::{
    adding, is_difference, is_one, is_product, is_quotient, is_sum, multiplying, subtracting,
    Arith, Scalars,
};
use crate::sum_law::{goes_to, lemma_kept_source, lemma_sum_groups_f32, lemma_sum_groups_f64};
use crate::tensor::{Model, Outcome};
use crate::unary::{exp_out, exp_rel, log_out, log_rel, sqrt_out, sqrt_rel};

verus! {

/// The stages of a variance, each value beside the tensor that carries it on.
pub(crate) proof fn lemma_variance_stages<S: Scalars>(
    before: Seq<Node<S>>,
    after: Seq<Node<S>>,
    x: Model<S>,
    axes: Option<Seq<isize>>,
    keepdims: bool,
    v: Model<S>,
) -> (w: Seq<(Model<S>, Model<S>)>)
    requires
        variance_tracked::<S>(before, after, x, axes, keepdims, Ok(v)),
    ensures
        w.len() == 4,
        forall|k: int| 0 <= k < 4 ==> alike::<S>((#[trigger] w[k]).1, w[k].0),
        mean_out::<S>(x, axes, true, Ok(w[0].0)),
        sub_out::<S>(x, w[0].1, Ok(w[1].0)),
        mul_out::<S>(w[1].1, w[1].1, Ok(w[2].0)),
        mean_out::<S>(w[2].1, axes, keepdims, Ok(w[3].0)),
        w[3].1 == v,
{
    let res: Outcome<S> = Ok(v);
    let (g1, o1) = choose|g: Seq<Node<S>>, o: Outcome<S>| #[trigger]
        mean_tracked::<S>(before, g, x, axes, true, o) && goes_on(
            o,
            g,
            res,
            after,
            variance_centered::<S>(g, after, x, axes, keepdims, o->Ok_0, res),
        );
    let m = o1->Ok_0;
    let (g2, o2) = choose|g: Seq<Node<S>>, o: Outcome<S>| #[trigger]
        sub_tracked::<S>(g1, g, x, m, o) && goes_on(
            o,
            g,
            res,
            after,
            variance_squares::<S>(g, after, axes, keepdims, o->Ok_0, res),
        );
    let xc = o2->Ok_0;
    let (g3, o3) = choose|g: Seq<Node<S>>, o: Outcome<S>| #[trigger]
        mul_tracked::<S>(g2, g, xc, xc, o) && goes_on(
            o,
            g,
            res,
            after,
            variance_mean::<S>(g, after, axes, keepdims, o->Ok_0, res),
        );
    let sq = o3->Ok_0;
    assert(mean_tracked::<S>(g3, after, sq, axes, keepdims, res));
    let m0 = choose|t: Outcome<S>| #[trigger]
        mean_out::<S>(x, axes, true, t) && t is Ok && alike::<S>(m, t->Ok_0);
    let c0 = choose|t: Outcome<S>| #[trigger]
        sub_out::<S>(x, m, t) && t is Ok && alike::<S>(xc, t->Ok_0);
    let s0 = choose|t: Outcome<S>| #[trigger]
        mul_out::<S>(xc, xc, t) && t is Ok && alike::<S>(sq, t->Ok_0);
    let v0 = choose|t: Outcome<S>| #[trigger]
        mean_out::<S>(sq, axes, keepdims, t) && t is Ok && alike::<S>(v, t->Ok_0);
    seq![(m0->Ok_0, m), (c0->Ok_0, xc), (s0->Ok_0, sq), (v0->Ok_0, v)]
}

/// The stages of a logarithm of a sum of exponentials, each value beside the tensor that carries it
/// on, and what the elements are shifted by.
proof fn lemma_logsum_stages<S: Scalars>(
    before: Seq<Node<S>>,
    after: Seq<Node<S>>,
    x: Model<S>,
    axis: usize,
    y: Model<S>,
) -> (w: (Seq<(Model<S>, Model<S>)>, Model<S>))
    requires
        axis < x.shape.len() <= isize::MAX,
        logsumexp_tracked::<S>(before, after, x, axis as isize, true, Ok(y)),
    ensures
        w.0.len() == 5,
        forall|k: int| 0 <= k < 5 ==> alike::<S>((#[trigger] w.0[k]).1, w.0[k].0),
        amax_out::<S>(x, axis as isize, true, Ok(w.1)),
        sub_out::<S>(x, w.1, Ok(w.0[0].0)),
        exp_out::<S>(w.0[0].1, Ok(w.0[1].0)),
        sum_out::<S>(w.0[1].1, axis_alone(axis), true, Ok(w.0[2].0)),
        log_out::<S>(w.0[2].1, Ok(w.0[3].0)),
        add_out::<S>(w.0[3].1, w.1, Ok(w.0[4].0)),
        w.0[4].1 == y,
{
    let res: Outcome<S> = Ok(y);
    let isz = axis as isize;
    assert(stable_sum_tracked::<S>(before, after, x, isz, isz, true, res));
    let o1 = choose|o: Outcome<S>| #[trigger]
        amax_out::<S>(x, isz, true, o) && goes_on(
            o,
            before,
            res,
            after,
            stable_sum_shifted::<S>(before, after, x, isz, isz, true, o->Ok_0, res),
        );
    let m = o1->Ok_0;
    let (g2, o2) = choose|g: Seq<Node<S>>, o: Outcome<S>| #[trigger]
        sub_tracked::<S>(before, g, x, m, o) && goes_on(
            o,
            g,
            res,
            after,
            stable_sum_powers::<S>(g, after, isz, isz, true, m, o->Ok_0, res),
        );
    let d = o2->Ok_0;
    let (g3, o3) = choose|g: Seq<Node<S>>, o: Outcome<S>| #[trigger]
        exp_tracked::<S>(g2, g, d, o) && goes_on(
            o,
            g,
            res,
            after,
            stable_sum_total::<S>(g, after, isz, isz, true, m, o->Ok_0, res),
        );
    let e = o3->Ok_0;
    let (g4, o4) = choose|g: Seq<Node<S>>, o: Outcome<S>| #[trigger]
        sum_tracked::<S>(g3, g, e, axis_only(isz), true, o) && goes_on(
            o,
            g,
            res,
            after,
            stable_sum_logarithm::<S>(g, after, isz, true, m, o->Ok_0, res),
        );
    let s = o4->Ok_0;
    let (g5, o5) = choose|g: Seq<Node<S>>, o: Outcome<S>| #[trigger]
        log_tracked::<S>(g4, g, s, o) && goes_on(
            o,
            g,
            res,
            after,
            stable_sum_unshifted::<S>(g, after, isz, true, m, o->Ok_0, res),
        );
    let l = o5->Ok_0;
    let (g6, o6) = choose|g: Seq<Node<S>>, o: Outcome<S>| #[trigger]
        add_tracked::<S>(g5, g, l, m, o) && goes_on(
            o,
            g,
            res,
            after,
            stable_sum_trimmed::<S>(g, after, isz, true, o->Ok_0, res),
        );
    assert(y == o6->Ok_0);
    let d0 = choose|t: Outcome<S>| #[trigger]
        sub_out::<S>(x, m, t) && t is Ok && alike::<S>(d, t->Ok_0);
    let e0 = choose|t: Outcome<S>| #[trigger]
        exp_out::<S>(d, t) && t is Ok && alike::<S>(e, t->Ok_0);
    assert(axis_only(isz) == axis_alone(axis));
    let s0 = choose|t: Outcome<S>| #[trigger]
        sum_out::<S>(e, axis_alone(axis), true, t) && t is Ok && alike::<S>(s, t->Ok_0);
    let l0 = choose|t: Outcome<S>| #[trigger]
        log_out::<S>(s, t) && t is Ok && alike::<S>(l, t->Ok_0);
    let y0 = choose|t: Outcome<S>| #[trigger]
        add_out::<S>(l, m, t) && t is Ok && alike::<S>(y, t->Ok_0);
    (
        seq![
            (d0->Ok_0, d),
            (e0->Ok_0, e),
            (s0->Ok_0, s),
            (l0->Ok_0, l),
            (y0->Ok_0, y),
        ],
        m,
    )
}

/// A mean along an axis, kept or not, times the number of its elements, is their sum.
proof fn lemma_mean_either_f32<S: Scalars>(
    r: Ring<S::F>,
    q: Ring<S::D>,
    to: spec_fn(S::D) -> S::F,
    x: Model<S>,
    axis: usize,
    keep: bool,
    t: Model<S>,
    i: int,
)
    requires
        exact::<S::F, S>(r),
        exact::<S::D, S>(q),
        carries::<S>(r, q, to),
        x.data is F32,
        axis < x.shape.len() <= isize::MAX,
        0 <= i < volume(x.shape),
        x.shape[axis as int] > 0,
        multiple(q, x.shape[axis as int] as nat) != q.zero,
        mean_out::<S>(x, axis_alone(axis), keep, Ok(t)),
    ensures
        t.data is F32,
        0 <= line_rank(x.shape, axis as int, i) < t.f32s().len(),
        r.times(
            t.f32s()[line_rank(x.shape, axis as int, i)],
            multiple(r, x.shape[axis as int] as nat),
        ) == r.total(x.f32s(), in_line(x.shape, axis as int, i), volume(x.shape) as int),
{
    let ax = axis as int;
    let shape = x.shape;
    let n = shape[ax];
    let rank = shape.len();
    let asked = asked_axes(axis_alone(axis), rank);
    let marks = marked(asked, rank);
    lemma_whole_axis(shape, axis);
    lemma_axis_marks(axis, rank);
    let s = choose|s: Model<S>| #[trigger]
        sum_value::<S>(x, marks, keep, s) && mean_of_sum::<S>(s, n, t);
    lemma_sum_groups_f32::<S>(r, x, marks, keep, s);
    let k = choose|k: S::D| #[trigger]
        is_share::<S::D, S>(n, k) && unary_value::<S>(
            s,
            scaled_f32::<S>(k),
            scaled_f64::<S>(k),
            t,
        );
    let (one, count) = choose|one: S::D, count: S::D| #[trigger]
        is_one::<S::D, S>(one) && #[trigger] call_ensures(
            <S as Arith<S::D>>::count,
            (n,),
            count,
        ) && is_quotient::<S::D, S>(one, count, k);
    let c = multiple(r, n as nat);
    lemma_counts::<S::D, S>(q, n, count);
    lemma_divides::<S::D, S>(q, one, count, k);
    lemma_carries::<S>(r, q, to, k, count);
    lemma_carries_multiple::<S>(r, q, to, n as nat);
    lemma_one_f32::<S>(s, scaled_f32::<S>(k), scaled_f64::<S>(k), t);
    let at = line_rank(shape, ax, i);
    lemma_line(shape, ax, i);
    lemma_kept_source(shape, marks, i);
    assert(kept_rank(shape, marks, keep, i) == at);
    let pick = grouped(goes_to(shape, marks, keep), at);
    let line = in_line(shape, ax, i);
    assert forall|j: int| 0 <= j < volume(shape) implies #[trigger] pick(j) == line(j) by {
        lemma_line(shape, ax, j);
        lemma_kept_source(shape, marks, j);
        lemma_same_line(shape, ax, i, j);
    }
    let xs = x.f32s();
    lemma_total_agree(r, xs, xs, pick, line, volume(shape) as int);
    let v = s.f32s()[at];
    assert(v == r.total(xs, pick, volume(shape) as int));
    assert(scaled_f32::<S>(k)(v, t.f32s()[at]));
    assert(is_product::<S::F, S>(v, to(k), t.f32s()[at]));
    lemma_laws(r, v, to(k), c);
    lemma_zero(r, v);
}

/// The variance along an axis is the mean of the squared differences from the mean: with `mean`
/// times the length the sum of the line, the variance times the length is the sum of the squares of
/// the elements less `mean`. On 32-bit floats.
pub proof fn law_variance_f32<S: Scalars>(
    r: Ring<S::F>,
    q: Ring<S::D>,
    to: spec_fn(S::D) -> S::F,
    before: Seq<Node<S>>,
    after: Seq<Node<S>>,
    x: Model<S>,
    axis: usize,
    keepdims: bool,
    v: Model<S>,
    i: int,
) -> (mean: Seq<S::F>)
    requires
        exact::<S::F, S>(r),
        exact::<S::D, S>(q),
        carries::<S>(r, q, to),
        x.data is F32,
        axis < x.shape.len() <= isize::MAX,
        0 <= i < volume(x.shape),
        x.shape[axis as int] > 0,
        multiple(q, x.shape[axis as int] as nat) != q.zero,
        variance_tracked::<S>(before, after, x, axis_alone(axis), keepdims, Ok(v)),
    ensures
        mean.len() == volume(x.shape),
        forall|k: int|
            0 <= k < volume(x.shape) ==> r.times(
                #[trigger] mean[k],
                multiple(r, x.shape[axis as int] as nat),
            ) == r.total(x.f32s(), in_line(x.shape, axis as int, k), volume(x.shape) as int),
        v.data is F32,
        0 <= line_rank(x.shape, axis as int, i) < v.f32s().len(),
        r.times(
            v.f32s()[line_rank(x.shape, axis as int, i)],
            multiple(r, x.shape[axis as int] as nat),
        ) == r.total(
            products(r, differences(r, x.f32s(), mean), differences(r, x.f32s(), mean)),
            in_line(x.shape, axis as int, i),
            volume(x.shape) as int,
        ),
{
    let ax = axis as int;
    let shape = x.shape;
    let n = volume(shape) as int;
    let t = lemma_variance_stages::<S>(before, after, x, axis_alone(axis), keepdims, v);
    let (m, xc, sq) = (t[0].1, t[1].1, t[2].1);
    let (m0, c0, s0, v0) = (t[0].0, t[1].0, t[2].0, t[3].0);
    lemma_line(shape, ax, 0);
    lemma_mean_lines_f32::<S>(r, q, to, x, axis, m0);
    let less = subtracting::<S::F, S>();
    let times = multiplying::<S::F, S>();
    lemma_zips_lines(less, shape, ax, x.f32s(), m.f32s(), xc.data->F32_0);
    assert(c0.elems() == c0.data);
    assert(xc.f32s() == xc.data->F32_0);
    lemma_zips_same(times, shape, xc.f32s(), xc.f32s(), sq.data->F32_0);
    assert(s0.elems() == s0.data);
    let mean = Seq::new(n as nat, |k: int| m.f32s()[line_rank(shape, ax, k)]);
    let diff = differences(r, x.f32s(), mean);
    assert forall|k: int| 0 <= k < n implies #[trigger] xc.f32s()[k] == diff[k] by {
        assert(less(x.f32s()[k], m.f32s()[line_rank(shape, ax, k)], xc.data->F32_0[k]));
        assert(is_difference::<S::F, S>(x.f32s()[k], mean[k], xc.data->F32_0[k]));
    }
    assert(xc.f32s() =~= diff);
    assert(sq.f32s() =~= products(r, diff, diff)) by {
        assert forall|k: int| 0 <= k < n implies #[trigger] sq.f32s()[k] == products(
            r,
            diff,
            diff,
        )[k] by {
            assert(times(xc.f32s()[k], xc.f32s()[k], sq.data->F32_0[k]));
            assert(is_product::<S::F, S>(diff[k], diff[k], sq.data->F32_0[k]));
        }
    }
    lemma_mean_either_f32::<S>(r, q, to, sq, axis, keepdims, v0, i);
    mean
}

/// The standard deviation along an axis squares to the variance. On 32-bit floats.
pub proof fn law_stddev_f32<S: Scalars>(
    r: Ring<S::F>,
    q: Ring<S::D>,
    to: spec_fn(S::D) -> S::F,
    before: Seq<Node<S>>,
    after: Seq<Node<S>>,
    x: Model<S>,
    axis: usize,
    keepdims: bool,
    s: Model<S>,
    i: int,
) -> (mean: Seq<S::F>)
    requires
        exact::<S::F, S>(r),
        exact::<S::D, S>(q),
        carries::<S>(r, q, to),
        x.data is F32,
        axis < x.shape.len() <= isize::MAX,
        0 <= i < volume(x.shape),
        x.shape[axis as int] > 0,
        multiple(q, x.shape[axis as int] as nat) != q.zero,
        stddev_tracked::<S>(before, after, x, axis_alone(axis), keepdims, Ok(s)),
    ensures
        mean.len() == volume(x.shape),
        forall|k: int|
            0 <= k < volume(x.shape) ==> r.times(
                #[trigger] mean[k],
                multiple(r, x.shape[axis as int] as nat),
            ) == r.total(x.f32s(), in_line(x.shape, axis as int, k), volume(x.shape) as int),
        r.times(
            r.times(
                s.f32s()[line_rank(x.shape, axis as int, i)],
                s.f32s()[line_rank(x.shape, axis as int, i)],
            ),
            multiple(r, x.shape[axis as int] as nat),
        ) == r.total(
            products(r, differences(r, x.f32s(), mean), differences(r, x.f32s(), mean)),
            in_line(x.shape, axis as int, i),
            volume(x.shape) as int,
        ),
{
    let res: Outcome<S> = Ok(s);
    let (g, o) = choose|g: Seq<Node<S>>, o: Outcome<S>| #[trigger]
        variance_tracked::<S>(before, g, x, axis_alone(axis), keepdims, o) && goes_on(
            o,
            g,
            res,
            after,
            stddev_root::<S>(g, after, o->Ok_0, res),
        );
    let v = o->Ok_0;
    let mean = law_variance_f32::<S>(r, q, to, before, g, x, axis, keepdims, v, i);
    assert(sqrt_tracked::<S>(g, after, v, res));
    let t = choose|t: Outcome<S>| #[trigger]
        sqrt_out::<S>(v, t) && t is Ok && alike::<S>(s, t->Ok_0);
    lemma_one_f32::<S>(v, sqrt_rel::<S::F, S>(), sqrt_rel::<S::D, S>(), t->Ok_0);
    let at = line_rank(x.shape, axis as int, i);
    assert(sqrt_rel::<S::F, S>()(v.f32s()[at], t->Ok_0.f32s()[at]));
    lemma_squares_back::<S::F, S>(r, v.f32s()[at], s.f32s()[at]);
    mean
}

/// The logarithm of the sum of exponentials along an axis: its exponential is the sum of the
/// exponentials of the elements. The axis is kept. On 32-bit floats.
pub proof fn law_logsumexp_f32<S: Scalars>(
    r: Ring<S::F>,
    before: Seq<Node<S>>,
    after: Seq<Node<S>>,
    x: Model<S>,
    axis: usize,
    y: Model<S>,
    i: int,
    a: S::F,
    es: Seq<S::F>,
)
    requires
        exact::<S::F, S>(r),
        exponents::<S::F, S>(r),
        forall|u: S::F| #[trigger] grows::<S::F, S>(u),
        x.data is F32,
        axis < x.shape.len() <= isize::MAX,
        0 <= i < volume(x.shape),
        logsumexp_tracked::<S>(before, after, x, axis as isize, true, Ok(y)),
        maps(exp_rel::<S::F, S>(), x.f32s(), es),
        call_ensures(
            <S as Arith<S::F>>::exponential,
            (y.f32s()[line_rank(x.shape, axis as int, i)],),
            a,
        ),
    ensures
        a == r.total(es, in_line(x.shape, axis as int, i), volume(x.shape) as int),
{
    let shape = x.shape;
    let ax = axis as int;
    let n = volume(shape) as int;
    let (w, m) = lemma_logsum_stages::<S>(before, after, x, axis, y);
    let (d, e, sm, l) = (w[0].1, w[1].1, w[2].1, w[3].1);
    let (d0, e0, s0, l0, y0) = (w[0].0, w[1].0, w[2].0, w[3].0, w[4].0);
    lemma_line(shape, ax, i);
    lemma_max_shape_f32::<S>(x, axis, m);
    let less = subtracting::<S::F, S>();
    lemma_zips_lines(less, shape, ax, x.f32s(), m.f32s(), d.data->F32_0);
    assert(d0.elems() == d0.data);
    assert(d.f32s() == d.data->F32_0);
    lemma_one_f32::<S>(d, exp_rel::<S::F, S>(), exp_rel::<S::D, S>(), e0);
    lemma_sum_lines_f32::<S>(r, e, axis, s0);
    lemma_one_f32::<S>(sm, log_rel::<S::F, S>(), log_rel::<S::D, S>(), l0);
    lemma_two_f32::<S>(l, m, adding::<S::F, S>(), adding::<S::D, S>(), y0);
    let at = line_rank(shape, ax, i);
    let line = in_line(shape, ax, i);
    let (mi, li, yi) = (m.f32s()[at], l.f32s()[at], y.f32s()[at]);
    let t = sm.f32s()[at];
    assert(sm.f32s() == s0.f32s());
    assert(s0.data->F32_0[line_rank(shape, ax, i)] == r.total(e.f32s(), line, n));
    assert(t == r.total(e.f32s(), line, n));
    assert(log_rel::<S::F, S>()(t, l0.f32s()[at]));
    assert(adding::<S::F, S>()(li, mi, y0.f32s()[at]));
    assert(is_sum::<S::F, S>(li, mi, yi));
    assert(grows::<S::F, S>(mi));
    let top = choose|v: S::F| #[trigger]
        call_ensures(<S as Arith<S::F>>::exponential, (mi,), v);
    assert(call_ensures(<S as Arith<S::F>>::exponential, (li,), t)) by {
        reveal(exponents);
    }
    lemma_exponents::<S::F, S>(r, li, mi, yi, t, top, a);
    let u = scaled(r, top, e.f32s());
    assert forall|k: int| 0 <= k < n && #[trigger] line(k) implies u[k] == es[k] by {
        lemma_same_line(shape, ax, i, k);
        assert(less(x.f32s()[k], m.f32s()[line_rank(shape, ax, k)], d.data->F32_0[k]));
        assert(is_difference::<S::F, S>(x.f32s()[k], mi, d.f32s()[k]));
        assert(exp_rel::<S::F, S>()(d.f32s()[k], e0.f32s()[k]));
        assert(exp_rel::<S::F, S>()(x.f32s()[k], es[k]));
        lemma_undo(r, x.f32s()[k], mi);
        lemma_exponents::<S::F, S>(
            r,
            mi,
            d.f32s()[k],
            x.f32s()[k],
            top,
            e.f32s()[k],
            es[k],
        );
    }
    lemma_total_agree(r, u, es, line, line, n);
    lemma_total_scaled(r, top, e.f32s(), line, n);
    lemma_laws(r, t, top, t);
}

/// The greatest elements along an axis, kept, lie one to a line.
proof fn lemma_max_shape_f32<S: Scalars>(x: Model<S>, axis: usize, m: Model<S>)
    requires
        x.data is F32,
        axis < x.shape.len() <= isize::MAX,
        volume(x.shape) > 0,
        amax_out::<S>(x, axis as isize, true, Ok(m)),
    ensures
        m.shape == line_shape(x.shape, axis as int),
        m.data is F32,
        m.f32s() == m.data->F32_0,
{
    lemma_line(x.shape, axis as int, 0);
    assert(m.elems() == m.data);
}

/// A mean along an axis, kept or not, times the number of its elements, is their sum.
proof fn lemma_mean_either_f64<S: Scalars>(
    r: Ring<S::D>,
    x: Model<S>,
    axis: usize,
    keep: bool,
    t: Model<S>,
    i: int,
)
    requires
        exact::<S::D, S>(r),
        x.data is F64,
        axis < x.shape.len() <= isize::MAX,
        0 <= i < volume(x.shape),
        x.shape[axis as int] > 0,
        multiple(r, x.shape[axis as int] as nat) != r.zero,
        mean_out::<S>(x, axis_alone(axis), keep, Ok(t)),
    ensures
        t.data is F64,
        0 <= line_rank(x.shape, axis as int, i) < t.f64s().len(),
        r.times(
            t.f64s()[line_rank(x.shape, axis as int, i)],
            multiple(r, x.shape[axis as int] as nat),
        ) == r.total(x.f64s(), in_line(x.shape, axis as int, i), volume(x.shape) as int),
{
    let ax = axis as int;
    let shape = x.shape;
    let n = shape[ax];
    let rank = shape.len();
    let asked = asked_axes(axis_alone(axis), rank);
    let marks = marked(asked, rank);
    lemma_whole_axis(shape, axis);
    lemma_axis_marks(axis, rank);
    let s = choose|s: Model<S>| #[trigger]
        sum_value::<S>(x, marks, keep, s) && mean_of_sum::<S>(s, n, t);
    lemma_sum_groups_f64::<S>(r, x, marks, keep, s);
    let k = choose|k: S::D| #[trigger]
        is_share::<S::D, S>(n, k) && unary_value::<S>(
            s,
            scaled_f32::<S>(k),
            scaled_f64::<S>(k),
            t,
        );
    let (one, count) = choose|one: S::D, count: S::D| #[trigger]
        is_one::<S::D, S>(one) && #[trigger] call_ensures(
            <S as Arith<S::D>>::count,
            (n,),
            count,
        ) && is_quotient::<S::D, S>(one, count, k);
    let c = multiple(r, n as nat);
    lemma_counts::<S::D, S>(r, n, count);
    lemma_divides::<S::D, S>(r, one, count, k);
    lemma_one_f64::<S>(s, scaled_f32::<S>(k), scaled_f64::<S>(k), t);
    let at = line_rank(shape, ax, i);
    lemma_line(shape, ax, i);
    lemma_kept_source(shape, marks, i);
    assert(kept_rank(shape, marks, keep, i) == at);
    let pick = grouped(goes_to(shape, marks, keep), at);
    let line = in_line(shape, ax, i);
    assert forall|j: int| 0 <= j < volume(shape) implies #[trigger] pick(j) == line(j) by {
        lemma_line(shape, ax, j);
        lemma_kept_source(shape, marks, j);
        lemma_same_line(shape, ax, i, j);
    }
    let xs = x.f64s();
    lemma_total_agree(r, xs, xs, pick, line, volume(shape) as int);
    let v = s.f64s()[at];
    assert(v == r.total(xs, pick, volume(shape) as int));
    assert(scaled_f64::<S>(k)(v, t.f64s()[at]));
    assert(is_product::<S::D, S>(v, k, t.f64s()[at]));
    lemma_laws(r, v, k, c);
    lemma_zero(r, v);
}

/// The variance along an axis is the mean of the squared differences from the mean: with `mean`
/// times the length the sum of the line, the variance times the length is the sum of the squares of
/// the elements less `mean`. On 64-bit floats.
pub proof fn law_variance_f64<S: Scalars>(
    r: Ring<S::D>,
    before: Seq<Node<S>>,
    after: Seq<Node<S>>,
    x: Model<S>,
    axis: usize,
    keepdims: bool,
    v: Model<S>,
    i: int,
) -> (mean: Seq<S::D>)
    requires
        exact::<S::D, S>(r),
        x.data is F64,
        axis < x.shape.len() <= isize::MAX,
        0 <= i < volume(x.shape),
        x.shape[axis as int] > 0,
        multiple(r, x.shape[axis as int] as nat) != r.zero,
        variance_tracked::<S>(before, after, x, axis_alone(axis), keepdims, Ok(v)),
    ensures
        mean.len() == volume(x.shape),
        forall|k: int|
            0 <= k < volume(x.shape) ==> r.times(
                #[trigger] mean[k],
                multiple(r, x.shape[axis as int] as nat),
            ) == r.total(x.f64s(), in_line(x.shape, axis as int, k), volume(x.shape) as int),
        v.data is F64,
        0 <= line_rank(x.shape, axis as int, i) < v.f64s().len(),
        r.times(
            v.f64s()[line_rank(x.shape, axis as int, i)],
            multiple(r, x.shape[axis as int] as nat),
        ) == r.total(
            products(r, differences(r, x.f64s(), mean), differences(r, x.f64s(), mean)),
            in_line(x.shape, axis as int, i),
            volume(x.shape) as int,
        ),
{
    let ax = axis as int;
    let shape = x.shape;
    let n = volume(shape) as int;
    let t = lemma_variance_stages::<S>(before, after, x, axis_alone(axis), keepdims, v);
    let (m, xc, sq) = (t[0].1, t[1].1, t[2].1);
    let (m0, c0, s0, v0) = (t[0].0, t[1].0, t[2].0, t[3].0);
    lemma_line(shape, ax, 0);
    lemma_mean_lines_f64::<S>(r, x, axis, m0);
    let less = subtracting::<S::D, S>();
    let times = multiplying::<S::D, S>();
    lemma_zips_lines(less, shape, ax, x.f64s(), m.f64s(), xc.data->F64_0);
    assert(c0.elems() == c0.data);
    assert(xc.f64s() == xc.data->F64_0);
    lemma_zips_same(times, shape, xc.f64s(), xc.f64s(), sq.data->F64_0);
    assert(s0.elems() == s0.data);
    let mean = Seq::new(n as nat, |k: int| m.f64s()[line_rank(shape, ax, k)]);
    let diff = differences(r, x.f64s(), mean);
    assert forall|k: int| 0 <= k < n implies #[trigger] xc.f64s()[k] == diff[k] by {
        assert(less(x.f64s()[k], m.f64s()[line_rank(shape, ax, k)], xc.data->F64_0[k]));
        assert(is_difference::<S::D, S>(x.f64s()[k], mean[k], xc.data->F64_0[k]));
    }
    assert(xc.f64s() =~= diff);
    assert(sq.f64s() =~= products(r, diff, diff)) by {
        assert forall|k: int| 0 <= k < n implies #[trigger] sq.f64s()[k] == products(
            r,
            diff,
            diff,
        )[k] by {
            assert(times(xc.f64s()[k], xc.f64s()[k], sq.data->F64_0[k]));
            assert(is_product::<S::D, S>(diff[k], diff[k], sq.data->F64_0[k]));
        }
    }
    lemma_mean_either_f64::<S>(r, sq, axis, keepdims, v0, i);
    mean
}

/// The standard deviation along an axis squares to the variance. On 64-bit floats.
pub proof fn law_stddev_f64<S: Scalars>(
    r: Ring<S::D>,
    before: Seq<Node<S>>,
    after: Seq<Node<S>>,
    x: Model<S>,
    axis: usize,
    keepdims: bool,
    s: Model<S>,
    i: int,
) -> (mean: Seq<S::D>)
    requires
        exact::<S::D, S>(r),
        x.data is F64,
        axis < x.shape.len() <= isize::MAX,
        0 <= i < volume(x.shape),
        x.shape[axis as int] > 0,
        multiple(r, x.shape[axis as int] as nat) != r.zero,
        stddev_tracked::<S>(before, after, x, axis_alone(axis), keepdims, Ok(s)),
    ensures
        mean.len() == volume(x.shape),
        forall|k: int|
            0 <= k < volume(x.shape) ==> r.times(
                #[trigger] mean[k],
                multiple(r, x.shape[axis as int] as nat),
            ) == r.total(x.f64s(), in_line(x.shape, axis as int, k), volume(x.shape) as int),
        r.times(
            r.times(
                s.f64s()[line_rank(x.shape, axis as int, i)],
                s.f64s()[line_rank(x.shape, axis as int, i)],
            ),
            multiple(r, x.shape[axis as int] as nat),
        ) == r.total(
            products(r, differences(r, x.f64s(), mean), differences(r, x.f64s(), mean)),
            in_line(x.shape, axis as int, i),
            volume(x.shape) as int,
        ),
{
    let res: Outcome<S> = Ok(s);
    let (g, o) = choose|g: Seq<Node<S>>, o: Outcome<S>| #[trigger]
        variance_tracked::<S>(before, g, x, axis_alone(axis), keepdims, o) && goes_on(
            o,
            g,
            res,
            after,
            stddev_root::<S>(g, after, o->Ok_0, res),
        );
    let v = o->Ok_0;
    let mean = law_variance_f64::<S>(r, before, g, x, axis, keepdims, v, i);
    assert(sqrt_tracked::<S>(g, after, v, res));
    let t = choose|t: Outcome<S>| #[trigger]
        sqrt_out::<S>(v, t) && t is Ok && alike::<S>(s, t->Ok_0);
    lemma_one_f64::<S>(v, sqrt_rel::<S::F, S>(), sqrt_rel::<S::D, S>(), t->Ok_0);
    let at = line_rank(x.shape, axis as int, i);
    assert(sqrt_rel::<S::D, S>()(v.f64s()[at], t->Ok_0.f64s()[at]));
    lemma_squares_back::<S::D, S>(r, v.f64s()[at], s.f64s()[at]);
    mean
}

/// The logarithm of the sum of exponentials along an axis: its exponential is the sum of the
/// exponentials of the elements. The axis is kept. On 64-bit floats.
pub proof fn law_logsumexp_f64<S: Scalars>(
    r: Ring<S::D>,
    before: Seq<Node<S>>,
    after: Seq<Node<S>>,
    x: Model<S>,
    axis: usize,
    y: Model<S>,
    i: int,
    a: S::D,
    es: Seq<S::D>,
)
    requires
        exact::<S::D, S>(r),
        exponents::<S::D, S>(r),
        forall|u: S::D| #[trigger] grows::<S::D, S>(u),
        x.data is F64,
        axis < x.shape.len() <= isize::MAX,
        0 <= i < volume(x.shape),
        logsumexp_tracked::<S>(before, after, x, axis as isize, true, Ok(y)),
        maps(exp_rel::<S::D, S>(), x.f64s(), es),
        call_ensures(
            <S as Arith<S::D>>::exponential,
            (y.f64s()[line_rank(x.shape, axis as int, i)],),
            a,
        ),
    ensures
        a == r.total(es, in_line(x.shape, axis as int, i), volume(x.shape) as int),
{
    let shape = x.shape;
    let ax = axis as int;
    let n = volume(shape) as int;
    let (w, m) = lemma_logsum_stages::<S>(before, after, x, axis, y);
    let (d, e, sm, l) = (w[0].1, w[1].1, w[2].1, w[3].1);
    let (d0, e0, s0, l0, y0) = (w[0].0, w[1].0, w[2].0, w[3].0, w[4].0);
    lemma_line(shape, ax, i);
    lemma_max_shape_f64::<S>(x, axis, m);
    let less = subtracting::<S::D, S>();
    lemma_zips_lines(less, shape, ax, x.f64s(), m.f64s(), d.data->F64_0);
    assert(d0.elems() == d0.data);
    assert(d.f64s() == d.data->F64_0);
    lemma_one_f64::<S>(d, exp_rel::<S::F, S>(), exp_rel::<S::D, S>(), e0);
    lemma_sum_lines_f64::<S>(r, e, axis, s0);
    lemma_one_f64::<S>(sm, log_rel::<S::F, S>(), log_rel::<S::D, S>(), l0);
    lemma_two_f64::<S>(l, m, adding::<S::F, S>(), adding::<S::D, S>(), y0);
    let at = line_rank(shape, ax, i);
    let line = in_line(shape, ax, i);
    let (mi, li, yi) = (m.f64s()[at], l.f64s()[at], y.f64s()[at]);
    let t = sm.f64s()[at];
    assert(sm.f64s() == s0.f64s());
    assert(s0.data->F64_0[line_rank(shape, ax, i)] == r.total(e.f64s(), line, n));
    assert(t == r.total(e.f64s(), line, n));
    assert(log_rel::<S::D, S>()(t, l0.f64s()[at]));
    assert(adding::<S::D, S>()(li, mi, y0.f64s()[at]));
    assert(is_sum::<S::D, S>(li, mi, yi));
    assert(grows::<S::D, S>(mi));
    let top = choose|v: S::D| #[trigger]
        call_ensures(<S as Arith<S::D>>::exponential, (mi,), v);
    assert(call_ensures(<S as Arith<S::D>>::exponential, (li,), t)) by {
        reveal(exponents);
    }
    lemma_exponents::<S::D, S>(r, li, mi, yi, t, top, a);
    let u = scaled(r, top, e.f64s());
    assert forall|k: int| 0 <= k < n && #[trigger] line(k) implies u[k] == es[k] by {
        lemma_same_line(shape, ax, i, k);
        assert(less(x.f64s()[k], m.f64s()[line_rank(shape, ax, k)], d.data->F64_0[k]));
        assert(is_difference::<S::D, S>(x.f64s()[k], mi, d.f64s()[k]));
        assert(exp_rel::<S::D, S>()(d.f64s()[k], e0.f64s()[k]));
        assert(exp_rel::<S::D, S>()(x.f64s()[k], es[k]));
        lemma_undo(r, x.f64s()[k], mi);
        lemma_exponents::<S::D, S>(
            r,
            mi,
            d.f64s()[k],
            x.f64s()[k],
            top,
            e.f64s()[k],
            es[k],
        );
    }
    lemma_total_agree(r, u, es, line, line, n);
    lemma_total_scaled(r, top, e.f64s(), line, n);
    lemma_laws(r, t, top, t);
}

/// The greatest elements along an axis, kept, lie one to a line.
proof fn lemma_max_shape_f64<S: Scalars>(x: Model<S>, axis: usize, m: Model<S>)
    requires
        x.data is F64,
        axis < x.shape.len() <= isize::MAX,
        volume(x.shape) > 0,
        amax_out::<S>(x, axis as isize, true, Ok(m)),
    ensures
        m.shape == line_shape(x.shape, axis as int),
        m.data is F64,
        m.f64s() == m.data->F64_0,
{
    lemma_line(x.shape, axis as int, 0);
    assert(m.elems() == m.data);
}

} // verus!
