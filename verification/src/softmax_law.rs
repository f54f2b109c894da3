//! What the gradients of softmax, log-softmax and the losses on them are: the transposed matrices
//! of derivatives, applied to the cotangent.
use vstd::prelude::*;
use crate::algebra::{
    differences, lemma_spread, lemma_total_agree, lemma_total_alone, lemma_total_parts,
    lemma_total_scaled, lemma_zero, products, scaled,
};
use crate::cpu::{mul_out, sub_out};
use crate::elementwise::maps;
use crate::error::Error;
use crate::index::volume;
use crate::lines::{
    in_line, lemma_line, lemma_same_line, lemma_sum_lines_f32, lemma_sum_lines_f64,
    lemma_zips_lines, lemma_zips_same, line_rank, line_shape,
};
use crate::reduce::sum_out;
use crate::ring::{lemma_laws, Ring};
use crate::rules::{
    axis_alone, log_softmax_parts, log_softmax_product, log_softmax_rest, log_softmax_sum,
    softmax_centered, softmax_parts, softmax_product, softmax_sum,
};
use crate::scalar::{is_difference, is_product, multiplying, subtracting, Scalars};
use crate::shape::joined;
use crate::tensor::{gives, passes, Model, Outcome};
use crate::unary::{exp_out, exp_rel};

verus! {

/// One where `same`, zero elsewhere.
pub open spec fn hot<T>(r: Ring<T>, same: bool) -> T {
    if same {
        r.one
    } else {
        r.zero
    }
}

/// `g[k] ([k = i] - c)`, for each `k`.
pub open spec fn hot_terms<T>(r: Ring<T>, g: Seq<T>, c: T, i: int) -> Seq<T> {
    Seq::new(g.len(), |k: int| r.times(g[k], r.minus(hot(r, k == i), c)))
}

/// Entry `i` of the transposed matrix of derivatives of softmax along `axis`, at value `y`, applied
/// to `gy`: the sum over the line of `gy[k] y[k] ([k = i] - y[i])`.
pub open spec fn softmax_slope<T>(
    r: Ring<T>,
    shape: Seq<usize>,
    axis: int,
    y: Seq<T>,
    gy: Seq<T>,
    i: int,
) -> T {
    r.total(
        hot_terms(r, products(r, gy, y), y[i], i),
        in_line(shape, axis, i),
        y.len() as int,
    )
}

/// Entry `i` of the transposed matrix of derivatives of log-softmax along `axis`, where the softmax
/// is `p`, applied to `gy`: the sum over the line of `gy[k] ([k = i] - p[i])`.
pub open spec fn log_softmax_slope<T>(
    r: Ring<T>,
    shape: Seq<usize>,
    axis: int,
    p: Seq<T>,
    gy: Seq<T>,
    i: int,
) -> T {
    r.total(
        hot_terms(r, gy, p[i], i),
        in_line(shape, axis, i),
        p.len() as int,
    )
}

/// `g[k] ([k = i] - c)` summed over the line of `i` is `g[i] - c` times the sum.
proof fn lemma_hot_sum<T>(
    r: Ring<T>,
    shape: Seq<usize>,
    axis: int,
    g: Seq<T>,
    c: T,
    i: int,
)
    requires
        r.lawful(),
        0 <= axis < shape.len(),
        g.len() == volume(shape),
        0 <= i < g.len(),
    ensures
        r.total(
            hot_terms(r, g, c, i),
            in_line(shape, axis, i),
            g.len() as int,
        ) == r.minus(
            g[i],
            r.times(c, r.total(g, in_line(shape, axis, i), g.len() as int)),
        ),
{
    let n = g.len() as int;
    let line = in_line(shape, axis, i);
    lemma_line(shape, axis, i);
    let whole = hot_terms(r, g, c, i);
    let a = Seq::new(g.len(), |k: int| r.times(g[k], hot(r, k == i)));
    let b = scaled(r, c, g);
    assert forall|k: int| 0 <= k < n implies #[trigger] whole[k] == differences(r, a, b)[k] by {
        lemma_spread(r, g[k], hot(r, k == i), c);
        lemma_laws(r, g[k], c, c);
    }
    assert(whole =~= differences(r, a, b));
    lemma_total_parts(r, a, b, line, n);
    lemma_total_scaled(r, c, g, line, n);
    assert forall|k: int| 0 <= k < n && k != i implies #[trigger] a[k] == r.zero by {
        lemma_zero(r, g[k]);
    }
    lemma_total_alone(r, a, line, i, n);
    lemma_zero(r, g[i]);
}

/// Sums over one line, whichever of its elements names it.
proof fn lemma_line_named<T>(
    r: Ring<T>,
    shape: Seq<usize>,
    axis: int,
    xs: Seq<T>,
    i: int,
    k: int,
)
    requires
        0 <= axis < shape.len(),
        xs.len() == volume(shape),
        0 <= i < xs.len(),
        0 <= k < xs.len(),
        in_line(shape, axis, i)(k),
    ensures
        r.total(xs, in_line(shape, axis, k), xs.len() as int) == r.total(
            xs,
            in_line(shape, axis, i),
            xs.len() as int,
        ),
{
    let n = xs.len() as int;
    let p = in_line(shape, axis, k);
    let q = in_line(shape, axis, i);
    lemma_same_line(shape, axis, i, k);
    assert forall|j: int| 0 <= j < n implies #[trigger] p(j) == q(j) by {
        lemma_same_line(shape, axis, i, j);
        lemma_same_line(shape, axis, k, j);
    }
    lemma_total_agree(r, xs, xs, p, q, n);
}

/// `a[i] - c[i]` times the sum of `a` over the line adds up to zero where `c` adds up to one.
proof fn lemma_line_balance<T>(
    r: Ring<T>,
    shape: Seq<usize>,
    axis: int,
    a: Seq<T>,
    c: Seq<T>,
    p: Seq<T>,
    i: int,
)
    requires
        r.lawful(),
        0 <= axis < shape.len(),
        a.len() == volume(shape),
        c.len() == a.len(),
        p.len() == a.len(),
        0 <= i < a.len(),
        forall|k: int|
            0 <= k < a.len() ==> #[trigger] p[k] == r.minus(
                a[k],
                r.times(c[k], r.total(a, in_line(shape, axis, k), a.len() as int)),
            ),
        r.total(c, in_line(shape, axis, i), a.len() as int) == r.one,
    ensures
        r.total(p, in_line(shape, axis, i), a.len() as int) == r.zero,
{
    let n = a.len() as int;
    let line = in_line(shape, axis, i);
    let t = r.total(a, line, n);
    let b = scaled(r, t, c);
    let d = differences(r, a, b);
    assert forall|k: int| 0 <= k < n && #[trigger] line(k) implies p[k] == d[k] by {
        lemma_line_named(r, shape, axis, a, i, k);
        lemma_laws(r, c[k], t, t);
    }
    lemma_total_agree(r, p, d, line, line, n);
    lemma_total_parts(r, a, b, line, n);
    lemma_total_scaled(r, t, c, line, n);
    lemma_zero(r, t);
}

/// What the piece of softmax is, in 32 bits.
proof fn lemma_softmax_piece_f32<S: Scalars>(
    r: Ring<S::F>,
    y: Model<S>,
    axis: usize,
    gy: Model<S>,
    parts: Seq<Model<S>>,
)
    requires
        r.computes::<S>(),
        y.data is F32,
        gy.shape == y.shape,
        axis < y.shape.len() <= isize::MAX,
        softmax_parts::<S>(y, axis, gy, Ok(parts)),
    ensures
        parts.len() == 1,
        parts[0].shape == y.shape,
        parts[0].data is F32,
        gy.data is F32,
        forall|i: int|
            0 <= i < volume(y.shape) ==> #[trigger] parts[0].f32s()[i] == r.times(
                y.f32s()[i],
                r.minus(
                    gy.f32s()[i],
                    r.total(
                        products(r, gy.f32s(), y.f32s()),
                        in_line(y.shape, axis as int, i),
                        volume(y.shape) as int,
                    ),
                ),
            ),
{
    reveal(softmax_parts);
    let o: Result<Seq<Model<S>>, Error> = Ok(parts);
    let d = choose|d: Outcome<S>| #[trigger]
        mul_out::<S>(gy, y, d) && passes(d, o, softmax_sum::<S>(y, axis, gy, d->Ok_0, o));
    let dot = d->Ok_0;
    let s = choose|s: Outcome<S>| #[trigger]
        sum_out::<S>(dot, axis_alone(axis), true, s) && passes(
            s,
            o,
            softmax_centered::<S>(y, gy, s->Ok_0, o),
        );
    let c = choose|c: Outcome<S>| #[trigger]
        sub_out::<S>(gy, s->Ok_0, c) && passes(c, o, softmax_product::<S>(y, c->Ok_0, o));
    let m = choose|m: Outcome<S>| #[trigger]
        mul_out::<S>(y, c->Ok_0, m) && passes(m, o, gives(o, seq![m->Ok_0]));
    assert(parts == seq![m->Ok_0]);
    let shape = y.shape;
    let ax = axis as int;
    let times = multiplying::<S::F, S>();
    let less = subtracting::<S::F, S>();
    lemma_zips_same(times, shape, gy.f32s(), y.f32s(), dot.data->F32_0);
    assert(dot.elems() == dot.data);
    lemma_sum_lines_f32::<S>(r, dot, axis, s->Ok_0);
    lemma_zips_lines(less, shape, ax, gy.f32s(), s->Ok_0.f32s(), c->Ok_0.data->F32_0);
    assert(c->Ok_0.elems() == c->Ok_0.data);
    lemma_zips_same(times, shape, y.f32s(), c->Ok_0.f32s(), m->Ok_0.data->F32_0);
    assert(m->Ok_0.elems() == m->Ok_0.data);
    let dots = products(r, gy.f32s(), y.f32s());
    assert(dot.f32s() =~= dots) by {
        assert forall|i: int| 0 <= i < volume(shape) implies dot.data->F32_0[i] == dots[i] by {
            assert(times(gy.f32s()[i], y.f32s()[i], dot.data->F32_0[i]));
            assert(is_product::<S::F, S>(gy.f32s()[i], y.f32s()[i], dot.data->F32_0[i]));
        }
    }
    assert forall|i: int| 0 <= i < volume(shape) implies #[trigger] parts[0].f32s()[i] == r.times(
        y.f32s()[i],
        r.minus(gy.f32s()[i], r.total(dots, in_line(shape, ax, i), volume(shape) as int)),
    ) by {
        let at = line_rank(shape, ax, i);
        assert(s->Ok_0.data->F32_0[at] == r.total(
            dots,
            in_line(shape, ax, i),
            volume(shape) as int,
        ));
        assert(less(gy.f32s()[i], s->Ok_0.f32s()[at], c->Ok_0.data->F32_0[i]));
        assert(is_difference::<S::F, S>(
            gy.f32s()[i],
            s->Ok_0.f32s()[at],
            c->Ok_0.data->F32_0[i],
        ));
        assert(times(y.f32s()[i], c->Ok_0.f32s()[i], m->Ok_0.data->F32_0[i]));
        assert(is_product::<S::F, S>(
            y.f32s()[i],
            c->Ok_0.f32s()[i],
            m->Ok_0.data->F32_0[i],
        ));
    }
}

/// What the piece of softmax is, in 64 bits.
proof fn lemma_softmax_piece_f64<S: Scalars>(
    r: Ring<S::D>,
    y: Model<S>,
    axis: usize,
    gy: Model<S>,
    parts: Seq<Model<S>>,
)
    requires
        r.computes::<S>(),
        y.data is F64,
        gy.shape == y.shape,
        axis < y.shape.len() <= isize::MAX,
        softmax_parts::<S>(y, axis, gy, Ok(parts)),
    ensures
        parts.len() == 1,
        parts[0].shape == y.shape,
        parts[0].data is F64,
        gy.data is F64,
        forall|i: int|
            0 <= i < volume(y.shape) ==> #[trigger] parts[0].f64s()[i] == r.times(
                y.f64s()[i],
                r.minus(
                    gy.f64s()[i],
                    r.total(
                        products(r, gy.f64s(), y.f64s()),
                        in_line(y.shape, axis as int, i),
                        volume(y.shape) as int,
                    ),
                ),
            ),
{
    reveal(softmax_parts);
    let o: Result<Seq<Model<S>>, Error> = Ok(parts);
    let d = choose|d: Outcome<S>| #[trigger]
        mul_out::<S>(gy, y, d) && passes(d, o, softmax_sum::<S>(y, axis, gy, d->Ok_0, o));
    let dot = d->Ok_0;
    let s = choose|s: Outcome<S>| #[trigger]
        sum_out::<S>(dot, axis_alone(axis), true, s) && passes(
            s,
            o,
            softmax_centered::<S>(y, gy, s->Ok_0, o),
        );
    let c = choose|c: Outcome<S>| #[trigger]
        sub_out::<S>(gy, s->Ok_0, c) && passes(c, o, softmax_product::<S>(y, c->Ok_0, o));
    let m = choose|m: Outcome<S>| #[trigger]
        mul_out::<S>(y, c->Ok_0, m) && passes(m, o, gives(o, seq![m->Ok_0]));
    assert(parts == seq![m->Ok_0]);
    let shape = y.shape;
    let ax = axis as int;
    let times = multiplying::<S::D, S>();
    let less = subtracting::<S::D, S>();
    lemma_zips_same(times, shape, gy.f64s(), y.f64s(), dot.data->F64_0);
    assert(dot.elems() == dot.data);
    lemma_sum_lines_f64::<S>(r, dot, axis, s->Ok_0);
    lemma_zips_lines(less, shape, ax, gy.f64s(), s->Ok_0.f64s(), c->Ok_0.data->F64_0);
    assert(c->Ok_0.elems() == c->Ok_0.data);
    lemma_zips_same(times, shape, y.f64s(), c->Ok_0.f64s(), m->Ok_0.data->F64_0);
    assert(m->Ok_0.elems() == m->Ok_0.data);
    let dots = products(r, gy.f64s(), y.f64s());
    assert(dot.f64s() =~= dots) by {
        assert forall|i: int| 0 <= i < volume(shape) implies dot.data->F64_0[i] == dots[i] by {
            assert(times(gy.f64s()[i], y.f64s()[i], dot.data->F64_0[i]));
            assert(is_product::<S::D, S>(gy.f64s()[i], y.f64s()[i], dot.data->F64_0[i]));
        }
    }
    assert forall|i: int| 0 <= i < volume(shape) implies #[trigger] parts[0].f64s()[i] == r.times(
        y.f64s()[i],
        r.minus(gy.f64s()[i], r.total(dots, in_line(shape, ax, i), volume(shape) as int)),
    ) by {
        let at = line_rank(shape, ax, i);
        assert(s->Ok_0.data->F64_0[at] == r.total(
            dots,
            in_line(shape, ax, i),
            volume(shape) as int,
        ));
        assert(less(gy.f64s()[i], s->Ok_0.f64s()[at], c->Ok_0.data->F64_0[i]));
        assert(is_difference::<S::D, S>(
            gy.f64s()[i],
            s->Ok_0.f64s()[at],
            c->Ok_0.data->F64_0[i],
        ));
        assert(times(y.f64s()[i], c->Ok_0.f64s()[i], m->Ok_0.data->F64_0[i]));
        assert(is_product::<S::D, S>(
            y.f64s()[i],
            c->Ok_0.f64s()[i],
            m->Ok_0.data->F64_0[i],
        ));
    }
}

/// What the piece of log-softmax is, in 32 bits: `e` is the exponential of the value.
pub(crate) proof fn lemma_log_softmax_piece_f32<S: Scalars>(
    r: Ring<S::F>,
    y: Model<S>,
    axis: usize,
    gy: Model<S>,
    parts: Seq<Model<S>>,
) -> (e: Seq<S::F>)
    requires
        r.computes::<S>(),
        y.data is F32,
        gy.shape == y.shape,
        axis < y.shape.len() <= isize::MAX,
        log_softmax_parts::<S>(y, axis, gy, Ok(parts)),
    ensures
        parts.len() == 1,
        parts[0].shape == y.shape,
        parts[0].data is F32,
        gy.data is F32,
        maps(exp_rel::<S::F, S>(), y.f32s(), e),
        forall|i: int|
            0 <= i < volume(y.shape) ==> #[trigger] parts[0].f32s()[i] == r.minus(
                gy.f32s()[i],
                r.times(
                    e[i],
                    r.total(
                        gy.f32s(),
                        in_line(y.shape, axis as int, i),
                        volume(y.shape) as int,
                    ),
                ),
            ),
{
    reveal(log_softmax_parts);
    let o: Result<Seq<Model<S>>, Error> = Ok(parts);
    let g = choose|g: Outcome<S>| #[trigger]
        exp_out::<S>(y, g) && passes(g, o, log_softmax_sum::<S>(axis, gy, g->Ok_0, o));
    let s = choose|s: Outcome<S>| #[trigger]
        sum_out::<S>(gy, axis_alone(axis), true, s) && passes(
            s,
            o,
            log_softmax_product::<S>(gy, g->Ok_0, s->Ok_0, o),
        );
    let c = choose|c: Outcome<S>| #[trigger]
        mul_out::<S>(g->Ok_0, s->Ok_0, c) && passes(c, o, log_softmax_rest::<S>(gy, c->Ok_0, o));
    let m = choose|m: Outcome<S>| #[trigger]
        sub_out::<S>(gy, c->Ok_0, m) && passes(m, o, gives(o, seq![m->Ok_0]));
    assert(parts == seq![m->Ok_0]);
    let shape = y.shape;
    let ax = axis as int;
    let times = multiplying::<S::F, S>();
    let less = subtracting::<S::F, S>();
    let e = g->Ok_0.data->F32_0;
    assert(g->Ok_0.elems() == g->Ok_0.data);
    assert(joined(shape, line_shape(shape, ax)) =~= shape);
    assert(c->Ok_0.elems() == c->Ok_0.data);
    assert(m->Ok_0.elems() == m->Ok_0.data);
    assert(gy.data is F32);
    lemma_sum_lines_f32::<S>(r, gy, axis, s->Ok_0);
    lemma_zips_lines(times, shape, ax, e, s->Ok_0.f32s(), c->Ok_0.data->F32_0);
    lemma_zips_same(less, shape, gy.f32s(), c->Ok_0.f32s(), m->Ok_0.data->F32_0);
    assert forall|i: int| 0 <= i < volume(shape) implies #[trigger] parts[0].f32s()[i] == r.minus(
        gy.f32s()[i],
        r.times(e[i], r.total(gy.f32s(), in_line(shape, ax, i), volume(shape) as int)),
    ) by {
        let at = line_rank(shape, ax, i);
        assert(s->Ok_0.data->F32_0[at] == r.total(
            gy.f32s(),
            in_line(shape, ax, i),
            volume(shape) as int,
        ));
        assert(times(e[i], s->Ok_0.f32s()[at], c->Ok_0.data->F32_0[i]));
        assert(is_product::<S::F, S>(e[i], s->Ok_0.f32s()[at], c->Ok_0.data->F32_0[i]));
        assert(less(gy.f32s()[i], c->Ok_0.f32s()[i], m->Ok_0.data->F32_0[i]));
        assert(is_difference::<S::F, S>(
            gy.f32s()[i],
            c->Ok_0.f32s()[i],
            m->Ok_0.data->F32_0[i],
        ));
    }
    e
}

/// What the piece of log-softmax is, in 64 bits: `e` is the exponential of the value.
pub(crate) proof fn lemma_log_softmax_piece_f64<S: Scalars>(
    r: Ring<S::D>,
    y: Model<S>,
    axis: usize,
    gy: Model<S>,
    parts: Seq<Model<S>>,
) -> (e: Seq<S::D>)
    requires
        r.computes::<S>(),
        y.data is F64,
        gy.shape == y.shape,
        axis < y.shape.len() <= isize::MAX,
        log_softmax_parts::<S>(y, axis, gy, Ok(parts)),
    ensures
        parts.len() == 1,
        parts[0].shape == y.shape,
        parts[0].data is F64,
        gy.data is F64,
        maps(exp_rel::<S::D, S>(), y.f64s(), e),
        forall|i: int|
            0 <= i < volume(y.shape) ==> #[trigger] parts[0].f64s()[i] == r.minus(
                gy.f64s()[i],
                r.times(
                    e[i],
                    r.total(
                        gy.f64s(),
                        in_line(y.shape, axis as int, i),
                        volume(y.shape) as int,
                    ),
                ),
            ),
{
    reveal(log_softmax_parts);
    let o: Result<Seq<Model<S>>, Error> = Ok(parts);
    let g = choose|g: Outcome<S>| #[trigger]
        exp_out::<S>(y, g) && passes(g, o, log_softmax_sum::<S>(axis, gy, g->Ok_0, o));
    let s = choose|s: Outcome<S>| #[trigger]
        sum_out::<S>(gy, axis_alone(axis), true, s) && passes(
            s,
            o,
            log_softmax_product::<S>(gy, g->Ok_0, s->Ok_0, o),
        );
    let c = choose|c: Outcome<S>| #[trigger]
        mul_out::<S>(g->Ok_0, s->Ok_0, c) && passes(c, o, log_softmax_rest::<S>(gy, c->Ok_0, o));
    let m = choose|m: Outcome<S>| #[trigger]
        sub_out::<S>(gy, c->Ok_0, m) && passes(m, o, gives(o, seq![m->Ok_0]));
    assert(parts == seq![m->Ok_0]);
    let shape = y.shape;
    let ax = axis as int;
    let times = multiplying::<S::D, S>();
    let less = subtracting::<S::D, S>();
    let e = g->Ok_0.data->F64_0;
    assert(g->Ok_0.elems() == g->Ok_0.data);
    assert(joined(shape, line_shape(shape, ax)) =~= shape);
    assert(c->Ok_0.elems() == c->Ok_0.data);
    assert(m->Ok_0.elems() == m->Ok_0.data);
    assert(gy.data is F64);
    lemma_sum_lines_f64::<S>(r, gy, axis, s->Ok_0);
    lemma_zips_lines(times, shape, ax, e, s->Ok_0.f64s(), c->Ok_0.data->F64_0);
    lemma_zips_same(less, shape, gy.f64s(), c->Ok_0.f64s(), m->Ok_0.data->F64_0);
    assert forall|i: int| 0 <= i < volume(shape) implies #[trigger] parts[0].f64s()[i] == r.minus(
        gy.f64s()[i],
        r.times(e[i], r.total(gy.f64s(), in_line(shape, ax, i), volume(shape) as int)),
    ) by {
        let at = line_rank(shape, ax, i);
        assert(s->Ok_0.data->F64_0[at] == r.total(
            gy.f64s(),
            in_line(shape, ax, i),
            volume(shape) as int,
        ));
        assert(times(e[i], s->Ok_0.f64s()[at], c->Ok_0.data->F64_0[i]));
        assert(is_product::<S::D, S>(e[i], s->Ok_0.f64s()[at], c->Ok_0.data->F64_0[i]));
        assert(less(gy.f64s()[i], c->Ok_0.f64s()[i], m->Ok_0.data->F64_0[i]));
        assert(is_difference::<S::D, S>(
            gy.f64s()[i],
            c->Ok_0.f64s()[i],
            m->Ok_0.data->F64_0[i],
        ));
    }
    e
}

/// The gradient through softmax is its transposed matrix of derivatives applied to the cotangent,
/// in every place, for 32-bit data and arithmetic without rounding. So it is linear in the
/// cotangent, and where the value adds up to one along a line, the gradient adds up to zero along
/// it.
pub proof fn law_softmax_gradient_f32<S: Scalars>(
    r: Ring<S::F>,
    y: Model<S>,
    axis: usize,
    gy: Model<S>,
    parts: Seq<Model<S>>,
)
    requires
        r.computes::<S>(),
        y.data is F32,
        gy.shape == y.shape,
        axis < y.shape.len() <= isize::MAX,
        softmax_parts::<S>(y, axis, gy, Ok(parts)),
    ensures
        parts.len() == 1,
        parts[0].shape == y.shape,
        forall|i: int|
            0 <= i < volume(y.shape) ==> #[trigger] parts[0].f32s()[i] == softmax_slope(
                r,
                y.shape,
                axis as int,
                y.f32s(),
                gy.f32s(),
                i,
            ),
        forall|i: int|
            0 <= i < volume(y.shape) && r.total(
                y.f32s(),
                #[trigger] in_line(y.shape, axis as int, i),
                volume(y.shape) as int,
            ) == r.one ==> r.total(
                parts[0].f32s(),
                in_line(y.shape, axis as int, i),
                volume(y.shape) as int,
            ) == r.zero,
{
    lemma_softmax_piece_f32::<S>(r, y, axis, gy, parts);
    let ax = axis as int;
    let (ys, gs) = (y.f32s(), gy.f32s());
    let dots = products(r, gs, ys);
    let n = volume(y.shape) as int;
    assert forall|i: int| 0 <= i < n implies #[trigger] parts[0].f32s()[i] == r.minus(
        dots[i],
        r.times(ys[i], r.total(dots, in_line(y.shape, ax, i), n)),
    ) by {
        lemma_spread(r, ys[i], gs[i], r.total(dots, in_line(y.shape, ax, i), n));
        lemma_laws(r, ys[i], gs[i], gs[i]);
    }
    assert forall|i: int| 0 <= i < n implies #[trigger] parts[0].f32s()[i] == softmax_slope(
        r,
        y.shape,
        ax,
        ys,
        gs,
        i,
    ) by {
        lemma_hot_sum(r, y.shape, ax, dots, ys[i], i);
    }
    assert forall|i: int|
        0 <= i < n && r.total(ys, #[trigger] in_line(y.shape, ax, i), n) == r.one implies r.total(
        parts[0].f32s(),
        in_line(y.shape, ax, i),
        n,
    ) == r.zero by {
        lemma_line_balance(r, y.shape, ax, dots, ys, parts[0].f32s(), i);
    }
}

/// The gradient through log-softmax is its transposed matrix of derivatives applied to the
/// cotangent, in every place, for 32-bit data and arithmetic without rounding: `p` is the softmax,
/// that is the exponential of the value. Where it adds up to one along a line, the gradient adds up
/// to zero along it.
pub proof fn law_log_softmax_gradient_f32<S: Scalars>(
    r: Ring<S::F>,
    y: Model<S>,
    axis: usize,
    gy: Model<S>,
    parts: Seq<Model<S>>,
) -> (p: Seq<S::F>)
    requires
        r.computes::<S>(),
        y.data is F32,
        gy.shape == y.shape,
        axis < y.shape.len() <= isize::MAX,
        log_softmax_parts::<S>(y, axis, gy, Ok(parts)),
    ensures
        parts.len() == 1,
        parts[0].shape == y.shape,
        parts[0].data is F32,
        maps(exp_rel::<S::F, S>(), y.f32s(), p),
        forall|i: int|
            0 <= i < volume(y.shape) ==> #[trigger] parts[0].f32s()[i] == log_softmax_slope(
                r,
                y.shape,
                axis as int,
                p,
                gy.f32s(),
                i,
            ),
        forall|i: int|
            0 <= i < volume(y.shape) && r.total(
                p,
                #[trigger] in_line(y.shape, axis as int, i),
                volume(y.shape) as int,
            ) == r.one ==> r.total(
                parts[0].f32s(),
                in_line(y.shape, axis as int, i),
                volume(y.shape) as int,
            ) == r.zero,
{
    let p = lemma_log_softmax_piece_f32::<S>(r, y, axis, gy, parts);
    let ax = axis as int;
    let gs = gy.f32s();
    let n = volume(y.shape) as int;
    assert forall|i: int| 0 <= i < n implies #[trigger] parts[0].f32s()[i] == log_softmax_slope(
        r,
        y.shape,
        ax,
        p,
        gs,
        i,
    ) by {
        lemma_hot_sum(r, y.shape, ax, gs, p[i], i);
    }
    assert forall|i: int|
        0 <= i < n && r.total(p, #[trigger] in_line(y.shape, ax, i), n) == r.one implies r.total(
        parts[0].f32s(),
        in_line(y.shape, ax, i),
        n,
    ) == r.zero by {
        lemma_line_balance(r, y.shape, ax, gs, p, parts[0].f32s(), i);
    }
    p
}

/// The gradient through softmax is its transposed matrix of derivatives applied to the cotangent,
/// in every place, for 64-bit data and arithmetic without rounding. So it is linear in the
/// cotangent, and where the value adds up to one along a line, the gradient adds up to zero along
/// it.
pub proof fn law_softmax_gradient_f64<S: Scalars>(
    r: Ring<S::D>,
    y: Model<S>,
    axis: usize,
    gy: Model<S>,
    parts: Seq<Model<S>>,
)
    requires
        r.computes::<S>(),
        y.data is F64,
        gy.shape == y.shape,
        axis < y.shape.len() <= isize::MAX,
        softmax_parts::<S>(y, axis, gy, Ok(parts)),
    ensures
        parts.len() == 1,
        parts[0].shape == y.shape,
        forall|i: int|
            0 <= i < volume(y.shape) ==> #[trigger] parts[0].f64s()[i] == softmax_slope(
                r,
                y.shape,
                axis as int,
                y.f64s(),
                gy.f64s(),
                i,
            ),
        forall|i: int|
            0 <= i < volume(y.shape) && r.total(
                y.f64s(),
                #[trigger] in_line(y.shape, axis as int, i),
                volume(y.shape) as int,
            ) == r.one ==> r.total(
                parts[0].f64s(),
                in_line(y.shape, axis as int, i),
                volume(y.shape) as int,
            ) == r.zero,
{
    lemma_softmax_piece_f64::<S>(r, y, axis, gy, parts);
    let ax = axis as int;
    let (ys, gs) = (y.f64s(), gy.f64s());
    let dots = products(r, gs, ys);
    let n = volume(y.shape) as int;
    assert forall|i: int| 0 <= i < n implies #[trigger] parts[0].f64s()[i] == r.minus(
        dots[i],
        r.times(ys[i], r.total(dots, in_line(y.shape, ax, i), n)),
    ) by {
        lemma_spread(r, ys[i], gs[i], r.total(dots, in_line(y.shape, ax, i), n));
        lemma_laws(r, ys[i], gs[i], gs[i]);
    }
    assert forall|i: int| 0 <= i < n implies #[trigger] parts[0].f64s()[i] == softmax_slope(
        r,
        y.shape,
        ax,
        ys,
        gs,
        i,
    ) by {
        lemma_hot_sum(r, y.shape, ax, dots, ys[i], i);
    }
    assert forall|i: int|
        0 <= i < n && r.total(ys, #[trigger] in_line(y.shape, ax, i), n) == r.one implies r.total(
        parts[0].f64s(),
        in_line(y.shape, ax, i),
        n,
    ) == r.zero by {
        lemma_line_balance(r, y.shape, ax, dots, ys, parts[0].f64s(), i);
    }
}

/// The gradient through log-softmax is its transposed matrix of derivatives applied to the
/// cotangent, in every place, for 64-bit data and arithmetic without rounding: `p` is the softmax,
/// that is the exponential of the value. Where it adds up to one along a line, the gradient adds up
/// to zero along it.
pub proof fn law_log_softmax_gradient_f64<S: Scalars>(
    r: Ring<S::D>,
    y: Model<S>,
    axis: usize,
    gy: Model<S>,
    parts: Seq<Model<S>>,
) -> (p: Seq<S::D>)
    requires
        r.computes::<S>(),
        y.data is F64,
        gy.shape == y.shape,
        axis < y.shape.len() <= isize::MAX,
        log_softmax_parts::<S>(y, axis, gy, Ok(parts)),
    ensures
        parts.len() == 1,
        parts[0].shape == y.shape,
        parts[0].data is F64,
        maps(exp_rel::<S::D, S>(), y.f64s(), p),
        forall|i: int|
            0 <= i < volume(y.shape) ==> #[trigger] parts[0].f64s()[i] == log_softmax_slope(
                r,
                y.shape,
                axis as int,
                p,
                gy.f64s(),
                i,
            ),
        forall|i: int|
            0 <= i < volume(y.shape) && r.total(
                p,
                #[trigger] in_line(y.shape, axis as int, i),
                volume(y.shape) as int,
            ) == r.one ==> r.total(
                parts[0].f64s(),
                in_line(y.shape, axis as int, i),
                volume(y.shape) as int,
            ) == r.zero,
{
    let p = lemma_log_softmax_piece_f64::<S>(r, y, axis, gy, parts);
    let ax = axis as int;
    let gs = gy.f64s();
    let n = volume(y.shape) as int;
    assert forall|i: int| 0 <= i < n implies #[trigger] parts[0].f64s()[i] == log_softmax_slope(
        r,
        y.shape,
        ax,
        p,
        gs,
        i,
    ) by {
        lemma_hot_sum(r, y.shape, ax, gs, p[i], i);
    }
    assert forall|i: int|
        0 <= i < n && r.total(p, #[trigger] in_line(y.shape, ax, i), n) == r.one implies r.total(
        parts[0].f64s(),
        in_line(y.shape, ax, i),
        n,
    ) == r.zero by {
        lemma_line_balance(r, y.shape, ax, gs, p, parts[0].f64s(), i);
    }
    p
}

} // verus!
