//! What whitening and the scores of a categorical distribution are.
use vstd::prelude::*;
use crate::ad::{
    add_tracked, div_tracked, goes_on, mean_tracked, mul_tracked, sqrt_tracked, sub_tracked,
    sum_tracked,
};
use crate::ad_composed::{
    constant_out, is_minus_one, mul_scalar_product, mul_scalar_tracked, neg_tracked, stddev_root,
    stddev_tracked, variance_tracked,
};
use crate::algebra::{
    differences, lemma_spread, lemma_total_agree, lemma_undo, lemma_zero, multiple, products,
};
use crate::calculus::{
    carries, exact, lemma_cancels, lemma_carries, lemma_carries_multiple, lemma_counts,
    lemma_divides, lemma_squares_back,
};
use crate::classes::minus_one;
use crate::cpu::{add_out, div_out, mul_out, scaled_f32, scaled_f64, sub_out};
use crate::elementwise::{source_rank, unary_value, zips};
use crate::index::{lemma_unravel, ravel, unravel, volume};
use crate::lines::{
    in_line, lemma_axis_marks, lemma_line, lemma_same_line, lemma_zips_same, line_rank,
};
use crate::nn::{
    categorical_entropy_tracked, end_alone, entropy_logarithms, entropy_negative, entropy_products,
    entropy_sum, guard_out, whiten_centered, whiten_deviation, whiten_divisor, whiten_guard,
    whiten_quotient, whiten_tracked,
};
use crate::nodes::Node;
use crate::norm_law::alike;
use crate::pointwise_law::{lemma_one_f32, lemma_one_f64};
use crate::reduce::{
    all_marked, asked_axes, axes_product, is_share, kept_shape, lemma_kept_all, marked,
    mean_of_sum, mean_out, sum_out, sum_value,
};
use crate::ring::{grouped, lemma_laws, Ring};
use crate::rules::axis_alone;
use crate::scalar::{
    adding, dividing, every, is_difference, is_one, is_product, is_quotient, is_ratio, is_sum,
    multiplying, subtracting, Arith, Scalars,
};
use crate::shape::{aligned, joined};
use crate::softmax::{log_softmax_tracked, log_values_out, softmax_tracked, softmax_values_out};
use crate::spread_law::lemma_variance_stages;
use crate::sum_law::{goes_to, lemma_kept_source, lemma_sum_groups_f32, lemma_sum_groups_f64};
use crate::tensor::{Model, Outcome};
use crate::unary::{sqrt_out, sqrt_rel};
use crate::views::narrowed;

verus! {

/// Every side is one.
pub open spec fn all_ones(shape: Seq<usize>) -> bool {
    forall|k: int| 0 <= k < shape.len() ==> #[trigger] shape[k] == 1
}

proof fn lemma_ravel_ones(shape: Seq<usize>, idx: Seq<int>)
    requires
        all_ones(shape),
        idx.len() == shape.len(),
        forall|k: int| 0 <= k < idx.len() ==> #[trigger] idx[k] == 0,
    ensures
        ravel(shape, idx) == 0,
        volume(shape) == 1,
    decreases shape.len(),
{
    if shape.len() > 0 {
        let (s, i) = (shape.drop_last(), idx.drop_last());
        assert forall|k: int| 0 <= k < s.len() implies #[trigger] s[k] == 1 by {
            assert(s[k] == shape[k]);
        }
        assert forall|k: int| 0 <= k < i.len() implies #[trigger] i[k] == 0 by {
            assert(i[k] == idx[k]);
        }
        lemma_ravel_ones(s, i);
        assert(shape[shape.len() - 1] == 1 && idx[idx.len() - 1] == 0);
        assert(volume(s) * 1 == 1);
    }
}

/// Pairing a tensor with a single number.
pub(crate) proof fn lemma_zips_number<T>(
    rel: spec_fn(T, T, T) -> bool,
    shape: Seq<usize>,
    small: Seq<usize>,
    a: Seq<T>,
    b: Seq<T>,
    out: Seq<T>,
)
    requires
        all_ones(small),
        small.len() <= shape.len(),
        zips(rel, shape, a, small, b, out),
    ensures
        joined(shape, small) == shape,
        out.len() == volume(shape),
        forall|i: int| 0 <= i < volume(shape) ==> rel(a[i], b[0], #[trigger] out[i]),
{
    let both = joined(shape, small);
    assert(both =~= shape) by {
        assert forall|k: int| 0 <= k < shape.len() implies both[k] == shape[k] by {
            let rank = shape.len() as int;
            assert(aligned(shape, rank, k) == shape[k]);
            assert(aligned(small, rank, k) == 1) by {
                if k >= rank - small.len() {
                    assert(small[k - (rank - small.len())] == 1);
                }
            }
        }
    }
    assert forall|i: int| 0 <= i < volume(shape) implies rel(a[i], b[0], #[trigger] out[i]) by {
        lemma_unravel(shape, i);
        let idx = unravel(shape, i);
        assert(narrowed(shape, idx) =~= idx) by {
            assert forall|k: int| 0 <= k < shape.len() implies narrowed(shape, idx)[k]
                == idx[k] by {
                assert(0 <= idx[k] < shape[k]);
            }
        }
        let none = narrowed(small, idx);
        assert forall|k: int| 0 <= k < none.len() implies #[trigger] none[k] == 0 by {
            assert(small[k] == 1);
        }
        lemma_ravel_ones(small, none);
        assert(source_rank(shape, shape, i) == i);
        assert(source_rank(small, shape, i) == 0);
    }
}

/// The first `k` axes hold as many positions as their sides say.
proof fn lemma_first_axes(shape: Seq<usize>, k: int)
    requires
        0 <= k <= shape.len(),
        0 < volume(shape) <= usize::MAX,
        shape.len() <= usize::MAX,
    ensures
        axes_product(shape, Seq::new(k as nat, |i: int| i as usize)) == volume(shape.take(k)),
        0 < volume(shape.take(k)) <= volume(shape),
    decreases k,
{
    lemma_front_volume(shape, k);
    if k > 0 {
        lemma_first_axes(shape, k - 1);
        let axes = Seq::new(k as nat, |i: int| i as usize);
        assert(axes.drop_last() =~= Seq::new((k - 1) as nat, |i: int| i as usize));
        assert(shape.take(k).drop_last() =~= shape.take(k - 1));
        assert(shape.take(k).last() == shape[k - 1]);
    }
}

proof fn lemma_front_volume(shape: Seq<usize>, k: int)
    requires
        0 <= k <= shape.len(),
        0 < volume(shape),
    ensures
        0 < volume(shape.take(k)) <= volume(shape),
    decreases shape.len() - k,
{
    if k < shape.len() {
        lemma_front_volume(shape, k + 1);
        let (a, b) = (volume(shape.take(k)), shape[k] as nat);
        assert(shape.take(k + 1).drop_last() =~= shape.take(k));
        assert(0 < a <= a * b) by (nonlinear_arith)
            requires
                0 < a * b,
        ;
    } else {
        assert(shape.take(k) =~= shape);
    }
}

/// The stages of whitening, each value beside the tensor that carries it on.
proof fn lemma_whiten_stages<S: Scalars>(
    before: Seq<Node<S>>,
    after: Seq<Node<S>>,
    x: Model<S>,
    y: Model<S>,
) -> (w: (Seq<(Model<S>, Model<S>)>, Model<S>, (Seq<Node<S>>, Seq<Node<S>>)))
    requires
        whiten_tracked::<S>(before, after, x, Ok(y)),
    ensures
        w.0.len() == 4,
        alike::<S>(w.0[0].1, w.0[0].0),
        alike::<S>(w.0[1].1, w.0[1].0),
        alike::<S>(w.0[2].1, w.0[2].0),
        alike::<S>(w.0[3].1, w.0[3].0),
        mean_out::<S>(x, None, false, Ok(w.0[0].0)),
        stddev_tracked::<S>((w.2).0, (w.2).1, x, None, false, Ok(w.1)),
        sub_out::<S>(x, w.0[0].1, Ok(w.0[1].0)),
        exists|e: Model<S>|
            #![trigger guard_out::<S>(x.dtype(), Ok(e))]
            guard_out::<S>(x.dtype(), Ok(e)) && add_out::<S>(w.1, e, Ok(w.0[2].0)),
        div_out::<S>(w.0[1].1, w.0[2].1, Ok(w.0[3].0)),
        w.0[3].1 == y,
{
    let res: Outcome<S> = Ok(y);
    let (g1, o1) = choose|g: Seq<Node<S>>, o: Outcome<S>| #[trigger]
        mean_tracked::<S>(before, g, x, None, false, o) && goes_on(
            o,
            g,
            res,
            after,
            whiten_deviation::<S>(g, after, x, o->Ok_0, res),
        );
    let m = o1->Ok_0;
    let (g2, o2) = choose|g: Seq<Node<S>>, o: Outcome<S>| #[trigger]
        stddev_tracked::<S>(g1, g, x, None, false, o) && goes_on(
            o,
            g,
            res,
            after,
            whiten_guard::<S>(g, after, x, m, o->Ok_0, res),
        );
    let s = o2->Ok_0;
    let o3 = choose|o: Outcome<S>| #[trigger]
        guard_out::<S>(x.dtype(), o) && goes_on(
            o,
            g2,
            res,
            after,
            whiten_centered::<S>(g2, after, x, m, s, o->Ok_0, res),
        );
    let e = o3->Ok_0;
    let (g4, o4) = choose|g: Seq<Node<S>>, o: Outcome<S>| #[trigger]
        sub_tracked::<S>(g2, g, x, m, o) && goes_on(
            o,
            g,
            res,
            after,
            whiten_divisor::<S>(g, after, s, e, o->Ok_0, res),
        );
    let c = o4->Ok_0;
    let (g5, o5) = choose|g: Seq<Node<S>>, o: Outcome<S>| #[trigger]
        add_tracked::<S>(g4, g, s, e, o) && goes_on(
            o,
            g,
            res,
            after,
            whiten_quotient::<S>(g, after, c, o->Ok_0, res),
        );
    let d = o5->Ok_0;
    assert(div_tracked::<S>(g5, after, c, d, res));
    let m0 = choose|t: Outcome<S>| #[trigger]
        mean_out::<S>(x, None, false, t) && t is Ok && alike::<S>(m, t->Ok_0);
    let c0 = choose|t: Outcome<S>| #[trigger]
        sub_out::<S>(x, m, t) && t is Ok && alike::<S>(c, t->Ok_0);
    let d0 = choose|t: Outcome<S>| #[trigger]
        add_out::<S>(s, e, t) && t is Ok && alike::<S>(d, t->Ok_0);
    let y0 = choose|t: Outcome<S>| #[trigger]
        div_out::<S>(c, d, t) && t is Ok && alike::<S>(y, t->Ok_0);
    assert(guard_out::<S>(x.dtype(), Ok(e)));
    (
        seq![(m0->Ok_0, m), (c0->Ok_0, c), (d0->Ok_0, d), (y0->Ok_0, y)],
        s,
        (g1, g2),
    )
}

/// What is left of a shape when every axis is taken together.
proof fn lemma_marked_shape(shape: Seq<usize>, red: Seq<bool>, keep: bool)
    requires
        red.len() == shape.len(),
        all_marked(red),
    ensures
        all_ones(kept_shape(shape, red, keep)),
        kept_shape(shape, red, keep).len() == if keep {
            shape.len()
        } else {
            0
        },
    decreases shape.len(),
{
    if shape.len() > 0 {
        let (s, m) = (shape.drop_last(), red.drop_last());
        assert forall|k: int| 0 <= k < m.len() implies #[trigger] m[k] by {
            assert(m[k] == red[k]);
        }
        lemma_marked_shape(s, m, keep);
        assert(red[red.len() - 1]);
    }
}

/// The stages of a categorical entropy, each value beside the tensor that carries it on.
proof fn lemma_entropy_stages<S: Scalars>(
    before: Seq<Node<S>>,
    after: Seq<Node<S>>,
    logits: Model<S>,
    h: Model<S>,
) -> (w: (Seq<(Model<S>, Model<S>)>, (S::D, Model<S>)))
    requires
        categorical_entropy_tracked::<S>(before, after, logits, Ok(h)),
    ensures
        w.0.len() == 5,
        forall|k: int| 0 <= k < 5 ==> alike::<S>((#[trigger] w.0[k]).1, w.0[k].0),
        softmax_values_out::<S>(logits, minus_one(), Ok(w.0[0].0)),
        log_values_out::<S>(logits, minus_one(), Ok(w.0[1].0)),
        mul_out::<S>(w.0[0].1, w.0[1].1, Ok(w.0[2].0)),
        sum_out::<S>(w.0[2].1, end_alone(), false, Ok(w.0[3].0)),
        is_minus_one::<S::D, S>((w.1).0),
        constant_out::<S>("mul_scalar"@, w.0[3].1.dtype(), (w.1).0, Ok((w.1).1)),
        mul_out::<S>(w.0[3].1, (w.1).1, Ok(w.0[4].0)),
        w.0[4].1 == h,
{
    let res: Outcome<S> = Ok(h);
    let (g1, o1) = choose|g: Seq<Node<S>>, o: Outcome<S>| #[trigger]
        softmax_tracked::<S>(before, g, logits, minus_one(), o) && goes_on(
            o,
            g,
            res,
            after,
            entropy_logarithms::<S>(g, after, logits, o->Ok_0, res),
        );
    let p = o1->Ok_0;
    let (g2, o2) = choose|g: Seq<Node<S>>, o: Outcome<S>| #[trigger]
        log_softmax_tracked::<S>(g1, g, logits, minus_one(), o) && goes_on(
            o,
            g,
            res,
            after,
            entropy_products::<S>(g, after, p, o->Ok_0, res),
        );
    let lp = o2->Ok_0;
    let (g3, o3) = choose|g: Seq<Node<S>>, o: Outcome<S>| #[trigger]
        mul_tracked::<S>(g2, g, p, lp, o) && goes_on(
            o,
            g,
            res,
            after,
            entropy_sum::<S>(g, after, o->Ok_0, res),
        );
    let m = o3->Ok_0;
    let (g4, o4) = choose|g: Seq<Node<S>>, o: Outcome<S>| #[trigger]
        sum_tracked::<S>(g3, g, m, end_alone(), false, o) && goes_on(
            o,
            g,
            res,
            after,
            entropy_negative::<S>(g, after, o->Ok_0, res),
        );
    let s = o4->Ok_0;
    assert(neg_tracked::<S>(g4, after, s, res));
    let k = choose|k: S::D| #[trigger]
        is_minus_one::<S::D, S>(k) && mul_scalar_tracked::<S>(g4, after, s, k, res);
    let o5 = choose|o: Outcome<S>| #[trigger]
        constant_out::<S>("mul_scalar"@, s.dtype(), k, o) && goes_on(
            o,
            g4,
            res,
            after,
            mul_scalar_product::<S>(g4, after, s, o->Ok_0, res),
        );
    let c = o5->Ok_0;
    assert(mul_tracked::<S>(g4, after, s, c, res));
    let p0 = choose|t: Outcome<S>| #[trigger]
        softmax_values_out::<S>(logits, minus_one(), t) && t is Ok && alike::<S>(p, t->Ok_0);
    let l0 = choose|t: Outcome<S>| #[trigger]
        log_values_out::<S>(logits, minus_one(), t) && t is Ok && alike::<S>(lp, t->Ok_0);
    let m0 = choose|t: Outcome<S>| #[trigger]
        mul_out::<S>(p, lp, t) && t is Ok && alike::<S>(m, t->Ok_0);
    let s0 = choose|t: Outcome<S>| #[trigger]
        sum_out::<S>(m, end_alone(), false, t) && t is Ok && alike::<S>(s, t->Ok_0);
    let h0 = choose|t: Outcome<S>| #[trigger]
        mul_out::<S>(s, c, t) && t is Ok && alike::<S>(h, t->Ok_0);
    (
        seq![
            (p0->Ok_0, p),
            (l0->Ok_0, lp),
            (m0->Ok_0, m),
            (s0->Ok_0, s),
            (h0->Ok_0, h),
        ],
        (k, c),
    )
}

/// A mean over everything, times the number of elements, is their sum.
proof fn lemma_mean_all_f32<S: Scalars>(
    r: Ring<S::F>,
    q: Ring<S::D>,
    to: spec_fn(S::D) -> S::F,
    x: Model<S>,
    keep: bool,
    t: Model<S>,
)
    requires
        exact::<S::F, S>(r),
        exact::<S::D, S>(q),
        carries::<S>(r, q, to),
        x.data is F32,
        x.shape.len() <= isize::MAX,
        0 < volume(x.shape) <= usize::MAX,
        multiple(q, volume(x.shape)) != q.zero,
        mean_out::<S>(x, None, keep, Ok(t)),
    ensures
        t.data is F32,
        all_ones(t.shape),
        t.shape.len() <= x.shape.len(),
        !keep ==> t.shape.len() == 0,
        t.f32s().len() == 1,
        r.times(t.f32s()[0], multiple(r, volume(x.shape))) == r.total(
            x.f32s(),
            every(),
            volume(x.shape) as int,
        ),
{
    let shape = x.shape;
    let rank = shape.len();
    let vol = volume(shape);
    let asked = asked_axes(None, rank);
    let marks = marked(asked, rank);
    lemma_first_axes(shape, rank as int);
    assert(asked =~= Seq::new(rank, |i: int| i as usize));
    assert(shape.take(rank as int) =~= shape);
    assert(all_marked(marks)) by {
        assert forall|k: int| 0 <= k < rank implies #[trigger] marks[k] by {
            assert(asked[k] == k as usize);
        }
    }
    let n = vol as usize;
    let s = choose|s: Model<S>| #[trigger]
        sum_value::<S>(x, marks, keep, s) && mean_of_sum::<S>(s, n, t);
    lemma_sum_groups_f32::<S>(r, x, marks, keep, s);
    let k = choose|k: S::D| #[trigger]
        is_share::<S::D, S>(n, k) && unary_value::<S>(
            s,
            scaled_f32::<S>(k),
            scaled_f64::<S>(k),
            t,
        );
    let (one, count) = choose|one: S::D, count: S::D| #[trigger]
        is_one::<S::D, S>(one) && #[trigger] call_ensures(
            <S as Arith<S::D>>::count,
            (n,),
            count,
        ) && is_quotient::<S::D, S>(one, count, k);
    let c = multiple(r, vol);
    lemma_counts::<S::D, S>(q, n, count);
    lemma_divides::<S::D, S>(q, one, count, k);
    lemma_carries::<S>(r, q, to, k, count);
    lemma_carries_multiple::<S>(r, q, to, vol);
    lemma_one_f32::<S>(s, scaled_f32::<S>(k), scaled_f64::<S>(k), t);
    let pick = grouped(goes_to(shape, marks, keep), 0);
    lemma_unravel(shape, 0);
    lemma_kept_all(shape, marks, keep, unravel(shape, 0));
    let xs = x.f32s();
    assert forall|j: int| 0 <= j < vol implies every()(j) == #[trigger] pick(j) by {
        lemma_unravel(shape, j);
        lemma_kept_all(shape, marks, keep, unravel(shape, j));
    }
    lemma_total_agree(r, xs, xs, every(), pick, vol as int);
    let v = s.f32s()[0];
    assert(v == r.total(xs, pick, vol as int));
    assert(scaled_f32::<S>(k)(v, t.f32s()[0]));
    assert(is_product::<S::F, S>(v, to(k), t.f32s()[0]));
    lemma_laws(r, v, to(k), c);
    lemma_zero(r, v);
    lemma_marked_shape(shape, marks, keep);
}

/// Whitening: with `mean` the mean of all elements and `dev` the root of the mean of the squared
/// differences from it, every output times `dev` and the guard is the element less `mean`. The
/// guard is `1e-8`. On 32-bit floats.
pub proof fn law_whiten_f32<S: Scalars>(
    r: Ring<S::F>,
    q: Ring<S::D>,
    to: spec_fn(S::D) -> S::F,
    before: Seq<Node<S>>,
    after: Seq<Node<S>>,
    x: Model<S>,
    y: Model<S>,
) -> (w: (S::F, S::F, S::F))
    requires
        exact::<S::F, S>(r),
        exact::<S::D, S>(q),
        carries::<S>(r, q, to),
        x.data is F32,
        x.shape.len() <= isize::MAX,
        0 < volume(x.shape) <= usize::MAX,
        multiple(q, volume(x.shape)) != q.zero,
        multiple(r, volume(x.shape)) != r.zero,
        whiten_tracked::<S>(before, after, x, Ok(y)),
    ensures
        y.shape == x.shape,
        r.times(w.0, multiple(r, volume(x.shape))) == r.total(
            x.f32s(),
            every(),
            volume(x.shape) as int,
        ),
        r.times(r.times(w.1, w.1), multiple(r, volume(x.shape))) == r.total(
            products(
                r,
                differences(r, x.f32s(), Seq::new(volume(x.shape), |k: int| w.0)),
                differences(r, x.f32s(), Seq::new(volume(x.shape), |k: int| w.0)),
            ),
            every(),
            volume(x.shape) as int,
        ),
        is_ratio::<S::F, S>(1, 100000000, w.2),
        r.plus(w.1, w.2) != r.zero ==> forall|i: int|
            0 <= i < volume(x.shape) ==> r.times(#[trigger] y.f32s()[i], r.plus(w.1, w.2))
                == r.minus(x.f32s()[i], w.0),
{
    let shape = x.shape;
    let n = volume(shape) as int;
    let cn = multiple(r, volume(shape));
    let (t, s, gg) = lemma_whiten_stages::<S>(before, after, x, y);
    let (m, c, d) = (t[0].1, t[1].1, t[2].1);
    let (m0, c0, d0, y0) = (t[0].0, t[1].0, t[2].0, t[3].0);
    let e = choose|e: Model<S>|
        #![trigger guard_out::<S>(x.dtype(), Ok(e))]
        guard_out::<S>(x.dtype(), Ok(e)) && add_out::<S>(s, e, Ok(d0));
    lemma_mean_all_f32::<S>(r, q, to, x, false, m0);
    let mean = m.f32s()[0];
    // The standard deviation.
    let sres: Outcome<S> = Ok(s);
    let (g, o) = choose|g: Seq<Node<S>>, o: Outcome<S>| #[trigger]
        variance_tracked::<S>(gg.0, g, x, None, false, o) && goes_on(
            o,
            g,
            sres,
            gg.1,
            stddev_root::<S>(g, gg.1, o->Ok_0, sres),
        );
    let v = o->Ok_0;
    assert(sqrt_tracked::<S>(g, gg.1, v, sres));
    let rt = choose|q: Outcome<S>| #[trigger]
        sqrt_out::<S>(v, q) && q is Ok && alike::<S>(s, q->Ok_0);
    let vs = lemma_variance_stages::<S>(gg.0, g, x, None, false, v);
    let (km, xc, sq) = (vs[0].1, vs[1].1, vs[2].1);
    lemma_mean_all_f32::<S>(r, q, to, x, true, vs[0].0);
    let less = subtracting::<S::F, S>();
    lemma_zips_number(less, shape, km.shape, x.f32s(), km.f32s(), xc.data->F32_0);
    assert(vs[1].0.elems() == vs[1].0.data);
    assert(xc.f32s() == xc.data->F32_0);
    let times = multiplying::<S::F, S>();
    lemma_zips_same(times, shape, xc.f32s(), xc.f32s(), sq.data->F32_0);
    assert(vs[2].0.elems() == vs[2].0.data);
    lemma_cancels(r, km.f32s()[0], mean, cn);
    let means = Seq::new(volume(shape), |k: int| mean);
    let diff = differences(r, x.f32s(), means);
    assert forall|k: int| 0 <= k < n implies #[trigger] xc.f32s()[k] == diff[k] by {
        assert(less(x.f32s()[k], km.f32s()[0], xc.data->F32_0[k]));
        assert(is_difference::<S::F, S>(x.f32s()[k], mean, xc.data->F32_0[k]));
    }
    assert(xc.f32s() =~= diff);
    assert(sq.f32s() =~= products(r, diff, diff)) by {
        assert forall|k: int| 0 <= k < n implies #[trigger] sq.f32s()[k] == products(
            r,
            diff,
            diff,
        )[k] by {
            assert(times(xc.f32s()[k], xc.f32s()[k], sq.data->F32_0[k]));
            assert(is_product::<S::F, S>(diff[k], diff[k], sq.data->F32_0[k]));
        }
    }
    lemma_mean_all_f32::<S>(r, q, to, sq, false, vs[3].0);
    assert(v.f32s() == vs[3].0.f32s());
    lemma_one_f32::<S>(v, sqrt_rel::<S::F, S>(), sqrt_rel::<S::D, S>(), rt->Ok_0);
    assert(volume(v.shape) == 1) by {
        lemma_ravel_ones(v.shape, Seq::new(v.shape.len(), |k: int| 0int));
    }
    assert(sqrt_rel::<S::F, S>()(v.f32s()[0], rt->Ok_0.f32s()[0]));
    let dev = s.f32s()[0];
    lemma_squares_back::<S::F, S>(r, v.f32s()[0], dev);
    // The divisor.
    assert(e.elems() == e.data);
    let guard = e.f32s()[0];
    assert(e.data->F32_0.len() == 1);
    let plus = adding::<S::F, S>();
    assert(s.shape == e.shape);
    lemma_zips_same(plus, s.shape, s.f32s(), e.f32s(), d0.data->F32_0);
    assert(d0.elems() == d0.data);
    assert(plus(dev, guard, d0.data->F32_0[0]));
    assert(is_sum::<S::F, S>(dev, guard, d.f32s()[0]));
    // The differences and the quotients.
    lemma_zips_number(less, shape, m.shape, x.f32s(), m.f32s(), c.data->F32_0);
    assert(c0.elems() == c0.data);
    assert(c.f32s() == c.data->F32_0);
    let over = dividing::<S::F, S>();
    lemma_zips_number(over, shape, d.shape, c.f32s(), d.f32s(), y.data->F32_0);
    assert(y0.elems() == y0.data);
    assert(y.f32s() == y.data->F32_0);
    if r.plus(dev, guard) != r.zero {
        assert forall|i: int| 0 <= i < n implies r.times(
            #[trigger] y.f32s()[i],
            r.plus(dev, guard),
        ) == r.minus(x.f32s()[i], mean) by {
            assert(less(x.f32s()[i], m.f32s()[0], c.data->F32_0[i]));
            assert(is_difference::<S::F, S>(x.f32s()[i], mean, c.f32s()[i]));
            assert(over(c.f32s()[i], d.f32s()[0], y.data->F32_0[i]));
            lemma_divides::<S::F, S>(r, c.f32s()[i], d.f32s()[0], y.f32s()[i]);
        }
    }
    (mean, dev, guard)
}

/// The entropy of a categorical distribution and the sum of the probabilities times their
/// logarithms add up to zero. On 32-bit floats.
pub proof fn law_categorical_entropy_f32<S: Scalars>(
    r: Ring<S::F>,
    q: Ring<S::D>,
    to: spec_fn(S::D) -> S::F,
    before: Seq<Node<S>>,
    after: Seq<Node<S>>,
    logits: Model<S>,
    h: Model<S>,
    i: int,
) -> (w: (Model<S>, Model<S>))
    requires
        r.computes::<S>(),
        q.computes::<S>(),
        carries::<S>(r, q, to),
        forall|s: S::D| #[trigger]
            is_ratio::<S::D, S>((-1) as i64, 1, s) ==> s == q.minus(q.zero, q.one),
        logits.data is F32,
        h.data is F32,
        0 < logits.shape.len() <= isize::MAX,
        0 <= i < volume(logits.shape),
        categorical_entropy_tracked::<S>(before, after, logits, Ok(h)),
    ensures
        softmax_values_out::<S>(logits, minus_one(), Ok(w.0)),
        log_values_out::<S>(logits, minus_one(), Ok(w.1)),
        w.0.shape == logits.shape && w.1.shape == logits.shape ==> r.plus(
            h.f32s()[line_rank(logits.shape, logits.shape.len() - 1, i)],
            r.total(
                products(r, w.0.f32s(), w.1.f32s()),
                in_line(logits.shape, logits.shape.len() - 1, i),
                volume(logits.shape) as int,
            ),
        ) == r.zero,
{
    let (t, kc) = lemma_entropy_stages::<S>(before, after, logits, h);
    let (k, c) = kc;
    let (p0, l0, m0, s0, h0) = (t[0].0, t[1].0, t[2].0, t[3].0, t[4].0);
    let (p, lp, m, s) = (t[0].1, t[1].1, t[2].1, t[3].1);
    let shape = logits.shape;
    if p0.shape == shape && l0.shape == shape {
        let ax = shape.len() - 1;
        let axis = ax as usize;
        let n = volume(shape) as int;
        let times = multiplying::<S::F, S>();
        assert(h0.elems() == h0.data && s0.elems() == s0.data && m0.elems() == m0.data);
        lemma_zips_same(times, shape, p.f32s(), lp.f32s(), m.data->F32_0);
        let w = products(r, p.f32s(), lp.f32s());
        assert(m.f32s() =~= w) by {
            assert forall|j: int| 0 <= j < n implies #[trigger] m.f32s()[j] == w[j] by {
                assert(times(p.f32s()[j], lp.f32s()[j], m.data->F32_0[j]));
                assert(is_product::<S::F, S>(p.f32s()[j], lp.f32s()[j], m.data->F32_0[j]));
            }
        }
        let asked = asked_axes(end_alone(), shape.len());
        assert(asked =~= asked_axes(axis_alone(axis), shape.len()));
        lemma_axis_marks(axis, shape.len());
        let marks = marked(asked, shape.len());
        lemma_sum_groups_f32::<S>(r, m, marks, false, s0);
        let at = line_rank(shape, ax, i);
        lemma_line(shape, ax, i);
        lemma_kept_source(shape, marks, i);
        let pick = grouped(goes_to(shape, marks, false), at);
        let line = in_line(shape, ax, i);
        assert forall|j: int| 0 <= j < n implies #[trigger] pick(j) == line(j) by {
            lemma_line(shape, ax, j);
            lemma_kept_source(shape, marks, j);
            lemma_same_line(shape, ax, i, j);
        }
        lemma_total_agree(r, w, w, pick, line, n);
        let total = s.f32s()[at];
        assert(total == r.total(w, line, n));
        assert(c.elems() == c.data);
        lemma_zips_number(times, s.shape, c.shape, s.f32s(), c.f32s(), h.data->F32_0);
        assert(times(total, c.f32s()[0], h.data->F32_0[at]));
        assert(is_product::<S::F, S>(total, c.f32s()[0], h.f32s()[at]));
        lemma_carries::<S>(r, q, to, q.zero, q.one);
        assert(c.f32s()[0] == r.minus(r.zero, r.one));
        lemma_spread(r, total, r.zero, r.one);
        lemma_zero(r, total);
        lemma_undo(r, r.zero, total);
    }
    (p0, l0)
}

/// A mean over everything, times the number of elements, is their sum.
proof fn lemma_mean_all_f64<S: Scalars>(
    r: Ring<S::D>,
    x: Model<S>,
    keep: bool,
    t: Model<S>,
)
    requires
        exact::<S::D, S>(r),
        x.data is F64,
        x.shape.len() <= isize::MAX,
        0 < volume(x.shape) <= usize::MAX,
        multiple(r, volume(x.shape)) != r.zero,
        mean_out::<S>(x, None, keep, Ok(t)),
    ensures
        t.data is F64,
        all_ones(t.shape),
        t.shape.len() <= x.shape.len(),
        !keep ==> t.shape.len() == 0,
        t.f64s().len() == 1,
        r.times(t.f64s()[0], multiple(r, volume(x.shape))) == r.total(
            x.f64s(),
            every(),
            volume(x.shape) as int,
        ),
{
    let shape = x.shape;
    let rank = shape.len();
    let vol = volume(shape);
    let asked = asked_axes(None, rank);
    let marks = marked(asked, rank);
    lemma_first_axes(shape, rank as int);
    assert(asked =~= Seq::new(rank, |i: int| i as usize));
    assert(shape.take(rank as int) =~= shape);
    assert(all_marked(marks)) by {
        assert forall|k: int| 0 <= k < rank implies #[trigger] marks[k] by {
            assert(asked[k] == k as usize);
        }
    }
    let n = vol as usize;
    let s = choose|s: Model<S>| #[trigger]
        sum_value::<S>(x, marks, keep, s) && mean_of_sum::<S>(s, n, t);
    lemma_sum_groups_f64::<S>(r, x, marks, keep, s);
    let k = choose|k: S::D| #[trigger]
        is_share::<S::D, S>(n, k) && unary_value::<S>(
            s,
            scaled_f32::<S>(k),
            scaled_f64::<S>(k),
            t,
        );
    let (one, count) = choose|one: S::D, count: S::D| #[trigger]
        is_one::<S::D, S>(one) && #[trigger] call_ensures(
            <S as Arith<S::D>>::count,
            (n,),
            count,
        ) && is_quotient::<S::D, S>(one, count, k);
    let c = multiple(r, vol);
    lemma_counts::<S::D, S>(r, n, count);
    lemma_divides::<S::D, S>(r, one, count, k);
    lemma_one_f64::<S>(s, scaled_f32::<S>(k), scaled_f64::<S>(k), t);
    let pick = grouped(goes_to(shape, marks, keep), 0);
    lemma_unravel(shape, 0);
    lemma_kept_all(shape, marks, keep, unravel(shape, 0));
    let xs = x.f64s();
    assert forall|j: int| 0 <= j < vol implies every()(j) == #[trigger] pick(j) by {
        lemma_unravel(shape, j);
        lemma_kept_all(shape, marks, keep, unravel(shape, j));
    }
    lemma_total_agree(r, xs, xs, every(), pick, vol as int);
    let v = s.f64s()[0];
    assert(v == r.total(xs, pick, vol as int));
    assert(scaled_f64::<S>(k)(v, t.f64s()[0]));
    assert(is_product::<S::D, S>(v, k, t.f64s()[0]));
    lemma_laws(r, v, k, c);
    lemma_zero(r, v);
    lemma_marked_shape(shape, marks, keep);
}

/// Whitening: with `mean` the mean of all elements and `dev` the root of the mean of the squared
/// differences from it, every output times `dev` and the guard is the element less `mean`. The
/// guard is `1e-8`. On 64-bit floats.
pub proof fn law_whiten_f64<S: Scalars>(
    r: Ring<S::D>,
    before: Seq<Node<S>>,
    after: Seq<Node<S>>,
    x: Model<S>,
    y: Model<S>,
) -> (w: (S::D, S::D, S::D))
    requires
        exact::<S::D, S>(r),
        x.data is F64,
        x.shape.len() <= isize::MAX,
        0 < volume(x.shape) <= usize::MAX,
        multiple(r, volume(x.shape)) != r.zero,
        multiple(r, volume(x.shape)) != r.zero,
        whiten_tracked::<S>(before, after, x, Ok(y)),
    ensures
        y.shape == x.shape,
        r.times(w.0, multiple(r, volume(x.shape))) == r.total(
            x.f64s(),
            every(),
            volume(x.shape) as int,
        ),
        r.times(r.times(w.1, w.1), multiple(r, volume(x.shape))) == r.total(
            products(
                r,
                differences(r, x.f64s(), Seq::new(volume(x.shape), |k: int| w.0)),
                differences(r, x.f64s(), Seq::new(volume(x.shape), |k: int| w.0)),
            ),
            every(),
            volume(x.shape) as int,
        ),
        is_ratio::<S::D, S>(1, 100000000, w.2),
        r.plus(w.1, w.2) != r.zero ==> forall|i: int|
            0 <= i < volume(x.shape) ==> r.times(#[trigger] y.f64s()[i], r.plus(w.1, w.2))
                == r.minus(x.f64s()[i], w.0),
{
    let shape = x.shape;
    let n = volume(shape) as int;
    let cn = multiple(r, volume(shape));
    let (t, s, gg) = lemma_whiten_stages::<S>(before, after, x, y);
    let (m, c, d) = (t[0].1, t[1].1, t[2].1);
    let (m0, c0, d0, y0) = (t[0].0, t[1].0, t[2].0, t[3].0);
    let e = choose|e: Model<S>|
        #![trigger guard_out::<S>(x.dtype(), Ok(e))]
        guard_out::<S>(x.dtype(), Ok(e)) && add_out::<S>(s, e, Ok(d0));
    lemma_mean_all_f64::<S>(r, x, false, m0);
    let mean = m.f64s()[0];
    // The standard deviation.
    let sres: Outcome<S> = Ok(s);
    let (g, o) = choose|g: Seq<Node<S>>, o: Outcome<S>| #[trigger]
        variance_tracked::<S>(gg.0, g, x, None, false, o) && goes_on(
            o,
            g,
            sres,
            gg.1,
            stddev_root::<S>(g, gg.1, o->Ok_0, sres),
        );
    let v = o->Ok_0;
    assert(sqrt_tracked::<S>(g, gg.1, v, sres));
    let rt = choose|q: Outcome<S>| #[trigger]
        sqrt_out::<S>(v, q) && q is Ok && alike::<S>(s, q->Ok_0);
    let vs = lemma_variance_stages::<S>(gg.0, g, x, None, false, v);
    let (km, xc, sq) = (vs[0].1, vs[1].1, vs[2].1);
    lemma_mean_all_f64::<S>(r, x, true, vs[0].0);
    let less = subtracting::<S::D, S>();
    lemma_zips_number(less, shape, km.shape, x.f64s(), km.f64s(), xc.data->F64_0);
    assert(vs[1].0.elems() == vs[1].0.data);
    assert(xc.f64s() == xc.data->F64_0);
    let times = multiplying::<S::D, S>();
    lemma_zips_same(times, shape, xc.f64s(), xc.f64s(), sq.data->F64_0);
    assert(vs[2].0.elems() == vs[2].0.data);
    lemma_cancels(r, km.f64s()[0], mean, cn);
    let means = Seq::new(volume(shape), |k: int| mean);
    let diff = differences(r, x.f64s(), means);
    assert forall|k: int| 0 <= k < n implies #[trigger] xc.f64s()[k] == diff[k] by {
        assert(less(x.f64s()[k], km.f64s()[0], xc.data->F64_0[k]));
        assert(is_difference::<S::D, S>(x.f64s()[k], mean, xc.data->F64_0[k]));
    }
    assert(xc.f64s() =~= diff);
    assert(sq.f64s() =~= products(r, diff, diff)) by {
        assert forall|k: int| 0 <= k < n implies #[trigger] sq.f64s()[k] == products(
            r,
            diff,
            diff,
        )[k] by {
            assert(times(xc.f64s()[k], xc.f64s()[k], sq.data->F64_0[k]));
            assert(is_product::<S::D, S>(diff[k], diff[k], sq.data->F64_0[k]));
        }
    }
    lemma_mean_all_f64::<S>(r, sq, false, vs[3].0);
    assert(v.f64s() == vs[3].0.f64s());
    lemma_one_f64::<S>(v, sqrt_rel::<S::F, S>(), sqrt_rel::<S::D, S>(), rt->Ok_0);
    assert(volume(v.shape) == 1) by {
        lemma_ravel_ones(v.shape, Seq::new(v.shape.len(), |k: int| 0int));
    }
    assert(sqrt_rel::<S::D, S>()(v.f64s()[0], rt->Ok_0.f64s()[0]));
    let dev = s.f64s()[0];
    lemma_squares_back::<S::D, S>(r, v.f64s()[0], dev);
    // The divisor.
    assert(e.elems() == e.data);
    let guard = e.f64s()[0];
    assert(e.data->F64_0.len() == 1);
    let plus = adding::<S::D, S>();
    assert(s.shape == e.shape);
    lemma_zips_same(plus, s.shape, s.f64s(), e.f64s(), d0.data->F64_0);
    assert(d0.elems() == d0.data);
    assert(plus(dev, guard, d0.data->F64_0[0]));
    assert(is_sum::<S::D, S>(dev, guard, d.f64s()[0]));
    // The differences and the quotients.
    lemma_zips_number(less, shape, m.shape, x.f64s(), m.f64s(), c.data->F64_0);
    assert(c0.elems() == c0.data);
    assert(c.f64s() == c.data->F64_0);
    let over = dividing::<S::D, S>();
    lemma_zips_number(over, shape, d.shape, c.f64s(), d.f64s(), y.data->F64_0);
    assert(y0.elems() == y0.data);
    assert(y.f64s() == y.data->F64_0);
    if r.plus(dev, guard) != r.zero {
        assert forall|i: int| 0 <= i < n implies r.times(
            #[trigger] y.f64s()[i],
            r.plus(dev, guard),
        ) == r.minus(x.f64s()[i], mean) by {
            assert(less(x.f64s()[i], m.f64s()[0], c.data->F64_0[i]));
            assert(is_difference::<S::D, S>(x.f64s()[i], mean, c.f64s()[i]));
            assert(over(c.f64s()[i], d.f64s()[0], y.data->F64_0[i]));
            lemma_divides::<S::D, S>(r, c.f64s()[i], d.f64s()[0], y.f64s()[i]);
        }
    }
    (mean, dev, guard)
}

/// The entropy of a categorical distribution and the sum of the probabilities times their
/// logarithms add up to zero. On 64-bit floats.
pub proof fn law_categorical_entropy_f64<S: Scalars>(
    r: Ring<S::D>,
    before: Seq<Node<S>>,
    after: Seq<Node<S>>,
    logits: Model<S>,
    h: Model<S>,
    i: int,
) -> (w: (Model<S>, Model<S>))
    requires
        r.computes::<S>(),
        forall|s: S::D| #[trigger]
            is_ratio::<S::D, S>((-1) as i64, 1, s) ==> s == r.minus(r.zero, r.one),
        logits.data is F64,
        h.data is F64,
        0 < logits.shape.len() <= isize::MAX,
        0 <= i < volume(logits.shape),
        categorical_entropy_tracked::<S>(before, after, logits, Ok(h)),
    ensures
        softmax_values_out::<S>(logits, minus_one(), Ok(w.0)),
        log_values_out::<S>(logits, minus_one(), Ok(w.1)),
        w.0.shape == logits.shape && w.1.shape == logits.shape ==> r.plus(
            h.f64s()[line_rank(logits.shape, logits.shape.len() - 1, i)],
            r.total(
                products(r, w.0.f64s(), w.1.f64s()),
                in_line(logits.shape, logits.shape.len() - 1, i),
                volume(logits.shape) as int,
            ),
        ) == r.zero,
{
    let (t, kc) = lemma_entropy_stages::<S>(before, after, logits, h);
    let (k, c) = kc;
    let (p0, l0, m0, s0, h0) = (t[0].0, t[1].0, t[2].0, t[3].0, t[4].0);
    let (p, lp, m, s) = (t[0].1, t[1].1, t[2].1, t[3].1);
    let shape = logits.shape;
    if p0.shape == shape && l0.shape == shape {
        let ax = shape.len() - 1;
        let axis = ax as usize;
        let n = volume(shape) as int;
        let times = multiplying::<S::D, S>();
        assert(h0.elems() == h0.data && s0.elems() == s0.data && m0.elems() == m0.data);
        lemma_zips_same(times, shape, p.f64s(), lp.f64s(), m.data->F64_0);
        let w = products(r, p.f64s(), lp.f64s());
        assert(m.f64s() =~= w) by {
            assert forall|j: int| 0 <= j < n implies #[trigger] m.f64s()[j] == w[j] by {
                assert(times(p.f64s()[j], lp.f64s()[j], m.data->F64_0[j]));
                assert(is_product::<S::D, S>(p.f64s()[j], lp.f64s()[j], m.data->F64_0[j]));
            }
        }
        let asked = asked_axes(end_alone(), shape.len());
        assert(asked =~= asked_axes(axis_alone(axis), shape.len()));
        lemma_axis_marks(axis, shape.len());
        let marks = marked(asked, shape.len());
        lemma_sum_groups_f64::<S>(r, m, marks, false, s0);
        let at = line_rank(shape, ax, i);
        lemma_line(shape, ax, i);
        lemma_kept_source(shape, marks, i);
        let pick = grouped(goes_to(shape, marks, false), at);
        let line = in_line(shape, ax, i);
        assert forall|j: int| 0 <= j < n implies #[trigger] pick(j) == line(j) by {
            lemma_line(shape, ax, j);
            lemma_kept_source(shape, marks, j);
            lemma_same_line(shape, ax, i, j);
        }
        lemma_total_agree(r, w, w, pick, line, n);
        let total = s.f64s()[at];
        assert(total == r.total(w, line, n));
        assert(c.elems() == c.data);
        lemma_zips_number(times, s.shape, c.shape, s.f64s(), c.f64s(), h.data->F64_0);
        assert(times(total, c.f64s()[0], h.data->F64_0[at]));
        assert(is_product::<S::D, S>(total, c.f64s()[0], h.f64s()[at]));
        assert(c.f64s()[0] == r.minus(r.zero, r.one));
        lemma_spread(r, total, r.zero, r.one);
        lemma_zero(r, total);
        lemma_undo(r, r.zero, total);
    }
    (p0, l0)
}

} // verus!
