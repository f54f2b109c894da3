//! Layer normalisation gives rows of mean zero and mean square one.
use vstd::prelude::*;
use crate::ad::{div_tracked, goes_on, mean_tracked, mul_tracked, sub_tracked};
use crate::algebra::{
    differences, lemma_factors, lemma_spread, lemma_total_agree, lemma_total_parts,
    lemma_total_scaled, lemma_zero, multiple, products, scaled,
};
use crate::calculus::{
    cancels, carries, exact, lemma_cancels, lemma_carries, lemma_carries_multiple, lemma_counts,
    lemma_divides, lemma_squares_back,
};
use crate::cpu::{div_out, mul_out, scaled_f32, scaled_f64, sub_out};
use crate::elementwise::unary_value;
use crate::index::{lemma_unravel, unravel, volume};
use crate::lines::{
    in_line, lemma_line, lemma_same_line, lemma_sum_lines_f32, lemma_sum_lines_f64,
    lemma_zips_lines, lemma_zips_same, line_rank, line_shape,
};
use crate::nn::{
    last_alone, layer_norm_tracked, normalize_centered, normalize_quotient, normalize_root,
    normalize_squares, normalize_variance, shifted_root_f32, shifted_root_f64, shifted_root_of,
    shifted_root_out,
};
use crate::nodes::Node;
use crate::reduce::{
    asked_axes, axes_product, is_share, marked, mean_of_sum, mean_out, sum_out, sum_value,
};
use crate::ring::{lemma_laws, Ring};
use crate::rules::axis_alone;
use crate::scalar::{
    dividing, is_difference, is_one, is_product, is_quotient, is_sum, multiplying, subtracting,
    Arith, Scalars,
};
use crate::tensor::{Model, Outcome};

verus! {

/// The lines along the last axis are the blocks of its length.
pub(crate) proof fn lemma_last_line(shape: Seq<usize>, i: int, k: int)
    requires
        shape.len() > 0,
        0 <= i < volume(shape),
        0 <= k < volume(shape),
    ensures
        shape.last() > 0,
        in_line(shape, shape.len() - 1, i)(k) == (k / (shape.last() as int) == i / (
        shape.last() as int)),
{
    let front = shape.drop_last();
    let d = shape.last() as int;
    let v = volume(front) as int;
    assert(d > 0) by (nonlinear_arith)
        requires
            0 <= i < v * d,
            d >= 0,
    ;
    assert(i / d < v && 0 <= i / d && k / d < v && 0 <= k / d) by (nonlinear_arith)
        requires
            0 <= i < v * d,
            0 <= k < v * d,
            d > 0,
    ;
    let a = unravel(front, i / d);
    let b = unravel(front, k / d);
    lemma_unravel(front, i / d);
    lemma_unravel(front, k / d);
    let last = shape.len() - 1;
    if in_line(shape, last, i)(k) {
        assert(a =~= b) by {
            assert forall|j: int| 0 <= j < last implies a[j] == b[j] by {
                assert(unravel(shape, k)[j] == unravel(shape, i)[j]);
            }
        }
    }
}

/// The sum of the numbers of one block, all the same.
proof fn lemma_block<T>(
    r: Ring<T>,
    xs: Seq<T>,
    pick: spec_fn(int) -> bool,
    c: T,
    start: int,
    n: int,
    m: int,
)
    requires
        r.lawful(),
        0 <= start,
        0 <= n,
        0 <= m <= xs.len(),
        forall|k: int| 0 <= k < m ==> #[trigger] pick(k) == (start <= k < start + n),
        forall|k: int| 0 <= k < m && #[trigger] pick(k) ==> xs[k] == c,
    ensures
        m <= start ==> r.total(xs, pick, m) == r.zero,
        start <= m <= start + n ==> r.total(xs, pick, m) == r.times(
            c,
            multiple(r, (m - start) as nat),
        ),
        start + n <= m ==> r.total(xs, pick, m) == r.times(c, multiple(r, n as nat)),
    decreases m,
{
    lemma_zero(r, c);
    if m > 0 {
        lemma_block(r, xs, pick, c, start, n, m - 1);
        assert(pick(m - 1) == (start <= m - 1 < start + n));
        if start < m <= start + n {
            lemma_spread(r, c, multiple(r, (m - 1 - start) as nat), r.one);
        }
    }
}

/// The sum of the numbers of one row, all the same.
proof fn lemma_row_same<T>(r: Ring<T>, shape: Seq<usize>, xs: Seq<T>, c: T, i: int)
    requires
        r.lawful(),
        shape.len() > 0,
        0 <= i < volume(shape),
        xs.len() == volume(shape),
        forall|k: int|
            0 <= k < volume(shape) && #[trigger] in_line(shape, shape.len() - 1, i)(k) ==> xs[k]
                == c,
    ensures
        r.total(xs, in_line(shape, shape.len() - 1, i), volume(shape) as int) == r.times(
            c,
            multiple(r, shape.last() as nat),
        ),
{
    let d = shape.last() as int;
    let pick = in_line(shape, shape.len() - 1, i);
    let v = volume(shape.drop_last()) as int;
    lemma_last_line(shape, i, i);
    let start = (i / d) * d;
    assert(start + d <= v * d && 0 <= start) by (nonlinear_arith)
        requires
            0 <= i < v * d,
            d > 0,
            start == (i / d) * d,
    ;
    assert forall|k: int| 0 <= k < volume(shape) implies #[trigger] pick(k) == (start <= k < start
        + d) by {
        lemma_last_line(shape, i, k);
        assert((k / d == i / d) == (start <= k < start + d)) by (nonlinear_arith)
            requires
                0 <= k,
                0 <= i,
                d > 0,
                start == (i / d) * d,
        ;
    }
    lemma_block(r, xs, pick, c, start, d, volume(shape) as int);
}

/// What the differences from the row's mean over their root mean square add up to.
proof fn lemma_rows<T>(
    r: Ring<T>,
    shape: Seq<usize>,
    xs: Seq<T>,
    mean: Seq<T>,
    var: Seq<T>,
    dev: Seq<T>,
    ys: Seq<T>,
    i: int,
)
    requires
        r.lawful(),
        cancels(r),
        shape.len() > 0,
        0 <= i < volume(shape),
        xs.len() == volume(shape),
        ys.len() == volume(shape),
        mean.len() == volume(shape),
        var.len() == volume(shape),
        dev.len() == volume(shape),
        forall|k: int|
            0 <= k < volume(shape) && #[trigger] in_line(shape, shape.len() - 1, i)(k) ==> mean[k]
                == mean[i] && var[k] == var[i] && dev[k] == dev[i],
        r.times(mean[i], multiple(r, shape.last() as nat)) == r.total(
            xs,
            in_line(shape, shape.len() - 1, i),
            volume(shape) as int,
        ),
        r.times(var[i], multiple(r, shape.last() as nat)) == r.total(
            products(r, differences(r, xs, mean), differences(r, xs, mean)),
            in_line(shape, shape.len() - 1, i),
            volume(shape) as int,
        ),
        r.times(dev[i], dev[i]) == var[i],
        var[i] != r.zero,
        forall|k: int|
            0 <= k < volume(shape) && dev[k] != r.zero ==> r.times(#[trigger] ys[k], dev[k])
                == r.minus(xs[k], mean[k]),
    ensures
        r.total(ys, in_line(shape, shape.len() - 1, i), volume(shape) as int) == r.zero,
        r.total(products(r, ys, ys), in_line(shape, shape.len() - 1, i), volume(shape) as int)
            == multiple(r, shape.last() as nat),
{
    let pick = in_line(shape, shape.len() - 1, i);
    let n = volume(shape) as int;
    let c = multiple(r, shape.last() as nat);
    let d = dev[i];
    lemma_zero(r, d);
    assert(d != r.zero);
    let xc = differences(r, xs, mean);
    // The differences add up to zero.
    lemma_total_parts(r, xs, mean, pick, n);
    lemma_row_same(r, shape, mean, mean[i], i);
    lemma_zero(r, r.times(mean[i], c));
    assert(r.total(xc, pick, n) == r.zero);
    let a = scaled(r, d, ys);
    assert forall|k: int| 0 <= k < n && #[trigger] pick(k) implies a[k] == xc[k] by {
        lemma_laws(r, d, ys[k], ys[k]);
    }
    lemma_total_agree(r, a, xc, pick, pick, n);
    lemma_total_scaled(r, d, ys, pick, n);
    let t = r.total(ys, pick, n);
    lemma_laws(r, d, t, t);
    lemma_cancels(r, t, r.zero, d);
    // Their squares add up to the variance times the length.
    let sq = products(r, ys, ys);
    let b = scaled(r, var[i], sq);
    let xs2 = products(r, xc, xc);
    assert forall|k: int| 0 <= k < n && #[trigger] pick(k) implies b[k] == xs2[k] by {
        lemma_factors(r, ys[k], d, ys[k], d);
        lemma_laws(r, r.times(d, d), r.times(ys[k], ys[k]), d);
    }
    lemma_total_agree(r, b, xs2, pick, pick, n);
    lemma_total_scaled(r, var[i], sq, pick, n);
    let u = r.total(sq, pick, n);
    lemma_laws(r, var[i], u, c);
    lemma_laws(r, var[i], c, c);
    lemma_cancels(r, u, c, var[i]);
}

/// Asking for one axis asks for its length.
pub(crate) proof fn lemma_whole_axis(shape: Seq<usize>, axis: usize)
    requires
        axis < shape.len() <= isize::MAX,
    ensures
        axes_product(shape, asked_axes(axis_alone(axis), shape.len())) == shape[axis as int],
{
    let asked = asked_axes(axis_alone(axis), shape.len());
    assert(asked.len() == 1);
    assert(asked[0] == axis);
    reveal_with_fuel(axes_product, 2);
    assert(asked.drop_last().len() == 0);
}

/// The same elements in the same order.
pub open spec fn alike<S: Scalars>(a: Model<S>, b: Model<S>) -> bool {
    a.shape == b.shape && a.data == b.data && a.offset == b.offset && a.strides == b.strides
        && a.device == b.device
}

/// What layer normalisation computes on the way, each value beside the tensor that carries it on.
proof fn lemma_stages<S: Scalars>(
    before: Seq<Node<S>>,
    after: Seq<Node<S>>,
    x: Model<S>,
    eps: S::D,
    y: Model<S>,
) -> (w: (Seq<(Model<S>, Model<S>)>, Model<S>))
    requires
        0 < x.shape.len() <= isize::MAX,
        layer_norm_tracked::<S>(before, after, x, eps, Ok(y)),
    ensures
        w.0.len() == 5,
        forall|k: int| 0 <= k < 5 ==> alike::<S>((#[trigger] w.0[k]).1, w.0[k].0),
        mean_out::<S>(x, axis_alone((x.shape.len() - 1) as usize), true, Ok(w.0[0].0)),
        sub_out::<S>(x, w.0[0].1, Ok(w.0[1].0)),
        mul_out::<S>(w.0[1].1, w.0[1].1, Ok(w.0[2].0)),
        mean_out::<S>(w.0[2].1, axis_alone((x.shape.len() - 1) as usize), true, Ok(w.0[3].0)),
        shifted_root_out::<S>(w.0[3].1, eps, Ok(w.1)),
        div_out::<S>(w.0[1].1, w.1, Ok(w.0[4].0)),
        w.0[4].1 == y,
{
    let shape = x.shape;
    let axis = (shape.len() - 1) as usize;
    let res: Outcome<S> = Ok(y);
    assert(last_alone(shape.len()) == axis_alone(axis));
    let (g1, o1) = choose|g: Seq<Node<S>>, o: Outcome<S>| #[trigger]
        mean_tracked::<S>(before, g, x, last_alone(shape.len()), true, o) && goes_on(
            o,
            g,
            res,
            after,
            normalize_centered::<S>(g, after, x, eps, o->Ok_0, res),
        );
    let m = o1->Ok_0;
    let (g2, o2) = choose|g: Seq<Node<S>>, o: Outcome<S>| #[trigger]
        sub_tracked::<S>(g1, g, x, m, o) && goes_on(
            o,
            g,
            res,
            after,
            normalize_squares::<S>(g, after, x, eps, o->Ok_0, res),
        );
    let xc = o2->Ok_0;
    let (g3, o3) = choose|g: Seq<Node<S>>, o: Outcome<S>| #[trigger]
        mul_tracked::<S>(g2, g, xc, xc, o) && goes_on(
            o,
            g,
            res,
            after,
            normalize_variance::<S>(g, after, x, eps, xc, o->Ok_0, res),
        );
    let sq = o3->Ok_0;
    let (g4, o4) = choose|g: Seq<Node<S>>, o: Outcome<S>| #[trigger]
        mean_tracked::<S>(g3, g, sq, last_alone(shape.len()), true, o) && goes_on(
            o,
            g,
            res,
            after,
            normalize_root::<S>(g, after, eps, xc, o->Ok_0, res),
        );
    let v = o4->Ok_0;
    let o5 = choose|o: Outcome<S>| #[trigger]
        shifted_root_out::<S>(v, eps, o) && goes_on(
            o,
            g4,
            res,
            after,
            normalize_quotient::<S>(g4, after, xc, o->Ok_0, res),
        );
    let d = o5->Ok_0;
    let m0 = choose|t: Outcome<S>| #[trigger]
        mean_out::<S>(x, axis_alone(axis), true, t) && t is Ok && alike::<S>(m, t->Ok_0);
    let c0 = choose|t: Outcome<S>| #[trigger]
        sub_out::<S>(x, m, t) && t is Ok && alike::<S>(xc, t->Ok_0);
    let s0 = choose|t: Outcome<S>| #[trigger]
        mul_out::<S>(xc, xc, t) && t is Ok && alike::<S>(sq, t->Ok_0);
    let v0 = choose|t: Outcome<S>| #[trigger]
        mean_out::<S>(sq, axis_alone(axis), true, t) && t is Ok && alike::<S>(v, t->Ok_0);
    assert(div_tracked::<S>(g4, after, xc, d, res));
    let y0 = choose|t: Outcome<S>| #[trigger]
        div_out::<S>(xc, d, t) && t is Ok && alike::<S>(y, t->Ok_0);
    (
        seq![
            (m0->Ok_0, m),
            (c0->Ok_0, xc),
            (s0->Ok_0, sq),
            (v0->Ok_0, v),
            (y0->Ok_0, y),
        ],
        d,
    )
}

/// The mean, the variance and the root of the variance and `eps` of the row of every element.
pub ghost struct Spread<T> {
    pub mean: Seq<T>,
    pub var: Seq<T>,
    pub dev: Seq<T>,
}

impl<T> Spread<T> {
    /// One entry for every element.
    pub open spec fn fits(self, shape: Seq<usize>) -> bool {
        self.mean.len() == volume(shape) && self.var.len() == volume(shape) && self.dev.len()
            == volume(shape)
    }

    spec fn explains<A: Arith<T>>(
        self,
        r: Ring<T>,
        shape: Seq<usize>,
        xs: Seq<T>,
        e: T,
        ys: Seq<T>,
        i: int,
    ) -> bool {
        let pick = in_line(shape, shape.len() - 1, i);
        let n = volume(shape) as int;
        let diff = differences(r, xs, self.mean);
        &&& r.times(self.mean[i], multiple(r, shape.last() as nat)) == r.total(xs, pick, n)
        &&& r.times(self.var[i], multiple(r, shape.last() as nat)) == r.total(
            products(r, diff, diff),
            pick,
            n,
        )
        &&& call_ensures(A::root, (r.plus(self.var[i], e),), self.dev[i])
        &&& self.dev[i] != r.zero ==> r.times(ys[i], self.dev[i]) == r.minus(xs[i], self.mean[i])
        &&& forall|j: int|
            0 <= j < n && #[trigger] pick(j) ==> self.mean[j] == self.mean[i] && self.var[j]
                == self.var[i] && self.dev[j] == self.dev[i]
    }
}

/// A mean along an axis, times the number of its elements, is their sum.
pub(crate) proof fn lemma_mean_lines_f64<S: Scalars>(
    r: Ring<S::D>,
    x: Model<S>,
    axis: usize,
    t: Model<S>,
)
    requires
        exact::<S::D, S>(r),
        x.data is F64,
        axis < x.shape.len() <= isize::MAX,
        multiple(r, x.shape[axis as int] as nat) != r.zero,
        mean_out::<S>(x, axis_alone(axis), true, Ok(t)),
        x.shape[axis as int] > 0,
    ensures
        t.data is F64,
        t.shape == line_shape(x.shape, axis as int),
        t.f64s() == t.data->F64_0,
        t.f64s().len() == volume(line_shape(x.shape, axis as int)),
        forall|i: int|
            0 <= i < volume(x.shape) ==> r.times(
                t.data->F64_0[#[trigger] line_rank(x.shape, axis as int, i)],
                multiple(r, x.shape[axis as int] as nat),
            ) == r.total(x.f64s(), in_line(x.shape, axis as int, i), volume(x.shape) as int),
{
    let ax = axis as int;
    let shape = x.shape;
    let n = shape[ax];
    let asked = asked_axes(axis_alone(axis), shape.len());
    lemma_whole_axis(shape, axis);
    let s = choose|s: Model<S>| #[trigger]
        sum_value::<S>(x, marked(asked, shape.len()), true, s) && mean_of_sum::<S>(s, n, t);
    assert(sum_out::<S>(x, axis_alone(axis), true, Ok(s)));
    lemma_sum_lines_f64::<S>(r, x, axis, s);
    let k = choose|k: S::D| #[trigger]
        is_share::<S::D, S>(n, k) && unary_value::<S>(
            s,
            scaled_f32::<S>(k),
            scaled_f64::<S>(k),
            t,
        );
    let (one, count) = choose|one: S::D, count: S::D| #[trigger]
        is_one::<S::D, S>(one) && #[trigger] call_ensures(
            <S as Arith<S::D>>::count,
            (n,),
            count,
        ) && is_quotient::<S::D, S>(one, count, k);
    let c = multiple(r, n as nat);
    lemma_counts::<S::D, S>(r, n, count);
    lemma_divides::<S::D, S>(r, one, count, k);
    assert(s.elems() == s.data);
    assert(t.elems() == t.data);
    assert forall|i: int| 0 <= i < volume(shape) implies r.times(
        t.data->F64_0[#[trigger] line_rank(shape, ax, i)],
        c,
    ) == r.total(x.f64s(), in_line(shape, ax, i), volume(shape) as int) by {
        lemma_line(shape, ax, i);
        let at = line_rank(shape, ax, i);
        let v = s.data->F64_0[at];
        assert(scaled_f64::<S>(k)(v, t.data->F64_0[at]));
        assert(is_product::<S::D, S>(v, k, t.data->F64_0[at]));
        lemma_laws(r, v, k, c);
        lemma_zero(r, v);
    }
}

/// The element-wise steps of layer normalisation.
proof fn lemma_normalized_f64<S: Scalars>(
    r: Ring<S::D>,
    before: Seq<Node<S>>,
    after: Seq<Node<S>>,
    x: Model<S>,
    eps: S::D,
    y: Model<S>,
) -> (w: Spread<S::D>)
    requires
        exact::<S::D, S>(r),
        x.data is F64,
        0 < x.shape.len() <= isize::MAX,
        volume(x.shape) > 0,
        multiple(r, x.shape.last() as nat) != r.zero,
        layer_norm_tracked::<S>(before, after, x, eps, Ok(y)),
    ensures
        y.shape == x.shape,
        y.data is F64,
        y.f64s().len() == volume(x.shape),
        w.fits(x.shape),
        forall|i: int|
            0 <= i < volume(x.shape) ==> #[trigger] w.explains::<S>(
                r,
                x.shape,
                x.f64s(),
                eps,
                y.f64s(),
                i,
            ),
{
    let shape = x.shape;
    let ax = shape.len() - 1;
    let axis = ax as usize;
    let n = volume(shape) as int;
    let (t, d) = lemma_stages::<S>(before, after, x, eps, y);
    let (m, xc, sq, v) = (t[0].1, t[1].1, t[2].1, t[3].1);
    let (m0, c0, s0, v0, y0) = (t[0].0, t[1].0, t[2].0, t[3].0, t[4].0);
    lemma_last_line(shape, 0, 0);
    lemma_line(shape, ax, 0);
    lemma_mean_lines_f64::<S>(r, x, axis, m0);
    let less = subtracting::<S::D, S>();
    let times = multiplying::<S::D, S>();
    let over = dividing::<S::D, S>();
    lemma_zips_lines(less, shape, ax, x.f64s(), m.f64s(), xc.data->F64_0);
    assert(c0.elems() == c0.data);
    assert(xc.f64s() == xc.data->F64_0);
    lemma_zips_same(times, shape, xc.f64s(), xc.f64s(), sq.data->F64_0);
    assert(s0.elems() == s0.data);
    lemma_mean_lines_f64::<S>(r, sq, axis, v0);
    assert(d.elems() == d.data);
    lemma_zips_lines(over, shape, ax, xc.f64s(), d.f64s(), y.data->F64_0);
    assert(y0.elems() == y0.data);
    let w = Spread {
        mean: Seq::new(n as nat, |i: int| m.f64s()[line_rank(shape, ax, i)]),
        var: Seq::new(n as nat, |i: int| v.f64s()[line_rank(shape, ax, i)]),
        dev: Seq::new(n as nat, |i: int| d.f64s()[line_rank(shape, ax, i)]),
    };
    let diff = differences(r, x.f64s(), w.mean);
    assert forall|i: int| 0 <= i < n implies #[trigger] xc.f64s()[i] == diff[i] by {
        assert(less(x.f64s()[i], m.f64s()[line_rank(shape, ax, i)], xc.data->F64_0[i]));
        assert(is_difference::<S::D, S>(x.f64s()[i], w.mean[i], xc.data->F64_0[i]));
    }
    assert(xc.f64s() =~= diff);
    assert(sq.f64s() =~= products(r, diff, diff)) by {
        assert forall|i: int| 0 <= i < n implies #[trigger] sq.f64s()[i] == products(
            r,
            diff,
            diff,
        )[i] by {
            assert(times(xc.f64s()[i], xc.f64s()[i], sq.data->F64_0[i]));
            assert(is_product::<S::D, S>(diff[i], diff[i], sq.data->F64_0[i]));
        }
    }
    assert forall|i: int| 0 <= i < n implies #[trigger] w.explains::<S>(
        r,
        shape,
        x.f64s(),
        eps,
        y.f64s(),
        i,
    ) by {
        lemma_line(shape, ax, i);
        let k = line_rank(shape, ax, i);
        assert forall|j: int| 0 <= j < n && #[trigger] in_line(shape, ax, i)(j) implies w.mean[j]
            == w.mean[i] && w.var[j] == w.var[i] && w.dev[j] == w.dev[i] by {
            lemma_same_line(shape, ax, i, j);
        }
        assert(shifted_root_f64::<S>(eps)(v.f64s()[k], d.data->F64_0[k]));
        assert(shifted_root_of::<S::D, S>(w.var[i], eps, w.dev[i]));
        let s = choose|s: S::D| #[trigger]
            is_sum::<S::D, S>(w.var[i], eps, s) && call_ensures(
                <S as Arith<S::D>>::root,
                (s,),
                w.dev[i],
            );
        assert(s == r.plus(w.var[i], eps));
        assert(over(xc.f64s()[i], d.f64s()[k], y.data->F64_0[i]));
        assert(is_quotient::<S::D, S>(diff[i], w.dev[i], y.f64s()[i]));
        if w.dev[i] != r.zero {
            lemma_divides::<S::D, S>(r, diff[i], w.dev[i], y.f64s()[i]);
        }
    }
    w
}

/// Layer normalisation along the last axis. Every element of the output, times the root of its
/// row's variance and `eps`, is the element less its row's mean; its square times the variance and
/// `eps` is the square of that difference. Where `eps` is zero and the variance is not, the row has
/// mean zero and mean square one. The mean is the row's sum over its length, and the variance the
/// sum of the squared differences over it.
pub proof fn law_layer_norm_f64<S: Scalars>(
    r: Ring<S::D>,
    before: Seq<Node<S>>,
    after: Seq<Node<S>>,
    x: Model<S>,
    eps: S::D,
    y: Model<S>,
) -> (w: Spread<S::D>)
    requires
        exact::<S::D, S>(r),
        x.data is F64,
        0 < x.shape.len() <= isize::MAX,
        volume(x.shape) > 0,
        multiple(r, x.shape.last() as nat) != r.zero,
        layer_norm_tracked::<S>(before, after, x, eps, Ok(y)),
    ensures
        y.shape == x.shape,
        w.fits(x.shape),
        forall|i: int|
            #![trigger w.mean[i]]
            0 <= i < volume(x.shape) ==> r.times(w.mean[i], multiple(r, x.shape.last() as nat))
                == r.total(
                x.f64s(),
                in_line(x.shape, x.shape.len() - 1, i),
                volume(x.shape) as int,
            ),
        forall|i: int|
            #![trigger w.var[i]]
            0 <= i < volume(x.shape) ==> r.times(w.var[i], multiple(r, x.shape.last() as nat))
                == r.total(
                products(r, differences(r, x.f64s(), w.mean), differences(r, x.f64s(), w.mean)),
                in_line(x.shape, x.shape.len() - 1, i),
                volume(x.shape) as int,
            ),
        forall|i: int|
            #![trigger w.dev[i]]
            0 <= i < volume(x.shape) ==> call_ensures(
                <S as Arith<S::D>>::root,
                (r.plus(w.var[i], eps),),
                w.dev[i],
            ) && (w.dev[i] != r.zero ==> r.times(y.f64s()[i], w.dev[i]) == r.minus(
                x.f64s()[i],
                w.mean[i],
            )),
        forall|i: int|
            #![trigger y.f64s()[i]]
            0 <= i < volume(x.shape) && r.plus(w.var[i], eps) != r.zero ==> r.times(
                r.times(y.f64s()[i], y.f64s()[i]),
                r.plus(w.var[i], eps),
            ) == r.times(r.minus(x.f64s()[i], w.mean[i]), r.minus(x.f64s()[i], w.mean[i])),
        forall|i: int|
            0 <= i < volume(x.shape) && eps == r.zero && w.var[i] != r.zero ==> r.total(
                y.f64s(),
                #[trigger] in_line(x.shape, x.shape.len() - 1, i),
                volume(x.shape) as int,
            ) == r.zero && r.total(
                products(r, y.f64s(), y.f64s()),
                in_line(x.shape, x.shape.len() - 1, i),
                volume(x.shape) as int,
            ) == multiple(r, x.shape.last() as nat),
{
    let w = lemma_normalized_f64::<S>(r, before, after, x, eps, y);
    let n = volume(x.shape) as int;
    let e = eps;
    let shape = x.shape;
    assert forall|i: int|
        #![trigger w.mean[i]]
        #![trigger w.var[i]]
        #![trigger w.dev[i]]
        #![trigger y.f64s()[i]]
        0 <= i < n implies w.explains::<S>(
        r,
        shape,
        x.f64s(),
        e,
        y.f64s(),
        i,
    ) && r.times(w.dev[i], w.dev[i]) == r.plus(w.var[i], e) by {
        assert(w.explains::<S>(r, shape, x.f64s(), e, y.f64s(), i));
        lemma_squares_back::<S::D, S>(r, r.plus(w.var[i], e), w.dev[i]);
    }
    assert forall|i: int|
        #![trigger y.f64s()[i]]
        0 <= i < n && r.plus(w.var[i], e) != r.zero implies r.times(
        r.times(y.f64s()[i], y.f64s()[i]),
        r.plus(w.var[i], e),
    ) == r.times(r.minus(x.f64s()[i], w.mean[i]), r.minus(x.f64s()[i], w.mean[i])) by {
        let d = w.dev[i];
        lemma_zero(r, d);
        lemma_factors(r, y.f64s()[i], d, y.f64s()[i], d);
    }
    assert forall|i: int| 0 <= i < n && e == r.zero && w.var[i] != r.zero implies r.total(
        y.f64s(),
        #[trigger] in_line(shape, shape.len() - 1, i),
        n,
    ) == r.zero && r.total(
        products(r, y.f64s(), y.f64s()),
        in_line(shape, shape.len() - 1, i),
        n,
    ) == multiple(r, shape.last() as nat) by {
        assert(w.explains::<S>(r, shape, x.f64s(), e, y.f64s(), i));
        lemma_zero(r, w.var[i]);
        lemma_rows(r, shape, x.f64s(), w.mean, w.var, w.dev, y.f64s(), i);
    }
    w
}

/// A mean along an axis, times the number of its elements, is their sum.
pub(crate) proof fn lemma_mean_lines_f32<S: Scalars>(
    r: Ring<S::F>,
    q: Ring<S::D>,
    to: spec_fn(S::D) -> S::F,
    x: Model<S>,
    axis: usize,
    t: Model<S>,
)
    requires
        exact::<S::F, S>(r),
        exact::<S::D, S>(q),
        carries::<S>(r, q, to),
        x.data is F32,
        axis < x.shape.len() <= isize::MAX,
        multiple(q, x.shape[axis as int] as nat) != q.zero,
        mean_out::<S>(x, axis_alone(axis), true, Ok(t)),
        x.shape[axis as int] > 0,
    ensures
        t.data is F32,
        t.shape == line_shape(x.shape, axis as int),
        t.f32s() == t.data->F32_0,
        t.f32s().len() == volume(line_shape(x.shape, axis as int)),
        forall|i: int|
            0 <= i < volume(x.shape) ==> r.times(
                t.data->F32_0[#[trigger] line_rank(x.shape, axis as int, i)],
                multiple(r, x.shape[axis as int] as nat),
            ) == r.total(x.f32s(), in_line(x.shape, axis as int, i), volume(x.shape) as int),
{
    let ax = axis as int;
    let shape = x.shape;
    let n = shape[ax];
    let asked = asked_axes(axis_alone(axis), shape.len());
    lemma_whole_axis(shape, axis);
    let s = choose|s: Model<S>| #[trigger]
        sum_value::<S>(x, marked(asked, shape.len()), true, s) && mean_of_sum::<S>(s, n, t);
    assert(sum_out::<S>(x, axis_alone(axis), true, Ok(s)));
    lemma_sum_lines_f32::<S>(r, x, axis, s);
    let k = choose|k: S::D| #[trigger]
        is_share::<S::D, S>(n, k) && unary_value::<S>(
            s,
            scaled_f32::<S>(k),
            scaled_f64::<S>(k),
            t,
        );
    let (one, count) = choose|one: S::D, count: S::D| #[trigger]
        is_one::<S::D, S>(one) && #[trigger] call_ensures(
            <S as Arith<S::D>>::count,
            (n,),
            count,
        ) && is_quotient::<S::D, S>(one, count, k);
    let c = multiple(r, n as nat);
    lemma_counts::<S::D, S>(q, n, count);
    lemma_divides::<S::D, S>(q, one, count, k);
    lemma_carries::<S>(r, q, to, k, count);
    lemma_carries_multiple::<S>(r, q, to, n as nat);
    assert(s.elems() == s.data);
    assert(t.elems() == t.data);
    assert forall|i: int| 0 <= i < volume(shape) implies r.times(
        t.data->F32_0[#[trigger] line_rank(shape, ax, i)],
        c,
    ) == r.total(x.f32s(), in_line(shape, ax, i), volume(shape) as int) by {
        lemma_line(shape, ax, i);
        let at = line_rank(shape, ax, i);
        let v = s.data->F32_0[at];
        assert(scaled_f32::<S>(k)(v, t.data->F32_0[at]));
        assert(is_product::<S::F, S>(v, to(k), t.data->F32_0[at]));
        lemma_laws(r, v, to(k), c);
        lemma_zero(r, v);
    }
}

/// The element-wise steps of layer normalisation.
proof fn lemma_normalized_f32<S: Scalars>(
    r: Ring<S::F>,
    q: Ring<S::D>,
    to: spec_fn(S::D) -> S::F,
    before: Seq<Node<S>>,
    after: Seq<Node<S>>,
    x: Model<S>,
    eps: S::D,
    y: Model<S>,
) -> (w: Spread<S::F>)
    requires
        exact::<S::F, S>(r),
        exact::<S::D, S>(q),
        carries::<S>(r, q, to),
        x.data is F32,
        0 < x.shape.len() <= isize::MAX,
        volume(x.shape) > 0,
        multiple(q, x.shape.last() as nat) != q.zero,
        layer_norm_tracked::<S>(before, after, x, eps, Ok(y)),
    ensures
        y.shape == x.shape,
        y.data is F32,
        y.f32s().len() == volume(x.shape),
        w.fits(x.shape),
        forall|i: int|
            0 <= i < volume(x.shape) ==> #[trigger] w.explains::<S>(
                r,
                x.shape,
                x.f32s(),
                to(eps),
                y.f32s(),
                i,
            ),
{
    let shape = x.shape;
    let ax = shape.len() - 1;
    let axis = ax as usize;
    let n = volume(shape) as int;
    let (t, d) = lemma_stages::<S>(before, after, x, eps, y);
    let (m, xc, sq, v) = (t[0].1, t[1].1, t[2].1, t[3].1);
    let (m0, c0, s0, v0, y0) = (t[0].0, t[1].0, t[2].0, t[3].0, t[4].0);
    lemma_last_line(shape, 0, 0);
    lemma_line(shape, ax, 0);
    lemma_mean_lines_f32::<S>(r, q, to, x, axis, m0);
    let less = subtracting::<S::F, S>();
    let times = multiplying::<S::F, S>();
    let over = dividing::<S::F, S>();
    lemma_zips_lines(less, shape, ax, x.f32s(), m.f32s(), xc.data->F32_0);
    assert(c0.elems() == c0.data);
    assert(xc.f32s() == xc.data->F32_0);
    lemma_zips_same(times, shape, xc.f32s(), xc.f32s(), sq.data->F32_0);
    assert(s0.elems() == s0.data);
    lemma_mean_lines_f32::<S>(r, q, to, sq, axis, v0);
    assert(d.elems() == d.data);
    lemma_zips_lines(over, shape, ax, xc.f32s(), d.f32s(), y.data->F32_0);
    assert(y0.elems() == y0.data);
    let w = Spread {
        mean: Seq::new(n as nat, |i: int| m.f32s()[line_rank(shape, ax, i)]),
        var: Seq::new(n as nat, |i: int| v.f32s()[line_rank(shape, ax, i)]),
        dev: Seq::new(n as nat, |i: int| d.f32s()[line_rank(shape, ax, i)]),
    };
    let diff = differences(r, x.f32s(), w.mean);
    assert forall|i: int| 0 <= i < n implies #[trigger] xc.f32s()[i] == diff[i] by {
        assert(less(x.f32s()[i], m.f32s()[line_rank(shape, ax, i)], xc.data->F32_0[i]));
        assert(is_difference::<S::F, S>(x.f32s()[i], w.mean[i], xc.data->F32_0[i]));
    }
    assert(xc.f32s() =~= diff);
    assert(sq.f32s() =~= products(r, diff, diff)) by {
        assert forall|i: int| 0 <= i < n implies #[trigger] sq.f32s()[i] == products(
            r,
            diff,
            diff,
        )[i] by {
            assert(times(xc.f32s()[i], xc.f32s()[i], sq.data->F32_0[i]));
            assert(is_product::<S::F, S>(diff[i], diff[i], sq.data->F32_0[i]));
        }
    }
    lemma_carries::<S>(r, q, to, eps, eps);
    assert forall|i: int| 0 <= i < n implies #[trigger] w.explains::<S>(
        r,
        shape,
        x.f32s(),
        to(eps),
        y.f32s(),
        i,
    ) by {
        lemma_line(shape, ax, i);
        let k = line_rank(shape, ax, i);
        assert forall|j: int| 0 <= j < n && #[trigger] in_line(shape, ax, i)(j) implies w.mean[j]
            == w.mean[i] && w.var[j] == w.var[i] && w.dev[j] == w.dev[i] by {
            lemma_same_line(shape, ax, i, j);
        }
        assert(shifted_root_f32::<S>(eps)(v.f32s()[k], d.data->F32_0[k]));
        assert(shifted_root_of::<S::F, S>(w.var[i], to(eps), w.dev[i]));
        let s = choose|s: S::F| #[trigger]
            is_sum::<S::F, S>(w.var[i], to(eps), s) && call_ensures(
                <S as Arith<S::F>>::root,
                (s,),
                w.dev[i],
            );
        assert(s == r.plus(w.var[i], to(eps)));
        assert(over(xc.f32s()[i], d.f32s()[k], y.data->F32_0[i]));
        assert(is_quotient::<S::F, S>(diff[i], w.dev[i], y.f32s()[i]));
        if w.dev[i] != r.zero {
            lemma_divides::<S::F, S>(r, diff[i], w.dev[i], y.f32s()[i]);
        }
    }
    w
}

/// Layer normalisation along the last axis. Every element of the output, times the root of its
/// row's variance and `eps`, is the element less its row's mean; its square times the variance and
/// `eps` is the square of that difference. Where `eps` is zero and the variance is not, the row has
/// mean zero and mean square one. The mean is the row's sum over its length, and the variance the
/// sum of the squared differences over it.
pub proof fn law_layer_norm_f32<S: Scalars>(
    r: Ring<S::F>,
    q: Ring<S::D>,
    to: spec_fn(S::D) -> S::F,
    before: Seq<Node<S>>,
    after: Seq<Node<S>>,
    x: Model<S>,
    eps: S::D,
    y: Model<S>,
) -> (w: Spread<S::F>)
    requires
        exact::<S::F, S>(r),
        exact::<S::D, S>(q),
        carries::<S>(r, q, to),
        x.data is F32,
        0 < x.shape.len() <= isize::MAX,
        volume(x.shape) > 0,
        multiple(q, x.shape.last() as nat) != q.zero,
        layer_norm_tracked::<S>(before, after, x, eps, Ok(y)),
    ensures
        y.shape == x.shape,
        w.fits(x.shape),
        forall|i: int|
            #![trigger w.mean[i]]
            0 <= i < volume(x.shape) ==> r.times(w.mean[i], multiple(r, x.shape.last() as nat))
                == r.total(
                x.f32s(),
                in_line(x.shape, x.shape.len() - 1, i),
                volume(x.shape) as int,
            ),
        forall|i: int|
            #![trigger w.var[i]]
            0 <= i < volume(x.shape) ==> r.times(w.var[i], multiple(r, x.shape.last() as nat))
                == r.total(
                products(r, differences(r, x.f32s(), w.mean), differences(r, x.f32s(), w.mean)),
                in_line(x.shape, x.shape.len() - 1, i),
                volume(x.shape) as int,
            ),
        forall|i: int|
            #![trigger w.dev[i]]
            0 <= i < volume(x.shape) ==> call_ensures(
                <S as Arith<S::F>>::root,
                (r.plus(w.var[i], to(eps)),),
                w.dev[i],
            ) && (w.dev[i] != r.zero ==> r.times(y.f32s()[i], w.dev[i]) == r.minus(
                x.f32s()[i],
                w.mean[i],
            )),
        forall|i: int|
            #![trigger y.f32s()[i]]
            0 <= i < volume(x.shape) && r.plus(w.var[i], to(eps)) != r.zero ==> r.times(
                r.times(y.f32s()[i], y.f32s()[i]),
                r.plus(w.var[i], to(eps)),
            ) == r.times(r.minus(x.f32s()[i], w.mean[i]), r.minus(x.f32s()[i], w.mean[i])),
        forall|i: int|
            0 <= i < volume(x.shape) && to(eps) == r.zero && w.var[i] != r.zero ==> r.total(
                y.f32s(),
                #[trigger] in_line(x.shape, x.shape.len() - 1, i),
                volume(x.shape) as int,
            ) == r.zero && r.total(
                products(r, y.f32s(), y.f32s()),
                in_line(x.shape, x.shape.len() - 1, i),
                volume(x.shape) as int,
            ) == multiple(r, x.shape.last() as nat),
{
    let w = lemma_normalized_f32::<S>(r, q, to, before, after, x, eps, y);
    let n = volume(x.shape) as int;
    let e = to(eps);
    let shape = x.shape;
    assert forall|i: int|
        #![trigger w.mean[i]]
        #![trigger w.var[i]]
        #![trigger w.dev[i]]
        #![trigger y.f32s()[i]]
        0 <= i < n implies w.explains::<S>(
        r,
        shape,
        x.f32s(),
        e,
        y.f32s(),
        i,
    ) && r.times(w.dev[i], w.dev[i]) == r.plus(w.var[i], e) by {
        assert(w.explains::<S>(r, shape, x.f32s(), e, y.f32s(), i));
        lemma_squares_back::<S::F, S>(r, r.plus(w.var[i], e), w.dev[i]);
    }
    assert forall|i: int|
        #![trigger y.f32s()[i]]
        0 <= i < n && r.plus(w.var[i], e) != r.zero implies r.times(
        r.times(y.f32s()[i], y.f32s()[i]),
        r.plus(w.var[i], e),
    ) == r.times(r.minus(x.f32s()[i], w.mean[i]), r.minus(x.f32s()[i], w.mean[i])) by {
        let d = w.dev[i];
        lemma_zero(r, d);
        lemma_factors(r, y.f32s()[i], d, y.f32s()[i], d);
    }
    assert forall|i: int| 0 <= i < n && e == r.zero && w.var[i] != r.zero implies r.total(
        y.f32s(),
        #[trigger] in_line(shape, shape.len() - 1, i),
        n,
    ) == r.zero && r.total(
        products(r, y.f32s(), y.f32s()),
        in_line(shape, shape.len() - 1, i),
        n,
    ) == multiple(r, shape.last() as nat) by {
        assert(w.explains::<S>(r, shape, x.f32s(), e, y.f32s(), i));
        lemma_zero(r, w.var[i]);
        lemma_rows(r, shape, x.f32s(), w.mean, w.var, w.dev, y.f32s(), i);
    }
    w
}

} // verus!
