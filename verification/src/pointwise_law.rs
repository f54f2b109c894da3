//! The gradients of the pointwise operations: a piece times the change of the argument is the
//! cotangent times the change of the value.
use vstd::prelude::*;
use crate::ad::{
    add_tracked, div_sloped, div_slopes_first, div_slopes_out, div_slopes_quotient,
    div_slopes_second, div_slopes_square, div_tracked, exp_tracked, gelu_local_out, gelu_sloped,
    gelu_tracked, halved_out, is_half, log_slope_of, log_slope_out, log_sloped, log_tracked,
    mul_tracked, sigmoid_local_out, sigmoid_local_product, sigmoid_local_rest, sigmoid_sloped,
    sigmoid_tracked, silu_local_bell, silu_local_ones, silu_local_out, silu_local_rest,
    silu_local_sum, silu_local_tail, silu_sloped, silu_tracked, sloped_out, softplus_sloped,
    softplus_tracked, sqrt_slope_half, sqrt_slope_out, sqrt_slope_quotient, sqrt_sloped,
    sqrt_tracked, sub_tracked, tanh_tracked,
};
use crate::algebra::{lemma_is_minus, lemma_spread, lemma_turn, lemma_undo, lemma_zero, multiple};
use crate::calculus::{
    carries, exact, lemma_cancels, lemma_carries, lemma_carries_multiple, lemma_change,
    lemma_divides, lemma_ratio, powers, single, Change,
};
use crate::cpu::{
    add_out, arith_value, div_out, mul_out, mul_scalar_out, neg_out, scaled_f32, scaled_f64,
    square_out, sub_out,
};
use crate::elementwise::unary_value;
use crate::error::Error;
use crate::index::volume;
use crate::lines::lemma_zips_same;
use crate::nodes::{recorded, tracked_out, Node, RuleModel};
use crate::norm_law::alike;
use crate::ring::{lemma_laws, Ring};
use crate::rules::{
    add_parts, add_second, local_parts, mul_first, mul_other, mul_parts, mul_second, pair_first,
    pair_other, pair_parts, pair_second, sub_negative, sub_parts, sub_second, tanh_factor,
    tanh_ones, tanh_parts, tanh_product, unbroadcast_out,
};
use crate::scalar::{
    adding, dividing, is_difference, is_product, is_ratio, is_sum, multiplying, subtracting, Arith,
    Scalars,
};
use crate::slopes::{gelu_exact_slope_rel, gelu_slope_rel, gelu_with_grad_out, nothing};
use crate::slopes_law::{
    law_function_slopes, law_gelu_exact_slope, law_gelu_of_slope, law_sigmoid_slope,
    law_silu_slope, law_softplus_slope,
};
use crate::tape::Backward;
use crate::tensor::{gives, ones_out, passes, Model, Outcome};
use crate::unary::{
    exp_out, exp_rel, gelu_exact_rel, gelu_out, gelu_rel, log_out, log_rel, sigmoid_out,
    sigmoid_rel, silu_out, silu_quotient_rel, silu_rel, softplus_out, softplus_rel, sqrt_out,
    sqrt_rel, tanh_out, tanh_rel,
};

verus! {

/// A piece times the change of the argument is the cotangent times the change of the value, at `i`.
pub open spec fn pulled_back<T>(
    r: Ring<T>,
    d: Change<T>,
    xs: Seq<T>,
    ys: Seq<T>,
    gs: Seq<T>,
    ps: Seq<T>,
    i: int,
) -> bool {
    r.times(ps[i], d.at(xs[i])) == r.times(gs[i], d.at(ys[i]))
}

/// The pieces of both arguments, each times the change of its argument, add up to the cotangent
/// times the change of the value, at `i`.
pub open spec fn both_pulled_back<T>(
    r: Ring<T>,
    d: Change<T>,
    a: Seq<T>,
    b: Seq<T>,
    ys: Seq<T>,
    gs: Seq<T>,
    pa: Seq<T>,
    pb: Seq<T>,
    i: int,
) -> bool {
    r.plus(r.times(pa[i], d.at(a[i])), r.times(pb[i], d.at(b[i]))) == r.times(gs[i], d.at(ys[i]))
}

/// The chain rule for one argument.
pub(crate) proof fn lemma_chained<T>(r: Ring<T>, d: Change<T>, x: T, y: T, g: T, slope: T, p: T)
    requires
        r.lawful(),
        d.at(y) == r.times(slope, d.at(x)),
        p == r.times(g, slope),
    ensures
        r.times(p, d.at(x)) == r.times(g, d.at(y)),
{
    lemma_laws(r, g, slope, d.at(x));
}

/// The quotient rule: `da` is one over `b`, and `db` the negative of `a` over the square of `b`.
proof fn lemma_quotient_rule<T, A: Arith<T>>(
    r: Ring<T>,
    d: Change<T>,
    a: T,
    b: T,
    y: T,
    da: T,
    q: T,
)
    requires
        exact::<T, A>(r),
        d.follows::<A>(r),
        b != r.zero,
        r.times(b, b) != r.zero,
        r.times(y, b) == a,
        r.times(da, b) == r.one,
        r.times(q, r.times(b, b)) == a,
    ensures
        d.at(y) == r.minus(r.times(da, d.at(a)), r.times(q, d.at(b))),
{
    lemma_change(r, d, y, b);
    // d(a) == d(y) b + y d(b), and q b == y
    lemma_laws(r, q, b, b);
    lemma_cancels(r, r.times(q, b), y, b);
    let (ea, eb, ey) = (d.at(a), d.at(b), d.at(y));
    let m = r.minus(r.times(da, ea), r.times(q, eb));
    lemma_spread(r, b, r.times(da, ea), r.times(q, eb));
    lemma_turn(r, da, ea, b);
    lemma_laws(r, ea, r.one, r.one);
    lemma_zero(r, ea);
    lemma_turn(r, q, eb, b);
    lemma_laws(r, eb, y, y);
    assert(r.times(m, b) == r.minus(ea, r.times(y, eb)));
    lemma_is_minus(r, ea, r.times(y, eb), r.times(ey, b));
    lemma_cancels(r, ey, m, b);
}

/// Adding a negative takes away.
proof fn lemma_added_negative<T>(r: Ring<T>, a: T, b: T)
    requires
        r.lawful(),
    ensures
        r.plus(a, r.minus(r.zero, b)) == r.minus(a, b),
{
    let n = r.minus(r.zero, b);
    lemma_turn(r, a, n, b);
    lemma_undo(r, r.zero, b);
    lemma_laws(r, a, n, b);
    lemma_zero(r, a);
    lemma_is_minus(r, a, b, r.plus(a, n));
}

/// `g ex + (-g) ez` is `g (ex - ez)`.
proof fn lemma_taken<T>(r: Ring<T>, g: T, k: T, ex: T, ez: T)
    requires
        r.lawful(),
        k == r.minus(r.zero, g),
    ensures
        r.plus(r.times(g, ex), r.times(k, ez)) == r.times(g, r.minus(ex, ez)),
{
    lemma_spread(r, ez, r.zero, g);
    lemma_zero(r, ez);
    lemma_spread(r, g, ex, ez);
    lemma_added_negative(r, r.times(g, ex), r.times(g, ez));
}

/// The elements of a pointwise result of two tensors of one shape.
pub(crate) proof fn lemma_two_f32<S: Scalars>(
    a: Model<S>,
    b: Model<S>,
    rel32: spec_fn(S::F, S::F, S::F) -> bool,
    rel64: spec_fn(S::D, S::D, S::D) -> bool,
    t: Model<S>,
)
    requires
        a.data is F32,
        a.shape == b.shape,
        arith_value::<S>(a, b, rel32, rel64, t),
    ensures
        t.shape == a.shape,
        t.data is F32,
        b.data is F32,
        t.f32s().len() == volume(a.shape),
        forall|i: int|
            0 <= i < volume(a.shape) ==> rel32(a.f32s()[i], b.f32s()[i], #[trigger] t.f32s()[i]),
{
    lemma_zips_same(rel32, a.shape, a.f32s(), b.f32s(), t.data->F32_0);
    assert(t.elems() == t.data);
    assert(t.f32s() == t.data->F32_0);
}

/// The elements of a pointwise result of one tensor.
pub(crate) proof fn lemma_one_f32<S: Scalars>(
    a: Model<S>,
    rel32: spec_fn(S::F, S::F) -> bool,
    rel64: spec_fn(S::D, S::D) -> bool,
    t: Model<S>,
)
    requires
        a.data is F32,
        unary_value::<S>(a, rel32, rel64, t),
    ensures
        t.shape == a.shape,
        t.data is F32,
        t.f32s().len() == volume(a.shape),
        forall|i: int| 0 <= i < volume(a.shape) ==> rel32(a.f32s()[i], #[trigger] t.f32s()[i]),
{
    assert(t.elems() == t.data);
    assert(t.f32s() == t.data->F32_0);
}

/// The elements of a tensor of ones.
pub(crate) proof fn lemma_ones_f32<S: Scalars>(r: Ring<S::F>, like: Model<S>, t: Model<S>)
    requires
        r.computes::<S>(),
        like.data is F32,
        ones_out::<S>(like.shape, like.dtype(), Ok(t)),
    ensures
        t.shape == like.shape,
        t.data is F32,
        forall|i: int| 0 <= i < volume(like.shape) ==> #[trigger] t.f32s()[i] == r.one,
{
    assert(t.elems() == t.data);
    assert(t.f32s() == t.data->F32_0);
}

/// The piece of an operation with a recorded derivative.
pub(crate) proof fn lemma_local_f32<S: Scalars>(
    r: Ring<S::F>,
    gx: Model<S>,
    gy: Model<S>,
    parts: Seq<Model<S>>,
)
    requires
        r.computes::<S>(),
        gx.data is F32,
        gx.shape == gy.shape,
        local_parts::<S>(gx, gy, Ok(parts)),
    ensures
        parts.len() == 1,
        parts[0].shape == gx.shape,
        parts[0].data is F32,
        gy.data is F32,
        forall|i: int|
            0 <= i < volume(gx.shape) ==> #[trigger] parts[0].f32s()[i] == r.times(
                gy.f32s()[i],
                gx.f32s()[i],
            ),
{
    reveal(local_parts);
    let res: Result<Seq<Model<S>>, Error> = Ok(parts);
    let o = choose|o: Outcome<S>| #[trigger]
        mul_out::<S>(gy, gx, o) && passes(o, res, gives(res, seq![o->Ok_0]));
    assert(parts == seq![o->Ok_0]);
    assert(gy.data is F32);
    lemma_two_f32::<S>(
        gy,
        gx,
        multiplying::<S::F, S>(),
        multiplying::<S::D, S>(),
        o->Ok_0,
    );
    assert forall|i: int| 0 <= i < volume(gx.shape) implies #[trigger] parts[0].f32s()[i]
        == r.times(gy.f32s()[i], gx.f32s()[i]) by {
        assert(multiplying::<S::F, S>()(gy.f32s()[i], gx.f32s()[i], parts[0].f32s()[i]));
        assert(is_product::<S::F, S>(gy.f32s()[i], gx.f32s()[i], parts[0].f32s()[i]));
    }
}

/// GELU: the piece times the change of the argument is the cotangent times the change of the value.
pub proof fn law_gelu_gradient_f32<S: Scalars>(
    r: Ring<S::F>,
    d: Change<S::F>,
    before: Seq<Node<S>>,
    after: Seq<Node<S>>,
    x: Model<S>,
    y: Model<S>,
    gy: Model<S>,
    parts: Seq<Model<S>>,
)
    requires
        exact::<S::F, S>(r),
        single::<S::F, S>(),
        d.follows::<S>(r),
        x.data is F32,
        x.in_graph,
        gy.shape == x.shape,
        gelu_tracked::<S>(before, after, x, Ok(y)),
        after.len() > 0,
        after.last().vjp(gy, Ok(parts)),
    ensures
        after.len() == before.len() + 1,
        after.last().sources() == seq![x],
        parts.len() == 1,
        parts[0].shape == x.shape,
        y.shape == x.shape,
        forall|i: int|
            0 <= i < volume(x.shape) ==> #[trigger] pulled_back(
                r,
                d,
                x.f32s(),
                y.f32s(),
                gy.f32s(),
                parts[0].f32s(),
                i,
            ),
{
    let res: Outcome<S> = Ok(y);
    let n = volume(x.shape) as int;
    assert(x.detached().f32s() == x.f32s());
    let o = choose|o: Result<(Model<S>, Model<S>), Error>| #[trigger]
        gelu_with_grad_out::<S>(x.detached(), o) && match o {
            Err(e) => after == before && res == Outcome::<S>::Err(e),
            Ok(p) => sloped_out::<S>(before, after, "gelu"@, x, p.0, Ok(p.1), res),
        };
    let (v, gx) = o->Ok_0;
    lemma_one_f32::<S>(
        x.detached(),
        gelu_rel::<S::F, S>(),
        nothing::<S::D>(),
        v,
    );
    lemma_one_f32::<S>(
        x.detached(),
        gelu_slope_rel::<S::F, S>(),
        nothing::<S::D>(),
        gx,
    );
    lemma_local_f32::<S>(r, gx, gy, parts);
    assert forall|i: int| 0 <= i < n implies #[trigger] pulled_back(
        r,
        d,
        x.f32s(),
        y.f32s(),
        gy.f32s(),
        parts[0].f32s(),
        i,
    ) by {
        let (a, b, s) = (x.f32s()[i], y.f32s()[i], gx.f32s()[i]);
        assert(gelu_rel::<S::F, S>()(a, b));
        assert(gelu_slope_rel::<S::F, S>()(a, s));
        law_gelu_of_slope::<S::F, S>(r, d, a, b, s);
        lemma_chained(r, d, a, b, gy.f32s()[i], s, parts[0].f32s()[i]);
    }
}

/// The sigmoid: the piece times the change of the argument is the cotangent times the change of the
/// value.
pub proof fn law_sigmoid_gradient_f32<S: Scalars>(
    r: Ring<S::F>,
    d: Change<S::F>,
    before: Seq<Node<S>>,
    after: Seq<Node<S>>,
    x: Model<S>,
    y: Model<S>,
    gy: Model<S>,
    parts: Seq<Model<S>>,
)
    requires
        exact::<S::F, S>(r),
        powers::<S::F, S>(r),
        d.follows::<S>(r),
        x.data is F32,
        x.in_graph,
        gy.shape == x.shape,
        sigmoid_tracked::<S>(before, after, x, Ok(y)),
        after.len() > 0,
        after.last().vjp(gy, Ok(parts)),
    ensures
        after.len() == before.len() + 1,
        after.last().sources() == seq![x],
        parts.len() == 1,
        parts[0].shape == x.shape,
        y.shape == x.shape,
        forall|i: int|
            0 <= i < volume(x.shape) ==> #[trigger] pulled_back(
                r,
                d,
                x.f32s(),
                y.f32s(),
                gy.f32s(),
                parts[0].f32s(),
                i,
            ),
{
    let res: Outcome<S> = Ok(y);
    let n = volume(x.shape) as int;
    let v = choose|v: Outcome<S>| #[trigger]
        sigmoid_out::<S>(x, v) && v is Ok && sigmoid_sloped::<S>(
            before,
            after,
            x,
            v->Ok_0,
            res,
        );
    let g = choose|g: Outcome<S>| #[trigger]
        sigmoid_local_out::<S>(v->Ok_0, g) && sloped_out::<S>(
            before,
            after,
            "sigmoid"@,
            x,
            v->Ok_0,
            g,
            res,
        );
    let gx = g->Ok_0;
    assert(alike::<S>(y, v->Ok_0));
    assert(x.detached().f32s() == x.f32s());
    assert(v->Ok_0.detached().f32s() == v->Ok_0.f32s());
    lemma_one_f32::<S>(x, sigmoid_rel::<S::F, S>(), sigmoid_rel::<S::D, S>(), v->Ok_0);
    let w = v->Ok_0;
    let ones = choose|o: Outcome<S>| #[trigger]
        ones_out::<S>(w.shape, w.dtype(), o) && passes(
            o,
            g,
            sigmoid_local_rest::<S>(w, o->Ok_0, g),
        );
    let rest = choose|o: Outcome<S>| #[trigger]
        sub_out::<S>(ones->Ok_0, w.detached(), o) && passes(
            o,
            g,
            sigmoid_local_product::<S>(w, o->Ok_0, g),
        );
    lemma_ones_f32::<S>(r, w, ones->Ok_0);
    lemma_two_f32::<S>(
        ones->Ok_0,
        w.detached(),
        subtracting::<S::F, S>(),
        subtracting::<S::D, S>(),
        rest->Ok_0,
    );
    lemma_two_f32::<S>(
        w.detached(),
        rest->Ok_0,
        multiplying::<S::F, S>(),
        multiplying::<S::D, S>(),
        gx,
    );
    lemma_local_f32::<S>(r, gx, gy, parts);
    assert forall|i: int| 0 <= i < n implies #[trigger] pulled_back(
        r,
        d,
        x.f32s(),
        y.f32s(),
        gy.f32s(),
        parts[0].f32s(),
        i,
    ) by {
        let (a, b, s) = (x.f32s()[i], y.f32s()[i], gx.f32s()[i]);
        assert(sigmoid_rel::<S::F, S>()(a, b));
        let t = rest->Ok_0.f32s()[i];
        assert(subtracting::<S::F, S>()(ones->Ok_0.f32s()[i], b, t));
        assert(is_difference::<S::F, S>(r.one, b, t));
        assert(multiplying::<S::F, S>()(b, t, s));
        assert(is_product::<S::F, S>(b, t, s));
        law_sigmoid_slope::<S::F, S>(r, d, a, b, s);
        lemma_chained(r, d, a, b, gy.f32s()[i], s, parts[0].f32s()[i]);
    }
}

/// SiLU: the piece times the change of the argument is the cotangent times the change of the value.
pub proof fn law_silu_gradient_f32<S: Scalars>(
    r: Ring<S::F>,
    d: Change<S::F>,
    before: Seq<Node<S>>,
    after: Seq<Node<S>>,
    x: Model<S>,
    y: Model<S>,
    gy: Model<S>,
    parts: Seq<Model<S>>,
)
    requires
        exact::<S::F, S>(r),
        single::<S::F, S>(),
        powers::<S::F, S>(r),
        d.follows::<S>(r),
        x.data is F32,
        x.in_graph,
        gy.shape == x.shape,
        silu_tracked::<S>(before, after, x, Ok(y)),
        after.len() > 0,
        after.last().vjp(gy, Ok(parts)),
    ensures
        after.len() == before.len() + 1,
        after.last().sources() == seq![x],
        parts.len() == 1,
        parts[0].shape == x.shape,
        y.shape == x.shape,
        forall|i: int|
            0 <= i < volume(x.shape) ==> #[trigger] pulled_back(
                r,
                d,
                x.f32s(),
                y.f32s(),
                gy.f32s(),
                parts[0].f32s(),
                i,
            ),
{
    let res: Outcome<S> = Ok(y);
    let n = volume(x.shape) as int;
    let v = choose|v: Outcome<S>| #[trigger]
        silu_out::<S>(x, v) && v is Ok && silu_sloped::<S>(
            before,
            after,
            x,
            v->Ok_0,
            res,
        );
    let g = choose|g: Outcome<S>| #[trigger]
        silu_local_out::<S>(x, g) && sloped_out::<S>(
            before,
            after,
            "silu"@,
            x,
            v->Ok_0,
            g,
            res,
        );
    let gx = g->Ok_0;
    assert(alike::<S>(y, v->Ok_0));
    assert(x.detached().f32s() == x.f32s());
    assert(v->Ok_0.detached().f32s() == v->Ok_0.f32s());
    lemma_one_f32::<S>(x, silu_rel::<S::F, S>(), silu_quotient_rel::<S::D, S>(), v->Ok_0);
    let sg = choose|o: Outcome<S>| #[trigger]
        sigmoid_out::<S>(x.detached(), o) && passes(o, g, silu_local_ones::<S>(x, o->Ok_0, g));
    let sv = sg->Ok_0;
    let ones = choose|o: Outcome<S>| #[trigger]
        ones_out::<S>(x.shape, x.dtype(), o) && passes(
            o,
            g,
            silu_local_rest::<S>(x, sv, o->Ok_0, g),
        );
    let rest = choose|o: Outcome<S>| #[trigger]
        sub_out::<S>(ones->Ok_0, sv, o) && passes(o, g, silu_local_bell::<S>(x, sv, o->Ok_0, g));
    let bell = choose|o: Outcome<S>| #[trigger]
        mul_out::<S>(sv, rest->Ok_0, o) && passes(o, g, silu_local_tail::<S>(x, sv, o->Ok_0, g));
    let tail = choose|o: Outcome<S>| #[trigger]
        mul_out::<S>(x.detached(), bell->Ok_0, o) && passes(
            o,
            g,
            silu_local_sum::<S>(sv, o->Ok_0, g),
        );
    lemma_one_f32::<S>(x.detached(), sigmoid_rel::<S::F, S>(), sigmoid_rel::<S::D, S>(), sv);
    lemma_ones_f32::<S>(r, x, ones->Ok_0);
    let less = subtracting::<S::F, S>();
    lemma_two_f32::<S>(ones->Ok_0, sv, less, subtracting::<S::D, S>(), rest->Ok_0);
    let times = multiplying::<S::F, S>();
    lemma_two_f32::<S>(sv, rest->Ok_0, times, multiplying::<S::D, S>(), bell->Ok_0);
    lemma_two_f32::<S>(x.detached(), bell->Ok_0, times, multiplying::<S::D, S>(), tail->Ok_0);
    lemma_two_f32::<S>(sv, tail->Ok_0, adding::<S::F, S>(), adding::<S::D, S>(), gx);
    lemma_local_f32::<S>(r, gx, gy, parts);
    assert forall|i: int| 0 <= i < n implies #[trigger] pulled_back(
        r,
        d,
        x.f32s(),
        y.f32s(),
        gy.f32s(),
        parts[0].f32s(),
        i,
    ) by {
        let (a, b, s) = (x.f32s()[i], y.f32s()[i], gx.f32s()[i]);
        assert(silu_rel::<S::F, S>()(a, b));
        let k = sv.f32s()[i];
        assert(sigmoid_rel::<S::F, S>()(a, k));
        let (t, l, u) = (rest->Ok_0.f32s()[i], bell->Ok_0.f32s()[i], tail->Ok_0.f32s()[i]);
        assert(subtracting::<S::F, S>()(ones->Ok_0.f32s()[i], k, t));
        assert(is_difference::<S::F, S>(r.one, k, t));
        assert(multiplying::<S::F, S>()(k, t, l));
        assert(is_product::<S::F, S>(k, t, l));
        assert(multiplying::<S::F, S>()(a, l, u));
        assert(is_product::<S::F, S>(a, l, u));
        assert(adding::<S::F, S>()(k, u, s));
        assert(is_sum::<S::F, S>(k, u, s));
        law_silu_slope::<S::F, S>(r, d, a, k, b, s);
        lemma_chained(r, d, a, b, gy.f32s()[i], s, parts[0].f32s()[i]);
    }
}

/// Softplus, where it is not its argument: the piece times the change of the argument is the
/// cotangent times the change of the value.
pub proof fn law_softplus_gradient_f32<S: Scalars>(
    r: Ring<S::F>,
    d: Change<S::F>,
    before: Seq<Node<S>>,
    after: Seq<Node<S>>,
    x: Model<S>,
    y: Model<S>,
    gy: Model<S>,
    parts: Seq<Model<S>>,
)
    requires
        exact::<S::F, S>(r),
        single::<S::F, S>(),
        powers::<S::F, S>(r),
        d.follows::<S>(r),
        x.data is F32,
        x.in_graph,
        gy.shape == x.shape,
        softplus_tracked::<S>(before, after, x, Ok(y)),
        after.len() > 0,
        after.last().vjp(gy, Ok(parts)),
    ensures
        after.len() == before.len() + 1,
        after.last().sources() == seq![x],
        parts.len() == 1,
        parts[0].shape == x.shape,
        y.shape == x.shape,
        forall|i: int|
            0 <= i < volume(x.shape) && y.f32s()[i] != x.f32s()[i] ==> #[trigger] pulled_back(
                r,
                d,
                x.f32s(),
                y.f32s(),
                gy.f32s(),
                parts[0].f32s(),
                i,
            ),
{
    let res: Outcome<S> = Ok(y);
    let n = volume(x.shape) as int;
    let v = choose|v: Outcome<S>| #[trigger]
        softplus_out::<S>(x, v) && v is Ok && softplus_sloped::<S>(
            before,
            after,
            x,
            v->Ok_0,
            res,
        );
    let g = choose|g: Outcome<S>| #[trigger]
        sigmoid_out::<S>(x.detached(), g) && sloped_out::<S>(
            before,
            after,
            "softplus"@,
            x,
            v->Ok_0,
            g,
            res,
        );
    let gx = g->Ok_0;
    assert(alike::<S>(y, v->Ok_0));
    assert(x.detached().f32s() == x.f32s());
    assert(v->Ok_0.detached().f32s() == v->Ok_0.f32s());
    lemma_one_f32::<S>(x, softplus_rel::<S::F, S>(), softplus_rel::<S::D, S>(), v->Ok_0);
    lemma_one_f32::<S>(x.detached(), sigmoid_rel::<S::F, S>(), sigmoid_rel::<S::D, S>(), gx);
    lemma_local_f32::<S>(r, gx, gy, parts);
    assert forall|i: int| 0 <= i < n && y.f32s()[i] != x.f32s()[i] implies #[trigger] pulled_back(
        r,
        d,
        x.f32s(),
        y.f32s(),
        gy.f32s(),
        parts[0].f32s(),
        i,
    ) by {
        let (a, b, s) = (x.f32s()[i], y.f32s()[i], gx.f32s()[i]);
        assert(softplus_rel::<S::F, S>()(a, b));
        assert(sigmoid_rel::<S::F, S>()(a, s));
        law_softplus_slope::<S::F, S>(r, d, a, b, s);
        lemma_chained(r, d, a, b, gy.f32s()[i], s, parts[0].f32s()[i]);
    }
}

/// The logarithm, where the argument is not zero: the piece times the change of the argument is the
/// cotangent times the change of the value.
pub proof fn law_log_gradient_f32<S: Scalars>(
    r: Ring<S::F>,
    half: S::F,
    d: Change<S::F>,
    before: Seq<Node<S>>,
    after: Seq<Node<S>>,
    x: Model<S>,
    y: Model<S>,
    gy: Model<S>,
    parts: Seq<Model<S>>,
)
    requires
        exact::<S::F, S>(r),
        r.times(half, multiple(r, 2)) == r.one,
        d.follows::<S>(r),
        x.data is F32,
        x.in_graph,
        gy.shape == x.shape,
        log_tracked::<S>(before, after, x, Ok(y)),
        after.len() > 0,
        after.last().vjp(gy, Ok(parts)),
    ensures
        after.len() == before.len() + 1,
        after.last().sources() == seq![x],
        parts.len() == 1,
        parts[0].shape == x.shape,
        y.shape == x.shape,
        forall|i: int|
            0 <= i < volume(x.shape) && x.f32s()[i] != r.zero ==> #[trigger] pulled_back(
                r,
                d,
                x.f32s(),
                y.f32s(),
                gy.f32s(),
                parts[0].f32s(),
                i,
            ),
{
    let res: Outcome<S> = Ok(y);
    let n = volume(x.shape) as int;
    let v = choose|v: Outcome<S>| #[trigger]
        log_out::<S>(x, v) && v is Ok && log_sloped::<S>(
            before,
            after,
            x,
            v->Ok_0,
            res,
        );
    let g = choose|g: Outcome<S>| #[trigger]
        log_slope_out::<S>(x, g) && sloped_out::<S>(
            before,
            after,
            "log"@,
            x,
            v->Ok_0,
            g,
            res,
        );
    let gx = g->Ok_0;
    assert(alike::<S>(y, v->Ok_0));
    assert(x.detached().f32s() == x.f32s());
    assert(v->Ok_0.detached().f32s() == v->Ok_0.f32s());
    lemma_one_f32::<S>(x, log_rel::<S::F, S>(), log_rel::<S::D, S>(), v->Ok_0);
    let ones = choose|o: Outcome<S>| #[trigger]
        ones_out::<S>(x.shape, x.dtype(), o) && passes(o, g, log_slope_of::<S>(x, o->Ok_0, g));
    lemma_ones_f32::<S>(r, x, ones->Ok_0);
    let over = dividing::<S::F, S>();
    lemma_two_f32::<S>(ones->Ok_0, x.detached(), over, dividing::<S::D, S>(), gx);
    lemma_local_f32::<S>(r, gx, gy, parts);
    assert forall|i: int| 0 <= i < n && x.f32s()[i] != r.zero implies #[trigger] pulled_back(
        r,
        d,
        x.f32s(),
        y.f32s(),
        gy.f32s(),
        parts[0].f32s(),
        i,
    ) by {
        let (a, b, s) = (x.f32s()[i], y.f32s()[i], gx.f32s()[i]);
        assert(log_rel::<S::F, S>()(a, b));
        assert(dividing::<S::F, S>()(ones->Ok_0.f32s()[i], a, s));
        lemma_divides::<S::F, S>(r, r.one, a, s);
        law_function_slopes::<S::F, S>(r, d, a, b, s, half);
        lemma_chained(r, d, a, b, gy.f32s()[i], s, parts[0].f32s()[i]);
    }
}

/// The root, where it is not zero: the piece times the change of the argument is the cotangent
/// times the change of the value.
pub proof fn law_sqrt_gradient_f32<S: Scalars>(
    r: Ring<S::F>,
    q: Ring<S::D>,
    to: spec_fn(S::D) -> S::F,
    d: Change<S::F>,
    before: Seq<Node<S>>,
    after: Seq<Node<S>>,
    x: Model<S>,
    y: Model<S>,
    gy: Model<S>,
    parts: Seq<Model<S>>,
)
    requires
        exact::<S::F, S>(r),
        exact::<S::D, S>(q),
        carries::<S>(r, q, to),
        d.follows::<S>(r),
        x.data is F32,
        x.in_graph,
        gy.shape == x.shape,
        sqrt_tracked::<S>(before, after, x, Ok(y)),
        after.len() > 0,
        after.last().vjp(gy, Ok(parts)),
    ensures
        after.len() == before.len() + 1,
        after.last().sources() == seq![x],
        parts.len() == 1,
        parts[0].shape == x.shape,
        y.shape == x.shape,
        forall|i: int|
            0 <= i < volume(x.shape) && y.f32s()[i] != r.zero ==> #[trigger] pulled_back(
                r,
                d,
                x.f32s(),
                y.f32s(),
                gy.f32s(),
                parts[0].f32s(),
                i,
            ),
{
    let res: Outcome<S> = Ok(y);
    let n = volume(x.shape) as int;
    let v = choose|v: Outcome<S>| #[trigger]
        sqrt_out::<S>(x, v) && v is Ok && sqrt_sloped::<S>(
            before,
            after,
            x,
            v->Ok_0,
            res,
        );
    let g = choose|g: Outcome<S>| #[trigger]
        sqrt_slope_out::<S>(x, v->Ok_0, g) && sloped_out::<S>(
            before,
            after,
            "sqrt"@,
            x,
            v->Ok_0,
            g,
            res,
        );
    let gx = g->Ok_0;
    assert(alike::<S>(y, v->Ok_0));
    assert(x.detached().f32s() == x.f32s());
    assert(v->Ok_0.detached().f32s() == v->Ok_0.f32s());
    lemma_one_f32::<S>(x, sqrt_rel::<S::F, S>(), sqrt_rel::<S::D, S>(), v->Ok_0);
    let w = v->Ok_0;
    let ones = choose|o: Outcome<S>| #[trigger]
        ones_out::<S>(x.shape, x.dtype(), o) && passes(
            o,
            g,
            sqrt_slope_quotient::<S>(w, o->Ok_0, g),
        );
    let quo = choose|o: Outcome<S>| #[trigger]
        div_out::<S>(ones->Ok_0, w.detached(), o) && passes(o, g, sqrt_slope_half::<S>(o->Ok_0, g));
    assert(halved_out::<S>(quo->Ok_0, g));
    let h = choose|h: S::D| #[trigger]
        is_half::<S::D, S>(h) && mul_scalar_out::<S>(quo->Ok_0, h, g);
    lemma_ones_f32::<S>(r, x, ones->Ok_0);
    let over = dividing::<S::F, S>();
    lemma_two_f32::<S>(ones->Ok_0, w.detached(), over, dividing::<S::D, S>(), quo->Ok_0);
    lemma_one_f32::<S>(quo->Ok_0, scaled_f32::<S>(h), scaled_f64::<S>(h), gx);
    let c = to(h);
    lemma_ratio::<S::D, S>(q, 1, 2, h);
    lemma_carries::<S>(r, q, to, h, multiple(q, 2));
    lemma_carries_multiple::<S>(r, q, to, 2);
    reveal_with_fuel(multiple, 2);
    lemma_zero(q, q.one);
    lemma_local_f32::<S>(r, gx, gy, parts);
    assert forall|i: int| 0 <= i < n && y.f32s()[i] != r.zero implies #[trigger] pulled_back(
        r,
        d,
        x.f32s(),
        y.f32s(),
        gy.f32s(),
        parts[0].f32s(),
        i,
    ) by {
        let (a, b, s) = (x.f32s()[i], y.f32s()[i], gx.f32s()[i]);
        assert(sqrt_rel::<S::F, S>()(a, b));
        let k = quo->Ok_0.f32s()[i];
        assert(dividing::<S::F, S>()(ones->Ok_0.f32s()[i], b, k));
        lemma_divides::<S::F, S>(r, r.one, b, k);
        assert(scaled_f32::<S>(h)(k, s));
        assert(is_product::<S::F, S>(k, c, s));
        lemma_turn(r, k, c, b);
        lemma_laws(r, c, r.one, r.one);
        lemma_zero(r, c);
        law_function_slopes::<S::F, S>(r, d, a, b, s, c);
        lemma_chained(r, d, a, b, gy.f32s()[i], s, parts[0].f32s()[i]);
    }
}

/// The exponential: the piece times the change of the argument is the cotangent times the change of
/// the value.
pub proof fn law_exp_gradient_f32<S: Scalars>(
    r: Ring<S::F>,
    half: S::F,
    d: Change<S::F>,
    before: Seq<Node<S>>,
    after: Seq<Node<S>>,
    x: Model<S>,
    y: Model<S>,
    gy: Model<S>,
    parts: Seq<Model<S>>,
)
    requires
        exact::<S::F, S>(r),
        r.times(half, multiple(r, 2)) == r.one,
        d.follows::<S>(r),
        x.data is F32,
        x.in_graph,
        gy.shape == x.shape,
        exp_tracked::<S>(before, after, x, Ok(y)),
        after.len() > 0,
        after.last().vjp(gy, Ok(parts)),
    ensures
        after.len() == before.len() + 1,
        after.last().sources() == seq![x],
        parts.len() == 1,
        parts[0].shape == x.shape,
        y.shape == x.shape,
        forall|i: int|
            0 <= i < volume(x.shape) ==> #[trigger] pulled_back(
                r,
                d,
                x.f32s(),
                y.f32s(),
                gy.f32s(),
                parts[0].f32s(),
                i,
            ),
{
    let res: Outcome<S> = Ok(y);
    let n = volume(x.shape) as int;
    let v = choose|v: Outcome<S>| #[trigger]
        exp_out::<S>(x, v) && tracked_out::<S>(
            before,
            after,
            x.in_graph,
            v,
            seq![x],
            RuleModel::Local { name: "exp"@, gx: v->Ok_0.detached() },
            res,
        );
    let gx = v->Ok_0.detached();
    assert(alike::<S>(y, v->Ok_0));
    assert(gx.f32s() == v->Ok_0.f32s());
    lemma_one_f32::<S>(x, exp_rel::<S::F, S>(), exp_rel::<S::D, S>(), v->Ok_0);
    lemma_local_f32::<S>(r, gx, gy, parts);
    assert forall|i: int| 0 <= i < n implies #[trigger] pulled_back(
        r,
        d,
        x.f32s(),
        y.f32s(),
        gy.f32s(),
        parts[0].f32s(),
        i,
    ) by {
        let (a, b, s) = (x.f32s()[i], y.f32s()[i], gx.f32s()[i]);
        assert(exp_rel::<S::F, S>()(a, b));
        law_function_slopes::<S::F, S>(r, d, a, b, s, half);
        lemma_chained(r, d, a, b, gy.f32s()[i], s, parts[0].f32s()[i]);
    }
}

/// The hyperbolic tangent: the piece times the change of the argument is the cotangent times the
/// change of the value.
pub proof fn law_tanh_gradient_f32<S: Scalars>(
    r: Ring<S::F>,
    half: S::F,
    d: Change<S::F>,
    before: Seq<Node<S>>,
    after: Seq<Node<S>>,
    x: Model<S>,
    y: Model<S>,
    gy: Model<S>,
    parts: Seq<Model<S>>,
)
    requires
        exact::<S::F, S>(r),
        r.times(half, multiple(r, 2)) == r.one,
        d.follows::<S>(r),
        x.data is F32,
        x.in_graph,
        gy.shape == x.shape,
        tanh_tracked::<S>(before, after, x, Ok(y)),
        after.len() > 0,
        after.last().vjp(gy, Ok(parts)),
    ensures
        after.len() == before.len() + 1,
        after.last().sources() == seq![x],
        parts.len() == 1,
        parts[0].shape == x.shape,
        y.shape == x.shape,
        forall|i: int|
            0 <= i < volume(x.shape) ==> #[trigger] pulled_back(
                r,
                d,
                x.f32s(),
                y.f32s(),
                gy.f32s(),
                parts[0].f32s(),
                i,
            ),
{
    let res: Outcome<S> = Ok(y);
    let n = volume(x.shape) as int;
    let v = choose|v: Outcome<S>| #[trigger]
        tanh_out::<S>(x, v) && tracked_out::<S>(
            before,
            after,
            x.in_graph,
            v,
            seq![x],
            RuleModel::Tanh { y: v->Ok_0.detached() },
            res,
        );
    let w = v->Ok_0.detached();
    assert(alike::<S>(y, v->Ok_0));
    assert(w.f32s() == v->Ok_0.f32s());
    lemma_one_f32::<S>(x, tanh_rel::<S::F, S>(), tanh_rel::<S::D, S>(), v->Ok_0);
    reveal(tanh_parts);
    let rp: Result<Seq<Model<S>>, Error> = Ok(parts);
    let sq = choose|o: Outcome<S>| #[trigger]
        square_out::<S>(w, o) && passes(o, rp, tanh_ones::<S>(w, gy, o->Ok_0, rp));
    let ones = choose|o: Outcome<S>| #[trigger]
        ones_out::<S>(w.shape, w.dtype(), o) && passes(
            o,
            rp,
            tanh_factor::<S>(gy, sq->Ok_0, o->Ok_0, rp),
        );
    let f = choose|o: Outcome<S>| #[trigger]
        sub_out::<S>(ones->Ok_0, sq->Ok_0, o) && passes(o, rp, tanh_product::<S>(gy, o->Ok_0, rp));
    let p = choose|o: Outcome<S>| #[trigger]
        mul_out::<S>(gy, f->Ok_0, o) && passes(o, rp, gives(rp, seq![o->Ok_0]));
    assert(parts == seq![p->Ok_0]);
    let times = multiplying::<S::F, S>();
    lemma_two_f32::<S>(w, w, times, multiplying::<S::D, S>(), sq->Ok_0);
    lemma_ones_f32::<S>(r, w, ones->Ok_0);
    let less = subtracting::<S::F, S>();
    lemma_two_f32::<S>(ones->Ok_0, sq->Ok_0, less, subtracting::<S::D, S>(), f->Ok_0);
    lemma_two_f32::<S>(gy, f->Ok_0, times, multiplying::<S::D, S>(), p->Ok_0);
    assert forall|i: int| 0 <= i < n implies #[trigger] pulled_back(
        r,
        d,
        x.f32s(),
        y.f32s(),
        gy.f32s(),
        parts[0].f32s(),
        i,
    ) by {
        let (a, b, s) = (x.f32s()[i], y.f32s()[i], f->Ok_0.f32s()[i]);
        assert(tanh_rel::<S::F, S>()(a, b));
        assert(multiplying::<S::F, S>()(b, b, sq->Ok_0.f32s()[i]));
        assert(is_product::<S::F, S>(b, b, sq->Ok_0.f32s()[i]));
        assert(subtracting::<S::F, S>()(ones->Ok_0.f32s()[i], sq->Ok_0.f32s()[i], s));
        assert(is_difference::<S::F, S>(r.one, sq->Ok_0.f32s()[i], s));
        assert(multiplying::<S::F, S>()(gy.f32s()[i], s, parts[0].f32s()[i]));
        assert(is_product::<S::F, S>(gy.f32s()[i], s, parts[0].f32s()[i]));
        law_function_slopes::<S::F, S>(r, d, a, b, s, half);
        lemma_chained(r, d, a, b, gy.f32s()[i], s, parts[0].f32s()[i]);
    }
}

/// A sum: the pieces of the two arguments, each times the change of its argument, add up to the
/// cotangent times the change of the value. Both arguments have one shape.
pub proof fn law_add_gradient_f32<S: Scalars>(
    r: Ring<S::F>,
    d: Change<S::F>,
    before: Seq<Node<S>>,
    after: Seq<Node<S>>,
    a: Model<S>,
    b: Model<S>,
    y: Model<S>,
    gy: Model<S>,
    parts: Seq<Model<S>>,
)
    requires
        exact::<S::F, S>(r),
        d.follows::<S>(r),
        a.data is F32,
        a.in_graph || b.in_graph,
        b.shape == a.shape,
        gy.shape == a.shape,
        gy.data is F32,
        add_tracked::<S>(before, after, a, b, Ok(y)),
        after.len() > 0,
        after.last().vjp(gy, Ok(parts)),
    ensures
        after.len() == before.len() + 1,
        after.last().sources() == seq![a, b],
        parts.len() == 2,
        parts[0].shape == a.shape,
        parts[1].shape == a.shape,
        y.shape == a.shape,
        forall|i: int|
            0 <= i < volume(a.shape) ==> #[trigger] both_pulled_back(
                r,
                d,
                a.f32s(),
                b.f32s(),
                y.f32s(),
                gy.f32s(),
                parts[0].f32s(),
                parts[1].f32s(),
                i,
            ),
{
    let res: Outcome<S> = Ok(y);
    let rp: Result<Seq<Model<S>>, Error> = Ok(parts);
    let n = volume(a.shape) as int;
    let v = choose|v: Outcome<S>| #[trigger]
        add_out::<S>(a, b, v) && tracked_out::<S>(
            before,
            after,
            a.in_graph || b.in_graph,
            v,
            seq![a, b],
            RuleModel::Add { a_shape: a.shape, b_shape: b.shape },
            res,
        );
    assert(alike::<S>(y, v->Ok_0));
    lemma_two_f32::<S>(a, b, adding::<S::F, S>(), adding::<S::D, S>(), v->Ok_0);
    reveal(add_parts);
    let ga = choose|o: Outcome<S>| #[trigger]
        unbroadcast_out::<S>(gy, a.shape, o) && passes(
            o,
            rp,
            add_second::<S>(b.shape, gy, o->Ok_0, rp),
        );
    let gb = choose|o: Outcome<S>| #[trigger]
        unbroadcast_out::<S>(gy, b.shape, o) && passes(
            o,
            rp,
            gives(rp, seq![ga->Ok_0, o->Ok_0]),
        );
    assert(parts == seq![gy, gy]);
    assert forall|i: int| 0 <= i < n implies #[trigger] both_pulled_back(
        r,
        d,
        a.f32s(),
        b.f32s(),
        y.f32s(),
        gy.f32s(),
        parts[0].f32s(),
        parts[1].f32s(),
        i,
    ) by {
        let (x, z, u, g) = (a.f32s()[i], b.f32s()[i], y.f32s()[i], gy.f32s()[i]);
        lemma_change(r, d, x, z);
        let (ex, ez) = (d.at(x), d.at(z));
        assert(adding::<S::F, S>()(x, z, u));
        assert(is_sum::<S::F, S>(x, z, u));
        lemma_spread(r, g, ex, ez);
    }
}

/// A difference: the pieces of the two arguments, each times the change of its argument, add up to
/// the cotangent times the change of the value. Both arguments have one shape.
pub proof fn law_sub_gradient_f32<S: Scalars>(
    r: Ring<S::F>,
    q: Ring<S::D>,
    to: spec_fn(S::D) -> S::F,
    d: Change<S::F>,
    before: Seq<Node<S>>,
    after: Seq<Node<S>>,
    a: Model<S>,
    b: Model<S>,
    y: Model<S>,
    gy: Model<S>,
    parts: Seq<Model<S>>,
)
    requires
        exact::<S::F, S>(r),
        exact::<S::D, S>(q),
        carries::<S>(r, q, to),
        forall|s: S::D| #[trigger]
            is_ratio::<S::D, S>(-1i64, 1, s) ==> s == q.minus(q.zero, q.one),
        d.follows::<S>(r),
        a.data is F32,
        a.in_graph || b.in_graph,
        b.shape == a.shape,
        gy.shape == a.shape,
        gy.data is F32,
        sub_tracked::<S>(before, after, a, b, Ok(y)),
        after.len() > 0,
        after.last().vjp(gy, Ok(parts)),
    ensures
        after.len() == before.len() + 1,
        after.last().sources() == seq![a, b],
        parts.len() == 2,
        parts[0].shape == a.shape,
        parts[1].shape == a.shape,
        y.shape == a.shape,
        forall|i: int|
            0 <= i < volume(a.shape) ==> #[trigger] both_pulled_back(
                r,
                d,
                a.f32s(),
                b.f32s(),
                y.f32s(),
                gy.f32s(),
                parts[0].f32s(),
                parts[1].f32s(),
                i,
            ),
{
    let res: Outcome<S> = Ok(y);
    let rp: Result<Seq<Model<S>>, Error> = Ok(parts);
    let n = volume(a.shape) as int;
    let v = choose|v: Outcome<S>| #[trigger]
        sub_out::<S>(a, b, v) && tracked_out::<S>(
            before,
            after,
            a.in_graph || b.in_graph,
            v,
            seq![a, b],
            RuleModel::Sub { a_shape: a.shape, b_shape: b.shape },
            res,
        );
    assert(alike::<S>(y, v->Ok_0));
    lemma_two_f32::<S>(a, b, subtracting::<S::F, S>(), subtracting::<S::D, S>(), v->Ok_0);
    reveal(sub_parts);
    let ga = choose|o: Outcome<S>| #[trigger]
        unbroadcast_out::<S>(gy, a.shape, o) && passes(
            o,
            rp,
            sub_negative::<S>(b.shape, gy, o->Ok_0, rp),
        );
    let m = choose|o: Outcome<S>| #[trigger]
        neg_out::<S>(gy, o) && passes(o, rp, sub_second::<S>(b.shape, ga->Ok_0, o->Ok_0, rp));
    let s = choose|s: S::D| #[trigger]
        is_ratio::<S::D, S>(-1i64, 1, s) && unary_value::<S>(
            gy,
            scaled_f32::<S>(s),
            scaled_f64::<S>(s),
            m->Ok_0,
        );
    lemma_one_f32::<S>(gy, scaled_f32::<S>(s), scaled_f64::<S>(s), m->Ok_0);
    let c = to(s);
    lemma_carries::<S>(r, q, to, q.zero, q.one);
    assert(c == r.minus(r.zero, r.one));
    let gb = choose|o: Outcome<S>| #[trigger]
        unbroadcast_out::<S>(m->Ok_0, b.shape, o) && passes(
            o,
            rp,
            gives(rp, seq![ga->Ok_0, o->Ok_0]),
        );
    assert(parts == seq![gy, m->Ok_0]);
    assert forall|i: int| 0 <= i < n implies #[trigger] both_pulled_back(
        r,
        d,
        a.f32s(),
        b.f32s(),
        y.f32s(),
        gy.f32s(),
        parts[0].f32s(),
        parts[1].f32s(),
        i,
    ) by {
        let (x, z, u, g) = (a.f32s()[i], b.f32s()[i], y.f32s()[i], gy.f32s()[i]);
        lemma_change(r, d, x, z);
        let (ex, ez) = (d.at(x), d.at(z));
        assert(subtracting::<S::F, S>()(x, z, u));
        assert(is_difference::<S::F, S>(x, z, u));
        let k = parts[1].f32s()[i];
        assert(scaled_f32::<S>(s)(g, k));
        assert(is_product::<S::F, S>(g, c, k));
        lemma_spread(r, g, r.zero, r.one);
        lemma_zero(r, g);
        lemma_taken(r, g, k, ex, ez);
    }
}

/// A product: the pieces of the two arguments, each times the change of its argument, add up to the
/// cotangent times the change of the value. Both arguments have one shape.
pub proof fn law_mul_gradient_f32<S: Scalars>(
    r: Ring<S::F>,
    d: Change<S::F>,
    before: Seq<Node<S>>,
    after: Seq<Node<S>>,
    a: Model<S>,
    b: Model<S>,
    y: Model<S>,
    gy: Model<S>,
    parts: Seq<Model<S>>,
)
    requires
        exact::<S::F, S>(r),
        d.follows::<S>(r),
        a.data is F32,
        a.in_graph || b.in_graph,
        b.shape == a.shape,
        gy.shape == a.shape,
        gy.data is F32,
        mul_tracked::<S>(before, after, a, b, Ok(y)),
        after.len() > 0,
        after.last().vjp(gy, Ok(parts)),
    ensures
        after.len() == before.len() + 1,
        after.last().sources() == seq![a, b],
        parts.len() == 2,
        parts[0].shape == a.shape,
        parts[1].shape == a.shape,
        y.shape == a.shape,
        forall|i: int|
            0 <= i < volume(a.shape) ==> #[trigger] both_pulled_back(
                r,
                d,
                a.f32s(),
                b.f32s(),
                y.f32s(),
                gy.f32s(),
                parts[0].f32s(),
                parts[1].f32s(),
                i,
            ),
{
    let res: Outcome<S> = Ok(y);
    let rp: Result<Seq<Model<S>>, Error> = Ok(parts);
    let n = volume(a.shape) as int;
    let v = choose|v: Outcome<S>| #[trigger]
        mul_out::<S>(a, b, v) && tracked_out::<S>(
            before,
            after,
            a.in_graph || b.in_graph,
            v,
            seq![a, b],
            RuleModel::Mul { a: a.detached(), b: b.detached() },
            res,
        );
    assert(alike::<S>(y, v->Ok_0));
    lemma_two_f32::<S>(a, b, multiplying::<S::F, S>(), multiplying::<S::D, S>(), v->Ok_0);
    reveal(mul_parts);
    let (da, db) = (a.detached(), b.detached());
    assert(da.f32s() == a.f32s() && db.f32s() == b.f32s());
    let pa = choose|o: Outcome<S>| #[trigger]
        mul_out::<S>(gy, db, o) && passes(o, rp, mul_first::<S>(da, db, gy, o->Ok_0, rp));
    let times = multiplying::<S::F, S>();
    lemma_two_f32::<S>(gy, db, times, multiplying::<S::D, S>(), pa->Ok_0);
    let ga = choose|o: Outcome<S>| #[trigger]
        unbroadcast_out::<S>(pa->Ok_0, da.shape, o) && passes(
            o,
            rp,
            mul_other::<S>(da, db, gy, o->Ok_0, rp),
        );
    let pb = choose|o: Outcome<S>| #[trigger]
        mul_out::<S>(gy, da, o) && passes(o, rp, mul_second::<S>(db, ga->Ok_0, o->Ok_0, rp));
    lemma_two_f32::<S>(gy, da, times, multiplying::<S::D, S>(), pb->Ok_0);
    let gb = choose|o: Outcome<S>| #[trigger]
        unbroadcast_out::<S>(pb->Ok_0, db.shape, o) && passes(
            o,
            rp,
            gives(rp, seq![ga->Ok_0, o->Ok_0]),
        );
    assert(parts == seq![pa->Ok_0, pb->Ok_0]);
    assert forall|i: int| 0 <= i < n implies #[trigger] both_pulled_back(
        r,
        d,
        a.f32s(),
        b.f32s(),
        y.f32s(),
        gy.f32s(),
        parts[0].f32s(),
        parts[1].f32s(),
        i,
    ) by {
        let (x, z, u, g) = (a.f32s()[i], b.f32s()[i], y.f32s()[i], gy.f32s()[i]);
        lemma_change(r, d, x, z);
        let (ex, ez) = (d.at(x), d.at(z));
        assert(multiplying::<S::F, S>()(x, z, u));
        assert(is_product::<S::F, S>(x, z, u));
        let (k, l) = (parts[0].f32s()[i], parts[1].f32s()[i]);
        assert(multiplying::<S::F, S>()(g, z, k));
        assert(is_product::<S::F, S>(g, z, k));
        assert(multiplying::<S::F, S>()(g, x, l));
        assert(is_product::<S::F, S>(g, x, l));
        lemma_spread(r, g, r.times(ex, z), r.times(x, ez));
        lemma_laws(r, g, z, ex);
        lemma_laws(r, z, ex, ex);
        lemma_laws(r, g, x, ez);
    }
}

/// A quotient, where the divisor is not zero: the pieces of the two arguments, each times the
/// change of its argument, add up to the cotangent times the change of the value. Both arguments
/// have one shape.
pub proof fn law_div_gradient_f32<S: Scalars>(
    r: Ring<S::F>,
    q: Ring<S::D>,
    to: spec_fn(S::D) -> S::F,
    d: Change<S::F>,
    before: Seq<Node<S>>,
    after: Seq<Node<S>>,
    a: Model<S>,
    b: Model<S>,
    y: Model<S>,
    gy: Model<S>,
    parts: Seq<Model<S>>,
)
    requires
        exact::<S::F, S>(r),
        exact::<S::D, S>(q),
        carries::<S>(r, q, to),
        forall|s: S::D| #[trigger]
            is_ratio::<S::D, S>(-1i64, 1, s) ==> s == q.minus(q.zero, q.one),
        d.follows::<S>(r),
        a.data is F32,
        a.in_graph || b.in_graph,
        b.shape == a.shape,
        gy.shape == a.shape,
        gy.data is F32,
        div_tracked::<S>(before, after, a, b, Ok(y)),
        after.len() > 0,
        after.last().vjp(gy, Ok(parts)),
    ensures
        after.len() == before.len() + 1,
        after.last().sources() == seq![a, b],
        parts.len() == 2,
        parts[0].shape == a.shape,
        parts[1].shape == a.shape,
        y.shape == a.shape,
        forall|i: int|
            0 <= i < volume(a.shape) && b.f32s()[i] != r.zero ==> #[trigger] both_pulled_back(
                r,
                d,
                a.f32s(),
                b.f32s(),
                y.f32s(),
                gy.f32s(),
                parts[0].f32s(),
                parts[1].f32s(),
                i,
            ),
{
    let res: Outcome<S> = Ok(y);
    let rp: Result<Seq<Model<S>>, Error> = Ok(parts);
    let n = volume(a.shape) as int;
    let v = choose|v: Outcome<S>| #[trigger]
        div_out::<S>(a, b, v) && v is Ok && div_sloped::<S>(before, after, a, b, v->Ok_0, res);
    lemma_two_f32::<S>(a, b, dividing::<S::F, S>(), dividing::<S::D, S>(), v->Ok_0);
    assert(alike::<S>(y, v->Ok_0));
    let g2 = choose|o: Result<(Model<S>, Model<S>), Error>| #[trigger]
        div_slopes_out::<S>(a, b, o) && o is Ok && recorded::<S>(
            before,
            after,
            seq![a, b],
            RuleModel::Pair {
                name: "div"@,
                da: o->Ok_0.0,
                db: o->Ok_0.1,
                a_shape: a.shape,
                b_shape: b.shape,
            },
        );
    let (sa, sb) = g2->Ok_0;
    let (xa, xb) = (a.detached(), b.detached());
    assert(xa.f32s() == a.f32s() && xb.f32s() == b.f32s());
    let ones = choose|o: Outcome<S>| #[trigger]
        ones_out::<S>(b.shape, b.dtype(), o) && passes(
            o,
            g2,
            div_slopes_first::<S>(a, b, o->Ok_0, g2),
        );
    lemma_ones_f32::<S>(r, b, ones->Ok_0);
    let inv = choose|o: Outcome<S>| #[trigger]
        div_out::<S>(ones->Ok_0, xb, o) && passes(o, g2, div_slopes_square::<S>(a, b, o->Ok_0, g2));
    let over = dividing::<S::F, S>();
    lemma_two_f32::<S>(ones->Ok_0, xb, over, dividing::<S::D, S>(), inv->Ok_0);
    let sq = choose|o: Outcome<S>| #[trigger]
        mul_out::<S>(xb, xb, o) && passes(
            o,
            g2,
            div_slopes_quotient::<S>(a, inv->Ok_0, o->Ok_0, g2),
        );
    let times = multiplying::<S::F, S>();
    lemma_two_f32::<S>(xb, xb, times, multiplying::<S::D, S>(), sq->Ok_0);
    let quo = choose|o: Outcome<S>| #[trigger]
        div_out::<S>(xa, sq->Ok_0, o) && passes(
            o,
            g2,
            div_slopes_second::<S>(inv->Ok_0, o->Ok_0, g2),
        );
    lemma_two_f32::<S>(xa, sq->Ok_0, over, dividing::<S::D, S>(), quo->Ok_0);
    let ng = choose|o: Outcome<S>| #[trigger]
        neg_out::<S>(quo->Ok_0, o) && passes(o, g2, gives(g2, (inv->Ok_0, o->Ok_0)));
    assert(sa == inv->Ok_0 && sb == ng->Ok_0);
    let s = choose|s: S::D| #[trigger]
        is_ratio::<S::D, S>(-1i64, 1, s) && unary_value::<S>(
            quo->Ok_0,
            scaled_f32::<S>(s),
            scaled_f64::<S>(s),
            sb,
        );
    lemma_one_f32::<S>(quo->Ok_0, scaled_f32::<S>(s), scaled_f64::<S>(s), sb);
    let c = to(s);
    lemma_carries::<S>(r, q, to, q.zero, q.one);
    assert(c == r.minus(r.zero, r.one));
    reveal(pair_parts);
    let pa = choose|o: Outcome<S>| #[trigger]
        mul_out::<S>(gy, sa, o) && passes(
            o,
            rp,
            pair_first::<S>(sb, a.shape, b.shape, gy, o->Ok_0, rp),
        );
    lemma_two_f32::<S>(gy, sa, times, multiplying::<S::D, S>(), pa->Ok_0);
    let ga = choose|o: Outcome<S>| #[trigger]
        unbroadcast_out::<S>(pa->Ok_0, a.shape, o) && passes(
            o,
            rp,
            pair_other::<S>(sb, b.shape, gy, o->Ok_0, rp),
        );
    let pb = choose|o: Outcome<S>| #[trigger]
        mul_out::<S>(gy, sb, o) && passes(o, rp, pair_second::<S>(b.shape, ga->Ok_0, o->Ok_0, rp));
    lemma_two_f32::<S>(gy, sb, times, multiplying::<S::D, S>(), pb->Ok_0);
    let gb = choose|o: Outcome<S>| #[trigger]
        unbroadcast_out::<S>(pb->Ok_0, b.shape, o) && passes(
            o,
            rp,
            gives(rp, seq![ga->Ok_0, o->Ok_0]),
        );
    assert(parts == seq![pa->Ok_0, pb->Ok_0]);
    assert forall|i: int| 0 <= i < n && b.f32s()[i] != r.zero implies #[trigger] both_pulled_back(
        r,
        d,
        a.f32s(),
        b.f32s(),
        y.f32s(),
        gy.f32s(),
        parts[0].f32s(),
        parts[1].f32s(),
        i,
    ) by {
        let (x, z, u, g) = (a.f32s()[i], b.f32s()[i], y.f32s()[i], gy.f32s()[i]);
        lemma_change(r, d, x, z);
        let (ex, ez) = (d.at(x), d.at(z));
        let (da, k, q2, db) = (
            sa.f32s()[i],
            sq->Ok_0.f32s()[i],
            quo->Ok_0.f32s()[i],
            sb.f32s()[i],
        );
        assert(dividing::<S::F, S>()(x, z, u));
        assert(dividing::<S::F, S>()(ones->Ok_0.f32s()[i], z, da));
        assert(multiplying::<S::F, S>()(z, z, k));
        assert(is_product::<S::F, S>(z, z, k));
        assert(dividing::<S::F, S>()(x, k, q2));
        lemma_divides::<S::F, S>(r, x, z, u);
        lemma_divides::<S::F, S>(r, r.one, z, da);
        if k == r.zero {
            lemma_zero(r, z);
            lemma_cancels(r, z, r.zero, z);
        }
        lemma_divides::<S::F, S>(r, x, k, q2);
        lemma_quotient_rule::<S::F, S>(r, d, x, z, u, da, q2);
        assert(scaled_f32::<S>(s)(q2, db));
        assert(is_product::<S::F, S>(q2, c, db));
        lemma_spread(r, q2, r.zero, r.one);
        lemma_zero(r, q2);
        let (p0, p1) = (parts[0].f32s()[i], parts[1].f32s()[i]);
        assert(multiplying::<S::F, S>()(g, da, p0));
        assert(is_product::<S::F, S>(g, da, p0));
        assert(multiplying::<S::F, S>()(g, db, p1));
        assert(is_product::<S::F, S>(g, db, p1));
        lemma_laws(r, g, da, ex);
        lemma_laws(r, g, db, ez);
        lemma_spread(r, g, r.times(da, ex), r.times(q2, ez));
        lemma_spread(r, g, r.times(da, ex), r.times(db, ez));
        lemma_spread(r, ez, r.zero, q2);
        lemma_zero(r, ez);
        lemma_added_negative(r, r.times(da, ex), r.times(q2, ez));
    }
}

/// The elements of a pointwise result of two tensors of one shape.
pub(crate) proof fn lemma_two_f64<S: Scalars>(
    a: Model<S>,
    b: Model<S>,
    rel32: spec_fn(S::F, S::F, S::F) -> bool,
    rel64: spec_fn(S::D, S::D, S::D) -> bool,
    t: Model<S>,
)
    requires
        a.data is F64,
        a.shape == b.shape,
        arith_value::<S>(a, b, rel32, rel64, t),
    ensures
        t.shape == a.shape,
        t.data is F64,
        b.data is F64,
        t.f64s().len() == volume(a.shape),
        forall|i: int|
            0 <= i < volume(a.shape) ==> rel64(a.f64s()[i], b.f64s()[i], #[trigger] t.f64s()[i]),
{
    lemma_zips_same(rel64, a.shape, a.f64s(), b.f64s(), t.data->F64_0);
    assert(t.elems() == t.data);
    assert(t.f64s() == t.data->F64_0);
}

/// The elements of a pointwise result of one tensor.
pub(crate) proof fn lemma_one_f64<S: Scalars>(
    a: Model<S>,
    rel32: spec_fn(S::F, S::F) -> bool,
    rel64: spec_fn(S::D, S::D) -> bool,
    t: Model<S>,
)
    requires
        a.data is F64,
        unary_value::<S>(a, rel32, rel64, t),
    ensures
        t.shape == a.shape,
        t.data is F64,
        t.f64s().len() == volume(a.shape),
        forall|i: int| 0 <= i < volume(a.shape) ==> rel64(a.f64s()[i], #[trigger] t.f64s()[i]),
{
    assert(t.elems() == t.data);
    assert(t.f64s() == t.data->F64_0);
}

/// The elements of a tensor of ones.
pub(crate) proof fn lemma_ones_f64<S: Scalars>(r: Ring<S::D>, like: Model<S>, t: Model<S>)
    requires
        r.computes::<S>(),
        like.data is F64,
        ones_out::<S>(like.shape, like.dtype(), Ok(t)),
    ensures
        t.shape == like.shape,
        t.data is F64,
        forall|i: int| 0 <= i < volume(like.shape) ==> #[trigger] t.f64s()[i] == r.one,
{
    assert(t.elems() == t.data);
    assert(t.f64s() == t.data->F64_0);
}

/// The piece of an operation with a recorded derivative.
pub(crate) proof fn lemma_local_f64<S: Scalars>(
    r: Ring<S::D>,
    gx: Model<S>,
    gy: Model<S>,
    parts: Seq<Model<S>>,
)
    requires
        r.computes::<S>(),
        gx.data is F64,
        gx.shape == gy.shape,
        local_parts::<S>(gx, gy, Ok(parts)),
    ensures
        parts.len() == 1,
        parts[0].shape == gx.shape,
        parts[0].data is F64,
        gy.data is F64,
        forall|i: int|
            0 <= i < volume(gx.shape) ==> #[trigger] parts[0].f64s()[i] == r.times(
                gy.f64s()[i],
                gx.f64s()[i],
            ),
{
    reveal(local_parts);
    let res: Result<Seq<Model<S>>, Error> = Ok(parts);
    let o = choose|o: Outcome<S>| #[trigger]
        mul_out::<S>(gy, gx, o) && passes(o, res, gives(res, seq![o->Ok_0]));
    assert(parts == seq![o->Ok_0]);
    assert(gy.data is F64);
    lemma_two_f64::<S>(
        gy,
        gx,
        multiplying::<S::F, S>(),
        multiplying::<S::D, S>(),
        o->Ok_0,
    );
    assert forall|i: int| 0 <= i < volume(gx.shape) implies #[trigger] parts[0].f64s()[i]
        == r.times(gy.f64s()[i], gx.f64s()[i]) by {
        assert(multiplying::<S::D, S>()(gy.f64s()[i], gx.f64s()[i], parts[0].f64s()[i]));
        assert(is_product::<S::D, S>(gy.f64s()[i], gx.f64s()[i], parts[0].f64s()[i]));
    }
}

/// GELU: the piece times the change of the argument is the cotangent times the change of the value.
pub proof fn law_gelu_gradient_f64<S: Scalars>(
    r: Ring<S::D>,
    d: Change<S::D>,
    before: Seq<Node<S>>,
    after: Seq<Node<S>>,
    x: Model<S>,
    y: Model<S>,
    gy: Model<S>,
    parts: Seq<Model<S>>,
)
    requires
        exact::<S::D, S>(r),
        single::<S::D, S>(),
        d.follows::<S>(r),
        x.data is F64,
        x.in_graph,
        gy.shape == x.shape,
        gelu_tracked::<S>(before, after, x, Ok(y)),
        after.len() > 0,
        after.last().vjp(gy, Ok(parts)),
    ensures
        after.len() == before.len() + 1,
        after.last().sources() == seq![x],
        parts.len() == 1,
        parts[0].shape == x.shape,
        y.shape == x.shape,
        forall|i: int|
            0 <= i < volume(x.shape) ==> #[trigger] pulled_back(
                r,
                d,
                x.f64s(),
                y.f64s(),
                gy.f64s(),
                parts[0].f64s(),
                i,
            ),
{
    let res: Outcome<S> = Ok(y);
    let n = volume(x.shape) as int;
    assert(x.detached().f64s() == x.f64s());
    let v = choose|v: Outcome<S>| #[trigger]
        gelu_out::<S>(x, v) && v is Ok && gelu_sloped::<S>(
            before,
            after,
            x,
            v->Ok_0,
            res,
        );
    let g = choose|g: Outcome<S>| #[trigger]
        gelu_local_out::<S>(x.detached(), g) && sloped_out::<S>(
            before,
            after,
            "gelu"@,
            x,
            v->Ok_0,
            g,
            res,
        );
    let gx = g->Ok_0;
    lemma_one_f64::<S>(x, gelu_rel::<S::F, S>(), gelu_exact_rel::<S::D, S>(), v->Ok_0);
    lemma_one_f64::<S>(
        x.detached(),
        gelu_exact_slope_rel::<S::F, S>(),
        gelu_exact_slope_rel::<S::D, S>(),
        gx,
    );
    lemma_local_f64::<S>(r, gx, gy, parts);
    assert forall|i: int| 0 <= i < n implies #[trigger] pulled_back(
        r,
        d,
        x.f64s(),
        y.f64s(),
        gy.f64s(),
        parts[0].f64s(),
        i,
    ) by {
        let (a, b, s) = (x.f64s()[i], y.f64s()[i], gx.f64s()[i]);
        assert(gelu_exact_rel::<S::D, S>()(a, b));
        assert(gelu_exact_slope_rel::<S::D, S>()(a, s));
        law_gelu_exact_slope::<S::D, S>(r, d, a, b, s);
        lemma_chained(r, d, a, b, gy.f64s()[i], s, parts[0].f64s()[i]);
    }
}

/// The sigmoid: the piece times the change of the argument is the cotangent times the change of the
/// value.
pub proof fn law_sigmoid_gradient_f64<S: Scalars>(
    r: Ring<S::D>,
    d: Change<S::D>,
    before: Seq<Node<S>>,
    after: Seq<Node<S>>,
    x: Model<S>,
    y: Model<S>,
    gy: Model<S>,
    parts: Seq<Model<S>>,
)
    requires
        exact::<S::D, S>(r),
        powers::<S::D, S>(r),
        d.follows::<S>(r),
        x.data is F64,
        x.in_graph,
        gy.shape == x.shape,
        sigmoid_tracked::<S>(before, after, x, Ok(y)),
        after.len() > 0,
        after.last().vjp(gy, Ok(parts)),
    ensures
        after.len() == before.len() + 1,
        after.last().sources() == seq![x],
        parts.len() == 1,
        parts[0].shape == x.shape,
        y.shape == x.shape,
        forall|i: int|
            0 <= i < volume(x.shape) ==> #[trigger] pulled_back(
                r,
                d,
                x.f64s(),
                y.f64s(),
                gy.f64s(),
                parts[0].f64s(),
                i,
            ),
{
    let res: Outcome<S> = Ok(y);
    let n = volume(x.shape) as int;
    let v = choose|v: Outcome<S>| #[trigger]
        sigmoid_out::<S>(x, v) && v is Ok && sigmoid_sloped::<S>(
            before,
            after,
            x,
            v->Ok_0,
            res,
        );
    let g = choose|g: Outcome<S>| #[trigger]
        sigmoid_local_out::<S>(v->Ok_0, g) && sloped_out::<S>(
            before,
            after,
            "sigmoid"@,
            x,
            v->Ok_0,
            g,
            res,
        );
    let gx = g->Ok_0;
    assert(alike::<S>(y, v->Ok_0));
    assert(x.detached().f64s() == x.f64s());
    assert(v->Ok_0.detached().f64s() == v->Ok_0.f64s());
    lemma_one_f64::<S>(x, sigmoid_rel::<S::F, S>(), sigmoid_rel::<S::D, S>(), v->Ok_0);
    let w = v->Ok_0;
    let ones = choose|o: Outcome<S>| #[trigger]
        ones_out::<S>(w.shape, w.dtype(), o) && passes(
            o,
            g,
            sigmoid_local_rest::<S>(w, o->Ok_0, g),
        );
    let rest = choose|o: Outcome<S>| #[trigger]
        sub_out::<S>(ones->Ok_0, w.detached(), o) && passes(
            o,
            g,
            sigmoid_local_product::<S>(w, o->Ok_0, g),
        );
    lemma_ones_f64::<S>(r, w, ones->Ok_0);
    lemma_two_f64::<S>(
        ones->Ok_0,
        w.detached(),
        subtracting::<S::F, S>(),
        subtracting::<S::D, S>(),
        rest->Ok_0,
    );
    lemma_two_f64::<S>(
        w.detached(),
        rest->Ok_0,
        multiplying::<S::F, S>(),
        multiplying::<S::D, S>(),
        gx,
    );
    lemma_local_f64::<S>(r, gx, gy, parts);
    assert forall|i: int| 0 <= i < n implies #[trigger] pulled_back(
        r,
        d,
        x.f64s(),
        y.f64s(),
        gy.f64s(),
        parts[0].f64s(),
        i,
    ) by {
        let (a, b, s) = (x.f64s()[i], y.f64s()[i], gx.f64s()[i]);
        assert(sigmoid_rel::<S::D, S>()(a, b));
        let t = rest->Ok_0.f64s()[i];
        assert(subtracting::<S::D, S>()(ones->Ok_0.f64s()[i], b, t));
        assert(is_difference::<S::D, S>(r.one, b, t));
        assert(multiplying::<S::D, S>()(b, t, s));
        assert(is_product::<S::D, S>(b, t, s));
        law_sigmoid_slope::<S::D, S>(r, d, a, b, s);
        lemma_chained(r, d, a, b, gy.f64s()[i], s, parts[0].f64s()[i]);
    }
}

/// SiLU: the piece times the change of the argument is the cotangent times the change of the value.
pub proof fn law_silu_gradient_f64<S: Scalars>(
    r: Ring<S::D>,
    d: Change<S::D>,
    before: Seq<Node<S>>,
    after: Seq<Node<S>>,
    x: Model<S>,
    y: Model<S>,
    gy: Model<S>,
    parts: Seq<Model<S>>,
)
    requires
        exact::<S::D, S>(r),
        single::<S::D, S>(),
        powers::<S::D, S>(r),
        d.follows::<S>(r),
        x.data is F64,
        x.in_graph,
        gy.shape == x.shape,
        silu_tracked::<S>(before, after, x, Ok(y)),
        after.len() > 0,
        after.last().vjp(gy, Ok(parts)),
    ensures
        after.len() == before.len() + 1,
        after.last().sources() == seq![x],
        parts.len() == 1,
        parts[0].shape == x.shape,
        y.shape == x.shape,
        forall|i: int|
            0 <= i < volume(x.shape) ==> #[trigger] pulled_back(
                r,
                d,
                x.f64s(),
                y.f64s(),
                gy.f64s(),
                parts[0].f64s(),
                i,
            ),
{
    let res: Outcome<S> = Ok(y);
    let n = volume(x.shape) as int;
    let v = choose|v: Outcome<S>| #[trigger]
        silu_out::<S>(x, v) && v is Ok && silu_sloped::<S>(
            before,
            after,
            x,
            v->Ok_0,
            res,
        );
    let g = choose|g: Outcome<S>| #[trigger]
        silu_local_out::<S>(x, g) && sloped_out::<S>(
            before,
            after,
            "silu"@,
            x,
            v->Ok_0,
            g,
            res,
        );
    let gx = g->Ok_0;
    assert(alike::<S>(y, v->Ok_0));
    assert(x.detached().f64s() == x.f64s());
    assert(v->Ok_0.detached().f64s() == v->Ok_0.f64s());
    lemma_one_f64::<S>(x, silu_rel::<S::F, S>(), silu_quotient_rel::<S::D, S>(), v->Ok_0);
    let sg = choose|o: Outcome<S>| #[trigger]
        sigmoid_out::<S>(x.detached(), o) && passes(o, g, silu_local_ones::<S>(x, o->Ok_0, g));
    let sv = sg->Ok_0;
    let ones = choose|o: Outcome<S>| #[trigger]
        ones_out::<S>(x.shape, x.dtype(), o) && passes(
            o,
            g,
            silu_local_rest::<S>(x, sv, o->Ok_0, g),
        );
    let rest = choose|o: Outcome<S>| #[trigger]
        sub_out::<S>(ones->Ok_0, sv, o) && passes(o, g, silu_local_bell::<S>(x, sv, o->Ok_0, g));
    let bell = choose|o: Outcome<S>| #[trigger]
        mul_out::<S>(sv, rest->Ok_0, o) && passes(o, g, silu_local_tail::<S>(x, sv, o->Ok_0, g));
    let tail = choose|o: Outcome<S>| #[trigger]
        mul_out::<S>(x.detached(), bell->Ok_0, o) && passes(
            o,
            g,
            silu_local_sum::<S>(sv, o->Ok_0, g),
        );
    lemma_one_f64::<S>(x.detached(), sigmoid_rel::<S::F, S>(), sigmoid_rel::<S::D, S>(), sv);
    lemma_ones_f64::<S>(r, x, ones->Ok_0);
    let less = subtracting::<S::F, S>();
    lemma_two_f64::<S>(ones->Ok_0, sv, less, subtracting::<S::D, S>(), rest->Ok_0);
    let times = multiplying::<S::F, S>();
    lemma_two_f64::<S>(sv, rest->Ok_0, times, multiplying::<S::D, S>(), bell->Ok_0);
    lemma_two_f64::<S>(x.detached(), bell->Ok_0, times, multiplying::<S::D, S>(), tail->Ok_0);
    lemma_two_f64::<S>(sv, tail->Ok_0, adding::<S::F, S>(), adding::<S::D, S>(), gx);
    lemma_local_f64::<S>(r, gx, gy, parts);
    assert forall|i: int| 0 <= i < n implies #[trigger] pulled_back(
        r,
        d,
        x.f64s(),
        y.f64s(),
        gy.f64s(),
        parts[0].f64s(),
        i,
    ) by {
        let (a, b, s) = (x.f64s()[i], y.f64s()[i], gx.f64s()[i]);
        assert(silu_quotient_rel::<S::D, S>()(a, b));
        let k = sv.f64s()[i];
        assert(sigmoid_rel::<S::D, S>()(a, k));
        let (t, l, u) = (rest->Ok_0.f64s()[i], bell->Ok_0.f64s()[i], tail->Ok_0.f64s()[i]);
        assert(subtracting::<S::D, S>()(ones->Ok_0.f64s()[i], k, t));
        assert(is_difference::<S::D, S>(r.one, k, t));
        assert(multiplying::<S::D, S>()(k, t, l));
        assert(is_product::<S::D, S>(k, t, l));
        assert(multiplying::<S::D, S>()(a, l, u));
        assert(is_product::<S::D, S>(a, l, u));
        assert(adding::<S::D, S>()(k, u, s));
        assert(is_sum::<S::D, S>(k, u, s));
        law_silu_slope::<S::D, S>(r, d, a, k, b, s);
        lemma_chained(r, d, a, b, gy.f64s()[i], s, parts[0].f64s()[i]);
    }
}

/// Softplus, where it is not its argument: the piece times the change of the argument is the
/// cotangent times the change of the value.
pub proof fn law_softplus_gradient_f64<S: Scalars>(
    r: Ring<S::D>,
    d: Change<S::D>,
    before: Seq<Node<S>>,
    after: Seq<Node<S>>,
    x: Model<S>,
    y: Model<S>,
    gy: Model<S>,
    parts: Seq<Model<S>>,
)
    requires
        exact::<S::D, S>(r),
        single::<S::D, S>(),
        powers::<S::D, S>(r),
        d.follows::<S>(r),
        x.data is F64,
        x.in_graph,
        gy.shape == x.shape,
        softplus_tracked::<S>(before, after, x, Ok(y)),
        after.len() > 0,
        after.last().vjp(gy, Ok(parts)),
    ensures
        after.len() == before.len() + 1,
        after.last().sources() == seq![x],
        parts.len() == 1,
        parts[0].shape == x.shape,
        y.shape == x.shape,
        forall|i: int|
            0 <= i < volume(x.shape) && y.f64s()[i] != x.f64s()[i] ==> #[trigger] pulled_back(
                r,
                d,
                x.f64s(),
                y.f64s(),
                gy.f64s(),
                parts[0].f64s(),
                i,
            ),
{
    let res: Outcome<S> = Ok(y);
    let n = volume(x.shape) as int;
    let v = choose|v: Outcome<S>| #[trigger]
        softplus_out::<S>(x, v) && v is Ok && softplus_sloped::<S>(
            before,
            after,
            x,
            v->Ok_0,
            res,
        );
    let g = choose|g: Outcome<S>| #[trigger]
        sigmoid_out::<S>(x.detached(), g) && sloped_out::<S>(
            before,
            after,
            "softplus"@,
            x,
            v->Ok_0,
            g,
            res,
        );
    let gx = g->Ok_0;
    assert(alike::<S>(y, v->Ok_0));
    assert(x.detached().f64s() == x.f64s());
    assert(v->Ok_0.detached().f64s() == v->Ok_0.f64s());
    lemma_one_f64::<S>(x, softplus_rel::<S::F, S>(), softplus_rel::<S::D, S>(), v->Ok_0);
    lemma_one_f64::<S>(x.detached(), sigmoid_rel::<S::F, S>(), sigmoid_rel::<S::D, S>(), gx);
    lemma_local_f64::<S>(r, gx, gy, parts);
    assert forall|i: int| 0 <= i < n && y.f64s()[i] != x.f64s()[i] implies #[trigger] pulled_back(
        r,
        d,
        x.f64s(),
        y.f64s(),
        gy.f64s(),
        parts[0].f64s(),
        i,
    ) by {
        let (a, b, s) = (x.f64s()[i], y.f64s()[i], gx.f64s()[i]);
        assert(softplus_rel::<S::D, S>()(a, b));
        assert(sigmoid_rel::<S::D, S>()(a, s));
        law_softplus_slope::<S::D, S>(r, d, a, b, s);
        lemma_chained(r, d, a, b, gy.f64s()[i], s, parts[0].f64s()[i]);
    }
}

/// The logarithm, where the argument is not zero: the piece times the change of the argument is the
/// cotangent times the change of the value.
pub proof fn law_log_gradient_f64<S: Scalars>(
    r: Ring<S::D>,
    half: S::D,
    d: Change<S::D>,
    before: Seq<Node<S>>,
    after: Seq<Node<S>>,
    x: Model<S>,
    y: Model<S>,
    gy: Model<S>,
    parts: Seq<Model<S>>,
)
    requires
        exact::<S::D, S>(r),
        r.times(half, multiple(r, 2)) == r.one,
        d.follows::<S>(r),
        x.data is F64,
        x.in_graph,
        gy.shape == x.shape,
        log_tracked::<S>(before, after, x, Ok(y)),
        after.len() > 0,
        after.last().vjp(gy, Ok(parts)),
    ensures
        after.len() == before.len() + 1,
        after.last().sources() == seq![x],
        parts.len() == 1,
        parts[0].shape == x.shape,
        y.shape == x.shape,
        forall|i: int|
            0 <= i < volume(x.shape) && x.f64s()[i] != r.zero ==> #[trigger] pulled_back(
                r,
                d,
                x.f64s(),
                y.f64s(),
                gy.f64s(),
                parts[0].f64s(),
                i,
            ),
{
    let res: Outcome<S> = Ok(y);
    let n = volume(x.shape) as int;
    let v = choose|v: Outcome<S>| #[trigger]
        log_out::<S>(x, v) && v is Ok && log_sloped::<S>(
            before,
            after,
            x,
            v->Ok_0,
            res,
        );
    let g = choose|g: Outcome<S>| #[trigger]
        log_slope_out::<S>(x, g) && sloped_out::<S>(
            before,
            after,
            "log"@,
            x,
            v->Ok_0,
            g,
            res,
        );
    let gx = g->Ok_0;
    assert(alike::<S>(y, v->Ok_0));
    assert(x.detached().f64s() == x.f64s());
    assert(v->Ok_0.detached().f64s() == v->Ok_0.f64s());
    lemma_one_f64::<S>(x, log_rel::<S::F, S>(), log_rel::<S::D, S>(), v->Ok_0);
    let ones = choose|o: Outcome<S>| #[trigger]
        ones_out::<S>(x.shape, x.dtype(), o) && passes(o, g, log_slope_of::<S>(x, o->Ok_0, g));
    lemma_ones_f64::<S>(r, x, ones->Ok_0);
    let over = dividing::<S::F, S>();
    lemma_two_f64::<S>(ones->Ok_0, x.detached(), over, dividing::<S::D, S>(), gx);
    lemma_local_f64::<S>(r, gx, gy, parts);
    assert forall|i: int| 0 <= i < n && x.f64s()[i] != r.zero implies #[trigger] pulled_back(
        r,
        d,
        x.f64s(),
        y.f64s(),
        gy.f64s(),
        parts[0].f64s(),
        i,
    ) by {
        let (a, b, s) = (x.f64s()[i], y.f64s()[i], gx.f64s()[i]);
        assert(log_rel::<S::D, S>()(a, b));
        assert(dividing::<S::D, S>()(ones->Ok_0.f64s()[i], a, s));
        lemma_divides::<S::D, S>(r, r.one, a, s);
        law_function_slopes::<S::D, S>(r, d, a, b, s, half);
        lemma_chained(r, d, a, b, gy.f64s()[i], s, parts[0].f64s()[i]);
    }
}

/// The root, where it is not zero: the piece times the change of the argument is the cotangent
/// times the change of the value.
pub proof fn law_sqrt_gradient_f64<S: Scalars>(
    r: Ring<S::D>,
    d: Change<S::D>,
    before: Seq<Node<S>>,
    after: Seq<Node<S>>,
    x: Model<S>,
    y: Model<S>,
    gy: Model<S>,
    parts: Seq<Model<S>>,
)
    requires
        exact::<S::D, S>(r),
        d.follows::<S>(r),
        x.data is F64,
        x.in_graph,
        gy.shape == x.shape,
        sqrt_tracked::<S>(before, after, x, Ok(y)),
        after.len() > 0,
        after.last().vjp(gy, Ok(parts)),
    ensures
        after.len() == before.len() + 1,
        after.last().sources() == seq![x],
        parts.len() == 1,
        parts[0].shape == x.shape,
        y.shape == x.shape,
        forall|i: int|
            0 <= i < volume(x.shape) && y.f64s()[i] != r.zero ==> #[trigger] pulled_back(
                r,
                d,
                x.f64s(),
                y.f64s(),
                gy.f64s(),
                parts[0].f64s(),
                i,
            ),
{
    let res: Outcome<S> = Ok(y);
    let n = volume(x.shape) as int;
    let v = choose|v: Outcome<S>| #[trigger]
        sqrt_out::<S>(x, v) && v is Ok && sqrt_sloped::<S>(
            before,
            after,
            x,
            v->Ok_0,
            res,
        );
    let g = choose|g: Outcome<S>| #[trigger]
        sqrt_slope_out::<S>(x, v->Ok_0, g) && sloped_out::<S>(
            before,
            after,
            "sqrt"@,
            x,
            v->Ok_0,
            g,
            res,
        );
    let gx = g->Ok_0;
    assert(alike::<S>(y, v->Ok_0));
    assert(x.detached().f64s() == x.f64s());
    assert(v->Ok_0.detached().f64s() == v->Ok_0.f64s());
    lemma_one_f64::<S>(x, sqrt_rel::<S::F, S>(), sqrt_rel::<S::D, S>(), v->Ok_0);
    let w = v->Ok_0;
    let ones = choose|o: Outcome<S>| #[trigger]
        ones_out::<S>(x.shape, x.dtype(), o) && passes(
            o,
            g,
            sqrt_slope_quotient::<S>(w, o->Ok_0, g),
        );
    let quo = choose|o: Outcome<S>| #[trigger]
        div_out::<S>(ones->Ok_0, w.detached(), o) && passes(o, g, sqrt_slope_half::<S>(o->Ok_0, g));
    assert(halved_out::<S>(quo->Ok_0, g));
    let h = choose|h: S::D| #[trigger]
        is_half::<S::D, S>(h) && mul_scalar_out::<S>(quo->Ok_0, h, g);
    lemma_ones_f64::<S>(r, x, ones->Ok_0);
    let over = dividing::<S::F, S>();
    lemma_two_f64::<S>(ones->Ok_0, w.detached(), over, dividing::<S::D, S>(), quo->Ok_0);
    lemma_one_f64::<S>(quo->Ok_0, scaled_f32::<S>(h), scaled_f64::<S>(h), gx);
    let c = h;
    lemma_ratio::<S::D, S>(r, 1, 2, h);
    reveal_with_fuel(multiple, 2);
    lemma_zero(r, r.one);
    lemma_local_f64::<S>(r, gx, gy, parts);
    assert forall|i: int| 0 <= i < n && y.f64s()[i] != r.zero implies #[trigger] pulled_back(
        r,
        d,
        x.f64s(),
        y.f64s(),
        gy.f64s(),
        parts[0].f64s(),
        i,
    ) by {
        let (a, b, s) = (x.f64s()[i], y.f64s()[i], gx.f64s()[i]);
        assert(sqrt_rel::<S::D, S>()(a, b));
        let k = quo->Ok_0.f64s()[i];
        assert(dividing::<S::D, S>()(ones->Ok_0.f64s()[i], b, k));
        lemma_divides::<S::D, S>(r, r.one, b, k);
        assert(scaled_f64::<S>(h)(k, s));
        assert(is_product::<S::D, S>(k, c, s));
        lemma_turn(r, k, c, b);
        lemma_laws(r, c, r.one, r.one);
        lemma_zero(r, c);
        law_function_slopes::<S::D, S>(r, d, a, b, s, c);
        lemma_chained(r, d, a, b, gy.f64s()[i], s, parts[0].f64s()[i]);
    }
}

/// The exponential: the piece times the change of the argument is the cotangent times the change of
/// the value.
pub proof fn law_exp_gradient_f64<S: Scalars>(
    r: Ring<S::D>,
    half: S::D,
    d: Change<S::D>,
    before: Seq<Node<S>>,
    after: Seq<Node<S>>,
    x: Model<S>,
    y: Model<S>,
    gy: Model<S>,
    parts: Seq<Model<S>>,
)
    requires
        exact::<S::D, S>(r),
        r.times(half, multiple(r, 2)) == r.one,
        d.follows::<S>(r),
        x.data is F64,
        x.in_graph,
        gy.shape == x.shape,
        exp_tracked::<S>(before, after, x, Ok(y)),
        after.len() > 0,
        after.last().vjp(gy, Ok(parts)),
    ensures
        after.len() == before.len() + 1,
        after.last().sources() == seq![x],
        parts.len() == 1,
        parts[0].shape == x.shape,
        y.shape == x.shape,
        forall|i: int|
            0 <= i < volume(x.shape) ==> #[trigger] pulled_back(
                r,
                d,
                x.f64s(),
                y.f64s(),
                gy.f64s(),
                parts[0].f64s(),
                i,
            ),
{
    let res: Outcome<S> = Ok(y);
    let n = volume(x.shape) as int;
    let v = choose|v: Outcome<S>| #[trigger]
        exp_out::<S>(x, v) && tracked_out::<S>(
            before,
            after,
            x.in_graph,
            v,
            seq![x],
            RuleModel::Local { name: "exp"@, gx: v->Ok_0.detached() },
            res,
        );
    let gx = v->Ok_0.detached();
    assert(alike::<S>(y, v->Ok_0));
    assert(gx.f64s() == v->Ok_0.f64s());
    lemma_one_f64::<S>(x, exp_rel::<S::F, S>(), exp_rel::<S::D, S>(), v->Ok_0);
    lemma_local_f64::<S>(r, gx, gy, parts);
    assert forall|i: int| 0 <= i < n implies #[trigger] pulled_back(
        r,
        d,
        x.f64s(),
        y.f64s(),
        gy.f64s(),
        parts[0].f64s(),
        i,
    ) by {
        let (a, b, s) = (x.f64s()[i], y.f64s()[i], gx.f64s()[i]);
        assert(exp_rel::<S::D, S>()(a, b));
        law_function_slopes::<S::D, S>(r, d, a, b, s, half);
        lemma_chained(r, d, a, b, gy.f64s()[i], s, parts[0].f64s()[i]);
    }
}

/// The hyperbolic tangent: the piece times the change of the argument is the cotangent times the
/// change of the value.
pub proof fn law_tanh_gradient_f64<S: Scalars>(
    r: Ring<S::D>,
    half: S::D,
    d: Change<S::D>,
    before: Seq<Node<S>>,
    after: Seq<Node<S>>,
    x: Model<S>,
    y: Model<S>,
    gy: Model<S>,
    parts: Seq<Model<S>>,
)
    requires
        exact::<S::D, S>(r),
        r.times(half, multiple(r, 2)) == r.one,
        d.follows::<S>(r),
        x.data is F64,
        x.in_graph,
        gy.shape == x.shape,
        tanh_tracked::<S>(before, after, x, Ok(y)),
        after.len() > 0,
        after.last().vjp(gy, Ok(parts)),
    ensures
        after.len() == before.len() + 1,
        after.last().sources() == seq![x],
        parts.len() == 1,
        parts[0].shape == x.shape,
        y.shape == x.shape,
        forall|i: int|
            0 <= i < volume(x.shape) ==> #[trigger] pulled_back(
                r,
                d,
                x.f64s(),
                y.f64s(),
                gy.f64s(),
                parts[0].f64s(),
                i,
            ),
{
    let res: Outcome<S> = Ok(y);
    let n = volume(x.shape) as int;
    let v = choose|v: Outcome<S>| #[trigger]
        tanh_out::<S>(x, v) && tracked_out::<S>(
            before,
            after,
            x.in_graph,
            v,
            seq![x],
            RuleModel::Tanh { y: v->Ok_0.detached() },
            res,
        );
    let w = v->Ok_0.detached();
    assert(alike::<S>(y, v->Ok_0));
    assert(w.f64s() == v->Ok_0.f64s());
    lemma_one_f64::<S>(x, tanh_rel::<S::F, S>(), tanh_rel::<S::D, S>(), v->Ok_0);
    reveal(tanh_parts);
    let rp: Result<Seq<Model<S>>, Error> = Ok(parts);
    let sq = choose|o: Outcome<S>| #[trigger]
        square_out::<S>(w, o) && passes(o, rp, tanh_ones::<S>(w, gy, o->Ok_0, rp));
    let ones = choose|o: Outcome<S>| #[trigger]
        ones_out::<S>(w.shape, w.dtype(), o) && passes(
            o,
            rp,
            tanh_factor::<S>(gy, sq->Ok_0, o->Ok_0, rp),
        );
    let f = choose|o: Outcome<S>| #[trigger]
        sub_out::<S>(ones->Ok_0, sq->Ok_0, o) && passes(o, rp, tanh_product::<S>(gy, o->Ok_0, rp));
    let p = choose|o: Outcome<S>| #[trigger]
        mul_out::<S>(gy, f->Ok_0, o) && passes(o, rp, gives(rp, seq![o->Ok_0]));
    assert(parts == seq![p->Ok_0]);
    let times = multiplying::<S::F, S>();
    lemma_two_f64::<S>(w, w, times, multiplying::<S::D, S>(), sq->Ok_0);
    lemma_ones_f64::<S>(r, w, ones->Ok_0);
    let less = subtracting::<S::F, S>();
    lemma_two_f64::<S>(ones->Ok_0, sq->Ok_0, less, subtracting::<S::D, S>(), f->Ok_0);
    lemma_two_f64::<S>(gy, f->Ok_0, times, multiplying::<S::D, S>(), p->Ok_0);
    assert forall|i: int| 0 <= i < n implies #[trigger] pulled_back(
        r,
        d,
        x.f64s(),
        y.f64s(),
        gy.f64s(),
        parts[0].f64s(),
        i,
    ) by {
        let (a, b, s) = (x.f64s()[i], y.f64s()[i], f->Ok_0.f64s()[i]);
        assert(tanh_rel::<S::D, S>()(a, b));
        assert(multiplying::<S::D, S>()(b, b, sq->Ok_0.f64s()[i]));
        assert(is_product::<S::D, S>(b, b, sq->Ok_0.f64s()[i]));
        assert(subtracting::<S::D, S>()(ones->Ok_0.f64s()[i], sq->Ok_0.f64s()[i], s));
        assert(is_difference::<S::D, S>(r.one, sq->Ok_0.f64s()[i], s));
        assert(multiplying::<S::D, S>()(gy.f64s()[i], s, parts[0].f64s()[i]));
        assert(is_product::<S::D, S>(gy.f64s()[i], s, parts[0].f64s()[i]));
        law_function_slopes::<S::D, S>(r, d, a, b, s, half);
        lemma_chained(r, d, a, b, gy.f64s()[i], s, parts[0].f64s()[i]);
    }
}

/// A sum: the pieces of the two arguments, each times the change of its argument, add up to the
/// cotangent times the change of the value. Both arguments have one shape.
pub proof fn law_add_gradient_f64<S: Scalars>(
    r: Ring<S::D>,
    d: Change<S::D>,
    before: Seq<Node<S>>,
    after: Seq<Node<S>>,
    a: Model<S>,
    b: Model<S>,
    y: Model<S>,
    gy: Model<S>,
    parts: Seq<Model<S>>,
)
    requires
        exact::<S::D, S>(r),
        d.follows::<S>(r),
        a.data is F64,
        a.in_graph || b.in_graph,
        b.shape == a.shape,
        gy.shape == a.shape,
        gy.data is F64,
        add_tracked::<S>(before, after, a, b, Ok(y)),
        after.len() > 0,
        after.last().vjp(gy, Ok(parts)),
    ensures
        after.len() == before.len() + 1,
        after.last().sources() == seq![a, b],
        parts.len() == 2,
        parts[0].shape == a.shape,
        parts[1].shape == a.shape,
        y.shape == a.shape,
        forall|i: int|
            0 <= i < volume(a.shape) ==> #[trigger] both_pulled_back(
                r,
                d,
                a.f64s(),
                b.f64s(),
                y.f64s(),
                gy.f64s(),
                parts[0].f64s(),
                parts[1].f64s(),
                i,
            ),
{
    let res: Outcome<S> = Ok(y);
    let rp: Result<Seq<Model<S>>, Error> = Ok(parts);
    let n = volume(a.shape) as int;
    let v = choose|v: Outcome<S>| #[trigger]
        add_out::<S>(a, b, v) && tracked_out::<S>(
            before,
            after,
            a.in_graph || b.in_graph,
            v,
            seq![a, b],
            RuleModel::Add { a_shape: a.shape, b_shape: b.shape },
            res,
        );
    assert(alike::<S>(y, v->Ok_0));
    lemma_two_f64::<S>(a, b, adding::<S::F, S>(), adding::<S::D, S>(), v->Ok_0);
    reveal(add_parts);
    let ga = choose|o: Outcome<S>| #[trigger]
        unbroadcast_out::<S>(gy, a.shape, o) && passes(
            o,
            rp,
            add_second::<S>(b.shape, gy, o->Ok_0, rp),
        );
    let gb = choose|o: Outcome<S>| #[trigger]
        unbroadcast_out::<S>(gy, b.shape, o) && passes(
            o,
            rp,
            gives(rp, seq![ga->Ok_0, o->Ok_0]),
        );
    assert(parts == seq![gy, gy]);
    assert forall|i: int| 0 <= i < n implies #[trigger] both_pulled_back(
        r,
        d,
        a.f64s(),
        b.f64s(),
        y.f64s(),
        gy.f64s(),
        parts[0].f64s(),
        parts[1].f64s(),
        i,
    ) by {
        let (x, z, u, g) = (a.f64s()[i], b.f64s()[i], y.f64s()[i], gy.f64s()[i]);
        lemma_change(r, d, x, z);
        let (ex, ez) = (d.at(x), d.at(z));
        assert(adding::<S::D, S>()(x, z, u));
        assert(is_sum::<S::D, S>(x, z, u));
        lemma_spread(r, g, ex, ez);
    }
}

/// A difference: the pieces of the two arguments, each times the change of its argument, add up to
/// the cotangent times the change of the value. Both arguments have one shape.
pub proof fn law_sub_gradient_f64<S: Scalars>(
    r: Ring<S::D>,
    d: Change<S::D>,
    before: Seq<Node<S>>,
    after: Seq<Node<S>>,
    a: Model<S>,
    b: Model<S>,
    y: Model<S>,
    gy: Model<S>,
    parts: Seq<Model<S>>,
)
    requires
        exact::<S::D, S>(r),
        forall|s: S::D| #[trigger]
            is_ratio::<S::D, S>(-1i64, 1, s) ==> s == r.minus(r.zero, r.one),
        d.follows::<S>(r),
        a.data is F64,
        a.in_graph || b.in_graph,
        b.shape == a.shape,
        gy.shape == a.shape,
        gy.data is F64,
        sub_tracked::<S>(before, after, a, b, Ok(y)),
        after.len() > 0,
        after.last().vjp(gy, Ok(parts)),
    ensures
        after.len() == before.len() + 1,
        after.last().sources() == seq![a, b],
        parts.len() == 2,
        parts[0].shape == a.shape,
        parts[1].shape == a.shape,
        y.shape == a.shape,
        forall|i: int|
            0 <= i < volume(a.shape) ==> #[trigger] both_pulled_back(
                r,
                d,
                a.f64s(),
                b.f64s(),
                y.f64s(),
                gy.f64s(),
                parts[0].f64s(),
                parts[1].f64s(),
                i,
            ),
{
    let res: Outcome<S> = Ok(y);
    let rp: Result<Seq<Model<S>>, Error> = Ok(parts);
    let n = volume(a.shape) as int;
    let v = choose|v: Outcome<S>| #[trigger]
        sub_out::<S>(a, b, v) && tracked_out::<S>(
            before,
            after,
            a.in_graph || b.in_graph,
            v,
            seq![a, b],
            RuleModel::Sub { a_shape: a.shape, b_shape: b.shape },
            res,
        );
    assert(alike::<S>(y, v->Ok_0));
    lemma_two_f64::<S>(a, b, subtracting::<S::F, S>(), subtracting::<S::D, S>(), v->Ok_0);
    reveal(sub_parts);
    let ga = choose|o: Outcome<S>| #[trigger]
        unbroadcast_out::<S>(gy, a.shape, o) && passes(
            o,
            rp,
            sub_negative::<S>(b.shape, gy, o->Ok_0, rp),
        );
    let m = choose|o: Outcome<S>| #[trigger]
        neg_out::<S>(gy, o) && passes(o, rp, sub_second::<S>(b.shape, ga->Ok_0, o->Ok_0, rp));
    let s = choose|s: S::D| #[trigger]
        is_ratio::<S::D, S>(-1i64, 1, s) && unary_value::<S>(
            gy,
            scaled_f32::<S>(s),
            scaled_f64::<S>(s),
            m->Ok_0,
        );
    lemma_one_f64::<S>(gy, scaled_f32::<S>(s), scaled_f64::<S>(s), m->Ok_0);
    let c = s;
    assert(c == r.minus(r.zero, r.one));
    let gb = choose|o: Outcome<S>| #[trigger]
        unbroadcast_out::<S>(m->Ok_0, b.shape, o) && passes(
            o,
            rp,
            gives(rp, seq![ga->Ok_0, o->Ok_0]),
        );
    assert(parts == seq![gy, m->Ok_0]);
    assert forall|i: int| 0 <= i < n implies #[trigger] both_pulled_back(
        r,
        d,
        a.f64s(),
        b.f64s(),
        y.f64s(),
        gy.f64s(),
        parts[0].f64s(),
        parts[1].f64s(),
        i,
    ) by {
        let (x, z, u, g) = (a.f64s()[i], b.f64s()[i], y.f64s()[i], gy.f64s()[i]);
        lemma_change(r, d, x, z);
        let (ex, ez) = (d.at(x), d.at(z));
        assert(subtracting::<S::D, S>()(x, z, u));
        assert(is_difference::<S::D, S>(x, z, u));
        let k = parts[1].f64s()[i];
        assert(scaled_f64::<S>(s)(g, k));
        assert(is_product::<S::D, S>(g, c, k));
        lemma_spread(r, g, r.zero, r.one);
        lemma_zero(r, g);
        lemma_taken(r, g, k, ex, ez);
    }
}

/// A product: the pieces of the two arguments, each times the change of its argument, add up to the
/// cotangent times the change of the value. Both arguments have one shape.
pub proof fn law_mul_gradient_f64<S: Scalars>(
    r: Ring<S::D>,
    d: Change<S::D>,
    before: Seq<Node<S>>,
    after: Seq<Node<S>>,
    a: Model<S>,
    b: Model<S>,
    y: Model<S>,
    gy: Model<S>,
    parts: Seq<Model<S>>,
)
    requires
        exact::<S::D, S>(r),
        d.follows::<S>(r),
        a.data is F64,
        a.in_graph || b.in_graph,
        b.shape == a.shape,
        gy.shape == a.shape,
        gy.data is F64,
        mul_tracked::<S>(before, after, a, b, Ok(y)),
        after.len() > 0,
        after.last().vjp(gy, Ok(parts)),
    ensures
        after.len() == before.len() + 1,
        after.last().sources() == seq![a, b],
        parts.len() == 2,
        parts[0].shape == a.shape,
        parts[1].shape == a.shape,
        y.shape == a.shape,
        forall|i: int|
            0 <= i < volume(a.shape) ==> #[trigger] both_pulled_back(
                r,
                d,
                a.f64s(),
                b.f64s(),
                y.f64s(),
                gy.f64s(),
                parts[0].f64s(),
                parts[1].f64s(),
                i,
            ),
{
    let res: Outcome<S> = Ok(y);
    let rp: Result<Seq<Model<S>>, Error> = Ok(parts);
    let n = volume(a.shape) as int;
    let v = choose|v: Outcome<S>| #[trigger]
        mul_out::<S>(a, b, v) && tracked_out::<S>(
            before,
            after,
            a.in_graph || b.in_graph,
            v,
            seq![a, b],
            RuleModel::Mul { a: a.detached(), b: b.detached() },
            res,
        );
    assert(alike::<S>(y, v->Ok_0));
    lemma_two_f64::<S>(a, b, multiplying::<S::F, S>(), multiplying::<S::D, S>(), v->Ok_0);
    reveal(mul_parts);
    let (da, db) = (a.detached(), b.detached());
    assert(da.f64s() == a.f64s() && db.f64s() == b.f64s());
    let pa = choose|o: Outcome<S>| #[trigger]
        mul_out::<S>(gy, db, o) && passes(o, rp, mul_first::<S>(da, db, gy, o->Ok_0, rp));
    let times = multiplying::<S::F, S>();
    lemma_two_f64::<S>(gy, db, times, multiplying::<S::D, S>(), pa->Ok_0);
    let ga = choose|o: Outcome<S>| #[trigger]
        unbroadcast_out::<S>(pa->Ok_0, da.shape, o) && passes(
            o,
            rp,
            mul_other::<S>(da, db, gy, o->Ok_0, rp),
        );
    let pb = choose|o: Outcome<S>| #[trigger]
        mul_out::<S>(gy, da, o) && passes(o, rp, mul_second::<S>(db, ga->Ok_0, o->Ok_0, rp));
    lemma_two_f64::<S>(gy, da, times, multiplying::<S::D, S>(), pb->Ok_0);
    let gb = choose|o: Outcome<S>| #[trigger]
        unbroadcast_out::<S>(pb->Ok_0, db.shape, o) && passes(
            o,
            rp,
            gives(rp, seq![ga->Ok_0, o->Ok_0]),
        );
    assert(parts == seq![pa->Ok_0, pb->Ok_0]);
    assert forall|i: int| 0 <= i < n implies #[trigger] both_pulled_back(
        r,
        d,
        a.f64s(),
        b.f64s(),
        y.f64s(),
        gy.f64s(),
        parts[0].f64s(),
        parts[1].f64s(),
        i,
    ) by {
        let (x, z, u, g) = (a.f64s()[i], b.f64s()[i], y.f64s()[i], gy.f64s()[i]);
        lemma_change(r, d, x, z);
        let (ex, ez) = (d.at(x), d.at(z));
        assert(multiplying::<S::D, S>()(x, z, u));
        assert(is_product::<S::D, S>(x, z, u));
        let (k, l) = (parts[0].f64s()[i], parts[1].f64s()[i]);
        assert(multiplying::<S::D, S>()(g, z, k));
        assert(is_product::<S::D, S>(g, z, k));
        assert(multiplying::<S::D, S>()(g, x, l));
        assert(is_product::<S::D, S>(g, x, l));
        lemma_spread(r, g, r.times(ex, z), r.times(x, ez));
        lemma_laws(r, g, z, ex);
        lemma_laws(r, z, ex, ex);
        lemma_laws(r, g, x, ez);
    }
}

/// A quotient, where the divisor is not zero: the pieces of the two arguments, each times the
/// change of its argument, add up to the cotangent times the change of the value. Both arguments
/// have one shape.
pub proof fn law_div_gradient_f64<S: Scalars>(
    r: Ring<S::D>,
    d: Change<S::D>,
    before: Seq<Node<S>>,
    after: Seq<Node<S>>,
    a: Model<S>,
    b: Model<S>,
    y: Model<S>,
    gy: Model<S>,
    parts: Seq<Model<S>>,
)
    requires
        exact::<S::D, S>(r),
        forall|s: S::D| #[trigger]
            is_ratio::<S::D, S>(-1i64, 1, s) ==> s == r.minus(r.zero, r.one),
        d.follows::<S>(r),
        a.data is F64,
        a.in_graph || b.in_graph,
        b.shape == a.shape,
        gy.shape == a.shape,
        gy.data is F64,
        div_tracked::<S>(before, after, a, b, Ok(y)),
        after.len() > 0,
        after.last().vjp(gy, Ok(parts)),
    ensures
        after.len() == before.len() + 1,
        after.last().sources() == seq![a, b],
        parts.len() == 2,
        parts[0].shape == a.shape,
        parts[1].shape == a.shape,
        y.shape == a.shape,
        forall|i: int|
            0 <= i < volume(a.shape) && b.f64s()[i] != r.zero ==> #[trigger] both_pulled_back(
                r,
                d,
                a.f64s(),
                b.f64s(),
                y.f64s(),
                gy.f64s(),
                parts[0].f64s(),
                parts[1].f64s(),
                i,
            ),
{
    let res: Outcome<S> = Ok(y);
    let rp: Result<Seq<Model<S>>, Error> = Ok(parts);
    let n = volume(a.shape) as int;
    let v = choose|v: Outcome<S>| #[trigger]
        div_out::<S>(a, b, v) && v is Ok && div_sloped::<S>(before, after, a, b, v->Ok_0, res);
    lemma_two_f64::<S>(a, b, dividing::<S::F, S>(), dividing::<S::D, S>(), v->Ok_0);
    assert(alike::<S>(y, v->Ok_0));
    let g2 = choose|o: Result<(Model<S>, Model<S>), Error>| #[trigger]
        div_slopes_out::<S>(a, b, o) && o is Ok && recorded::<S>(
            before,
            after,
            seq![a, b],
            RuleModel::Pair {
                name: "div"@,
                da: o->Ok_0.0,
                db: o->Ok_0.1,
                a_shape: a.shape,
                b_shape: b.shape,
            },
        );
    let (sa, sb) = g2->Ok_0;
    let (xa, xb) = (a.detached(), b.detached());
    assert(xa.f64s() == a.f64s() && xb.f64s() == b.f64s());
    let ones = choose|o: Outcome<S>| #[trigger]
        ones_out::<S>(b.shape, b.dtype(), o) && passes(
            o,
            g2,
            div_slopes_first::<S>(a, b, o->Ok_0, g2),
        );
    lemma_ones_f64::<S>(r, b, ones->Ok_0);
    let inv = choose|o: Outcome<S>| #[trigger]
        div_out::<S>(ones->Ok_0, xb, o) && passes(o, g2, div_slopes_square::<S>(a, b, o->Ok_0, g2));
    let over = dividing::<S::F, S>();
    lemma_two_f64::<S>(ones->Ok_0, xb, over, dividing::<S::D, S>(), inv->Ok_0);
    let sq = choose|o: Outcome<S>| #[trigger]
        mul_out::<S>(xb, xb, o) && passes(
            o,
            g2,
            div_slopes_quotient::<S>(a, inv->Ok_0, o->Ok_0, g2),
        );
    let times = multiplying::<S::F, S>();
    lemma_two_f64::<S>(xb, xb, times, multiplying::<S::D, S>(), sq->Ok_0);
    let quo = choose|o: Outcome<S>| #[trigger]
        div_out::<S>(xa, sq->Ok_0, o) && passes(
            o,
            g2,
            div_slopes_second::<S>(inv->Ok_0, o->Ok_0, g2),
        );
    lemma_two_f64::<S>(xa, sq->Ok_0, over, dividing::<S::D, S>(), quo->Ok_0);
    let ng = choose|o: Outcome<S>| #[trigger]
        neg_out::<S>(quo->Ok_0, o) && passes(o, g2, gives(g2, (inv->Ok_0, o->Ok_0)));
    assert(sa == inv->Ok_0 && sb == ng->Ok_0);
    let s = choose|s: S::D| #[trigger]
        is_ratio::<S::D, S>(-1i64, 1, s) && unary_value::<S>(
            quo->Ok_0,
            scaled_f32::<S>(s),
            scaled_f64::<S>(s),
            sb,
        );
    lemma_one_f64::<S>(quo->Ok_0, scaled_f32::<S>(s), scaled_f64::<S>(s), sb);
    let c = s;
    assert(c == r.minus(r.zero, r.one));
    reveal(pair_parts);
    let pa = choose|o: Outcome<S>| #[trigger]
        mul_out::<S>(gy, sa, o) && passes(
            o,
            rp,
            pair_first::<S>(sb, a.shape, b.shape, gy, o->Ok_0, rp),
        );
    lemma_two_f64::<S>(gy, sa, times, multiplying::<S::D, S>(), pa->Ok_0);
    let ga = choose|o: Outcome<S>| #[trigger]
        unbroadcast_out::<S>(pa->Ok_0, a.shape, o) && passes(
            o,
            rp,
            pair_other::<S>(sb, b.shape, gy, o->Ok_0, rp),
        );
    let pb = choose|o: Outcome<S>| #[trigger]
        mul_out::<S>(gy, sb, o) && passes(o, rp, pair_second::<S>(b.shape, ga->Ok_0, o->Ok_0, rp));
    lemma_two_f64::<S>(gy, sb, times, multiplying::<S::D, S>(), pb->Ok_0);
    let gb = choose|o: Outcome<S>| #[trigger]
        unbroadcast_out::<S>(pb->Ok_0, b.shape, o) && passes(
            o,
            rp,
            gives(rp, seq![ga->Ok_0, o->Ok_0]),
        );
    assert(parts == seq![pa->Ok_0, pb->Ok_0]);
    assert forall|i: int| 0 <= i < n && b.f64s()[i] != r.zero implies #[trigger] both_pulled_back(
        r,
        d,
        a.f64s(),
        b.f64s(),
        y.f64s(),
        gy.f64s(),
        parts[0].f64s(),
        parts[1].f64s(),
        i,
    ) by {
        let (x, z, u, g) = (a.f64s()[i], b.f64s()[i], y.f64s()[i], gy.f64s()[i]);
        lemma_change(r, d, x, z);
        let (ex, ez) = (d.at(x), d.at(z));
        let (da, k, q2, db) = (
            sa.f64s()[i],
            sq->Ok_0.f64s()[i],
            quo->Ok_0.f64s()[i],
            sb.f64s()[i],
        );
        assert(dividing::<S::D, S>()(x, z, u));
        assert(dividing::<S::D, S>()(ones->Ok_0.f64s()[i], z, da));
        assert(multiplying::<S::D, S>()(z, z, k));
        assert(is_product::<S::D, S>(z, z, k));
        assert(dividing::<S::D, S>()(x, k, q2));
        lemma_divides::<S::D, S>(r, x, z, u);
        lemma_divides::<S::D, S>(r, r.one, z, da);
        if k == r.zero {
            lemma_zero(r, z);
            lemma_cancels(r, z, r.zero, z);
        }
        lemma_divides::<S::D, S>(r, x, k, q2);
        lemma_quotient_rule::<S::D, S>(r, d, x, z, u, da, q2);
        assert(scaled_f64::<S>(s)(q2, db));
        assert(is_product::<S::D, S>(q2, c, db));
        lemma_spread(r, q2, r.zero, r.one);
        lemma_zero(r, q2);
        let (p0, p1) = (parts[0].f64s()[i], parts[1].f64s()[i]);
        assert(multiplying::<S::D, S>()(g, da, p0));
        assert(is_product::<S::D, S>(g, da, p0));
        assert(multiplying::<S::D, S>()(g, db, p1));
        assert(is_product::<S::D, S>(g, db, p1));
        lemma_laws(r, g, da, ex);
        lemma_laws(r, g, db, ez);
        lemma_spread(r, g, r.times(da, ex), r.times(q2, ez));
        lemma_spread(r, g, r.times(da, ex), r.times(db, ez));
        lemma_spread(r, ez, r.zero, q2);
        lemma_zero(r, ez);
        lemma_added_negative(r, r.times(da, ex), r.times(q2, ez));
    }
}

} // verus!
