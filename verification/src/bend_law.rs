//! The gradients of the operations that bend at a point: the piece times the change of the argument
//! is the cotangent times the change of the value.
use vstd::prelude::*;
use crate::ad::{
    abs_sloped, abs_tracked, clamp_slope_f32, clamp_slope_f64, clamp_slope_out, clamp_sloped,
    clamp_tracked, inside_of, leaky_relu_sloped, leaky_relu_tracked, leaky_slope_f32,
    leaky_slope_f64, leaky_slope_out, relu_tracked, sloped_out,
};
use crate::algebra::{lemma_spread, lemma_zero};
use crate::calculus::{carries, exact, lemma_carries, lemma_change, orders, Change};
use crate::cpu::{clamp_out, clamped_f32, clamped_f64, leaky_f32, leaky_f64, leaky_relu_out};
use crate::error::Error;
use crate::index::volume;
use crate::nodes::{tracked_out, Node, RuleModel};
use crate::norm_law::alike;
use crate::pointwise_law::{
    lemma_chained, lemma_local_f32, lemma_local_f64, lemma_one_f32, lemma_one_f64, pulled_back,
};
use crate::ring::{lemma_laws, Ring};
use crate::rules::{from_f32s_out, from_f64s_out, gated_of, gates_all, relu_back_out, relu_parts};
use crate::scalar::{is_ratio, Arith, Scalars};
use crate::tape::Backward;
use crate::tensor::{gives, passes, Model, Outcome};
use crate::unary::{abs_out, abs_rel, relu_out, relu_rel, sign_of, sign_out, sign_rel};

verus! {

/// The rectifier: the piece times the change of the argument is the cotangent times the change of
/// the value.
pub proof fn law_relu_gradient_f32<S: Scalars>(
    r: Ring<S::F>,
    gt: spec_fn(S::F, S::F) -> bool,
    d: Change<S::F>,
    before: Seq<Node<S>>,
    after: Seq<Node<S>>,
    x: Model<S>,
    y: Model<S>,
    gy: Model<S>,
    parts: Seq<Model<S>>,
)
    requires
        exact::<S::F, S>(r),
        orders::<S::F, S>(r, gt),
        d.follows::<S>(r),
        x.data is F32,
        x.in_graph,
        gy.shape == x.shape,
        relu_tracked::<S>(before, after, x, Ok(y)),
        after.len() > 0,
        after.last().vjp(gy, Ok(parts)),
    ensures
        after.len() == before.len() + 1,
        after.last().sources() == seq![x],
        parts.len() == 1,
        parts[0].shape == x.shape,
        y.shape == x.shape,
        forall|i: int|
            0 <= i < volume(x.shape) ==> #[trigger] pulled_back(
                r,
                d,
                x.f32s(),
                y.f32s(),
                gy.f32s(),
                parts[0].f32s(),
                i,
            ),
{
    let res: Outcome<S> = Ok(y);
    let n = volume(x.shape) as int;
    lemma_change(r, d, r.zero, r.zero);
    let v = choose|v: Outcome<S>| #[trigger]
        relu_out::<S>(x, v) && tracked_out::<S>(
            before,
            after,
            x.in_graph,
            v,
            seq![x],
            RuleModel::Relu { x: x.detached() },
            res,
        );
    assert(alike::<S>(y, v->Ok_0));
    lemma_one_f32::<S>(x, relu_rel::<S::F, S>(), relu_rel::<S::D, S>(), v->Ok_0);
    reveal(relu_parts);
    let rp: Result<Seq<Model<S>>, Error> = Ok(parts);
    let o = choose|o: Outcome<S>| #[trigger]
        relu_back_out::<S>(x.detached(), gy, o) && passes(o, rp, gives(rp, seq![o->Ok_0]));
    assert(parts == seq![o->Ok_0]);
    let xs = x.detached().f32s();
    assert(xs == x.f32s());
    let ps = choose|ps: Seq<S::F>| #[trigger]
        gates_all::<S::F, S>(xs, gy.f32s(), ps) && from_f32s_out::<S>(ps, x.shape, o);
    assert(o->Ok_0.elems() == o->Ok_0.data);
    assert(parts[0].f32s() == ps);
    assert forall|i: int| 0 <= i < n implies #[trigger] pulled_back(
        r,
        d,
        x.f32s(),
        y.f32s(),
        gy.f32s(),
        parts[0].f32s(),
        i,
    ) by {
        let (a, b, g) = (x.f32s()[i], y.f32s()[i], gy.f32s()[i]);
        assert(relu_rel::<S::F, S>()(a, b));
        assert(gated_of::<S::F, S>(a, g, ps[i]));
        lemma_zero(r, g);
        lemma_zero(r, d.at(a));
        reveal(orders);
    }
}

/// The leaky rectifier, whose slope does not change: the piece times the change of the argument is
/// the cotangent times the change of the value.
pub proof fn law_leaky_relu_gradient_f32<S: Scalars>(
    r: Ring<S::F>,
    gt: spec_fn(S::F, S::F) -> bool,
    d: Change<S::F>,
    q: Ring<S::D>,
    to: spec_fn(S::D) -> S::F,
    slope: S::D,
    before: Seq<Node<S>>,
    after: Seq<Node<S>>,
    x: Model<S>,
    y: Model<S>,
    gy: Model<S>,
    parts: Seq<Model<S>>,
)
    requires
        exact::<S::F, S>(r),
        orders::<S::F, S>(r, gt),
        d.follows::<S>(r),
        exact::<S::D, S>(q),
        carries::<S>(r, q, to),
        d.at(to(slope)) == r.zero,
        x.data is F32,
        x.in_graph,
        gy.shape == x.shape,
        leaky_relu_tracked::<S>(before, after, x, slope, Ok(y)),
        after.len() > 0,
        after.last().vjp(gy, Ok(parts)),
    ensures
        after.len() == before.len() + 1,
        after.last().sources() == seq![x],
        parts.len() == 1,
        parts[0].shape == x.shape,
        y.shape == x.shape,
        forall|i: int|
            0 <= i < volume(x.shape) ==> #[trigger] pulled_back(
                r,
                d,
                x.f32s(),
                y.f32s(),
                gy.f32s(),
                parts[0].f32s(),
                i,
            ),
{
    let res: Outcome<S> = Ok(y);
    let n = volume(x.shape) as int;
    lemma_change(r, d, r.zero, r.zero);
    let v = choose|v: Outcome<S>| #[trigger]
        leaky_relu_out::<S>(x, slope, v) && v is Ok && leaky_relu_sloped::<S>(
            before,
            after,
            x,
            slope,
            v->Ok_0,
            res,
        );
    let g = choose|g: Outcome<S>| #[trigger]
        leaky_slope_out::<S>(x, slope, g) && sloped_out::<S>(
            before,
            after,
            "leaky_relu"@,
            x,
            v->Ok_0,
            g,
            res,
        );
    let gx = g->Ok_0;
    assert(alike::<S>(y, v->Ok_0));
    assert(x.detached().f32s() == x.f32s());
    lemma_carries::<S>(r, q, to, slope, slope);
    let k = to(slope);
    lemma_one_f32::<S>(x, leaky_f32::<S>(slope), leaky_f64::<S>(slope), v->Ok_0);
    lemma_one_f32::<S>(x, leaky_slope_f32::<S>(slope), leaky_slope_f64::<S>(slope), gx);
    lemma_local_f32::<S>(r, gx, gy, parts);
    assert forall|i: int| 0 <= i < n implies #[trigger] pulled_back(
        r,
        d,
        x.f32s(),
        y.f32s(),
        gy.f32s(),
        parts[0].f32s(),
        i,
    ) by {
        let (a, b, s) = (x.f32s()[i], y.f32s()[i], gx.f32s()[i]);
        assert(leaky_f32::<S>(slope)(a, b));
        assert(leaky_slope_f32::<S>(slope)(a, s));
        assert(if gt(r.zero, a) {
            s == k && b == r.times(a, k)
        } else {
            s == r.one && b == a
        }) by {
            reveal(orders);
        }
        lemma_zero(r, d.at(a));
        lemma_change(r, d, a, k);
        lemma_zero(r, a);
        lemma_laws(r, d.at(a), k, k);
        lemma_zero(r, r.times(d.at(a), k));
        lemma_chained(r, d, a, b, gy.f32s()[i], s, parts[0].f32s()[i]);
    }
}

/// Clamping to bounds that do not change: the piece times the change of the argument is the
/// cotangent times the change of the value.
pub proof fn law_clamp_gradient_f32<S: Scalars>(
    r: Ring<S::F>,
    gt: spec_fn(S::F, S::F) -> bool,
    d: Change<S::F>,
    q: Ring<S::D>,
    to: spec_fn(S::D) -> S::F,
    min: S::D,
    max: S::D,
    before: Seq<Node<S>>,
    after: Seq<Node<S>>,
    x: Model<S>,
    y: Model<S>,
    gy: Model<S>,
    parts: Seq<Model<S>>,
)
    requires
        exact::<S::F, S>(r),
        orders::<S::F, S>(r, gt),
        d.follows::<S>(r),
        exact::<S::D, S>(q),
        carries::<S>(r, q, to),
        d.at(to(min)) == r.zero,
        d.at(to(max)) == r.zero,
        x.data is F32,
        x.in_graph,
        gy.shape == x.shape,
        clamp_tracked::<S>(before, after, x, min, max, Ok(y)),
        after.len() > 0,
        after.last().vjp(gy, Ok(parts)),
    ensures
        after.len() == before.len() + 1,
        after.last().sources() == seq![x],
        parts.len() == 1,
        parts[0].shape == x.shape,
        y.shape == x.shape,
        forall|i: int|
            0 <= i < volume(x.shape) ==> #[trigger] pulled_back(
                r,
                d,
                x.f32s(),
                y.f32s(),
                gy.f32s(),
                parts[0].f32s(),
                i,
            ),
{
    let res: Outcome<S> = Ok(y);
    let n = volume(x.shape) as int;
    lemma_change(r, d, r.zero, r.zero);
    let v = choose|v: Outcome<S>| #[trigger]
        clamp_out::<S>(x, min, max, v) && v is Ok && clamp_sloped::<S>(
            before,
            after,
            x,
            min,
            max,
            v->Ok_0,
            res,
        );
    let g = choose|g: Outcome<S>| #[trigger]
        clamp_slope_out::<S>(x, min, max, g) && sloped_out::<S>(
            before,
            after,
            "clamp"@,
            x,
            v->Ok_0,
            g,
            res,
        );
    let gx = g->Ok_0;
    assert(alike::<S>(y, v->Ok_0));
    assert(x.detached().f32s() == x.f32s());
    lemma_carries::<S>(r, q, to, min, max);
    let (low, high) = (to(min), to(max));
    lemma_one_f32::<S>(x, clamped_f32::<S>(min, max), clamped_f64::<S>(min, max), v->Ok_0);
    lemma_one_f32::<S>(x, clamp_slope_f32::<S>(min, max), clamp_slope_f64::<S>(min, max), gx);
    lemma_local_f32::<S>(r, gx, gy, parts);
    assert forall|i: int| 0 <= i < n implies #[trigger] pulled_back(
        r,
        d,
        x.f32s(),
        y.f32s(),
        gy.f32s(),
        parts[0].f32s(),
        i,
    ) by {
        let (a, b, s) = (x.f32s()[i], y.f32s()[i], gx.f32s()[i]);
        assert(clamped_f32::<S>(min, max)(a, b));
        assert(clamp_slope_f32::<S>(min, max)(a, s));
        assert(inside_of::<S::F, S>(a, low, high, s));
        assert(call_ensures(<S as Arith<S::F>>::held, (a, low, high), b));
        assert(if gt(low, a) || gt(a, high) {
            s == r.zero && (b == low || b == high)
        } else {
            s == r.one && b == a
        }) by {
            reveal(orders);
        }
        lemma_zero(r, d.at(a));
        lemma_chained(r, d, a, b, gy.f32s()[i], s, parts[0].f32s()[i]);
    }
}

/// The absolute value, off zero: the piece times the change of the argument is the cotangent times
/// the change of the value.
pub proof fn law_abs_gradient_f32<S: Scalars>(
    r: Ring<S::F>,
    gt: spec_fn(S::F, S::F) -> bool,
    d: Change<S::F>,
    before: Seq<Node<S>>,
    after: Seq<Node<S>>,
    x: Model<S>,
    y: Model<S>,
    gy: Model<S>,
    parts: Seq<Model<S>>,
)
    requires
        exact::<S::F, S>(r),
        orders::<S::F, S>(r, gt),
        d.follows::<S>(r),
        forall|s: S::F| #[trigger]
            is_ratio::<S::F, S>(-1i64, 1, s) ==> s == r.minus(r.zero, r.one),
        x.data is F32,
        x.in_graph,
        gy.shape == x.shape,
        abs_tracked::<S>(before, after, x, Ok(y)),
        after.len() > 0,
        after.last().vjp(gy, Ok(parts)),
    ensures
        after.len() == before.len() + 1,
        after.last().sources() == seq![x],
        parts.len() == 1,
        parts[0].shape == x.shape,
        y.shape == x.shape,
        forall|i: int|
            0 <= i < volume(x.shape) && (gt(x.f32s()[i], r.zero) || gt(r.zero, x.f32s()[i]))
                ==> #[trigger] pulled_back(
                r,
                d,
                x.f32s(),
                y.f32s(),
                gy.f32s(),
                parts[0].f32s(),
                i,
            ),
{
    let res: Outcome<S> = Ok(y);
    let n = volume(x.shape) as int;
    lemma_change(r, d, r.zero, r.zero);
    let v = choose|v: Outcome<S>| #[trigger]
        abs_out::<S>(x, v) && v is Ok && abs_sloped::<S>(before, after, x, v->Ok_0, res);
    let g = choose|g: Outcome<S>| #[trigger]
        sign_out::<S>(x.detached(), g) && sloped_out::<S>(
            before,
            after,
            "abs"@,
            x,
            v->Ok_0,
            g,
            res,
        );
    let gx = g->Ok_0;
    assert(alike::<S>(y, v->Ok_0));
    assert(x.detached().f32s() == x.f32s());
    lemma_one_f32::<S>(x, abs_rel::<S::F, S>(), abs_rel::<S::D, S>(), v->Ok_0);
    lemma_one_f32::<S>(x.detached(), sign_rel::<S::F, S>(), sign_rel::<S::D, S>(), gx);
    lemma_local_f32::<S>(r, gx, gy, parts);
    assert forall|i: int|
        0 <= i < n && (gt(x.f32s()[i], r.zero) || gt(r.zero, x.f32s()[i]))
        implies #[trigger] pulled_back(
        r,
        d,
        x.f32s(),
        y.f32s(),
        gy.f32s(),
        parts[0].f32s(),
        i,
    ) by {
        let (a, b, s) = (x.f32s()[i], y.f32s()[i], gx.f32s()[i]);
        assert(abs_rel::<S::F, S>()(a, b));
        assert(sign_rel::<S::F, S>()(a, s));
        assert(sign_of::<S::F, S>(a, s));
        assert(if gt(a, r.zero) {
            s == r.one && b == a
        } else {
            s == r.minus(r.zero, r.one) && b == r.minus(r.zero, a)
        }) by {
            reveal(orders);
        }
        lemma_zero(r, d.at(a));
        lemma_change(r, d, r.zero, a);
        lemma_spread(r, d.at(a), r.zero, r.one);
        lemma_chained(r, d, a, b, gy.f32s()[i], s, parts[0].f32s()[i]);
    }
}

/// The rectifier: the piece times the change of the argument is the cotangent times the change of
/// the value.
pub proof fn law_relu_gradient_f64<S: Scalars>(
    r: Ring<S::D>,
    gt: spec_fn(S::D, S::D) -> bool,
    d: Change<S::D>,
    before: Seq<Node<S>>,
    after: Seq<Node<S>>,
    x: Model<S>,
    y: Model<S>,
    gy: Model<S>,
    parts: Seq<Model<S>>,
)
    requires
        exact::<S::D, S>(r),
        orders::<S::D, S>(r, gt),
        d.follows::<S>(r),
        x.data is F64,
        x.in_graph,
        gy.shape == x.shape,
        relu_tracked::<S>(before, after, x, Ok(y)),
        after.len() > 0,
        after.last().vjp(gy, Ok(parts)),
    ensures
        after.len() == before.len() + 1,
        after.last().sources() == seq![x],
        parts.len() == 1,
        parts[0].shape == x.shape,
        y.shape == x.shape,
        forall|i: int|
            0 <= i < volume(x.shape) ==> #[trigger] pulled_back(
                r,
                d,
                x.f64s(),
                y.f64s(),
                gy.f64s(),
                parts[0].f64s(),
                i,
            ),
{
    let res: Outcome<S> = Ok(y);
    let n = volume(x.shape) as int;
    lemma_change(r, d, r.zero, r.zero);
    let v = choose|v: Outcome<S>| #[trigger]
        relu_out::<S>(x, v) && tracked_out::<S>(
            before,
            after,
            x.in_graph,
            v,
            seq![x],
            RuleModel::Relu { x: x.detached() },
            res,
        );
    assert(alike::<S>(y, v->Ok_0));
    lemma_one_f64::<S>(x, relu_rel::<S::F, S>(), relu_rel::<S::D, S>(), v->Ok_0);
    reveal(relu_parts);
    let rp: Result<Seq<Model<S>>, Error> = Ok(parts);
    let o = choose|o: Outcome<S>| #[trigger]
        relu_back_out::<S>(x.detached(), gy, o) && passes(o, rp, gives(rp, seq![o->Ok_0]));
    assert(parts == seq![o->Ok_0]);
    let xs = x.detached().f64s();
    assert(xs == x.f64s());
    let ps = choose|ps: Seq<S::D>| #[trigger]
        gates_all::<S::D, S>(xs, gy.f64s(), ps) && from_f64s_out::<S>(ps, x.shape, o);
    assert(o->Ok_0.elems() == o->Ok_0.data);
    assert(parts[0].f64s() == ps);
    assert forall|i: int| 0 <= i < n implies #[trigger] pulled_back(
        r,
        d,
        x.f64s(),
        y.f64s(),
        gy.f64s(),
        parts[0].f64s(),
        i,
    ) by {
        let (a, b, g) = (x.f64s()[i], y.f64s()[i], gy.f64s()[i]);
        assert(relu_rel::<S::D, S>()(a, b));
        assert(gated_of::<S::D, S>(a, g, ps[i]));
        lemma_zero(r, g);
        lemma_zero(r, d.at(a));
        reveal(orders);
    }
}

/// The leaky rectifier, whose slope does not change: the piece times the change of the argument is
/// the cotangent times the change of the value.
pub proof fn law_leaky_relu_gradient_f64<S: Scalars>(
    r: Ring<S::D>,
    gt: spec_fn(S::D, S::D) -> bool,
    d: Change<S::D>,
    slope: S::D,
    before: Seq<Node<S>>,
    after: Seq<Node<S>>,
    x: Model<S>,
    y: Model<S>,
    gy: Model<S>,
    parts: Seq<Model<S>>,
)
    requires
        exact::<S::D, S>(r),
        orders::<S::D, S>(r, gt),
        d.follows::<S>(r),
        d.at(slope) == r.zero,
        x.data is F64,
        x.in_graph,
        gy.shape == x.shape,
        leaky_relu_tracked::<S>(before, after, x, slope, Ok(y)),
        after.len() > 0,
        after.last().vjp(gy, Ok(parts)),
    ensures
        after.len() == before.len() + 1,
        after.last().sources() == seq![x],
        parts.len() == 1,
        parts[0].shape == x.shape,
        y.shape == x.shape,
        forall|i: int|
            0 <= i < volume(x.shape) ==> #[trigger] pulled_back(
                r,
                d,
                x.f64s(),
                y.f64s(),
                gy.f64s(),
                parts[0].f64s(),
                i,
            ),
{
    let res: Outcome<S> = Ok(y);
    let n = volume(x.shape) as int;
    lemma_change(r, d, r.zero, r.zero);
    let v = choose|v: Outcome<S>| #[trigger]
        leaky_relu_out::<S>(x, slope, v) && v is Ok && leaky_relu_sloped::<S>(
            before,
            after,
            x,
            slope,
            v->Ok_0,
            res,
        );
    let g = choose|g: Outcome<S>| #[trigger]
        leaky_slope_out::<S>(x, slope, g) && sloped_out::<S>(
            before,
            after,
            "leaky_relu"@,
            x,
            v->Ok_0,
            g,
            res,
        );
    let gx = g->Ok_0;
    assert(alike::<S>(y, v->Ok_0));
    assert(x.detached().f64s() == x.f64s());
    let k = slope;
    lemma_one_f64::<S>(x, leaky_f32::<S>(slope), leaky_f64::<S>(slope), v->Ok_0);
    lemma_one_f64::<S>(x, leaky_slope_f32::<S>(slope), leaky_slope_f64::<S>(slope), gx);
    lemma_local_f64::<S>(r, gx, gy, parts);
    assert forall|i: int| 0 <= i < n implies #[trigger] pulled_back(
        r,
        d,
        x.f64s(),
        y.f64s(),
        gy.f64s(),
        parts[0].f64s(),
        i,
    ) by {
        let (a, b, s) = (x.f64s()[i], y.f64s()[i], gx.f64s()[i]);
        assert(leaky_f64::<S>(slope)(a, b));
        assert(leaky_slope_f64::<S>(slope)(a, s));
        assert(if gt(r.zero, a) {
            s == k && b == r.times(a, k)
        } else {
            s == r.one && b == a
        }) by {
            reveal(orders);
        }
        lemma_zero(r, d.at(a));
        lemma_change(r, d, a, k);
        lemma_zero(r, a);
        lemma_laws(r, d.at(a), k, k);
        lemma_zero(r, r.times(d.at(a), k));
        lemma_chained(r, d, a, b, gy.f64s()[i], s, parts[0].f64s()[i]);
    }
}

/// Clamping to bounds that do not change: the piece times the change of the argument is the
/// cotangent times the change of the value.
pub proof fn law_clamp_gradient_f64<S: Scalars>(
    r: Ring<S::D>,
    gt: spec_fn(S::D, S::D) -> bool,
    d: Change<S::D>,
    min: S::D,
    max: S::D,
    before: Seq<Node<S>>,
    after: Seq<Node<S>>,
    x: Model<S>,
    y: Model<S>,
    gy: Model<S>,
    parts: Seq<Model<S>>,
)
    requires
        exact::<S::D, S>(r),
        orders::<S::D, S>(r, gt),
        d.follows::<S>(r),
        d.at(min) == r.zero,
        d.at(max) == r.zero,
        x.data is F64,
        x.in_graph,
        gy.shape == x.shape,
        clamp_tracked::<S>(before, after, x, min, max, Ok(y)),
        after.len() > 0,
        after.last().vjp(gy, Ok(parts)),
    ensures
        after.len() == before.len() + 1,
        after.last().sources() == seq![x],
        parts.len() == 1,
        parts[0].shape == x.shape,
        y.shape == x.shape,
        forall|i: int|
            0 <= i < volume(x.shape) ==> #[trigger] pulled_back(
                r,
                d,
                x.f64s(),
                y.f64s(),
                gy.f64s(),
                parts[0].f64s(),
                i,
            ),
{
    let res: Outcome<S> = Ok(y);
    let n = volume(x.shape) as int;
    lemma_change(r, d, r.zero, r.zero);
    let v = choose|v: Outcome<S>| #[trigger]
        clamp_out::<S>(x, min, max, v) && v is Ok && clamp_sloped::<S>(
            before,
            after,
            x,
            min,
            max,
            v->Ok_0,
            res,
        );
    let g = choose|g: Outcome<S>| #[trigger]
        clamp_slope_out::<S>(x, min, max, g) && sloped_out::<S>(
            before,
            after,
            "clamp"@,
            x,
            v->Ok_0,
            g,
            res,
        );
    let gx = g->Ok_0;
    assert(alike::<S>(y, v->Ok_0));
    assert(x.detached().f64s() == x.f64s());
    let (low, high) = (min, max);
    lemma_one_f64::<S>(x, clamped_f32::<S>(min, max), clamped_f64::<S>(min, max), v->Ok_0);
    lemma_one_f64::<S>(x, clamp_slope_f32::<S>(min, max), clamp_slope_f64::<S>(min, max), gx);
    lemma_local_f64::<S>(r, gx, gy, parts);
    assert forall|i: int| 0 <= i < n implies #[trigger] pulled_back(
        r,
        d,
        x.f64s(),
        y.f64s(),
        gy.f64s(),
        parts[0].f64s(),
        i,
    ) by {
        let (a, b, s) = (x.f64s()[i], y.f64s()[i], gx.f64s()[i]);
        assert(clamped_f64::<S>(min, max)(a, b));
        assert(clamp_slope_f64::<S>(min, max)(a, s));
        assert(inside_of::<S::D, S>(a, low, high, s));
        assert(call_ensures(<S as Arith<S::D>>::held, (a, low, high), b));
        assert(if gt(low, a) || gt(a, high) {
            s == r.zero && (b == low || b == high)
        } else {
            s == r.one && b == a
        }) by {
            reveal(orders);
        }
        lemma_zero(r, d.at(a));
        lemma_chained(r, d, a, b, gy.f64s()[i], s, parts[0].f64s()[i]);
    }
}

/// The absolute value, off zero: the piece times the change of the argument is the cotangent times
/// the change of the value.
pub proof fn law_abs_gradient_f64<S: Scalars>(
    r: Ring<S::D>,
    gt: spec_fn(S::D, S::D) -> bool,
    d: Change<S::D>,
    before: Seq<Node<S>>,
    after: Seq<Node<S>>,
    x: Model<S>,
    y: Model<S>,
    gy: Model<S>,
    parts: Seq<Model<S>>,
)
    requires
        exact::<S::D, S>(r),
        orders::<S::D, S>(r, gt),
        d.follows::<S>(r),
        forall|s: S::D| #[trigger]
            is_ratio::<S::D, S>(-1i64, 1, s) ==> s == r.minus(r.zero, r.one),
        x.data is F64,
        x.in_graph,
        gy.shape == x.shape,
        abs_tracked::<S>(before, after, x, Ok(y)),
        after.len() > 0,
        after.last().vjp(gy, Ok(parts)),
    ensures
        after.len() == before.len() + 1,
        after.last().sources() == seq![x],
        parts.len() == 1,
        parts[0].shape == x.shape,
        y.shape == x.shape,
        forall|i: int|
            0 <= i < volume(x.shape) && (gt(x.f64s()[i], r.zero) || gt(r.zero, x.f64s()[i]))
                ==> #[trigger] pulled_back(
                r,
                d,
                x.f64s(),
                y.f64s(),
                gy.f64s(),
                parts[0].f64s(),
                i,
            ),
{
    let res: Outcome<S> = Ok(y);
    let n = volume(x.shape) as int;
    lemma_change(r, d, r.zero, r.zero);
    let v = choose|v: Outcome<S>| #[trigger]
        abs_out::<S>(x, v) && v is Ok && abs_sloped::<S>(before, after, x, v->Ok_0, res);
    let g = choose|g: Outcome<S>| #[trigger]
        sign_out::<S>(x.detached(), g) && sloped_out::<S>(
            before,
            after,
            "abs"@,
            x,
            v->Ok_0,
            g,
            res,
        );
    let gx = g->Ok_0;
    assert(alike::<S>(y, v->Ok_0));
    assert(x.detached().f64s() == x.f64s());
    lemma_one_f64::<S>(x, abs_rel::<S::F, S>(), abs_rel::<S::D, S>(), v->Ok_0);
    lemma_one_f64::<S>(x.detached(), sign_rel::<S::F, S>(), sign_rel::<S::D, S>(), gx);
    lemma_local_f64::<S>(r, gx, gy, parts);
    assert forall|i: int|
        0 <= i < n && (gt(x.f64s()[i], r.zero) || gt(r.zero, x.f64s()[i]))
        implies #[trigger] pulled_back(
        r,
        d,
        x.f64s(),
        y.f64s(),
        gy.f64s(),
        parts[0].f64s(),
        i,
    ) by {
        let (a, b, s) = (x.f64s()[i], y.f64s()[i], gx.f64s()[i]);
        assert(abs_rel::<S::D, S>()(a, b));
        assert(sign_rel::<S::D, S>()(a, s));
        assert(sign_of::<S::D, S>(a, s));
        assert(if gt(a, r.zero) {
            s == r.one && b == a
        } else {
            s == r.minus(r.zero, r.one) && b == r.minus(r.zero, a)
        }) by {
            reveal(orders);
        }
        lemma_zero(r, d.at(a));
        lemma_change(r, d, r.zero, a);
        lemma_spread(r, d.at(a), r.zero, r.one);
        lemma_chained(r, d, a, b, gy.f64s()[i], s, parts[0].f64s()[i]);
    }
}

} // verus!
