//! Scaling, negation and the squared error, in terms of what goes in and what comes out.
use vstd::prelude::*;
use crate::ad::{mean_tracked, mul_tracked, sub_tracked, sum_tracked};
use crate::ad_composed::{constant_out, is_minus_one, mul_scalar_tracked, neg_tracked};
use crate::algebra::{lemma_is_minus, lemma_spread, lemma_undo, lemma_zero};
use crate::classes::{reduced_tracked, Reduce};
use crate::cpu::{mul_out, sub_out};
use crate::error::Error;
use crate::index::volume;
use crate::nn::{mse_loss_square, mse_loss_tracked};
use crate::nodes::{tracked_out, Node, RuleModel};
use crate::norm_law::alike;
use crate::pointwise_law::{lemma_two_f32, lemma_two_f64};
use crate::ring::{lemma_laws, Ring};
use crate::rules::{mul_first, mul_other, mul_parts, mul_second, unbroadcast_out};
use crate::scalar::{is_difference, is_product, multiplying, subtracting, Scalars};
use crate::score_law::lemma_zips_number;
use crate::tape::Backward;
use crate::tensor::{gives, passes, Model, Outcome};

verus! {

/// Minus one times a number is what it takes to bring the number to zero.
proof fn lemma_opposite<T>(r: Ring<T>, x: T)
    requires
        r.lawful(),
    ensures
        r.plus(r.times(r.minus(r.zero, r.one), x), x) == r.zero,
{
    lemma_spread(r, x, r.zero, r.one);
    lemma_zero(r, x);
    lemma_undo(r, r.zero, x);
}

/// The squared error with a reduction is the sum, or the mean, of the unreduced squared error.
pub proof fn law_mse_loss_reduces<S: Scalars>(
    before: Seq<Node<S>>,
    after: Seq<Node<S>>,
    pred: Model<S>,
    target: Model<S>,
    reduction: Reduce,
    y: Model<S>,
) -> (w: (Seq<Node<S>>, Model<S>))
    requires
        mse_loss_tracked::<S>(before, after, pred, target, reduction, Ok(y)),
    ensures
        mse_loss_tracked::<S>(before, w.0, pred, target, Reduce::Each, Ok(w.1)),
        reduction is Each ==> after == w.0 && y == w.1,
        reduction is Sum ==> sum_tracked::<S>(w.0, after, w.1, None, false, Ok(y)),
        reduction is Mean ==> mean_tracked::<S>(w.0, after, w.1, None, false, Ok(y)),
{
    let res: Outcome<S> = Ok(y);
    let td = target.detached();
    let (mid, o) = choose|mid: Seq<Node<S>>, o: Outcome<S>| #[trigger]
        sub_tracked::<S>(before, mid, pred, td, o) && o is Ok && mse_loss_square::<S>(
            mid,
            after,
            reduction,
            o->Ok_0,
            res,
        );
    let d = o->Ok_0;
    let (last, q) = choose|last: Seq<Node<S>>, q: Outcome<S>| #[trigger]
        mul_tracked::<S>(mid, last, d, d, q) && q is Ok && reduced_tracked::<S>(
            last,
            after,
            q->Ok_0,
            reduction,
            res,
        );
    let each: Outcome<S> = Ok(q->Ok_0);
    assert(mul_tracked::<S>(mid, last, d, d, q) && reduced_tracked::<S>(
        last,
        last,
        q->Ok_0,
        Reduce::Each,
        each,
    ));
    assert(mse_loss_square::<S>(mid, last, Reduce::Each, d, each));
    (last, q->Ok_0)
}

/// A tensor times a tensor of one number.
proof fn lemma_scaled_f32<S: Scalars>(r: Ring<S::F>, a: Model<S>, b: Model<S>, t: Model<S>)
    requires
        r.computes::<S>(),
        a.data is F32,
        b.data is F32,
        b.shape.len() == 0,
        mul_out::<S>(a, b, Ok(t)),
    ensures
        t.shape == a.shape,
        t.data is F32,
        forall|i: int|
            0 <= i < volume(a.shape) ==> #[trigger] t.f32s()[i] == r.times(
                a.f32s()[i],
                b.f32s()[0],
            ),
{
    let rel = multiplying::<S::F, S>();
    lemma_zips_number(rel, a.shape, b.shape, a.f32s(), b.f32s(), t.data->F32_0);
    assert(t.elems() == t.data);
    assert(t.f32s() == t.data->F32_0);
    assert forall|i: int| 0 <= i < volume(a.shape) implies #[trigger] t.f32s()[i] == r.times(
        a.f32s()[i],
        b.f32s()[0],
    ) by {
        assert(rel(a.f32s()[i], b.f32s()[0], t.data->F32_0[i]));
        assert(is_product::<S::F, S>(a.f32s()[i], b.f32s()[0], t.f32s()[i]));
    }
}

/// A recorded product with a tensor of one number, which is not in the graph.
proof fn lemma_factor_f32<S: Scalars>(
    r: Ring<S::F>,
    before: Seq<Node<S>>,
    after: Seq<Node<S>>,
    a: Model<S>,
    b: Model<S>,
    y: Model<S>,
    gy: Model<S>,
    parts: Seq<Model<S>>,
)
    requires
        r.computes::<S>(),
        a.data is F32,
        a.in_graph,
        b.data is F32,
        b.shape.len() == 0,
        gy.shape == a.shape,
        gy.data is F32,
        mul_tracked::<S>(before, after, a, b, Ok(y)),
        after.len() > 0,
        after.last().vjp(gy, Ok(parts)),
    ensures
        after.len() == before.len() + 1,
        after.last().sources() == seq![a, b],
        y.shape == a.shape,
        parts.len() == 2,
        parts[0].shape == a.shape,
        forall|i: int|
            0 <= i < volume(a.shape) ==> #[trigger] y.f32s()[i] == r.times(
                a.f32s()[i],
                b.f32s()[0],
            ),
        forall|i: int|
            0 <= i < volume(a.shape) ==> #[trigger] parts[0].f32s()[i] == r.times(
                gy.f32s()[i],
                b.f32s()[0],
            ),
{
    let res: Outcome<S> = Ok(y);
    let rp: Result<Seq<Model<S>>, Error> = Ok(parts);
    let v = choose|v: Outcome<S>| #[trigger]
        mul_out::<S>(a, b, v) && tracked_out::<S>(
            before,
            after,
            a.in_graph || b.in_graph,
            v,
            seq![a, b],
            RuleModel::Mul { a: a.detached(), b: b.detached() },
            res,
        );
    assert(alike::<S>(y, v->Ok_0));
    lemma_scaled_f32::<S>(r, a, b, v->Ok_0);
    assert(y.f32s() == v->Ok_0.f32s());
    reveal(mul_parts);
    let (da, db) = (a.detached(), b.detached());
    assert(db.f32s() == b.f32s());
    let pa = choose|o: Outcome<S>| #[trigger]
        mul_out::<S>(gy, db, o) && passes(o, rp, mul_first::<S>(da, db, gy, o->Ok_0, rp));
    lemma_scaled_f32::<S>(r, gy, db, pa->Ok_0);
    let ga = choose|o: Outcome<S>| #[trigger]
        unbroadcast_out::<S>(pa->Ok_0, da.shape, o) && passes(
            o,
            rp,
            mul_other::<S>(da, db, gy, o->Ok_0, rp),
        );
    let pb = choose|o: Outcome<S>| #[trigger]
        mul_out::<S>(gy, da, o) && passes(o, rp, mul_second::<S>(db, ga->Ok_0, o->Ok_0, rp));
    let gb = choose|o: Outcome<S>| #[trigger]
        unbroadcast_out::<S>(pb->Ok_0, db.shape, o) && passes(
            o,
            rp,
            gives(rp, seq![ga->Ok_0, o->Ok_0]),
        );
    assert(parts == seq![pa->Ok_0, gb->Ok_0]);
}

/// A tensor times a number: each value is the element times the number, and its piece is the
/// cotangent times the number. The number is `c` in 32 bits.
pub proof fn law_mul_scalar_gradient_f32<S: Scalars>(
    r: Ring<S::F>,
    before: Seq<Node<S>>,
    after: Seq<Node<S>>,
    a: Model<S>,
    s: S::D,
    c: S::F,
    y: Model<S>,
    gy: Model<S>,
    parts: Seq<Model<S>>,
)
    requires
        r.computes::<S>(),
        forall|k: S::F| #[trigger] call_ensures(S::narrow, (s,), k) ==> k == c,
        a.data is F32,
        a.in_graph,
        gy.shape == a.shape,
        gy.data is F32,
        mul_scalar_tracked::<S>(before, after, a, s, Ok(y)),
        after.len() > 0,
        after.last().vjp(gy, Ok(parts)),
    ensures
        after.len() == before.len() + 1,
        y.shape == a.shape,
        after.last().sources().len() == 2,
        after.last().sources()[0] == a,
        parts.len() == 2,
        parts[0].shape == a.shape,
        forall|i: int|
            0 <= i < volume(a.shape) ==> #[trigger] y.f32s()[i] == r.times(c, a.f32s()[i]),
        forall|i: int|
            0 <= i < volume(a.shape) ==> #[trigger] parts[0].f32s()[i] == r.times(c, gy.f32s()[i]),
{
    let k = choose|o: Outcome<S>| #[trigger]
        constant_out::<S>("mul_scalar"@, a.dtype(), s, o) && o is Ok && mul_tracked::<S>(
            before,
            after,
            a,
            o->Ok_0,
            Ok(y),
        );
    let b = k->Ok_0;
    assert(b.elems() == b.data);
    assert(b.f32s() == b.data->F32_0);
    assert(b.f32s()[0] == c);
    lemma_factor_f32::<S>(r, before, after, a, b, y, gy, parts);
    assert forall|i: int| 0 <= i < volume(a.shape) implies #[trigger] y.f32s()[i] == r.times(
        c,
        a.f32s()[i],
    ) by {
        lemma_laws(r, a.f32s()[i], c, c);
    }
    assert forall|i: int| 0 <= i < volume(a.shape) implies #[trigger] parts[0].f32s()[i] == r.times(
        c,
        gy.f32s()[i],
    ) by {
        lemma_laws(r, gy.f32s()[i], c, c);
    }
}

/// Negation: a value and its element add up to zero, and so do the piece and the cotangent.
pub proof fn law_neg_gradient_f32<S: Scalars>(
    r: Ring<S::F>,
    before: Seq<Node<S>>,
    after: Seq<Node<S>>,
    a: Model<S>,
    y: Model<S>,
    gy: Model<S>,
    parts: Seq<Model<S>>,
)
    requires
        r.computes::<S>(),
        forall|s: S::D, k: S::F|
            #![trigger is_minus_one::<S::D, S>(s), call_ensures(S::narrow, (s,), k)]
            is_minus_one::<S::D, S>(s) && call_ensures(S::narrow, (s,), k) ==> k == r.minus(
                r.zero,
                r.one,
            ),
        a.data is F32,
        a.in_graph,
        gy.shape == a.shape,
        gy.data is F32,
        neg_tracked::<S>(before, after, a, Ok(y)),
        after.len() > 0,
        after.last().vjp(gy, Ok(parts)),
    ensures
        after.len() == before.len() + 1,
        y.shape == a.shape,
        after.last().sources().len() == 2,
        after.last().sources()[0] == a,
        parts.len() == 2,
        parts[0].shape == a.shape,
        forall|i: int|
            0 <= i < volume(a.shape) ==> r.plus(#[trigger] y.f32s()[i], a.f32s()[i]) == r.zero,
        forall|i: int|
            0 <= i < volume(a.shape) ==> r.plus(#[trigger] parts[0].f32s()[i], gy.f32s()[i])
                == r.zero,
{
    let s = choose|s: S::D| #[trigger]
        is_minus_one::<S::D, S>(s) && mul_scalar_tracked::<S>(before, after, a, s, Ok(y));
    let c = r.minus(r.zero, r.one);
    law_mul_scalar_gradient_f32::<S>(r, before, after, a, s, c, y, gy, parts);
    assert forall|i: int| 0 <= i < volume(a.shape) implies r.plus(
        #[trigger] y.f32s()[i],
        a.f32s()[i],
    ) == r.zero by {
        lemma_opposite(r, a.f32s()[i]);
    }
    assert forall|i: int| 0 <= i < volume(a.shape) implies r.plus(
        #[trigger] parts[0].f32s()[i],
        gy.f32s()[i],
    ) == r.zero by {
        lemma_opposite(r, gy.f32s()[i]);
    }
}

/// The squared error, unreduced: each value is the square of what the prediction has beyond the
/// target. Prediction and target have one shape.
pub proof fn law_mse_loss_f32<S: Scalars>(
    r: Ring<S::F>,
    before: Seq<Node<S>>,
    after: Seq<Node<S>>,
    pred: Model<S>,
    target: Model<S>,
    y: Model<S>,
)
    requires
        r.computes::<S>(),
        pred.data is F32,
        target.shape == pred.shape,
        mse_loss_tracked::<S>(before, after, pred, target, Reduce::Each, Ok(y)),
    ensures
        target.data is F32,
        y.shape == pred.shape,
        forall|i: int, e: S::F|
            #![trigger y.f32s()[i], r.plus(target.f32s()[i], e)]
            0 <= i < volume(pred.shape) && r.plus(target.f32s()[i], e) == pred.f32s()[i]
                ==> y.f32s()[i] == r.times(e, e),
{
    let res: Outcome<S> = Ok(y);
    let td = target.detached();
    assert(td.f32s() == target.f32s());
    let (mid, o) = choose|mid: Seq<Node<S>>, o: Outcome<S>| #[trigger]
        sub_tracked::<S>(before, mid, pred, td, o) && o is Ok && mse_loss_square::<S>(
            mid,
            after,
            Reduce::Each,
            o->Ok_0,
            res,
        );
    let d = o->Ok_0;
    let v = choose|v: Outcome<S>| #[trigger]
        sub_out::<S>(pred, td, v) && tracked_out::<S>(
            before,
            mid,
            pred.in_graph || td.in_graph,
            v,
            seq![pred, td],
            RuleModel::Sub { a_shape: pred.shape, b_shape: td.shape },
            o,
        );
    assert(alike::<S>(d, v->Ok_0));
    lemma_two_f32::<S>(pred, td, subtracting::<S::F, S>(), subtracting::<S::D, S>(), v->Ok_0);
    assert(d.f32s() == v->Ok_0.f32s());
    let (last, q) = choose|last: Seq<Node<S>>, q: Outcome<S>| #[trigger]
        mul_tracked::<S>(mid, last, d, d, q) && q is Ok && after == last && gives(res, q->Ok_0);
    let u = choose|u: Outcome<S>| #[trigger]
        mul_out::<S>(d, d, u) && tracked_out::<S>(
            mid,
            last,
            d.in_graph || d.in_graph,
            u,
            seq![d, d],
            RuleModel::Mul { a: d.detached(), b: d.detached() },
            q,
        );
    assert(alike::<S>(y, u->Ok_0));
    lemma_two_f32::<S>(d, d, multiplying::<S::F, S>(), multiplying::<S::D, S>(), u->Ok_0);
    assert(y.f32s() == u->Ok_0.f32s());
    assert forall|i: int, e: S::F|
        #![trigger y.f32s()[i], r.plus(target.f32s()[i], e)]
        0 <= i < volume(pred.shape) && r.plus(target.f32s()[i], e) == pred.f32s()[i]
        implies y.f32s()[i] == r.times(e, e) by {
        let (p, t, f) = (pred.f32s()[i], target.f32s()[i], d.f32s()[i]);
        assert(subtracting::<S::F, S>()(p, t, f));
        assert(is_difference::<S::F, S>(p, t, f));
        assert(multiplying::<S::F, S>()(f, f, y.f32s()[i]));
        assert(is_product::<S::F, S>(f, f, y.f32s()[i]));
        lemma_laws(r, t, e, e);
        lemma_is_minus(r, p, t, e);
    }
}

/// A tensor times a tensor of one number.
proof fn lemma_scaled_f64<S: Scalars>(r: Ring<S::D>, a: Model<S>, b: Model<S>, t: Model<S>)
    requires
        r.computes::<S>(),
        a.data is F64,
        b.data is F64,
        b.shape.len() == 0,
        mul_out::<S>(a, b, Ok(t)),
    ensures
        t.shape == a.shape,
        t.data is F64,
        forall|i: int|
            0 <= i < volume(a.shape) ==> #[trigger] t.f64s()[i] == r.times(
                a.f64s()[i],
                b.f64s()[0],
            ),
{
    let rel = multiplying::<S::D, S>();
    lemma_zips_number(rel, a.shape, b.shape, a.f64s(), b.f64s(), t.data->F64_0);
    assert(t.elems() == t.data);
    assert(t.f64s() == t.data->F64_0);
    assert forall|i: int| 0 <= i < volume(a.shape) implies #[trigger] t.f64s()[i] == r.times(
        a.f64s()[i],
        b.f64s()[0],
    ) by {
        assert(rel(a.f64s()[i], b.f64s()[0], t.data->F64_0[i]));
        assert(is_product::<S::D, S>(a.f64s()[i], b.f64s()[0], t.f64s()[i]));
    }
}

/// A recorded product with a tensor of one number, which is not in the graph.
proof fn lemma_factor_f64<S: Scalars>(
    r: Ring<S::D>,
    before: Seq<Node<S>>,
    after: Seq<Node<S>>,
    a: Model<S>,
    b: Model<S>,
    y: Model<S>,
    gy: Model<S>,
    parts: Seq<Model<S>>,
)
    requires
        r.computes::<S>(),
        a.data is F64,
        a.in_graph,
        b.data is F64,
        b.shape.len() == 0,
        gy.shape == a.shape,
        gy.data is F64,
        mul_tracked::<S>(before, after, a, b, Ok(y)),
        after.len() > 0,
        after.last().vjp(gy, Ok(parts)),
    ensures
        after.len() == before.len() + 1,
        after.last().sources() == seq![a, b],
        y.shape == a.shape,
        parts.len() == 2,
        parts[0].shape == a.shape,
        forall|i: int|
            0 <= i < volume(a.shape) ==> #[trigger] y.f64s()[i] == r.times(
                a.f64s()[i],
                b.f64s()[0],
            ),
        forall|i: int|
            0 <= i < volume(a.shape) ==> #[trigger] parts[0].f64s()[i] == r.times(
                gy.f64s()[i],
                b.f64s()[0],
            ),
{
    let res: Outcome<S> = Ok(y);
    let rp: Result<Seq<Model<S>>, Error> = Ok(parts);
    let v = choose|v: Outcome<S>| #[trigger]
        mul_out::<S>(a, b, v) && tracked_out::<S>(
            before,
            after,
            a.in_graph || b.in_graph,
            v,
            seq![a, b],
            RuleModel::Mul { a: a.detached(), b: b.detached() },
            res,
        );
    assert(alike::<S>(y, v->Ok_0));
    lemma_scaled_f64::<S>(r, a, b, v->Ok_0);
    assert(y.f64s() == v->Ok_0.f64s());
    reveal(mul_parts);
    let (da, db) = (a.detached(), b.detached());
    assert(db.f64s() == b.f64s());
    let pa = choose|o: Outcome<S>| #[trigger]
        mul_out::<S>(gy, db, o) && passes(o, rp, mul_first::<S>(da, db, gy, o->Ok_0, rp));
    lemma_scaled_f64::<S>(r, gy, db, pa->Ok_0);
    let ga = choose|o: Outcome<S>| #[trigger]
        unbroadcast_out::<S>(pa->Ok_0, da.shape, o) && passes(
            o,
            rp,
            mul_other::<S>(da, db, gy, o->Ok_0, rp),
        );
    let pb = choose|o: Outcome<S>| #[trigger]
        mul_out::<S>(gy, da, o) && passes(o, rp, mul_second::<S>(db, ga->Ok_0, o->Ok_0, rp));
    let gb = choose|o: Outcome<S>| #[trigger]
        unbroadcast_out::<S>(pb->Ok_0, db.shape, o) && passes(
            o,
            rp,
            gives(rp, seq![ga->Ok_0, o->Ok_0]),
        );
    assert(parts == seq![pa->Ok_0, gb->Ok_0]);
}

/// A tensor times a number: each value is the element times the number, and its piece is the
/// cotangent times the number.
pub proof fn law_mul_scalar_gradient_f64<S: Scalars>(
    r: Ring<S::D>,
    before: Seq<Node<S>>,
    after: Seq<Node<S>>,
    a: Model<S>,
    s: S::D,
    y: Model<S>,
    gy: Model<S>,
    parts: Seq<Model<S>>,
)
    requires
        r.computes::<S>(),
        a.data is F64,
        a.in_graph,
        gy.shape == a.shape,
        gy.data is F64,
        mul_scalar_tracked::<S>(before, after, a, s, Ok(y)),
        after.len() > 0,
        after.last().vjp(gy, Ok(parts)),
    ensures
        after.len() == before.len() + 1,
        y.shape == a.shape,
        after.last().sources().len() == 2,
        after.last().sources()[0] == a,
        parts.len() == 2,
        parts[0].shape == a.shape,
        forall|i: int|
            0 <= i < volume(a.shape) ==> #[trigger] y.f64s()[i] == r.times(s, a.f64s()[i]),
        forall|i: int|
            0 <= i < volume(a.shape) ==> #[trigger] parts[0].f64s()[i] == r.times(s, gy.f64s()[i]),
{
    let k = choose|o: Outcome<S>| #[trigger]
        constant_out::<S>("mul_scalar"@, a.dtype(), s, o) && o is Ok && mul_tracked::<S>(
            before,
            after,
            a,
            o->Ok_0,
            Ok(y),
        );
    let b = k->Ok_0;
    assert(b.elems() == b.data);
    assert(b.f64s() == b.data->F64_0);
    assert(b.f64s()[0] == s);
    lemma_factor_f64::<S>(r, before, after, a, b, y, gy, parts);
    assert forall|i: int| 0 <= i < volume(a.shape) implies #[trigger] y.f64s()[i] == r.times(
        s,
        a.f64s()[i],
    ) by {
        lemma_laws(r, a.f64s()[i], s, s);
    }
    assert forall|i: int| 0 <= i < volume(a.shape) implies #[trigger] parts[0].f64s()[i] == r.times(
        s,
        gy.f64s()[i],
    ) by {
        lemma_laws(r, gy.f64s()[i], s, s);
    }
}

/// Negation: a value and its element add up to zero, and so do the piece and the cotangent.
pub proof fn law_neg_gradient_f64<S: Scalars>(
    r: Ring<S::D>,
    before: Seq<Node<S>>,
    after: Seq<Node<S>>,
    a: Model<S>,
    y: Model<S>,
    gy: Model<S>,
    parts: Seq<Model<S>>,
)
    requires
        r.computes::<S>(),
        forall|s: S::D| #[trigger] is_minus_one::<S::D, S>(s) ==> s == r.minus(r.zero, r.one),
        a.data is F64,
        a.in_graph,
        gy.shape == a.shape,
        gy.data is F64,
        neg_tracked::<S>(before, after, a, Ok(y)),
        after.len() > 0,
        after.last().vjp(gy, Ok(parts)),
    ensures
        after.len() == before.len() + 1,
        y.shape == a.shape,
        after.last().sources().len() == 2,
        after.last().sources()[0] == a,
        parts.len() == 2,
        parts[0].shape == a.shape,
        forall|i: int|
            0 <= i < volume(a.shape) ==> r.plus(#[trigger] y.f64s()[i], a.f64s()[i]) == r.zero,
        forall|i: int|
            0 <= i < volume(a.shape) ==> r.plus(#[trigger] parts[0].f64s()[i], gy.f64s()[i])
                == r.zero,
{
    let s = choose|s: S::D| #[trigger]
        is_minus_one::<S::D, S>(s) && mul_scalar_tracked::<S>(before, after, a, s, Ok(y));
    let c = s;
    law_mul_scalar_gradient_f64::<S>(r, before, after, a, s, y, gy, parts);
    assert forall|i: int| 0 <= i < volume(a.shape) implies r.plus(
        #[trigger] y.f64s()[i],
        a.f64s()[i],
    ) == r.zero by {
        lemma_opposite(r, a.f64s()[i]);
    }
    assert forall|i: int| 0 <= i < volume(a.shape) implies r.plus(
        #[trigger] parts[0].f64s()[i],
        gy.f64s()[i],
    ) == r.zero by {
        lemma_opposite(r, gy.f64s()[i]);
    }
}

/// The squared error, unreduced: each value is the square of what the prediction has beyond the
/// target. Prediction and target have one shape.
pub proof fn law_mse_loss_f64<S: Scalars>(
    r: Ring<S::D>,
    before: Seq<Node<S>>,
    after: Seq<Node<S>>,
    pred: Model<S>,
    target: Model<S>,
    y: Model<S>,
)
    requires
        r.computes::<S>(),
        pred.data is F64,
        target.shape == pred.shape,
        mse_loss_tracked::<S>(before, after, pred, target, Reduce::Each, Ok(y)),
    ensures
        target.data is F64,
        y.shape == pred.shape,
        forall|i: int, e: S::D|
            #![trigger y.f64s()[i], r.plus(target.f64s()[i], e)]
            0 <= i < volume(pred.shape) && r.plus(target.f64s()[i], e) == pred.f64s()[i]
                ==> y.f64s()[i] == r.times(e, e),
{
    let res: Outcome<S> = Ok(y);
    let td = target.detached();
    assert(td.f64s() == target.f64s());
    let (mid, o) = choose|mid: Seq<Node<S>>, o: Outcome<S>| #[trigger]
        sub_tracked::<S>(before, mid, pred, td, o) && o is Ok && mse_loss_square::<S>(
            mid,
            after,
            Reduce::Each,
            o->Ok_0,
            res,
        );
    let d = o->Ok_0;
    let v = choose|v: Outcome<S>| #[trigger]
        sub_out::<S>(pred, td, v) && tracked_out::<S>(
            before,
            mid,
            pred.in_graph || td.in_graph,
            v,
            seq![pred, td],
            RuleModel::Sub { a_shape: pred.shape, b_shape: td.shape },
            o,
        );
    assert(alike::<S>(d, v->Ok_0));
    lemma_two_f64::<S>(pred, td, subtracting::<S::F, S>(), subtracting::<S::D, S>(), v->Ok_0);
    assert(d.f64s() == v->Ok_0.f64s());
    let (last, q) = choose|last: Seq<Node<S>>, q: Outcome<S>| #[trigger]
        mul_tracked::<S>(mid, last, d, d, q) && q is Ok && after == last && gives(res, q->Ok_0);
    let u = choose|u: Outcome<S>| #[trigger]
        mul_out::<S>(d, d, u) && tracked_out::<S>(
            mid,
            last,
            d.in_graph || d.in_graph,
            u,
            seq![d, d],
            RuleModel::Mul { a: d.detached(), b: d.detached() },
            q,
        );
    assert(alike::<S>(y, u->Ok_0));
    lemma_two_f64::<S>(d, d, multiplying::<S::F, S>(), multiplying::<S::D, S>(), u->Ok_0);
    assert(y.f64s() == u->Ok_0.f64s());
    assert forall|i: int, e: S::D|
        #![trigger y.f64s()[i], r.plus(target.f64s()[i], e)]
        0 <= i < volume(pred.shape) && r.plus(target.f64s()[i], e) == pred.f64s()[i]
        implies y.f64s()[i] == r.times(e, e) by {
        let (p, t, f) = (pred.f64s()[i], target.f64s()[i], d.f64s()[i]);
        assert(subtracting::<S::D, S>()(p, t, f));
        assert(is_difference::<S::D, S>(p, t, f));
        assert(multiplying::<S::D, S>()(f, f, y.f64s()[i]));
        assert(is_product::<S::D, S>(f, f, y.f64s()[i]));
        lemma_laws(r, t, e, e);
        lemma_is_minus(r, p, t, e);
    }
}

} // verus!
