//! The greater and the lesser of two tensors, and their gradients: the two pieces add up to the
//! cotangent, and the argument that was passed over gets nothing of it.
use vstd::prelude::*;
use crate::algebra::{lemma_spread, lemma_zero, multiple};
use crate::calculus::{exact, lemma_ratio, orders};
use crate::cpu::mul_out;
use crate::error::Error;
use crate::extremes::{
    choice_recorded, choice_rule, choice_tracked, greater_of, greater_rel, lesser_of, lesser_rel,
    maximum_out, maximum_tracked, minimum_out, minimum_tracked, share_of, share_rel, shares_out,
};
use crate::index::volume;
use crate::nodes::{produced, recorded, Node};
use crate::norm_law::alike;
use crate::pointwise_law::{lemma_two_f32, lemma_two_f64};
use crate::ring::{lemma_laws, Ring};
use crate::rules::{pair_first, pair_other, pair_parts, pair_second, unbroadcast_out};
use crate::scalar::{is_product, is_ratio, multiplying, Arith, Scalars};
use crate::tape::Backward;
use crate::tensor::{gives, passes, Model, Outcome};

verus! {

/// Every number is the same as itself.
pub open spec fn same_as_itself<T, A: Arith<T>>() -> bool {
    forall|x: T, b: bool| #[trigger] call_ensures(A::same, (x, x), b) ==> b
}

/// `y` is one of `a` and `b`, and neither stands above it in the order `gt`. The pieces `pa` and
/// `pb` add up to the cotangent `g`. The argument that the other stands above gets nothing, and two
/// that are level get as much as each other.
pub open spec fn settled<T>(
    r: Ring<T>,
    gt: spec_fn(T, T) -> bool,
    a: T,
    b: T,
    y: T,
    g: T,
    pa: T,
    pb: T,
) -> bool {
    &&& y == a || y == b
    &&& !gt(a, y) && !gt(b, y)
    &&& r.plus(pa, pb) == g
    &&& gt(a, b) ==> pb == r.zero
    &&& gt(b, a) ==> pa == r.zero
    &&& !gt(a, b) && !gt(b, a) ==> pa == pb
}

/// The same at `i`.
pub open spec fn settled_at<T>(
    r: Ring<T>,
    gt: spec_fn(T, T) -> bool,
    a: Seq<T>,
    b: Seq<T>,
    ys: Seq<T>,
    gs: Seq<T>,
    pa: Seq<T>,
    pb: Seq<T>,
    i: int,
) -> bool {
    settled(r, gt, a[i], b[i], ys[i], gs[i], pa[i], pb[i])
}

/// The order the other way round.
pub open spec fn below<T>(gt: spec_fn(T, T) -> bool) -> spec_fn(T, T) -> bool {
    |x: T, y: T| gt(y, x)
}

/// The shares of two numbers: one and nothing, or a half each.
proof fn lemma_shares<T, A: Arith<T>>(
    r: Ring<T>,
    gt: spec_fn(T, T) -> bool,
    a: T,
    b: T,
    g: T,
    sa: T,
    sb: T,
    pa: T,
    pb: T,
)
    requires
        exact::<T, A>(r),
        orders::<T, A>(r, gt),
        share_of::<T, A>(a, b, sa),
        share_of::<T, A>(b, a, sb),
        is_product::<T, A>(g, sa, pa),
        is_product::<T, A>(g, sb, pb),
    ensures
        r.plus(pa, pb) == g,
        gt(a, b) ==> pb == r.zero,
        gt(b, a) ==> pa == r.zero,
        !gt(a, b) && !gt(b, a) ==> pa == pb,
{
    reveal(orders);
    assert(pa == r.times(g, sa) && pb == r.times(g, sb));
    lemma_zero(r, g);
    lemma_zero(r, r.one);
    lemma_spread(r, g, sa, sb);
    if gt(a, b) {
        assert(sa == r.one && sb == r.zero);
    } else if gt(b, a) {
        assert(sa == r.zero && sb == r.one);
    } else {
        assert(is_ratio::<T, A>(1, 2, sa) && is_ratio::<T, A>(1, 2, sb));
        lemma_ratio::<T, A>(r, 1, 2, sa);
        lemma_ratio::<T, A>(r, 1, 2, sb);
        reveal_with_fuel(multiple, 3);
        let two = r.plus(r.one, r.one);
        assert(multiple(r, 1) == r.one && multiple(r, 2) == two);
        lemma_spread(r, sa, r.one, r.one);
        lemma_zero(r, sa);
        lemma_spread(r, sb, r.one, r.one);
        lemma_zero(r, sb);
        assert(r.plus(sa, sa) == r.one && r.plus(sb, sb) == r.one);
        lemma_halves::<T, A>(r, sa, sb);
        assert(sa == sb);
    }
}

/// There is one half.
proof fn lemma_halves<T, A: Arith<T>>(r: Ring<T>, x: T, y: T)
    requires
        exact::<T, A>(r),
        r.plus(x, x) == r.one,
        r.plus(y, y) == r.one,
    ensures
        x == y,
{
    lemma_spread(r, x, y, y);
    lemma_spread(r, y, x, x);
    lemma_zero(r, x);
    lemma_zero(r, y);
    lemma_laws(r, x, y, y);
    // x == x (y + y) == xy + xy == yx + yx == y (x + x) == y
}

/// The maximum: each value is one of its two arguments, and none of them is greater. The two pieces
/// add up to the cotangent, the lesser argument gets nothing, and two that are level get equal
/// pieces. Both arguments have one shape.
pub proof fn law_maximum_gradient_f32<S: Scalars>(
    r: Ring<S::F>,
    gt: spec_fn(S::F, S::F) -> bool,
    before: Seq<Node<S>>,
    after: Seq<Node<S>>,
    a: Model<S>,
    b: Model<S>,
    y: Model<S>,
    gy: Model<S>,
    parts: Seq<Model<S>>,
)
    requires
        exact::<S::F, S>(r),
        orders::<S::F, S>(r, gt),
        same_as_itself::<S::F, S>(),
        a.data is F32,
        a.in_graph || b.in_graph,
        b.shape == a.shape,
        gy.shape == a.shape,
        gy.data is F32,
        maximum_tracked::<S>(before, after, a, b, Ok(y)),
        after.len() > 0,
        after.last().vjp(gy, Ok(parts)),
    ensures
        after.len() == before.len() + 1,
        after.last().sources() == seq![a, b],
        parts.len() == 2,
        parts[0].shape == a.shape,
        parts[1].shape == a.shape,
        y.shape == a.shape,
        forall|i: int|
            0 <= i < volume(a.shape) ==> #[trigger] settled_at(
                r,
                gt,
                a.f32s(),
                b.f32s(),
                y.f32s(),
                gy.f32s(),
                parts[0].f32s(),
                parts[1].f32s(),
                i,
            ),
{
    let res: Outcome<S> = Ok(y);
    let rp: Result<Seq<Model<S>>, Error> = Ok(parts);
    let n = volume(a.shape) as int;
    let v = choose|v: Outcome<S>| #[trigger]
        maximum_out::<S>(a, b, v) && choice_tracked::<S>(
            before,
            after,
            "maximum"@,
            a,
            b,
            true,
            v,
            res,
        );
    assert(v is Ok);
    lemma_two_f32::<S>(a, b, greater_rel::<S::F, S>(), greater_rel::<S::D, S>(), v->Ok_0);
    let above = choose|o: Outcome<S>| #[trigger]
        shares_out::<S>(a, b, o) && o is Ok && choice_recorded::<S>(
            before,
            after,
            "maximum"@,
            a,
            b,
            true,
            v->Ok_0,
            o->Ok_0,
            res,
        );
    let under = choose|o: Outcome<S>| #[trigger]
        shares_out::<S>(b, a, o) && o is Ok && recorded::<S>(
            before,
            after,
            seq![a, b],
            choice_rule::<S>("maximum"@, a, b, true, above->Ok_0, o->Ok_0),
        ) && gives(res, produced::<S>(v->Ok_0, before.len() as int));
    assert(alike::<S>(y, v->Ok_0));
    let (up, down) = (above->Ok_0, under->Ok_0);
    lemma_two_f32::<S>(a, b, share_rel::<S::F, S>(), share_rel::<S::D, S>(), up);
    lemma_two_f32::<S>(b, a, share_rel::<S::F, S>(), share_rel::<S::D, S>(), down);
    let (sa, sb) = (up, down);
    reveal(pair_parts);
    let pa = choose|o: Outcome<S>| #[trigger]
        mul_out::<S>(gy, sa, o) && passes(
            o,
            rp,
            pair_first::<S>(sb, a.shape, b.shape, gy, o->Ok_0, rp),
        );
    lemma_two_f32::<S>(gy, sa, multiplying::<S::F, S>(), multiplying::<S::D, S>(), pa->Ok_0);
    let ga = choose|o: Outcome<S>| #[trigger]
        unbroadcast_out::<S>(pa->Ok_0, a.shape, o) && passes(
            o,
            rp,
            pair_other::<S>(sb, b.shape, gy, o->Ok_0, rp),
        );
    let pb = choose|o: Outcome<S>| #[trigger]
        mul_out::<S>(gy, sb, o) && passes(o, rp, pair_second::<S>(b.shape, ga->Ok_0, o->Ok_0, rp));
    lemma_two_f32::<S>(gy, sb, multiplying::<S::F, S>(), multiplying::<S::D, S>(), pb->Ok_0);
    let gb = choose|o: Outcome<S>| #[trigger]
        unbroadcast_out::<S>(pb->Ok_0, b.shape, o) && passes(
            o,
            rp,
            gives(rp, seq![ga->Ok_0, o->Ok_0]),
        );
    assert(parts == seq![pa->Ok_0, pb->Ok_0]);
    assert forall|i: int| 0 <= i < n implies #[trigger] settled_at(
        r,
        gt,
        a.f32s(),
        b.f32s(),
        y.f32s(),
        gy.f32s(),
        parts[0].f32s(),
        parts[1].f32s(),
        i,
    ) by {
        let (x, z, u, g) = (a.f32s()[i], b.f32s()[i], y.f32s()[i], gy.f32s()[i]);
        let (p0, p1) = (parts[0].f32s()[i], parts[1].f32s()[i]);
        assert(greater_rel::<S::F, S>()(x, z, u));
        assert(share_rel::<S::F, S>()(x, z, up.f32s()[i]));
        assert(share_rel::<S::F, S>()(z, x, down.f32s()[i]));
        assert(multiplying::<S::F, S>()(g, sa.f32s()[i], p0));
        assert(multiplying::<S::F, S>()(g, sb.f32s()[i], p1));
        lemma_shares::<S::F, S>(r, gt, x, z, g, up.f32s()[i], down.f32s()[i], p0, p1);
        assert(greater_of::<S::F, S>(x, z, u));
        reveal(orders);
    }
}

/// The minimum: each value is one of its two arguments, and none of them is less. The two pieces
/// add up to the cotangent, the greater argument gets nothing, and two that are level get equal
/// pieces. Both arguments have one shape.
pub proof fn law_minimum_gradient_f32<S: Scalars>(
    r: Ring<S::F>,
    gt: spec_fn(S::F, S::F) -> bool,
    before: Seq<Node<S>>,
    after: Seq<Node<S>>,
    a: Model<S>,
    b: Model<S>,
    y: Model<S>,
    gy: Model<S>,
    parts: Seq<Model<S>>,
)
    requires
        exact::<S::F, S>(r),
        orders::<S::F, S>(r, gt),
        same_as_itself::<S::F, S>(),
        a.data is F32,
        a.in_graph || b.in_graph,
        b.shape == a.shape,
        gy.shape == a.shape,
        gy.data is F32,
        minimum_tracked::<S>(before, after, a, b, Ok(y)),
        after.len() > 0,
        after.last().vjp(gy, Ok(parts)),
    ensures
        after.len() == before.len() + 1,
        after.last().sources() == seq![a, b],
        parts.len() == 2,
        parts[0].shape == a.shape,
        parts[1].shape == a.shape,
        y.shape == a.shape,
        forall|i: int|
            0 <= i < volume(a.shape) ==> #[trigger] settled_at(
                r,
                below(gt),
                a.f32s(),
                b.f32s(),
                y.f32s(),
                gy.f32s(),
                parts[0].f32s(),
                parts[1].f32s(),
                i,
            ),
{
    let res: Outcome<S> = Ok(y);
    let rp: Result<Seq<Model<S>>, Error> = Ok(parts);
    let n = volume(a.shape) as int;
    let v = choose|v: Outcome<S>| #[trigger]
        minimum_out::<S>(a, b, v) && choice_tracked::<S>(
            before,
            after,
            "minimum"@,
            a,
            b,
            false,
            v,
            res,
        );
    assert(v is Ok);
    lemma_two_f32::<S>(a, b, lesser_rel::<S::F, S>(), lesser_rel::<S::D, S>(), v->Ok_0);
    let above = choose|o: Outcome<S>| #[trigger]
        shares_out::<S>(a, b, o) && o is Ok && choice_recorded::<S>(
            before,
            after,
            "minimum"@,
            a,
            b,
            false,
            v->Ok_0,
            o->Ok_0,
            res,
        );
    let under = choose|o: Outcome<S>| #[trigger]
        shares_out::<S>(b, a, o) && o is Ok && recorded::<S>(
            before,
            after,
            seq![a, b],
            choice_rule::<S>("minimum"@, a, b, false, above->Ok_0, o->Ok_0),
        ) && gives(res, produced::<S>(v->Ok_0, before.len() as int));
    assert(alike::<S>(y, v->Ok_0));
    let (up, down) = (above->Ok_0, under->Ok_0);
    lemma_two_f32::<S>(a, b, share_rel::<S::F, S>(), share_rel::<S::D, S>(), up);
    lemma_two_f32::<S>(b, a, share_rel::<S::F, S>(), share_rel::<S::D, S>(), down);
    let (sa, sb) = (down, up);
    reveal(pair_parts);
    let pa = choose|o: Outcome<S>| #[trigger]
        mul_out::<S>(gy, sa, o) && passes(
            o,
            rp,
            pair_first::<S>(sb, a.shape, b.shape, gy, o->Ok_0, rp),
        );
    lemma_two_f32::<S>(gy, sa, multiplying::<S::F, S>(), multiplying::<S::D, S>(), pa->Ok_0);
    let ga = choose|o: Outcome<S>| #[trigger]
        unbroadcast_out::<S>(pa->Ok_0, a.shape, o) && passes(
            o,
            rp,
            pair_other::<S>(sb, b.shape, gy, o->Ok_0, rp),
        );
    let pb = choose|o: Outcome<S>| #[trigger]
        mul_out::<S>(gy, sb, o) && passes(o, rp, pair_second::<S>(b.shape, ga->Ok_0, o->Ok_0, rp));
    lemma_two_f32::<S>(gy, sb, multiplying::<S::F, S>(), multiplying::<S::D, S>(), pb->Ok_0);
    let gb = choose|o: Outcome<S>| #[trigger]
        unbroadcast_out::<S>(pb->Ok_0, b.shape, o) && passes(
            o,
            rp,
            gives(rp, seq![ga->Ok_0, o->Ok_0]),
        );
    assert(parts == seq![pa->Ok_0, pb->Ok_0]);
    assert forall|i: int| 0 <= i < n implies #[trigger] settled_at(
        r,
        below(gt),
        a.f32s(),
        b.f32s(),
        y.f32s(),
        gy.f32s(),
        parts[0].f32s(),
        parts[1].f32s(),
        i,
    ) by {
        let (x, z, u, g) = (a.f32s()[i], b.f32s()[i], y.f32s()[i], gy.f32s()[i]);
        let (p0, p1) = (parts[0].f32s()[i], parts[1].f32s()[i]);
        assert(lesser_rel::<S::F, S>()(x, z, u));
        assert(share_rel::<S::F, S>()(x, z, up.f32s()[i]));
        assert(share_rel::<S::F, S>()(z, x, down.f32s()[i]));
        assert(multiplying::<S::F, S>()(g, sa.f32s()[i], p0));
        assert(multiplying::<S::F, S>()(g, sb.f32s()[i], p1));
        lemma_shares::<S::F, S>(r, gt, z, x, g, down.f32s()[i], up.f32s()[i], p0, p1);
        assert(lesser_of::<S::F, S>(x, z, u));
        reveal(orders);
    }
}

/// The maximum: each value is one of its two arguments, and none of them is greater. The two pieces
/// add up to the cotangent, the lesser argument gets nothing, and two that are level get equal
/// pieces. Both arguments have one shape.
pub proof fn law_maximum_gradient_f64<S: Scalars>(
    r: Ring<S::D>,
    gt: spec_fn(S::D, S::D) -> bool,
    before: Seq<Node<S>>,
    after: Seq<Node<S>>,
    a: Model<S>,
    b: Model<S>,
    y: Model<S>,
    gy: Model<S>,
    parts: Seq<Model<S>>,
)
    requires
        exact::<S::D, S>(r),
        orders::<S::D, S>(r, gt),
        same_as_itself::<S::D, S>(),
        a.data is F64,
        a.in_graph || b.in_graph,
        b.shape == a.shape,
        gy.shape == a.shape,
        gy.data is F64,
        maximum_tracked::<S>(before, after, a, b, Ok(y)),
        after.len() > 0,
        after.last().vjp(gy, Ok(parts)),
    ensures
        after.len() == before.len() + 1,
        after.last().sources() == seq![a, b],
        parts.len() == 2,
        parts[0].shape == a.shape,
        parts[1].shape == a.shape,
        y.shape == a.shape,
        forall|i: int|
            0 <= i < volume(a.shape) ==> #[trigger] settled_at(
                r,
                gt,
                a.f64s(),
                b.f64s(),
                y.f64s(),
                gy.f64s(),
                parts[0].f64s(),
                parts[1].f64s(),
                i,
            ),
{
    let res: Outcome<S> = Ok(y);
    let rp: Result<Seq<Model<S>>, Error> = Ok(parts);
    let n = volume(a.shape) as int;
    let v = choose|v: Outcome<S>| #[trigger]
        maximum_out::<S>(a, b, v) && choice_tracked::<S>(
            before,
            after,
            "maximum"@,
            a,
            b,
            true,
            v,
            res,
        );
    assert(v is Ok);
    lemma_two_f64::<S>(a, b, greater_rel::<S::F, S>(), greater_rel::<S::D, S>(), v->Ok_0);
    let above = choose|o: Outcome<S>| #[trigger]
        shares_out::<S>(a, b, o) && o is Ok && choice_recorded::<S>(
            before,
            after,
            "maximum"@,
            a,
            b,
            true,
            v->Ok_0,
            o->Ok_0,
            res,
        );
    let under = choose|o: Outcome<S>| #[trigger]
        shares_out::<S>(b, a, o) && o is Ok && recorded::<S>(
            before,
            after,
            seq![a, b],
            choice_rule::<S>("maximum"@, a, b, true, above->Ok_0, o->Ok_0),
        ) && gives(res, produced::<S>(v->Ok_0, before.len() as int));
    assert(alike::<S>(y, v->Ok_0));
    let (up, down) = (above->Ok_0, under->Ok_0);
    lemma_two_f64::<S>(a, b, share_rel::<S::F, S>(), share_rel::<S::D, S>(), up);
    lemma_two_f64::<S>(b, a, share_rel::<S::F, S>(), share_rel::<S::D, S>(), down);
    let (sa, sb) = (up, down);
    reveal(pair_parts);
    let pa = choose|o: Outcome<S>| #[trigger]
        mul_out::<S>(gy, sa, o) && passes(
            o,
            rp,
            pair_first::<S>(sb, a.shape, b.shape, gy, o->Ok_0, rp),
        );
    lemma_two_f64::<S>(gy, sa, multiplying::<S::F, S>(), multiplying::<S::D, S>(), pa->Ok_0);
    let ga = choose|o: Outcome<S>| #[trigger]
        unbroadcast_out::<S>(pa->Ok_0, a.shape, o) && passes(
            o,
            rp,
            pair_other::<S>(sb, b.shape, gy, o->Ok_0, rp),
        );
    let pb = choose|o: Outcome<S>| #[trigger]
        mul_out::<S>(gy, sb, o) && passes(o, rp, pair_second::<S>(b.shape, ga->Ok_0, o->Ok_0, rp));
    lemma_two_f64::<S>(gy, sb, multiplying::<S::F, S>(), multiplying::<S::D, S>(), pb->Ok_0);
    let gb = choose|o: Outcome<S>| #[trigger]
        unbroadcast_out::<S>(pb->Ok_0, b.shape, o) && passes(
            o,
            rp,
            gives(rp, seq![ga->Ok_0, o->Ok_0]),
        );
    assert(parts == seq![pa->Ok_0, pb->Ok_0]);
    assert forall|i: int| 0 <= i < n implies #[trigger] settled_at(
        r,
        gt,
        a.f64s(),
        b.f64s(),
        y.f64s(),
        gy.f64s(),
        parts[0].f64s(),
        parts[1].f64s(),
        i,
    ) by {
        let (x, z, u, g) = (a.f64s()[i], b.f64s()[i], y.f64s()[i], gy.f64s()[i]);
        let (p0, p1) = (parts[0].f64s()[i], parts[1].f64s()[i]);
        assert(greater_rel::<S::D, S>()(x, z, u));
        assert(share_rel::<S::D, S>()(x, z, up.f64s()[i]));
        assert(share_rel::<S::D, S>()(z, x, down.f64s()[i]));
        assert(multiplying::<S::D, S>()(g, sa.f64s()[i], p0));
        assert(multiplying::<S::D, S>()(g, sb.f64s()[i], p1));
        lemma_shares::<S::D, S>(r, gt, x, z, g, up.f64s()[i], down.f64s()[i], p0, p1);
        assert(greater_of::<S::D, S>(x, z, u));
        reveal(orders);
    }
}

/// The minimum: each value is one of its two arguments, and none of them is less. The two pieces
/// add up to the cotangent, the greater argument gets nothing, and two that are level get equal
/// pieces. Both arguments have one shape.
pub proof fn law_minimum_gradient_f64<S: Scalars>(
    r: Ring<S::D>,
    gt: spec_fn(S::D, S::D) -> bool,
    before: Seq<Node<S>>,
    after: Seq<Node<S>>,
    a: Model<S>,
    b: Model<S>,
    y: Model<S>,
    gy: Model<S>,
    parts: Seq<Model<S>>,
)
    requires
        exact::<S::D, S>(r),
        orders::<S::D, S>(r, gt),
        same_as_itself::<S::D, S>(),
        a.data is F64,
        a.in_graph || b.in_graph,
        b.shape == a.shape,
        gy.shape == a.shape,
        gy.data is F64,
        minimum_tracked::<S>(before, after, a, b, Ok(y)),
        after.len() > 0,
        after.last().vjp(gy, Ok(parts)),
    ensures
        after.len() == before.len() + 1,
        after.last().sources() == seq![a, b],
        parts.len() == 2,
        parts[0].shape == a.shape,
        parts[1].shape == a.shape,
        y.shape == a.shape,
        forall|i: int|
            0 <= i < volume(a.shape) ==> #[trigger] settled_at(
                r,
                below(gt),
                a.f64s(),
                b.f64s(),
                y.f64s(),
                gy.f64s(),
                parts[0].f64s(),
                parts[1].f64s(),
                i,
            ),
{
    let res: Outcome<S> = Ok(y);
    let rp: Result<Seq<Model<S>>, Error> = Ok(parts);
    let n = volume(a.shape) as int;
    let v = choose|v: Outcome<S>| #[trigger]
        minimum_out::<S>(a, b, v) && choice_tracked::<S>(
            before,
            after,
            "minimum"@,
            a,
            b,
            false,
            v,
            res,
        );
    assert(v is Ok);
    lemma_two_f64::<S>(a, b, lesser_rel::<S::F, S>(), lesser_rel::<S::D, S>(), v->Ok_0);
    let above = choose|o: Outcome<S>| #[trigger]
        shares_out::<S>(a, b, o) && o is Ok && choice_recorded::<S>(
            before,
            after,
            "minimum"@,
            a,
            b,
            false,
            v->Ok_0,
            o->Ok_0,
            res,
        );
    let under = choose|o: Outcome<S>| #[trigger]
        shares_out::<S>(b, a, o) && o is Ok && recorded::<S>(
            before,
            after,
            seq![a, b],
            choice_rule::<S>("minimum"@, a, b, false, above->Ok_0, o->Ok_0),
        ) && gives(res, produced::<S>(v->Ok_0, before.len() as int));
    assert(alike::<S>(y, v->Ok_0));
    let (up, down) = (above->Ok_0, under->Ok_0);
    lemma_two_f64::<S>(a, b, share_rel::<S::F, S>(), share_rel::<S::D, S>(), up);
    lemma_two_f64::<S>(b, a, share_rel::<S::F, S>(), share_rel::<S::D, S>(), down);
    let (sa, sb) = (down, up);
    reveal(pair_parts);
    let pa = choose|o: Outcome<S>| #[trigger]
        mul_out::<S>(gy, sa, o) && passes(
            o,
            rp,
            pair_first::<S>(sb, a.shape, b.shape, gy, o->Ok_0, rp),
        );
    lemma_two_f64::<S>(gy, sa, multiplying::<S::F, S>(), multiplying::<S::D, S>(), pa->Ok_0);
    let ga = choose|o: Outcome<S>| #[trigger]
        unbroadcast_out::<S>(pa->Ok_0, a.shape, o) && passes(
            o,
            rp,
            pair_other::<S>(sb, b.shape, gy, o->Ok_0, rp),
        );
    let pb = choose|o: Outcome<S>| #[trigger]
        mul_out::<S>(gy, sb, o) && passes(o, rp, pair_second::<S>(b.shape, ga->Ok_0, o->Ok_0, rp));
    lemma_two_f64::<S>(gy, sb, multiplying::<S::F, S>(), multiplying::<S::D, S>(), pb->Ok_0);
    let gb = choose|o: Outcome<S>| #[trigger]
        unbroadcast_out::<S>(pb->Ok_0, b.shape, o) && passes(
            o,
            rp,
            gives(rp, seq![ga->Ok_0, o->Ok_0]),
        );
    assert(parts == seq![pa->Ok_0, pb->Ok_0]);
    assert forall|i: int| 0 <= i < n implies #[trigger] settled_at(
        r,
        below(gt),
        a.f64s(),
        b.f64s(),
        y.f64s(),
        gy.f64s(),
        parts[0].f64s(),
        parts[1].f64s(),
        i,
    ) by {
        let (x, z, u, g) = (a.f64s()[i], b.f64s()[i], y.f64s()[i], gy.f64s()[i]);
        let (p0, p1) = (parts[0].f64s()[i], parts[1].f64s()[i]);
        assert(lesser_rel::<S::D, S>()(x, z, u));
        assert(share_rel::<S::D, S>()(x, z, up.f64s()[i]));
        assert(share_rel::<S::D, S>()(z, x, down.f64s()[i]));
        assert(multiplying::<S::D, S>()(g, sa.f64s()[i], p0));
        assert(multiplying::<S::D, S>()(g, sb.f64s()[i], p1));
        lemma_shares::<S::D, S>(r, gt, z, x, g, down.f64s()[i], up.f64s()[i], p0, p1);
        assert(lesser_of::<S::D, S>(x, z, u));
        reveal(orders);
    }
}

} // verus!
