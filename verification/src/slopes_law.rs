//! The derivatives that activations record are the derivatives of the values that they give: by the
//! rules of differentiation, the change of a value is its recorded derivative times the change of
//! its argument.
use vstd::prelude::*;
use crate::algebra::{lemma_is_minus, lemma_spread, lemma_turn, lemma_undo, lemma_zero, multiple};
use crate::calculus::{
    counts, exact, lemma_cancels, lemma_change, lemma_constant, lemma_divides, lemma_function,
    lemma_negates, lemma_ratio, lemma_squares_back, powers, single, Change,
};
use crate::ring::{law_slope_forms, lemma_cancel, lemma_laws, Ring};
use crate::scalar::{is_one, is_product, is_quotient, is_ratio, is_sum, Arith};
use crate::slopes::{
    gelu_exact_slope_of, gelu_slope_at, gelu_slope_of, gelu_slope_steps, silu_product_of,
    silu_slope_of, silu_slope_steps, GeluSlopeSteps, SiluSlopeSteps,
};
use crate::unary::{
    gelu_constant, gelu_exact_of, gelu_of, gelu_root, gelu_steps, sigmoid_of, sigmoid_steps,
    silu_of, silu_quotient_of, silu_quotient_steps, softplus_of, GeluSteps, SigmoidSteps,
};

verus! {

/// Three times `a`.
proof fn lemma_three<T, A: Arith<T>>(r: Ring<T>, three: T, a: T)
    requires
        r.lawful(),
        counts::<T, A>(r),
        is_ratio::<T, A>(3, 1, three),
    ensures
        r.times(three, a) == r.plus(r.plus(a, a), a),
{
    lemma_ratio::<T, A>(r, 3, 1, three);
    reveal_with_fuel(multiple, 5);
    lemma_zero(r, r.one);
    lemma_zero(r, three);
    let two = r.plus(r.one, r.one);
    assert(multiple(r, 1) == r.one);
    assert(multiple(r, 2) == two);
    assert(multiple(r, 3) == r.plus(two, r.one));
    assert(three == r.plus(two, r.one));
    lemma_spread(r, a, two, r.one);
    lemma_spread(r, a, r.one, r.one);
    lemma_zero(r, a);
}

/// The change of `a x x x`, where `a` does not change.
proof fn lemma_cube<T, A: Arith<T>>(
    r: Ring<T>,
    d: Change<T>,
    a: T,
    x: T,
    three: T,
    first: T,
    second: T,
    third: T,
)
    requires
        r.lawful(),
        counts::<T, A>(r),
        d.adds(r),
        d.multiplies(r),
        is_ratio::<T, A>(3, 1, three),
        d.at(a) == r.zero,
        first == r.times(a, x),
        second == r.times(first, x),
        third == r.times(second, x),
    ensures
        d.at(third) == r.times(r.times(r.times(r.times(three, a), x), x), d.at(x)),
{
    let e = d.at(x);
    lemma_change(r, d, a, x);
    lemma_zero(r, x);
    lemma_zero(r, r.times(a, e));
    assert(d.at(first) == r.times(a, e));
    lemma_change(r, d, first, x);
    lemma_turn(r, a, e, x);
    let fe = r.times(first, e);
    assert(d.at(second) == r.plus(fe, fe));
    lemma_change(r, d, second, x);
    lemma_spread(r, x, fe, fe);
    lemma_turn(r, first, e, x);
    let se = r.times(second, e);
    assert(d.at(third) == r.plus(r.plus(se, se), se));
    lemma_three::<T, A>(r, three, a);
    let ta = r.times(three, a);
    let aa = r.plus(a, a);
    lemma_spread(r, x, aa, a);
    lemma_spread(r, x, a, a);
    let ff = r.plus(first, first);
    assert(r.times(ta, x) == r.plus(ff, first));
    lemma_spread(r, x, ff, first);
    lemma_spread(r, x, first, first);
    let ss = r.plus(second, second);
    assert(r.times(r.times(ta, x), x) == r.plus(ss, second));
    lemma_spread(r, e, ss, second);
    lemma_spread(r, e, second, second);
}

/// GELU's recorded derivative is the derivative of the value: whatever change follows the rules of
/// differentiation changes the value by the derivative times the change of the argument. The
/// constant `c` does not change.
pub proof fn law_gelu_slope<T, A: Arith<T>>(
    r: Ring<T>,
    d: Change<T>,
    c: T,
    x: T,
    w: GeluSteps<T>,
    y: T,
    slope: T,
)
    requires
        exact::<T, A>(r),
        single::<T, A>(),
        d.follows::<A>(r),
        d.at(c) == r.zero,
        gelu_steps::<T, A>(c, x, w, y),
        gelu_slope_at::<T, A>(c, x, slope),
    ensures
        d.at(y) == r.times(slope, d.at(x)),
{
    let (g, v) = choose|g: GeluSteps<T>, v: GeluSlopeSteps<T>| #[trigger]
        gelu_slope_steps::<T, A>(c, x, g, v, slope);
    let e = d.at(x);
    reveal(single);
    assert(g.cubic == w.cubic);
    assert(g.first == w.first && g.second == w.second && g.third == w.third);
    assert(g.inner == w.inner && g.scaled == w.scaled && g.bent == w.bent);
    assert(v.half == w.half && v.lifted == w.lifted && v.halved == w.halved);
    lemma_constant::<T, A>(r, d, 44715, 1000000, w.cubic);
    lemma_constant::<T, A>(r, d, 1, 2, w.half);
    lemma_cube::<T, A>(r, d, w.cubic, x, v.three, w.first, w.second, w.third);
    // The inner polynomial.
    lemma_change(r, d, x, w.third);
    lemma_spread(r, e, r.one, v.triple2);
    lemma_zero(r, e);
    assert(d.at(w.inner) == r.times(v.inner, e));
    // Scaled by the constant.
    lemma_change(r, d, c, w.inner);
    lemma_zero(r, w.inner);
    let ce = r.times(c, r.times(v.inner, e));
    lemma_zero(r, ce);
    assert(d.at(w.scaled) == ce);
    // Its tangent.
    lemma_function::<T, A>(r, d, w.scaled, w.bent);
    assert(d.at(w.bent) == r.times(v.fall, ce));
    // Half of the argument, and one more than the tangent.
    lemma_change(r, d, w.half, x);
    lemma_zero(r, x);
    lemma_zero(r, r.times(w.half, e));
    assert(d.at(w.halved) == r.times(w.half, e));
    lemma_change(r, d, r.one, w.bent);
    lemma_zero(r, d.at(w.bent));
    // Their product.
    lemma_change(r, d, w.halved, w.lifted);
    lemma_turn(r, w.half, e, w.lifted);
    let flat = r.times(v.flat, e);
    assert(r.times(d.at(w.halved), w.lifted) == flat);
    let bend = r.times(w.halved, d.at(w.lifted));
    lemma_laws(r, w.halved, v.fall, ce);
    lemma_laws(r, v.steep, c, r.times(v.inner, e));
    lemma_laws(r, v.scaled, v.inner, e);
    assert(bend == r.times(v.bend, e));
    lemma_spread(r, e, v.flat, v.bend);
}

/// The recorded derivative of the sigmoid is the derivative of its value.
pub proof fn law_sigmoid_slope<T, A: Arith<T>>(
    r: Ring<T>,
    d: Change<T>,
    x: T,
    y: T,
    slope: T,
)
    requires
        exact::<T, A>(r),
        d.follows::<A>(r),
        sigmoid_of::<T, A>(x, y),
        slope == r.times(y, r.minus(r.one, y)),
        powers::<T, A>(r),
    ensures
        d.at(y) == r.times(slope, d.at(x)),
{
    let w = choose|w: SigmoidSteps<T>| #[trigger] sigmoid_steps::<T, A>(x, w, y);
    let e = d.at(x);
    let b = w.below;
    assert(b != r.zero) by {
        reveal(powers);
    }
    lemma_divides::<T, A>(r, r.one, b, y);
    lemma_negates::<T, A>(r, x, w.negated);
    lemma_change(r, d, r.zero, x);
    let ne = r.minus(r.zero, e);
    assert(d.at(w.negated) == ne);
    lemma_function::<T, A>(r, d, w.negated, w.decay);
    lemma_change(r, d, r.one, w.decay);
    let db = r.times(w.decay, ne);
    lemma_zero(r, db);
    assert(d.at(b) == db);
    // 0 == d(y b) == dy b + y db
    lemma_change(r, d, y, b);
    let left = r.times(d.at(y), b);
    assert(r.plus(left, r.times(y, db)) == r.zero);
    // slope e b == (1 - y) e, and y db + (1 - y) e == 0
    let rest = r.minus(r.one, y);
    let re = r.times(rest, e);
    let se = r.times(slope, e);
    lemma_laws(r, y, rest, e);
    lemma_turn(r, y, re, b);
    lemma_zero(r, re);
    lemma_laws(r, re, r.times(y, b), y);
    assert(r.times(se, b) == re) by {
        assert(se == r.times(y, re));
        assert(r.times(r.times(y, re), b) == r.times(re, r.times(y, b)));
    }
    // y decay == 1 - y
    lemma_spread(r, y, r.one, w.decay);
    lemma_zero(r, y);
    let yd = r.times(y, w.decay);
    assert(r.plus(y, yd) == r.one);
    lemma_laws(r, y, yd, yd);
    lemma_is_minus(r, r.one, y, yd);
    assert(yd == rest);
    lemma_laws(r, y, w.decay, ne);
    lemma_spread(r, rest, r.zero, e);
    lemma_zero(r, rest);
    assert(r.times(y, db) == r.minus(r.zero, re));
    lemma_undo(r, r.zero, re);
    lemma_laws(r, r.minus(r.zero, re), re, re);
    lemma_laws(r, left, r.minus(r.zero, re), re);
    lemma_laws(r, re, r.minus(r.zero, re), re);
    lemma_cancel(r, left, re, r.minus(r.zero, re));
    lemma_cancels(r, d.at(y), se, b);
}

/// The square root of `2 / pi` does not change.
proof fn lemma_gelu_root<T, A: Arith<T>>(r: Ring<T>, d: Change<T>, c: T)
    requires
        d.follows::<A>(r),
        gelu_root::<T, A>(c),
    ensures
        d.at(c) == r.zero,
{
    let (two, pi, q) = choose|two: T, pi: T, q: T|
        {
            &&& #[trigger] is_ratio::<T, A>(2, 1, two)
            &&& #[trigger] is_ratio::<T, A>(3141592653589793, 1000000000000000, pi)
            &&& is_quotient::<T, A>(two, pi, q)
            &&& #[trigger] call_ensures(A::root, (q,), c)
        };
    lemma_constant::<T, A>(r, d, 2, 1, two);
    lemma_constant::<T, A>(r, d, 3141592653589793, 1000000000000000, pi);
    reveal(Change::rests);
}

/// GELU with the literal constant: what is recorded is the derivative of the value.
pub proof fn law_gelu_of_slope<T, A: Arith<T>>(r: Ring<T>, d: Change<T>, x: T, y: T, slope: T)
    requires
        exact::<T, A>(r),
        single::<T, A>(),
        d.follows::<A>(r),
        gelu_of::<T, A>(x, y),
        gelu_slope_of::<T, A>(x, slope),
    ensures
        d.at(y) == r.times(slope, d.at(x)),
{
    let (c, w) = choose|c: T, w: GeluSteps<T>|
        gelu_constant::<T, A>(c) && #[trigger] gelu_steps::<T, A>(c, x, w, y);
    let k = choose|k: T| gelu_constant::<T, A>(k) && #[trigger] gelu_slope_at::<T, A>(k, x, slope);
    assert(k == c) by {
        reveal(single);
    }
    lemma_constant::<T, A>(r, d, 7978846, 10000000, c);
    law_gelu_slope::<T, A>(r, d, c, x, w, y, slope);
}

/// GELU with the computed constant: what is recorded is the derivative of the value.
pub proof fn law_gelu_exact_slope<T, A: Arith<T>>(r: Ring<T>, d: Change<T>, x: T, y: T, slope: T)
    requires
        exact::<T, A>(r),
        single::<T, A>(),
        d.follows::<A>(r),
        gelu_exact_of::<T, A>(x, y),
        gelu_exact_slope_of::<T, A>(x, slope),
    ensures
        d.at(y) == r.times(slope, d.at(x)),
{
    let (c, w) = choose|c: T, w: GeluSteps<T>|
        gelu_root::<T, A>(c) && #[trigger] gelu_steps::<T, A>(c, x, w, y);
    let k = choose|k: T| gelu_root::<T, A>(k) && #[trigger] gelu_slope_at::<T, A>(k, x, slope);
    assert(k == c) by {
        reveal(single);
    }
    lemma_gelu_root::<T, A>(r, d, c);
    law_gelu_slope::<T, A>(r, d, c, x, w, y, slope);
}

/// The sigmoid has one value.
proof fn lemma_sigmoid_single<T, A: Arith<T>>(r: Ring<T>, x: T, y: T, z: T)
    requires
        r.computes::<A>(),
        single::<T, A>(),
        sigmoid_of::<T, A>(x, y),
        sigmoid_of::<T, A>(x, z),
    ensures
        y == z,
{
    reveal(single);
}

/// The sigmoid times one and the exponential of the opposite is one.
proof fn lemma_sigmoid_undone<T, A: Arith<T>>(r: Ring<T>, x: T, y: T, neg: T, decay: T)
    requires
        exact::<T, A>(r),
        single::<T, A>(),
        powers::<T, A>(r),
        sigmoid_of::<T, A>(x, y),
        call_ensures(A::negated, (x,), neg),
        call_ensures(A::exponential, (neg,), decay),
    ensures
        r.times(y, r.plus(r.one, decay)) == r.one,
        r.plus(r.one, decay) != r.zero,
{
    let w = choose|w: SigmoidSteps<T>| #[trigger] sigmoid_steps::<T, A>(x, w, y);
    assert(w.negated == neg && w.decay == decay) by {
        reveal(single);
    }
    assert(r.plus(r.one, decay) != r.zero) by {
        reveal(powers);
    }
    lemma_divides::<T, A>(r, r.one, w.below, y);
}

/// SiLU's derivative `s (1 + x - x s)`, with `s` the sigmoid, is the derivative of `s x`.
proof fn lemma_silu_change<T, A: Arith<T>>(r: Ring<T>, d: Change<T>, x: T, s: T, y: T, slope: T)
    requires
        exact::<T, A>(r),
        powers::<T, A>(r),
        d.follows::<A>(r),
        sigmoid_of::<T, A>(x, s),
        y == r.times(s, x),
        slope == r.plus(s, r.times(x, r.times(s, r.minus(r.one, s)))),
    ensures
        d.at(y) == r.times(slope, d.at(x)),
{
    let bell = r.times(s, r.minus(r.one, s));
    let e = d.at(x);
    law_sigmoid_slope::<T, A>(r, d, x, s, bell);
    lemma_change(r, d, s, x);
    lemma_turn(r, bell, e, x);
    lemma_laws(r, bell, x, x);
    lemma_spread(r, e, s, r.times(x, bell));
    lemma_laws(r, r.times(s, e), r.times(r.times(x, bell), e), e);
}

/// SiLU: what is recorded is the derivative of the value, in either form of the derivative.
pub proof fn law_silu_slope<T, A: Arith<T>>(r: Ring<T>, d: Change<T>, x: T, s: T, y: T, slope: T)
    requires
        exact::<T, A>(r),
        single::<T, A>(),
        powers::<T, A>(r),
        d.follows::<A>(r),
        silu_of::<T, A>(x, y) || silu_quotient_of::<T, A>(x, y) || silu_product_of::<T, A>(x, y),
        sigmoid_of::<T, A>(x, s),
        slope == r.plus(s, r.times(x, r.times(s, r.minus(r.one, s)))) || silu_slope_of::<T, A>(
            x,
            slope,
        ),
    ensures
        d.at(y) == r.times(slope, d.at(x)),
{
    if silu_of::<T, A>(x, y) {
        let v = choose|v: T| #[trigger] sigmoid_of::<T, A>(x, v) && is_product::<T, A>(v, x, y);
        lemma_sigmoid_single::<T, A>(r, x, v, s);
    } else if silu_product_of::<T, A>(x, y) {
        let v = choose|v: T| #[trigger] sigmoid_of::<T, A>(x, v) && is_product::<T, A>(x, v, y);
        lemma_sigmoid_single::<T, A>(r, x, v, s);
        lemma_laws(r, x, s, s);
    } else {
        let w = choose|w: SigmoidSteps<T>| #[trigger] silu_quotient_steps::<T, A>(x, w, y);
        lemma_sigmoid_undone::<T, A>(r, x, s, w.negated, w.decay);
        lemma_divides::<T, A>(r, x, w.below, y);
        lemma_turn(r, s, x, w.below);
        lemma_zero(r, x);
        lemma_laws(r, x, r.times(s, w.below), x);
        lemma_cancels(r, y, r.times(s, x), w.below);
    }
    assert(y == r.times(s, x));
    let form = r.plus(s, r.times(x, r.times(s, r.minus(r.one, s))));
    if slope != form {
        let w = choose|w: SiluSlopeSteps<T>| #[trigger] silu_slope_steps::<T, A>(x, w, slope);
        lemma_sigmoid_single::<T, A>(r, x, w.sigmoid, s);
        law_slope_forms(r, s, x);
    }
    lemma_silu_change::<T, A>(r, d, x, s, y, form);
}

/// Softplus where it is a logarithm: its derivative is the sigmoid.
pub proof fn law_softplus_slope<T, A: Arith<T>>(
    r: Ring<T>,
    d: Change<T>,
    x: T,
    y: T,
    slope: T,
)
    requires
        exact::<T, A>(r),
        single::<T, A>(),
        powers::<T, A>(r),
        d.follows::<A>(r),
        softplus_of::<T, A>(x, y),
        sigmoid_of::<T, A>(x, slope),
    ensures
        y == x || d.at(y) == r.times(slope, d.at(x)),
{
    if y != x {
        let (one, grown, total) = choose|one: T, grown: T, total: T|
            {
                &&& #[trigger] is_one::<T, A>(one)
                &&& #[trigger] call_ensures(A::exponential, (x,), grown)
                &&& is_sum::<T, A>(one, grown, total)
                &&& #[trigger] call_ensures(A::logarithm, (total,), y)
            };
        let w = choose|w: SigmoidSteps<T>| #[trigger] sigmoid_steps::<T, A>(x, w, slope);
        lemma_sigmoid_undone::<T, A>(r, x, slope, w.negated, w.decay);
        let e = d.at(x);
        let (s, b) = (slope, w.decay);
        lemma_negates::<T, A>(r, x, w.negated);
        lemma_laws(r, x, w.negated, w.negated);
        assert(r.times(grown, b) == r.one && total != r.zero) by {
            reveal(powers);
        }
        // total dy == grown e
        lemma_function::<T, A>(r, d, total, y);
        lemma_function::<T, A>(r, d, x, grown);
        lemma_change(r, d, r.one, grown);
        lemma_zero(r, r.times(grown, e));
        assert(r.times(total, d.at(y)) == r.times(grown, e));
        // s total == grown
        lemma_spread(r, grown, r.one, b);
        lemma_zero(r, grown);
        assert(r.times(grown, r.plus(r.one, b)) == r.plus(grown, r.one));
        lemma_laws(r, grown, r.one, r.one);
        assert(r.times(grown, r.plus(r.one, b)) == total);
        lemma_turn(r, s, grown, r.plus(r.one, b));
        lemma_turn(r, grown, s, r.plus(r.one, b));
        lemma_laws(r, s, grown, r.plus(r.one, b));
        lemma_laws(r, grown, s, r.plus(r.one, b));
        assert(r.times(s, total) == grown);
        lemma_laws(r, d.at(y), total, total);
        lemma_turn(r, s, e, total);
        lemma_laws(r, r.times(s, e), total, total);
        lemma_laws(r, s, total, e);
        lemma_cancels(r, d.at(y), r.times(s, e), total);
    }
}

/// The exponential, the tangent, the logarithm and the root change by their derivatives: the value,
/// one less its square, one over the argument and half of one over the value.
pub proof fn law_function_slopes<T, A: Arith<T>>(
    r: Ring<T>,
    d: Change<T>,
    x: T,
    y: T,
    slope: T,
    half: T,
)
    requires
        exact::<T, A>(r),
        d.follows::<A>(r),
        r.times(half, multiple(r, 2)) == r.one,
    ensures
        call_ensures(A::exponential, (x,), y) && slope == y ==> d.at(y) == r.times(slope, d.at(x)),
        call_ensures(A::tangent, (x,), y) && slope == r.minus(r.one, r.times(y, y)) ==> d.at(y)
            == r.times(slope, d.at(x)),
        call_ensures(A::logarithm, (x,), y) && r.times(slope, x) == r.one && x != r.zero
            ==> d.at(y) == r.times(slope, d.at(x)),
        call_ensures(A::root, (x,), y) && r.times(slope, y) == half && y != r.zero ==> d.at(y)
            == r.times(slope, d.at(x)),
{
    lemma_function::<T, A>(r, d, x, y);
    let e = d.at(x);
    if call_ensures(A::logarithm, (x,), y) && r.times(slope, x) == r.one && x != r.zero {
        lemma_turn(r, slope, e, x);
        lemma_laws(r, e, r.one, e);
        lemma_zero(r, e);
        lemma_laws(r, x, d.at(y), e);
        lemma_cancels(r, d.at(y), r.times(slope, e), x);
    }
    if call_ensures(A::root, (x,), y) && r.times(slope, y) == half && y != r.zero {
        lemma_squares_back::<T, A>(r, x, y);
        lemma_change(r, d, y, y);
        let dy = d.at(y);
        let t = r.times(dy, y);
        lemma_laws(r, dy, y, y);
        assert(e == r.plus(t, t));
        reveal_with_fuel(multiple, 3);
        lemma_zero(r, r.one);
        let two = r.plus(r.one, r.one);
        assert(multiple(r, 2) == two);
        lemma_spread(r, t, r.one, r.one);
        lemma_zero(r, t);
        assert(r.times(two, t) == e);
        // half e == t
        lemma_laws(r, half, two, t);
        assert(r.times(half, e) == t);
        lemma_turn(r, slope, e, y);
        lemma_laws(r, e, half, e);
        lemma_cancels(r, dy, r.times(slope, e), y);
    }
}

} // verus!
