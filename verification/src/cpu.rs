//! Elementwise arithmetic on tensors.
use vstd::prelude::*;

use crate::dtype::Dtype;
use crate::elementwise::{
    binary_error, binary_f32, binary_f32_error, binary_float, binary_value, lemma_binary_weaken,
    lemma_unary_weaken, map_float, unary_error, unary_value,
};
use crate::error::Error;
use crate::index::volume;
use crate::scalar::{
    adding, dividing, is_difference, is_product, is_quotient, is_ratio, is_sum, is_zero,
    multiplying, subtracting, Arith, Scalars,
};
use crate::tensor::{unique_error, Tensor, TensorModel, Model, Outcome, outcome};
use crate::unary::relu;

verus! {

/// Why an arithmetic op was refused.
pub open spec fn arith_error<F, D>(
    e: Error,
    op: Seq<char>,
    a: TensorModel<F, D>,
    b: TensorModel<F, D>,
) -> bool {
    if a.dtype() == Dtype::F32 && b.dtype() == Dtype::F32 {
        binary_f32_error(e, op, a, b)
    } else {
        binary_error(e, op, a, b)
    }
}

/// The value of an arithmetic op.
pub open spec fn arith_value<S: Scalars>(
    a: TensorModel<S::F, S::D>,
    b: TensorModel<S::F, S::D>,
    rel32: spec_fn(S::F, S::F, S::F) -> bool,
    rel64: spec_fn(S::D, S::D, S::D) -> bool,
    r: TensorModel<S::F, S::D>,
) -> bool {
    &&& a.dtype() == b.dtype()
    &&& a.dtype() == Dtype::F32 || a.device == b.device
    &&& binary_value::<S>(a, b, rel32, rel64, r)
}

/// What `add` comes to.
pub open spec fn add_out<S: Scalars>(a: Model<S>, b: Model<S>, r: Outcome<S>) -> bool {
    match r {
        Ok(t) => arith_value::<S>(
            a,
            b,
            adding::<S::F, S>(),
            adding::<S::D, S>(),
            t,
        ),
        Err(e) => arith_error(e, "add"@, a, b),
    }
}

/// Elementwise `a + b` with broadcasting.
pub fn add<S: Scalars>(a: &Tensor<S>, b: &Tensor<S>) -> (r: Result<Tensor<S>, Error>)
    ensures
        add_out::<S>(a@, b@, outcome(r)),
{
    let f = |x: S::F, y: S::F| -> (z: S::F)
        ensures
            is_sum::<S::F, S>(x, y, z)
    {
        <S as Arith<S::F>>::plus(x, y)
    };
    let g = |x: S::D, y: S::D| -> (z: S::D)
        ensures
            is_sum::<S::D, S>(x, y, z)
    {
        <S as Arith<S::D>>::plus(x, y)
    };
    if a.dtype() == Dtype::F32 && b.dtype() == Dtype::F32 {
        let r: Result<Tensor<S>, Error> = binary_f32("add", a, b, f);
        proof {
            if r is Ok {
                lemma_binary_weaken::<S>(
                    a@,
                    b@,
                    |x: S::F, y: S::F, z: S::F| call_ensures(f, (x, y), z),
                    |x: S::D, y: S::D, z: S::D| false,
                    adding::<S::F, S>(),
                    adding::<S::D, S>(),
                    r->Ok_0@,
                );
            }
        }
        return r;
    }
    let r: Result<Tensor<S>, Error> = binary_float("add", a, b, f, g);
    proof {
        if r is Ok {
            lemma_binary_weaken::<S>(
                a@,
                b@,
                |x: S::F, y: S::F, z: S::F| call_ensures(f, (x, y), z),
                |x: S::D, y: S::D, z: S::D| call_ensures(g, (x, y), z),
                adding::<S::F, S>(),
                adding::<S::D, S>(),
                r->Ok_0@,
            );
        }
    }
    r
}

/// What `sub` comes to.
pub open spec fn sub_out<S: Scalars>(a: Model<S>, b: Model<S>, r: Outcome<S>) -> bool {
    match r {
        Ok(t) => arith_value::<S>(
            a,
            b,
            subtracting::<S::F, S>(),
            subtracting::<S::D, S>(),
            t,
        ),
        Err(e) => arith_error(e, "sub"@, a, b),
    }
}

/// Elementwise `a - b` with broadcasting.
pub fn sub<S: Scalars>(a: &Tensor<S>, b: &Tensor<S>) -> (r: Result<Tensor<S>, Error>)
    ensures
        sub_out::<S>(a@, b@, outcome(r)),
{
    let f = |x: S::F, y: S::F| -> (z: S::F)
        ensures
            is_difference::<S::F, S>(x, y, z)
    {
        <S as Arith<S::F>>::minus(x, y)
    };
    let g = |x: S::D, y: S::D| -> (z: S::D)
        ensures
            is_difference::<S::D, S>(x, y, z)
    {
        <S as Arith<S::D>>::minus(x, y)
    };
    if a.dtype() == Dtype::F32 && b.dtype() == Dtype::F32 {
        let r: Result<Tensor<S>, Error> = binary_f32("sub", a, b, f);
        proof {
            if r is Ok {
                lemma_binary_weaken::<S>(
                    a@,
                    b@,
                    |x: S::F, y: S::F, z: S::F| call_ensures(f, (x, y), z),
                    |x: S::D, y: S::D, z: S::D| false,
                    subtracting::<S::F, S>(),
                    subtracting::<S::D, S>(),
                    r->Ok_0@,
                );
            }
        }
        return r;
    }
    let r: Result<Tensor<S>, Error> = binary_float("sub", a, b, f, g);
    proof {
        if r is Ok {
            lemma_binary_weaken::<S>(
                a@,
                b@,
                |x: S::F, y: S::F, z: S::F| call_ensures(f, (x, y), z),
                |x: S::D, y: S::D, z: S::D| call_ensures(g, (x, y), z),
                subtracting::<S::F, S>(),
                subtracting::<S::D, S>(),
                r->Ok_0@,
            );
        }
    }
    r
}

/// What `mul` comes to.
pub open spec fn mul_out<S: Scalars>(a: Model<S>, b: Model<S>, r: Outcome<S>) -> bool {
    match r {
        Ok(t) => arith_value::<S>(
            a,
            b,
            multiplying::<S::F, S>(),
            multiplying::<S::D, S>(),
            t,
        ),
        Err(e) => arith_error(e, "mul"@, a, b),
    }
}

/// Elementwise `a * b` with broadcasting.
pub fn mul<S: Scalars>(a: &Tensor<S>, b: &Tensor<S>) -> (r: Result<Tensor<S>, Error>)
    ensures
        mul_out::<S>(a@, b@, outcome(r)),
{
    let f = |x: S::F, y: S::F| -> (z: S::F)
        ensures
            is_product::<S::F, S>(x, y, z)
    {
        <S as Arith<S::F>>::times(x, y)
    };
    let g = |x: S::D, y: S::D| -> (z: S::D)
        ensures
            is_product::<S::D, S>(x, y, z)
    {
        <S as Arith<S::D>>::times(x, y)
    };
    if a.dtype() == Dtype::F32 && b.dtype() == Dtype::F32 {
        let r: Result<Tensor<S>, Error> = binary_f32("mul", a, b, f);
        proof {
            if r is Ok {
                lemma_binary_weaken::<S>(
                    a@,
                    b@,
                    |x: S::F, y: S::F, z: S::F| call_ensures(f, (x, y), z),
                    |x: S::D, y: S::D, z: S::D| false,
                    multiplying::<S::F, S>(),
                    multiplying::<S::D, S>(),
                    r->Ok_0@,
                );
            }
        }
        return r;
    }
    let r: Result<Tensor<S>, Error> = binary_float("mul", a, b, f, g);
    proof {
        if r is Ok {
            lemma_binary_weaken::<S>(
                a@,
                b@,
                |x: S::F, y: S::F, z: S::F| call_ensures(f, (x, y), z),
                |x: S::D, y: S::D, z: S::D| call_ensures(g, (x, y), z),
                multiplying::<S::F, S>(),
                multiplying::<S::D, S>(),
                r->Ok_0@,
            );
        }
    }
    r
}

/// What `div` comes to.
pub open spec fn div_out<S: Scalars>(a: Model<S>, b: Model<S>, r: Outcome<S>) -> bool {
    match r {
        Ok(t) => arith_value::<S>(
            a,
            b,
            dividing::<S::F, S>(),
            dividing::<S::D, S>(),
            t,
        ),
        Err(e) => arith_error(e, "div"@, a, b),
    }
}

/// Elementwise `a / b` with broadcasting.
pub fn div<S: Scalars>(a: &Tensor<S>, b: &Tensor<S>) -> (r: Result<Tensor<S>, Error>)
    ensures
        div_out::<S>(a@, b@, outcome(r)),
{
    let f = |x: S::F, y: S::F| -> (z: S::F)
        ensures
            is_quotient::<S::F, S>(x, y, z)
    {
        <S as Arith<S::F>>::over(x, y)
    };
    let g = |x: S::D, y: S::D| -> (z: S::D)
        ensures
            is_quotient::<S::D, S>(x, y, z)
    {
        <S as Arith<S::D>>::over(x, y)
    };
    if a.dtype() == Dtype::F32 && b.dtype() == Dtype::F32 {
        let r: Result<Tensor<S>, Error> = binary_f32("div", a, b, f);
        proof {
            if r is Ok {
                lemma_binary_weaken::<S>(
                    a@,
                    b@,
                    |x: S::F, y: S::F, z: S::F| call_ensures(f, (x, y), z),
                    |x: S::D, y: S::D, z: S::D| false,
                    dividing::<S::F, S>(),
                    dividing::<S::D, S>(),
                    r->Ok_0@,
                );
            }
        }
        return r;
    }
    let r: Result<Tensor<S>, Error> = binary_float("div", a, b, f, g);
    proof {
        if r is Ok {
            lemma_binary_weaken::<S>(
                a@,
                b@,
                |x: S::F, y: S::F, z: S::F| call_ensures(f, (x, y), z),
                |x: S::D, y: S::D, z: S::D| call_ensures(g, (x, y), z),
                dividing::<S::F, S>(),
                dividing::<S::D, S>(),
                r->Ok_0@,
            );
        }
    }
    r
}

/// `y` is `x` times `s`, brought to 32 bits.
pub open spec fn scaled_f32<S: Scalars>(s: S::D) -> spec_fn(S::F, S::F) -> bool {
    |x: S::F, y: S::F|
        exists|c: S::F| #[trigger]
            call_ensures(S::narrow, (s,), c) && is_product::<S::F, S>(x, c, y)
}

/// `y` is `x` times `s`.
pub open spec fn scaled_f64<S: Scalars>(s: S::D) -> spec_fn(S::D, S::D) -> bool {
    |x: S::D, y: S::D| is_product::<S::D, S>(x, s, y)
}

/// What `mul_scalar` comes to.
pub open spec fn mul_scalar_out<S: Scalars>(a: Model<S>, s: S::D, r: Outcome<S>) -> bool {
    match r {
        Ok(t) => unary_value::<S>(a, scaled_f32::<S>(s), scaled_f64::<S>(s), t),
        Err(e) => unary_error(e, "mul_scalar"@, a),
    }
}

/// Elementwise `a * s`.
pub fn mul_scalar<S: Scalars>(a: &Tensor<S>, s: S::D) -> (r: Result<Tensor<S>, Error>)
    ensures
        mul_scalar_out::<S>(a@, s, outcome(r)),
{
    let f = |x: S::F| -> (y: S::F)
        ensures
            (scaled_f32::<S>(s))(x, y)
    {
        let c: S::F = S::narrow(s);
        <S as Arith<S::F>>::times(x, c)
    };
    let g = |x: S::D| -> (y: S::D)
        ensures
            (scaled_f64::<S>(s))(x, y)
    {
        <S as Arith<S::D>>::times(x, s)
    };
    let r: Result<Tensor<S>, Error> = map_float("mul_scalar", a, f, g);
    proof {
        if r is Ok {
            lemma_unary_weaken::<S>(
                a@,
                |v: S::F, y: S::F| call_ensures(f, (v,), y),
                |v: S::D, y: S::D| call_ensures(g, (v,), y),
                scaled_f32::<S>(s),
                scaled_f64::<S>(s),
                r->Ok_0@,
            );
        }
    }
    r
}

/// What `neg` comes to.
pub open spec fn neg_out<S: Scalars>(a: Model<S>, r: Outcome<S>) -> bool {
    match r {
        Ok(t) => exists|s: S::D| #[trigger]
            is_ratio::<S::D, S>(-1i64, 1, s) && unary_value::<S>(
                a,
                scaled_f32::<S>(s),
                scaled_f64::<S>(s),
                t,
            ),
        Err(e) => unary_error(e, "mul_scalar"@, a),
    }
}

/// Elementwise `-a`.
pub fn neg<S: Scalars>(a: &Tensor<S>) -> (r: Result<Tensor<S>, Error>)
    ensures
        neg_out::<S>(a@, outcome(r)),
{
    let s: S::D = <S as Arith<S::D>>::ratio(-1, 1);
    assert(is_ratio::<S::D, S>(-1i64, 1, s));
    mul_scalar(a, s)
}

/// What `square` comes to.
pub open spec fn square_out<S: Scalars>(a: Model<S>, r: Outcome<S>) -> bool {
    match r {
        Ok(t) => arith_value::<S>(
            a,
            a,
            multiplying::<S::F, S>(),
            multiplying::<S::D, S>(),
            t,
        ),
        Err(e) => arith_error(e, "mul"@, a, a),
    }
}

/// Elementwise `a * a`.
pub fn square<S: Scalars>(a: &Tensor<S>) -> (r: Result<Tensor<S>, Error>)
    ensures
        square_out::<S>(a@, outcome(r)),
{
    self::mul(a, a)
}

/// `y` is `x` where it is at least zero, and `x` times the slope elsewhere.
pub open spec fn leaky_f32<S: Scalars>(slope: S::D) -> spec_fn(S::F, S::F) -> bool {
    |x: S::F, y: S::F|
        exists|z: S::F, up: bool|
            {
                &&& #[trigger] is_zero::<S::F, S>(z)
                &&& #[trigger] call_ensures(<S as Arith<S::F>>::at_least, (x, z), up)
                &&& if up {
                    y == x
                } else {
                    scaled_f32::<S>(slope)(x, y)
                }
            }
}

/// `y` is `x` where it is at least zero, and `x` times the slope elsewhere.
pub open spec fn leaky_f64<S: Scalars>(slope: S::D) -> spec_fn(S::D, S::D) -> bool {
    |x: S::D, y: S::D|
        exists|z: S::D, up: bool|
            {
                &&& #[trigger] is_zero::<S::D, S>(z)
                &&& #[trigger] call_ensures(<S as Arith<S::D>>::at_least, (x, z), up)
                &&& if up {
                    y == x
                } else {
                    is_product::<S::D, S>(x, slope, y)
                }
            }
}

/// What `leaky_relu` comes to.
pub open spec fn leaky_relu_out<S: Scalars>(a: Model<S>, slope: S::D, r: Outcome<S>) -> bool {
    match r {
        Ok(t) => unary_value::<S>(a, leaky_f32::<S>(slope), leaky_f64::<S>(slope), t),
        Err(e) => unary_error(e, "leaky_relu"@, a),
    }
}

/// Elementwise leaky ReLU with the given negative slope.
pub fn leaky_relu<S: Scalars>(a: &Tensor<S>, slope: S::D) -> (r: Result<Tensor<S>, Error>)
    ensures
        leaky_relu_out::<S>(a@, slope, outcome(r)),
{
    let f = |x: S::F| -> (y: S::F)
        ensures
            (leaky_f32::<S>(slope))(x, y)
    {
        let z: S::F = <S as Arith<S::F>>::zero();
        assert(is_zero::<S::F, S>(z));
        if <S as Arith<S::F>>::at_least(x, z) {
            x
        } else {
            let c: S::F = S::narrow(slope);
            <S as Arith<S::F>>::times(x, c)
        }
    };
    let g = |x: S::D| -> (y: S::D)
        ensures
            (leaky_f64::<S>(slope))(x, y)
    {
        let z: S::D = <S as Arith<S::D>>::zero();
        assert(is_zero::<S::D, S>(z));
        if <S as Arith<S::D>>::at_least(x, z) {
            x
        } else {
            <S as Arith<S::D>>::times(x, slope)
        }
    };
    let r: Result<Tensor<S>, Error> = map_float("leaky_relu", a, f, g);
    proof {
        if r is Ok {
            lemma_unary_weaken::<S>(
                a@,
                |v: S::F, y: S::F| call_ensures(f, (v,), y),
                |v: S::D, y: S::D| call_ensures(g, (v,), y),
                leaky_f32::<S>(slope),
                leaky_f64::<S>(slope),
                r->Ok_0@,
            );
        }
    }
    r
}

/// `y` is `x` held between the bounds, brought to 32 bits.
pub open spec fn clamped_f32<S: Scalars>(min: S::D, max: S::D) -> spec_fn(S::F, S::F) -> bool {
    |x: S::F, y: S::F|
        exists|lo: S::F, hi: S::F|
            {
                &&& #[trigger] call_ensures(S::narrow, (min,), lo)
                &&& #[trigger] call_ensures(S::narrow, (max,), hi)
                &&& call_ensures(<S as Arith<S::F>>::held, (x, lo, hi), y)
            }
}

/// `y` is `x` held between the bounds.
pub open spec fn clamped_f64<S: Scalars>(min: S::D, max: S::D) -> spec_fn(S::D, S::D) -> bool {
    |x: S::D, y: S::D| call_ensures(<S as Arith<S::D>>::held, (x, min, max), y)
}

/// What `clamp` comes to.
pub open spec fn clamp_out<S: Scalars>(a: Model<S>, min: S::D, max: S::D, r: Outcome<S>) -> bool {
    match r {
        Ok(t) => unary_value::<S>(a, clamped_f32::<S>(min, max), clamped_f64::<S>(min, max), t),
        Err(e) => unary_error(e, "clamp"@, a),
    }
}

/// There is something to hold between the bounds only where the upper one is at least the lower.
pub open spec fn bounds_ready<S: Scalars>(a: Model<S>, min: S::D, max: S::D) -> bool {
    a.dtype().floating() && volume(a.shape) > 0 ==> call_ensures(
        <S as Arith<S::D>>::at_least,
        (max, min),
        true,
    )
}

/// Elementwise clamp to `[min, max]`.
pub fn clamp<S: Scalars>(a: &Tensor<S>, min: S::D, max: S::D) -> (r: Result<Tensor<S>, Error>)
    requires
        bounds_ready::<S>(a@, min, max),
    ensures
        clamp_out::<S>(a@, min, max, outcome(r)),
{
    let f = |x: S::F| -> (y: S::F)
        ensures
            (clamped_f32::<S>(min, max))(x, y)
    {
        let lo: S::F = S::narrow(min);
        let hi: S::F = S::narrow(max);
        <S as Arith<S::F>>::held(x, lo, hi)
    };
    let g = |x: S::D| -> (y: S::D)
        ensures
            (clamped_f64::<S>(min, max))(x, y)
    {
        <S as Arith<S::D>>::held(x, min, max)
    };
    let r: Result<Tensor<S>, Error> = map_float("clamp", a, f, g);
    proof {
        if r is Ok {
            lemma_unary_weaken::<S>(
                a@,
                |v: S::F, y: S::F| call_ensures(f, (v,), y),
                |v: S::D, y: S::D| call_ensures(g, (v,), y),
                clamped_f32::<S>(min, max),
                clamped_f64::<S>(min, max),
                r->Ok_0@,
            );
        }
    }
    r
}

/// The 32-bit power `pf` was found equal to `n / d`, or not.
pub open spec fn power_is<S: Scalars>(pf: S::F, n: i64, d: i64, yes: bool) -> bool {
    exists|c: S::F| #[trigger]
        is_ratio::<S::F, S>(n, d, c) && call_ensures(<S as Arith<S::F>>::same, (pf, c), yes)
}

/// `y` is `x` to the power `pf`. The square and the square root have ways of their own.
pub open spec fn power_f32<S: Scalars>(p: S::D) -> spec_fn(S::F, S::F) -> bool {
    |x: S::F, y: S::F|
        exists|pf: S::F| #[trigger]
            call_ensures(S::narrow, (p,), pf) && {
                ||| power_is::<S>(pf, 2, 1, true) && is_product::<S::F, S>(x, x, y)
                ||| power_is::<S>(pf, 2, 1, false) && power_is::<S>(pf, 1, 2, true) && call_ensures(
                    <S as Arith<S::F>>::root,
                    (x,),
                    y,
                )
                ||| power_is::<S>(pf, 2, 1, false) && power_is::<S>(pf, 1, 2, false)
                    && call_ensures(<S as Arith<S::F>>::power, (x, pf), y)
            }
}

/// `y` is `x` to the power `p`.
pub open spec fn power_f64<S: Scalars>(p: S::D) -> spec_fn(S::D, S::D) -> bool {
    |x: S::D, y: S::D| call_ensures(<S as Arith<S::D>>::power, (x, p), y)
}

/// What `pow_scalar` comes to.
pub open spec fn pow_scalar_out<S: Scalars>(a: Model<S>, p: S::D, r: Outcome<S>) -> bool {
    match r {
        Ok(t) => unary_value::<S>(a, power_f32::<S>(p), power_f64::<S>(p), t),
        Err(e) => unary_error(e, "pow"@, a),
    }
}

/// Elementwise `a^p` for scalar `p`.
pub fn pow_scalar<S: Scalars>(a: &Tensor<S>, p: S::D) -> (r: Result<Tensor<S>, Error>)
    ensures
        pow_scalar_out::<S>(a@, p, outcome(r)),
{
    let f = |x: S::F| -> (y: S::F)
        ensures
            (power_f32::<S>(p))(x, y)
    {
        let pf: S::F = S::narrow(p);
        let two: S::F = <S as Arith<S::F>>::ratio(2, 1);
        assert(is_ratio::<S::F, S>(2, 1, two));
        if <S as Arith<S::F>>::same(pf, two) {
            return <S as Arith<S::F>>::times(x, x);
        }
        let half: S::F = <S as Arith<S::F>>::ratio(1, 2);
        assert(is_ratio::<S::F, S>(1, 2, half));
        if <S as Arith<S::F>>::same(pf, half) {
            return <S as Arith<S::F>>::root(x);
        }
        <S as Arith<S::F>>::power(x, pf)
    };
    let g = |x: S::D| -> (y: S::D)
        ensures
            (power_f64::<S>(p))(x, y)
    {
        <S as Arith<S::D>>::power(x, p)
    };
    let r: Result<Tensor<S>, Error> = map_float("pow", a, f, g);
    proof {
        if r is Ok {
            lemma_unary_weaken::<S>(
                a@,
                |v: S::F, y: S::F| call_ensures(f, (v,), y),
                |v: S::D, y: S::D| call_ensures(g, (v,), y),
                power_f32::<S>(p),
                power_f64::<S>(p),
                r->Ok_0@,
            );
        }
    }
    r
}

/// Whether the kernels call a vendor's accelerated library. They do not.
pub fn accelerate_enabled() -> (r: bool)
    ensures
        !r,
{
    false
}

/// Replaces `x` by its ReLU, where its buffer has `count` handles.
pub fn relu_inplace_among<S: Scalars>(x: &mut Tensor<S>, count: usize) -> (r: Result<(), Error>)
    ensures
        r is Ok ==> count == 1 && old(x)@.grad_fn is None && !old(x)@.in_graph && unary_value::<S>(
            old(x)@,
            crate::unary::relu_rel::<S::F, S>(),
            crate::unary::relu_rel::<S::D, S>(),
            final(x)@,
        ),
        r matches Err(e) ==> final(x)@ == old(x)@ && if count == 1 && old(x)@.grad_fn is None
            && !old(x)@.in_graph {
            unary_error(e, "relu"@, old(x)@)
        } else {
            unique_error(e, "relu_inplace"@)
        },
{
    match x.require_unique_among("relu_inplace", count) {
        Ok(_) => {},
        Err(e) => {
            return Err(e);
        },
    }
    match relu(&*x) {
        Ok(t) => {
            *x = t;
            Ok(())
        },
        Err(e) => Err(e),
    }
}

/// Replaces `x` by its ReLU. Needs a buffer that nothing else holds.
pub fn relu_inplace<S: Scalars>(x: &mut Tensor<S>) -> (r: Result<(), Error>)
    ensures
        r is Ok ==> old(x)@.grad_fn is None && !old(x)@.in_graph && unary_value::<S>(
            old(x)@,
            crate::unary::relu_rel::<S::F, S>(),
            crate::unary::relu_rel::<S::D, S>(),
            final(x)@,
        ),
        r matches Err(e) ==> final(x)@ == old(x)@ && (unique_error(e, "relu_inplace"@)
            || unary_error(e, "relu"@, old(x)@)),
        r is Err && old(x)@.in_graph ==> unique_error(r->Err_0, "relu_inplace"@),
{
    let count: usize = x.handle_count();
    relu_inplace_among(x, count)
}

} // verus!
