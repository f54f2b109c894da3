//! Elementwise functions of one tensor.
use vstd::prelude::*;

use crate::elementwise::{lemma_unary_weaken, map_float, unary_error, unary_value};
use crate::error::Error;
use crate::scalar::{is_one, is_product, is_quotient, is_ratio, is_sum, is_zero, Arith, Scalars};
use crate::tensor::{Tensor, Model, Outcome, outcome};

verus! {

/// `y` is the absolute value of `x`.
pub open spec fn abs_of<T, A: Arith<T>>(x: T, y: T) -> bool {
    call_ensures(A::magnitude, (x,), y)
}

/// [`abs_of`] as a relation.
pub open spec fn abs_rel<T, A: Arith<T>>() -> spec_fn(T, T) -> bool {
    |x: T, y: T| abs_of::<T, A>(x, y)
}

fn abs_scalar<T: Copy, A: Arith<T>>(x: T) -> (y: T)
    ensures
        abs_of::<T, A>(x, y),
{
    A::magnitude(x)
}

/// What `abs` comes to.
pub open spec fn abs_out<S: Scalars>(a: Model<S>, r: Outcome<S>) -> bool {
    match r {
        Ok(t) => unary_value::<S>(
            a,
            abs_rel::<S::F, S>(),
            abs_rel::<S::D, S>(),
            t,
        ),
        Err(e) => unary_error(e, "abs"@, a),
    }
}

/// Elementwise absolute value.
pub fn abs<S: Scalars>(a: &Tensor<S>) -> (r: Result<Tensor<S>, Error>)
    ensures
        abs_out::<S>(a@, outcome(r)),
{
    let f = |x: S::F| -> (y: S::F)
        ensures
            abs_of::<S::F, S>(x, y)
    {
        abs_scalar::<S::F, S>(x)
    };
    let g = |x: S::D| -> (y: S::D)
        ensures
            abs_of::<S::D, S>(x, y)
    {
        abs_scalar::<S::D, S>(x)
    };
    let r: Result<Tensor<S>, Error> = map_float("abs", a, f, g);
    proof {
        if r is Ok {
            let t = r->Ok_0;
            lemma_unary_weaken::<S>(
                a@,
                |v: S::F, y: S::F| call_ensures(f, (v,), y),
                |v: S::D, y: S::D| call_ensures(g, (v,), y),
                abs_rel::<S::F, S>(),
                abs_rel::<S::D, S>(),
                t@,
            );
        }
    }
    r
}

/// `y` is the exponential of `x`.
pub open spec fn exp_of<T, A: Arith<T>>(x: T, y: T) -> bool {
    call_ensures(A::exponential, (x,), y)
}

/// [`exp_of`] as a relation.
pub open spec fn exp_rel<T, A: Arith<T>>() -> spec_fn(T, T) -> bool {
    |x: T, y: T| exp_of::<T, A>(x, y)
}

fn exp_scalar<T: Copy, A: Arith<T>>(x: T) -> (y: T)
    ensures
        exp_of::<T, A>(x, y),
{
    A::exponential(x)
}

/// What `exp` comes to.
pub open spec fn exp_out<S: Scalars>(a: Model<S>, r: Outcome<S>) -> bool {
    match r {
        Ok(t) => unary_value::<S>(
            a,
            exp_rel::<S::F, S>(),
            exp_rel::<S::D, S>(),
            t,
        ),
        Err(e) => unary_error(e, "exp"@, a),
    }
}

/// Elementwise natural exponential.
pub fn exp<S: Scalars>(a: &Tensor<S>) -> (r: Result<Tensor<S>, Error>)
    ensures
        exp_out::<S>(a@, outcome(r)),
{
    let f = |x: S::F| -> (y: S::F)
        ensures
            exp_of::<S::F, S>(x, y)
    {
        exp_scalar::<S::F, S>(x)
    };
    let g = |x: S::D| -> (y: S::D)
        ensures
            exp_of::<S::D, S>(x, y)
    {
        exp_scalar::<S::D, S>(x)
    };
    let r: Result<Tensor<S>, Error> = map_float("exp", a, f, g);
    proof {
        if r is Ok {
            let t = r->Ok_0;
            lemma_unary_weaken::<S>(
                a@,
                |v: S::F, y: S::F| call_ensures(f, (v,), y),
                |v: S::D, y: S::D| call_ensures(g, (v,), y),
                exp_rel::<S::F, S>(),
                exp_rel::<S::D, S>(),
                t@,
            );
        }
    }
    r
}

/// `y` is the natural logarithm of `x`.
pub open spec fn log_of<T, A: Arith<T>>(x: T, y: T) -> bool {
    call_ensures(A::logarithm, (x,), y)
}

/// [`log_of`] as a relation.
pub open spec fn log_rel<T, A: Arith<T>>() -> spec_fn(T, T) -> bool {
    |x: T, y: T| log_of::<T, A>(x, y)
}

fn log_scalar<T: Copy, A: Arith<T>>(x: T) -> (y: T)
    ensures
        log_of::<T, A>(x, y),
{
    A::logarithm(x)
}

/// What `log` comes to.
pub open spec fn log_out<S: Scalars>(a: Model<S>, r: Outcome<S>) -> bool {
    match r {
        Ok(t) => unary_value::<S>(
            a,
            log_rel::<S::F, S>(),
            log_rel::<S::D, S>(),
            t,
        ),
        Err(e) => unary_error(e, "log"@, a),
    }
}

/// Elementwise natural logarithm.
pub fn log<S: Scalars>(a: &Tensor<S>) -> (r: Result<Tensor<S>, Error>)
    ensures
        log_out::<S>(a@, outcome(r)),
{
    let f = |x: S::F| -> (y: S::F)
        ensures
            log_of::<S::F, S>(x, y)
    {
        log_scalar::<S::F, S>(x)
    };
    let g = |x: S::D| -> (y: S::D)
        ensures
            log_of::<S::D, S>(x, y)
    {
        log_scalar::<S::D, S>(x)
    };
    let r: Result<Tensor<S>, Error> = map_float("log", a, f, g);
    proof {
        if r is Ok {
            let t = r->Ok_0;
            lemma_unary_weaken::<S>(
                a@,
                |v: S::F, y: S::F| call_ensures(f, (v,), y),
                |v: S::D, y: S::D| call_ensures(g, (v,), y),
                log_rel::<S::F, S>(),
                log_rel::<S::D, S>(),
                t@,
            );
        }
    }
    r
}

/// `y` is the square root of `x`.
pub open spec fn sqrt_of<T, A: Arith<T>>(x: T, y: T) -> bool {
    call_ensures(A::root, (x,), y)
}

/// [`sqrt_of`] as a relation.
pub open spec fn sqrt_rel<T, A: Arith<T>>() -> spec_fn(T, T) -> bool {
    |x: T, y: T| sqrt_of::<T, A>(x, y)
}

fn sqrt_scalar<T: Copy, A: Arith<T>>(x: T) -> (y: T)
    ensures
        sqrt_of::<T, A>(x, y),
{
    A::root(x)
}

/// What `sqrt` comes to.
pub open spec fn sqrt_out<S: Scalars>(a: Model<S>, r: Outcome<S>) -> bool {
    match r {
        Ok(t) => unary_value::<S>(
            a,
            sqrt_rel::<S::F, S>(),
            sqrt_rel::<S::D, S>(),
            t,
        ),
        Err(e) => unary_error(e, "sqrt"@, a),
    }
}

/// Elementwise square root.
pub fn sqrt<S: Scalars>(a: &Tensor<S>) -> (r: Result<Tensor<S>, Error>)
    ensures
        sqrt_out::<S>(a@, outcome(r)),
{
    let f = |x: S::F| -> (y: S::F)
        ensures
            sqrt_of::<S::F, S>(x, y)
    {
        sqrt_scalar::<S::F, S>(x)
    };
    let g = |x: S::D| -> (y: S::D)
        ensures
            sqrt_of::<S::D, S>(x, y)
    {
        sqrt_scalar::<S::D, S>(x)
    };
    let r: Result<Tensor<S>, Error> = map_float("sqrt", a, f, g);
    proof {
        if r is Ok {
            let t = r->Ok_0;
            lemma_unary_weaken::<S>(
                a@,
                |v: S::F, y: S::F| call_ensures(f, (v,), y),
                |v: S::D, y: S::D| call_ensures(g, (v,), y),
                sqrt_rel::<S::F, S>(),
                sqrt_rel::<S::D, S>(),
                t@,
            );
        }
    }
    r
}

/// `y` is the hyperbolic tangent of `x`.
pub open spec fn tanh_of<T, A: Arith<T>>(x: T, y: T) -> bool {
    call_ensures(A::tangent, (x,), y)
}

/// [`tanh_of`] as a relation.
pub open spec fn tanh_rel<T, A: Arith<T>>() -> spec_fn(T, T) -> bool {
    |x: T, y: T| tanh_of::<T, A>(x, y)
}

fn tanh_scalar<T: Copy, A: Arith<T>>(x: T) -> (y: T)
    ensures
        tanh_of::<T, A>(x, y),
{
    A::tangent(x)
}

/// What `tanh` comes to.
pub open spec fn tanh_out<S: Scalars>(a: Model<S>, r: Outcome<S>) -> bool {
    match r {
        Ok(t) => unary_value::<S>(
            a,
            tanh_rel::<S::F, S>(),
            tanh_rel::<S::D, S>(),
            t,
        ),
        Err(e) => unary_error(e, "tanh"@, a),
    }
}

/// Elementwise hyperbolic tangent.
pub fn tanh<S: Scalars>(a: &Tensor<S>) -> (r: Result<Tensor<S>, Error>)
    ensures
        tanh_out::<S>(a@, outcome(r)),
{
    let f = |x: S::F| -> (y: S::F)
        ensures
            tanh_of::<S::F, S>(x, y)
    {
        tanh_scalar::<S::F, S>(x)
    };
    let g = |x: S::D| -> (y: S::D)
        ensures
            tanh_of::<S::D, S>(x, y)
    {
        tanh_scalar::<S::D, S>(x)
    };
    let r: Result<Tensor<S>, Error> = map_float("tanh", a, f, g);
    proof {
        if r is Ok {
            let t = r->Ok_0;
            lemma_unary_weaken::<S>(
                a@,
                |v: S::F, y: S::F| call_ensures(f, (v,), y),
                |v: S::D, y: S::D| call_ensures(g, (v,), y),
                tanh_rel::<S::F, S>(),
                tanh_rel::<S::D, S>(),
                t@,
            );
        }
    }
    r
}

/// `y` is the greater of `x` and zero.
pub open spec fn relu_of<T, A: Arith<T>>(x: T, y: T) -> bool {
    exists|z: T| #[trigger] is_zero::<T, A>(z) && call_ensures(A::greater, (x, z), y)
}

/// [`relu_of`] as a relation.
pub open spec fn relu_rel<T, A: Arith<T>>() -> spec_fn(T, T) -> bool {
    |x: T, y: T| relu_of::<T, A>(x, y)
}

fn relu_scalar<T: Copy, A: Arith<T>>(x: T) -> (y: T)
    ensures
        relu_of::<T, A>(x, y),
{
    let z: T = A::zero();
    assert(is_zero::<T, A>(z));
    A::greater(x, z)
}

/// What `relu` comes to.
pub open spec fn relu_out<S: Scalars>(a: Model<S>, r: Outcome<S>) -> bool {
    match r {
        Ok(t) => unary_value::<S>(
            a,
            relu_rel::<S::F, S>(),
            relu_rel::<S::D, S>(),
            t,
        ),
        Err(e) => unary_error(e, "relu"@, a),
    }
}

/// Elementwise `max(x, 0)`.
pub fn relu<S: Scalars>(a: &Tensor<S>) -> (r: Result<Tensor<S>, Error>)
    ensures
        relu_out::<S>(a@, outcome(r)),
{
    let f = |x: S::F| -> (y: S::F)
        ensures
            relu_of::<S::F, S>(x, y)
    {
        relu_scalar::<S::F, S>(x)
    };
    let g = |x: S::D| -> (y: S::D)
        ensures
            relu_of::<S::D, S>(x, y)
    {
        relu_scalar::<S::D, S>(x)
    };
    let r: Result<Tensor<S>, Error> = map_float("relu", a, f, g);
    proof {
        if r is Ok {
            let t = r->Ok_0;
            lemma_unary_weaken::<S>(
                a@,
                |v: S::F, y: S::F| call_ensures(f, (v,), y),
                |v: S::D, y: S::D| call_ensures(g, (v,), y),
                relu_rel::<S::F, S>(),
                relu_rel::<S::D, S>(),
                t@,
            );
        }
    }
    r
}

/// `y` is one, minus one or zero, as `x` is above zero, below it or neither.
pub open spec fn sign_of<T, A: Arith<T>>(x: T, y: T) -> bool {
    exists|z: T, up: bool|
        {
            &&& #[trigger] is_zero::<T, A>(z)
            &&& #[trigger] call_ensures(A::above, (x, z), up)
            &&& if up {
                is_one::<T, A>(y)
            } else {
                exists|down: bool| #[trigger]
                    call_ensures(A::above, (z, x), down) && if down {
                        is_ratio::<T, A>(-1i64, 1, y)
                    } else {
                        y == z
                    }
            }
        }
}

/// [`sign_of`] as a relation.
pub open spec fn sign_rel<T, A: Arith<T>>() -> spec_fn(T, T) -> bool {
    |x: T, y: T| sign_of::<T, A>(x, y)
}

fn sign_scalar<T: Copy, A: Arith<T>>(x: T) -> (y: T)
    ensures
        sign_of::<T, A>(x, y),
{
    let z: T = A::zero();
    assert(is_zero::<T, A>(z));
    if A::above(x, z) {
        A::one()
    } else if A::above(z, x) {
        A::ratio(-1, 1)
    } else {
        z
    }
}

/// What `sign` comes to.
pub open spec fn sign_out<S: Scalars>(a: Model<S>, r: Outcome<S>) -> bool {
    match r {
        Ok(t) => unary_value::<S>(
            a,
            sign_rel::<S::F, S>(),
            sign_rel::<S::D, S>(),
            t,
        ),
        Err(e) => unary_error(e, "sign"@, a),
    }
}

/// Elementwise sign: `-1`, `0`, or `1`.
pub fn sign<S: Scalars>(a: &Tensor<S>) -> (r: Result<Tensor<S>, Error>)
    ensures
        sign_out::<S>(a@, outcome(r)),
{
    let f = |x: S::F| -> (y: S::F)
        ensures
            sign_of::<S::F, S>(x, y)
    {
        sign_scalar::<S::F, S>(x)
    };
    let g = |x: S::D| -> (y: S::D)
        ensures
            sign_of::<S::D, S>(x, y)
    {
        sign_scalar::<S::D, S>(x)
    };
    let r: Result<Tensor<S>, Error> = map_float("sign", a, f, g);
    proof {
        if r is Ok {
            let t = r->Ok_0;
            lemma_unary_weaken::<S>(
                a@,
                |v: S::F, y: S::F| call_ensures(f, (v,), y),
                |v: S::D, y: S::D| call_ensures(g, (v,), y),
                sign_rel::<S::F, S>(),
                sign_rel::<S::D, S>(),
                t@,
            );
        }
    }
    r
}

/// The numbers on the way to a logistic sigmoid.
pub ghost struct SigmoidSteps<T> {
    pub negated: T,
    pub decay: T,
    pub one: T,
    pub below: T,
}

/// `y` is `1 / (1 + e^-x)`, by way of `w`.
pub open spec fn sigmoid_steps<T, A: Arith<T>>(x: T, w: SigmoidSteps<T>, y: T) -> bool {
    &&& call_ensures(A::negated, (x,), w.negated)
    &&& call_ensures(A::exponential, (w.negated,), w.decay)
    &&& is_one::<T, A>(w.one)
    &&& is_sum::<T, A>(w.one, w.decay, w.below)
    &&& is_quotient::<T, A>(w.one, w.below, y)
}

/// `y` is `1 / (1 + e^-x)`.
pub open spec fn sigmoid_of<T, A: Arith<T>>(x: T, y: T) -> bool {
    exists|w: SigmoidSteps<T>| #[trigger] sigmoid_steps::<T, A>(x, w, y)
}

/// [`sigmoid_of`] as a relation.
pub open spec fn sigmoid_rel<T, A: Arith<T>>() -> spec_fn(T, T) -> bool {
    |x: T, y: T| sigmoid_of::<T, A>(x, y)
}

/// Logistic sigmoid.
pub fn sigmoid_scalar<T: Copy, A: Arith<T>>(x: T) -> (y: T)
    ensures
        sigmoid_of::<T, A>(x, y),
{
    let negated: T = A::negated(x);
    let decay: T = A::exponential(negated);
    let one: T = A::one();
    let below: T = A::plus(one, decay);
    let y: T = A::over(one, below);
    assert(sigmoid_steps::<T, A>(x, SigmoidSteps { negated, decay, one, below }, y));
    y
}

/// What `sigmoid` comes to.
pub open spec fn sigmoid_out<S: Scalars>(a: Model<S>, r: Outcome<S>) -> bool {
    match r {
        Ok(t) => unary_value::<S>(
            a,
            sigmoid_rel::<S::F, S>(),
            sigmoid_rel::<S::D, S>(),
            t,
        ),
        Err(e) => unary_error(e, "sigmoid"@, a),
    }
}

/// Elementwise logistic sigmoid `1 / (1 + e^-x)`.
pub fn sigmoid<S: Scalars>(a: &Tensor<S>) -> (r: Result<Tensor<S>, Error>)
    ensures
        sigmoid_out::<S>(a@, outcome(r)),
{
    let f = |x: S::F| -> (y: S::F)
        ensures
            sigmoid_of::<S::F, S>(x, y)
    {
        sigmoid_scalar::<S::F, S>(x)
    };
    let g = |x: S::D| -> (y: S::D)
        ensures
            sigmoid_of::<S::D, S>(x, y)
    {
        sigmoid_scalar::<S::D, S>(x)
    };
    let r: Result<Tensor<S>, Error> = map_float("sigmoid", a, f, g);
    proof {
        if r is Ok {
            let t = r->Ok_0;
            lemma_unary_weaken::<S>(
                a@,
                |v: S::F, y: S::F| call_ensures(f, (v,), y),
                |v: S::D, y: S::D| call_ensures(g, (v,), y),
                sigmoid_rel::<S::F, S>(),
                sigmoid_rel::<S::D, S>(),
                t@,
            );
        }
    }
    r
}

/// `y` is `sigmoid(x) * x`.
pub open spec fn silu_of<T, A: Arith<T>>(x: T, y: T) -> bool {
    exists|s: T| #[trigger] sigmoid_of::<T, A>(x, s) && is_product::<T, A>(s, x, y)
}

/// [`silu_of`] as a relation.
pub open spec fn silu_rel<T, A: Arith<T>>() -> spec_fn(T, T) -> bool {
    |x: T, y: T| silu_of::<T, A>(x, y)
}

/// `sigmoid(x) * x`.
pub fn silu_scalar<T: Copy, A: Arith<T>>(x: T) -> (y: T)
    ensures
        silu_of::<T, A>(x, y),
{
    let s: T = sigmoid_scalar::<T, A>(x);
    A::times(s, x)
}

/// `y` is `x / (1 + e^-x)`, by way of `w`.
pub open spec fn silu_quotient_steps<T, A: Arith<T>>(x: T, w: SigmoidSteps<T>, y: T) -> bool {
    &&& call_ensures(A::negated, (x,), w.negated)
    &&& call_ensures(A::exponential, (w.negated,), w.decay)
    &&& is_one::<T, A>(w.one)
    &&& is_sum::<T, A>(w.one, w.decay, w.below)
    &&& is_quotient::<T, A>(x, w.below, y)
}

/// `y` is `x / (1 + e^-x)`.
pub open spec fn silu_quotient_of<T, A: Arith<T>>(x: T, y: T) -> bool {
    exists|w: SigmoidSteps<T>| #[trigger] silu_quotient_steps::<T, A>(x, w, y)
}

/// [`silu_quotient_of`] as a relation.
pub open spec fn silu_quotient_rel<T, A: Arith<T>>() -> spec_fn(T, T) -> bool {
    |x: T, y: T| silu_quotient_of::<T, A>(x, y)
}

fn silu_quotient_scalar<T: Copy, A: Arith<T>>(x: T) -> (y: T)
    ensures
        silu_quotient_of::<T, A>(x, y),
{
    let negated: T = A::negated(x);
    let decay: T = A::exponential(negated);
    let one: T = A::one();
    let below: T = A::plus(one, decay);
    let y: T = A::over(x, below);
    assert(silu_quotient_steps::<T, A>(x, SigmoidSteps { negated, decay, one, below }, y));
    y
}

/// What `silu` comes to.
pub open spec fn silu_out<S: Scalars>(a: Model<S>, r: Outcome<S>) -> bool {
    match r {
        Ok(t) => unary_value::<S>(
            a,
            silu_rel::<S::F, S>(),
            silu_quotient_rel::<S::D, S>(),
            t,
        ),
        Err(e) => unary_error(e, "silu"@, a),
    }
}

/// Elementwise SiLU `x * sigmoid(x)`; 64-bit floats divide once.
pub fn silu<S: Scalars>(a: &Tensor<S>) -> (r: Result<Tensor<S>, Error>)
    ensures
        silu_out::<S>(a@, outcome(r)),
{
    let f = |x: S::F| -> (y: S::F)
        ensures
            silu_of::<S::F, S>(x, y)
    {
        silu_scalar::<S::F, S>(x)
    };
    let g = |x: S::D| -> (y: S::D)
        ensures
            silu_quotient_of::<S::D, S>(x, y)
    {
        silu_quotient_scalar::<S::D, S>(x)
    };
    let r: Result<Tensor<S>, Error> = map_float("silu", a, f, g);
    proof {
        if r is Ok {
            let t = r->Ok_0;
            lemma_unary_weaken::<S>(
                a@,
                |v: S::F, y: S::F| call_ensures(f, (v,), y),
                |v: S::D, y: S::D| call_ensures(g, (v,), y),
                silu_rel::<S::F, S>(),
                silu_quotient_rel::<S::D, S>(),
                t@,
            );
        }
    }
    r
}

/// `c` is the 32-bit constant for the square root of `2 / pi`.
pub open spec fn gelu_constant<T, A: Arith<T>>(c: T) -> bool {
    is_ratio::<T, A>(7978846, 10000000, c)
}

/// `c` is the square root of `2 / pi`, taken in the arithmetic.
pub open spec fn gelu_root<T, A: Arith<T>>(c: T) -> bool {
    exists|two: T, pi: T, q: T|
        {
            &&& #[trigger] is_ratio::<T, A>(2, 1, two)
            &&& #[trigger] is_ratio::<T, A>(3141592653589793, 1000000000000000, pi)
            &&& is_quotient::<T, A>(two, pi, q)
            &&& #[trigger] call_ensures(A::root, (q,), c)
        }
}

/// The numbers on the way to a GELU.
pub ghost struct GeluSteps<T> {
    pub cubic: T,
    pub first: T,
    pub second: T,
    pub third: T,
    pub inner: T,
    pub scaled: T,
    pub bent: T,
    pub half: T,
    pub halved: T,
    pub one: T,
    pub lifted: T,
}

/// `w.bent` is `tanh(c * (x + 0.044715 * x * x * x))`.
pub open spec fn gelu_tanh<T, A: Arith<T>>(c: T, x: T, w: GeluSteps<T>) -> bool {
    &&& is_ratio::<T, A>(44715, 1000000, w.cubic)
    &&& is_product::<T, A>(w.cubic, x, w.first)
    &&& is_product::<T, A>(w.first, x, w.second)
    &&& is_product::<T, A>(w.second, x, w.third)
    &&& is_sum::<T, A>(x, w.third, w.inner)
    &&& is_product::<T, A>(c, w.inner, w.scaled)
    &&& call_ensures(A::tangent, (w.scaled,), w.bent)
}

/// `y` is `0.5 * x * (1 + tanh(c * (x + 0.044715 * x * x * x)))`, by way of `w`.
pub open spec fn gelu_steps<T, A: Arith<T>>(c: T, x: T, w: GeluSteps<T>, y: T) -> bool {
    &&& gelu_tanh::<T, A>(c, x, w)
    &&& is_ratio::<T, A>(1, 2, w.half)
    &&& is_product::<T, A>(w.half, x, w.halved)
    &&& is_one::<T, A>(w.one)
    &&& is_sum::<T, A>(w.one, w.bent, w.lifted)
    &&& is_product::<T, A>(w.halved, w.lifted, y)
}

/// `y` is the GELU of `x` (tanh approximation), with the constant as a literal.
pub open spec fn gelu_of<T, A: Arith<T>>(x: T, y: T) -> bool {
    exists|c: T, w: GeluSteps<T>| gelu_constant::<T, A>(c) && #[trigger] gelu_steps::<T, A>(c, x, w, y)
}

/// [`gelu_of`] as a relation.
pub open spec fn gelu_rel<T, A: Arith<T>>() -> spec_fn(T, T) -> bool {
    |x: T, y: T| gelu_of::<T, A>(x, y)
}

/// `y` is the GELU of `x` (tanh approximation), with the constant computed.
pub open spec fn gelu_exact_of<T, A: Arith<T>>(x: T, y: T) -> bool {
    exists|c: T, w: GeluSteps<T>| gelu_root::<T, A>(c) && #[trigger] gelu_steps::<T, A>(c, x, w, y)
}

/// [`gelu_exact_of`] as a relation.
pub open spec fn gelu_exact_rel<T, A: Arith<T>>() -> spec_fn(T, T) -> bool {
    |x: T, y: T| gelu_exact_of::<T, A>(x, y)
}

/// GELU with the rounded constant.
pub fn gelu_scalar<T: Copy, A: Arith<T>>(x: T) -> (y: T)
    ensures
        gelu_of::<T, A>(x, y),
{
    let c: T = A::ratio(7978846, 10000000);
    gelu_with::<T, A>(c, x)
}

/// GELU with the computed constant.
pub fn gelu_exact_scalar<T: Copy, A: Arith<T>>(x: T) -> (y: T)
    ensures
        gelu_exact_of::<T, A>(x, y),
{
    let two: T = A::ratio(2, 1);
    let pi: T = A::ratio(3141592653589793, 1000000000000000);
    assert(is_ratio::<T, A>(2, 1, two));
    assert(is_ratio::<T, A>(3141592653589793, 1000000000000000, pi));
    let q: T = A::over(two, pi);
    let c: T = A::root(q);
    assert(gelu_root::<T, A>(c));
    gelu_with::<T, A>(c, x)
}

fn gelu_with<T: Copy, A: Arith<T>>(c: T, x: T) -> (y: T)
    ensures
        exists|w: GeluSteps<T>| #[trigger] gelu_steps::<T, A>(c, x, w, y),
{
    let cubic: T = A::ratio(44715, 1000000);
    let first: T = A::times(cubic, x);
    let second: T = A::times(first, x);
    let third: T = A::times(second, x);
    let inner: T = A::plus(x, third);
    let scaled: T = A::times(c, inner);
    let bent: T = A::tangent(scaled);
    let half: T = A::ratio(1, 2);
    let halved: T = A::times(half, x);
    let one: T = A::one();
    let lifted: T = A::plus(one, bent);
    let y: T = A::times(halved, lifted);
    assert(gelu_steps::<T, A>(
        c,
        x,
        GeluSteps {
            cubic,
            first,
            second,
            third,
            inner,
            scaled,
            bent,
            half,
            halved,
            one,
            lifted,
        },
        y,
    ));
    y
}

/// What `gelu` comes to.
pub open spec fn gelu_out<S: Scalars>(a: Model<S>, r: Outcome<S>) -> bool {
    match r {
        Ok(t) => unary_value::<S>(
            a,
            gelu_rel::<S::F, S>(),
            gelu_exact_rel::<S::D, S>(),
            t,
        ),
        Err(e) => unary_error(e, "gelu"@, a),
    }
}

/// Elementwise GELU (tanh approximation).
pub fn gelu<S: Scalars>(a: &Tensor<S>) -> (r: Result<Tensor<S>, Error>)
    ensures
        gelu_out::<S>(a@, outcome(r)),
{
    let f = |x: S::F| -> (y: S::F)
        ensures
            gelu_of::<S::F, S>(x, y)
    {
        gelu_scalar::<S::F, S>(x)
    };
    let g = |x: S::D| -> (y: S::D)
        ensures
            gelu_exact_of::<S::D, S>(x, y)
    {
        gelu_exact_scalar::<S::D, S>(x)
    };
    let r: Result<Tensor<S>, Error> = map_float("gelu", a, f, g);
    proof {
        if r is Ok {
            let t = r->Ok_0;
            lemma_unary_weaken::<S>(
                a@,
                |v: S::F, y: S::F| call_ensures(f, (v,), y),
                |v: S::D, y: S::D| call_ensures(g, (v,), y),
                gelu_rel::<S::F, S>(),
                gelu_exact_rel::<S::D, S>(),
                t@,
            );
        }
    }
    r
}

/// `y` is `x` where it is above 20, and `ln(1 + e^x)` elsewhere.
pub open spec fn softplus_of<T, A: Arith<T>>(x: T, y: T) -> bool {
    exists|twenty: T, far: bool|
        {
            &&& #[trigger] is_ratio::<T, A>(20, 1, twenty)
            &&& #[trigger] call_ensures(A::above, (x, twenty), far)
            &&& if far {
                y == x
            } else {
                exists|one: T, grown: T, total: T|
                    {
                        &&& #[trigger] is_one::<T, A>(one)
                        &&& #[trigger] call_ensures(A::exponential, (x,), grown)
                        &&& is_sum::<T, A>(one, grown, total)
                        &&& #[trigger] call_ensures(A::logarithm, (total,), y)
                    }
            }
        }
}

/// [`softplus_of`] as a relation.
pub open spec fn softplus_rel<T, A: Arith<T>>() -> spec_fn(T, T) -> bool {
    |x: T, y: T| softplus_of::<T, A>(x, y)
}

fn softplus_scalar<T: Copy, A: Arith<T>>(x: T) -> (y: T)
    ensures
        softplus_of::<T, A>(x, y),
{
    let twenty: T = A::ratio(20, 1);
    assert(is_ratio::<T, A>(20, 1, twenty));
    if A::above(x, twenty) {
        x
    } else {
        let one: T = A::one();
        assert(is_one::<T, A>(one));
        let grown: T = A::exponential(x);
        let total: T = A::plus(one, grown);
        A::logarithm(total)
    }
}

/// What `softplus` comes to.
pub open spec fn softplus_out<S: Scalars>(a: Model<S>, r: Outcome<S>) -> bool {
    match r {
        Ok(t) => unary_value::<S>(
            a,
            softplus_rel::<S::F, S>(),
            softplus_rel::<S::D, S>(),
            t,
        ),
        Err(e) => unary_error(e, "softplus"@, a),
    }
}

/// Elementwise softplus `ln(1 + e^x)`, numerically stabilized.
pub fn softplus<S: Scalars>(a: &Tensor<S>) -> (r: Result<Tensor<S>, Error>)
    ensures
        softplus_out::<S>(a@, outcome(r)),
{
    let f = |x: S::F| -> (y: S::F)
        ensures
            softplus_of::<S::F, S>(x, y)
    {
        softplus_scalar::<S::F, S>(x)
    };
    let g = |x: S::D| -> (y: S::D)
        ensures
            softplus_of::<S::D, S>(x, y)
    {
        softplus_scalar::<S::D, S>(x)
    };
    let r: Result<Tensor<S>, Error> = map_float("softplus", a, f, g);
    proof {
        if r is Ok {
            let t = r->Ok_0;
            lemma_unary_weaken::<S>(
                a@,
                |v: S::F, y: S::F| call_ensures(f, (v,), y),
                |v: S::D, y: S::D| call_ensures(g, (v,), y),
                softplus_rel::<S::F, S>(),
                softplus_rel::<S::D, S>(),
                t@,
            );
        }
    }
    r
}

} // verus!
