//! Activations together with their derivatives, in one pass.
use vstd::prelude::*;
use crate::dtype::Dtype;
use crate::elementwise::{map_values, unary_value};
use crate::error::{Error, ErrorKind};
use crate::rows::row_error;
use crate::scalar::{is_difference, is_one, is_product, is_ratio, is_sum, Arith, Scalars};
use crate::tensor::{Model, Tensor};
use crate::unary::{
    gelu_constant, gelu_of, gelu_rel, gelu_root, gelu_steps, gelu_tanh, sigmoid_of, sigmoid_rel,
    sigmoid_scalar, GeluSteps,
};

verus! {

/// No relation: stands for the side of a contract that does not arise.
pub open spec fn nothing<T>() -> spec_fn(T, T) -> bool {
    |x: T, y: T| false
}

/// A pair of tensors, or an error.
pub open spec fn pair_outcome<S: Scalars>(r: Result<(Tensor<S>, Tensor<S>), Error>) -> Result<
    (Model<S>, Model<S>),
    Error,
> {
    match r {
        Ok(p) => Ok((p.0@, p.1@)),
        Err(e) => Err(e),
    }
}

/// Steps of the derivative of GELU, after those that it shares with the value.
pub ghost struct GeluSlopeSteps<T> {
    pub one: T,
    pub half: T,
    pub lifted: T,
    pub flat: T,
    pub halved: T,
    pub bent2: T,
    pub fall: T,
    pub steep: T,
    pub scaled: T,
    pub three: T,
    pub triple: T,
    pub triple1: T,
    pub triple2: T,
    pub inner: T,
    pub bend: T,
}

/// `y` is `0.5 (1 + th) + 0.5 x (1 - th^2) c (1 + 3 a x^2)`, where `th` is the tangent that GELU
/// takes.
pub open spec fn gelu_slope_steps<T, A: Arith<T>>(
    c: T,
    x: T,
    g: GeluSteps<T>,
    w: GeluSlopeSteps<T>,
    y: T,
) -> bool {
    &&& gelu_tanh::<T, A>(c, x, g)
    &&& is_one::<T, A>(w.one)
    &&& is_ratio::<T, A>(1, 2, w.half)
    &&& is_sum::<T, A>(w.one, g.bent, w.lifted)
    &&& is_product::<T, A>(w.half, w.lifted, w.flat)
    &&& is_product::<T, A>(w.half, x, w.halved)
    &&& is_product::<T, A>(g.bent, g.bent, w.bent2)
    &&& is_difference::<T, A>(w.one, w.bent2, w.fall)
    &&& is_product::<T, A>(w.halved, w.fall, w.steep)
    &&& is_product::<T, A>(w.steep, c, w.scaled)
    &&& is_ratio::<T, A>(3, 1, w.three)
    &&& is_product::<T, A>(w.three, g.cubic, w.triple)
    &&& is_product::<T, A>(w.triple, x, w.triple1)
    &&& is_product::<T, A>(w.triple1, x, w.triple2)
    &&& is_sum::<T, A>(w.one, w.triple2, w.inner)
    &&& is_product::<T, A>(w.scaled, w.inner, w.bend)
    &&& is_sum::<T, A>(w.flat, w.bend, y)
}

/// `y` is the derivative of GELU at `x`, with constant `c`.
pub open spec fn gelu_slope_at<T, A: Arith<T>>(c: T, x: T, y: T) -> bool {
    exists|g: GeluSteps<T>, w: GeluSlopeSteps<T>| #[trigger]
        gelu_slope_steps::<T, A>(c, x, g, w, y)
}

/// The derivative of GELU with the rounded constant.
pub open spec fn gelu_slope_of<T, A: Arith<T>>(x: T, y: T) -> bool {
    exists|c: T| gelu_constant::<T, A>(c) && #[trigger] gelu_slope_at::<T, A>(c, x, y)
}

/// The derivative of GELU with the rounded constant, as a relation.
pub open spec fn gelu_slope_rel<T, A: Arith<T>>() -> spec_fn(T, T) -> bool {
    |x: T, y: T| gelu_slope_of::<T, A>(x, y)
}

/// The derivative of GELU with the computed constant.
pub open spec fn gelu_exact_slope_of<T, A: Arith<T>>(x: T, y: T) -> bool {
    exists|c: T| gelu_root::<T, A>(c) && #[trigger] gelu_slope_at::<T, A>(c, x, y)
}

/// The derivative of GELU with the computed constant, as a relation.
pub open spec fn gelu_exact_slope_rel<T, A: Arith<T>>() -> spec_fn(T, T) -> bool {
    |x: T, y: T| gelu_exact_slope_of::<T, A>(x, y)
}

/// GELU and its derivative, with constant `c`.
fn gelu_pair<T: Copy, A: Arith<T>>(c: T, x: T) -> (r: (T, T))
    ensures
        exists|w: GeluSteps<T>| #[trigger] gelu_steps::<T, A>(c, x, w, r.0),
        gelu_slope_at::<T, A>(c, x, r.1),
{
    let cubic: T = A::ratio(44715, 1000000);
    let first: T = A::times(cubic, x);
    let second: T = A::times(first, x);
    let third: T = A::times(second, x);
    let inner: T = A::plus(x, third);
    let scaled: T = A::times(c, inner);
    let bent: T = A::tangent(scaled);
    let half: T = A::ratio(1, 2);
    let halved: T = A::times(half, x);
    let one: T = A::one();
    let lifted: T = A::plus(one, bent);
    let y: T = A::times(halved, lifted);
    let ghost g = GeluSteps {
        cubic,
        first,
        second,
        third,
        inner,
        scaled,
        bent,
        half,
        halved,
        one,
        lifted,
    };
    assert(gelu_steps::<T, A>(c, x, g, y));
    let flat: T = A::times(half, lifted);
    let bent2: T = A::times(bent, bent);
    let fall: T = A::minus(one, bent2);
    let steep: T = A::times(halved, fall);
    let scaled2: T = A::times(steep, c);
    let three: T = A::ratio(3, 1);
    let triple: T = A::times(three, cubic);
    let triple1: T = A::times(triple, x);
    let triple2: T = A::times(triple1, x);
    let inner2: T = A::plus(one, triple2);
    let bend: T = A::times(scaled2, inner2);
    let d: T = A::plus(flat, bend);
    proof {
        let w = GeluSlopeSteps {
            one,
            half,
            lifted,
            flat,
            halved,
            bent2,
            fall,
            steep,
            scaled: scaled2,
            three,
            triple,
            triple1,
            triple2,
            inner: inner2,
            bend,
        };
        assert(gelu_slope_steps::<T, A>(c, x, g, w, d));
    }
    let r: (T, T) = (y, d);
    assert(gelu_steps::<T, A>(c, x, g, r.0));
    r
}

/// The derivative of GELU with the computed constant.
pub fn gelu_exact_slope<T: Copy, A: Arith<T>>(x: T) -> (y: T)
    ensures
        gelu_exact_slope_of::<T, A>(x, y),
{
    let two: T = A::ratio(2, 1);
    let pi: T = A::ratio(3141592653589793, 1000000000000000);
    assert(is_ratio::<T, A>(2, 1, two));
    assert(is_ratio::<T, A>(3141592653589793, 1000000000000000, pi));
    let q: T = A::over(two, pi);
    let c: T = A::root(q);
    assert(gelu_root::<T, A>(c));
    let (_, d): (T, T) = gelu_pair::<T, A>(c, x);
    d
}

fn gelu_both<T: Copy, A: Arith<T>>(x: T) -> (r: (T, T))
    ensures
        gelu_of::<T, A>(x, r.0),
        gelu_slope_of::<T, A>(x, r.1),
{
    let c: T = A::ratio(7978846, 10000000);
    assert(gelu_constant::<T, A>(c));
    gelu_pair::<T, A>(c, x)
}

/// `y` is `v (1 - v)`, where `v` is the sigmoid of `x`.
pub open spec fn sigmoid_slope_of<T, A: Arith<T>>(x: T, y: T) -> bool {
    exists|v: T, one: T, rest: T| #[trigger]
        sigmoid_of::<T, A>(x, v) && #[trigger] is_one::<T, A>(one) && #[trigger] is_difference::<
            T,
            A,
        >(one, v, rest) && is_product::<T, A>(v, rest, y)
}

/// The derivative of the sigmoid, as a relation.
pub open spec fn sigmoid_slope_rel<T, A: Arith<T>>() -> spec_fn(T, T) -> bool {
    |x: T, y: T| sigmoid_slope_of::<T, A>(x, y)
}

fn sigmoid_both<T: Copy, A: Arith<T>>(x: T) -> (r: (T, T))
    ensures
        sigmoid_of::<T, A>(x, r.0),
        sigmoid_slope_of::<T, A>(x, r.1),
{
    let v: T = sigmoid_scalar::<T, A>(x);
    let one: T = A::one();
    let rest: T = A::minus(one, v);
    let d: T = A::times(v, rest);
    assert(is_one::<T, A>(one));
    assert(is_difference::<T, A>(one, v, rest));
    assert(is_product::<T, A>(v, rest, d));
    (v, d)
}

/// `y` is `x` times its sigmoid.
pub open spec fn silu_product_of<T, A: Arith<T>>(x: T, y: T) -> bool {
    exists|s: T| #[trigger] sigmoid_of::<T, A>(x, s) && is_product::<T, A>(x, s, y)
}

/// `x` times its sigmoid, as a relation.
pub open spec fn silu_product_rel<T, A: Arith<T>>() -> spec_fn(T, T) -> bool {
    |x: T, y: T| silu_product_of::<T, A>(x, y)
}

/// Steps of the derivative of SiLU.
pub ghost struct SiluSlopeSteps<T> {
    pub sigmoid: T,
    pub one: T,
    pub lifted: T,
    pub gated: T,
    pub rest: T,
}

/// `y` is `s (1 + x - x s)`, where `s` is the sigmoid of `x`.
pub open spec fn silu_slope_steps<T, A: Arith<T>>(x: T, w: SiluSlopeSteps<T>, y: T) -> bool {
    &&& sigmoid_of::<T, A>(x, w.sigmoid)
    &&& is_one::<T, A>(w.one)
    &&& is_sum::<T, A>(w.one, x, w.lifted)
    &&& is_product::<T, A>(x, w.sigmoid, w.gated)
    &&& is_difference::<T, A>(w.lifted, w.gated, w.rest)
    &&& is_product::<T, A>(w.sigmoid, w.rest, y)
}

/// The derivative of SiLU.
pub open spec fn silu_slope_of<T, A: Arith<T>>(x: T, y: T) -> bool {
    exists|w: SiluSlopeSteps<T>| #[trigger] silu_slope_steps::<T, A>(x, w, y)
}

/// The derivative of SiLU, as a relation.
pub open spec fn silu_slope_rel<T, A: Arith<T>>() -> spec_fn(T, T) -> bool {
    |x: T, y: T| silu_slope_of::<T, A>(x, y)
}

fn silu_both<T: Copy, A: Arith<T>>(x: T) -> (r: (T, T))
    ensures
        silu_product_of::<T, A>(x, r.0),
        silu_slope_of::<T, A>(x, r.1),
{
    let sigmoid: T = sigmoid_scalar::<T, A>(x);
    let one: T = A::one();
    let lifted: T = A::plus(one, x);
    let gated: T = A::times(x, sigmoid);
    let rest: T = A::minus(lifted, gated);
    let d: T = A::times(sigmoid, rest);
    assert(silu_slope_steps::<T, A>(
        x,
        SiluSlopeSteps { sigmoid, one, lifted, gated, rest },
        d,
    ));
    (gated, d)
}

/// The derivative of SiLU.
pub fn silu_slope<T: Copy, A: Arith<T>>(x: T) -> (y: T)
    ensures
        silu_slope_of::<T, A>(x, y),
{
    let (_, d): (T, T) = silu_both::<T, A>(x);
    d
}

/// Firsts and seconds of pairs.
fn split_pairs<T: Copy>(v: &Vec<(T, T)>) -> (r: (Vec<T>, Vec<T>))
    ensures
        r.0@ == v@.map_values(|p: (T, T)| p.0),
        r.1@ == v@.map_values(|p: (T, T)| p.1),
{
    let mut a: Vec<T> = Vec::new();
    let mut b: Vec<T> = Vec::new();
    let mut i: usize = 0;
    while i < v.len()
        invariant
            i <= v@.len(),
            a@ =~= v@.take(i as int).map_values(|p: (T, T)| p.0),
            b@ =~= v@.take(i as int).map_values(|p: (T, T)| p.1),
        decreases v@.len() - i,
    {
        a.push(v[i].0);
        b.push(v[i].1);
        i = i + 1;
    }
    assert(v@.take(i as int) =~= v@);
    (a, b)
}

/// What a kernel comes to that gives for each element of a 32-bit tensor a value by `value` and a
/// derivative by `slope`.
pub open spec fn both_value<S: Scalars>(
    x: Model<S>,
    value: spec_fn(S::F, S::F) -> bool,
    slope: spec_fn(S::F, S::F) -> bool,
    r: Result<(Model<S>, Model<S>), Error>,
) -> bool {
    match r {
        Ok(p) => {
            &&& x.data is F32
            &&& unary_value::<S>(x, value, nothing::<S::D>(), p.0)
            &&& unary_value::<S>(x, slope, nothing::<S::D>(), p.1)
        },
        Err(e) => row_error(e, x),
    }
}

/// Applies a kernel that gives a value and a derivative.
fn map_both<S: Scalars, F: Fn(S::F) -> (S::F, S::F) + Sync + Send>(
    x: &Tensor<S>,
    f: F,
    Ghost(value): Ghost<spec_fn(S::F, S::F) -> bool>,
    Ghost(slope): Ghost<spec_fn(S::F, S::F) -> bool>,
) -> (r: Result<(Tensor<S>, Tensor<S>), Error>)
    requires
        forall|v: S::F| #[trigger] call_requires(f, (v,)),
        forall|v: S::F, p: (S::F, S::F)| #[trigger]
            call_ensures(f, (v,), p) ==> value(v, p.0) && slope(v, p.1),
    ensures
        both_value::<S>(x@, value, slope, pair_outcome(r)),
{
    let v: Vec<S::F> = match x.to_vec_f32() {
        Ok(v) => v,
        Err(e) => {
            return Err(e);
        },
    };
    match crate::shape::numel(x.shape()) {
        Ok(_) => {},
        Err(e) => {
            return Err(e);
        },
    }
    let pairs: Vec<(S::F, S::F)> = map_values(v.as_slice(), f);
    let (a, b): (Vec<S::F>, Vec<S::F>) = split_pairs(&pairs);
    proof {
        assert forall|i: int| 0 <= i < a@.len() implies value(v@[i], #[trigger] a@[i]) by {
            assert(call_ensures(f, (v@[i],), pairs@[i]));
        }
        assert forall|i: int| 0 <= i < b@.len() implies slope(v@[i], #[trigger] b@[i]) by {
            assert(call_ensures(f, (v@[i],), pairs@[i]));
        }
    }
    match (Tensor::from_vec_f32(a, x.shape()), Tensor::from_vec_f32(b, x.shape())) {
        (Ok(y), Ok(d)) => Ok((y, d)),
        (Err(e), _) => Err(e),
        (_, Err(e)) => Err(e),
    }
}

/// What `gelu_with_grad` comes to.
pub open spec fn gelu_with_grad_out<S: Scalars>(
    x: Model<S>,
    r: Result<(Model<S>, Model<S>), Error>,
) -> bool {
    if x.dtype() != Dtype::F32 {
        r matches Err(e) && e.says(ErrorKind::Dtype, "gelu_with_grad"@, "f32 only"@)
    } else {
        both_value::<S>(x, gelu_rel::<S::F, S>(), gelu_slope_rel::<S::F, S>(), r)
    }
}

/// GELU and its derivative in one pass, 32-bit only.
pub fn gelu_with_grad<S: Scalars>(x: &Tensor<S>) -> (r: Result<(Tensor<S>, Tensor<S>), Error>)
    ensures
        gelu_with_grad_out::<S>(x@, pair_outcome(r)),
{
    if x.dtype() != Dtype::F32 {
        return Err(Error::dtype("gelu_with_grad", "f32 only".to_owned()));
    }
    let f = |v: S::F| -> (p: (S::F, S::F))
        ensures
            gelu_of::<S::F, S>(v, p.0),
            gelu_slope_of::<S::F, S>(v, p.1)
    { gelu_both::<S::F, S>(v) };
    map_both(x, f, Ghost(gelu_rel::<S::F, S>()), Ghost(gelu_slope_rel::<S::F, S>()))
}

/// Sigmoid and its derivative in one pass, 32-bit only.
pub fn sigmoid_fwd_bwd<S: Scalars>(x: &Tensor<S>) -> (r: Result<(Tensor<S>, Tensor<S>), Error>)
    ensures
        both_value::<S>(
            x@,
            sigmoid_rel::<S::F, S>(),
            sigmoid_slope_rel::<S::F, S>(),
            pair_outcome(r),
        ),
{
    let f = |v: S::F| -> (p: (S::F, S::F))
        ensures
            sigmoid_of::<S::F, S>(v, p.0),
            sigmoid_slope_of::<S::F, S>(v, p.1)
    { sigmoid_both::<S::F, S>(v) };
    map_both(x, f, Ghost(sigmoid_rel::<S::F, S>()), Ghost(sigmoid_slope_rel::<S::F, S>()))
}

/// SiLU and its derivative in one pass, 32-bit only.
pub fn silu_fwd_bwd<S: Scalars>(x: &Tensor<S>) -> (r: Result<(Tensor<S>, Tensor<S>), Error>)
    ensures
        both_value::<S>(
            x@,
            silu_product_rel::<S::F, S>(),
            silu_slope_rel::<S::F, S>(),
            pair_outcome(r),
        ),
{
    let f = |v: S::F| -> (p: (S::F, S::F))
        ensures
            silu_product_of::<S::F, S>(v, p.0),
            silu_slope_of::<S::F, S>(v, p.1)
    { silu_both::<S::F, S>(v) };
    map_both(x, f, Ghost(silu_product_rel::<S::F, S>()), Ghost(silu_slope_rel::<S::F, S>()))
}

} // verus!
