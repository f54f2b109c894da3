//! A recurrent block as one operation: normalization, gated recurrence, feed-forward.
use vstd::prelude::*;
use crate::dtype::Dtype;
use crate::elementwise::{
    binary_f32, binary_f32_error, binary_value, lemma_binary_weaken, lemma_unary_weaken, map_f32,
    unary_value,
};
use crate::error::{Error, ErrorKind};
use crate::guarded::{
    cut, cut_out, join, join_out, misfit, misfit_error, rms_back, rms_back_out, scan_back,
    scan_back_out,
};
use crate::matmul::{matmul, matmul_out};
use crate::reduce::{seen, sum, sum_out};
use crate::rows::{rms_norm, rms_norm_out, row_error};
use crate::scalar::{adding, is_difference, is_one, is_product, is_sum, multiplying, Arith, Scalars};
use crate::scan::{gated_scan, gated_scan_out};
use crate::slopes::{nothing, pair_outcome, silu_slope, silu_slope_of, silu_slope_rel};
use crate::tensor::{gives, ones_out, outcome, passes, Model, Outcome, Tensor};
use crate::unary::{sigmoid, sigmoid_out, silu, silu_quotient_rel, silu_rel};
use crate::views::{transpose_out, Range3};

verus! {

/// What a product inside the block comes to.
pub open spec fn gain_out<S: Scalars>(a: Model<S>, b: Model<S>, r: Outcome<S>) -> bool {
    match r {
        Ok(t) => a.data is F32 && b.data is F32 && binary_value::<S>(
            a,
            b,
            multiplying::<S::F, S>(),
            multiplying::<S::D, S>(),
            t,
        ),
        Err(e) => binary_f32_error(e, "fused"@, a, b),
    }
}

fn gain<S: Scalars>(a: &Tensor<S>, b: &Tensor<S>) -> (r: Result<Tensor<S>, Error>)
    ensures
        gain_out::<S>(a@, b@, outcome(r)),
{
    let f = |x: S::F, y: S::F| -> (z: S::F)
        ensures
            is_product::<S::F, S>(x, y, z)
    { <S as Arith<S::F>>::times(x, y) };
    let r: Result<Tensor<S>, Error> = binary_f32("fused", a, b, f);
    proof {
        if r is Ok {
            lemma_binary_weaken::<S>(
                a@,
                b@,
                |x: S::F, y: S::F, z: S::F| call_ensures(f, (x, y), z),
                |x: S::D, y: S::D, z: S::D| false,
                multiplying::<S::F, S>(),
                multiplying::<S::D, S>(),
                r->Ok_0@,
            );
        }
    }
    r
}

/// What a sum inside the block comes to.
pub open spec fn joint_out<S: Scalars>(a: Model<S>, b: Model<S>, r: Outcome<S>) -> bool {
    match r {
        Ok(t) => a.data is F32 && b.data is F32 && binary_value::<S>(
            a,
            b,
            adding::<S::F, S>(),
            adding::<S::D, S>(),
            t,
        ),
        Err(e) => binary_f32_error(e, "fused"@, a, b),
    }
}

fn joint<S: Scalars>(a: &Tensor<S>, b: &Tensor<S>) -> (r: Result<Tensor<S>, Error>)
    ensures
        joint_out::<S>(a@, b@, outcome(r)),
{
    let f = |x: S::F, y: S::F| -> (z: S::F)
        ensures
            is_sum::<S::F, S>(x, y, z)
    { <S as Arith<S::F>>::plus(x, y) };
    let r: Result<Tensor<S>, Error> = binary_f32("fused", a, b, f);
    proof {
        if r is Ok {
            lemma_binary_weaken::<S>(
                a@,
                b@,
                |x: S::F, y: S::F, z: S::F| call_ensures(f, (x, y), z),
                |x: S::D, y: S::D, z: S::D| false,
                adding::<S::F, S>(),
                adding::<S::D, S>(),
                r->Ok_0@,
            );
        }
    }
    r
}

/// What SiLU of 32-bit data comes to.
pub open spec fn silu_f32_out<S: Scalars>(x: Model<S>, r: Outcome<S>) -> bool {
    match r {
        Ok(t) => x.data is F32 && unary_value::<S>(
            x,
            silu_rel::<S::F, S>(),
            silu_quotient_rel::<S::D, S>(),
            t,
        ),
        Err(e) => row_error(e, x),
    }
}

fn silu_f32<S: Scalars>(x: &Tensor<S>) -> (r: Result<Tensor<S>, Error>)
    ensures
        silu_f32_out::<S>(x@, outcome(r)),
{
    if x.dtype() != Dtype::F32 {
        return Err(Error::dtype("to_vec", "expected f32".to_owned()));
    }
    silu(x)
}

/// What a map of 32-bit data by `rel` comes to.
pub open spec fn mapped_out<S: Scalars>(
    x: Model<S>,
    rel: spec_fn(S::F, S::F) -> bool,
    r: Outcome<S>,
) -> bool {
    match r {
        Ok(t) => x.data is F32 && unary_value::<S>(x, rel, nothing::<S::D>(), t),
        Err(e) => row_error(e, x),
    }
}

/// The derivative of SiLU, elementwise.
fn silu_local<S: Scalars>(x: &Tensor<S>) -> (r: Result<Tensor<S>, Error>)
    ensures
        mapped_out::<S>(x@, silu_slope_rel::<S::F, S>(), outcome(r)),
{
    if x.dtype() != Dtype::F32 {
        return Err(Error::dtype("to_vec", "expected f32".to_owned()));
    }
    let f = |v: S::F| -> (y: S::F)
        ensures
            silu_slope_of::<S::F, S>(v, y)
    { silu_slope::<S::F, S>(v) };
    let r: Result<Tensor<S>, Error> = map_f32(x, f);
    proof {
        if r is Ok {
            lemma_unary_weaken::<S>(
                x@,
                |v: S::F, y: S::F| call_ensures(f, (v,), y),
                |v: S::D, y: S::D| false,
                silu_slope_rel::<S::F, S>(),
                nothing::<S::D>(),
                r->Ok_0@,
            );
        }
    }
    r
}

/// `y` is `1 - x`.
pub open spec fn rest_of<T, A: Arith<T>>(x: T, y: T) -> bool {
    exists|one: T| #[trigger] is_one::<T, A>(one) && is_difference::<T, A>(one, x, y)
}

/// `1 - x`, as a relation.
pub open spec fn rest_rel<T, A: Arith<T>>() -> spec_fn(T, T) -> bool {
    |x: T, y: T| rest_of::<T, A>(x, y)
}

fn rest_scalar<T: Copy, A: Arith<T>>(x: T) -> (y: T)
    ensures
        rest_of::<T, A>(x, y),
{
    let one: T = A::one();
    assert(is_one::<T, A>(one));
    A::minus(one, x)
}

fn rest<S: Scalars>(x: &Tensor<S>) -> (r: Result<Tensor<S>, Error>)
    ensures
        mapped_out::<S>(x@, rest_rel::<S::F, S>(), outcome(r)),
{
    if x.dtype() != Dtype::F32 {
        return Err(Error::dtype("to_vec", "expected f32".to_owned()));
    }
    let f = |v: S::F| -> (y: S::F)
        ensures
            rest_of::<S::F, S>(v, y)
    { rest_scalar::<S::F, S>(v) };
    let r: Result<Tensor<S>, Error> = map_f32(x, f);
    proof {
        if r is Ok {
            lemma_unary_weaken::<S>(
                x@,
                |v: S::F, y: S::F| call_ensures(f, (v,), y),
                |v: S::D, y: S::D| false,
                rest_rel::<S::F, S>(),
                nothing::<S::D>(),
                r->Ok_0@,
            );
        }
    }
    r
}

/// What `normed` comes to: RMS normalization, times a gain.
pub open spec fn normed_out<S: Scalars>(
    x: Model<S>,
    g: Model<S>,
    eps: S::F,
    r: Outcome<S>,
) -> bool {
    exists|o: Outcome<S>| #[trigger]
        rms_norm_out::<S>(x, eps, o) && passes(o, r, gain_out::<S>(o->Ok_0, g, r))
}

fn normed<S: Scalars>(x: &Tensor<S>, g: &Tensor<S>, eps: S::F) -> (r: Result<Tensor<S>, Error>)
    ensures
        normed_out::<S>(x@, g@, eps, outcome(r)),
{
    match rms_norm(x, eps) {
        Ok(t) => gain(&t, g),
        Err(e) => Err(e),
    }
}

/// Shape of one column for each place.
pub open spec fn column_shape(shape: Seq<usize>) -> Seq<usize> {
    seq![shape[0], shape[1], 1]
}

/// What `widened` comes to: a column of ones after the columns of `xn`.
pub open spec fn widened_out<S: Scalars>(x: Model<S>, xn: Model<S>, r: Outcome<S>) -> bool {
    if x.shape.len() < 2 {
        r is Err && misfit(r->Err_0, "fused_block"@)
    } else {
        exists|o: Outcome<S>| #[trigger]
            ones_out::<S>(column_shape(x.shape), Dtype::F32, o) && passes(
                o,
                r,
                join_out::<S>("fused_block"@, seq![xn, o->Ok_0], 2, r),
            )
    }
}

fn widened<S: Scalars>(x: &Tensor<S>, xn: &Tensor<S>) -> (r: Result<Tensor<S>, Error>)
    ensures
        widened_out::<S>(x@, xn@, outcome(r)),
{
    if x.rank() < 2 {
        return Err(misfit_error("fused_block"));
    }
    let mut shape: Vec<usize> = Vec::new();
    shape.push(x.shape()[0]);
    shape.push(x.shape()[1]);
    shape.push(1);
    assert(shape@ =~= column_shape(x@.shape));
    match Tensor::ones(shape.as_slice(), Dtype::F32) {
        Ok(t) => join("fused_block", xn, &t, 2),
        Err(e) => Err(e),
    }
}

/// What the recurrence of the block comes to: its gates and its states.
pub open spec fn gates_out<S: Scalars>(
    x: Model<S>,
    wa: Model<S>,
    wb: Model<S>,
    g1: Model<S>,
    eps: S::F,
    r: Result<(Model<S>, Model<S>), Error>,
) -> bool {
    exists|o: Outcome<S>| #[trigger]
        normed_out::<S>(x, g1, eps, o) && passes(o, r, gates_of::<S>(x, o->Ok_0, wa, wb, r))
}

/// Gates and states from the normalized input.
pub open spec fn gates_of<S: Scalars>(
    x: Model<S>,
    xn: Model<S>,
    wa: Model<S>,
    wb: Model<S>,
    r: Result<(Model<S>, Model<S>), Error>,
) -> bool {
    exists|o: Outcome<S>| #[trigger]
        widened_out::<S>(x, xn, o) && passes(o, r, states_out::<S>(xn, o->Ok_0, wa, wb, r))
}

/// Gates from the widened input, inputs from the input, states from both.
pub open spec fn states_out<S: Scalars>(
    xn: Model<S>,
    xna: Model<S>,
    wa: Model<S>,
    wb: Model<S>,
    r: Result<(Model<S>, Model<S>), Error>,
) -> bool {
    exists|o: Outcome<S>| #[trigger]
        matmul_out::<S>(xna, wa, o) && passes(o, r, states_of_gates::<S>(xn, o->Ok_0, wb, r))
}

/// The gates are the sigmoid of `ua`.
pub open spec fn states_of_gates<S: Scalars>(
    xn: Model<S>,
    ua: Model<S>,
    wb: Model<S>,
    r: Result<(Model<S>, Model<S>), Error>,
) -> bool {
    exists|o: Outcome<S>| #[trigger]
        sigmoid_out::<S>(ua, o) && passes(o, r, states_of_inputs::<S>(xn, o->Ok_0, wb, r))
}

/// The inputs are `xn @ wb`.
pub open spec fn states_of_inputs<S: Scalars>(
    xn: Model<S>,
    a: Model<S>,
    wb: Model<S>,
    r: Result<(Model<S>, Model<S>), Error>,
) -> bool {
    exists|o: Outcome<S>| #[trigger]
        matmul_out::<S>(xn, wb, o) && passes(o, r, scanned::<S>(a, o->Ok_0, r))
}

/// The states are the recurrence of gates and inputs.
pub open spec fn scanned<S: Scalars>(
    a: Model<S>,
    ub: Model<S>,
    r: Result<(Model<S>, Model<S>), Error>,
) -> bool {
    exists|o: Outcome<S>| #[trigger]
        gated_scan_out::<S>(a, ub, o) && passes(o, r, gives(r, (a, o->Ok_0)))
}

fn states<S: Scalars>(
    xn: &Tensor<S>,
    xna: &Tensor<S>,
    wa: &Tensor<S>,
    wb: &Tensor<S>,
) -> (r: Result<
    (Tensor<S>, Tensor<S>),
    Error,
>)
    ensures
        states_out::<S>(xn@, xna@, wa@, wb@, pair_outcome(r)),
{
    let ua: Tensor<S> = match matmul(xna, wa) {
        Ok(t) => t,
        Err(e) => {
            return Err(e);
        },
    };
    let a: Tensor<S> = match sigmoid(&ua) {
        Ok(t) => t,
        Err(e) => {
            return Err(e);
        },
    };
    let ub: Tensor<S> = match matmul(xn, wb) {
        Ok(t) => t,
        Err(e) => {
            return Err(e);
        },
    };
    match gated_scan(&a, &ub) {
        Ok(h) => Ok((a, h)),
        Err(e) => Err(e),
    }
}

fn gates<S: Scalars>(
    x: &Tensor<S>,
    wa: &Tensor<S>,
    wb: &Tensor<S>,
    g1: &Tensor<S>,
    eps: S::F,
) -> (r: Result<(Tensor<S>, Tensor<S>), Error>)
    ensures
        gates_out::<S>(x@, wa@, wb@, g1@, eps, pair_outcome(r)),
{
    let xn: Tensor<S> = match normed(x, g1, eps) {
        Ok(t) => t,
        Err(e) => {
            return Err(e);
        },
    };
    let xna: Tensor<S> = match widened(x, &xn) {
        Ok(t) => t,
        Err(e) => {
            return Err(e);
        },
    };
    states(&xn, &xna, wa, wb)
}

/// What the mixing of the states into the block comes to: `silu(h * g2)` and `x + silu(..) @ wo`.
pub open spec fn mixed_out<S: Scalars>(
    x: Model<S>,
    h: Model<S>,
    wo: Model<S>,
    g2: Model<S>,
    r: Result<(Model<S>, Model<S>), Error>,
) -> bool {
    exists|o: Outcome<S>| #[trigger]
        gain_out::<S>(h, g2, o) && passes(o, r, mixed_of::<S>(x, o->Ok_0, wo, r))
}

/// The mix from `h * g2`.
pub open spec fn mixed_of<S: Scalars>(
    x: Model<S>,
    hg: Model<S>,
    wo: Model<S>,
    r: Result<(Model<S>, Model<S>), Error>,
) -> bool {
    exists|o: Outcome<S>| #[trigger]
        silu_f32_out::<S>(hg, o) && passes(o, r, projected::<S>(x, o->Ok_0, wo, r))
}

/// `s2` and `x + s2 @ wo`.
pub open spec fn projected<S: Scalars>(
    x: Model<S>,
    s2: Model<S>,
    wo: Model<S>,
    r: Result<(Model<S>, Model<S>), Error>,
) -> bool {
    exists|o: Outcome<S>| #[trigger]
        matmul_out::<S>(s2, wo, o) && passes(o, r, rejoined::<S>(x, s2, o->Ok_0, r))
}

/// `s2` and `x + so`.
pub open spec fn rejoined<S: Scalars>(
    x: Model<S>,
    s2: Model<S>,
    so: Model<S>,
    r: Result<(Model<S>, Model<S>), Error>,
) -> bool {
    exists|o: Outcome<S>| #[trigger]
        joint_out::<S>(x, so, o) && passes(o, r, gives(r, (s2, o->Ok_0)))
}

fn mixed<S: Scalars>(x: &Tensor<S>, h: &Tensor<S>, wo: &Tensor<S>, g2: &Tensor<S>) -> (r: Result<
    (Tensor<S>, Tensor<S>),
    Error,
>)
    ensures
        mixed_out::<S>(x@, h@, wo@, g2@, pair_outcome(r)),
{
    let hg: Tensor<S> = match gain(h, g2) {
        Ok(t) => t,
        Err(e) => {
            return Err(e);
        },
    };
    let s2: Tensor<S> = match silu_f32(&hg) {
        Ok(t) => t,
        Err(e) => {
            return Err(e);
        },
    };
    let so: Tensor<S> = match matmul(&s2, wo) {
        Ok(t) => t,
        Err(e) => {
            return Err(e);
        },
    };
    match joint(x, &so) {
        Ok(t) => Ok((s2, t)),
        Err(e) => Err(e),
    }
}

/// What the feed-forward half keeps: its input, its hidden layer and its output.
pub ghost struct FeedModel<S: Scalars> {
    pub xn2: Model<S>,
    pub f1: Model<S>,
    pub f2: Model<S>,
}

/// What the feed-forward half comes to, before its gain.
pub open spec fn fed_out<S: Scalars>(
    out1: Model<S>,
    wf1: Model<S>,
    wf2: Model<S>,
    g3: Model<S>,
    eps: S::F,
    r: Result<FeedModel<S>, Error>,
) -> bool {
    exists|o: Outcome<S>| #[trigger]
        normed_out::<S>(out1, g3, eps, o) && passes(o, r, fed_of::<S>(o->Ok_0, wf1, wf2, r))
}

/// The hidden layer is `xn2 @ wf1`.
pub open spec fn fed_of<S: Scalars>(
    xn2: Model<S>,
    wf1: Model<S>,
    wf2: Model<S>,
    r: Result<FeedModel<S>, Error>,
) -> bool {
    exists|o: Outcome<S>| #[trigger]
        matmul_out::<S>(xn2, wf1, o) && passes(o, r, fed_hidden::<S>(xn2, o->Ok_0, wf2, r))
}

/// SiLU of the hidden layer.
pub open spec fn fed_hidden<S: Scalars>(
    xn2: Model<S>,
    f1: Model<S>,
    wf2: Model<S>,
    r: Result<FeedModel<S>, Error>,
) -> bool {
    exists|o: Outcome<S>| #[trigger]
        silu_f32_out::<S>(f1, o) && passes(o, r, fed_last::<S>(xn2, f1, o->Ok_0, wf2, r))
}

/// The output is `sf1 @ wf2`.
pub open spec fn fed_last<S: Scalars>(
    xn2: Model<S>,
    f1: Model<S>,
    sf1: Model<S>,
    wf2: Model<S>,
    r: Result<FeedModel<S>, Error>,
) -> bool {
    exists|o: Outcome<S>| #[trigger]
        matmul_out::<S>(sf1, wf2, o) && passes(
            o,
            r,
            gives(r, FeedModel { xn2, f1, f2: o->Ok_0 }),
        )
}

/// What the feed-forward half keeps.
struct Feed<S: Scalars> {
    xn2: Tensor<S>,
    f1: Tensor<S>,
    f2: Tensor<S>,
}

spec fn feed_outcome<S: Scalars>(r: Result<Feed<S>, Error>) -> Result<FeedModel<S>, Error> {
    match r {
        Ok(f) => Ok(FeedModel { xn2: f.xn2@, f1: f.f1@, f2: f.f2@ }),
        Err(e) => Err(e),
    }
}

fn fed<S: Scalars>(
    out1: &Tensor<S>,
    wf1: &Tensor<S>,
    wf2: &Tensor<S>,
    g3: &Tensor<S>,
    eps: S::F,
) -> (r: Result<Feed<S>, Error>)
    ensures
        fed_out::<S>(out1@, wf1@, wf2@, g3@, eps, feed_outcome(r)),
{
    let xn2: Tensor<S> = match normed(out1, g3, eps) {
        Ok(t) => t,
        Err(e) => {
            return Err(e);
        },
    };
    let f1: Tensor<S> = match matmul(&xn2, wf1) {
        Ok(t) => t,
        Err(e) => {
            return Err(e);
        },
    };
    let sf1: Tensor<S> = match silu_f32(&f1) {
        Ok(t) => t,
        Err(e) => {
            return Err(e);
        },
    };
    match matmul(&sf1, wf2) {
        Ok(f2) => Ok(Feed { xn2, f1, f2 }),
        Err(e) => Err(e),
    }
}

/// What `finished` comes to: `out1 + f2 * g4`.
pub open spec fn finished_out<S: Scalars>(
    out1: Model<S>,
    f2: Model<S>,
    g4: Model<S>,
    r: Outcome<S>,
) -> bool {
    exists|o: Outcome<S>| #[trigger]
        gain_out::<S>(f2, g4, o) && passes(o, r, joint_out::<S>(out1, o->Ok_0, r))
}

fn finished<S: Scalars>(out1: &Tensor<S>, f2: &Tensor<S>, g4: &Tensor<S>) -> (r: Result<
    Tensor<S>,
    Error,
>)
    ensures
        finished_out::<S>(out1@, f2@, g4@, outcome(r)),
{
    match gain(f2, g4) {
        Ok(f) => joint(out1, &f),
        Err(e) => Err(e),
    }
}

/// Values that the forward pass keeps for the backward pass.
pub struct FusedAux<S: Scalars> {
    /// Block input `[B, T, D]`.
    pub x: Tensor<S>,
    /// Gates `[B, T, D]`.
    pub a: Tensor<S>,
    /// States `[B, T, D]`.
    pub h: Tensor<S>,
    /// `silu(h * g2)` `[B, T, D]`.
    pub s2: Tensor<S>,
    /// `x + s2 @ wo` `[B, T, D]`.
    pub out1: Tensor<S>,
    /// `rms(out1) * g3` `[B, T, D]`.
    pub xn2: Tensor<S>,
    /// `xn2 @ wf1` `[B, T, 2D]`.
    pub f1: Tensor<S>,
    /// `silu(f1) @ wf2` `[B, T, D]`.
    pub f2: Tensor<S>,
}

/// What the kept values hold.
pub ghost struct AuxModel<S: Scalars> {
    pub x: Model<S>,
    pub a: Model<S>,
    pub h: Model<S>,
    pub s2: Model<S>,
    pub out1: Model<S>,
    pub xn2: Model<S>,
    pub f1: Model<S>,
    pub f2: Model<S>,
}

impl<S: Scalars> View for FusedAux<S> {
    type V = AuxModel<S>;

    open spec fn view(&self) -> AuxModel<S> {
        AuxModel {
            x: self.x@,
            a: self.a@,
            h: self.h@,
            s2: self.s2@,
            out1: self.out1@,
            xn2: self.xn2@,
            f1: self.f1@,
            f2: self.f2@,
        }
    }
}

/// The block's output and kept values, or an error.
pub open spec fn block_outcome<S: Scalars>(r: Result<(Tensor<S>, FusedAux<S>), Error>) -> Result<
    (Model<S>, AuxModel<S>),
    Error,
> {
    match r {
        Ok(p) => Ok((p.0@, p.1@)),
        Err(e) => Err(e),
    }
}

/// The weights of a block: matrices of gates, inputs, outputs and feed-forward, and four gains.
pub struct Weights<'a, S: Scalars> {
    pub wa: &'a Tensor<S>,
    pub wb: &'a Tensor<S>,
    pub wo: &'a Tensor<S>,
    pub wf1: &'a Tensor<S>,
    pub wf2: &'a Tensor<S>,
    pub g1: &'a Tensor<S>,
    pub g2: &'a Tensor<S>,
    pub g3: &'a Tensor<S>,
    pub g4: &'a Tensor<S>,
}

/// What the weights hold.
pub ghost struct WeightsModel<S: Scalars> {
    pub wa: Model<S>,
    pub wb: Model<S>,
    pub wo: Model<S>,
    pub wf1: Model<S>,
    pub wf2: Model<S>,
    pub g1: Model<S>,
    pub g2: Model<S>,
    pub g3: Model<S>,
    pub g4: Model<S>,
}

impl<'a, S: Scalars> View for Weights<'a, S> {
    type V = WeightsModel<S>;

    open spec fn view(&self) -> WeightsModel<S> {
        WeightsModel {
            wa: self.wa@,
            wb: self.wb@,
            wo: self.wo@,
            wf1: self.wf1@,
            wf2: self.wf2@,
            g1: self.g1@,
            g2: self.g2@,
            g3: self.g3@,
            g4: self.g4@,
        }
    }
}

/// What `fused_block_fwd` comes to: gates and states, their mix, the feed-forward half, and the
/// sum.
pub open spec fn fused_block_fwd_out<S: Scalars>(
    x: Model<S>,
    w: WeightsModel<S>,
    eps: S::F,
    r: Result<(Model<S>, AuxModel<S>), Error>,
) -> bool {
    if x.dtype() != Dtype::F32 {
        r is Err && r->Err_0.says(ErrorKind::Dtype, "fused_block"@, "f32 only"@)
    } else if x.shape.len() != 3 {
        r is Err && r->Err_0.says(ErrorKind::Shape, "fused_block"@, "expected [B, T, D]"@)
    } else {
        exists|o: Result<(Model<S>, Model<S>), Error>| #[trigger]
            gates_out::<S>(x, w.wa, w.wb, w.g1, eps, o) && passes(
                o,
                r,
                block_of_states::<S>(x, w, eps, o->Ok_0.0, o->Ok_0.1, r),
            )
    }
}

/// The block from its gates `a` and states `h`.
pub open spec fn block_of_states<S: Scalars>(
    x: Model<S>,
    w: WeightsModel<S>,
    eps: S::F,
    a: Model<S>,
    h: Model<S>,
    r: Result<(Model<S>, AuxModel<S>), Error>,
) -> bool {
    exists|o: Result<(Model<S>, Model<S>), Error>| #[trigger]
        mixed_out::<S>(x, h, w.wo, w.g2, o) && passes(
            o,
            r,
            block_of_mix::<S>(x, w, eps, a, h, o->Ok_0.0, o->Ok_0.1, r),
        )
}

/// The block from its mix `s2` and first sum `out1`.
pub open spec fn block_of_mix<S: Scalars>(
    x: Model<S>,
    w: WeightsModel<S>,
    eps: S::F,
    a: Model<S>,
    h: Model<S>,
    s2: Model<S>,
    out1: Model<S>,
    r: Result<(Model<S>, AuxModel<S>), Error>,
) -> bool {
    exists|o: Result<FeedModel<S>, Error>| #[trigger]
        fed_out::<S>(out1, w.wf1, w.wf2, w.g3, eps, o) && passes(
            o,
            r,
            block_of_feed::<S>(
                w,
                AuxModel {
                    x,
                    a,
                    h,
                    s2,
                    out1,
                    xn2: o->Ok_0.xn2,
                    f1: o->Ok_0.f1,
                    f2: o->Ok_0.f2,
                },
                r,
            ),
        )
}

/// The block from all that it keeps.
pub open spec fn block_of_feed<S: Scalars>(
    w: WeightsModel<S>,
    aux: AuxModel<S>,
    r: Result<(Model<S>, AuxModel<S>), Error>,
) -> bool {
    exists|o: Outcome<S>| #[trigger]
        finished_out::<S>(aux.out1, aux.f2, w.g4, o) && passes(o, r, gives(r, (o->Ok_0, aux)))
}

/// Forward pass.
pub fn block_forward<S: Scalars>(x: &Tensor<S>, w: &Weights<S>, eps: S::F) -> (r: Result<
    (Tensor<S>, FusedAux<S>),
    Error,
>)
    ensures
        fused_block_fwd_out::<S>(x@, w@, eps, block_outcome(r)),
{
    if x.dtype() != Dtype::F32 {
        return Err(Error::dtype("fused_block", "f32 only".to_owned()));
    }
    if x.rank() != 3 {
        return Err(Error::shape("fused_block", "expected [B, T, D]".to_owned()));
    }
    let (a, h): (Tensor<S>, Tensor<S>) = match gates(x, w.wa, w.wb, w.g1, eps) {
        Ok(p) => p,
        Err(e) => {
            return Err(e);
        },
    };
    let (s2, out1): (Tensor<S>, Tensor<S>) = match mixed(x, &h, w.wo, w.g2) {
        Ok(p) => p,
        Err(e) => {
            return Err(e);
        },
    };
    let feed: Feed<S> = match fed(&out1, w.wf1, w.wf2, w.g3, eps) {
        Ok(f) => f,
        Err(e) => {
            return Err(e);
        },
    };
    match finished(&out1, &feed.f2, w.g4) {
        Ok(y) => {
            let Feed { xn2, f1, f2 } = feed;
            Ok((y, FusedAux { x: x.clone(), a, h, s2, out1, xn2, f1, f2 }))
        },
        Err(e) => Err(e),
    }
}

/// Three tensors, or an error.
pub open spec fn triple_outcome<S: Scalars>(
    r: Result<(Tensor<S>, Tensor<S>, Tensor<S>), Error>,
) -> Result<(Model<S>, Model<S>, Model<S>), Error> {
    match r {
        Ok(p) => Ok((p.0@, p.1@, p.2@)),
        Err(e) => Err(e),
    }
}

/// The first two axes.
pub open spec fn leading_axes() -> Option<Seq<isize>> {
    Some(seq![0isize, 1isize])
}

/// The first axis.
pub open spec fn first_axis() -> Option<Seq<isize>> {
    Some(seq![0isize])
}

/// Sums over the first two axes.
fn sum_leading<S: Scalars>(t: &Tensor<S>) -> (r: Result<Tensor<S>, Error>)
    ensures
        sum_out::<S>(t@, leading_axes(), false, outcome(r)),
{
    let mut axes: Vec<isize> = Vec::new();
    axes.push(0);
    axes.push(1);
    let asked: Option<&[isize]> = Some(axes.as_slice());
    assert(axes@ =~= seq![0isize, 1isize]);
    assert(seen(asked) == leading_axes());
    sum(t, asked, false)
}

/// Sums over the first axis.
pub fn sum_first<S: Scalars>(t: &Tensor<S>) -> (r: Result<Tensor<S>, Error>)
    ensures
        sum_out::<S>(t@, first_axis(), false, outcome(r)),
{
    let mut axes: Vec<isize> = Vec::new();
    axes.push(0);
    let asked: Option<&[isize]> = Some(axes.as_slice());
    assert(axes@ =~= seq![0isize]);
    assert(seen(asked) == first_axis());
    sum(t, asked, false)
}

/// The cotangent of a gain comes to: the product summed over batch and time.
pub open spec fn gain_slope_out<S: Scalars>(
    a: Model<S>,
    b: Model<S>,
    r: Outcome<S>,
) -> bool {
    exists|o: Outcome<S>| #[trigger]
        gain_out::<S>(a, b, o) && passes(
            o,
            r,
            gain_slope_sum::<S>(o->Ok_0, r),
        )
}

/// The rest of it, once `p` is there.
pub open spec fn gain_slope_sum<S: Scalars>(
    p: Model<S>,
    r: Outcome<S>,
) -> bool {
    sum_out::<S>(p, leading_axes(), false, r)
}

/// The cotangent of a gain: `sum(a * b)` over batch and time.
fn gain_slope<S: Scalars>(
    a: &Tensor<S>,
    b: &Tensor<S>,
) -> (r: Result<Tensor<S>, Error>)
    ensures
        gain_slope_out::<S>(a@, b@, outcome(r)),
{
    let p: Tensor<S> = match gain(a, b) {
        Ok(t) => t,
        Err(e) => {
            return Err(e);
        },
    };
    sum_leading(&p)
}

/// What `a @ b^T` comes to.
pub open spec fn turned_product_out<S: Scalars>(
    a: Model<S>,
    b: Model<S>,
    r: Outcome<S>,
) -> bool {
    exists|o: Outcome<S>| #[trigger]
        transpose_out::<S>(b, o) && passes(
            o,
            r,
            turned_product_of::<S>(a, o->Ok_0, r),
        )
}

/// The rest of it, once `bt` is there.
pub open spec fn turned_product_of<S: Scalars>(
    a: Model<S>,
    bt: Model<S>,
    r: Outcome<S>,
) -> bool {
    matmul_out::<S>(a, bt, r)
}

/// `a @ b^T`.
fn turned_product<S: Scalars>(
    a: &Tensor<S>,
    b: &Tensor<S>,
) -> (r: Result<Tensor<S>, Error>)
    ensures
        turned_product_out::<S>(a@, b@, outcome(r)),
{
    let bt: Tensor<S> = match b.transpose() {
        Ok(t) => t,
        Err(e) => {
            return Err(e);
        },
    };
    matmul(a, &bt)
}

/// What the cotangent of a weight comes to: `a^T @ b` summed over the batch.
pub open spec fn weight_slope_out<S: Scalars>(
    a: Model<S>,
    b: Model<S>,
    r: Outcome<S>,
) -> bool {
    exists|o: Outcome<S>| #[trigger]
        transpose_out::<S>(a, o) && passes(
            o,
            r,
            weight_slope_product::<S>(b, o->Ok_0, r),
        )
}

/// The rest of it, once `at` is there.
pub open spec fn weight_slope_product<S: Scalars>(
    b: Model<S>,
    at: Model<S>,
    r: Outcome<S>,
) -> bool {
    exists|o: Outcome<S>| #[trigger]
        matmul_out::<S>(at, b, o) && passes(
            o,
            r,
            weight_slope_sum::<S>(o->Ok_0, r),
        )
}

/// The rest of it, once `p` is there.
pub open spec fn weight_slope_sum<S: Scalars>(
    p: Model<S>,
    r: Outcome<S>,
) -> bool {
    sum_out::<S>(p, first_axis(), false, r)
}

/// The cotangent of a weight: `a^T @ b` summed over the batch.
fn weight_slope<S: Scalars>(
    a: &Tensor<S>,
    b: &Tensor<S>,
) -> (r: Result<Tensor<S>, Error>)
    ensures
        weight_slope_out::<S>(a@, b@, outcome(r)),
{
    let at: Tensor<S> = match a.transpose() {
        Ok(t) => t,
        Err(e) => {
            return Err(e);
        },
    };
    let p: Tensor<S> = match matmul(&at, b) {
        Ok(t) => t,
        Err(e) => {
            return Err(e);
        },
    };
    sum_first(&p)
}

/// What the cotangents of the feed-forward half come to, from that of its output: of `wf2`, of `wf1` and of its input.
#[verifier::opaque]
pub open spec fn feed_slopes_out<S: Scalars>(
    f1: Model<S>,
    xn2: Model<S>,
    wf1: Model<S>,
    wf2: Model<S>,
    dm: Model<S>,
    r: Result<(Model<S>, Model<S>, Model<S>), Error>,
) -> bool {
    exists|o: Outcome<S>| #[trigger]
        silu_f32_out::<S>(f1, o) && passes(
            o,
            r,
            feed_slopes_last::<S>(f1, xn2, wf1, wf2, dm, o->Ok_0, r),
        )
}

/// The rest of it, once `sf1` is there.
pub open spec fn feed_slopes_last<S: Scalars>(
    f1: Model<S>,
    xn2: Model<S>,
    wf1: Model<S>,
    wf2: Model<S>,
    dm: Model<S>,
    sf1: Model<S>,
    r: Result<(Model<S>, Model<S>, Model<S>), Error>,
) -> bool {
    exists|o: Outcome<S>| #[trigger]
        weight_slope_out::<S>(sf1, dm, o) && passes(
            o,
            r,
            feed_slopes_hidden::<S>(f1, xn2, wf1, wf2, dm, o->Ok_0, r),
        )
}

/// The rest of it, once `gwf2` is there.
pub open spec fn feed_slopes_hidden<S: Scalars>(
    f1: Model<S>,
    xn2: Model<S>,
    wf1: Model<S>,
    wf2: Model<S>,
    dm: Model<S>,
    gwf2: Model<S>,
    r: Result<(Model<S>, Model<S>, Model<S>), Error>,
) -> bool {
    exists|o: Outcome<S>| #[trigger]
        turned_product_out::<S>(dm, wf2, o) && passes(
            o,
            r,
            feed_slopes_local::<S>(f1, xn2, wf1, gwf2, o->Ok_0, r),
        )
}

/// The rest of it, once `dsf1` is there.
pub open spec fn feed_slopes_local<S: Scalars>(
    f1: Model<S>,
    xn2: Model<S>,
    wf1: Model<S>,
    gwf2: Model<S>,
    dsf1: Model<S>,
    r: Result<(Model<S>, Model<S>, Model<S>), Error>,
) -> bool {
    exists|o: Outcome<S>| #[trigger]
        mapped_out::<S>(f1, silu_slope_rel::<S::F, S>(), o) && passes(
            o,
            r,
            feed_slopes_bent::<S>(xn2, wf1, gwf2, dsf1, o->Ok_0, r),
        )
}

/// The rest of it, once `sl` is there.
pub open spec fn feed_slopes_bent<S: Scalars>(
    xn2: Model<S>,
    wf1: Model<S>,
    gwf2: Model<S>,
    dsf1: Model<S>,
    sl: Model<S>,
    r: Result<(Model<S>, Model<S>, Model<S>), Error>,
) -> bool {
    exists|o: Outcome<S>| #[trigger]
        gain_out::<S>(dsf1, sl, o) && passes(
            o,
            r,
            feed_slopes_first::<S>(xn2, wf1, gwf2, o->Ok_0, r),
        )
}

/// The rest of it, once `d_pre` is there.
pub open spec fn feed_slopes_first<S: Scalars>(
    xn2: Model<S>,
    wf1: Model<S>,
    gwf2: Model<S>,
    d_pre: Model<S>,
    r: Result<(Model<S>, Model<S>, Model<S>), Error>,
) -> bool {
    exists|o: Outcome<S>| #[trigger]
        weight_slope_out::<S>(xn2, d_pre, o) && passes(
            o,
            r,
            feed_slopes_input::<S>(wf1, gwf2, d_pre, o->Ok_0, r),
        )
}

/// The rest of it, once `gwf1` is there.
pub open spec fn feed_slopes_input<S: Scalars>(
    wf1: Model<S>,
    gwf2: Model<S>,
    d_pre: Model<S>,
    gwf1: Model<S>,
    r: Result<(Model<S>, Model<S>, Model<S>), Error>,
) -> bool {
    exists|o: Outcome<S>| #[trigger]
        turned_product_out::<S>(d_pre, wf1, o) && passes(
            o,
            r,
            gives(r, (gwf2, gwf1, o->Ok_0)),
        )
}

/// The cotangents of the feed-forward half.
fn feed_slopes<S: Scalars>(
    f1: &Tensor<S>,
    xn2: &Tensor<S>,
    wf1: &Tensor<S>,
    wf2: &Tensor<S>,
    dm: &Tensor<S>,
) -> (r: Result<(Tensor<S>, Tensor<S>, Tensor<S>), Error>)
    ensures
        feed_slopes_out::<S>(f1@, xn2@, wf1@, wf2@, dm@, triple_outcome(r)),
{
    proof {
        reveal(feed_slopes_out);
    }
    let sf1: Tensor<S> = match silu_f32(f1) {
        Ok(t) => t,
        Err(e) => {
            return Err(e);
        },
    };
    let gwf2: Tensor<S> = match weight_slope(&sf1, dm) {
        Ok(t) => t,
        Err(e) => {
            return Err(e);
        },
    };
    let dsf1: Tensor<S> = match turned_product(dm, wf2) {
        Ok(t) => t,
        Err(e) => {
            return Err(e);
        },
    };
    let sl: Tensor<S> = match silu_local(f1) {
        Ok(t) => t,
        Err(e) => {
            return Err(e);
        },
    };
    let d_pre: Tensor<S> = match gain(&dsf1, &sl) {
        Ok(t) => t,
        Err(e) => {
            return Err(e);
        },
    };
    let gwf1: Tensor<S> = match weight_slope(xn2, &d_pre) {
        Ok(t) => t,
        Err(e) => {
            return Err(e);
        },
    };
    let dxn2: Tensor<S> = match turned_product(&d_pre, wf1) {
        Ok(t) => t,
        Err(e) => {
            return Err(e);
        },
    };
    Ok((gwf2, gwf1, dxn2))
}

/// What the cotangents at the second normalization come to: of its gain and of `out1`, which also feeds the sum.
#[verifier::opaque]
pub open spec fn second_norm_slopes_out<S: Scalars>(
    out1: Model<S>,
    g3: Model<S>,
    eps: S::F,
    dxn2: Model<S>,
    gy: Model<S>,
    r: Result<(Model<S>, Model<S>), Error>,
) -> bool {
    exists|o: Outcome<S>| #[trigger]
        rms_norm_out::<S>(out1, eps, o) && passes(
            o,
            r,
            second_norm_gain::<S>(out1, g3, eps, dxn2, gy, o->Ok_0, r),
        )
}

/// The rest of it, once `r2` is there.
pub open spec fn second_norm_gain<S: Scalars>(
    out1: Model<S>,
    g3: Model<S>,
    eps: S::F,
    dxn2: Model<S>,
    gy: Model<S>,
    r2: Model<S>,
    r: Result<(Model<S>, Model<S>), Error>,
) -> bool {
    exists|o: Outcome<S>| #[trigger]
        gain_slope_out::<S>(dxn2, r2, o) && passes(
            o,
            r,
            second_norm_scaled::<S>(out1, g3, eps, dxn2, gy, o->Ok_0, r),
        )
}

/// The rest of it, once `gg3` is there.
pub open spec fn second_norm_scaled<S: Scalars>(
    out1: Model<S>,
    g3: Model<S>,
    eps: S::F,
    dxn2: Model<S>,
    gy: Model<S>,
    gg3: Model<S>,
    r: Result<(Model<S>, Model<S>), Error>,
) -> bool {
    exists|o: Outcome<S>| #[trigger]
        gain_out::<S>(dxn2, g3, o) && passes(
            o,
            r,
            second_norm_back::<S>(out1, eps, gy, gg3, o->Ok_0, r),
        )
}

/// The rest of it, once `dxn2g` is there.
pub open spec fn second_norm_back<S: Scalars>(
    out1: Model<S>,
    eps: S::F,
    gy: Model<S>,
    gg3: Model<S>,
    dxn2g: Model<S>,
    r: Result<(Model<S>, Model<S>), Error>,
) -> bool {
    exists|o: Outcome<S>| #[trigger]
        rms_back_out::<S>("fused_block"@, out1, dxn2g, eps, o) && passes(
            o,
            r,
            second_norm_sum::<S>(gy, gg3, o->Ok_0, r),
        )
}

/// The rest of it, once `back` is there.
pub open spec fn second_norm_sum<S: Scalars>(
    gy: Model<S>,
    gg3: Model<S>,
    back: Model<S>,
    r: Result<(Model<S>, Model<S>), Error>,
) -> bool {
    exists|o: Outcome<S>| #[trigger]
        joint_out::<S>(back, gy, o) && passes(
            o,
            r,
            gives(r, (gg3, o->Ok_0)),
        )
}

/// The cotangents at the second normalization.
fn second_norm_slopes<S: Scalars>(
    out1: &Tensor<S>,
    g3: &Tensor<S>,
    eps: S::F,
    dxn2: &Tensor<S>,
    gy: &Tensor<S>,
) -> (r: Result<(Tensor<S>, Tensor<S>), Error>)
    ensures
        second_norm_slopes_out::<S>(out1@, g3@, eps, dxn2@, gy@, pair_outcome(r)),
{
    proof {
        reveal(second_norm_slopes_out);
    }
    let r2: Tensor<S> = match rms_norm(out1, eps) {
        Ok(t) => t,
        Err(e) => {
            return Err(e);
        },
    };
    let gg3: Tensor<S> = match gain_slope(dxn2, &r2) {
        Ok(t) => t,
        Err(e) => {
            return Err(e);
        },
    };
    let dxn2g: Tensor<S> = match gain(dxn2, g3) {
        Ok(t) => t,
        Err(e) => {
            return Err(e);
        },
    };
    let back: Tensor<S> = match rms_back("fused_block", out1, &dxn2g, eps) {
        Ok(t) => t,
        Err(e) => {
            return Err(e);
        },
    };
    let dout1: Tensor<S> = match joint(&back, gy) {
        Ok(t) => t,
        Err(e) => {
            return Err(e);
        },
    };
    Ok((gg3, dout1))
}

/// What the cotangents of the mix come to: of `wo`, of the states and of the gain `g2`.
#[verifier::opaque]
pub open spec fn mix_slopes_out<S: Scalars>(
    h: Model<S>,
    s2: Model<S>,
    wo: Model<S>,
    g2: Model<S>,
    dout1: Model<S>,
    r: Result<(Model<S>, Model<S>, Model<S>), Error>,
) -> bool {
    exists|o: Outcome<S>| #[trigger]
        turned_product_out::<S>(dout1, wo, o) && passes(
            o,
            r,
            mix_slopes_weight::<S>(h, s2, g2, dout1, o->Ok_0, r),
        )
}

/// The rest of it, once `gs2` is there.
pub open spec fn mix_slopes_weight<S: Scalars>(
    h: Model<S>,
    s2: Model<S>,
    g2: Model<S>,
    dout1: Model<S>,
    gs2: Model<S>,
    r: Result<(Model<S>, Model<S>, Model<S>), Error>,
) -> bool {
    exists|o: Outcome<S>| #[trigger]
        weight_slope_out::<S>(s2, dout1, o) && passes(
            o,
            r,
            mix_slopes_gained::<S>(h, g2, gs2, o->Ok_0, r),
        )
}

/// The rest of it, once `gwo` is there.
pub open spec fn mix_slopes_gained<S: Scalars>(
    h: Model<S>,
    g2: Model<S>,
    gs2: Model<S>,
    gwo: Model<S>,
    r: Result<(Model<S>, Model<S>, Model<S>), Error>,
) -> bool {
    exists|o: Outcome<S>| #[trigger]
        gain_out::<S>(h, g2, o) && passes(
            o,
            r,
            mix_slopes_local::<S>(h, g2, gs2, gwo, o->Ok_0, r),
        )
}

/// The rest of it, once `hg` is there.
pub open spec fn mix_slopes_local<S: Scalars>(
    h: Model<S>,
    g2: Model<S>,
    gs2: Model<S>,
    gwo: Model<S>,
    hg: Model<S>,
    r: Result<(Model<S>, Model<S>, Model<S>), Error>,
) -> bool {
    exists|o: Outcome<S>| #[trigger]
        mapped_out::<S>(hg, silu_slope_rel::<S::F, S>(), o) && passes(
            o,
            r,
            mix_slopes_bent::<S>(h, g2, gs2, gwo, o->Ok_0, r),
        )
}

/// The rest of it, once `sl` is there.
pub open spec fn mix_slopes_bent<S: Scalars>(
    h: Model<S>,
    g2: Model<S>,
    gs2: Model<S>,
    gwo: Model<S>,
    sl: Model<S>,
    r: Result<(Model<S>, Model<S>, Model<S>), Error>,
) -> bool {
    exists|o: Outcome<S>| #[trigger]
        gain_out::<S>(gs2, sl, o) && passes(
            o,
            r,
            mix_slopes_states::<S>(h, g2, gwo, o->Ok_0, r),
        )
}

/// The rest of it, once `ghg` is there.
pub open spec fn mix_slopes_states<S: Scalars>(
    h: Model<S>,
    g2: Model<S>,
    gwo: Model<S>,
    ghg: Model<S>,
    r: Result<(Model<S>, Model<S>, Model<S>), Error>,
) -> bool {
    exists|o: Outcome<S>| #[trigger]
        gain_out::<S>(ghg, g2, o) && passes(
            o,
            r,
            mix_slopes_gain::<S>(h, gwo, ghg, o->Ok_0, r),
        )
}

/// The rest of it, once `dh` is there.
pub open spec fn mix_slopes_gain<S: Scalars>(
    h: Model<S>,
    gwo: Model<S>,
    ghg: Model<S>,
    dh: Model<S>,
    r: Result<(Model<S>, Model<S>, Model<S>), Error>,
) -> bool {
    exists|o: Outcome<S>| #[trigger]
        gain_slope_out::<S>(ghg, h, o) && passes(
            o,
            r,
            gives(r, (gwo, dh, o->Ok_0)),
        )
}

/// The cotangents of the mix.
fn mix_slopes<S: Scalars>(
    h: &Tensor<S>,
    s2: &Tensor<S>,
    wo: &Tensor<S>,
    g2: &Tensor<S>,
    dout1: &Tensor<S>,
) -> (r: Result<(Tensor<S>, Tensor<S>, Tensor<S>), Error>)
    ensures
        mix_slopes_out::<S>(h@, s2@, wo@, g2@, dout1@, triple_outcome(r)),
{
    proof {
        reveal(mix_slopes_out);
    }
    let gs2: Tensor<S> = match turned_product(dout1, wo) {
        Ok(t) => t,
        Err(e) => {
            return Err(e);
        },
    };
    let gwo: Tensor<S> = match weight_slope(s2, dout1) {
        Ok(t) => t,
        Err(e) => {
            return Err(e);
        },
    };
    let hg: Tensor<S> = match gain(h, g2) {
        Ok(t) => t,
        Err(e) => {
            return Err(e);
        },
    };
    let sl: Tensor<S> = match silu_local(&hg) {
        Ok(t) => t,
        Err(e) => {
            return Err(e);
        },
    };
    let ghg: Tensor<S> = match gain(&gs2, &sl) {
        Ok(t) => t,
        Err(e) => {
            return Err(e);
        },
    };
    let dh: Tensor<S> = match gain(&ghg, g2) {
        Ok(t) => t,
        Err(e) => {
            return Err(e);
        },
    };
    let gg2: Tensor<S> = match gain_slope(&ghg, h) {
        Ok(t) => t,
        Err(e) => {
            return Err(e);
        },
    };
    Ok((gwo, dh, gg2))
}

/// What the cotangent before the sigmoid of the gates comes to: `ga * a * (1 - a)`.
pub open spec fn gate_slope_of_out<S: Scalars>(
    a: Model<S>,
    ga: Model<S>,
    r: Outcome<S>,
) -> bool {
    exists|o: Outcome<S>| #[trigger]
        mapped_out::<S>(a, rest_rel::<S::F, S>(), o) && passes(
            o,
            r,
            gate_slope_local::<S>(a, ga, o->Ok_0, r),
        )
}

/// The rest of it, once `low` is there.
pub open spec fn gate_slope_local<S: Scalars>(
    a: Model<S>,
    ga: Model<S>,
    low: Model<S>,
    r: Outcome<S>,
) -> bool {
    exists|o: Outcome<S>| #[trigger]
        gain_out::<S>(a, low, o) && passes(
            o,
            r,
            gate_slope_scaled::<S>(ga, o->Ok_0, r),
        )
}

/// The rest of it, once `p` is there.
pub open spec fn gate_slope_scaled<S: Scalars>(
    ga: Model<S>,
    p: Model<S>,
    r: Outcome<S>,
) -> bool {
    gain_out::<S>(ga, p, r)
}

/// The cotangent before the sigmoid of the gates.
fn gate_slope_of<S: Scalars>(
    a: &Tensor<S>,
    ga: &Tensor<S>,
) -> (r: Result<Tensor<S>, Error>)
    ensures
        gate_slope_of_out::<S>(a@, ga@, outcome(r)),
{
    let low: Tensor<S> = match rest(a) {
        Ok(t) => t,
        Err(e) => {
            return Err(e);
        },
    };
    let p: Tensor<S> = match gain(a, &low) {
        Ok(t) => t,
        Err(e) => {
            return Err(e);
        },
    };
    gain(ga, &p)
}

/// All rows of `wa` but the last.
pub open spec fn top_rows(rows: usize) -> Seq<Range3> {
    seq![(Some(0isize), Some((rows - 1) as isize), None::<isize>), (None, None, None)]
}

/// What `top_of` comes to.
pub open spec fn top_of_out<S: Scalars>(wa: Model<S>, r: Outcome<S>) -> bool {
    if wa.shape.len() == 0 || wa.shape[0] == 0 {
        r is Err && misfit(r->Err_0, "fused_block"@)
    } else {
        cut_out::<S>("fused_block"@, wa, top_rows(wa.shape[0]), r)
    }
}

/// The recurrence weights without their bias row.
fn top_of<S: Scalars>(wa: &Tensor<S>) -> (r: Result<Tensor<S>, Error>)
    ensures
        top_of_out::<S>(wa@, outcome(r)),
{
    if wa.rank() == 0 || wa.shape()[0] == 0 {
        return Err(misfit_error("fused_block"));
    }
    let rows: usize = wa.shape()[0];
    let mut ranges: Vec<Range3> = Vec::new();
    ranges.push((Some(0), Some((rows - 1) as isize), None));
    ranges.push((None, None, None));
    assert(ranges@ =~= top_rows(rows));
    cut("fused_block", wa, ranges.as_slice())
}

/// What the cotangents at the gates and inputs come to: of `wa`, of `wb` and of the normalized input.
#[verifier::opaque]
pub open spec fn input_slopes_out<S: Scalars>(
    x: Model<S>,
    xn: Model<S>,
    wa: Model<S>,
    wb: Model<S>,
    gua: Model<S>,
    gb: Model<S>,
    r: Result<(Model<S>, Model<S>, Model<S>), Error>,
) -> bool {
    exists|o: Outcome<S>| #[trigger]
        widened_out::<S>(x, xn, o) && passes(
            o,
            r,
            input_slopes_gate::<S>(xn, wa, wb, gua, gb, o->Ok_0, r),
        )
}

/// The rest of it, once `xna` is there.
pub open spec fn input_slopes_gate<S: Scalars>(
    xn: Model<S>,
    wa: Model<S>,
    wb: Model<S>,
    gua: Model<S>,
    gb: Model<S>,
    xna: Model<S>,
    r: Result<(Model<S>, Model<S>, Model<S>), Error>,
) -> bool {
    exists|o: Outcome<S>| #[trigger]
        weight_slope_out::<S>(xna, gua, o) && passes(
            o,
            r,
            input_slopes_input::<S>(xn, wa, wb, gua, gb, o->Ok_0, r),
        )
}

/// The rest of it, once `gwa` is there.
pub open spec fn input_slopes_input<S: Scalars>(
    xn: Model<S>,
    wa: Model<S>,
    wb: Model<S>,
    gua: Model<S>,
    gb: Model<S>,
    gwa: Model<S>,
    r: Result<(Model<S>, Model<S>, Model<S>), Error>,
) -> bool {
    exists|o: Outcome<S>| #[trigger]
        weight_slope_out::<S>(xn, gb, o) && passes(
            o,
            r,
            input_slopes_top::<S>(wa, wb, gua, gb, gwa, o->Ok_0, r),
        )
}

/// The rest of it, once `gwb` is there.
pub open spec fn input_slopes_top<S: Scalars>(
    wa: Model<S>,
    wb: Model<S>,
    gua: Model<S>,
    gb: Model<S>,
    gwa: Model<S>,
    gwb: Model<S>,
    r: Result<(Model<S>, Model<S>, Model<S>), Error>,
) -> bool {
    exists|o: Outcome<S>| #[trigger]
        top_of_out::<S>(wa, o) && passes(
            o,
            r,
            input_slopes_through_gate::<S>(wb, gua, gb, gwa, gwb, o->Ok_0, r),
        )
}

/// The rest of it, once `top` is there.
pub open spec fn input_slopes_through_gate<S: Scalars>(
    wb: Model<S>,
    gua: Model<S>,
    gb: Model<S>,
    gwa: Model<S>,
    gwb: Model<S>,
    top: Model<S>,
    r: Result<(Model<S>, Model<S>, Model<S>), Error>,
) -> bool {
    exists|o: Outcome<S>| #[trigger]
        turned_product_out::<S>(gua, top, o) && passes(
            o,
            r,
            input_slopes_through_input::<S>(wb, gb, gwa, gwb, o->Ok_0, r),
        )
}

/// The rest of it, once `pa` is there.
pub open spec fn input_slopes_through_input<S: Scalars>(
    wb: Model<S>,
    gb: Model<S>,
    gwa: Model<S>,
    gwb: Model<S>,
    pa: Model<S>,
    r: Result<(Model<S>, Model<S>, Model<S>), Error>,
) -> bool {
    exists|o: Outcome<S>| #[trigger]
        turned_product_out::<S>(gb, wb, o) && passes(
            o,
            r,
            input_slopes_sum::<S>(gwa, gwb, pa, o->Ok_0, r),
        )
}

/// The rest of it, once `pb` is there.
pub open spec fn input_slopes_sum<S: Scalars>(
    gwa: Model<S>,
    gwb: Model<S>,
    pa: Model<S>,
    pb: Model<S>,
    r: Result<(Model<S>, Model<S>, Model<S>), Error>,
) -> bool {
    exists|o: Outcome<S>| #[trigger]
        joint_out::<S>(pa, pb, o) && passes(
            o,
            r,
            gives(r, (gwa, gwb, o->Ok_0)),
        )
}

/// The cotangents at the gates and inputs.
fn input_slopes<S: Scalars>(
    x: &Tensor<S>,
    xn: &Tensor<S>,
    wa: &Tensor<S>,
    wb: &Tensor<S>,
    gua: &Tensor<S>,
    gb: &Tensor<S>,
) -> (r: Result<(Tensor<S>, Tensor<S>, Tensor<S>), Error>)
    ensures
        input_slopes_out::<S>(x@, xn@, wa@, wb@, gua@, gb@, triple_outcome(r)),
{
    proof {
        reveal(input_slopes_out);
    }
    let xna: Tensor<S> = match widened(x, xn) {
        Ok(t) => t,
        Err(e) => {
            return Err(e);
        },
    };
    let gwa: Tensor<S> = match weight_slope(&xna, gua) {
        Ok(t) => t,
        Err(e) => {
            return Err(e);
        },
    };
    let gwb: Tensor<S> = match weight_slope(xn, gb) {
        Ok(t) => t,
        Err(e) => {
            return Err(e);
        },
    };
    let top: Tensor<S> = match top_of(wa) {
        Ok(t) => t,
        Err(e) => {
            return Err(e);
        },
    };
    let pa: Tensor<S> = match turned_product(gua, &top) {
        Ok(t) => t,
        Err(e) => {
            return Err(e);
        },
    };
    let pb: Tensor<S> = match turned_product(gb, wb) {
        Ok(t) => t,
        Err(e) => {
            return Err(e);
        },
    };
    let dxn: Tensor<S> = match joint(&pa, &pb) {
        Ok(t) => t,
        Err(e) => {
            return Err(e);
        },
    };
    Ok((gwa, gwb, dxn))
}

/// What the cotangents at the first normalization come to: of its gain and of the block input.
#[verifier::opaque]
pub open spec fn first_norm_slopes_out<S: Scalars>(
    x: Model<S>,
    r1: Model<S>,
    g1: Model<S>,
    eps: S::F,
    dxn: Model<S>,
    dout1: Model<S>,
    r: Result<(Model<S>, Model<S>), Error>,
) -> bool {
    exists|o: Outcome<S>| #[trigger]
        gain_slope_out::<S>(dxn, r1, o) && passes(
            o,
            r,
            first_norm_scaled::<S>(x, g1, eps, dxn, dout1, o->Ok_0, r),
        )
}

/// The rest of it, once `gg1` is there.
pub open spec fn first_norm_scaled<S: Scalars>(
    x: Model<S>,
    g1: Model<S>,
    eps: S::F,
    dxn: Model<S>,
    dout1: Model<S>,
    gg1: Model<S>,
    r: Result<(Model<S>, Model<S>), Error>,
) -> bool {
    exists|o: Outcome<S>| #[trigger]
        gain_out::<S>(dxn, g1, o) && passes(
            o,
            r,
            first_norm_back::<S>(x, eps, dout1, gg1, o->Ok_0, r),
        )
}

/// The rest of it, once `dxng` is there.
pub open spec fn first_norm_back<S: Scalars>(
    x: Model<S>,
    eps: S::F,
    dout1: Model<S>,
    gg1: Model<S>,
    dxng: Model<S>,
    r: Result<(Model<S>, Model<S>), Error>,
) -> bool {
    exists|o: Outcome<S>| #[trigger]
        rms_back_out::<S>("fused_block"@, x, dxng, eps, o) && passes(
            o,
            r,
            first_norm_sum::<S>(dout1, gg1, o->Ok_0, r),
        )
}

/// The rest of it, once `back` is there.
pub open spec fn first_norm_sum<S: Scalars>(
    dout1: Model<S>,
    gg1: Model<S>,
    back: Model<S>,
    r: Result<(Model<S>, Model<S>), Error>,
) -> bool {
    exists|o: Outcome<S>| #[trigger]
        joint_out::<S>(dout1, back, o) && passes(
            o,
            r,
            gives(r, (gg1, o->Ok_0)),
        )
}

/// The cotangents at the first normalization.
fn first_norm_slopes<S: Scalars>(
    x: &Tensor<S>,
    r1: &Tensor<S>,
    g1: &Tensor<S>,
    eps: S::F,
    dxn: &Tensor<S>,
    dout1: &Tensor<S>,
) -> (r: Result<(Tensor<S>, Tensor<S>), Error>)
    ensures
        first_norm_slopes_out::<S>(x@, r1@, g1@, eps, dxn@, dout1@, pair_outcome(r)),
{
    proof {
        reveal(first_norm_slopes_out);
    }
    let gg1: Tensor<S> = match gain_slope(dxn, r1) {
        Ok(t) => t,
        Err(e) => {
            return Err(e);
        },
    };
    let dxng: Tensor<S> = match gain(dxn, g1) {
        Ok(t) => t,
        Err(e) => {
            return Err(e);
        },
    };
    let back: Tensor<S> = match rms_back("fused_block", x, &dxng, eps) {
        Ok(t) => t,
        Err(e) => {
            return Err(e);
        },
    };
    let dx: Tensor<S> = match joint(dout1, &back) {
        Ok(t) => t,
        Err(e) => {
            return Err(e);
        },
    };
    Ok((gg1, dx))
}

/// The cotangents of a block.
pub struct BlockSlopes<S: Scalars> {
    pub x: Tensor<S>,
    pub wa: Tensor<S>,
    pub wb: Tensor<S>,
    pub wo: Tensor<S>,
    pub wf1: Tensor<S>,
    pub wf2: Tensor<S>,
    pub g1: Tensor<S>,
    pub g2: Tensor<S>,
    pub g3: Tensor<S>,
    pub g4: Tensor<S>,
}

/// What the cotangents of a block hold.
pub ghost struct BlockSlopesModel<S: Scalars> {
    pub x: Model<S>,
    pub w: WeightsModel<S>,
}

impl<S: Scalars> View for BlockSlopes<S> {
    type V = BlockSlopesModel<S>;

    open spec fn view(&self) -> BlockSlopesModel<S> {
        BlockSlopesModel {
            x: self.x@,
            w: WeightsModel {
                wa: self.wa@,
                wb: self.wb@,
                wo: self.wo@,
                wf1: self.wf1@,
                wf2: self.wf2@,
                g1: self.g1@,
                g2: self.g2@,
                g3: self.g3@,
                g4: self.g4@,
            },
        }
    }
}

/// The cotangents of a block, or an error.
pub open spec fn slopes_outcome<S: Scalars>(r: Result<BlockSlopes<S>, Error>) -> Result<
    BlockSlopesModel<S>,
    Error,
> {
    match r {
        Ok(g) => Ok(g@),
        Err(e) => Err(e),
    }
}

/// What `fused_block_bwd` comes to. First the gain `g4` and the feed-forward half.
#[verifier::opaque]
pub open spec fn fused_block_bwd_out<S: Scalars>(
    aux: AuxModel<S>,
    w: WeightsModel<S>,
    eps: S::F,
    gy: Model<S>,
    r: Result<BlockSlopesModel<S>, Error>,
) -> bool {
    exists|o: Outcome<S>| #[trigger]
        gain_slope_out::<S>(gy, aux.f2, o) && passes(
            o,
            r,
            block_slopes_tail::<S>(aux, w, eps, gy, o->Ok_0, r),
        )
}

/// The cotangent of the feed-forward output is `gy * g4`.
pub open spec fn block_slopes_tail<S: Scalars>(
    aux: AuxModel<S>,
    w: WeightsModel<S>,
    eps: S::F,
    gy: Model<S>,
    gg4: Model<S>,
    r: Result<BlockSlopesModel<S>, Error>,
) -> bool {
    exists|o: Outcome<S>| #[trigger]
        gain_out::<S>(gy, w.g4, o) && passes(
            o,
            r,
            block_slopes_feed::<S>(aux, w, eps, gy, gg4, o->Ok_0, r),
        )
}

/// Through the feed-forward half.
pub open spec fn block_slopes_feed<S: Scalars>(
    aux: AuxModel<S>,
    w: WeightsModel<S>,
    eps: S::F,
    gy: Model<S>,
    gg4: Model<S>,
    dm: Model<S>,
    r: Result<BlockSlopesModel<S>, Error>,
) -> bool {
    exists|o: Result<(Model<S>, Model<S>, Model<S>), Error>| #[trigger]
        feed_slopes_out::<S>(aux.f1, aux.xn2, w.wf1, w.wf2, dm, o) && passes(
            o,
            r,
            block_slopes_norm::<S>(
                aux,
                w,
                eps,
                gy,
                WeightsModel { wf2: o->Ok_0.0, wf1: o->Ok_0.1, g4: gg4, ..w },
                o->Ok_0.2,
                r,
            ),
        )
}

/// Through the second normalization; `g` collects the cotangents of the weights.
#[verifier::opaque]
pub open spec fn block_slopes_norm<S: Scalars>(
    aux: AuxModel<S>,
    w: WeightsModel<S>,
    eps: S::F,
    gy: Model<S>,
    g: WeightsModel<S>,
    dxn2: Model<S>,
    r: Result<BlockSlopesModel<S>, Error>,
) -> bool {
    exists|o: Result<(Model<S>, Model<S>), Error>| #[trigger]
        second_norm_slopes_out::<S>(aux.out1, w.g3, eps, dxn2, gy, o) && passes(
            o,
            r,
            block_slopes_mix::<S>(
                aux,
                w,
                eps,
                WeightsModel { g3: o->Ok_0.0, ..g },
                o->Ok_0.1,
                r,
            ),
        )
}

/// Through the mix.
pub open spec fn block_slopes_mix<S: Scalars>(
    aux: AuxModel<S>,
    w: WeightsModel<S>,
    eps: S::F,
    g: WeightsModel<S>,
    dout1: Model<S>,
    r: Result<BlockSlopesModel<S>, Error>,
) -> bool {
    exists|o: Result<(Model<S>, Model<S>, Model<S>), Error>| #[trigger]
        mix_slopes_out::<S>(aux.h, aux.s2, w.wo, w.g2, dout1, o) && passes(
            o,
            r,
            block_slopes_scan::<S>(
                aux,
                w,
                eps,
                WeightsModel { wo: o->Ok_0.0, g2: o->Ok_0.2, ..g },
                dout1,
                o->Ok_0.1,
                r,
            ),
        )
}

/// Through the recurrence.
#[verifier::opaque]
pub open spec fn block_slopes_scan<S: Scalars>(
    aux: AuxModel<S>,
    w: WeightsModel<S>,
    eps: S::F,
    g: WeightsModel<S>,
    dout1: Model<S>,
    dh: Model<S>,
    r: Result<BlockSlopesModel<S>, Error>,
) -> bool {
    exists|o: Result<(Model<S>, Model<S>), Error>| #[trigger]
        scan_back_out::<S>("fused_block"@, aux.a, aux.h, dh, o) && passes(
            o,
            r,
            block_slopes_gate::<S>(aux, w, eps, g, dout1, o->Ok_0.0, o->Ok_0.1, r),
        )
}

/// Through the sigmoid of the gates.
pub open spec fn block_slopes_gate<S: Scalars>(
    aux: AuxModel<S>,
    w: WeightsModel<S>,
    eps: S::F,
    g: WeightsModel<S>,
    dout1: Model<S>,
    ga: Model<S>,
    gb: Model<S>,
    r: Result<BlockSlopesModel<S>, Error>,
) -> bool {
    exists|o: Outcome<S>| #[trigger]
        gate_slope_of_out::<S>(aux.a, ga, o) && passes(
            o,
            r,
            block_slopes_again::<S>(aux, w, eps, g, dout1, o->Ok_0, gb, r),
        )
}

/// The first normalization again.
pub open spec fn block_slopes_again<S: Scalars>(
    aux: AuxModel<S>,
    w: WeightsModel<S>,
    eps: S::F,
    g: WeightsModel<S>,
    dout1: Model<S>,
    gua: Model<S>,
    gb: Model<S>,
    r: Result<BlockSlopesModel<S>, Error>,
) -> bool {
    exists|o: Outcome<S>| #[trigger]
        rms_norm_out::<S>(aux.x, eps, o) && passes(
            o,
            r,
            block_slopes_gained::<S>(aux, w, eps, g, dout1, gua, gb, o->Ok_0, r),
        )
}

/// The normalized input again.
pub open spec fn block_slopes_gained<S: Scalars>(
    aux: AuxModel<S>,
    w: WeightsModel<S>,
    eps: S::F,
    g: WeightsModel<S>,
    dout1: Model<S>,
    gua: Model<S>,
    gb: Model<S>,
    r1: Model<S>,
    r: Result<BlockSlopesModel<S>, Error>,
) -> bool {
    exists|o: Outcome<S>| #[trigger]
        gain_out::<S>(r1, w.g1, o) && passes(
            o,
            r,
            block_slopes_input::<S>(aux, w, eps, g, dout1, gua, gb, r1, o->Ok_0, r),
        )
}

/// Through the recurrence and input weights.
#[verifier::opaque]
pub open spec fn block_slopes_input<S: Scalars>(
    aux: AuxModel<S>,
    w: WeightsModel<S>,
    eps: S::F,
    g: WeightsModel<S>,
    dout1: Model<S>,
    gua: Model<S>,
    gb: Model<S>,
    r1: Model<S>,
    xn: Model<S>,
    r: Result<BlockSlopesModel<S>, Error>,
) -> bool {
    exists|o: Result<(Model<S>, Model<S>, Model<S>), Error>| #[trigger]
        input_slopes_out::<S>(aux.x, xn, w.wa, w.wb, gua, gb, o) && passes(
            o,
            r,
            block_slopes_last::<S>(
                aux,
                w,
                eps,
                WeightsModel { wa: o->Ok_0.0, wb: o->Ok_0.1, ..g },
                dout1,
                r1,
                o->Ok_0.2,
                r,
            ),
        )
}

/// Through the first normalization.
pub open spec fn block_slopes_last<S: Scalars>(
    aux: AuxModel<S>,
    w: WeightsModel<S>,
    eps: S::F,
    g: WeightsModel<S>,
    dout1: Model<S>,
    r1: Model<S>,
    dxn: Model<S>,
    r: Result<BlockSlopesModel<S>, Error>,
) -> bool {
    exists|o: Result<(Model<S>, Model<S>), Error>| #[trigger]
        first_norm_slopes_out::<S>(aux.x, r1, w.g1, eps, dxn, dout1, o) && passes(
            o,
            r,
            gives(
                r,
                BlockSlopesModel { x: o->Ok_0.1, w: WeightsModel { g1: o->Ok_0.0, ..g } },
            ),
        )
}

/// Backward pass.
pub fn block_backward<S: Scalars>(
    aux: &FusedAux<S>,
    w: &Weights<S>,
    eps: S::F,
    gy: &Tensor<S>,
) -> (r: Result<BlockSlopes<S>, Error>)
    ensures
        fused_block_bwd_out::<S>(aux@, w@, eps, gy@, slopes_outcome(r)),
{
    proof {
        reveal(fused_block_bwd_out);
        reveal(block_slopes_norm);
        reveal(block_slopes_scan);
        reveal(block_slopes_input);
    }
    let g4: Tensor<S> = match gain_slope(gy, &aux.f2) {
        Ok(t) => t,
        Err(e) => {
            return Err(e);
        },
    };
    let dm: Tensor<S> = match gain(gy, w.g4) {
        Ok(t) => t,
        Err(e) => {
            return Err(e);
        },
    };
    let (wf2, wf1, dxn2): (Tensor<S>, Tensor<S>, Tensor<S>) = match feed_slopes(
        &aux.f1,
        &aux.xn2,
        w.wf1,
        w.wf2,
        &dm,
    ) {
        Ok(t) => t,
        Err(e) => {
            return Err(e);
        },
    };
    let (g3, dout1): (Tensor<S>, Tensor<S>) = match second_norm_slopes(
        &aux.out1,
        w.g3,
        eps,
        &dxn2,
        gy,
    ) {
        Ok(t) => t,
        Err(e) => {
            return Err(e);
        },
    };
    let (wo, dh, g2): (Tensor<S>, Tensor<S>, Tensor<S>) = match mix_slopes(
        &aux.h,
        &aux.s2,
        w.wo,
        w.g2,
        &dout1,
    ) {
        Ok(t) => t,
        Err(e) => {
            return Err(e);
        },
    };
    let (ga, gb): (Tensor<S>, Tensor<S>) = match scan_back("fused_block", &aux.a, &aux.h, &dh) {
        Ok(t) => t,
        Err(e) => {
            return Err(e);
        },
    };
    let gua: Tensor<S> = match gate_slope_of(&aux.a, &ga) {
        Ok(t) => t,
        Err(e) => {
            return Err(e);
        },
    };
    let r1: Tensor<S> = match rms_norm(&aux.x, eps) {
        Ok(t) => t,
        Err(e) => {
            return Err(e);
        },
    };
    let xn: Tensor<S> = match gain(&r1, w.g1) {
        Ok(t) => t,
        Err(e) => {
            return Err(e);
        },
    };
    let (wa, wb, dxn): (Tensor<S>, Tensor<S>, Tensor<S>) = match input_slopes(
        &aux.x,
        &xn,
        w.wa,
        w.wb,
        &gua,
        &gb,
    ) {
        Ok(t) => t,
        Err(e) => {
            return Err(e);
        },
    };
    let (g1, x): (Tensor<S>, Tensor<S>) = match first_norm_slopes(
        &aux.x,
        &r1,
        w.g1,
        eps,
        &dxn,
        &dout1,
    ) {
        Ok(t) => t,
        Err(e) => {
            return Err(e);
        },
    };
    Ok(BlockSlopes { x, wa, wb, wo, wf1, wf2, g1, g2, g3, g4 })
}

/// Forward pass. `wa` is `[D + 1, D]` whose last row is a bias, `wb` and `wo` are
/// `[D, D]`, `wf1` `[D, 2D]`, `wf2` `[2D, D]`, the gains `[D]`. Gives the output and what the
/// backward pass needs.
pub fn fused_block_fwd<S: Scalars>(
    x: &Tensor<S>,
    wa: &Tensor<S>,
    wb: &Tensor<S>,
    wo: &Tensor<S>,
    wf1: &Tensor<S>,
    wf2: &Tensor<S>,
    g1: &Tensor<S>,
    g2: &Tensor<S>,
    g3: &Tensor<S>,
    g4: &Tensor<S>,
    eps: S::F,
) -> (r: Result<(Tensor<S>, FusedAux<S>), Error>)
    ensures
        fused_block_fwd_out::<S>(
            x@,
            (WeightsModel {
                wa: wa@,
                wb: wb@,
                wo: wo@,
                wf1: wf1@,
                wf2: wf2@,
                g1: g1@,
                g2: g2@,
                g3: g3@,
                g4: g4@,
            }),
            eps,
            block_outcome(r),
        ),
{
    block_forward(x, &Weights { wa, wb, wo, wf1, wf2, g1, g2, g3, g4 }, eps)
}

/// Ten cotangents, or an error.
pub open spec fn ten_outcome<S: Scalars>(r: Result<TenTensors<S>, Error>) -> Result<
    BlockSlopesModel<S>,
    Error,
> {
    match r {
        Ok(g) => Ok(
            BlockSlopesModel {
                x: g.0@,
                w: WeightsModel {
                    wa: g.1@,
                    wb: g.2@,
                    wo: g.3@,
                    wf1: g.4@,
                    wf2: g.5@,
                    g1: g.6@,
                    g2: g.7@,
                    g3: g.8@,
                    g4: g.9@,
                },
            },
        ),
        Err(e) => Err(e),
    }
}

/// The cotangents of a block, in the order input, `wa`, `wb`, `wo`, `wf1`, `wf2`, gains.
pub type TenTensors<S> = (
    Tensor<S>,
    Tensor<S>,
    Tensor<S>,
    Tensor<S>,
    Tensor<S>,
    Tensor<S>,
    Tensor<S>,
    Tensor<S>,
    Tensor<S>,
    Tensor<S>,
);

/// Backward pass: the cotangents of the block input and of every weight, in order, given the
/// cotangent `gy` of the output.
pub fn fused_block_bwd<S: Scalars>(
    aux: &FusedAux<S>,
    wa: &Tensor<S>,
    wb: &Tensor<S>,
    wo: &Tensor<S>,
    wf1: &Tensor<S>,
    wf2: &Tensor<S>,
    g1: &Tensor<S>,
    g2: &Tensor<S>,
    g3: &Tensor<S>,
    g4: &Tensor<S>,
    eps: S::F,
    gy: &Tensor<S>,
) -> (r: Result<TenTensors<S>, Error>)
    ensures
        fused_block_bwd_out::<S>(
            aux@,
            (WeightsModel {
                wa: wa@,
                wb: wb@,
                wo: wo@,
                wf1: wf1@,
                wf2: wf2@,
                g1: g1@,
                g2: g2@,
                g3: g3@,
                g4: g4@,
            }),
            eps,
            gy@,
            ten_outcome(r),
        ),
{
    match block_backward(aux, &Weights { wa, wb, wo, wf1, wf2, g1, g2, g3, g4 }, eps, gy) {
        Ok(g) => Ok((g.x, g.wa, g.wb, g.wo, g.wf1, g.wf2, g.g1, g.g2, g.g3, g.g4)),
        Err(e) => Err(e),
    }
}

} // verus!
