//! Optimizers.
use vstd::prelude::*;
use crate::cpu::{add_out, mul_out, mul_scalar, mul_scalar_out, sub_out};
use crate::dtype::Dtype;
use crate::error::{Error, ErrorKind};
use crate::fused::rest_of;
use crate::index::fits;
use crate::joining::models;
use crate::rules::{from_f32s_out, from_f64s_out};
use crate::scalar::{is_one, is_product, is_quotient, is_sum, Arith, Scalars};
use crate::tape::{parts_outcome, views};
use crate::tensor::{gives, numel_error, outcome, passes, stops, zeros_out, Model, Outcome, Tensor};

verus! {

/// Gradient descent: each parameter less the rate times its gradient.
pub struct Sgd<S: Scalars> {
    pub lr: S::D,
}

/// What `p - lr * g` comes to.
pub open spec fn descended_out<S: Scalars>(
    p: Model<S>,
    g: Model<S>,
    lr: S::D,
    r: Outcome<S>,
) -> bool {
    exists|o: Outcome<S>| #[trigger]
        mul_scalar_out::<S>(g, lr, o) && passes(
            o,
            r,
            descended_difference::<S>(p, o->Ok_0, r),
        )
}

/// The rest of it, once `dec` is there.
pub open spec fn descended_difference<S: Scalars>(
    p: Model<S>,
    dec: Model<S>,
    r: Outcome<S>,
) -> bool {
    sub_out::<S>(p, dec, r)
}

/// `p - lr * g`.
fn descended<S: Scalars>(
    p: &Tensor<S>,
    g: &Tensor<S>,
    lr: S::D,
) -> (r: Result<Tensor<S>, Error>)
    ensures
        descended_out::<S>(p@, g@, lr, outcome(r)),
{
    let dec: Tensor<S> = match mul_scalar(g, lr) {
        Ok(t) => t,
        Err(e) => {
            return Err(e);
        },
    };
    crate::cpu::sub(p, &dec)
}

/// The parameters from the `i`-th on, each descended.
pub open spec fn descended_from<S: Scalars>(
    lr: S::D,
    ps: Seq<Model<S>>,
    gs: Seq<Model<S>>,
    i: int,
    done: Seq<Model<S>>,
    r: Result<Seq<Model<S>>, Error>,
) -> bool
    decreases ps.len() - i,
{
    if i >= ps.len() {
        gives(r, done)
    } else {
        exists|o: Outcome<S>| #[trigger]
            descended_out::<S>(ps[i], gs[i], lr, o) && passes(
                o,
                r,
                descended_from::<S>(lr, ps, gs, i + 1, done.push(o->Ok_0), r),
            )
    }
}

/// What `Sgd::step` comes to.
pub open spec fn sgd_out<S: Scalars>(
    lr: S::D,
    ps: Seq<Model<S>>,
    gs: Seq<Model<S>>,
    r: Result<Seq<Model<S>>, Error>,
) -> bool {
    if ps.len() != gs.len() {
        r is Err && r->Err_0.says(ErrorKind::Shape, "sgd"@, "params/grads length"@)
    } else {
        descended_from::<S>(lr, ps, gs, 0, Seq::empty(), r)
    }
}

impl<S: Scalars> Sgd<S> {
    fn step_from(
        &self,
        params: &[&Tensor<S>],
        grads: &[Tensor<S>],
        i: usize,
        done: Vec<Tensor<S>>,
    ) -> (r: Result<Vec<Tensor<S>>, Error>)
        requires
            params@.len() == grads@.len(),
            i <= params@.len(),
        ensures
            descended_from::<S>(
                self.lr,
                models(params@),
                views(grads@),
                i as int,
                views(done@),
                parts_outcome(r),
            ),
        decreases params@.len() - i,
    {
        if i >= params.len() {
            return Ok(done);
        }
        proof {
            assert(models(params@)[i as int] == params@[i as int]@);
            assert(views(grads@)[i as int] == grads@[i as int]@);
        }
        match descended(params[i], &grads[i], self.lr) {
            Ok(t) => {
                let ghost m = t@;
                let ghost before = views(done@);
                let mut more: Vec<Tensor<S>> = done;
                more.push(t);
                assert(views(more@) =~= before.push(m));
                self.step_from(params, grads, i + 1, more)
            },
            Err(e) => Err(e),
        }
    }

    /// The parameters after one step.
    pub fn step(&self, params: &[&Tensor<S>], grads: &[Tensor<S>]) -> (r: Result<
        Vec<Tensor<S>>,
        Error,
    >)
        ensures
            sgd_out::<S>(self.lr, models(params@), views(grads@), parts_outcome(r)),
    {
        if params.len() != grads.len() {
            return Err(Error::shape("sgd", "params/grads length".to_owned()));
        }
        let done: Vec<Tensor<S>> = Vec::new();
        assert(views(done@) =~= Seq::<Model<S>>::empty());
        self.step_from(params, grads, 0, done)
    }
}

/// What an [`AdamW`] is: its rates, its step count and its moments.
#[verifier::ext_equal]
pub ghost struct AdamModel<S: Scalars> {
    pub lr: S::D,
    pub beta1: S::D,
    pub beta2: S::D,
    pub eps: S::D,
    pub weight_decay: S::D,
    pub step: i64,
    pub m: Seq<Model<S>>,
    pub v: Seq<Model<S>>,
}

/// What `g` times one less `beta` comes to.
pub open spec fn rest_times_out<S: Scalars>(g: Model<S>, beta: S::D, r: Outcome<S>) -> bool {
    exists|k: S::D| #[trigger] rest_of::<S::D, S>(beta, k) && mul_scalar_out::<S>(g, k, r)
}

fn rest_number<S: Scalars>(x: S::D) -> (k: S::D)
    ensures
        rest_of::<S::D, S>(x, k),
{
    let one: S::D = <S as Arith<S::D>>::one();
    assert(is_one::<S::D, S>(one));
    <S as Arith<S::D>>::minus(one, x)
}

fn rest_times<S: Scalars>(g: &Tensor<S>, beta: S::D) -> (r: Result<Tensor<S>, Error>)
    ensures
        rest_times_out::<S>(g@, beta, outcome(r)),
{
    let k: S::D = rest_number::<S>(beta);
    mul_scalar(g, k)
}

/// What the next moment `beta * m + (1 - beta) * g` comes to.
pub open spec fn moment_out<S: Scalars>(
    m: Model<S>,
    g: Model<S>,
    beta: S::D,
    r: Outcome<S>,
) -> bool {
    exists|o: Outcome<S>| #[trigger]
        mul_scalar_out::<S>(m, beta, o) && passes(
            o,
            r,
            moment_new::<S>(g, beta, o->Ok_0, r),
        )
}

/// The rest of it, once `old_part` is there.
pub open spec fn moment_new<S: Scalars>(
    g: Model<S>,
    beta: S::D,
    old_part: Model<S>,
    r: Outcome<S>,
) -> bool {
    exists|o: Outcome<S>| #[trigger]
        rest_times_out::<S>(g, beta, o) && passes(
            o,
            r,
            moment_sum::<S>(old_part, o->Ok_0, r),
        )
}

/// The rest of it, once `new_part` is there.
pub open spec fn moment_sum<S: Scalars>(
    old_part: Model<S>,
    new_part: Model<S>,
    r: Outcome<S>,
) -> bool {
    add_out::<S>(old_part, new_part, r)
}

/// The next moment.
fn moment<S: Scalars>(
    m: &Tensor<S>,
    g: &Tensor<S>,
    beta: S::D,
) -> (r: Result<Tensor<S>, Error>)
    ensures
        moment_out::<S>(m@, g@, beta, outcome(r)),
{
    let old_part: Tensor<S> = match mul_scalar(m, beta) {
        Ok(t) => t,
        Err(e) => {
            return Err(e);
        },
    };
    let new_part: Tensor<S> = match rest_times(g, beta) {
        Ok(t) => t,
        Err(e) => {
            return Err(e);
        },
    };
    crate::cpu::add(&old_part, &new_part)
}

/// `k` is one over `1 - beta^t`.
pub open spec fn correction<S: Scalars>(beta: S::D, t: S::D, k: S::D) -> bool {
    exists|p: S::D, d: S::D, one: S::D| #[trigger]
        call_ensures(<S as Arith<S::D>>::power, (beta, t), p) && #[trigger] rest_of::<S::D, S>(p, d)
            && #[trigger] is_one::<S::D, S>(one) && is_quotient::<S::D, S>(one, d, k)
}

/// What a moment comes to, corrected for its start from zero.
pub open spec fn corrected_out<S: Scalars>(
    m: Model<S>,
    beta: S::D,
    t: S::D,
    r: Outcome<S>,
) -> bool {
    exists|k: S::D| #[trigger] correction::<S>(beta, t, k) && mul_scalar_out::<S>(m, k, r)
}

fn corrected<S: Scalars>(m: &Tensor<S>, beta: S::D, t: S::D) -> (r: Result<Tensor<S>, Error>)
    ensures
        corrected_out::<S>(m@, beta, t, outcome(r)),
{
    let p: S::D = <S as Arith<S::D>>::power(beta, t);
    let d: S::D = rest_number::<S>(p);
    let one: S::D = <S as Arith<S::D>>::one();
    assert(is_one::<S::D, S>(one));
    let k: S::D = <S as Arith<S::D>>::over(one, d);
    assert(correction::<S>(beta, t, k));
    mul_scalar(m, k)
}

/// `y` is the root of `x`, plus `e`.
pub open spec fn root_plus<T, A: Arith<T>>(x: T, e: T, y: T) -> bool {
    exists|s: T| #[trigger] call_ensures(A::root, (x,), s) && is_sum::<T, A>(s, e, y)
}

/// Every element's root, plus `e`.
pub open spec fn roots_plus<T, A: Arith<T>>(xs: Seq<T>, e: T, v: Seq<T>) -> bool {
    &&& v.len() == xs.len()
    &&& forall|i: int| 0 <= i < v.len() ==> root_plus::<T, A>(xs[i], e, #[trigger] v[i])
}

fn roots_plus_of<T: Copy, A: Arith<T>>(xs: &[T], e: T) -> (v: Vec<T>)
    ensures
        roots_plus::<T, A>(xs@, e, v@),
{
    let mut v: Vec<T> = Vec::new();
    let mut i: usize = 0;
    while i < xs.len()
        invariant
            i <= xs@.len(),
            v@.len() == i,
            forall|j: int| 0 <= j < i ==> root_plus::<T, A>(xs@[j], e, #[trigger] v@[j]),
        decreases xs@.len() - i,
    {
        let s: T = A::root(xs[i]);
        let y: T = A::plus(s, e);
        assert(root_plus::<T, A>(xs@[i as int], e, y));
        v.push(y);
        i = i + 1;
    }
    v
}

/// What the divisor of an update comes to, in the type and shape of the parameter `p`.
pub open spec fn divisor_out<S: Scalars>(
    p: Model<S>,
    vh: Model<S>,
    eps: S::D,
    r: Outcome<S>,
) -> bool {
    match p.dtype() {
        Dtype::F32 => if vh.dtype() != Dtype::F32 {
            r is Err && r->Err_0.says(ErrorKind::Dtype, "to_vec"@, "expected f32"@)
        } else {
            exists|e: S::F, v: Seq<S::F>| #[trigger]
                call_ensures(S::narrow, (eps,), e) && #[trigger] roots_plus::<S::F, S>(
                    vh.f32s(),
                    e,
                    v,
                ) && from_f32s_out::<S>(v, p.shape, r)
        },
        Dtype::F64 => if vh.dtype() != Dtype::F64 {
            r is Err && r->Err_0.says(ErrorKind::Dtype, "to_vec"@, "expected f64"@)
        } else {
            exists|v: Seq<S::D>| #[trigger]
                roots_plus::<S::D, S>(vh.f64s(), eps, v) && from_f64s_out::<S>(v, p.shape, r)
        },
        Dtype::I64 => r is Err && r->Err_0.says(ErrorKind::Dtype, "adamw"@, "float"@),
    }
}

fn divisor<S: Scalars>(p: &Tensor<S>, vh: &Tensor<S>, eps: S::D) -> (r: Result<Tensor<S>, Error>)
    ensures
        divisor_out::<S>(p@, vh@, eps, outcome(r)),
{
    match p.dtype() {
        Dtype::F32 => match vh.to_vec_f32() {
            Ok(xs) => {
                let e: S::F = S::narrow(eps);
                let v: Vec<S::F> = roots_plus_of::<S::F, S>(xs.as_slice(), e);
                let r: Result<Tensor<S>, Error> = Tensor::from_slice_f32(v.as_slice(), p.shape());
                assert(roots_plus::<S::F, S>(vh@.f32s(), e, v@) && from_f32s_out::<S>(
                    v@,
                    p@.shape,
                    outcome(r),
                ));
                r
            },
            Err(e) => Err(e),
        },
        Dtype::F64 => match vh.to_vec_f64() {
            Ok(xs) => {
                let v: Vec<S::D> = roots_plus_of::<S::D, S>(xs.as_slice(), eps);
                let r: Result<Tensor<S>, Error> = Tensor::from_slice_f64(v.as_slice(), p.shape());
                assert(from_f64s_out::<S>(v@, p@.shape, outcome(r)));
                r
            },
            Err(e) => Err(e),
        },
        Dtype::I64 => Err(Error::dtype("adamw", "float".to_owned())),
    }
}

/// The quotients of two lists, as far as both go.
pub open spec fn quotients<T, A: Arith<T>>(ns: Seq<T>, ds: Seq<T>, v: Seq<T>) -> bool {
    &&& v.len() == if ns.len() <= ds.len() {
        ns.len()
    } else {
        ds.len()
    }
    &&& forall|i: int| 0 <= i < v.len() ==> is_quotient::<T, A>(ns[i], ds[i], #[trigger] v[i])
}

fn quotients_of<T: Copy, A: Arith<T>>(ns: &[T], ds: &[T]) -> (v: Vec<T>)
    ensures
        quotients::<T, A>(ns@, ds@, v@),
{
    let n: usize = if ns.len() <= ds.len() {
        ns.len()
    } else {
        ds.len()
    };
    let mut v: Vec<T> = Vec::new();
    let mut i: usize = 0;
    while i < n
        invariant
            i <= n <= ns@.len(),
            n <= ds@.len(),
            v@.len() == i,
            forall|j: int| 0 <= j < i ==> is_quotient::<T, A>(ns@[j], ds@[j], #[trigger] v@[j]),
        decreases n - i,
    {
        let y: T = A::over(ns[i], ds[i]);
        v.push(y);
        i = i + 1;
    }
    v
}

/// What the quotient of a moment and a divisor comes to, in the type and shape of the parameter `p`.
pub open spec fn update_out<S: Scalars>(
    p: Model<S>,
    mh: Model<S>,
    denom: Model<S>,
    r: Outcome<S>,
) -> bool {
    match p.dtype() {
        Dtype::F32 => if mh.dtype() != Dtype::F32 || denom.dtype() != Dtype::F32 {
            r is Err && r->Err_0.says(ErrorKind::Dtype, "to_vec"@, "expected f32"@)
        } else {
            exists|v: Seq<S::F>| #[trigger]
                quotients::<S::F, S>(mh.f32s(), denom.f32s(), v) && from_f32s_out::<S>(
                    v,
                    p.shape,
                    r,
                )
        },
        Dtype::F64 => if mh.dtype() != Dtype::F64 || denom.dtype() != Dtype::F64 {
            r is Err && r->Err_0.says(ErrorKind::Dtype, "to_vec"@, "expected f64"@)
        } else {
            exists|v: Seq<S::D>| #[trigger]
                quotients::<S::D, S>(mh.f64s(), denom.f64s(), v) && from_f64s_out::<S>(
                    v,
                    p.shape,
                    r,
                )
        },
        Dtype::I64 => r is Err && r->Err_0.says(ErrorKind::Dtype, "adamw"@, "float"@),
    }
}

fn update<S: Scalars>(p: &Tensor<S>, mh: &Tensor<S>, denom: &Tensor<S>) -> (r: Result<
    Tensor<S>,
    Error,
>)
    ensures
        update_out::<S>(p@, mh@, denom@, outcome(r)),
{
    match p.dtype() {
        Dtype::F32 => match (mh.to_vec_f32(), denom.to_vec_f32()) {
            (Ok(ns), Ok(ds)) => {
                let v: Vec<S::F> = quotients_of::<S::F, S>(ns.as_slice(), ds.as_slice());
                let r: Result<Tensor<S>, Error> = Tensor::from_slice_f32(v.as_slice(), p.shape());
                assert(from_f32s_out::<S>(v@, p@.shape, outcome(r)));
                r
            },
            (Err(e), _) => Err(e),
            (_, Err(e)) => Err(e),
        },
        Dtype::F64 => match (mh.to_vec_f64(), denom.to_vec_f64()) {
            (Ok(ns), Ok(ds)) => {
                let v: Vec<S::D> = quotients_of::<S::D, S>(ns.as_slice(), ds.as_slice());
                let r: Result<Tensor<S>, Error> = Tensor::from_slice_f64(v.as_slice(), p.shape());
                assert(from_f64s_out::<S>(v@, p@.shape, outcome(r)));
                r
            },
            (Err(e), _) => Err(e),
            (_, Err(e)) => Err(e),
        },
        Dtype::I64 => Err(Error::dtype("adamw", "float".to_owned())),
    }
}

/// `k` is `1 - lr * wd`.
pub open spec fn decay<S: Scalars>(lr: S::D, wd: S::D, k: S::D) -> bool {
    exists|p: S::D| #[trigger] is_product::<S::D, S>(lr, wd, p) && rest_of::<S::D, S>(p, k)
}

/// What a parameter comes to after its decay.
pub open spec fn decayed_out<S: Scalars>(p: Model<S>, lr: S::D, wd: S::D, r: Outcome<S>) -> bool {
    exists|k: S::D| #[trigger] decay::<S>(lr, wd, k) && mul_scalar_out::<S>(p, k, r)
}

fn decayed<S: Scalars>(p: &Tensor<S>, lr: S::D, wd: S::D) -> (r: Result<Tensor<S>, Error>)
    ensures
        decayed_out::<S>(p@, lr, wd, outcome(r)),
{
    let q: S::D = <S as Arith<S::D>>::times(lr, wd);
    assert(is_product::<S::D, S>(lr, wd, q));
    let k: S::D = rest_number::<S>(q);
    assert(decay::<S>(lr, wd, k));
    mul_scalar(p, k)
}

/// The rates of an update.
pub struct Rates<D> {
    pub lr: D,
    pub beta1: D,
    pub beta2: D,
    pub eps: D,
    pub weight_decay: D,
}

/// What a parameter comes to after step `t`, from its moments: decayed, less the rate times the
/// corrected first moment over the root of the corrected second.
pub open spec fn stepped_out<S: Scalars>(
    p: Model<S>,
    m: Model<S>,
    v: Model<S>,
    h: Rates<S::D>,
    t: S::D,
    r: Outcome<S>,
) -> bool {
    exists|o: Outcome<S>| #[trigger]
        corrected_out::<S>(m, h.beta1, t, o) && passes(
            o,
            r,
            stepped_second::<S>(p, v, h, t, o->Ok_0, r),
        )
}

/// The rest of it, once `mh` is there.
pub open spec fn stepped_second<S: Scalars>(
    p: Model<S>,
    v: Model<S>,
    h: Rates<S::D>,
    t: S::D,
    mh: Model<S>,
    r: Outcome<S>,
) -> bool {
    exists|o: Outcome<S>| #[trigger]
        corrected_out::<S>(v, h.beta2, t, o) && passes(
            o,
            r,
            stepped_divisor::<S>(p, h, mh, o->Ok_0, r),
        )
}

/// The rest of it, once `vh` is there.
pub open spec fn stepped_divisor<S: Scalars>(
    p: Model<S>,
    h: Rates<S::D>,
    mh: Model<S>,
    vh: Model<S>,
    r: Outcome<S>,
) -> bool {
    exists|o: Outcome<S>| #[trigger]
        divisor_out::<S>(p, vh, h.eps, o) && passes(
            o,
            r,
            stepped_update::<S>(p, h, mh, o->Ok_0, r),
        )
}

/// The rest of it, once `denom` is there.
pub open spec fn stepped_update<S: Scalars>(
    p: Model<S>,
    h: Rates<S::D>,
    mh: Model<S>,
    denom: Model<S>,
    r: Outcome<S>,
) -> bool {
    exists|o: Outcome<S>| #[trigger]
        update_out::<S>(p, mh, denom, o) && passes(
            o,
            r,
            stepped_decay::<S>(p, h, o->Ok_0, r),
        )
}

/// The rest of it, once `upd` is there.
pub open spec fn stepped_decay<S: Scalars>(
    p: Model<S>,
    h: Rates<S::D>,
    upd: Model<S>,
    r: Outcome<S>,
) -> bool {
    exists|o: Outcome<S>| #[trigger]
        decayed_out::<S>(p, h.lr, h.weight_decay, o) && passes(
            o,
            r,
            stepped_scaled::<S>(h, upd, o->Ok_0, r),
        )
}

/// The rest of it, once `kept_part` is there.
pub open spec fn stepped_scaled<S: Scalars>(
    h: Rates<S::D>,
    upd: Model<S>,
    kept_part: Model<S>,
    r: Outcome<S>,
) -> bool {
    exists|o: Outcome<S>| #[trigger]
        mul_scalar_out::<S>(upd, h.lr, o) && passes(
            o,
            r,
            stepped_difference::<S>(kept_part, o->Ok_0, r),
        )
}

/// The rest of it, once `dec` is there.
pub open spec fn stepped_difference<S: Scalars>(
    kept_part: Model<S>,
    dec: Model<S>,
    r: Outcome<S>,
) -> bool {
    sub_out::<S>(kept_part, dec, r)
}

/// A parameter after step `t`.
fn stepped<S: Scalars>(
    p: &Tensor<S>,
    m: &Tensor<S>,
    v: &Tensor<S>,
    h: &Rates<S::D>,
    t: S::D,
) -> (r: Result<Tensor<S>, Error>)
    ensures
        stepped_out::<S>(p@, m@, v@, *h, t, outcome(r)),
{
    let mh: Tensor<S> = match corrected(m, h.beta1, t) {
        Ok(t) => t,
        Err(e) => {
            return Err(e);
        },
    };
    let vh: Tensor<S> = match corrected(v, h.beta2, t) {
        Ok(t) => t,
        Err(e) => {
            return Err(e);
        },
    };
    let denom: Tensor<S> = match divisor(p, &vh, h.eps) {
        Ok(t) => t,
        Err(e) => {
            return Err(e);
        },
    };
    let upd: Tensor<S> = match update(p, &mh, &denom) {
        Ok(t) => t,
        Err(e) => {
            return Err(e);
        },
    };
    let kept_part: Tensor<S> = match decayed(p, h.lr, h.weight_decay) {
        Ok(t) => t,
        Err(e) => {
            return Err(e);
        },
    };
    let dec: Tensor<S> = match mul_scalar(&upd, h.lr) {
        Ok(t) => t,
        Err(e) => {
            return Err(e);
        },
    };
    crate::cpu::sub(&kept_part, &dec)
}

impl<S: Scalars> AdamModel<S> {
    /// The rates.
    pub open spec fn rates(self) -> Rates<S::D> {
        Rates {
            lr: self.lr,
            beta1: self.beta1,
            beta2: self.beta2,
            eps: self.eps,
            weight_decay: self.weight_decay,
        }
    }
}

/// One parameter, the `i`-th. First its first moment; an error leaves what was done before it.
pub open spec fn adam_one<S: Scalars>(
    h: AdamModel<S>,
    p: Model<S>,
    g: Model<S>,
    t: S::D,
    i: int,
    after: AdamModel<S>,
    r: Outcome<S>,
) -> bool {
    exists|o: Outcome<S>| #[trigger]
        moment_out::<S>(h.m[i], g, h.beta1, o) && if o is Err {
            after == h && stops(o, r)
        } else {
            adam_square::<S>(
                AdamModel { m: h.m.update(i, o->Ok_0), ..h },
                p,
                g,
                t,
                i,
                after,
                r,
            )
        }
}

/// Then the square of the gradient.
pub open spec fn adam_square<S: Scalars>(
    h: AdamModel<S>,
    p: Model<S>,
    g: Model<S>,
    t: S::D,
    i: int,
    after: AdamModel<S>,
    r: Outcome<S>,
) -> bool {
    exists|o: Outcome<S>| #[trigger]
        mul_out::<S>(g, g, o) && if o is Err {
            after == h && stops(o, r)
        } else {
            adam_second::<S>(h, p, o->Ok_0, t, i, after, r)
        }
}

/// Then the second moment, and the parameter.
pub open spec fn adam_second<S: Scalars>(
    h: AdamModel<S>,
    p: Model<S>,
    square: Model<S>,
    t: S::D,
    i: int,
    after: AdamModel<S>,
    r: Outcome<S>,
) -> bool {
    exists|o: Outcome<S>| #[trigger]
        moment_out::<S>(h.v[i], square, h.beta2, o) && if o is Err {
            after == h && stops(o, r)
        } else {
            after == (AdamModel { v: h.v.update(i, o->Ok_0), ..h }) && stepped_out::<S>(
                p,
                after.m[i],
                after.v[i],
                after.rates(),
                t,
                r,
            )
        }
}

/// The parameters from the `i`-th to the `n`-th, one after the other.
pub open spec fn adam_from<S: Scalars>(
    h: AdamModel<S>,
    ps: Seq<Model<S>>,
    gs: Seq<Model<S>>,
    t: S::D,
    i: int,
    n: int,
    done: Seq<Model<S>>,
    after: AdamModel<S>,
    r: Result<Seq<Model<S>>, Error>,
) -> bool
    decreases n - i,
{
    if i >= n {
        after == h && gives(r, done)
    } else {
        exists|mid: AdamModel<S>, o: Outcome<S>| #[trigger]
            adam_one::<S>(h, ps[i], gs[i], t, i, mid, o) && if o is Err {
                after == mid && stops(o, r)
            } else {
                adam_from::<S>(mid, ps, gs, t, i + 1, n, done.push(o->Ok_0), after, r)
            }
    }
}

/// How many parameters have a gradient.
pub open spec fn paired(ps: nat, gs: nat) -> int {
    if ps <= gs {
        ps as int
    } else {
        gs as int
    }
}

/// What `AdamW::step` comes to: the step is counted, and every parameter that has a gradient takes it.
pub open spec fn adam_out<S: Scalars>(
    before: AdamModel<S>,
    ps: Seq<Model<S>>,
    gs: Seq<Model<S>>,
    after: AdamModel<S>,
    r: Result<Seq<Model<S>>, Error>,
) -> bool {
    exists|t: S::D| #[trigger]
        call_ensures(S::integer_f64, ((before.step + 1) as i64,), t) && adam_from::<S>(
            AdamModel { step: (before.step + 1) as i64, ..before },
            ps,
            gs,
            t,
            0,
            paired(ps.len(), gs.len()),
            Seq::empty(),
            after,
            r,
        )
}

/// Every tensor is made of zeros, in the shape and type of its parameter.
pub open spec fn all_zeros<S: Scalars>(ps: Seq<Model<S>>, ms: Seq<Model<S>>) -> bool {
    &&& ms.len() == ps.len()
    &&& forall|i: int|
        0 <= i < ps.len() ==> zeros_out::<S>(ps[i].shape, ps[i].dtype(), Ok(#[trigger] ms[i]))
}

/// Adam with decoupled weight decay. [`AdamW::step`] takes the parameters in the order of
/// [`AdamW::new`].
pub struct AdamW<S: Scalars> {
    pub lr: S::D,
    pub beta1: S::D,
    pub beta2: S::D,
    pub eps: S::D,
    pub weight_decay: S::D,
    pub step: i64,
    m: Vec<Tensor<S>>,
    v: Vec<Tensor<S>>,
}

impl<S: Scalars> View for AdamW<S> {
    type V = AdamModel<S>;

    closed spec fn view(&self) -> AdamModel<S> {
        AdamModel {
            lr: self.lr,
            beta1: self.beta1,
            beta2: self.beta2,
            eps: self.eps,
            weight_decay: self.weight_decay,
            step: self.step,
            m: views(self.m@),
            v: views(self.v@),
        }
    }
}

impl<S: Scalars> AdamW<S> {
    /// As many first moments as second ones.
    pub open spec fn wf(self) -> bool {
        self@.m.len() == self@.v.len()
    }

    /// An optimizer for the given parameters, with all moments zero.
    pub fn new(
        params: &[&Tensor<S>],
        lr: S::D,
        beta1: S::D,
        beta2: S::D,
        eps: S::D,
        wd: S::D,
    ) -> (r: Result<Self, Error>)
        ensures
            match r {
                Ok(a) => {
                    &&& a.wf()
                    &&& a@.rates() == (Rates { lr, beta1, beta2, eps, weight_decay: wd })
                    &&& a@.step == 0
                    &&& all_zeros::<S>(models(params@), a@.m)
                    &&& all_zeros::<S>(models(params@), a@.v)
                },
                Err(e) => numel_error(e) && exists|i: int|
                    0 <= i < params@.len() && !fits((#[trigger] params@[i])@.shape),
            },
    {
        let mut m: Vec<Tensor<S>> = Vec::new();
        let mut v: Vec<Tensor<S>> = Vec::new();
        let mut i: usize = 0;
        while i < params.len()
            invariant
                i <= params@.len(),
                m@.len() == i,
                v@.len() == i,
                forall|j: int|
                    0 <= j < i ==> zeros_out::<S>(
                        params@[j]@.shape,
                        params@[j]@.dtype(),
                        Ok((#[trigger] m@[j])@),
                    ),
                forall|j: int|
                    0 <= j < i ==> zeros_out::<S>(
                        params@[j]@.shape,
                        params@[j]@.dtype(),
                        Ok((#[trigger] v@[j])@),
                    ),
            decreases params@.len() - i,
        {
            let p: &Tensor<S> = params[i];
            match (Tensor::zeros(p.shape(), p.dtype()), Tensor::zeros(p.shape(), p.dtype())) {
                (Ok(a), Ok(b)) => {
                    m.push(a);
                    v.push(b);
                },
                (Err(e), _) => {
                    assert(!fits(params@[i as int]@.shape));
                    return Err(e);
                },
                (_, Err(e)) => {
                    assert(!fits(params@[i as int]@.shape));
                    return Err(e);
                },
            }
            i = i + 1;
        }
        let a: AdamW<S> = AdamW { lr, beta1, beta2, eps, weight_decay: wd, step: 0, m, v };
        proof {
            assert forall|j: int| 0 <= j < params@.len() implies zeros_out::<S>(
                models(params@)[j].shape,
                models(params@)[j].dtype(),
                Ok(#[trigger] a@.m[j]),
            ) by {
            }
            assert forall|j: int| 0 <= j < params@.len() implies zeros_out::<S>(
                models(params@)[j].shape,
                models(params@)[j].dtype(),
                Ok(#[trigger] a@.v[j]),
            ) by {
            }
        }
        Ok(a)
    }

    fn step_one(&mut self, p: &Tensor<S>, g: &Tensor<S>, t: S::D, i: usize) -> (r: Result<
        Tensor<S>,
        Error,
    >)
        requires
            old(self).wf(),
            i < old(self)@.m.len(),
        ensures
            final(self).wf(),
            final(self)@.m.len() == old(self)@.m.len(),
            adam_one::<S>(old(self)@, p@, g@, t, i as int, final(self)@, outcome(r)),
    {
        assert(self@.m[i as int] == self.m@[i as int]@);
        let m: Tensor<S> = match moment(&self.m[i], g, self.beta1) {
            Ok(x) => x,
            Err(e) => {
                return Err(e);
            },
        };
        let ghost s0 = self@;
        let ghost gm = m@;
        self.m.set(i, m);
        assert(self@ =~= (AdamModel { m: s0.m.update(i as int, gm), ..s0 }));
        let square: Tensor<S> = match crate::cpu::mul(g, g) {
            Ok(x) => x,
            Err(e) => {
                return Err(e);
            },
        };
        assert(self@.v[i as int] == self.v@[i as int]@);
        let v: Tensor<S> = match moment(&self.v[i], &square, self.beta2) {
            Ok(x) => x,
            Err(e) => {
                return Err(e);
            },
        };
        let ghost s1 = self@;
        let ghost gv = v@;
        self.v.set(i, v);
        proof {
            assert(self@ =~= (AdamModel { v: s1.v.update(i as int, gv), ..s1 }));
            assert(self@.m[i as int] == self.m@[i as int]@);
            assert(self@.v[i as int] == self.v@[i as int]@);
        }
        let h: Rates<S::D> = Rates {
            lr: self.lr,
            beta1: self.beta1,
            beta2: self.beta2,
            eps: self.eps,
            weight_decay: self.weight_decay,
        };
        stepped(p, &self.m[i], &self.v[i], &h, t)
    }

    fn step_from(
        &mut self,
        params: &[&Tensor<S>],
        grads: &[Tensor<S>],
        t: S::D,
        i: usize,
        n: usize,
        done: Vec<Tensor<S>>,
    ) -> (r: Result<Vec<Tensor<S>>, Error>)
        requires
            old(self).wf(),
            i <= n <= params@.len(),
            n <= grads@.len(),
            n <= old(self)@.m.len(),
        ensures
            final(self).wf(),
            final(self)@.m.len() == old(self)@.m.len(),
            adam_from::<S>(
                old(self)@,
                models(params@),
                views(grads@),
                t,
                i as int,
                n as int,
                views(done@),
                final(self)@,
                parts_outcome(r),
            ),
        decreases n - i,
    {
        if i >= n {
            return Ok(done);
        }
        proof {
            assert(models(params@)[i as int] == params@[i as int]@);
            assert(views(grads@)[i as int] == grads@[i as int]@);
        }
        match self.step_one(params[i], &grads[i], t, i) {
            Ok(p) => {
                let ghost gp = p@;
                let ghost before = views(done@);
                let mut more: Vec<Tensor<S>> = done;
                more.push(p);
                assert(views(more@) =~= before.push(gp));
                self.step_from(params, grads, t, i + 1, n, more)
            },
            Err(e) => Err(e),
        }
    }

    /// The parameters after one step.
    pub fn step(&mut self, params: &[&Tensor<S>], grads: &[Tensor<S>]) -> (r: Result<
        Vec<Tensor<S>>,
        Error,
    >)
        requires
            old(self).wf(),
            old(self)@.step < i64::MAX,
            paired(params@.len(), grads@.len()) <= old(self)@.m.len(),
        ensures
            final(self).wf(),
            final(self)@.m.len() == old(self)@.m.len(),
            adam_out::<S>(
                old(self)@,
                models(params@),
                views(grads@),
                final(self)@,
                parts_outcome(r),
            ),
    {
        self.step = self.step + 1;
        let t: S::D = S::integer_f64(self.step);
        let n: usize = if params.len() <= grads.len() {
            params.len()
        } else {
            grads.len()
        };
        let done: Vec<Tensor<S>> = Vec::new();
        proof {
            assert(views(done@) =~= Seq::<Model<S>>::empty());
            assert(self@ =~= (AdamModel { step: (old(self)@.step + 1) as i64, ..old(self)@ }));
        }
        self.step_from(params, grads, t, 0, n, done)
    }
}

} // verus!
