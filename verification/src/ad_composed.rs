//! Tracked operations made of others.
use vstd::prelude::*;
use crate::ad::{
    add_tracked, exp, exp_tracked, goes_on, log, log_tracked, mean, mean_tracked, mul_tracked,
    sqrt, sqrt_tracked, sub_tracked, sum, sum_tracked,
};
use crate::cpu::{add_out, mul_scalar_out, sub_out};
use crate::dtype::Dtype;
use crate::error::{Error, ErrorKind};
use crate::loss::count_of;
use crate::nodes::{kept, Graph, Node};
use crate::reduce::{amax, amax_out, seen};
use crate::scalar::{is_one, is_product, is_quotient, is_ratio, is_zero, Arith, Scalars};
use crate::shape::{axis_at, axis_error, axis_ok, normalize_axis};
use crate::storage::Data;
use crate::tensor::{gives, ones_out, outcome, passes, Model, Outcome, Tensor};
use crate::views::squeeze_out;

verus! {

/// What the number `s` as a tensor of the given type comes to; for integers there is none.
pub open spec fn constant_out<S: Scalars>(
    op: Seq<char>,
    dtype: Dtype,
    s: S::D,
    r: Outcome<S>,
) -> bool {
    match dtype {
        Dtype::F32 => exists|c: S::F| #[trigger]
            call_ensures(S::narrow, (s,), c) && is_constant::<S>(Data::F32(seq![c]), r),
        Dtype::F64 => is_constant::<S>(Data::F64(seq![s]), r),
        Dtype::I64 => r is Err && r->Err_0.says(ErrorKind::Dtype, op, "float"@),
    }
}

/// A tensor of rank zero with this one element.
pub open spec fn is_constant<S: Scalars>(data: Data<S::F, S::D>, r: Outcome<S>) -> bool {
    &&& r is Ok && r->Ok_0.plain(Seq::empty()) && r->Ok_0.data == data
    &&& r->Ok_0.valid() && r->Ok_0.elems() == r->Ok_0.data
}

/// The number `s` as a tensor of the given type.
pub fn constant<S: Scalars>(
    op: &'static str,
    dtype: Dtype,
    s: S::D,
) -> (r: Result<Tensor<S>, Error>)
    ensures
        constant_out::<S>(op@, dtype, s, outcome(r)),
{
    match dtype {
        Dtype::F32 => {
            let c: S::F = S::narrow(s);
            Tensor::scalar_f32(c)
        },
        Dtype::F64 => Tensor::scalar_f64(s),
        Dtype::I64 => Err(Error::dtype(op, "float".to_owned())),
    }
}

/// What `mul_scalar` comes to.
pub open spec fn mul_scalar_tracked<S: Scalars>(
    before: Seq<Node<S>>,
    after: Seq<Node<S>>,
    a: Model<S>,
    s: S::D,
    r: Outcome<S>,
) -> bool {
    exists|o: Outcome<S>| #[trigger]
        constant_out::<S>("mul_scalar"@, a.dtype(), s, o) && goes_on(
            o,
            before,
            r,
            after,
            mul_scalar_product::<S>(before, after, a, o->Ok_0, r),
        )
}

/// The rest of it, once `b` is there.
pub open spec fn mul_scalar_product<S: Scalars>(
    before: Seq<Node<S>>,
    after: Seq<Node<S>>,
    a: Model<S>,
    b: Model<S>,
    r: Outcome<S>,
) -> bool {
    mul_tracked::<S>(before, after, a, b, r)
}

/// Tracked scalar multiply.
pub fn mul_scalar<S: Scalars>(
    graph: &mut Graph<S>,
    a: &Tensor<S>,
    s: S::D,
) -> (r: Result<Tensor<S>, Error>)
    requires
        old(graph).wf(),
        old(graph).owns(a@),
    ensures
        kept::<S>(*old(graph), *final(graph), outcome(r)),
        mul_scalar_tracked::<S>(
            old(graph).nodes(),
            final(graph).nodes(),
            a@,
            s,
            outcome(r),
        ),
{
    let b: Tensor<S> = match constant("mul_scalar", a.dtype(), s) {
        Ok(t) => t,
        Err(e) => {
            return Err(e);
        },
    };
    crate::ad::mul(graph, a, &b)
}

/// Minus one.
pub open spec fn is_minus_one<T, A: Arith<T>>(m: T) -> bool {
    is_ratio::<T, A>((-1) as i64, 1, m)
}

/// What `neg` comes to: `a` times minus one.
pub open spec fn neg_tracked<S: Scalars>(
    before: Seq<Node<S>>,
    after: Seq<Node<S>>,
    a: Model<S>,
    r: Outcome<S>,
) -> bool {
    exists|s: S::D| #[trigger]
        is_minus_one::<S::D, S>(s) && mul_scalar_tracked::<S>(
            before,
            after,
            a,
            s,
            r,
        )
}

/// Tracked negation.
pub fn neg<S: Scalars>(
    graph: &mut Graph<S>,
    a: &Tensor<S>,
) -> (r: Result<Tensor<S>, Error>)
    requires
        old(graph).wf(),
        old(graph).owns(a@),
    ensures
        kept::<S>(*old(graph), *final(graph), outcome(r)),
        neg_tracked::<S>(
            old(graph).nodes(),
            final(graph).nodes(),
            a@,
            outcome(r),
        ),
{
    let s: S::D = <S as Arith<S::D>>::ratio(-1, 1);
    assert(is_minus_one::<S::D, S>(s));
    mul_scalar(graph, a, s)
}

/// What `variance` comes to.
pub open spec fn variance_tracked<S: Scalars>(
    before: Seq<Node<S>>,
    after: Seq<Node<S>>,
    x: Model<S>,
    axes: Option<Seq<isize>>,
    keepdims: bool,
    r: Outcome<S>,
) -> bool {
    exists|mid: Seq<Node<S>>, o: Outcome<S>| #[trigger]
        mean_tracked::<S>(before, mid, x, axes, true, o) && goes_on(
            o,
            mid,
            r,
            after,
            variance_centered::<S>(mid, after, x, axes, keepdims, o->Ok_0, r),
        )
}

/// The rest of it, once `m` is there.
pub open spec fn variance_centered<S: Scalars>(
    before: Seq<Node<S>>,
    after: Seq<Node<S>>,
    x: Model<S>,
    axes: Option<Seq<isize>>,
    keepdims: bool,
    m: Model<S>,
    r: Outcome<S>,
) -> bool {
    exists|mid: Seq<Node<S>>, o: Outcome<S>| #[trigger]
        sub_tracked::<S>(before, mid, x, m, o) && goes_on(
            o,
            mid,
            r,
            after,
            variance_squares::<S>(mid, after, axes, keepdims, o->Ok_0, r),
        )
}

/// The rest of it, once `xc` is there.
pub open spec fn variance_squares<S: Scalars>(
    before: Seq<Node<S>>,
    after: Seq<Node<S>>,
    axes: Option<Seq<isize>>,
    keepdims: bool,
    xc: Model<S>,
    r: Outcome<S>,
) -> bool {
    exists|mid: Seq<Node<S>>, o: Outcome<S>| #[trigger]
        mul_tracked::<S>(before, mid, xc, xc, o) && goes_on(
            o,
            mid,
            r,
            after,
            variance_mean::<S>(mid, after, axes, keepdims, o->Ok_0, r),
        )
}

/// The rest of it, once `sq` is there.
pub open spec fn variance_mean<S: Scalars>(
    before: Seq<Node<S>>,
    after: Seq<Node<S>>,
    axes: Option<Seq<isize>>,
    keepdims: bool,
    sq: Model<S>,
    r: Outcome<S>,
) -> bool {
    mean_tracked::<S>(before, after, sq, axes, keepdims, r)
}

/// Population variance over `axes` (`None` = all).
pub fn variance<S: Scalars>(
    graph: &mut Graph<S>,
    x: &Tensor<S>,
    axes: Option<&[isize]>,
    keepdims: bool,
) -> (r: Result<Tensor<S>, Error>)
    requires
        old(graph).wf(),
        old(graph).owns(x@),
    ensures
        kept::<S>(*old(graph), *final(graph), outcome(r)),
        variance_tracked::<S>(
            old(graph).nodes(),
            final(graph).nodes(),
            x@,
            seen(axes),
            keepdims,
            outcome(r),
        ),
{
    let m: Tensor<S> = match mean(graph, x, axes, true) {
        Ok(t) => t,
        Err(e) => {
            return Err(e);
        },
    };
    let xc: Tensor<S> = match crate::ad::sub(graph, x, &m) {
        Ok(t) => t,
        Err(e) => {
            return Err(e);
        },
    };
    let sq: Tensor<S> = match crate::ad::mul(graph, &xc, &xc) {
        Ok(t) => t,
        Err(e) => {
            return Err(e);
        },
    };
    mean(graph, &sq, axes, keepdims)
}

/// What `stddev` comes to.
pub open spec fn stddev_tracked<S: Scalars>(
    before: Seq<Node<S>>,
    after: Seq<Node<S>>,
    x: Model<S>,
    axes: Option<Seq<isize>>,
    keepdims: bool,
    r: Outcome<S>,
) -> bool {
    exists|mid: Seq<Node<S>>, o: Outcome<S>| #[trigger]
        variance_tracked::<S>(before, mid, x, axes, keepdims, o) && goes_on(
            o,
            mid,
            r,
            after,
            stddev_root::<S>(mid, after, o->Ok_0, r),
        )
}

/// The rest of it, once `v` is there.
pub open spec fn stddev_root<S: Scalars>(
    before: Seq<Node<S>>,
    after: Seq<Node<S>>,
    v: Model<S>,
    r: Outcome<S>,
) -> bool {
    sqrt_tracked::<S>(before, after, v, r)
}

/// Population standard deviation over `axes` (`None` = all).
pub fn stddev<S: Scalars>(
    graph: &mut Graph<S>,
    x: &Tensor<S>,
    axes: Option<&[isize]>,
    keepdims: bool,
) -> (r: Result<Tensor<S>, Error>)
    requires
        old(graph).wf(),
        old(graph).owns(x@),
    ensures
        kept::<S>(*old(graph), *final(graph), outcome(r)),
        stddev_tracked::<S>(
            old(graph).nodes(),
            final(graph).nodes(),
            x@,
            seen(axes),
            keepdims,
            outcome(r),
        ),
{
    let v: Tensor<S> = match variance(graph, x, axes, keepdims) {
        Ok(t) => t,
        Err(e) => {
            return Err(e);
        },
    };
    sqrt(graph, &v)
}

/// One axis, as the argument of a reduction.
pub open spec fn axis_only(axis: isize) -> Option<Seq<isize>> {
    Some(seq![axis])
}

/// The value as it is, or without the axis.
pub open spec fn trimmed_out<S: Scalars>(
    m: Model<S>,
    axis: isize,
    keepdims: bool,
    r: Outcome<S>,
) -> bool {
    if keepdims {
        gives(r, m)
    } else {
        squeeze_out::<S>(m, Some(axis), r)
    }
}

fn trim<S: Scalars>(x: Tensor<S>, axis: isize, keepdims: bool) -> (r: Result<Tensor<S>, Error>)
    ensures
        trimmed_out::<S>(x@, axis, keepdims, outcome(r)),
{
    if keepdims {
        Ok(x)
    } else {
        x.squeeze(Some(axis))
    }
}

/// Tracked sum over one axis, which stays.
fn sum_along<S: Scalars>(graph: &mut Graph<S>, x: &Tensor<S>, axis: isize) -> (r: Result<
    Tensor<S>,
    Error,
>)
    requires
        old(graph).wf(),
        old(graph).owns(x@),
    ensures
        kept::<S>(*old(graph), *final(graph), outcome(r)),
        sum_tracked::<S>(
            old(graph).nodes(),
            final(graph).nodes(),
            x@,
            axis_only(axis),
            true,
            outcome(r),
        ),
{
    let axes: [isize; 1] = [axis];
    let asked: Option<&[isize]> = Some(&axes);
    assert(axes@ =~= seq![axis]);
    assert(seen(asked) == axis_only(axis));
    sum(graph, x, asked, true)
}

/// What the stable logarithm of a sum of exponentials comes to: the maximum is taken off before and
/// put back after.
pub open spec fn stable_sum_tracked<S: Scalars>(
    before: Seq<Node<S>>,
    after: Seq<Node<S>>,
    x: Model<S>,
    axis: isize,
    ax: isize,
    keepdims: bool,
    r: Outcome<S>,
) -> bool {
    exists|o: Outcome<S>| #[trigger]
        amax_out::<S>(x, axis, true, o) && goes_on(
            o,
            before,
            r,
            after,
            stable_sum_shifted::<S>(before, after, x, axis, ax, keepdims, o->Ok_0, r),
        )
}

/// The rest of it, once `m` is there.
pub open spec fn stable_sum_shifted<S: Scalars>(
    before: Seq<Node<S>>,
    after: Seq<Node<S>>,
    x: Model<S>,
    axis: isize,
    ax: isize,
    keepdims: bool,
    m: Model<S>,
    r: Outcome<S>,
) -> bool {
    exists|mid: Seq<Node<S>>, o: Outcome<S>| #[trigger]
        sub_tracked::<S>(before, mid, x, m, o) && goes_on(
            o,
            mid,
            r,
            after,
            stable_sum_powers::<S>(mid, after, axis, ax, keepdims, m, o->Ok_0, r),
        )
}

/// The rest of it, once `d` is there.
pub open spec fn stable_sum_powers<S: Scalars>(
    before: Seq<Node<S>>,
    after: Seq<Node<S>>,
    axis: isize,
    ax: isize,
    keepdims: bool,
    m: Model<S>,
    d: Model<S>,
    r: Outcome<S>,
) -> bool {
    exists|mid: Seq<Node<S>>, o: Outcome<S>| #[trigger]
        exp_tracked::<S>(before, mid, d, o) && goes_on(
            o,
            mid,
            r,
            after,
            stable_sum_total::<S>(mid, after, axis, ax, keepdims, m, o->Ok_0, r),
        )
}

/// The rest of it, once `e` is there.
pub open spec fn stable_sum_total<S: Scalars>(
    before: Seq<Node<S>>,
    after: Seq<Node<S>>,
    axis: isize,
    ax: isize,
    keepdims: bool,
    m: Model<S>,
    e: Model<S>,
    r: Outcome<S>,
) -> bool {
    exists|mid: Seq<Node<S>>, o: Outcome<S>| #[trigger]
        sum_tracked::<S>(before, mid, e, axis_only(axis), true, o) && goes_on(
            o,
            mid,
            r,
            after,
            stable_sum_logarithm::<S>(mid, after, ax, keepdims, m, o->Ok_0, r),
        )
}

/// The rest of it, once `s` is there.
pub open spec fn stable_sum_logarithm<S: Scalars>(
    before: Seq<Node<S>>,
    after: Seq<Node<S>>,
    ax: isize,
    keepdims: bool,
    m: Model<S>,
    s: Model<S>,
    r: Outcome<S>,
) -> bool {
    exists|mid: Seq<Node<S>>, o: Outcome<S>| #[trigger]
        log_tracked::<S>(before, mid, s, o) && goes_on(
            o,
            mid,
            r,
            after,
            stable_sum_unshifted::<S>(mid, after, ax, keepdims, m, o->Ok_0, r),
        )
}

/// The rest of it, once `l` is there.
pub open spec fn stable_sum_unshifted<S: Scalars>(
    before: Seq<Node<S>>,
    after: Seq<Node<S>>,
    ax: isize,
    keepdims: bool,
    m: Model<S>,
    l: Model<S>,
    r: Outcome<S>,
) -> bool {
    exists|mid: Seq<Node<S>>, o: Outcome<S>| #[trigger]
        add_tracked::<S>(before, mid, l, m, o) && goes_on(
            o,
            mid,
            r,
            after,
            stable_sum_trimmed::<S>(mid, after, ax, keepdims, o->Ok_0, r),
        )
}

/// The rest of it, once `y` is there.
pub open spec fn stable_sum_trimmed<S: Scalars>(
    before: Seq<Node<S>>,
    after: Seq<Node<S>>,
    ax: isize,
    keepdims: bool,
    y: Model<S>,
    r: Outcome<S>,
) -> bool {
    after == before && trimmed_out::<S>(y, ax, keepdims, r)
}

/// The logarithm of a sum of exponentials along axis `axis`, which is `ax` counted from the first.
fn stable_sum<S: Scalars>(
    graph: &mut Graph<S>,
    x: &Tensor<S>,
    axis: isize,
    ax: isize,
    keepdims: bool,
) -> (r: Result<Tensor<S>, Error>)
    requires
        old(graph).wf(),
        old(graph).owns(x@),
    ensures
        kept::<S>(*old(graph), *final(graph), outcome(r)),
        stable_sum_tracked::<S>(
            old(graph).nodes(),
            final(graph).nodes(),
            x@,
            axis,
            ax,
            keepdims,
            outcome(r),
        ),
{
    let m: Tensor<S> = match amax(x, axis, true) {
        Ok(t) => t,
        Err(e) => {
            return Err(e);
        },
    };
    let d: Tensor<S> = match crate::ad::sub(graph, x, &m) {
        Ok(t) => t,
        Err(e) => {
            return Err(e);
        },
    };
    let e: Tensor<S> = match exp(graph, &d) {
        Ok(t) => t,
        Err(e) => {
            return Err(e);
        },
    };
    let s: Tensor<S> = match sum_along(graph, &e, axis) {
        Ok(t) => t,
        Err(e) => {
            return Err(e);
        },
    };
    let l: Tensor<S> = match log(graph, &s) {
        Ok(t) => t,
        Err(e) => {
            return Err(e);
        },
    };
    let y: Tensor<S> = match crate::ad::add(graph, &l, &m) {
        Ok(t) => t,
        Err(e) => {
            return Err(e);
        },
    };
    trim(y, ax, keepdims)
}

/// What `logsumexp` comes to.
pub open spec fn logsumexp_tracked<S: Scalars>(
    before: Seq<Node<S>>,
    after: Seq<Node<S>>,
    x: Model<S>,
    axis: isize,
    keepdims: bool,
    r: Outcome<S>,
) -> bool {
    if !axis_ok(axis as int, x.shape.len() as int) {
        after == before && r is Err && axis_error(
            r->Err_0,
            axis as int,
            x.shape.len() as int,
            "logsumexp"@,
        )
    } else {
        stable_sum_tracked::<S>(
            before,
            after,
            x,
            axis,
            axis_at(axis as int, x.shape.len() as int) as isize,
            keepdims,
            r,
        )
    }
}

/// Numerically stable log-sum-exp over `axis`.
pub fn logsumexp<S: Scalars>(
    graph: &mut Graph<S>,
    x: &Tensor<S>,
    axis: isize,
    keepdims: bool,
) -> (r: Result<Tensor<S>, Error>)
    requires
        old(graph).wf(),
        old(graph).owns(x@),
    ensures
        kept::<S>(*old(graph), *final(graph), outcome(r)),
        logsumexp_tracked::<S>(
            old(graph).nodes(),
            final(graph).nodes(),
            x@,
            axis,
            keepdims,
            outcome(r),
        ),
{
    let ax: usize = match normalize_axis(axis, x.rank(), "logsumexp") {
        Ok(a) => a,
        Err(e) => {
            return Err(e);
        },
    };
    stable_sum(graph, x, axis, ax as isize, keepdims)
}

/// What `f` comes to on a tensor like `m`.
pub open spec fn called_out<S: Scalars, F: Fn(&Tensor<S>) -> Result<Tensor<S>, Error>>(
    f: F,
    m: Model<S>,
    o: Outcome<S>,
) -> bool {
    exists|t: Tensor<S>, q: Result<Tensor<S>, Error>| #[trigger]
        call_ensures(f, (&t,), q) && t@ == m && outcome(q) == o
}

fn call<S: Scalars, F: Fn(&Tensor<S>) -> Result<Tensor<S>, Error>>(f: &F, t: &Tensor<S>) -> (q:
    Result<Tensor<S>, Error>)
    requires
        forall|t: &Tensor<S>| #[trigger] call_requires(*f, (t,)),
    ensures
        called_out::<S, F>(*f, t@, outcome(q)),
{
    let q: Result<Tensor<S>, Error> = f(t);
    assert(call_ensures(*f, (t,), q));
    q
}

/// One over twice `eps`.
pub open spec fn is_half_inverse<T, A: Arith<T>>(eps: T, k: T) -> bool {
    exists|one: T, two: T, d: T| #[trigger]
        is_one::<T, A>(one) && #[trigger] is_ratio::<T, A>(2, 1, two) && #[trigger] is_product::<
            T,
            A,
        >(two, eps, d) && is_quotient::<T, A>(one, d, k)
}

/// What `x` over twice `eps` comes to.
pub open spec fn per_double_out<S: Scalars>(x: Model<S>, eps: S::D, r: Outcome<S>) -> bool {
    exists|k: S::D| #[trigger] is_half_inverse::<S::D, S>(eps, k) && mul_scalar_out::<S>(x, k, r)
}

fn per_double<S: Scalars>(x: &Tensor<S>, eps: S::D) -> (r: Result<Tensor<S>, Error>)
    ensures
        per_double_out::<S>(x@, eps, outcome(r)),
{
    let one: S::D = <S as Arith<S::D>>::one();
    let two: S::D = <S as Arith<S::D>>::ratio(2, 1);
    let d: S::D = <S as Arith<S::D>>::times(two, eps);
    let k: S::D = <S as Arith<S::D>>::over(one, d);
    proof {
        assert(is_one::<S::D, S>(one) && is_ratio::<S::D, S>(2, 1, two) && is_product::<S::D, S>(
            two,
            eps,
            d,
        ));
        assert(is_half_inverse::<S::D, S>(eps, k));
    }
    crate::cpu::mul_scalar(x, k)
}

/// `v` is the only element of a float tensor, as a 64-bit number; zero where there is not one.
pub open spec fn lone_value<S: Scalars>(m: Model<S>, v: S::D) -> bool {
    if count_of(m.shape) != 1 {
        is_zero::<S::D, S>(v)
    } else {
        match m.elems() {
            Data::F32(x) => call_ensures(S::widen, (x[0],), v),
            Data::F64(x) => v == x[0],
            Data::I64(_) => is_zero::<S::D, S>(v),
        }
    }
}

fn lone_number<S: Scalars>(t: &Tensor<S>) -> (v: S::D)
    ensures
        lone_value::<S>(t@, v),
{
    if t.numel() == 1 {
        match t.dtype() {
            Dtype::F32 => {
                if let Ok(x) = t.to_vec_f32() {
                    return S::widen(x[0]);
                }
            },
            Dtype::F64 => {
                if let Ok(x) = t.to_vec_f64() {
                    return x[0];
                }
            },
            Dtype::I64 => {},
        }
    }
    let z: S::D = <S as Arith<S::D>>::zero();
    assert(is_zero::<S::D, S>(z));
    z
}

/// What `jvp_identity_check` comes to.
pub open spec fn jvp_identity_check_out<S: Scalars, F: Fn(&Tensor<S>) -> Result<Tensor<S>, Error>>(
    f: F,
    x: Model<S>,
    v: Model<S>,
    eps: S::D,
    r: Result<S::D, Error>,
) -> bool {
    exists|o: Outcome<S>| #[trigger]
        mul_scalar_out::<S>(v, eps, o) && passes(
            o,
            r,
            jvp_ahead::<S, F>(f, x, v, eps, o->Ok_0, r),
        )
}

/// The rest of it, once `sv` is there.
pub open spec fn jvp_ahead<S: Scalars, F: Fn(&Tensor<S>) -> Result<Tensor<S>, Error>>(
    f: F,
    x: Model<S>,
    v: Model<S>,
    eps: S::D,
    sv: Model<S>,
    r: Result<S::D, Error>,
) -> bool {
    exists|o: Outcome<S>| #[trigger]
        add_out::<S>(x, sv, o) && passes(
            o,
            r,
            jvp_step_back::<S, F>(f, x, v, eps, o->Ok_0, r),
        )
}

/// The rest of it, once `xp` is there.
pub open spec fn jvp_step_back<S: Scalars, F: Fn(&Tensor<S>) -> Result<Tensor<S>, Error>>(
    f: F,
    x: Model<S>,
    v: Model<S>,
    eps: S::D,
    xp: Model<S>,
    r: Result<S::D, Error>,
) -> bool {
    exists|o: Outcome<S>| #[trigger]
        mul_scalar_out::<S>(v, eps, o) && passes(
            o,
            r,
            jvp_behind::<S, F>(f, x, eps, xp, o->Ok_0, r),
        )
}

/// The rest of it, once `sw` is there.
pub open spec fn jvp_behind<S: Scalars, F: Fn(&Tensor<S>) -> Result<Tensor<S>, Error>>(
    f: F,
    x: Model<S>,
    eps: S::D,
    xp: Model<S>,
    sw: Model<S>,
    r: Result<S::D, Error>,
) -> bool {
    exists|o: Outcome<S>| #[trigger]
        sub_out::<S>(x, sw, o) && passes(
            o,
            r,
            jvp_value_ahead::<S, F>(f, x, eps, xp, o->Ok_0, r),
        )
}

/// The rest of it, once `xm` is there.
pub open spec fn jvp_value_ahead<S: Scalars, F: Fn(&Tensor<S>) -> Result<Tensor<S>, Error>>(
    f: F,
    x: Model<S>,
    eps: S::D,
    xp: Model<S>,
    xm: Model<S>,
    r: Result<S::D, Error>,
) -> bool {
    exists|o: Outcome<S>| #[trigger]
        called_out::<S, F>(f, xp, o) && passes(
            o,
            r,
            jvp_value_behind::<S, F>(f, x, eps, xm, o->Ok_0, r),
        )
}

/// The rest of it, once `fp` is there.
pub open spec fn jvp_value_behind<S: Scalars, F: Fn(&Tensor<S>) -> Result<Tensor<S>, Error>>(
    f: F,
    x: Model<S>,
    eps: S::D,
    xm: Model<S>,
    fp: Model<S>,
    r: Result<S::D, Error>,
) -> bool {
    exists|o: Outcome<S>| #[trigger]
        called_out::<S, F>(f, xm, o) && passes(
            o,
            r,
            jvp_difference::<S, F>(f, x, eps, fp, o->Ok_0, r),
        )
}

/// The rest of it, once `fm` is there.
pub open spec fn jvp_difference<S: Scalars, F: Fn(&Tensor<S>) -> Result<Tensor<S>, Error>>(
    f: F,
    x: Model<S>,
    eps: S::D,
    fp: Model<S>,
    fm: Model<S>,
    r: Result<S::D, Error>,
) -> bool {
    exists|o: Outcome<S>| #[trigger]
        sub_out::<S>(fp, fm, o) && passes(
            o,
            r,
            jvp_quotient::<S, F>(f, x, eps, o->Ok_0, r),
        )
}

/// The rest of it, once `df` is there.
pub open spec fn jvp_quotient<S: Scalars, F: Fn(&Tensor<S>) -> Result<Tensor<S>, Error>>(
    f: F,
    x: Model<S>,
    eps: S::D,
    df: Model<S>,
    r: Result<S::D, Error>,
) -> bool {
    exists|o: Outcome<S>| #[trigger]
        per_double_out::<S>(df, eps, o) && passes(
            o,
            r,
            jvp_value::<S, F>(f, x, o->Ok_0, r),
        )
}

/// The rest of it, once `num` is there.
pub open spec fn jvp_value<S: Scalars, F: Fn(&Tensor<S>) -> Result<Tensor<S>, Error>>(
    f: F,
    x: Model<S>,
    num: Model<S>,
    r: Result<S::D, Error>,
) -> bool {
    exists|o: Outcome<S>| #[trigger]
        called_out::<S, F>(f, x, o) && passes(
            o,
            r,
            jvp_seed::<S>(num, o->Ok_0, r),
        )
}

/// The rest of it, once `y` is there.
pub open spec fn jvp_seed<S: Scalars>(
    num: Model<S>,
    y: Model<S>,
    r: Result<S::D, Error>,
) -> bool {
    exists|o: Outcome<S>| #[trigger]
        ones_out::<S>(y.shape, y.dtype(), o) && passes(
            o,
            r,
            r is Ok && lone_value::<S>(num, r->Ok_0),
        )
}

/// Directional derivative of a scalar function, by central differences: that of `f` at `x` along
/// `v`. Where `f` gives other than one number, the answer is zero.
pub fn jvp_identity_check<S: Scalars, F: Fn(&Tensor<S>) -> Result<Tensor<S>, Error>>(
    f: F,
    x: &Tensor<S>,
    v: &Tensor<S>,
    eps: S::D,
) -> (r: Result<S::D, Error>)
    requires
        forall|t: &Tensor<S>| #[trigger] call_requires(f, (t,)),
    ensures
        jvp_identity_check_out::<S, F>(f, x@, v@, eps, r),
{
    let sv: Tensor<S> = match crate::cpu::mul_scalar(v, eps) {
        Ok(t) => t,
        Err(e) => {
            return Err(e);
        },
    };
    let xp: Tensor<S> = match crate::cpu::add(x, &sv) {
        Ok(t) => t,
        Err(e) => {
            return Err(e);
        },
    };
    let sw: Tensor<S> = match crate::cpu::mul_scalar(v, eps) {
        Ok(t) => t,
        Err(e) => {
            return Err(e);
        },
    };
    let xm: Tensor<S> = match crate::cpu::sub(x, &sw) {
        Ok(t) => t,
        Err(e) => {
            return Err(e);
        },
    };
    let fp: Tensor<S> = match call(&f, &xp) {
        Ok(t) => t,
        Err(e) => {
            return Err(e);
        },
    };
    let fm: Tensor<S> = match call(&f, &xm) {
        Ok(t) => t,
        Err(e) => {
            return Err(e);
        },
    };
    let df: Tensor<S> = match crate::cpu::sub(&fp, &fm) {
        Ok(t) => t,
        Err(e) => {
            return Err(e);
        },
    };
    let num: Tensor<S> = match per_double(&df, eps) {
        Ok(t) => t,
        Err(e) => {
            return Err(e);
        },
    };
    let y: Tensor<S> = match call(&f, x) {
        Ok(t) => t,
        Err(e) => {
            return Err(e);
        },
    };
    let _seed: Tensor<S> = match Tensor::ones(y.shape(), y.dtype()) {
        Ok(t) => t,
        Err(e) => {
            return Err(e);
        },
    };
    Ok(lone_number(&num))
}

} // verus!
