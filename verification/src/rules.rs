//! Rules of differentiation: what each operation makes of the cotangent of its result.
use vstd::prelude::*;
use crate::cpu::{mul_out, mul_scalar, mul_scalar_out, neg, neg_out, square, square_out, sub_out};
use crate::dtype::Dtype;
use crate::error::{Error, ErrorKind};
use crate::fused::{
    block_backward, fused_block_bwd_out, AuxModel, BlockSlopes, BlockSlopesModel, FusedAux,
    Weights, WeightsModel,
};
use crate::guarded::{
    lookup_back, lookup_back_out, misfit, misfit_error, rms_back, rms_back_out, scan_back,
    scan_back_out, scatter, scatter_out, stretch, stretch_out,
};
use crate::index::{fits, volume};
use crate::matmul::matmul_out;
use crate::products::{
    answer_here, asked_view, finish_slopes, law_products_make_slopes, slope_products, Products,
};
use crate::reduce::{seen, sum, sum_out};
use crate::scalar::{is_one, is_quotient, is_zero, Arith, Scalars};
use crate::storage::Data;
use crate::tape::{parts_outcome, views};
use crate::tensor::{
    gives, ones_out, outcome, passes, slice_error, zeros_out, Model, Outcome, Tensor,
};
use crate::unary::{exp, exp_out};
use crate::views::{reshape_out, squeeze_out, transpose_out, unsqueeze_out};

verus! {

/// A list of one.
pub fn one_part<S: Scalars>(t: Tensor<S>) -> (r: Vec<Tensor<S>>)
    ensures
        views(r@) == seq![t@],
{
    let ghost a = t@;
    let mut v: Vec<Tensor<S>> = Vec::new();
    v.push(t);
    assert(views(v@) =~= seq![a]);
    v
}

/// A list of two.
pub fn two_parts<S: Scalars>(t: Tensor<S>, u: Tensor<S>) -> (r: Vec<Tensor<S>>)
    ensures
        views(r@) == seq![t@, u@],
{
    let ghost a = t@;
    let ghost b = u@;
    let mut v: Vec<Tensor<S>> = Vec::new();
    v.push(t);
    v.push(u);
    assert(views(v@) =~= seq![a, b]);
    v
}

/// What summing away the first axis `n` times comes to.
pub open spec fn peeled_out<S: Scalars>(m: Model<S>, n: nat, r: Outcome<S>) -> bool
    decreases n,
{
    if n == 0 {
        gives(r, m)
    } else {
        exists|o: Outcome<S>| #[trigger]
            sum_out::<S>(m, crate::fused::first_axis(), false, o) && passes(
                o,
                r,
                peeled_out::<S>(o->Ok_0, (n - 1) as nat, r),
            )
    }
}

/// Sums away the first axis `n` times.
fn peel<S: Scalars>(x: &Tensor<S>, n: usize) -> (r: Result<Tensor<S>, Error>)
    ensures
        peeled_out::<S>(x@, n as nat, outcome(r)),
    decreases n,
{
    if n == 0 {
        return Ok(x.clone());
    }
    match crate::fused::sum_first(x) {
        Ok(t) => peel(&t, n - 1),
        Err(e) => Err(e),
    }
}

/// The axes below `n` of which `target` has one and the shape has more.
pub open spec fn stretched_axes(shape: Seq<usize>, target: Seq<usize>, n: int) -> Seq<isize>
    decreases n,
{
    if n <= 0 {
        Seq::empty()
    } else {
        let rest = stretched_axes(shape, target, n - 1);
        if target[n - 1] == 1 && shape[n - 1] > 1 {
            rest.push((n - 1) as isize)
        } else {
            rest
        }
    }
}

/// The lesser of two ranks.
pub open spec fn shared_rank(shape: Seq<usize>, target: Seq<usize>) -> int {
    if shape.len() <= target.len() {
        shape.len() as int
    } else {
        target.len() as int
    }
}

/// A shape as the argument of a reshape.
pub open spec fn signed(shape: Seq<usize>) -> Seq<isize> {
    Seq::new(shape.len(), |i: int| shape[i] as isize)
}

/// A shape as the argument of a reshape.
pub fn as_signed(shape: &[usize]) -> (r: Vec<isize>)
    ensures
        r@ == signed(shape@),
{
    let mut v: Vec<isize> = Vec::new();
    let mut i: usize = 0;
    while i < shape.len()
        invariant
            i <= shape@.len(),
            v@ == signed(shape@).take(i as int),
        decreases shape@.len() - i,
    {
        v.push(shape[i] as isize);
        assert(v@ =~= signed(shape@).take(i + 1));
        i = i + 1;
    }
    assert(v@ =~= signed(shape@));
    v
}

/// What bringing a value to the shape `target` comes to.
pub open spec fn shaped_out<S: Scalars>(m: Model<S>, target: Seq<usize>, r: Outcome<S>) -> bool {
    if m.shape == target {
        gives(r, m)
    } else {
        reshape_out::<S>(m, signed(target), r)
    }
}

fn shape_to<S: Scalars>(x: &Tensor<S>, target: &[usize]) -> (r: Result<Tensor<S>, Error>)
    ensures
        shaped_out::<S>(x@, target@, outcome(r)),
{
    if crate::indexing::same_shape(x.shape(), target) {
        return Ok(x.clone());
    }
    let to: Vec<isize> = as_signed(target);
    x.reshape(to.as_slice())
}

/// What summing the stretched axes comes to.
pub open spec fn folded_out<S: Scalars>(m: Model<S>, target: Seq<usize>, r: Outcome<S>) -> bool {
    let axes = stretched_axes(m.shape, target, shared_rank(m.shape, target));
    if axes.len() == 0 {
        shaped_out::<S>(m, target, r)
    } else {
        summed_out::<S>(m, Some(axes), target, r)
    }
}

/// What summing over `axes`, which stay, and bringing to the shape `target` comes to.
pub open spec fn summed_out<S: Scalars>(
    m: Model<S>,
    axes: Option<Seq<isize>>,
    target: Seq<usize>,
    r: Outcome<S>,
) -> bool {
    exists|o: Outcome<S>| #[trigger]
        sum_out::<S>(m, axes, true, o) && passes(o, r, shaped_out::<S>(o->Ok_0, target, r))
}

fn fold_to<S: Scalars>(x: &Tensor<S>, target: &[usize]) -> (r: Result<Tensor<S>, Error>)
    ensures
        folded_out::<S>(x@, target@, outcome(r)),
{
    let shape: &[usize] = x.shape();
    let n: usize = if shape.len() <= target.len() {
        shape.len()
    } else {
        target.len()
    };
    let mut axes: Vec<isize> = Vec::new();
    let mut i: usize = 0;
    while i < n
        invariant
            i <= n,
            n == shared_rank(shape@, target@),
            axes@ == stretched_axes(shape@, target@, i as int),
        decreases n - i,
    {
        if target[i] == 1 && shape[i] > 1 {
            axes.push(i as isize);
        }
        i = i + 1;
    }
    if axes.len() == 0 {
        return shape_to(x, target);
    }
    let asked: Option<&[isize]> = Some(axes.as_slice());
    assert(seen(asked) == Some(axes@));
    match sum(x, asked, true) {
        Ok(t) => shape_to(&t, target),
        Err(e) => Err(e),
    }
}

/// What `unbroadcast` comes to: the leading axes that were added are summed away, then those that
/// were stretched from one.
pub open spec fn unbroadcast_out<S: Scalars>(
    g: Model<S>,
    target: Seq<usize>,
    r: Outcome<S>,
) -> bool {
    if g.shape == target {
        gives(r, g)
    } else {
        exists|o: Outcome<S>| #[trigger]
            peeled_out::<S>(g, extra_rank(g.shape, target), o) && passes(
                o,
                r,
                folded_out::<S>(o->Ok_0, target, r),
            )
    }
}

/// How many axes there are beyond those of `target`.
pub open spec fn extra_rank(shape: Seq<usize>, target: Seq<usize>) -> nat {
    if shape.len() > target.len() {
        (shape.len() - target.len()) as nat
    } else {
        0
    }
}

/// Brings the cotangent of a broadcast operand back to the operand's shape.
pub fn unbroadcast<S: Scalars>(g: &Tensor<S>, target: &[usize]) -> (r: Result<Tensor<S>, Error>)
    ensures
        unbroadcast_out::<S>(g@, target@, outcome(r)),
{
    if crate::indexing::same_shape(g.shape(), target) {
        return Ok(g.clone());
    }
    let extra: usize = if g.rank() > target.len() {
        g.rank() - target.len()
    } else {
        0
    };
    assert(extra as nat == extra_rank(g@.shape, target@));
    match peel(g, extra) {
        Ok(t) => fold_to(&t, target),
        Err(e) => Err(e),
    }
}

/// What putting the marked axes back, from the `k`-th on, comes to.
pub open spec fn regrown_out<S: Scalars>(
    m: Model<S>,
    marks: Seq<bool>,
    k: int,
    r: Outcome<S>,
) -> bool
    decreases marks.len() - k,
{
    if k >= marks.len() {
        gives(r, m)
    } else if !marks[k] {
        regrown_out::<S>(m, marks, k + 1, r)
    } else {
        exists|o: Outcome<S>| #[trigger]
            unsqueeze_out::<S>(m, (k as isize) as int, o) && passes(
                o,
                r,
                regrown_out::<S>(o->Ok_0, marks, k + 1, r),
            )
    }
}

fn regrow<S: Scalars>(x: &Tensor<S>, marks: &[bool], k: usize) -> (r: Result<Tensor<S>, Error>)
    requires
        k <= marks@.len(),
    ensures
        regrown_out::<S>(x@, marks@, k as int, outcome(r)),
    decreases marks@.len() - k,
{
    if k >= marks.len() {
        return Ok(x.clone());
    }
    if !marks[k] {
        return regrow(x, marks, k + 1);
    }
    match x.unsqueeze(k as isize) {
        Ok(t) => regrow(&t, marks, k + 1),
        Err(e) => Err(e),
    }
}

/// What `unsqueeze_reduced` comes to: the reduced axes are put back, unless they were kept, and the
/// value is stretched to the shape that was reduced.
pub open spec fn unsqueeze_reduced_out<S: Scalars>(
    op: Seq<char>,
    gy: Model<S>,
    shape: Seq<usize>,
    marks: Seq<bool>,
    keep: bool,
    r: Outcome<S>,
) -> bool {
    if keep {
        stretch_out::<S>(op, gy, shape, r)
    } else {
        exists|o: Outcome<S>| #[trigger]
            regrown_out::<S>(gy, marks, 0, o) && passes(
                o,
                r,
                stretch_out::<S>(op, o->Ok_0, shape, r),
            )
    }
}

/// Spreads the cotangent of a reduction over what was reduced.
pub fn unsqueeze_reduced<S: Scalars>(
    op: &'static str,
    gy: &Tensor<S>,
    shape: &[usize],
    marks: &[bool],
    keep: bool,
) -> (r: Result<Tensor<S>, Error>)
    ensures
        unsqueeze_reduced_out::<S>(op@, gy@, shape@, marks@, keep, outcome(r)),
{
    if keep {
        return stretch(op, gy, shape);
    }
    match regrow(gy, marks, 0) {
        Ok(t) => stretch(op, &t, shape),
        Err(e) => Err(e),
    }
}

/// The pieces of `a + b`: the cotangent, brought to either shape.
#[verifier::opaque]
pub open spec fn add_parts<S: Scalars>(
    a_shape: Seq<usize>,
    b_shape: Seq<usize>,
    gy: Model<S>,
    r: Result<Seq<Model<S>>, Error>,
) -> bool {
    exists|o: Outcome<S>| #[trigger]
        unbroadcast_out::<S>(gy, a_shape, o) && passes(
            o,
            r,
            add_second::<S>(b_shape, gy, o->Ok_0, r),
        )
}

/// The rest of it, once `ga` is there.
pub open spec fn add_second<S: Scalars>(
    b_shape: Seq<usize>,
    gy: Model<S>,
    ga: Model<S>,
    r: Result<Seq<Model<S>>, Error>,
) -> bool {
    exists|o: Outcome<S>| #[trigger]
        unbroadcast_out::<S>(gy, b_shape, o) && passes(
            o,
            r,
            gives(r, seq![ga, o->Ok_0]),
        )
}

/// The pieces of `a + b`: the cotangent, brought to either shape.
pub fn add_vjp<S: Scalars>(
    a_shape: &[usize],
    b_shape: &[usize],
    gy: &Tensor<S>,
) -> (r: Result<Vec<Tensor<S>>, Error>)
    ensures
        add_parts::<S>(a_shape@, b_shape@, gy@, parts_outcome(r)),
{
    proof {
        reveal(add_parts);
    }
    let ga: Tensor<S> = match unbroadcast(gy, a_shape) {
        Ok(t) => t,
        Err(e) => {
            return Err(e);
        },
    };
    let gb: Tensor<S> = match unbroadcast(gy, b_shape) {
        Ok(t) => t,
        Err(e) => {
            return Err(e);
        },
    };
    Ok(two_parts(ga, gb))
}

/// The pieces of `a - b`: the cotangent and its negative, brought to either shape.
#[verifier::opaque]
pub open spec fn sub_parts<S: Scalars>(
    a_shape: Seq<usize>,
    b_shape: Seq<usize>,
    gy: Model<S>,
    r: Result<Seq<Model<S>>, Error>,
) -> bool {
    exists|o: Outcome<S>| #[trigger]
        unbroadcast_out::<S>(gy, a_shape, o) && passes(
            o,
            r,
            sub_negative::<S>(b_shape, gy, o->Ok_0, r),
        )
}

/// The rest of it, once `ga` is there.
pub open spec fn sub_negative<S: Scalars>(
    b_shape: Seq<usize>,
    gy: Model<S>,
    ga: Model<S>,
    r: Result<Seq<Model<S>>, Error>,
) -> bool {
    exists|o: Outcome<S>| #[trigger]
        neg_out::<S>(gy, o) && passes(
            o,
            r,
            sub_second::<S>(b_shape, ga, o->Ok_0, r),
        )
}

/// The rest of it, once `minus` is there.
pub open spec fn sub_second<S: Scalars>(
    b_shape: Seq<usize>,
    ga: Model<S>,
    minus: Model<S>,
    r: Result<Seq<Model<S>>, Error>,
) -> bool {
    exists|o: Outcome<S>| #[trigger]
        unbroadcast_out::<S>(minus, b_shape, o) && passes(
            o,
            r,
            gives(r, seq![ga, o->Ok_0]),
        )
}

/// The pieces of `a - b`: the cotangent and its negative, brought to either shape.
pub fn sub_vjp<S: Scalars>(
    a_shape: &[usize],
    b_shape: &[usize],
    gy: &Tensor<S>,
) -> (r: Result<Vec<Tensor<S>>, Error>)
    ensures
        sub_parts::<S>(a_shape@, b_shape@, gy@, parts_outcome(r)),
{
    proof {
        reveal(sub_parts);
    }
    let ga: Tensor<S> = match unbroadcast(gy, a_shape) {
        Ok(t) => t,
        Err(e) => {
            return Err(e);
        },
    };
    let minus: Tensor<S> = match neg(gy) {
        Ok(t) => t,
        Err(e) => {
            return Err(e);
        },
    };
    let gb: Tensor<S> = match unbroadcast(&minus, b_shape) {
        Ok(t) => t,
        Err(e) => {
            return Err(e);
        },
    };
    Ok(two_parts(ga, gb))
}

/// The pieces of `a * b`: the cotangent times the other operand, brought to either shape.
#[verifier::opaque]
pub open spec fn mul_parts<S: Scalars>(
    a: Model<S>,
    b: Model<S>,
    gy: Model<S>,
    r: Result<Seq<Model<S>>, Error>,
) -> bool {
    exists|o: Outcome<S>| #[trigger]
        mul_out::<S>(gy, b, o) && passes(
            o,
            r,
            mul_first::<S>(a, b, gy, o->Ok_0, r),
        )
}

/// The rest of it, once `pa` is there.
pub open spec fn mul_first<S: Scalars>(
    a: Model<S>,
    b: Model<S>,
    gy: Model<S>,
    pa: Model<S>,
    r: Result<Seq<Model<S>>, Error>,
) -> bool {
    exists|o: Outcome<S>| #[trigger]
        unbroadcast_out::<S>(pa, a.shape, o) && passes(
            o,
            r,
            mul_other::<S>(a, b, gy, o->Ok_0, r),
        )
}

/// The rest of it, once `ga` is there.
pub open spec fn mul_other<S: Scalars>(
    a: Model<S>,
    b: Model<S>,
    gy: Model<S>,
    ga: Model<S>,
    r: Result<Seq<Model<S>>, Error>,
) -> bool {
    exists|o: Outcome<S>| #[trigger]
        mul_out::<S>(gy, a, o) && passes(
            o,
            r,
            mul_second::<S>(b, ga, o->Ok_0, r),
        )
}

/// The rest of it, once `pb` is there.
pub open spec fn mul_second<S: Scalars>(
    b: Model<S>,
    ga: Model<S>,
    pb: Model<S>,
    r: Result<Seq<Model<S>>, Error>,
) -> bool {
    exists|o: Outcome<S>| #[trigger]
        unbroadcast_out::<S>(pb, b.shape, o) && passes(
            o,
            r,
            gives(r, seq![ga, o->Ok_0]),
        )
}

/// The pieces of `a * b`: the cotangent times the other operand, brought to either shape.
pub fn mul_vjp<S: Scalars>(
    a: &Tensor<S>,
    b: &Tensor<S>,
    gy: &Tensor<S>,
) -> (r: Result<Vec<Tensor<S>>, Error>)
    ensures
        mul_parts::<S>(a@, b@, gy@, parts_outcome(r)),
{
    proof {
        reveal(mul_parts);
    }
    let pa: Tensor<S> = match crate::cpu::mul(gy, b) {
        Ok(t) => t,
        Err(e) => {
            return Err(e);
        },
    };
    let ga: Tensor<S> = match unbroadcast(&pa, a.shape()) {
        Ok(t) => t,
        Err(e) => {
            return Err(e);
        },
    };
    let pb: Tensor<S> = match crate::cpu::mul(gy, a) {
        Ok(t) => t,
        Err(e) => {
            return Err(e);
        },
    };
    let gb: Tensor<S> = match unbroadcast(&pb, b.shape()) {
        Ok(t) => t,
        Err(e) => {
            return Err(e);
        },
    };
    Ok(two_parts(ga, gb))
}

/// The pieces of an operation on two tensors, from the local derivatives.
#[verifier::opaque]
pub open spec fn pair_parts<S: Scalars>(
    da: Model<S>,
    db: Model<S>,
    a_shape: Seq<usize>,
    b_shape: Seq<usize>,
    gy: Model<S>,
    r: Result<Seq<Model<S>>, Error>,
) -> bool {
    exists|o: Outcome<S>| #[trigger]
        mul_out::<S>(gy, da, o) && passes(
            o,
            r,
            pair_first::<S>(db, a_shape, b_shape, gy, o->Ok_0, r),
        )
}

/// The rest of it, once `pa` is there.
pub open spec fn pair_first<S: Scalars>(
    db: Model<S>,
    a_shape: Seq<usize>,
    b_shape: Seq<usize>,
    gy: Model<S>,
    pa: Model<S>,
    r: Result<Seq<Model<S>>, Error>,
) -> bool {
    exists|o: Outcome<S>| #[trigger]
        unbroadcast_out::<S>(pa, a_shape, o) && passes(
            o,
            r,
            pair_other::<S>(db, b_shape, gy, o->Ok_0, r),
        )
}

/// The rest of it, once `ga` is there.
pub open spec fn pair_other<S: Scalars>(
    db: Model<S>,
    b_shape: Seq<usize>,
    gy: Model<S>,
    ga: Model<S>,
    r: Result<Seq<Model<S>>, Error>,
) -> bool {
    exists|o: Outcome<S>| #[trigger]
        mul_out::<S>(gy, db, o) && passes(
            o,
            r,
            pair_second::<S>(b_shape, ga, o->Ok_0, r),
        )
}

/// The rest of it, once `pb` is there.
pub open spec fn pair_second<S: Scalars>(
    b_shape: Seq<usize>,
    ga: Model<S>,
    pb: Model<S>,
    r: Result<Seq<Model<S>>, Error>,
) -> bool {
    exists|o: Outcome<S>| #[trigger]
        unbroadcast_out::<S>(pb, b_shape, o) && passes(
            o,
            r,
            gives(r, seq![ga, o->Ok_0]),
        )
}

/// The pieces of an operation on two tensors, from the local derivatives.
pub fn pair_vjp<S: Scalars>(
    da: &Tensor<S>,
    db: &Tensor<S>,
    a_shape: &[usize],
    b_shape: &[usize],
    gy: &Tensor<S>,
) -> (r: Result<Vec<Tensor<S>>, Error>)
    ensures
        pair_parts::<S>(da@, db@, a_shape@, b_shape@, gy@, parts_outcome(r)),
{
    proof {
        reveal(pair_parts);
    }
    let pa: Tensor<S> = match crate::cpu::mul(gy, da) {
        Ok(t) => t,
        Err(e) => {
            return Err(e);
        },
    };
    let ga: Tensor<S> = match unbroadcast(&pa, a_shape) {
        Ok(t) => t,
        Err(e) => {
            return Err(e);
        },
    };
    let pb: Tensor<S> = match crate::cpu::mul(gy, db) {
        Ok(t) => t,
        Err(e) => {
            return Err(e);
        },
    };
    let gb: Tensor<S> = match unbroadcast(&pb, b_shape) {
        Ok(t) => t,
        Err(e) => {
            return Err(e);
        },
    };
    Ok(two_parts(ga, gb))
}

/// The pieces of `a @ b`: `gy @ b^T` and `a^T @ gy`, brought to either shape.
#[verifier::opaque]
pub open spec fn matmul_parts<S: Scalars>(
    a: Model<S>,
    b: Model<S>,
    gy: Model<S>,
    r: Result<Seq<Model<S>>, Error>,
) -> bool {
    exists|o: Outcome<S>| #[trigger]
        transpose_out::<S>(b, o) && passes(
            o,
            r,
            matmul_left::<S>(a, b, gy, o->Ok_0, r),
        )
}

/// The rest of it, once `bt` is there.
pub open spec fn matmul_left<S: Scalars>(
    a: Model<S>,
    b: Model<S>,
    gy: Model<S>,
    bt: Model<S>,
    r: Result<Seq<Model<S>>, Error>,
) -> bool {
    exists|o: Outcome<S>| #[trigger]
        matmul_out::<S>(gy, bt, o) && passes(
            o,
            r,
            matmul_turned::<S>(a, b, gy, o->Ok_0, r),
        )
}

/// The rest of it, once `pa` is there.
pub open spec fn matmul_turned<S: Scalars>(
    a: Model<S>,
    b: Model<S>,
    gy: Model<S>,
    pa: Model<S>,
    r: Result<Seq<Model<S>>, Error>,
) -> bool {
    exists|o: Outcome<S>| #[trigger]
        transpose_out::<S>(a, o) && passes(
            o,
            r,
            matmul_right::<S>(a, b, gy, pa, o->Ok_0, r),
        )
}

/// The rest of it, once `at` is there.
pub open spec fn matmul_right<S: Scalars>(
    a: Model<S>,
    b: Model<S>,
    gy: Model<S>,
    pa: Model<S>,
    at: Model<S>,
    r: Result<Seq<Model<S>>, Error>,
) -> bool {
    exists|o: Outcome<S>| #[trigger]
        matmul_out::<S>(at, gy, o) && passes(
            o,
            r,
            matmul_first::<S>(a, b, pa, o->Ok_0, r),
        )
}

/// The rest of it, once `pb` is there.
pub open spec fn matmul_first<S: Scalars>(
    a: Model<S>,
    b: Model<S>,
    pa: Model<S>,
    pb: Model<S>,
    r: Result<Seq<Model<S>>, Error>,
) -> bool {
    exists|o: Outcome<S>| #[trigger]
        unbroadcast_out::<S>(pa, a.shape, o) && passes(
            o,
            r,
            matmul_second::<S>(b, pb, o->Ok_0, r),
        )
}

/// The rest of it, once `ga` is there.
pub open spec fn matmul_second<S: Scalars>(
    b: Model<S>,
    pb: Model<S>,
    ga: Model<S>,
    r: Result<Seq<Model<S>>, Error>,
) -> bool {
    exists|o: Outcome<S>| #[trigger]
        unbroadcast_out::<S>(pb, b.shape, o) && passes(
            o,
            r,
            gives(r, seq![ga, o->Ok_0]),
        )
}

/// The pieces of `a @ b`: `gy @ b^T` and `a^T @ gy`, brought to either shape.
pub fn matmul_vjp<S: Scalars>(
    a: &Tensor<S>,
    b: &Tensor<S>,
    gy: &Tensor<S>,
) -> (r: Result<Vec<Tensor<S>>, Error>)
    ensures
        matmul_parts::<S>(a@, b@, gy@, parts_outcome(r)),
{
    let asked: Products<S> = slope_products(a, b, gy);
    let ghost of_left = asked_view(asked.of_left);
    let ghost of_right = asked_view(asked.of_right);
    let pa: Result<Tensor<S>, Error> = answer_here(asked.of_left);
    let pb: Result<Tensor<S>, Error> = answer_here(asked.of_right);
    let ghost left = outcome(pa);
    let ghost right = outcome(pb);
    let r: Result<Vec<Tensor<S>>, Error> = finish_slopes(a, b, pa, pb);
    proof {
        law_products_make_slopes::<S>(
            a@,
            b@,
            gy@,
            of_left,
            of_right,
            left,
            right,
            parts_outcome(r),
        );
    }
    r
}

/// The piece of `tanh`, from its value: `gy * (1 - y^2)`.
#[verifier::opaque]
pub open spec fn tanh_parts<S: Scalars>(
    y: Model<S>,
    gy: Model<S>,
    r: Result<Seq<Model<S>>, Error>,
) -> bool {
    exists|o: Outcome<S>| #[trigger]
        square_out::<S>(y, o) && passes(
            o,
            r,
            tanh_ones::<S>(y, gy, o->Ok_0, r),
        )
}

/// The rest of it, once `y2` is there.
pub open spec fn tanh_ones<S: Scalars>(
    y: Model<S>,
    gy: Model<S>,
    y2: Model<S>,
    r: Result<Seq<Model<S>>, Error>,
) -> bool {
    exists|o: Outcome<S>| #[trigger]
        ones_out::<S>(y.shape, y.dtype(), o) && passes(
            o,
            r,
            tanh_factor::<S>(gy, y2, o->Ok_0, r),
        )
}

/// The rest of it, once `ones` is there.
pub open spec fn tanh_factor<S: Scalars>(
    gy: Model<S>,
    y2: Model<S>,
    ones: Model<S>,
    r: Result<Seq<Model<S>>, Error>,
) -> bool {
    exists|o: Outcome<S>| #[trigger]
        sub_out::<S>(ones, y2, o) && passes(
            o,
            r,
            tanh_product::<S>(gy, o->Ok_0, r),
        )
}

/// The rest of it, once `factor` is there.
pub open spec fn tanh_product<S: Scalars>(
    gy: Model<S>,
    factor: Model<S>,
    r: Result<Seq<Model<S>>, Error>,
) -> bool {
    exists|o: Outcome<S>| #[trigger]
        mul_out::<S>(gy, factor, o) && passes(
            o,
            r,
            gives(r, seq![o->Ok_0]),
        )
}

/// The piece of `tanh`, from its value: `gy * (1 - y^2)`.
pub fn tanh_vjp<S: Scalars>(
    y: &Tensor<S>,
    gy: &Tensor<S>,
) -> (r: Result<Vec<Tensor<S>>, Error>)
    ensures
        tanh_parts::<S>(y@, gy@, parts_outcome(r)),
{
    proof {
        reveal(tanh_parts);
    }
    let y2: Tensor<S> = match square(y) {
        Ok(t) => t,
        Err(e) => {
            return Err(e);
        },
    };
    let ones: Tensor<S> = match Tensor::ones(y.shape(), y.dtype()) {
        Ok(t) => t,
        Err(e) => {
            return Err(e);
        },
    };
    let factor: Tensor<S> = match crate::cpu::sub(&ones, &y2) {
        Ok(t) => t,
        Err(e) => {
            return Err(e);
        },
    };
    let g: Tensor<S> = match crate::cpu::mul(gy, &factor) {
        Ok(t) => t,
        Err(e) => {
            return Err(e);
        },
    };
    Ok(one_part(g))
}

/// The piece of a sum: the cotangent, spread over what was summed.
#[verifier::opaque]
pub open spec fn sum_parts<S: Scalars>(
    shape: Seq<usize>,
    marks: Seq<bool>,
    keep: bool,
    gy: Model<S>,
    r: Result<Seq<Model<S>>, Error>,
) -> bool {
    exists|o: Outcome<S>| #[trigger]
        unsqueeze_reduced_out::<S>("sum"@, gy, shape, marks, keep, o) && passes(
            o,
            r,
            gives(r, seq![o->Ok_0]),
        )
}

/// The piece of a sum: the cotangent, spread over what was summed.
pub fn sum_vjp<S: Scalars>(
    shape: &[usize],
    marks: &[bool],
    keep: bool,
    gy: &Tensor<S>,
) -> (r: Result<Vec<Tensor<S>>, Error>)
    ensures
        sum_parts::<S>(shape@, marks@, keep, gy@, parts_outcome(r)),
{
    proof {
        reveal(sum_parts);
    }
    let g: Tensor<S> = match unsqueeze_reduced("sum", gy, shape, marks, keep) {
        Ok(t) => t,
        Err(e) => {
            return Err(e);
        },
    };
    Ok(one_part(g))
}

/// The piece of a stopped gradient: zeros.
#[verifier::opaque]
pub open spec fn stop_parts<S: Scalars>(
    gy: Model<S>,
    r: Result<Seq<Model<S>>, Error>,
) -> bool {
    exists|o: Outcome<S>| #[trigger]
        zeros_out::<S>(gy.shape, gy.dtype(), o) && passes(
            o,
            r,
            gives(r, seq![o->Ok_0]),
        )
}

/// The piece of a stopped gradient: zeros.
pub fn stop_vjp<S: Scalars>(
    gy: &Tensor<S>,
) -> (r: Result<Vec<Tensor<S>>, Error>)
    ensures
        stop_parts::<S>(gy@, parts_outcome(r)),
{
    proof {
        reveal(stop_parts);
    }
    let g: Tensor<S> = match Tensor::zeros(gy.shape(), gy.dtype()) {
        Ok(t) => t,
        Err(e) => {
            return Err(e);
        },
    };
    Ok(one_part(g))
}

/// The piece of an elementwise operation, from its local derivative: their product.
#[verifier::opaque]
pub open spec fn local_parts<S: Scalars>(
    gx: Model<S>,
    gy: Model<S>,
    r: Result<Seq<Model<S>>, Error>,
) -> bool {
    exists|o: Outcome<S>| #[trigger]
        mul_out::<S>(gy, gx, o) && passes(
            o,
            r,
            gives(r, seq![o->Ok_0]),
        )
}

/// The piece of an elementwise operation, from its local derivative: their product.
pub fn local_vjp<S: Scalars>(
    gx: &Tensor<S>,
    gy: &Tensor<S>,
) -> (r: Result<Vec<Tensor<S>>, Error>)
    ensures
        local_parts::<S>(gx@, gy@, parts_outcome(r)),
{
    proof {
        reveal(local_parts);
    }
    let g: Tensor<S> = match crate::cpu::mul(gy, gx) {
        Ok(t) => t,
        Err(e) => {
            return Err(e);
        },
    };
    Ok(one_part(g))
}

/// The piece of `unsqueeze`: the axis goes.
#[verifier::opaque]
pub open spec fn unsqueeze_parts<S: Scalars>(
    axis: isize,
    gy: Model<S>,
    r: Result<Seq<Model<S>>, Error>,
) -> bool {
    exists|o: Outcome<S>| #[trigger]
        squeeze_out::<S>(gy, Some(axis), o) && passes(
            o,
            r,
            gives(r, seq![o->Ok_0]),
        )
}

/// The piece of `unsqueeze`: the axis goes.
pub fn unsqueeze_vjp<S: Scalars>(
    axis: isize,
    gy: &Tensor<S>,
) -> (r: Result<Vec<Tensor<S>>, Error>)
    ensures
        unsqueeze_parts::<S>(axis, gy@, parts_outcome(r)),
{
    proof {
        reveal(unsqueeze_parts);
    }
    let g: Tensor<S> = match gy.squeeze(Some(axis)) {
        Ok(t) => t,
        Err(e) => {
            return Err(e);
        },
    };
    Ok(one_part(g))
}

/// The piece of `gather`: the cotangent, added where its entries were taken.
#[verifier::opaque]
pub open spec fn gather_parts<S: Scalars>(
    axis: isize,
    index: Model<S>,
    shape: Seq<usize>,
    gy: Model<S>,
    r: Result<Seq<Model<S>>, Error>,
) -> bool {
    exists|o: Outcome<S>| #[trigger]
        zeros_out::<S>(shape, gy.dtype(), o) && passes(
            o,
            r,
            gather_added::<S>(axis, index, gy, o->Ok_0, r),
        )
}

/// The rest of it, once `z` is there.
pub open spec fn gather_added<S: Scalars>(
    axis: isize,
    index: Model<S>,
    gy: Model<S>,
    z: Model<S>,
    r: Result<Seq<Model<S>>, Error>,
) -> bool {
    exists|o: Outcome<S>| #[trigger]
        scatter_out::<S>("gather"@, z, axis as int, index, gy, o) && passes(
            o,
            r,
            gives(r, seq![o->Ok_0]),
        )
}

/// The piece of `gather`: the cotangent, added where its entries were taken.
pub fn gather_vjp<S: Scalars>(
    axis: isize,
    index: &Tensor<S>,
    shape: &[usize],
    gy: &Tensor<S>,
) -> (r: Result<Vec<Tensor<S>>, Error>)
    ensures
        gather_parts::<S>(axis, index@, shape@, gy@, parts_outcome(r)),
{
    proof {
        reveal(gather_parts);
    }
    let z: Tensor<S> = match Tensor::zeros(shape, gy.dtype()) {
        Ok(t) => t,
        Err(e) => {
            return Err(e);
        },
    };
    let g: Tensor<S> = match scatter("gather", &z, axis, index, gy) {
        Ok(t) => t,
        Err(e) => {
            return Err(e);
        },
    };
    Ok(one_part(g))
}

/// The piece of `take`: the cotangent, added where its entries were taken.
#[verifier::opaque]
pub open spec fn take_parts<S: Scalars>(
    index: Model<S>,
    shape: Seq<usize>,
    gy: Model<S>,
    r: Result<Seq<Model<S>>, Error>,
) -> bool {
    exists|o: Outcome<S>| #[trigger]
        zeros_out::<S>(shape, gy.dtype(), o) && passes(
            o,
            r,
            take_column::<S>(index, gy, o->Ok_0, r),
        )
}

/// The rest of it, once `z` is there.
pub open spec fn take_column<S: Scalars>(
    index: Model<S>,
    gy: Model<S>,
    z: Model<S>,
    r: Result<Seq<Model<S>>, Error>,
) -> bool {
    exists|o: Outcome<S>| #[trigger]
        unsqueeze_out::<S>(gy, 1, o) && passes(
            o,
            r,
            take_index::<S>(index, z, o->Ok_0, r),
        )
}

/// The rest of it, once `src` is there.
pub open spec fn take_index<S: Scalars>(
    index: Model<S>,
    z: Model<S>,
    src: Model<S>,
    r: Result<Seq<Model<S>>, Error>,
) -> bool {
    exists|o: Outcome<S>| #[trigger]
        unsqueeze_out::<S>(index, 1, o) && passes(
            o,
            r,
            take_added::<S>(z, src, o->Ok_0, r),
        )
}

/// The rest of it, once `idx` is there.
pub open spec fn take_added<S: Scalars>(
    z: Model<S>,
    src: Model<S>,
    idx: Model<S>,
    r: Result<Seq<Model<S>>, Error>,
) -> bool {
    exists|o: Outcome<S>| #[trigger]
        scatter_out::<S>("take"@, z, 1, idx, src, o) && passes(
            o,
            r,
            gives(r, seq![o->Ok_0]),
        )
}

/// The piece of `take`: the cotangent, added where its entries were taken.
pub fn take_vjp<S: Scalars>(
    index: &Tensor<S>,
    shape: &[usize],
    gy: &Tensor<S>,
) -> (r: Result<Vec<Tensor<S>>, Error>)
    ensures
        take_parts::<S>(index@, shape@, gy@, parts_outcome(r)),
{
    proof {
        reveal(take_parts);
    }
    let z: Tensor<S> = match Tensor::zeros(shape, gy.dtype()) {
        Ok(t) => t,
        Err(e) => {
            return Err(e);
        },
    };
    let src: Tensor<S> = match gy.unsqueeze(1) {
        Ok(t) => t,
        Err(e) => {
            return Err(e);
        },
    };
    let idx: Tensor<S> = match index.unsqueeze(1) {
        Ok(t) => t,
        Err(e) => {
            return Err(e);
        },
    };
    let g: Tensor<S> = match scatter("take", &z, 1, &idx, &src) {
        Ok(t) => t,
        Err(e) => {
            return Err(e);
        },
    };
    Ok(one_part(g))
}

/// The piece of `transpose`: the cotangent, turned back.
#[verifier::opaque]
pub open spec fn transpose_parts<S: Scalars>(
    gy: Model<S>,
    r: Result<Seq<Model<S>>, Error>,
) -> bool {
    exists|o: Outcome<S>| #[trigger]
        transpose_out::<S>(gy, o) && passes(
            o,
            r,
            gives(r, seq![o->Ok_0]),
        )
}

/// The piece of `transpose`: the cotangent, turned back.
pub fn transpose_vjp<S: Scalars>(
    gy: &Tensor<S>,
) -> (r: Result<Vec<Tensor<S>>, Error>)
    ensures
        transpose_parts::<S>(gy@, parts_outcome(r)),
{
    proof {
        reveal(transpose_parts);
    }
    let g: Tensor<S> = match gy.transpose() {
        Ok(t) => t,
        Err(e) => {
            return Err(e);
        },
    };
    Ok(one_part(g))
}

/// The piece of `reshape`: the cotangent, in the former shape.
#[verifier::opaque]
pub open spec fn reshape_parts<S: Scalars>(
    former: Seq<isize>,
    gy: Model<S>,
    r: Result<Seq<Model<S>>, Error>,
) -> bool {
    exists|o: Outcome<S>| #[trigger]
        reshape_out::<S>(gy, former, o) && passes(
            o,
            r,
            gives(r, seq![o->Ok_0]),
        )
}

/// The piece of `reshape`: the cotangent, in the former shape.
pub fn reshape_vjp<S: Scalars>(
    former: &[isize],
    gy: &Tensor<S>,
) -> (r: Result<Vec<Tensor<S>>, Error>)
    ensures
        reshape_parts::<S>(former@, gy@, parts_outcome(r)),
{
    proof {
        reveal(reshape_parts);
    }
    let g: Tensor<S> = match gy.reshape(former) {
        Ok(t) => t,
        Err(e) => {
            return Err(e);
        },
    };
    Ok(one_part(g))
}

/// The pieces of a gated scan.
#[verifier::opaque]
pub open spec fn scan_parts<S: Scalars>(
    a: Model<S>,
    h: Model<S>,
    gy: Model<S>,
    r: Result<Seq<Model<S>>, Error>,
) -> bool {
    exists|o: Result<(Model<S>, Model<S>), Error>| #[trigger]
        scan_back_out::<S>("gated_scan"@, a, h, gy, o) && passes(
            o,
            r,
            gives(r, seq![o->Ok_0.0, o->Ok_0.1]),
        )
}

/// The pieces of a gated scan.
pub fn scan_vjp<S: Scalars>(
    a: &Tensor<S>,
    h: &Tensor<S>,
    gy: &Tensor<S>,
) -> (r: Result<Vec<Tensor<S>>, Error>)
    ensures
        scan_parts::<S>(a@, h@, gy@, parts_outcome(r)),
{
    proof {
        reveal(scan_parts);
    }
    let (ga, gb): (Tensor<S>, Tensor<S>) = match scan_back("gated_scan", a, h, gy) {
        Ok(t) => t,
        Err(e) => {
            return Err(e);
        },
    };
    Ok(two_parts(ga, gb))
}

/// The piece of an RMS normalization.
#[verifier::opaque]
pub open spec fn rms_parts<S: Scalars>(
    x: Model<S>,
    eps: S::F,
    gy: Model<S>,
    r: Result<Seq<Model<S>>, Error>,
) -> bool {
    exists|o: Outcome<S>| #[trigger]
        rms_back_out::<S>("rms_norm"@, x, gy, eps, o) && passes(
            o,
            r,
            gives(r, seq![o->Ok_0]),
        )
}

/// The piece of an RMS normalization.
pub fn rms_vjp<S: Scalars>(
    x: &Tensor<S>,
    eps: S::F,
    gy: &Tensor<S>,
) -> (r: Result<Vec<Tensor<S>>, Error>)
    ensures
        rms_parts::<S>(x@, eps, gy@, parts_outcome(r)),
{
    proof {
        reveal(rms_parts);
    }
    let g: Tensor<S> = match rms_back("rms_norm", x, gy, eps) {
        Ok(t) => t,
        Err(e) => {
            return Err(e);
        },
    };
    Ok(one_part(g))
}

/// The piece of a fused lookup: the rows of the cotangent, added to the rows that were looked up.
#[verifier::opaque]
pub open spec fn embedding_parts<S: Scalars>(
    table: Model<S>,
    idx: Model<S>,
    gy: Model<S>,
    r: Result<Seq<Model<S>>, Error>,
) -> bool {
    exists|o: Outcome<S>| #[trigger]
        lookup_back_out::<S>("embedding_fused"@, table, idx, gy, o) && passes(
            o,
            r,
            embedding_shaped::<S>(table, o->Ok_0, r),
        )
}

/// The rest of it, once `gt` is there.
pub open spec fn embedding_shaped<S: Scalars>(
    table: Model<S>,
    gt: Model<S>,
    r: Result<Seq<Model<S>>, Error>,
) -> bool {
    exists|o: Outcome<S>| #[trigger]
        unbroadcast_out::<S>(gt, table.shape, o) && passes(
            o,
            r,
            gives(r, seq![o->Ok_0]),
        )
}

/// The piece of a fused lookup: the rows of the cotangent, added to the rows that were looked up.
pub fn embedding_vjp<S: Scalars>(
    table: &Tensor<S>,
    idx: &Tensor<S>,
    gy: &Tensor<S>,
) -> (r: Result<Vec<Tensor<S>>, Error>)
    ensures
        embedding_parts::<S>(table@, idx@, gy@, parts_outcome(r)),
{
    proof {
        reveal(embedding_parts);
    }
    let gt: Tensor<S> = match lookup_back("embedding_fused", table, idx, gy) {
        Ok(t) => t,
        Err(e) => {
            return Err(e);
        },
    };
    let g: Tensor<S> = match unbroadcast(&gt, table.shape()) {
        Ok(t) => t,
        Err(e) => {
            return Err(e);
        },
    };
    Ok(one_part(g))
}

/// One axis, as the argument of a reduction.
pub open spec fn axis_alone(axis: usize) -> Option<Seq<isize>> {
    Some(seq![axis as isize])
}

/// Sums over one axis, which stays.
pub fn sum_kept<S: Scalars>(x: &Tensor<S>, axis: usize) -> (r: Result<Tensor<S>, Error>)
    ensures
        sum_out::<S>(x@, axis_alone(axis), true, outcome(r)),
{
    let mut axes: Vec<isize> = Vec::new();
    axes.push(axis as isize);
    let asked: Option<&[isize]> = Some(axes.as_slice());
    assert(axes@ =~= seq![axis as isize]);
    assert(seen(asked) == axis_alone(axis));
    sum(x, asked, true)
}

/// The piece of a softmax, from its value: `y * (gy - sum(gy * y))`.
#[verifier::opaque]
pub open spec fn softmax_parts<S: Scalars>(
    y: Model<S>,
    axis: usize,
    gy: Model<S>,
    r: Result<Seq<Model<S>>, Error>,
) -> bool {
    exists|o: Outcome<S>| #[trigger]
        mul_out::<S>(gy, y, o) && passes(
            o,
            r,
            softmax_sum::<S>(y, axis, gy, o->Ok_0, r),
        )
}

/// The rest of it, once `dot` is there.
pub open spec fn softmax_sum<S: Scalars>(
    y: Model<S>,
    axis: usize,
    gy: Model<S>,
    dot: Model<S>,
    r: Result<Seq<Model<S>>, Error>,
) -> bool {
    exists|o: Outcome<S>| #[trigger]
        sum_out::<S>(dot, axis_alone(axis), true, o) && passes(
            o,
            r,
            softmax_centered::<S>(y, gy, o->Ok_0, r),
        )
}

/// The rest of it, once `s` is there.
pub open spec fn softmax_centered<S: Scalars>(
    y: Model<S>,
    gy: Model<S>,
    s: Model<S>,
    r: Result<Seq<Model<S>>, Error>,
) -> bool {
    exists|o: Outcome<S>| #[trigger]
        sub_out::<S>(gy, s, o) && passes(
            o,
            r,
            softmax_product::<S>(y, o->Ok_0, r),
        )
}

/// The rest of it, once `centered` is there.
pub open spec fn softmax_product<S: Scalars>(
    y: Model<S>,
    centered: Model<S>,
    r: Result<Seq<Model<S>>, Error>,
) -> bool {
    exists|o: Outcome<S>| #[trigger]
        mul_out::<S>(y, centered, o) && passes(
            o,
            r,
            gives(r, seq![o->Ok_0]),
        )
}

/// The piece of a softmax, from its value: `y * (gy - sum(gy * y))`.
pub fn softmax_vjp<S: Scalars>(
    y: &Tensor<S>,
    axis: usize,
    gy: &Tensor<S>,
) -> (r: Result<Vec<Tensor<S>>, Error>)
    ensures
        softmax_parts::<S>(y@, axis, gy@, parts_outcome(r)),
{
    proof {
        reveal(softmax_parts);
    }
    let dot: Tensor<S> = match crate::cpu::mul(gy, y) {
        Ok(t) => t,
        Err(e) => {
            return Err(e);
        },
    };
    let s: Tensor<S> = match sum_kept(&dot, axis) {
        Ok(t) => t,
        Err(e) => {
            return Err(e);
        },
    };
    let centered: Tensor<S> = match crate::cpu::sub(gy, &s) {
        Ok(t) => t,
        Err(e) => {
            return Err(e);
        },
    };
    let g: Tensor<S> = match crate::cpu::mul(y, &centered) {
        Ok(t) => t,
        Err(e) => {
            return Err(e);
        },
    };
    Ok(one_part(g))
}

/// The piece of a log-softmax, from its value: `gy - exp(y) * sum(gy)`.
#[verifier::opaque]
pub open spec fn log_softmax_parts<S: Scalars>(
    y: Model<S>,
    axis: usize,
    gy: Model<S>,
    r: Result<Seq<Model<S>>, Error>,
) -> bool {
    exists|o: Outcome<S>| #[trigger]
        exp_out::<S>(y, o) && passes(
            o,
            r,
            log_softmax_sum::<S>(axis, gy, o->Ok_0, r),
        )
}

/// The rest of it, once `s` is there.
pub open spec fn log_softmax_sum<S: Scalars>(
    axis: usize,
    gy: Model<S>,
    s: Model<S>,
    r: Result<Seq<Model<S>>, Error>,
) -> bool {
    exists|o: Outcome<S>| #[trigger]
        sum_out::<S>(gy, axis_alone(axis), true, o) && passes(
            o,
            r,
            log_softmax_product::<S>(gy, s, o->Ok_0, r),
        )
}

/// The rest of it, once `total` is there.
pub open spec fn log_softmax_product<S: Scalars>(
    gy: Model<S>,
    s: Model<S>,
    total: Model<S>,
    r: Result<Seq<Model<S>>, Error>,
) -> bool {
    exists|o: Outcome<S>| #[trigger]
        mul_out::<S>(s, total, o) && passes(
            o,
            r,
            log_softmax_rest::<S>(gy, o->Ok_0, r),
        )
}

/// The rest of it, once `corr` is there.
pub open spec fn log_softmax_rest<S: Scalars>(
    gy: Model<S>,
    corr: Model<S>,
    r: Result<Seq<Model<S>>, Error>,
) -> bool {
    exists|o: Outcome<S>| #[trigger]
        sub_out::<S>(gy, corr, o) && passes(
            o,
            r,
            gives(r, seq![o->Ok_0]),
        )
}

/// The piece of a log-softmax, from its value: `gy - exp(y) * sum(gy)`.
pub fn log_softmax_vjp<S: Scalars>(
    y: &Tensor<S>,
    axis: usize,
    gy: &Tensor<S>,
) -> (r: Result<Vec<Tensor<S>>, Error>)
    ensures
        log_softmax_parts::<S>(y@, axis, gy@, parts_outcome(r)),
{
    proof {
        reveal(log_softmax_parts);
    }
    let s: Tensor<S> = match exp(y) {
        Ok(t) => t,
        Err(e) => {
            return Err(e);
        },
    };
    let total: Tensor<S> = match sum_kept(gy, axis) {
        Ok(t) => t,
        Err(e) => {
            return Err(e);
        },
    };
    let corr: Tensor<S> = match crate::cpu::mul(&s, &total) {
        Ok(t) => t,
        Err(e) => {
            return Err(e);
        },
    };
    let g: Tensor<S> = match crate::cpu::sub(gy, &corr) {
        Ok(t) => t,
        Err(e) => {
            return Err(e);
        },
    };
    Ok(one_part(g))
}

/// What a new tensor of 32-bit data comes to.
pub open spec fn from_f32s_out<S: Scalars>(v: Seq<S::F>, shape: Seq<usize>, r: Outcome<S>) -> bool {
    match r {
        Ok(t) => {
            &&& fits(shape) && v.len() == volume(shape)
            &&& t.plain(shape) && t.data == Data::<S::F, S::D>::F32(v)
            &&& t.valid() && t.elems() == t.data
        },
        Err(e) => slice_error(e, v.len(), shape),
    }
}

/// What a new tensor of 64-bit data comes to.
pub open spec fn from_f64s_out<S: Scalars>(v: Seq<S::D>, shape: Seq<usize>, r: Outcome<S>) -> bool {
    match r {
        Ok(t) => {
            &&& fits(shape) && v.len() == volume(shape)
            &&& t.plain(shape) && t.data == Data::<S::F, S::D>::F64(v)
            &&& t.valid() && t.elems() == t.data
        },
        Err(e) => slice_error(e, v.len(), shape),
    }
}

/// `y` is `g` where `x` is above zero, and zero elsewhere.
pub open spec fn gated_of<T, A: Arith<T>>(x: T, g: T, y: T) -> bool {
    exists|z: T, up: bool| #[trigger]
        is_zero::<T, A>(z) && #[trigger] call_ensures(A::above, (x, z), up) && y == if up {
            g
        } else {
            z
        }
}

/// The cotangents `gs` pass where `xs` is above zero, as far as both go.
pub open spec fn gates_all<T, A: Arith<T>>(xs: Seq<T>, gs: Seq<T>, v: Seq<T>) -> bool {
    &&& v.len() == if xs.len() <= gs.len() {
        xs.len()
    } else {
        gs.len()
    }
    &&& forall|i: int| 0 <= i < v.len() ==> gated_of::<T, A>(xs[i], gs[i], #[trigger] v[i])
}

fn gate_all<T: Copy, A: Arith<T>>(xs: &[T], gs: &[T]) -> (v: Vec<T>)
    ensures
        gates_all::<T, A>(xs@, gs@, v@),
{
    let n: usize = if xs.len() <= gs.len() {
        xs.len()
    } else {
        gs.len()
    };
    let mut v: Vec<T> = Vec::new();
    let mut i: usize = 0;
    while i < n
        invariant
            i <= n <= xs@.len(),
            n <= gs@.len(),
            v@.len() == i,
            forall|j: int| 0 <= j < i ==> gated_of::<T, A>(xs@[j], gs@[j], #[trigger] v@[j]),
        decreases n - i,
    {
        let z: T = A::zero();
        assert(is_zero::<T, A>(z));
        let up: bool = A::above(xs[i], z);
        let y: T = if up {
            gs[i]
        } else {
            z
        };
        assert(gated_of::<T, A>(xs@[i as int], gs@[i as int], y));
        v.push(y);
        i = i + 1;
    }
    v
}

/// What the cotangent of ReLU's argument comes to. The derivative at zero is zero.
pub open spec fn relu_back_out<S: Scalars>(x: Model<S>, gy: Model<S>, r: Outcome<S>) -> bool {
    match x.dtype() {
        Dtype::F32 => if gy.dtype() != Dtype::F32 {
            r is Err && r->Err_0.says(ErrorKind::Dtype, "to_vec"@, "expected f32"@)
        } else {
            exists|v: Seq<S::F>| #[trigger]
                gates_all::<S::F, S>(x.f32s(), gy.f32s(), v) && from_f32s_out::<S>(v, x.shape, r)
        },
        Dtype::F64 => if gy.dtype() != Dtype::F64 {
            r is Err && r->Err_0.says(ErrorKind::Dtype, "to_vec"@, "expected f64"@)
        } else {
            exists|v: Seq<S::D>| #[trigger]
                gates_all::<S::D, S>(x.f64s(), gy.f64s(), v) && from_f64s_out::<S>(v, x.shape, r)
        },
        Dtype::I64 => r is Err && r->Err_0.says(ErrorKind::Dtype, "relu"@, "float"@),
    }
}

fn relu_back<S: Scalars>(x: &Tensor<S>, gy: &Tensor<S>) -> (r: Result<Tensor<S>, Error>)
    ensures
        relu_back_out::<S>(x@, gy@, outcome(r)),
{
    match x.dtype() {
        Dtype::F32 => {
            let xs: Vec<S::F> = match x.to_vec_f32() {
                Ok(v) => v,
                Err(e) => {
                    return Err(e);
                },
            };
            let gs: Vec<S::F> = match gy.to_vec_f32() {
                Ok(v) => v,
                Err(e) => {
                    return Err(e);
                },
            };
            let v: Vec<S::F> = gate_all::<S::F, S>(xs.as_slice(), gs.as_slice());
            let r: Result<Tensor<S>, Error> = Tensor::from_slice_f32(v.as_slice(), x.shape());
            assert(from_f32s_out::<S>(v@, x@.shape, outcome(r)));
            r
        },
        Dtype::F64 => {
            let xs: Vec<S::D> = match x.to_vec_f64() {
                Ok(v) => v,
                Err(e) => {
                    return Err(e);
                },
            };
            let gs: Vec<S::D> = match gy.to_vec_f64() {
                Ok(v) => v,
                Err(e) => {
                    return Err(e);
                },
            };
            let v: Vec<S::D> = gate_all::<S::D, S>(xs.as_slice(), gs.as_slice());
            let r: Result<Tensor<S>, Error> = Tensor::from_slice_f64(v.as_slice(), x.shape());
            assert(from_f64s_out::<S>(v@, x@.shape, outcome(r)));
            r
        },
        Dtype::I64 => Err(Error::dtype("relu", "float".to_owned())),
    }
}

/// The piece of ReLU: the cotangent where the argument is above zero.
#[verifier::opaque]
pub open spec fn relu_parts<S: Scalars>(
    x: Model<S>,
    gy: Model<S>,
    r: Result<Seq<Model<S>>, Error>,
) -> bool {
    exists|o: Outcome<S>| #[trigger]
        relu_back_out::<S>(x, gy, o) && passes(
            o,
            r,
            gives(r, seq![o->Ok_0]),
        )
}

/// The piece of ReLU: the cotangent where the argument is above zero.
pub fn relu_vjp<S: Scalars>(
    x: &Tensor<S>,
    gy: &Tensor<S>,
) -> (r: Result<Vec<Tensor<S>>, Error>)
    ensures
        relu_parts::<S>(x@, gy@, parts_outcome(r)),
{
    proof {
        reveal(relu_parts);
    }
    let g: Tensor<S> = match relu_back(x, gy) {
        Ok(t) => t,
        Err(e) => {
            return Err(e);
        },
    };
    Ok(one_part(g))
}

/// The piece of a mean over `n` elements: the cotangent over `n`, spread over what was averaged, or
/// zeros where that was nothing.
#[verifier::opaque]
pub open spec fn mean_parts<S: Scalars>(
    shape: Seq<usize>,
    marks: Seq<bool>,
    keep: bool,
    n: S::D,
    gy: Model<S>,
    r: Result<Seq<Model<S>>, Error>,
) -> bool {
    exists|z: S::D, none: bool| #[trigger]
        is_zero::<S::D, S>(z) && #[trigger] call_ensures(<S as Arith<S::D>>::same, (n, z), none)
            && if none {
            mean_zeros::<S>(shape, gy.dtype(), r)
        } else {
            mean_shares::<S>(shape, marks, keep, n, gy, r)
        }
}

/// Zeros.
pub open spec fn mean_zeros<S: Scalars>(
    shape: Seq<usize>,
    dtype: Dtype,
    r: Result<Seq<Model<S>>, Error>,
) -> bool {
    exists|o: Outcome<S>| #[trigger]
        zeros_out::<S>(shape, dtype, o) && passes(o, r, gives(r, seq![o->Ok_0]))
}

/// The cotangent over `n`, spread.
pub open spec fn mean_shares<S: Scalars>(
    shape: Seq<usize>,
    marks: Seq<bool>,
    keep: bool,
    n: S::D,
    gy: Model<S>,
    r: Result<Seq<Model<S>>, Error>,
) -> bool {
    exists|one: S::D, k: S::D| #[trigger]
        is_one::<S::D, S>(one) && #[trigger] is_quotient::<S::D, S>(one, n, k)
            && mean_scaled_parts::<S>(shape, marks, keep, k, gy, r)
}

/// The cotangent times `k`, spread.
#[verifier::opaque]
pub open spec fn mean_scaled_parts<S: Scalars>(
    shape: Seq<usize>,
    marks: Seq<bool>,
    keep: bool,
    k: S::D,
    gy: Model<S>,
    r: Result<Seq<Model<S>>, Error>,
) -> bool {
    exists|o: Outcome<S>| #[trigger]
        mul_scalar_out::<S>(gy, k, o) && passes(
            o,
            r,
            mean_spread::<S>(shape, marks, keep, o->Ok_0, r),
        )
}

/// The rest of it, once `scaled` is there.
pub open spec fn mean_spread<S: Scalars>(
    shape: Seq<usize>,
    marks: Seq<bool>,
    keep: bool,
    scaled: Model<S>,
    r: Result<Seq<Model<S>>, Error>,
) -> bool {
    exists|o: Outcome<S>| #[trigger]
        unsqueeze_reduced_out::<S>("mean"@, scaled, shape, marks, keep, o) && passes(
            o,
            r,
            gives(r, seq![o->Ok_0]),
        )
}

/// The cotangent times `k`, spread.
fn mean_scaled_vjp<S: Scalars>(
    shape: &[usize],
    marks: &[bool],
    keep: bool,
    k: S::D,
    gy: &Tensor<S>,
) -> (r: Result<Vec<Tensor<S>>, Error>)
    ensures
        mean_scaled_parts::<S>(shape@, marks@, keep, k, gy@, parts_outcome(r)),
{
    proof {
        reveal(mean_scaled_parts);
    }
    let scaled: Tensor<S> = match mul_scalar(gy, k) {
        Ok(t) => t,
        Err(e) => {
            return Err(e);
        },
    };
    let g: Tensor<S> = match unsqueeze_reduced("mean", &scaled, shape, marks, keep) {
        Ok(t) => t,
        Err(e) => {
            return Err(e);
        },
    };
    Ok(one_part(g))
}

/// The piece of a mean.
pub fn mean_vjp<S: Scalars>(
    shape: &[usize],
    marks: &[bool],
    keep: bool,
    n: S::D,
    gy: &Tensor<S>,
) -> (r: Result<Vec<Tensor<S>>, Error>)
    ensures
        mean_parts::<S>(shape@, marks@, keep, n, gy@, parts_outcome(r)),
{
    proof {
        reveal(mean_parts);
    }
    let z: S::D = <S as Arith<S::D>>::zero();
    assert(is_zero::<S::D, S>(z));
    if <S as Arith<S::D>>::same(n, z) {
        let r: Result<Vec<Tensor<S>>, Error> = match Tensor::zeros(shape, gy.dtype()) {
            Ok(t) => Ok(one_part(t)),
            Err(e) => Err(e),
        };
        assert(mean_zeros::<S>(shape@, gy@.dtype(), parts_outcome(r)));
        return r;
    }
    let one: S::D = <S as Arith<S::D>>::one();
    assert(is_one::<S::D, S>(one));
    let k: S::D = <S as Arith<S::D>>::over(one, n);
    let r: Result<Vec<Tensor<S>>, Error> = mean_scaled_vjp(shape, marks, keep, k, gy);
    assert(is_quotient::<S::D, S>(one, n, k));
    assert(mean_shares::<S>(shape@, marks@, keep, n, gy@, parts_outcome(r)));
    r
}

/// The piece of a masked loss: its slopes times the cotangent, a single number.
#[verifier::opaque]
pub open spec fn masked_parts<S: Scalars>(
    probs: Model<S>,
    targets: Model<S>,
    mask: Model<S>,
    gy: Model<S>,
    r: Result<Seq<Model<S>>, Error>,
) -> bool {
    if probs.shape.len() < 2 {
        r is Err && misfit(r->Err_0, "masked_ce"@)
    } else {
        exists|o: Outcome<S>| #[trigger]
            crate::loss::masked_ce_backward_out::<S>(probs, targets, mask, o) && passes(
                o,
                r,
                masked_times::<S>(o->Ok_0, gy, r),
            )
    }
}

/// The slopes times the first number of the cotangent.
pub open spec fn masked_times<S: Scalars>(
    g: Model<S>,
    gy: Model<S>,
    r: Result<Seq<Model<S>>, Error>,
) -> bool {
    if gy.dtype() != Dtype::F32 {
        r is Err && r->Err_0.says(ErrorKind::Dtype, "to_vec"@, "expected f32"@)
    } else if gy.f32s().len() == 0 {
        r is Err && misfit(r->Err_0, "masked_ce"@)
    } else {
        exists|c: S::D| #[trigger]
            call_ensures(S::widen, (gy.f32s()[0],), c) && scaled_parts::<S>(g, c, r)
    }
}

/// The piece `g * c`.
#[verifier::opaque]
pub open spec fn scaled_parts<S: Scalars>(
    g: Model<S>,
    c: S::D,
    r: Result<Seq<Model<S>>, Error>,
) -> bool {
    exists|o: Outcome<S>| #[trigger]
        mul_scalar_out::<S>(g, c, o) && passes(
            o,
            r,
            gives(r, seq![o->Ok_0]),
        )
}

/// The piece `g * c`.
fn scaled_vjp<S: Scalars>(
    g: &Tensor<S>,
    c: S::D,
) -> (r: Result<Vec<Tensor<S>>, Error>)
    ensures
        scaled_parts::<S>(g@, c, parts_outcome(r)),
{
    proof {
        reveal(scaled_parts);
    }
    let p: Tensor<S> = match mul_scalar(g, c) {
        Ok(t) => t,
        Err(e) => {
            return Err(e);
        },
    };
    Ok(one_part(p))
}

/// The piece of a masked loss.
pub fn masked_vjp<S: Scalars>(
    probs: &Tensor<S>,
    targets: &Tensor<S>,
    mask: &Tensor<S>,
    gy: &Tensor<S>,
) -> (r: Result<Vec<Tensor<S>>, Error>)
    ensures
        masked_parts::<S>(probs@, targets@, mask@, gy@, parts_outcome(r)),
{
    proof {
        reveal(masked_parts);
    }
    if probs.rank() < 2 {
        return Err(misfit_error("masked_ce"));
    }
    let g: Tensor<S> = match crate::loss::masked_ce_backward(probs, targets, mask) {
        Ok(t) => t,
        Err(e) => {
            return Err(e);
        },
    };
    let gv: Vec<S::F> = match gy.to_vec_f32() {
        Ok(v) => v,
        Err(e) => {
            return Err(e);
        },
    };
    if gv.len() == 0 {
        return Err(misfit_error("masked_ce"));
    }
    let c: S::D = S::widen(gv[0]);
    scaled_vjp(&g, c)
}

/// The cotangents of a block as a list.
pub open spec fn slope_list<S: Scalars>(g: BlockSlopesModel<S>) -> Seq<Model<S>> {
    seq![g.x, g.w.wa, g.w.wb, g.w.wo, g.w.wf1, g.w.wf2, g.w.g1, g.w.g2, g.w.g3, g.w.g4]
}

/// The pieces of a fused block.
#[verifier::opaque]
pub open spec fn block_parts<S: Scalars>(
    aux: AuxModel<S>,
    w: WeightsModel<S>,
    eps: S::F,
    gy: Model<S>,
    r: Result<Seq<Model<S>>, Error>,
) -> bool {
    exists|o: Result<BlockSlopesModel<S>, Error>| #[trigger]
        fused_block_bwd_out::<S>(aux, w, eps, gy, o) && passes(
            o,
            r,
            gives(r, slope_list::<S>(o->Ok_0)),
        )
}

fn listed<S: Scalars>(g: BlockSlopes<S>) -> (r: Vec<Tensor<S>>)
    ensures
        views(r@) == slope_list::<S>(g@),
{
    let ghost m = g@;
    let mut v: Vec<Tensor<S>> = Vec::new();
    v.push(g.x);
    v.push(g.wa);
    v.push(g.wb);
    v.push(g.wo);
    v.push(g.wf1);
    v.push(g.wf2);
    v.push(g.g1);
    v.push(g.g2);
    v.push(g.g3);
    v.push(g.g4);
    assert(views(v@) =~= slope_list::<S>(m));
    v
}

/// The pieces of a fused block.
pub fn block_vjp<S: Scalars>(
    aux: &FusedAux<S>,
    w: &Weights<S>,
    eps: S::F,
    gy: &Tensor<S>,
) -> (r: Result<Vec<Tensor<S>>, Error>)
    ensures
        block_parts::<S>(aux@, w@, eps, gy@, parts_outcome(r)),
{
    proof {
        reveal(block_parts);
    }
    match block_backward(aux, w, eps, gy) {
        Ok(g) => Ok(listed(g)),
        Err(e) => Err(e),
    }
}

} // verus!
