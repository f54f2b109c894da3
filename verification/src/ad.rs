//! Operations that record themselves for differentiation.
//!
//! Each computes its value and, where one of its operands is in the graph, records a node. Where none
//! is, nothing is recorded.
use vstd::prelude::*;
use crate::cpu::{
    add_out, bounds_ready, clamp_out, div_out, leaky_relu_out, mul_out, mul_scalar, mul_scalar_out,
    neg_out, sub_out,
};
use crate::dtype::Dtype;
use crate::elementwise::{lemma_unary_weaken, map_float, unary_error, unary_value};
use crate::error::Error;
use crate::indexing::{gather_out, gather_within, take_out};
use crate::matmul::matmul_out;
use crate::nodes::{attach, kept, produced, recorded, tracked_out, Graph, Node, Rule, RuleModel};
use crate::reduce::{
    asked_axes, axes_error, axes_named, marked, mean_out, named_axes, reduce_axes, seen, sum_out,
};
use crate::rows::rms_norm_out;
use crate::rules::{as_signed, one_part, signed, two_parts};
use crate::scalar::{
    folds, every, is_one, is_product, is_ratio, is_zero, lemma_folds_start, lemma_folds_step,
    Arith, Scalars,
};
use crate::scan::gated_scan_out;
use crate::slopes::{
    gelu_exact_slope, gelu_exact_slope_rel, gelu_with_grad, gelu_with_grad_out, pair_outcome,
};
use crate::tensor::{copied, gives, ones_out, outcome, passes, stops, Model, Outcome, Tensor};
use crate::unary::{
    abs_out, exp_out, gelu_out, log_out, relu_out, sigmoid_out, sign_out, silu_out, softplus_out,
    sqrt_out, tanh_out,
};
use crate::views::{reshape_out, transpose_out, unsqueeze_out};

verus! {

/// Either the error that `o` is ends the operation, with the graph as it is then, or `next` holds.
pub open spec fn goes_on<S: Scalars>(
    o: Outcome<S>,
    mid: Seq<Node<S>>,
    r: Outcome<S>,
    after: Seq<Node<S>>,
    next: bool,
) -> bool {
    (stops(o, r) && after == mid) || (o is Ok && next)
}

/// The value `y` of the named operation on `x`, recorded with the local derivative `o`.
pub open spec fn sloped_out<S: Scalars>(
    before: Seq<Node<S>>,
    after: Seq<Node<S>>,
    name: Seq<char>,
    x: Model<S>,
    y: Model<S>,
    o: Outcome<S>,
    r: Outcome<S>,
) -> bool {
    match o {
        Err(e) => after == before && r == Outcome::<S>::Err(e),
        Ok(gx) => recorded::<S>(before, after, seq![x], RuleModel::Local { name, gx }) && gives(
            r,
            produced::<S>(y, before.len() as int),
        ),
    }
}

fn attach_local<S: Scalars>(
    graph: &mut Graph<S>,
    name: &'static str,
    x: &Tensor<S>,
    y: Tensor<S>,
    gx: Tensor<S>,
) -> (r: Tensor<S>)
    requires
        old(graph).wf(),
        old(graph).owns(x@),
    ensures
        final(graph).wf(),
        final(graph).slots() == old(graph).slots(),
        final(graph).owns(r@),
        sloped_out::<S>(
            old(graph).nodes(),
            final(graph).nodes(),
            name@,
            x@,
            y@,
            Ok(gx@),
            Ok(r@),
        ),
        final(graph).nodes().len() == old(graph).nodes().len() + 1,
{
    let parents: Vec<Tensor<S>> = one_part(x.clone());
    attach(graph, y, parents, Rule::Local { name, gx })
}

/// What `add` comes to.
pub open spec fn add_tracked<S: Scalars>(
    before: Seq<Node<S>>,
    after: Seq<Node<S>>,
    a: Model<S>,
    b: Model<S>,
    r: Outcome<S>,
) -> bool {
    exists|y: Outcome<S>| #[trigger]
        add_out::<S>(a, b, y) && tracked_out::<S>(
            before,
            after,
            a.in_graph || b.in_graph,
            y,
            seq![a, b],
            RuleModel::Add { a_shape: a.shape, b_shape: b.shape },
            r,
        )
}

/// Tracked elementwise `a + b` with broadcasting.
pub fn add<S: Scalars>(
    graph: &mut Graph<S>,
    a: &Tensor<S>,
    b: &Tensor<S>,
) -> (r: Result<Tensor<S>, Error>)
    requires
        old(graph).wf(),
        old(graph).owns(a@),
        old(graph).owns(b@),
    ensures
        kept::<S>(*old(graph), *final(graph), outcome(r)),
        add_tracked::<S>(
            old(graph).nodes(),
            final(graph).nodes(),
            a@,
            b@,
            outcome(r),
        ),
{
    let y: Tensor<S> = match crate::cpu::add(a, b) {
        Ok(t) => t,
        Err(e) => {
            return Err(e);
        },
    };
    if !(a.requires_grad() || b.requires_grad()) {
        return Ok(y);
    }
    let parents: Vec<Tensor<S>> = two_parts(a.clone(), b.clone());
    let rule: Rule<S> = Rule::Add { a_shape: copied(a.shape()), b_shape: copied(b.shape()) };
    Ok(attach(graph, y, parents, rule))
}

/// What `sub` comes to.
pub open spec fn sub_tracked<S: Scalars>(
    before: Seq<Node<S>>,
    after: Seq<Node<S>>,
    a: Model<S>,
    b: Model<S>,
    r: Outcome<S>,
) -> bool {
    exists|y: Outcome<S>| #[trigger]
        sub_out::<S>(a, b, y) && tracked_out::<S>(
            before,
            after,
            a.in_graph || b.in_graph,
            y,
            seq![a, b],
            RuleModel::Sub { a_shape: a.shape, b_shape: b.shape },
            r,
        )
}

/// Tracked elementwise `a - b` with broadcasting.
pub fn sub<S: Scalars>(
    graph: &mut Graph<S>,
    a: &Tensor<S>,
    b: &Tensor<S>,
) -> (r: Result<Tensor<S>, Error>)
    requires
        old(graph).wf(),
        old(graph).owns(a@),
        old(graph).owns(b@),
    ensures
        kept::<S>(*old(graph), *final(graph), outcome(r)),
        sub_tracked::<S>(
            old(graph).nodes(),
            final(graph).nodes(),
            a@,
            b@,
            outcome(r),
        ),
{
    let y: Tensor<S> = match crate::cpu::sub(a, b) {
        Ok(t) => t,
        Err(e) => {
            return Err(e);
        },
    };
    if !(a.requires_grad() || b.requires_grad()) {
        return Ok(y);
    }
    let parents: Vec<Tensor<S>> = two_parts(a.clone(), b.clone());
    let rule: Rule<S> = Rule::Sub { a_shape: copied(a.shape()), b_shape: copied(b.shape()) };
    Ok(attach(graph, y, parents, rule))
}

/// What `mul` comes to.
pub open spec fn mul_tracked<S: Scalars>(
    before: Seq<Node<S>>,
    after: Seq<Node<S>>,
    a: Model<S>,
    b: Model<S>,
    r: Outcome<S>,
) -> bool {
    exists|y: Outcome<S>| #[trigger]
        mul_out::<S>(a, b, y) && tracked_out::<S>(
            before,
            after,
            a.in_graph || b.in_graph,
            y,
            seq![a, b],
            RuleModel::Mul { a: a.detached(), b: b.detached() },
            r,
        )
}

/// Tracked elementwise `a * b` with broadcasting.
pub fn mul<S: Scalars>(
    graph: &mut Graph<S>,
    a: &Tensor<S>,
    b: &Tensor<S>,
) -> (r: Result<Tensor<S>, Error>)
    requires
        old(graph).wf(),
        old(graph).owns(a@),
        old(graph).owns(b@),
    ensures
        kept::<S>(*old(graph), *final(graph), outcome(r)),
        mul_tracked::<S>(
            old(graph).nodes(),
            final(graph).nodes(),
            a@,
            b@,
            outcome(r),
        ),
{
    let y: Tensor<S> = match crate::cpu::mul(a, b) {
        Ok(t) => t,
        Err(e) => {
            return Err(e);
        },
    };
    if !(a.requires_grad() || b.requires_grad()) {
        return Ok(y);
    }
    let parents: Vec<Tensor<S>> = two_parts(a.clone(), b.clone());
    let rule: Rule<S> = Rule::Mul { a: a.detach(), b: b.detach() };
    Ok(attach(graph, y, parents, rule))
}

/// What `matmul` comes to.
pub open spec fn matmul_tracked<S: Scalars>(
    before: Seq<Node<S>>,
    after: Seq<Node<S>>,
    a: Model<S>,
    b: Model<S>,
    r: Outcome<S>,
) -> bool {
    exists|y: Outcome<S>| #[trigger]
        matmul_out::<S>(a, b, y) && tracked_out::<S>(
            before,
            after,
            a.in_graph || b.in_graph,
            y,
            seq![a, b],
            RuleModel::Matmul { a: a.detached(), b: b.detached() },
            r,
        )
}

/// Records `y`, the product of `a` and `b` wherever it was computed.
pub fn record_matmul<S: Scalars>(
    graph: &mut Graph<S>,
    a: &Tensor<S>,
    b: &Tensor<S>,
    y: Tensor<S>,
) -> (r: Tensor<S>)
    requires
        old(graph).wf(),
        old(graph).owns(a@),
        old(graph).owns(b@),
        old(graph).owns(y@),
    ensures
        kept::<S>(*old(graph), *final(graph), Ok(r@)),
        tracked_out::<S>(
            old(graph).nodes(),
            final(graph).nodes(),
            a@.in_graph || b@.in_graph,
            Ok(y@),
            seq![a@, b@],
            RuleModel::Matmul { a: a@.detached(), b: b@.detached() },
            Ok(r@),
        ),
{
    if !(a.requires_grad() || b.requires_grad()) {
        return y;
    }
    let parents: Vec<Tensor<S>> = two_parts(a.clone(), b.clone());
    let rule: Rule<S> = Rule::Matmul { a: a.detach(), b: b.detach() };
    attach(graph, y, parents, rule)
}

/// Tracked matrix multiply.
pub fn matmul<S: Scalars>(
    graph: &mut Graph<S>,
    a: &Tensor<S>,
    b: &Tensor<S>,
) -> (r: Result<Tensor<S>, Error>)
    requires
        old(graph).wf(),
        old(graph).owns(a@),
        old(graph).owns(b@),
    ensures
        kept::<S>(*old(graph), *final(graph), outcome(r)),
        matmul_tracked::<S>(
            old(graph).nodes(),
            final(graph).nodes(),
            a@,
            b@,
            outcome(r),
        ),
{
    match crate::matmul::matmul(a, b) {
        Ok(y) => Ok(record_matmul(graph, a, b, y)),
        Err(e) => Err(e),
    }
}

/// What `relu` comes to.
pub open spec fn relu_tracked<S: Scalars>(
    before: Seq<Node<S>>,
    after: Seq<Node<S>>,
    x: Model<S>,
    r: Outcome<S>,
) -> bool {
    exists|y: Outcome<S>| #[trigger]
        relu_out::<S>(x, y) && tracked_out::<S>(
            before,
            after,
            x.in_graph,
            y,
            seq![x],
            RuleModel::Relu { x: x.detached() },
            r,
        )
}

/// Tracked ReLU (`max(x, 0)`; derivative 0 at 0).
pub fn relu<S: Scalars>(
    graph: &mut Graph<S>,
    x: &Tensor<S>,
) -> (r: Result<Tensor<S>, Error>)
    requires
        old(graph).wf(),
        old(graph).owns(x@),
    ensures
        kept::<S>(*old(graph), *final(graph), outcome(r)),
        relu_tracked::<S>(
            old(graph).nodes(),
            final(graph).nodes(),
            x@,
            outcome(r),
        ),
{
    let y: Tensor<S> = match crate::unary::relu(x) {
        Ok(t) => t,
        Err(e) => {
            return Err(e);
        },
    };
    if !x.requires_grad() {
        return Ok(y);
    }
    let parents: Vec<Tensor<S>> = one_part(x.clone());
    let rule: Rule<S> = Rule::Relu { x: x.detach() };
    Ok(attach(graph, y, parents, rule))
}

/// What `tanh` comes to.
pub open spec fn tanh_tracked<S: Scalars>(
    before: Seq<Node<S>>,
    after: Seq<Node<S>>,
    x: Model<S>,
    r: Outcome<S>,
) -> bool {
    exists|y: Outcome<S>| #[trigger]
        tanh_out::<S>(x, y) && tracked_out::<S>(
            before,
            after,
            x.in_graph,
            y,
            seq![x],
            RuleModel::Tanh { y: y->Ok_0.detached() },
            r,
        )
}

/// Tracked hyperbolic tangent.
pub fn tanh<S: Scalars>(
    graph: &mut Graph<S>,
    x: &Tensor<S>,
) -> (r: Result<Tensor<S>, Error>)
    requires
        old(graph).wf(),
        old(graph).owns(x@),
    ensures
        kept::<S>(*old(graph), *final(graph), outcome(r)),
        tanh_tracked::<S>(
            old(graph).nodes(),
            final(graph).nodes(),
            x@,
            outcome(r),
        ),
{
    let y: Tensor<S> = match crate::unary::tanh(x) {
        Ok(t) => t,
        Err(e) => {
            return Err(e);
        },
    };
    if !x.requires_grad() {
        return Ok(y);
    }
    let parents: Vec<Tensor<S>> = one_part(x.clone());
    let rule: Rule<S> = Rule::Tanh { y: y.detach() };
    Ok(attach(graph, y, parents, rule))
}

/// What `exp` comes to.
pub open spec fn exp_tracked<S: Scalars>(
    before: Seq<Node<S>>,
    after: Seq<Node<S>>,
    x: Model<S>,
    r: Outcome<S>,
) -> bool {
    exists|y: Outcome<S>| #[trigger]
        exp_out::<S>(x, y) && tracked_out::<S>(
            before,
            after,
            x.in_graph,
            y,
            seq![x],
            RuleModel::Local { name: "exp"@, gx: y->Ok_0.detached() },
            r,
        )
}

/// Tracked elementwise exponential.
pub fn exp<S: Scalars>(
    graph: &mut Graph<S>,
    x: &Tensor<S>,
) -> (r: Result<Tensor<S>, Error>)
    requires
        old(graph).wf(),
        old(graph).owns(x@),
    ensures
        kept::<S>(*old(graph), *final(graph), outcome(r)),
        exp_tracked::<S>(
            old(graph).nodes(),
            final(graph).nodes(),
            x@,
            outcome(r),
        ),
{
    let y: Tensor<S> = match crate::unary::exp(x) {
        Ok(t) => t,
        Err(e) => {
            return Err(e);
        },
    };
    if !x.requires_grad() {
        return Ok(y);
    }
    let parents: Vec<Tensor<S>> = one_part(x.clone());
    let rule: Rule<S> = Rule::Local { name: "exp", gx: y.detach() };
    Ok(attach(graph, y, parents, rule))
}

/// What `transpose` comes to.
pub open spec fn transpose_tracked<S: Scalars>(
    before: Seq<Node<S>>,
    after: Seq<Node<S>>,
    x: Model<S>,
    r: Outcome<S>,
) -> bool {
    exists|y: Outcome<S>| #[trigger]
        transpose_out::<S>(x, y) && tracked_out::<S>(
            before,
            after,
            x.in_graph,
            y,
            seq![x],
            RuleModel::Transpose,
            r,
        )
}

/// Tracked transpose of the last two axes.
pub fn transpose<S: Scalars>(
    graph: &mut Graph<S>,
    x: &Tensor<S>,
) -> (r: Result<Tensor<S>, Error>)
    requires
        old(graph).wf(),
        old(graph).owns(x@),
    ensures
        kept::<S>(*old(graph), *final(graph), outcome(r)),
        transpose_tracked::<S>(
            old(graph).nodes(),
            final(graph).nodes(),
            x@,
            outcome(r),
        ),
{
    let y: Tensor<S> = match x.transpose() {
        Ok(t) => t,
        Err(e) => {
            return Err(e);
        },
    };
    if !x.requires_grad() {
        return Ok(y);
    }
    let parents: Vec<Tensor<S>> = one_part(x.clone());
    let rule: Rule<S> = Rule::Transpose;
    Ok(attach(graph, y, parents, rule))
}

/// What `unsqueeze` comes to.
pub open spec fn unsqueeze_tracked<S: Scalars>(
    before: Seq<Node<S>>,
    after: Seq<Node<S>>,
    x: Model<S>,
    axis: isize,
    r: Outcome<S>,
) -> bool {
    exists|y: Outcome<S>| #[trigger]
        unsqueeze_out::<S>(x, axis as int, y) && tracked_out::<S>(
            before,
            after,
            x.in_graph,
            y,
            seq![x],
            RuleModel::Unsqueeze { at: axis },
            r,
        )
}

/// Tracked unsqueeze (insert a size-1 axis).
pub fn unsqueeze<S: Scalars>(
    graph: &mut Graph<S>,
    x: &Tensor<S>,
    axis: isize,
) -> (r: Result<Tensor<S>, Error>)
    requires
        old(graph).wf(),
        old(graph).owns(x@),
    ensures
        kept::<S>(*old(graph), *final(graph), outcome(r)),
        unsqueeze_tracked::<S>(
            old(graph).nodes(),
            final(graph).nodes(),
            x@,
            axis,
            outcome(r),
        ),
{
    let y: Tensor<S> = match x.unsqueeze(axis) {
        Ok(t) => t,
        Err(e) => {
            return Err(e);
        },
    };
    if !x.requires_grad() {
        return Ok(y);
    }
    let parents: Vec<Tensor<S>> = one_part(x.clone());
    let rule: Rule<S> = Rule::Unsqueeze { at: axis };
    Ok(attach(graph, y, parents, rule))
}

/// What `reshape` comes to.
pub open spec fn reshape_tracked<S: Scalars>(
    before: Seq<Node<S>>,
    after: Seq<Node<S>>,
    x: Model<S>,
    shape: Seq<isize>,
    r: Outcome<S>,
) -> bool {
    exists|y: Outcome<S>| #[trigger]
        reshape_out::<S>(x, shape, y) && tracked_out::<S>(
            before,
            after,
            x.in_graph,
            y,
            seq![x],
            RuleModel::Reshape { former: signed(x.shape) },
            r,
        )
}

/// Tracked reshape (one `-1` wildcard allowed).
pub fn reshape<S: Scalars>(
    graph: &mut Graph<S>,
    x: &Tensor<S>,
    shape: &[isize],
) -> (r: Result<Tensor<S>, Error>)
    requires
        old(graph).wf(),
        old(graph).owns(x@),
    ensures
        kept::<S>(*old(graph), *final(graph), outcome(r)),
        reshape_tracked::<S>(
            old(graph).nodes(),
            final(graph).nodes(),
            x@,
            shape@,
            outcome(r),
        ),
{
    let y: Tensor<S> = match x.reshape(shape) {
        Ok(t) => t,
        Err(e) => {
            return Err(e);
        },
    };
    if !x.requires_grad() {
        return Ok(y);
    }
    let parents: Vec<Tensor<S>> = one_part(x.clone());
    let rule: Rule<S> = Rule::Reshape { former: as_signed(x.shape()) };
    Ok(attach(graph, y, parents, rule))
}

/// What `gather` comes to.
pub open spec fn gather_tracked<S: Scalars>(
    before: Seq<Node<S>>,
    after: Seq<Node<S>>,
    x: Model<S>,
    axis: isize,
    index: Model<S>,
    r: Outcome<S>,
) -> bool {
    exists|y: Outcome<S>| #[trigger]
        gather_out::<S>(x, axis as int, index, y) && tracked_out::<S>(
            before,
            after,
            x.in_graph,
            y,
            seq![x],
            RuleModel::Gather { at: axis, index: index.detached(), shape: x.shape },
            r,
        )
}

/// Tracked gather along `axis` (gradient is a scatter-add).
pub fn gather<S: Scalars>(
    graph: &mut Graph<S>,
    x: &Tensor<S>,
    axis: isize,
    index: &Tensor<S>,
) -> (r: Result<Tensor<S>, Error>)
    requires
        old(graph).wf(),
        old(graph).owns(x@),
        old(graph).owns(index@),
        gather_within(x@, axis as int, index@),
    ensures
        kept::<S>(*old(graph), *final(graph), outcome(r)),
        gather_tracked::<S>(
            old(graph).nodes(),
            final(graph).nodes(),
            x@,
            axis,
            index@,
            outcome(r),
        ),
{
    let y: Tensor<S> = match crate::indexing::gather(x, axis, index) {
        Ok(t) => t,
        Err(e) => {
            return Err(e);
        },
    };
    if !x.requires_grad() {
        return Ok(y);
    }
    let parents: Vec<Tensor<S>> = one_part(x.clone());
    let rule: Rule<S> = Rule::Gather { at: axis, index: index.detach(), shape: copied(x.shape()) };
    Ok(attach(graph, y, parents, rule))
}

/// What `take` comes to.
pub open spec fn take_tracked<S: Scalars>(
    before: Seq<Node<S>>,
    after: Seq<Node<S>>,
    x: Model<S>,
    axis: isize,
    index: Model<S>,
    r: Outcome<S>,
) -> bool {
    exists|y: Outcome<S>| #[trigger]
        take_out::<S>(x, axis as int, index, y) && tracked_out::<S>(
            before,
            after,
            x.in_graph,
            y,
            seq![x],
            RuleModel::Take { index: index.detached(), shape: x.shape },
            r,
        )
}

/// Tracked `take` along `axis` (rank 2, axis 1 only).
pub fn take<S: Scalars>(
    graph: &mut Graph<S>,
    x: &Tensor<S>,
    axis: isize,
    index: &Tensor<S>,
) -> (r: Result<Tensor<S>, Error>)
    requires
        old(graph).wf(),
        old(graph).owns(x@),
        old(graph).owns(index@),
    ensures
        kept::<S>(*old(graph), *final(graph), outcome(r)),
        take_tracked::<S>(
            old(graph).nodes(),
            final(graph).nodes(),
            x@,
            axis,
            index@,
            outcome(r),
        ),
{
    let y: Tensor<S> = match crate::indexing::take(x, axis, index) {
        Ok(t) => t,
        Err(e) => {
            return Err(e);
        },
    };
    if !x.requires_grad() {
        return Ok(y);
    }
    let parents: Vec<Tensor<S>> = one_part(x.clone());
    let rule: Rule<S> = Rule::Take { index: index.detach(), shape: copied(x.shape()) };
    Ok(attach(graph, y, parents, rule))
}

/// What `gated_scan` comes to.
pub open spec fn gated_scan_tracked<S: Scalars>(
    before: Seq<Node<S>>,
    after: Seq<Node<S>>,
    a: Model<S>,
    b: Model<S>,
    r: Outcome<S>,
) -> bool {
    exists|y: Outcome<S>| #[trigger]
        gated_scan_out::<S>(a, b, y) && tracked_out::<S>(
            before,
            after,
            a.in_graph || b.in_graph,
            y,
            seq![a, b],
            RuleModel::Scan { a: a.detached(), h: y->Ok_0.detached() },
            r,
        )
}

/// Gated linear recurrence `h_t = a_t * h_{t-1} + b_t` over `[B, T, D]`, as one node.
pub fn gated_scan<S: Scalars>(
    graph: &mut Graph<S>,
    a: &Tensor<S>,
    b: &Tensor<S>,
) -> (r: Result<Tensor<S>, Error>)
    requires
        old(graph).wf(),
        old(graph).owns(a@),
        old(graph).owns(b@),
    ensures
        kept::<S>(*old(graph), *final(graph), outcome(r)),
        gated_scan_tracked::<S>(
            old(graph).nodes(),
            final(graph).nodes(),
            a@,
            b@,
            outcome(r),
        ),
{
    let y: Tensor<S> = match crate::scan::gated_scan(a, b) {
        Ok(t) => t,
        Err(e) => {
            return Err(e);
        },
    };
    if !(a.requires_grad() || b.requires_grad()) {
        return Ok(y);
    }
    let parents: Vec<Tensor<S>> = two_parts(a.clone(), b.clone());
    let rule: Rule<S> = Rule::Scan { a: a.detach(), h: y.detach() };
    Ok(attach(graph, y, parents, rule))
}

/// What `rms_norm` comes to.
pub open spec fn rms_norm_tracked<S: Scalars>(
    before: Seq<Node<S>>,
    after: Seq<Node<S>>,
    x: Model<S>,
    eps: S::F,
    r: Outcome<S>,
) -> bool {
    exists|y: Outcome<S>| #[trigger]
        rms_norm_out::<S>(x, eps, y) && tracked_out::<S>(
            before,
            after,
            x.in_graph,
            y,
            seq![x],
            RuleModel::Rms { x: x.detached(), eps },
            r,
        )
}

/// RMS normalization over the last axis, as one node.
pub fn rms_norm<S: Scalars>(
    graph: &mut Graph<S>,
    x: &Tensor<S>,
    eps: S::F,
) -> (r: Result<Tensor<S>, Error>)
    requires
        old(graph).wf(),
        old(graph).owns(x@),
    ensures
        kept::<S>(*old(graph), *final(graph), outcome(r)),
        rms_norm_tracked::<S>(
            old(graph).nodes(),
            final(graph).nodes(),
            x@,
            eps,
            outcome(r),
        ),
{
    let y: Tensor<S> = match crate::rows::rms_norm(x, eps) {
        Ok(t) => t,
        Err(e) => {
            return Err(e);
        },
    };
    if !x.requires_grad() {
        return Ok(y);
    }
    let parents: Vec<Tensor<S>> = one_part(x.clone());
    let rule: Rule<S> = Rule::Rms { x: x.detach(), eps };
    Ok(attach(graph, y, parents, rule))
}

/// The local derivative of the logarithm comes to: one over `x`.
pub open spec fn log_slope_out<S: Scalars>(
    x: Model<S>,
    r: Outcome<S>,
) -> bool {
    exists|o: Outcome<S>| #[trigger]
        ones_out::<S>(x.shape, x.dtype(), o) && passes(
            o,
            r,
            log_slope_of::<S>(x, o->Ok_0, r),
        )
}

/// The rest of it, once `ones` is there.
pub open spec fn log_slope_of<S: Scalars>(
    x: Model<S>,
    ones: Model<S>,
    r: Outcome<S>,
) -> bool {
    div_out::<S>(ones, x.detached(), r)
}

/// The local derivative of the logarithm comes to: one over `x`.
fn log_slope<S: Scalars>(
    x: &Tensor<S>,
) -> (r: Result<Tensor<S>, Error>)
    ensures
        log_slope_out::<S>(x@, outcome(r)),
{
    let ones: Tensor<S> = match Tensor::ones(x.shape(), x.dtype()) {
        Ok(t) => t,
        Err(e) => {
            return Err(e);
        },
    };
    crate::cpu::div(&ones, &x.detach())
}

/// What `log` comes to: its value and, in the graph, the local derivative.
pub open spec fn log_tracked<S: Scalars>(
    before: Seq<Node<S>>,
    after: Seq<Node<S>>,
    x: Model<S>,
    r: Outcome<S>,
) -> bool {
    exists|y: Outcome<S>| #[trigger]
        log_out::<S>(x, y) && if !x.in_graph || y is Err {
            after == before && r == y
        } else {
            log_sloped::<S>(before, after, x, y->Ok_0, r)
        }
}

/// The value `y`, recorded with its local derivative.
pub open spec fn log_sloped<S: Scalars>(
    before: Seq<Node<S>>,
    after: Seq<Node<S>>,
    x: Model<S>,
    y: Model<S>,
    r: Outcome<S>,
) -> bool {
    exists|o: Outcome<S>| #[trigger]
        log_slope_out::<S>(x, o) && sloped_out::<S>(before, after, "log"@, x, y, o, r)
}

/// Tracked elementwise natural logarithm.
pub fn log<S: Scalars>(
    graph: &mut Graph<S>,
    x: &Tensor<S>,
) -> (r: Result<Tensor<S>, Error>)
    requires
        old(graph).wf(),
        old(graph).owns(x@),
    ensures
        kept::<S>(*old(graph), *final(graph), outcome(r)),
        log_tracked::<S>(
            old(graph).nodes(),
            final(graph).nodes(),
            x@,
            outcome(r),
        ),
{
    let y: Tensor<S> = match crate::unary::log(x) {
        Ok(t) => t,
        Err(e) => {
            return Err(e);
        },
    };
    if !x.requires_grad() {
        return Ok(y);
    }
    match log_slope(x) {
        Ok(gx) => Ok(attach_local(graph, "log", x, y, gx)),
        Err(e) => Err(e),
    }
}

/// One half.
pub open spec fn is_half<T, A: Arith<T>>(h: T) -> bool {
    is_ratio::<T, A>(1, 2, h)
}

/// What half of `x` comes to.
pub open spec fn halved_out<S: Scalars>(x: Model<S>, r: Outcome<S>) -> bool {
    exists|h: S::D| #[trigger] is_half::<S::D, S>(h) && mul_scalar_out::<S>(x, h, r)
}

fn halve<S: Scalars>(x: &Tensor<S>) -> (r: Result<Tensor<S>, Error>)
    ensures
        halved_out::<S>(x@, outcome(r)),
{
    let h: S::D = <S as Arith<S::D>>::ratio(1, 2);
    assert(is_half::<S::D, S>(h));
    mul_scalar(x, h)
}

/// The local derivative of the root comes to: one half over the root `y` of `x`.
pub open spec fn sqrt_slope_out<S: Scalars>(
    x: Model<S>,
    y: Model<S>,
    r: Outcome<S>,
) -> bool {
    exists|o: Outcome<S>| #[trigger]
        ones_out::<S>(x.shape, x.dtype(), o) && passes(
            o,
            r,
            sqrt_slope_quotient::<S>(y, o->Ok_0, r),
        )
}

/// The rest of it, once `ones` is there.
pub open spec fn sqrt_slope_quotient<S: Scalars>(
    y: Model<S>,
    ones: Model<S>,
    r: Outcome<S>,
) -> bool {
    exists|o: Outcome<S>| #[trigger]
        div_out::<S>(ones, y.detached(), o) && passes(
            o,
            r,
            sqrt_slope_half::<S>(o->Ok_0, r),
        )
}

/// The rest of it, once `q` is there.
pub open spec fn sqrt_slope_half<S: Scalars>(
    q: Model<S>,
    r: Outcome<S>,
) -> bool {
    halved_out::<S>(q, r)
}

/// The local derivative of the root comes to: one half over the root `y` of `x`.
fn sqrt_slope<S: Scalars>(
    x: &Tensor<S>,
    y: &Tensor<S>,
) -> (r: Result<Tensor<S>, Error>)
    ensures
        sqrt_slope_out::<S>(x@, y@, outcome(r)),
{
    let ones: Tensor<S> = match Tensor::ones(x.shape(), x.dtype()) {
        Ok(t) => t,
        Err(e) => {
            return Err(e);
        },
    };
    let q: Tensor<S> = match crate::cpu::div(&ones, &y.detach()) {
        Ok(t) => t,
        Err(e) => {
            return Err(e);
        },
    };
    halve(&q)
}

/// What `sqrt` comes to: its value and, in the graph, the local derivative.
pub open spec fn sqrt_tracked<S: Scalars>(
    before: Seq<Node<S>>,
    after: Seq<Node<S>>,
    x: Model<S>,
    r: Outcome<S>,
) -> bool {
    exists|y: Outcome<S>| #[trigger]
        sqrt_out::<S>(x, y) && if !x.in_graph || y is Err {
            after == before && r == y
        } else {
            sqrt_sloped::<S>(before, after, x, y->Ok_0, r)
        }
}

/// The value `y`, recorded with its local derivative.
pub open spec fn sqrt_sloped<S: Scalars>(
    before: Seq<Node<S>>,
    after: Seq<Node<S>>,
    x: Model<S>,
    y: Model<S>,
    r: Outcome<S>,
) -> bool {
    exists|o: Outcome<S>| #[trigger]
        sqrt_slope_out::<S>(x, y, o) && sloped_out::<S>(before, after, "sqrt"@, x, y, o, r)
}

/// Tracked elementwise square root.
pub fn sqrt<S: Scalars>(
    graph: &mut Graph<S>,
    x: &Tensor<S>,
) -> (r: Result<Tensor<S>, Error>)
    requires
        old(graph).wf(),
        old(graph).owns(x@),
    ensures
        kept::<S>(*old(graph), *final(graph), outcome(r)),
        sqrt_tracked::<S>(
            old(graph).nodes(),
            final(graph).nodes(),
            x@,
            outcome(r),
        ),
{
    let y: Tensor<S> = match crate::unary::sqrt(x) {
        Ok(t) => t,
        Err(e) => {
            return Err(e);
        },
    };
    if !x.requires_grad() {
        return Ok(y);
    }
    match sqrt_slope(x, &y) {
        Ok(gx) => Ok(attach_local(graph, "sqrt", x, y, gx)),
        Err(e) => Err(e),
    }
}

/// What `abs` comes to: its value and, in the graph, the local derivative.
pub open spec fn abs_tracked<S: Scalars>(
    before: Seq<Node<S>>,
    after: Seq<Node<S>>,
    x: Model<S>,
    r: Outcome<S>,
) -> bool {
    exists|y: Outcome<S>| #[trigger]
        abs_out::<S>(x, y) && if !x.in_graph || y is Err {
            after == before && r == y
        } else {
            abs_sloped::<S>(before, after, x, y->Ok_0, r)
        }
}

/// The value `y`, recorded with its local derivative.
pub open spec fn abs_sloped<S: Scalars>(
    before: Seq<Node<S>>,
    after: Seq<Node<S>>,
    x: Model<S>,
    y: Model<S>,
    r: Outcome<S>,
) -> bool {
    exists|o: Outcome<S>| #[trigger]
        sign_out::<S>(x.detached(), o) && sloped_out::<S>(before, after, "abs"@, x, y, o, r)
}

/// Tracked elementwise absolute value (derivative `sign(x)`).
pub fn abs<S: Scalars>(
    graph: &mut Graph<S>,
    x: &Tensor<S>,
) -> (r: Result<Tensor<S>, Error>)
    requires
        old(graph).wf(),
        old(graph).owns(x@),
    ensures
        kept::<S>(*old(graph), *final(graph), outcome(r)),
        abs_tracked::<S>(
            old(graph).nodes(),
            final(graph).nodes(),
            x@,
            outcome(r),
        ),
{
    let y: Tensor<S> = match crate::unary::abs(x) {
        Ok(t) => t,
        Err(e) => {
            return Err(e);
        },
    };
    if !x.requires_grad() {
        return Ok(y);
    }
    match crate::unary::sign(&x.detach()) {
        Ok(gx) => Ok(attach_local(graph, "abs", x, y, gx)),
        Err(e) => Err(e),
    }
}

/// The local derivative of the sigmoid, from its value, comes to: `y * (1 - y)`.
pub open spec fn sigmoid_local_out<S: Scalars>(
    y: Model<S>,
    r: Outcome<S>,
) -> bool {
    exists|o: Outcome<S>| #[trigger]
        ones_out::<S>(y.shape, y.dtype(), o) && passes(
            o,
            r,
            sigmoid_local_rest::<S>(y, o->Ok_0, r),
        )
}

/// The rest of it, once `ones` is there.
pub open spec fn sigmoid_local_rest<S: Scalars>(
    y: Model<S>,
    ones: Model<S>,
    r: Outcome<S>,
) -> bool {
    exists|o: Outcome<S>| #[trigger]
        sub_out::<S>(ones, y.detached(), o) && passes(
            o,
            r,
            sigmoid_local_product::<S>(y, o->Ok_0, r),
        )
}

/// The rest of it, once `rest` is there.
pub open spec fn sigmoid_local_product<S: Scalars>(
    y: Model<S>,
    rest: Model<S>,
    r: Outcome<S>,
) -> bool {
    mul_out::<S>(y.detached(), rest, r)
}

/// The local derivative of the sigmoid, from its value, comes to: `y * (1 - y)`.
fn sigmoid_local<S: Scalars>(
    y: &Tensor<S>,
) -> (r: Result<Tensor<S>, Error>)
    ensures
        sigmoid_local_out::<S>(y@, outcome(r)),
{
    let ones: Tensor<S> = match Tensor::ones(y.shape(), y.dtype()) {
        Ok(t) => t,
        Err(e) => {
            return Err(e);
        },
    };
    let rest: Tensor<S> = match crate::cpu::sub(&ones, &y.detach()) {
        Ok(t) => t,
        Err(e) => {
            return Err(e);
        },
    };
    crate::cpu::mul(&y.detach(), &rest)
}

/// What `sigmoid` comes to: its value and, in the graph, the local derivative.
pub open spec fn sigmoid_tracked<S: Scalars>(
    before: Seq<Node<S>>,
    after: Seq<Node<S>>,
    x: Model<S>,
    r: Outcome<S>,
) -> bool {
    exists|y: Outcome<S>| #[trigger]
        sigmoid_out::<S>(x, y) && if !x.in_graph || y is Err {
            after == before && r == y
        } else {
            sigmoid_sloped::<S>(before, after, x, y->Ok_0, r)
        }
}

/// The value `y`, recorded with its local derivative.
pub open spec fn sigmoid_sloped<S: Scalars>(
    before: Seq<Node<S>>,
    after: Seq<Node<S>>,
    x: Model<S>,
    y: Model<S>,
    r: Outcome<S>,
) -> bool {
    exists|o: Outcome<S>| #[trigger]
        sigmoid_local_out::<S>(y, o) && sloped_out::<S>(before, after, "sigmoid"@, x, y, o, r)
}

/// Tracked logistic sigmoid.
pub fn sigmoid<S: Scalars>(
    graph: &mut Graph<S>,
    x: &Tensor<S>,
) -> (r: Result<Tensor<S>, Error>)
    requires
        old(graph).wf(),
        old(graph).owns(x@),
    ensures
        kept::<S>(*old(graph), *final(graph), outcome(r)),
        sigmoid_tracked::<S>(
            old(graph).nodes(),
            final(graph).nodes(),
            x@,
            outcome(r),
        ),
{
    let y: Tensor<S> = match crate::unary::sigmoid(x) {
        Ok(t) => t,
        Err(e) => {
            return Err(e);
        },
    };
    if !x.requires_grad() {
        return Ok(y);
    }
    match sigmoid_local(&y) {
        Ok(gx) => Ok(attach_local(graph, "sigmoid", x, y, gx)),
        Err(e) => Err(e),
    }
}

/// The local derivative of SiLU comes to: `s + x * s * (1 - s)`, with `s` the sigmoid.
pub open spec fn silu_local_out<S: Scalars>(
    x: Model<S>,
    r: Outcome<S>,
) -> bool {
    exists|o: Outcome<S>| #[trigger]
        sigmoid_out::<S>(x.detached(), o) && passes(
            o,
            r,
            silu_local_ones::<S>(x, o->Ok_0, r),
        )
}

/// The rest of it, once `s` is there.
pub open spec fn silu_local_ones<S: Scalars>(
    x: Model<S>,
    s: Model<S>,
    r: Outcome<S>,
) -> bool {
    exists|o: Outcome<S>| #[trigger]
        ones_out::<S>(x.shape, x.dtype(), o) && passes(
            o,
            r,
            silu_local_rest::<S>(x, s, o->Ok_0, r),
        )
}

/// The rest of it, once `ones` is there.
pub open spec fn silu_local_rest<S: Scalars>(
    x: Model<S>,
    s: Model<S>,
    ones: Model<S>,
    r: Outcome<S>,
) -> bool {
    exists|o: Outcome<S>| #[trigger]
        sub_out::<S>(ones, s, o) && passes(
            o,
            r,
            silu_local_bell::<S>(x, s, o->Ok_0, r),
        )
}

/// The rest of it, once `rest` is there.
pub open spec fn silu_local_bell<S: Scalars>(
    x: Model<S>,
    s: Model<S>,
    rest: Model<S>,
    r: Outcome<S>,
) -> bool {
    exists|o: Outcome<S>| #[trigger]
        mul_out::<S>(s, rest, o) && passes(
            o,
            r,
            silu_local_tail::<S>(x, s, o->Ok_0, r),
        )
}

/// The rest of it, once `bell` is there.
pub open spec fn silu_local_tail<S: Scalars>(
    x: Model<S>,
    s: Model<S>,
    bell: Model<S>,
    r: Outcome<S>,
) -> bool {
    exists|o: Outcome<S>| #[trigger]
        mul_out::<S>(x.detached(), bell, o) && passes(
            o,
            r,
            silu_local_sum::<S>(s, o->Ok_0, r),
        )
}

/// The rest of it, once `tail` is there.
pub open spec fn silu_local_sum<S: Scalars>(
    s: Model<S>,
    tail: Model<S>,
    r: Outcome<S>,
) -> bool {
    add_out::<S>(s, tail, r)
}

/// The local derivative of SiLU comes to: `s + x * s * (1 - s)`, with `s` the sigmoid.
fn silu_local<S: Scalars>(
    x: &Tensor<S>,
) -> (r: Result<Tensor<S>, Error>)
    ensures
        silu_local_out::<S>(x@, outcome(r)),
{
    let s: Tensor<S> = match crate::unary::sigmoid(&x.detach()) {
        Ok(t) => t,
        Err(e) => {
            return Err(e);
        },
    };
    let ones: Tensor<S> = match Tensor::ones(x.shape(), x.dtype()) {
        Ok(t) => t,
        Err(e) => {
            return Err(e);
        },
    };
    let rest: Tensor<S> = match crate::cpu::sub(&ones, &s) {
        Ok(t) => t,
        Err(e) => {
            return Err(e);
        },
    };
    let bell: Tensor<S> = match crate::cpu::mul(&s, &rest) {
        Ok(t) => t,
        Err(e) => {
            return Err(e);
        },
    };
    let tail: Tensor<S> = match crate::cpu::mul(&x.detach(), &bell) {
        Ok(t) => t,
        Err(e) => {
            return Err(e);
        },
    };
    crate::cpu::add(&s, &tail)
}

/// What `silu` comes to: its value and, in the graph, the local derivative.
pub open spec fn silu_tracked<S: Scalars>(
    before: Seq<Node<S>>,
    after: Seq<Node<S>>,
    x: Model<S>,
    r: Outcome<S>,
) -> bool {
    exists|y: Outcome<S>| #[trigger]
        silu_out::<S>(x, y) && if !x.in_graph || y is Err {
            after == before && r == y
        } else {
            silu_sloped::<S>(before, after, x, y->Ok_0, r)
        }
}

/// The value `y`, recorded with its local derivative.
pub open spec fn silu_sloped<S: Scalars>(
    before: Seq<Node<S>>,
    after: Seq<Node<S>>,
    x: Model<S>,
    y: Model<S>,
    r: Outcome<S>,
) -> bool {
    exists|o: Outcome<S>| #[trigger]
        silu_local_out::<S>(x, o) && sloped_out::<S>(before, after, "silu"@, x, y, o, r)
}

/// Tracked SiLU `x * sigmoid(x)`.
pub fn silu<S: Scalars>(
    graph: &mut Graph<S>,
    x: &Tensor<S>,
) -> (r: Result<Tensor<S>, Error>)
    requires
        old(graph).wf(),
        old(graph).owns(x@),
    ensures
        kept::<S>(*old(graph), *final(graph), outcome(r)),
        silu_tracked::<S>(
            old(graph).nodes(),
            final(graph).nodes(),
            x@,
            outcome(r),
        ),
{
    let y: Tensor<S> = match crate::unary::silu(x) {
        Ok(t) => t,
        Err(e) => {
            return Err(e);
        },
    };
    if !x.requires_grad() {
        return Ok(y);
    }
    match silu_local(x) {
        Ok(gx) => Ok(attach_local(graph, "silu", x, y, gx)),
        Err(e) => Err(e),
    }
}

/// What `softplus` comes to: its value and, in the graph, the local derivative.
pub open spec fn softplus_tracked<S: Scalars>(
    before: Seq<Node<S>>,
    after: Seq<Node<S>>,
    x: Model<S>,
    r: Outcome<S>,
) -> bool {
    exists|y: Outcome<S>| #[trigger]
        softplus_out::<S>(x, y) && if !x.in_graph || y is Err {
            after == before && r == y
        } else {
            softplus_sloped::<S>(before, after, x, y->Ok_0, r)
        }
}

/// The value `y`, recorded with its local derivative.
pub open spec fn softplus_sloped<S: Scalars>(
    before: Seq<Node<S>>,
    after: Seq<Node<S>>,
    x: Model<S>,
    y: Model<S>,
    r: Outcome<S>,
) -> bool {
    exists|o: Outcome<S>| #[trigger]
        sigmoid_out::<S>(x.detached(), o) && sloped_out::<S>(before, after, "softplus"@, x, y, o, r)
}

/// Tracked softplus.
pub fn softplus<S: Scalars>(
    graph: &mut Graph<S>,
    x: &Tensor<S>,
) -> (r: Result<Tensor<S>, Error>)
    requires
        old(graph).wf(),
        old(graph).owns(x@),
    ensures
        kept::<S>(*old(graph), *final(graph), outcome(r)),
        softplus_tracked::<S>(
            old(graph).nodes(),
            final(graph).nodes(),
            x@,
            outcome(r),
        ),
{
    let y: Tensor<S> = match crate::unary::softplus(x) {
        Ok(t) => t,
        Err(e) => {
            return Err(e);
        },
    };
    if !x.requires_grad() {
        return Ok(y);
    }
    match crate::unary::sigmoid(&x.detach()) {
        Ok(gx) => Ok(attach_local(graph, "softplus", x, y, gx)),
        Err(e) => Err(e),
    }
}

/// What the local derivatives of `a / b` come to: `1 / b` and `-(a / b^2)`.
pub open spec fn div_slopes_out<S: Scalars>(
    a: Model<S>,
    b: Model<S>,
    r: Result<(Model<S>, Model<S>), Error>,
) -> bool {
    exists|o: Outcome<S>| #[trigger]
        ones_out::<S>(b.shape, b.dtype(), o) && passes(
            o,
            r,
            div_slopes_first::<S>(a, b, o->Ok_0, r),
        )
}

/// The rest of it, once `ones` is there.
pub open spec fn div_slopes_first<S: Scalars>(
    a: Model<S>,
    b: Model<S>,
    ones: Model<S>,
    r: Result<(Model<S>, Model<S>), Error>,
) -> bool {
    exists|o: Outcome<S>| #[trigger]
        div_out::<S>(ones, b.detached(), o) && passes(
            o,
            r,
            div_slopes_square::<S>(a, b, o->Ok_0, r),
        )
}

/// The rest of it, once `da` is there.
pub open spec fn div_slopes_square<S: Scalars>(
    a: Model<S>,
    b: Model<S>,
    da: Model<S>,
    r: Result<(Model<S>, Model<S>), Error>,
) -> bool {
    exists|o: Outcome<S>| #[trigger]
        mul_out::<S>(b.detached(), b.detached(), o) && passes(
            o,
            r,
            div_slopes_quotient::<S>(a, da, o->Ok_0, r),
        )
}

/// The rest of it, once `b2` is there.
pub open spec fn div_slopes_quotient<S: Scalars>(
    a: Model<S>,
    da: Model<S>,
    b2: Model<S>,
    r: Result<(Model<S>, Model<S>), Error>,
) -> bool {
    exists|o: Outcome<S>| #[trigger]
        div_out::<S>(a.detached(), b2, o) && passes(
            o,
            r,
            div_slopes_second::<S>(da, o->Ok_0, r),
        )
}

/// The rest of it, once `q` is there.
pub open spec fn div_slopes_second<S: Scalars>(
    da: Model<S>,
    q: Model<S>,
    r: Result<(Model<S>, Model<S>), Error>,
) -> bool {
    exists|o: Outcome<S>| #[trigger]
        neg_out::<S>(q, o) && passes(
            o,
            r,
            gives(r, (da, o->Ok_0)),
        )
}

/// The local derivatives of `a / b`.
fn div_slopes<S: Scalars>(
    a: &Tensor<S>,
    b: &Tensor<S>,
) -> (r: Result<(Tensor<S>, Tensor<S>), Error>)
    ensures
        div_slopes_out::<S>(a@, b@, pair_outcome(r)),
{
    let ones: Tensor<S> = match Tensor::ones(b.shape(), b.dtype()) {
        Ok(t) => t,
        Err(e) => {
            return Err(e);
        },
    };
    let da: Tensor<S> = match crate::cpu::div(&ones, &b.detach()) {
        Ok(t) => t,
        Err(e) => {
            return Err(e);
        },
    };
    let b2: Tensor<S> = match crate::cpu::mul(&b.detach(), &b.detach()) {
        Ok(t) => t,
        Err(e) => {
            return Err(e);
        },
    };
    let q: Tensor<S> = match crate::cpu::div(&a.detach(), &b2) {
        Ok(t) => t,
        Err(e) => {
            return Err(e);
        },
    };
    let db: Tensor<S> = match crate::cpu::neg(&q) {
        Ok(t) => t,
        Err(e) => {
            return Err(e);
        },
    };
    Ok((da, db))
}

/// What `div` comes to: the quotient and, in the graph, the local derivatives.
pub open spec fn div_tracked<S: Scalars>(
    before: Seq<Node<S>>,
    after: Seq<Node<S>>,
    a: Model<S>,
    b: Model<S>,
    r: Outcome<S>,
) -> bool {
    exists|y: Outcome<S>| #[trigger]
        div_out::<S>(a, b, y) && if !(a.in_graph || b.in_graph) || y is Err {
            after == before && r == y
        } else {
            div_sloped::<S>(before, after, a, b, y->Ok_0, r)
        }
}

/// The quotient `y`, recorded with its local derivatives.
pub open spec fn div_sloped<S: Scalars>(
    before: Seq<Node<S>>,
    after: Seq<Node<S>>,
    a: Model<S>,
    b: Model<S>,
    y: Model<S>,
    r: Outcome<S>,
) -> bool {
    exists|o: Result<(Model<S>, Model<S>), Error>| #[trigger]
        div_slopes_out::<S>(a, b, o) && match o {
            Err(e) => after == before && r == Outcome::<S>::Err(e),
            Ok(g) => recorded::<S>(
                before,
                after,
                seq![a, b],
                RuleModel::Pair {
                    name: "div"@,
                    da: g.0,
                    db: g.1,
                    a_shape: a.shape,
                    b_shape: b.shape,
                },
            ) && gives(r, produced::<S>(y, before.len() as int)),
        }
}

/// Tracked elementwise division `a / b`.
pub fn div<S: Scalars>(
    graph: &mut Graph<S>,
    a: &Tensor<S>,
    b: &Tensor<S>,
) -> (r: Result<Tensor<S>, Error>)
    requires
        old(graph).wf(),
        old(graph).owns(a@),
        old(graph).owns(b@),
    ensures
        kept::<S>(*old(graph), *final(graph), outcome(r)),
        div_tracked::<S>(
            old(graph).nodes(),
            final(graph).nodes(),
            a@,
            b@,
            outcome(r),
        ),
{
    let y: Tensor<S> = match crate::cpu::div(a, b) {
        Ok(t) => t,
        Err(e) => {
            return Err(e);
        },
    };
    if !(a.requires_grad() || b.requires_grad()) {
        return Ok(y);
    }
    let (da, db): (Tensor<S>, Tensor<S>) = match div_slopes(a, b) {
        Ok(t) => t,
        Err(e) => {
            return Err(e);
        },
    };
    let parents: Vec<Tensor<S>> = two_parts(a.clone(), b.clone());
    let rule: Rule<S> = Rule::Pair {
        name: "div",
        da,
        db,
        a_shape: copied(a.shape()),
        b_shape: copied(b.shape()),
    };
    Ok(attach(graph, y, parents, rule))
}

/// What the local derivative of GELU comes to.
pub open spec fn gelu_local_out<S: Scalars>(x: Model<S>, r: Outcome<S>) -> bool {
    match r {
        Ok(t) => unary_value::<S>(
            x,
            gelu_exact_slope_rel::<S::F, S>(),
            gelu_exact_slope_rel::<S::D, S>(),
            t,
        ),
        Err(e) => unary_error(e, "gelu"@, x),
    }
}

fn gelu_local<S: Scalars>(x: &Tensor<S>) -> (r: Result<Tensor<S>, Error>)
    ensures
        gelu_local_out::<S>(x@, outcome(r)),
{
    let f = |v: S::F| -> (y: S::F)
        ensures
            (gelu_exact_slope_rel::<S::F, S>())(v, y)
    {
        gelu_exact_slope::<S::F, S>(v)
    };
    let g = |v: S::D| -> (y: S::D)
        ensures
            (gelu_exact_slope_rel::<S::D, S>())(v, y)
    {
        gelu_exact_slope::<S::D, S>(v)
    };
    let r: Result<Tensor<S>, Error> = map_float("gelu", x, f, g);
    proof {
        if r is Ok {
            lemma_unary_weaken::<S>(
                x@,
                |v: S::F, y: S::F| call_ensures(f, (v,), y),
                |v: S::D, y: S::D| call_ensures(g, (v,), y),
                gelu_exact_slope_rel::<S::F, S>(),
                gelu_exact_slope_rel::<S::D, S>(),
                r->Ok_0@,
            );
        }
    }
    r
}

/// What `gelu` comes to. In the graph the value of 32-bit data and its derivative come from one
/// pass.
pub open spec fn gelu_tracked<S: Scalars>(
    before: Seq<Node<S>>,
    after: Seq<Node<S>>,
    x: Model<S>,
    r: Outcome<S>,
) -> bool {
    if !x.in_graph {
        after == before && gelu_out::<S>(x, r)
    } else if x.dtype() == Dtype::F32 {
        gelu_at_once::<S>(before, after, x, r)
    } else {
        gelu_by_parts::<S>(before, after, x, r)
    }
}

/// Value and derivative in one pass.
pub open spec fn gelu_at_once<S: Scalars>(
    before: Seq<Node<S>>,
    after: Seq<Node<S>>,
    x: Model<S>,
    r: Outcome<S>,
) -> bool {
    exists|o: Result<(Model<S>, Model<S>), Error>| #[trigger]
        gelu_with_grad_out::<S>(x.detached(), o) && match o {
            Err(e) => after == before && r == Outcome::<S>::Err(e),
            Ok(p) => sloped_out::<S>(before, after, "gelu"@, x, p.0, Ok(p.1), r),
        }
}

/// The value, then the derivative.
pub open spec fn gelu_by_parts<S: Scalars>(
    before: Seq<Node<S>>,
    after: Seq<Node<S>>,
    x: Model<S>,
    r: Outcome<S>,
) -> bool {
    exists|y: Outcome<S>| #[trigger]
        gelu_out::<S>(x, y) && if y is Err {
            after == before && r == y
        } else {
            gelu_sloped::<S>(before, after, x, y->Ok_0, r)
        }
}

/// The value `y`, recorded with its local derivative.
pub open spec fn gelu_sloped<S: Scalars>(
    before: Seq<Node<S>>,
    after: Seq<Node<S>>,
    x: Model<S>,
    y: Model<S>,
    r: Outcome<S>,
) -> bool {
    exists|o: Outcome<S>| #[trigger]
        gelu_local_out::<S>(x.detached(), o) && sloped_out::<S>(before, after, "gelu"@, x, y, o, r)
}

/// Tracked GELU (tanh approximation).
pub fn gelu<S: Scalars>(
    graph: &mut Graph<S>,
    x: &Tensor<S>,
) -> (r: Result<Tensor<S>, Error>)
    requires
        old(graph).wf(),
        old(graph).owns(x@),
    ensures
        kept::<S>(*old(graph), *final(graph), outcome(r)),
        gelu_tracked::<S>(
            old(graph).nodes(),
            final(graph).nodes(),
            x@,
            outcome(r),
        ),
{
    if !x.requires_grad() {
        return crate::unary::gelu(x);
    }
    if x.dtype() == Dtype::F32 {
        return match gelu_with_grad(&x.detach()) {
            Ok((y, gx)) => Ok(attach_local(graph, "gelu", x, y, gx)),
            Err(e) => Err(e),
        };
    }
    let y: Tensor<S> = match crate::unary::gelu(x) {
        Ok(t) => t,
        Err(e) => {
            return Err(e);
        },
    };
    match gelu_local(&x.detach()) {
        Ok(gx) => Ok(attach_local(graph, "gelu", x, y, gx)),
        Err(e) => Err(e),
    }
}

/// `y` is one where `x` is at least zero, and the slope elsewhere.
pub open spec fn leaky_slope_f32<S: Scalars>(slope: S::D) -> spec_fn(S::F, S::F) -> bool {
    |x: S::F, y: S::F|
        exists|z: S::F, up: bool|
            {
                &&& #[trigger] is_zero::<S::F, S>(z)
                &&& #[trigger] call_ensures(<S as Arith<S::F>>::at_least, (x, z), up)
                &&& if up {
                    is_one::<S::F, S>(y)
                } else {
                    call_ensures(S::narrow, (slope,), y)
                }
            }
}

/// `y` is one where `x` is at least zero, and the slope elsewhere.
pub open spec fn leaky_slope_f64<S: Scalars>(slope: S::D) -> spec_fn(S::D, S::D) -> bool {
    |x: S::D, y: S::D|
        exists|z: S::D, up: bool|
            {
                &&& #[trigger] is_zero::<S::D, S>(z)
                &&& #[trigger] call_ensures(<S as Arith<S::D>>::at_least, (x, z), up)
                &&& if up {
                    is_one::<S::D, S>(y)
                } else {
                    y == slope
                }
            }
}

/// What the local derivative of leaky ReLU comes to.
pub open spec fn leaky_slope_out<S: Scalars>(x: Model<S>, slope: S::D, r: Outcome<S>) -> bool {
    match r {
        Ok(t) => unary_value::<S>(x, leaky_slope_f32::<S>(slope), leaky_slope_f64::<S>(slope), t),
        Err(e) => unary_error(e, "leaky_relu"@, x),
    }
}

fn leaky_slope<S: Scalars>(x: &Tensor<S>, slope: S::D) -> (r: Result<Tensor<S>, Error>)
    ensures
        leaky_slope_out::<S>(x@, slope, outcome(r)),
{
    let f = |v: S::F| -> (y: S::F)
        ensures
            (leaky_slope_f32::<S>(slope))(v, y)
    {
        let z: S::F = <S as Arith<S::F>>::zero();
        assert(is_zero::<S::F, S>(z));
        if <S as Arith<S::F>>::at_least(v, z) {
            <S as Arith<S::F>>::one()
        } else {
            S::narrow(slope)
        }
    };
    let g = |v: S::D| -> (y: S::D)
        ensures
            (leaky_slope_f64::<S>(slope))(v, y)
    {
        let z: S::D = <S as Arith<S::D>>::zero();
        assert(is_zero::<S::D, S>(z));
        if <S as Arith<S::D>>::at_least(v, z) {
            <S as Arith<S::D>>::one()
        } else {
            slope
        }
    };
    let r: Result<Tensor<S>, Error> = map_float("leaky_relu", x, f, g);
    proof {
        if r is Ok {
            lemma_unary_weaken::<S>(
                x@,
                |v: S::F, y: S::F| call_ensures(f, (v,), y),
                |v: S::D, y: S::D| call_ensures(g, (v,), y),
                leaky_slope_f32::<S>(slope),
                leaky_slope_f64::<S>(slope),
                r->Ok_0@,
            );
        }
    }
    r
}

/// What `leaky_relu` comes to: its value and, in the graph, the local derivative.
pub open spec fn leaky_relu_tracked<S: Scalars>(
    before: Seq<Node<S>>,
    after: Seq<Node<S>>,
    x: Model<S>,
    slope: S::D,
    r: Outcome<S>,
) -> bool {
    exists|y: Outcome<S>| #[trigger]
        leaky_relu_out::<S>(x, slope, y) && if !x.in_graph || y is Err {
            after == before && r == y
        } else {
            leaky_relu_sloped::<S>(before, after, x, slope, y->Ok_0, r)
        }
}

/// The value `y`, recorded with its local derivative.
pub open spec fn leaky_relu_sloped<S: Scalars>(
    before: Seq<Node<S>>,
    after: Seq<Node<S>>,
    x: Model<S>,
    slope: S::D,
    y: Model<S>,
    r: Outcome<S>,
) -> bool {
    exists|o: Outcome<S>| #[trigger]
        leaky_slope_out::<S>(x, slope, o) && sloped_out::<S>(before, after, "leaky_relu"@, x, y, o, r)
}

/// Tracked leaky ReLU.
pub fn leaky_relu<S: Scalars>(
    graph: &mut Graph<S>,
    x: &Tensor<S>,
    slope: S::D,
) -> (r: Result<Tensor<S>, Error>)
    requires
        old(graph).wf(),
        old(graph).owns(x@),
    ensures
        kept::<S>(*old(graph), *final(graph), outcome(r)),
        leaky_relu_tracked::<S>(
            old(graph).nodes(),
            final(graph).nodes(),
            x@,
            slope,
            outcome(r),
        ),
{
    let y: Tensor<S> = match crate::cpu::leaky_relu(x, slope) {
        Ok(t) => t,
        Err(e) => {
            return Err(e);
        },
    };
    if !x.requires_grad() {
        return Ok(y);
    }
    match leaky_slope(x, slope) {
        Ok(gx) => Ok(attach_local(graph, "leaky_relu", x, y, gx)),
        Err(e) => Err(e),
    }
}

/// `y` is zero where `x` is below `low` or above `high`, and one elsewhere.
pub open spec fn inside_of<T, A: Arith<T>>(x: T, low: T, high: T, y: T) -> bool {
    ||| call_ensures(A::above, (low, x), true) && is_zero::<T, A>(y)
    ||| call_ensures(A::above, (x, high), true) && is_zero::<T, A>(y)
    ||| call_ensures(A::above, (low, x), false) && call_ensures(A::above, (x, high), false)
        && is_one::<T, A>(y)
}

fn inside_scalar<T: Copy, A: Arith<T>>(x: T, low: T, high: T) -> (y: T)
    ensures
        inside_of::<T, A>(x, low, high, y),
{
    if A::above(low, x) || A::above(x, high) {
        A::zero()
    } else {
        A::one()
    }
}

/// The local derivative of a clamp, with the limits brought to 32 bits.
pub open spec fn clamp_slope_f32<S: Scalars>(min: S::D, max: S::D) -> spec_fn(S::F, S::F) -> bool {
    |x: S::F, y: S::F|
        exists|low: S::F, high: S::F| #[trigger]
            call_ensures(S::narrow, (min,), low) && #[trigger] call_ensures(
                S::narrow,
                (max,),
                high,
            ) && inside_of::<S::F, S>(x, low, high, y)
}

/// The local derivative of a clamp.
pub open spec fn clamp_slope_f64<S: Scalars>(min: S::D, max: S::D) -> spec_fn(S::D, S::D) -> bool {
    |x: S::D, y: S::D| inside_of::<S::D, S>(x, min, max, y)
}

/// What the local derivative of a clamp comes to.
pub open spec fn clamp_slope_out<S: Scalars>(
    x: Model<S>,
    min: S::D,
    max: S::D,
    r: Outcome<S>,
) -> bool {
    match r {
        Ok(t) => unary_value::<S>(
            x,
            clamp_slope_f32::<S>(min, max),
            clamp_slope_f64::<S>(min, max),
            t,
        ),
        Err(e) => unary_error(e, "clamp"@, x),
    }
}

fn clamp_slope<S: Scalars>(x: &Tensor<S>, min: S::D, max: S::D) -> (r: Result<Tensor<S>, Error>)
    ensures
        clamp_slope_out::<S>(x@, min, max, outcome(r)),
{
    let f = |v: S::F| -> (y: S::F)
        ensures
            (clamp_slope_f32::<S>(min, max))(v, y)
    {
        let low: S::F = S::narrow(min);
        let high: S::F = S::narrow(max);
        inside_scalar::<S::F, S>(v, low, high)
    };
    let g = |v: S::D| -> (y: S::D)
        ensures
            (clamp_slope_f64::<S>(min, max))(v, y)
    {
        inside_scalar::<S::D, S>(v, min, max)
    };
    let r: Result<Tensor<S>, Error> = map_float("clamp", x, f, g);
    proof {
        if r is Ok {
            lemma_unary_weaken::<S>(
                x@,
                |v: S::F, y: S::F| call_ensures(f, (v,), y),
                |v: S::D, y: S::D| call_ensures(g, (v,), y),
                clamp_slope_f32::<S>(min, max),
                clamp_slope_f64::<S>(min, max),
                r->Ok_0@,
            );
        }
    }
    r
}

/// What `clamp` comes to: its value and, in the graph, the local derivative.
pub open spec fn clamp_tracked<S: Scalars>(
    before: Seq<Node<S>>,
    after: Seq<Node<S>>,
    x: Model<S>,
    min: S::D,
    max: S::D,
    r: Outcome<S>,
) -> bool {
    exists|y: Outcome<S>| #[trigger]
        clamp_out::<S>(x, min, max, y) && if !x.in_graph || y is Err {
            after == before && r == y
        } else {
            clamp_sloped::<S>(before, after, x, min, max, y->Ok_0, r)
        }
}

/// The value `y`, recorded with its local derivative.
pub open spec fn clamp_sloped<S: Scalars>(
    before: Seq<Node<S>>,
    after: Seq<Node<S>>,
    x: Model<S>,
    min: S::D,
    max: S::D,
    y: Model<S>,
    r: Outcome<S>,
) -> bool {
    exists|o: Outcome<S>| #[trigger]
        clamp_slope_out::<S>(x, min, max, o) && sloped_out::<S>(before, after, "clamp"@, x, y, o, r)
}

/// Tracked clamp to `[min, max]`.
pub fn clamp<S: Scalars>(
    graph: &mut Graph<S>,
    x: &Tensor<S>,
    min: S::D,
    max: S::D,
) -> (r: Result<Tensor<S>, Error>)
    requires
        old(graph).wf(),
        old(graph).owns(x@),
        bounds_ready::<S>(x@, min, max),
    ensures
        kept::<S>(*old(graph), *final(graph), outcome(r)),
        clamp_tracked::<S>(
            old(graph).nodes(),
            final(graph).nodes(),
            x@,
            min,
            max,
            outcome(r),
        ),
{
    let y: Tensor<S> = match crate::cpu::clamp(x, min, max) {
        Ok(t) => t,
        Err(e) => {
            return Err(e);
        },
    };
    if !x.requires_grad() {
        return Ok(y);
    }
    match clamp_slope(x, min, max) {
        Ok(gx) => Ok(attach_local(graph, "clamp", x, y, gx)),
        Err(e) => Err(e),
    }
}

/// What `sum` comes to.
pub open spec fn sum_tracked<S: Scalars>(
    before: Seq<Node<S>>,
    after: Seq<Node<S>>,
    x: Model<S>,
    axes: Option<Seq<isize>>,
    keepdims: bool,
    r: Outcome<S>,
) -> bool {
    if !axes_named(axes, x.shape.len() as int) {
        after == before && r is Err && axes_error(
            r->Err_0,
            axes,
            x.shape.len() as int,
            "sum"@,
        )
    } else {
        exists|y: Outcome<S>| #[trigger]
            sum_out::<S>(x, axes, keepdims, y) && tracked_out::<S>(
                before,
                after,
                x.in_graph,
                y,
                seq![x],
                RuleModel::Sum {
                    shape: x.shape,
                    marks: marked(asked_axes(axes, x.shape.len()), x.shape.len()),
                    keep: keepdims,
                },
                r,
            )
    }
}

/// Tracked summation over `axes` (`None` = all).
pub fn sum<S: Scalars>(
    graph: &mut Graph<S>,
    x: &Tensor<S>,
    axes: Option<&[isize]>,
    keepdims: bool,
) -> (r: Result<Tensor<S>, Error>)
    requires
        old(graph).wf(),
        old(graph).owns(x@),
    ensures
        kept::<S>(*old(graph), *final(graph), outcome(r)),
        sum_tracked::<S>(
            old(graph).nodes(),
            final(graph).nodes(),
            x@,
            seen(axes),
            keepdims,
            outcome(r),
        ),
{
    let named: Vec<usize> = match named_axes(axes, x.rank(), "sum") {
        Ok(v) => v,
        Err(e) => {
            return Err(e);
        },
    };
    let y: Tensor<S> = match crate::reduce::sum(x, axes, keepdims) {
        Ok(t) => t,
        Err(e) => {
            return Err(e);
        },
    };
    if !x.requires_grad() {
        return Ok(y);
    }
    let marks: Vec<bool> = match reduce_axes(x.shape(), named.as_slice(), keepdims) {
        Ok(p) => p.0,
        Err(e) => {
            return Err(e);
        },
    };
    let parents: Vec<Tensor<S>> = one_part(x.clone());
    let rule: Rule<S> = Rule::Sum { shape: copied(x.shape()), marks, keep: keepdims };
    Ok(attach(graph, y, parents, rule))
}

/// Multiplying by the size of an axis.
pub open spec fn times_size<S: Scalars>(shape: Seq<usize>) -> spec_fn(S::D, usize, S::D) -> bool {
    |p: S::D, u: usize, q: S::D|
        exists|c: S::D| #[trigger]
            call_ensures(<S as Arith<S::D>>::count, (shape[u as int],), c) && is_product::<
                S::D,
                S,
            >(p, c, q)
}

/// `n` is the product of the sizes of the axes, from one on.
pub open spec fn axes_count<S: Scalars>(shape: Seq<usize>, axes: Seq<usize>, n: S::D) -> bool {
    exists|one: S::D| #[trigger]
        is_one::<S::D, S>(one) && folds(
            times_size::<S>(shape),
            axes,
            every(),
            axes.len() as int,
            one,
            n,
        )
}

fn count_axes<S: Scalars>(shape: &[usize], axes: &[usize]) -> (n: S::D)
    requires
        forall|j: int| 0 <= j < axes@.len() ==> #[trigger] axes@[j] < shape@.len(),
    ensures
        axes_count::<S>(shape@, axes@, n),
{
    let one: S::D = <S as Arith<S::D>>::one();
    assert(is_one::<S::D, S>(one));
    let ghost step = times_size::<S>(shape@);
    let mut n: S::D = one;
    let mut i: usize = 0;
    proof {
        lemma_folds_start(step, axes@, every(), one);
    }
    while i < axes.len()
        invariant
            i <= axes@.len(),
            forall|j: int| 0 <= j < axes@.len() ==> #[trigger] axes@[j] < shape@.len(),
            step == times_size::<S>(shape@),
            folds(step, axes@, every(), i as int, one, n),
        decreases axes@.len() - i,
    {
        let ghost p = n;
        let c: S::D = <S as Arith<S::D>>::count(shape[axes[i]]);
        n = <S as Arith<S::D>>::times(n, c);
        proof {
            assert(step(p, axes@[i as int], n));
            lemma_folds_step(step, axes@, every(), i as int, one, p, n);
        }
        i = i + 1;
    }
    n
}

/// What `mean` comes to.
pub open spec fn mean_tracked<S: Scalars>(
    before: Seq<Node<S>>,
    after: Seq<Node<S>>,
    x: Model<S>,
    axes: Option<Seq<isize>>,
    keepdims: bool,
    r: Outcome<S>,
) -> bool {
    if !axes_named(axes, x.shape.len() as int) {
        after == before && r is Err && axes_error(
            r->Err_0,
            axes,
            x.shape.len() as int,
            "mean"@,
        )
    } else {
        exists|y: Outcome<S>| #[trigger]
            mean_out::<S>(x, axes, keepdims, y) && if !x.in_graph || y is Err {
                after == before && r == y
            } else {
                mean_recorded::<S>(before, after, x, axes, keepdims, y->Ok_0, r)
            }
    }
}

/// The mean `y`, recorded with the number of elements that it is over.
pub open spec fn mean_recorded<S: Scalars>(
    before: Seq<Node<S>>,
    after: Seq<Node<S>>,
    x: Model<S>,
    axes: Option<Seq<isize>>,
    keepdims: bool,
    y: Model<S>,
    r: Outcome<S>,
) -> bool {
    exists|n: S::D| #[trigger]
        axes_count::<S>(x.shape, asked_axes(axes, x.shape.len()), n) && recorded::<S>(
            before,
            after,
            seq![x],
            RuleModel::Mean {
                shape: x.shape,
                marks: marked(asked_axes(axes, x.shape.len()), x.shape.len()),
                keep: keepdims,
                n,
            },
        ) && gives(r, produced::<S>(y, before.len() as int))
}

/// Tracked arithmetic mean over `axes` (`None` = all).
pub fn mean<S: Scalars>(
    graph: &mut Graph<S>,
    x: &Tensor<S>,
    axes: Option<&[isize]>,
    keepdims: bool,
) -> (r: Result<Tensor<S>, Error>)
    requires
        old(graph).wf(),
        old(graph).owns(x@),
    ensures
        kept::<S>(*old(graph), *final(graph), outcome(r)),
        mean_tracked::<S>(
            old(graph).nodes(),
            final(graph).nodes(),
            x@,
            seen(axes),
            keepdims,
            outcome(r),
        ),
{
    let named: Vec<usize> = match named_axes(axes, x.rank(), "mean") {
        Ok(v) => v,
        Err(e) => {
            return Err(e);
        },
    };
    let y: Tensor<S> = match crate::reduce::mean(x, axes, keepdims) {
        Ok(t) => t,
        Err(e) => {
            return Err(e);
        },
    };
    if !x.requires_grad() {
        return Ok(y);
    }
    let marks: Vec<bool> = match reduce_axes(x.shape(), named.as_slice(), keepdims) {
        Ok(p) => p.0,
        Err(e) => {
            return Err(e);
        },
    };
    proof {
        crate::reduce::lemma_asked_range(seen(axes), x@.shape.len());
    }
    let n: S::D = count_axes::<S>(x.shape(), named.as_slice());
    let parents: Vec<Tensor<S>> = one_part(x.clone());
    let rule: Rule<S> = Rule::Mean { shape: copied(x.shape()), marks, keep: keepdims, n };
    Ok(attach(graph, y, parents, rule))
}

/// What `stop_gradient` comes to: the same value, recorded with a rule that gives zeros.
pub open spec fn stop_gradient_tracked<S: Scalars>(
    before: Seq<Node<S>>,
    after: Seq<Node<S>>,
    x: Model<S>,
    r: Outcome<S>,
) -> bool {
    tracked_out::<S>(
        before,
        after,
        x.in_graph,
        Ok(x.detached()),
        seq![x],
        RuleModel::Stop,
        r,
    )
}

/// The same values; the cotangent that they pass on is zero.
pub fn stop_gradient<S: Scalars>(
    graph: &mut Graph<S>,
    x: &Tensor<S>,
) -> (r: Result<Tensor<S>, Error>)
    requires
        old(graph).wf(),
        old(graph).owns(x@),
    ensures
        kept::<S>(*old(graph), *final(graph), outcome(r)),
        stop_gradient_tracked::<S>(
            old(graph).nodes(),
            final(graph).nodes(),
            x@,
            outcome(r),
        ),
{
    let y: Tensor<S> = x.detach();
    if !x.requires_grad() {
        return Ok(y);
    }
    let parents: Vec<Tensor<S>> = one_part(x.clone());
    Ok(attach(graph, y, parents, Rule::Stop))
}

/// Drops a tensor from the graph. Unlike [`stop_gradient`] this records nothing.
pub fn detach<S: Scalars>(x: &Tensor<S>) -> (r: Tensor<S>)
    ensures
        r@ == x@.detached(),
{
    x.detach()
}

/// What `identity` comes to: the same value, recorded with a rule that passes the cotangent on.
pub open spec fn identity_tracked<S: Scalars>(
    before: Seq<Node<S>>,
    after: Seq<Node<S>>,
    x: Model<S>,
    r: Outcome<S>,
) -> bool {
    tracked_out::<S>(before, after, x.in_graph, Ok(x), seq![x], RuleModel::Same, r)
}

/// The same value, as a node of its own.
pub fn identity<S: Scalars>(
    graph: &mut Graph<S>,
    x: &Tensor<S>,
) -> (r: Result<Tensor<S>, Error>)
    requires
        old(graph).wf(),
        old(graph).owns(x@),
    ensures
        kept::<S>(*old(graph), *final(graph), outcome(r)),
        identity_tracked::<S>(
            old(graph).nodes(),
            final(graph).nodes(),
            x@,
            outcome(r),
        ),
{
    let y: Tensor<S> = x.clone();
    if !x.requires_grad() {
        return Ok(y);
    }
    let parents: Vec<Tensor<S>> = one_part(x.clone());
    Ok(attach(graph, y, parents, Rule::Same))
}

} // verus!
