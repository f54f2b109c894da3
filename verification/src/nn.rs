//! Building blocks of networks.
use vstd::prelude::*;
use crate::ad::{
    add_tracked, div, div_tracked, goes_on, matmul_tracked, mean, mean_tracked, mul_tracked,
    relu_tracked, sub_tracked, sum, sum_tracked, take, take_tracked, tanh_tracked,
};
use crate::ad_composed::{is_constant, neg, neg_tracked, stddev, stddev_tracked};
use crate::classes::{minus_one, reduced, reduced_tracked, Reduce};
use crate::dtype::Dtype;
use crate::elementwise::{lemma_unary_weaken, map_float, unary_error, unary_value};
use crate::error::{Error, ErrorKind};
use crate::nodes::{kept, Graph, Node};
use crate::reduce::seen;
use crate::routes::flat_shape;
use crate::scalar::{is_ratio, is_sum, Arith, Scalars};
use crate::softmax::{log_softmax, log_softmax_tracked, softmax, softmax_tracked};
use crate::storage::Data;
use crate::tensor::{gives, outcome, Model, Outcome, Tensor};
use crate::text::{decimal, push_decimal, with_two_numbers};
use crate::views::reshape_out;

verus! {

/// The text of an input that does not fit a weight.
pub open spec fn linear_message(inner: usize, rows: usize, columns: usize) -> Seq<char> {
    "x[..., "@ + decimal(inner as nat) + "] vs w["@ + decimal(rows as nat) + ", "@ + decimal(
        columns as nat,
    ) + "]"@
}

/// The weights are a matrix with a row for every element of the last axis.
pub open spec fn linear_fits(x: Seq<usize>, w: Seq<usize>) -> bool {
    w.len() == 2 && x.len() > 0 && x.last() == w[0]
}

/// Why there is no affine map.
pub open spec fn linear_error(e: Error, x: Seq<usize>, w: Seq<usize>) -> bool {
    e.says(
        ErrorKind::Shape,
        "linear"@,
        if w.len() != 2 {
            "w must be rank 2 [in, out]"@
        } else if x.len() == 0 {
            "x rank >= 1"@
        } else {
            linear_message(x.last(), w[0], w[1])
        },
    )
}

/// Whether the weights fit the input of an affine map.
pub fn check_linear(x: &[usize], w: &[usize]) -> (r: Result<(), Error>)
    ensures
        match r {
            Ok(_) => linear_fits(x@, w@),
            Err(e) => !linear_fits(x@, w@) && linear_error(e, x@, w@),
        },
{
    if w.len() != 2 {
        return Err(Error::shape("linear", "w must be rank 2 [in, out]".to_owned()));
    }
    if x.len() == 0 {
        return Err(Error::shape("linear", "x rank >= 1".to_owned()));
    }
    let inner: usize = x[x.len() - 1];
    if inner != w[0] {
        let mut text: String = with_two_numbers("x[..., ", inner, "] vs w[", w[0]);
        text.append(", ");
        push_decimal(&mut text, w[1] as u128);
        text.append("]");
        return Err(Error::shape("linear", text));
    }
    Ok(())
}

/// The product, with the bias where there is one.
pub open spec fn biased_tracked<S: Scalars>(
    before: Seq<Node<S>>,
    after: Seq<Node<S>>,
    y: Model<S>,
    b: Option<Model<S>>,
    r: Outcome<S>,
) -> bool {
    match b {
        Some(bias) => add_tracked::<S>(before, after, y, bias, r),
        None => after == before && gives(r, y),
    }
}

/// What an optional tensor holds.
pub open spec fn given<S: Scalars>(b: Option<&Tensor<S>>) -> Option<Model<S>> {
    match b {
        Some(t) => Some(t@),
        None => None,
    }
}

/// What `linear` comes to.
pub open spec fn linear_tracked<S: Scalars>(
    before: Seq<Node<S>>,
    after: Seq<Node<S>>,
    x: Model<S>,
    w: Model<S>,
    b: Option<Model<S>>,
    r: Outcome<S>,
) -> bool {
    if !linear_fits(x.shape, w.shape) {
        after == before && r is Err && linear_error(r->Err_0, x.shape, w.shape)
    } else {
        exists|mid: Seq<Node<S>>, o: Outcome<S>| #[trigger]
            matmul_tracked::<S>(before, mid, x, w, o) && goes_on(
                o,
                mid,
                r,
                after,
                biased_tracked::<S>(mid, after, o->Ok_0, b, r),
            )
    }
}

/// Affine map `x @ w + b` with `w` shaped `[in, out]`.
pub fn linear<S: Scalars>(
    graph: &mut Graph<S>,
    x: &Tensor<S>,
    w: &Tensor<S>,
    b: Option<&Tensor<S>>,
) -> (r: Result<Tensor<S>, Error>)
    requires
        old(graph).wf(),
        old(graph).owns(x@),
        old(graph).owns(w@),
        b matches Some(t) ==> old(graph).owns(t@),
    ensures
        kept::<S>(*old(graph), *final(graph), outcome(r)),
        linear_tracked::<S>(
            old(graph).nodes(),
            final(graph).nodes(),
            x@,
            w@,
            given(b),
            outcome(r),
        ),
{
    match check_linear(x.shape(), w.shape()) {
        Ok(_) => {},
        Err(e) => {
            return Err(e);
        },
    }
    let y: Tensor<S> = match crate::ad::matmul(graph, x, w) {
        Ok(t) => t,
        Err(e) => {
            return Err(e);
        },
    };
    match b {
        Some(bias) => crate::ad::add(graph, &y, bias),
        None => Ok(y),
    }
}

/// Tracked ReLU.
pub fn relu<S: Scalars>(
    graph: &mut Graph<S>,
    x: &Tensor<S>,
) -> (r: Result<Tensor<S>, Error>)
    requires
        old(graph).wf(),
        old(graph).owns(x@),
    ensures
        kept::<S>(*old(graph), *final(graph), outcome(r)),
        relu_tracked::<S>(
            old(graph).nodes(),
            final(graph).nodes(),
            x@,
            outcome(r),
        ),
{
    crate::ad::relu(graph, x)
}

/// Tracked hyperbolic tangent.
pub fn tanh<S: Scalars>(
    graph: &mut Graph<S>,
    x: &Tensor<S>,
) -> (r: Result<Tensor<S>, Error>)
    requires
        old(graph).wf(),
        old(graph).owns(x@),
    ensures
        kept::<S>(*old(graph), *final(graph), outcome(r)),
        tanh_tracked::<S>(
            old(graph).nodes(),
            final(graph).nodes(),
            x@,
            outcome(r),
        ),
{
    crate::ad::tanh(graph, x)
}

/// What `mse_loss` comes to.
pub open spec fn mse_loss_tracked<S: Scalars>(
    before: Seq<Node<S>>,
    after: Seq<Node<S>>,
    pred: Model<S>,
    target: Model<S>,
    reduction: Reduce,
    r: Outcome<S>,
) -> bool {
    exists|mid: Seq<Node<S>>, o: Outcome<S>| #[trigger]
        sub_tracked::<S>(before, mid, pred, target.detached(), o) && goes_on(
            o,
            mid,
            r,
            after,
            mse_loss_square::<S>(mid, after, reduction, o->Ok_0, r),
        )
}

/// The rest of it, once `diff` is there.
pub open spec fn mse_loss_square<S: Scalars>(
    before: Seq<Node<S>>,
    after: Seq<Node<S>>,
    reduction: Reduce,
    diff: Model<S>,
    r: Outcome<S>,
) -> bool {
    exists|mid: Seq<Node<S>>, o: Outcome<S>| #[trigger]
        mul_tracked::<S>(before, mid, diff, diff, o) && goes_on(
            o,
            mid,
            r,
            after,
            mse_loss_reduced::<S>(mid, after, reduction, o->Ok_0, r),
        )
}

/// The rest of it, once `sq` is there.
pub open spec fn mse_loss_reduced<S: Scalars>(
    before: Seq<Node<S>>,
    after: Seq<Node<S>>,
    reduction: Reduce,
    sq: Model<S>,
    r: Outcome<S>,
) -> bool {
    reduced_tracked::<S>(before, after, sq, reduction, r)
}

/// Mean squared error. The target is taken out of the graph.
pub fn mse_loss<S: Scalars>(
    graph: &mut Graph<S>,
    pred: &Tensor<S>,
    target: &Tensor<S>,
    reduction: Reduce,
) -> (r: Result<Tensor<S>, Error>)
    requires
        old(graph).wf(),
        old(graph).owns(pred@),
        old(graph).owns(target@),
    ensures
        kept::<S>(*old(graph), *final(graph), outcome(r)),
        mse_loss_tracked::<S>(
            old(graph).nodes(),
            final(graph).nodes(),
            pred@,
            target@,
            reduction,
            outcome(r),
        ),
{
    let diff: Tensor<S> = match crate::ad::sub(graph, pred, &target.detach()) {
        Ok(t) => t,
        Err(e) => {
            return Err(e);
        },
    };
    let sq: Tensor<S> = match crate::ad::mul(graph, &diff, &diff) {
        Ok(t) => t,
        Err(e) => {
            return Err(e);
        },
    };
    reduced(graph, sq, reduction)
}

/// `y` is the root of `x + e`.
pub open spec fn shifted_root_of<T, A: Arith<T>>(x: T, e: T, y: T) -> bool {
    exists|s: T| #[trigger] is_sum::<T, A>(x, e, s) && call_ensures(A::root, (s,), y)
}

/// The root of `x + eps`, with `eps` brought to 32 bits.
pub open spec fn shifted_root_f32<S: Scalars>(eps: S::D) -> spec_fn(S::F, S::F) -> bool {
    |x: S::F, y: S::F|
        exists|e: S::F| #[trigger]
            call_ensures(S::narrow, (eps,), e) && shifted_root_of::<S::F, S>(x, e, y)
}

/// The root of `x + eps`.
pub open spec fn shifted_root_f64<S: Scalars>(eps: S::D) -> spec_fn(S::D, S::D) -> bool {
    |x: S::D, y: S::D| shifted_root_of::<S::D, S>(x, eps, y)
}

fn shifted_root_scalar<T: Copy, A: Arith<T>>(x: T, e: T) -> (y: T)
    ensures
        shifted_root_of::<T, A>(x, e, y),
{
    let s: T = A::plus(x, e);
    assert(is_sum::<T, A>(x, e, s));
    A::root(s)
}

/// What the root of `x + eps` comes to, elementwise.
pub open spec fn shifted_root_out<S: Scalars>(x: Model<S>, eps: S::D, r: Outcome<S>) -> bool {
    match r {
        Ok(t) => unary_value::<S>(x, shifted_root_f32::<S>(eps), shifted_root_f64::<S>(eps), t),
        Err(e) => unary_error(e, "layer_norm"@, x),
    }
}

fn shifted_root<S: Scalars>(x: &Tensor<S>, eps: S::D) -> (r: Result<Tensor<S>, Error>)
    ensures
        shifted_root_out::<S>(x@, eps, outcome(r)),
{
    let f = |v: S::F| -> (y: S::F)
        ensures
            (shifted_root_f32::<S>(eps))(v, y)
    {
        let e: S::F = S::narrow(eps);
        shifted_root_scalar::<S::F, S>(v, e)
    };
    let g = |v: S::D| -> (y: S::D)
        ensures
            (shifted_root_f64::<S>(eps))(v, y)
    { shifted_root_scalar::<S::D, S>(v, eps) };
    let r: Result<Tensor<S>, Error> = map_float("layer_norm", x, f, g);
    proof {
        if r is Ok {
            lemma_unary_weaken::<S>(
                x@,
                |v: S::F, y: S::F| call_ensures(f, (v,), y),
                |v: S::D, y: S::D| call_ensures(g, (v,), y),
                shifted_root_f32::<S>(eps),
                shifted_root_f64::<S>(eps),
                r->Ok_0@,
            );
        }
    }
    r
}

/// The last axis, counted from the first.
pub open spec fn last_alone(rank: nat) -> Option<Seq<isize>> {
    Some(seq![(rank - 1) as isize])
}

/// Tracked mean over one axis, which stays.
fn mean_along<S: Scalars>(graph: &mut Graph<S>, x: &Tensor<S>, rank: usize) -> (r: Result<
    Tensor<S>,
    Error,
>)
    requires
        old(graph).wf(),
        old(graph).owns(x@),
        rank > 0,
    ensures
        kept::<S>(*old(graph), *final(graph), outcome(r)),
        mean_tracked::<S>(
            old(graph).nodes(),
            final(graph).nodes(),
            x@,
            last_alone(rank as nat),
            true,
            outcome(r),
        ),
{
    let axes: [isize; 1] = [(rank - 1) as isize];
    let asked: Option<&[isize]> = Some(&axes);
    assert(axes@ =~= seq![(rank - 1) as isize]);
    assert(seen(asked) == last_alone(rank as nat));
    mean(graph, x, asked, true)
}

/// What the normalization of `x` over its last axis comes to: less the mean, over the root of the
/// variance and `eps`. The root stays out of the graph.
pub open spec fn normalize_tracked<S: Scalars>(
    before: Seq<Node<S>>,
    after: Seq<Node<S>>,
    x: Model<S>,
    eps: S::D,
    r: Outcome<S>,
) -> bool {
    exists|mid: Seq<Node<S>>, o: Outcome<S>| #[trigger]
        mean_tracked::<S>(before, mid, x, last_alone(x.shape.len()), true, o) && goes_on(
            o,
            mid,
            r,
            after,
            normalize_centered::<S>(mid, after, x, eps, o->Ok_0, r),
        )
}

/// The rest of it, once `m` is there.
pub open spec fn normalize_centered<S: Scalars>(
    before: Seq<Node<S>>,
    after: Seq<Node<S>>,
    x: Model<S>,
    eps: S::D,
    m: Model<S>,
    r: Outcome<S>,
) -> bool {
    exists|mid: Seq<Node<S>>, o: Outcome<S>| #[trigger]
        sub_tracked::<S>(before, mid, x, m, o) && goes_on(
            o,
            mid,
            r,
            after,
            normalize_squares::<S>(mid, after, x, eps, o->Ok_0, r),
        )
}

/// The rest of it, once `xc` is there.
pub open spec fn normalize_squares<S: Scalars>(
    before: Seq<Node<S>>,
    after: Seq<Node<S>>,
    x: Model<S>,
    eps: S::D,
    xc: Model<S>,
    r: Outcome<S>,
) -> bool {
    exists|mid: Seq<Node<S>>, o: Outcome<S>| #[trigger]
        mul_tracked::<S>(before, mid, xc, xc, o) && goes_on(
            o,
            mid,
            r,
            after,
            normalize_variance::<S>(mid, after, x, eps, xc, o->Ok_0, r),
        )
}

/// The rest of it, once `sq` is there.
pub open spec fn normalize_variance<S: Scalars>(
    before: Seq<Node<S>>,
    after: Seq<Node<S>>,
    x: Model<S>,
    eps: S::D,
    xc: Model<S>,
    sq: Model<S>,
    r: Outcome<S>,
) -> bool {
    exists|mid: Seq<Node<S>>, o: Outcome<S>| #[trigger]
        mean_tracked::<S>(before, mid, sq, last_alone(x.shape.len()), true, o) && goes_on(
            o,
            mid,
            r,
            after,
            normalize_root::<S>(mid, after, eps, xc, o->Ok_0, r),
        )
}

/// The rest of it, once `var` is there.
pub open spec fn normalize_root<S: Scalars>(
    before: Seq<Node<S>>,
    after: Seq<Node<S>>,
    eps: S::D,
    xc: Model<S>,
    var: Model<S>,
    r: Outcome<S>,
) -> bool {
    exists|o: Outcome<S>| #[trigger]
        shifted_root_out::<S>(var, eps, o) && goes_on(
            o,
            before,
            r,
            after,
            normalize_quotient::<S>(before, after, xc, o->Ok_0, r),
        )
}

/// The rest of it, once `denom` is there.
pub open spec fn normalize_quotient<S: Scalars>(
    before: Seq<Node<S>>,
    after: Seq<Node<S>>,
    xc: Model<S>,
    denom: Model<S>,
    r: Outcome<S>,
) -> bool {
    div_tracked::<S>(before, after, xc, denom, r)
}

/// Last-axis normalization of a tensor that has axes.
fn normalize<S: Scalars>(
    graph: &mut Graph<S>,
    x: &Tensor<S>,
    eps: S::D,
) -> (r: Result<Tensor<S>, Error>)
    requires
        old(graph).wf(),
        old(graph).owns(x@),
        x@.shape.len() > 0,
    ensures
        kept::<S>(*old(graph), *final(graph), outcome(r)),
        normalize_tracked::<S>(
            old(graph).nodes(),
            final(graph).nodes(),
            x@,
            eps,
            outcome(r),
        ),
{
    let m: Tensor<S> = match mean_along(graph, x, x.rank()) {
        Ok(t) => t,
        Err(e) => {
            return Err(e);
        },
    };
    let xc: Tensor<S> = match crate::ad::sub(graph, x, &m) {
        Ok(t) => t,
        Err(e) => {
            return Err(e);
        },
    };
    let sq: Tensor<S> = match crate::ad::mul(graph, &xc, &xc) {
        Ok(t) => t,
        Err(e) => {
            return Err(e);
        },
    };
    let var: Tensor<S> = match mean_along(graph, &sq, x.rank()) {
        Ok(t) => t,
        Err(e) => {
            return Err(e);
        },
    };
    let denom: Tensor<S> = match shifted_root(&var, eps) {
        Ok(t) => t,
        Err(e) => {
            return Err(e);
        },
    };
    div(graph, &xc, &denom)
}

/// What `layer_norm` comes to.
pub open spec fn layer_norm_tracked<S: Scalars>(
    before: Seq<Node<S>>,
    after: Seq<Node<S>>,
    x: Model<S>,
    eps: S::D,
    r: Outcome<S>,
) -> bool {
    if x.shape.len() == 0 {
        after == before && r is Err && r->Err_0.says(ErrorKind::Shape, "layer_norm"@, "rank >= 1"@)
    } else {
        normalize_tracked::<S>(before, after, x, eps, r)
    }
}

/// Last-axis layer norm without learned scale or bias.
pub fn layer_norm<S: Scalars>(
    graph: &mut Graph<S>,
    x: &Tensor<S>,
    eps: S::D,
) -> (r: Result<Tensor<S>, Error>)
    requires
        old(graph).wf(),
        old(graph).owns(x@),
    ensures
        kept::<S>(*old(graph), *final(graph), outcome(r)),
        layer_norm_tracked::<S>(
            old(graph).nodes(),
            final(graph).nodes(),
            x@,
            eps,
            outcome(r),
        ),
{
    if x.rank() == 0 {
        return Err(Error::shape("layer_norm", "rank >= 1".to_owned()));
    }
    normalize(graph, x, eps)
}

fn flatten<S: Scalars>(x: &Tensor<S>) -> (r: Result<Tensor<S>, Error>)
    ensures
        reshape_out::<S>(x@, flat_shape(), outcome(r)),
{
    let one: [isize; 1] = [-1];
    assert(one@ =~= flat_shape());
    x.reshape(&one)
}

/// The last axis, counted from the end.
pub open spec fn end_alone() -> Option<Seq<isize>> {
    Some(seq![minus_one()])
}

/// Tracked sum over the last axis.
fn sum_last<S: Scalars>(graph: &mut Graph<S>, x: &Tensor<S>) -> (r: Result<Tensor<S>, Error>)
    requires
        old(graph).wf(),
        old(graph).owns(x@),
    ensures
        kept::<S>(*old(graph), *final(graph), outcome(r)),
        sum_tracked::<S>(
            old(graph).nodes(),
            final(graph).nodes(),
            x@,
            end_alone(),
            false,
            outcome(r),
        ),
{
    let axes: [isize; 1] = [-1];
    let asked: Option<&[isize]> = Some(&axes);
    assert(minus_one() == -1);
    assert(axes@ =~= seq![minus_one()]);
    assert(seen(asked) == end_alone());
    sum(graph, x, asked, false)
}

/// What `categorical_log_prob` comes to.
pub open spec fn categorical_log_prob_tracked<S: Scalars>(
    before: Seq<Node<S>>,
    after: Seq<Node<S>>,
    logits: Model<S>,
    actions: Model<S>,
    r: Outcome<S>,
) -> bool {
    exists|mid: Seq<Node<S>>, o: Outcome<S>| #[trigger]
        log_softmax_tracked::<S>(before, mid, logits, minus_one(), o) && goes_on(
            o,
            mid,
            r,
            after,
            categorical_taken::<S>(mid, after, actions, o->Ok_0, r),
        )
}

/// The rest of it, once `lp` is there.
pub open spec fn categorical_taken<S: Scalars>(
    before: Seq<Node<S>>,
    after: Seq<Node<S>>,
    actions: Model<S>,
    lp: Model<S>,
    r: Outcome<S>,
) -> bool {
    exists|mid: Seq<Node<S>>, o: Outcome<S>| #[trigger]
        take_tracked::<S>(before, mid, lp, 1, actions, o) && goes_on(
            o,
            mid,
            r,
            after,
            categorical_flat::<S>(mid, after, o->Ok_0, r),
        )
}

/// The rest of it, once `t` is there.
pub open spec fn categorical_flat<S: Scalars>(
    before: Seq<Node<S>>,
    after: Seq<Node<S>>,
    t: Model<S>,
    r: Outcome<S>,
) -> bool {
    after == before && reshape_out::<S>(t, flat_shape(), r)
}

/// `log p(a | logits)` for a batch of class indices.
pub fn categorical_log_prob<S: Scalars>(
    graph: &mut Graph<S>,
    logits: &Tensor<S>,
    actions: &Tensor<S>,
) -> (r: Result<Tensor<S>, Error>)
    requires
        old(graph).wf(),
        old(graph).owns(logits@),
        old(graph).owns(actions@),
    ensures
        kept::<S>(*old(graph), *final(graph), outcome(r)),
        categorical_log_prob_tracked::<S>(
            old(graph).nodes(),
            final(graph).nodes(),
            logits@,
            actions@,
            outcome(r),
        ),
{
    assert(minus_one() == -1);
    let lp: Tensor<S> = match log_softmax(graph, logits, -1) {
        Ok(t) => t,
        Err(e) => {
            return Err(e);
        },
    };
    let t: Tensor<S> = match take(graph, &lp, 1, actions) {
        Ok(t) => t,
        Err(e) => {
            return Err(e);
        },
    };
    flatten(&t)
}

/// What `categorical_entropy` comes to.
pub open spec fn categorical_entropy_tracked<S: Scalars>(
    before: Seq<Node<S>>,
    after: Seq<Node<S>>,
    logits: Model<S>,
    r: Outcome<S>,
) -> bool {
    exists|mid: Seq<Node<S>>, o: Outcome<S>| #[trigger]
        softmax_tracked::<S>(before, mid, logits, minus_one(), o) && goes_on(
            o,
            mid,
            r,
            after,
            entropy_logarithms::<S>(mid, after, logits, o->Ok_0, r),
        )
}

/// The rest of it, once `p` is there.
pub open spec fn entropy_logarithms<S: Scalars>(
    before: Seq<Node<S>>,
    after: Seq<Node<S>>,
    logits: Model<S>,
    p: Model<S>,
    r: Outcome<S>,
) -> bool {
    exists|mid: Seq<Node<S>>, o: Outcome<S>| #[trigger]
        log_softmax_tracked::<S>(before, mid, logits, minus_one(), o) && goes_on(
            o,
            mid,
            r,
            after,
            entropy_products::<S>(mid, after, p, o->Ok_0, r),
        )
}

/// The rest of it, once `lp` is there.
pub open spec fn entropy_products<S: Scalars>(
    before: Seq<Node<S>>,
    after: Seq<Node<S>>,
    p: Model<S>,
    lp: Model<S>,
    r: Outcome<S>,
) -> bool {
    exists|mid: Seq<Node<S>>, o: Outcome<S>| #[trigger]
        mul_tracked::<S>(before, mid, p, lp, o) && goes_on(
            o,
            mid,
            r,
            after,
            entropy_sum::<S>(mid, after, o->Ok_0, r),
        )
}

/// The rest of it, once `m` is there.
pub open spec fn entropy_sum<S: Scalars>(
    before: Seq<Node<S>>,
    after: Seq<Node<S>>,
    m: Model<S>,
    r: Outcome<S>,
) -> bool {
    exists|mid: Seq<Node<S>>, o: Outcome<S>| #[trigger]
        sum_tracked::<S>(before, mid, m, end_alone(), false, o) && goes_on(
            o,
            mid,
            r,
            after,
            entropy_negative::<S>(mid, after, o->Ok_0, r),
        )
}

/// The rest of it, once `s` is there.
pub open spec fn entropy_negative<S: Scalars>(
    before: Seq<Node<S>>,
    after: Seq<Node<S>>,
    s: Model<S>,
    r: Outcome<S>,
) -> bool {
    neg_tracked::<S>(before, after, s, r)
}

/// Entropy of `softmax(logits)` per row.
pub fn categorical_entropy<S: Scalars>(
    graph: &mut Graph<S>,
    logits: &Tensor<S>,
) -> (r: Result<Tensor<S>, Error>)
    requires
        old(graph).wf(),
        old(graph).owns(logits@),
    ensures
        kept::<S>(*old(graph), *final(graph), outcome(r)),
        categorical_entropy_tracked::<S>(
            old(graph).nodes(),
            final(graph).nodes(),
            logits@,
            outcome(r),
        ),
{
    assert(minus_one() == -1);
    let p: Tensor<S> = match softmax(graph, logits, -1) {
        Ok(t) => t,
        Err(e) => {
            return Err(e);
        },
    };
    let lp: Tensor<S> = match log_softmax(graph, logits, -1) {
        Ok(t) => t,
        Err(e) => {
            return Err(e);
        },
    };
    let m: Tensor<S> = match crate::ad::mul(graph, &p, &lp) {
        Ok(t) => t,
        Err(e) => {
            return Err(e);
        },
    };
    let s: Tensor<S> = match sum_last(graph, &m) {
        Ok(t) => t,
        Err(e) => {
            return Err(e);
        },
    };
    neg(graph, &s)
}

/// What the number that keeps a deviation from zero, `1e-8`, comes to as a tensor.
pub open spec fn guard_out<S: Scalars>(dtype: Dtype, r: Outcome<S>) -> bool {
    match dtype {
        Dtype::F32 => exists|c: S::F| #[trigger]
            is_ratio::<S::F, S>(1, 100000000, c) && is_constant::<S>(Data::F32(seq![c]), r),
        Dtype::F64 => exists|c: S::D| #[trigger]
            is_ratio::<S::D, S>(1, 100000000, c) && is_constant::<S>(Data::F64(seq![c]), r),
        Dtype::I64 => r is Err && r->Err_0.says(ErrorKind::Dtype, "whiten"@, "float"@),
    }
}

fn guard<S: Scalars>(dtype: Dtype) -> (r: Result<Tensor<S>, Error>)
    ensures
        guard_out::<S>(dtype, outcome(r)),
{
    match dtype {
        Dtype::F32 => {
            let c: S::F = <S as Arith<S::F>>::ratio(1, 100000000);
            assert(is_ratio::<S::F, S>(1, 100000000, c));
            Tensor::scalar_f32(c)
        },
        Dtype::F64 => {
            let c: S::D = <S as Arith<S::D>>::ratio(1, 100000000);
            assert(is_ratio::<S::D, S>(1, 100000000, c));
            Tensor::scalar_f64(c)
        },
        Dtype::I64 => Err(Error::dtype("whiten", "float".to_owned())),
    }
}

/// What `whiten` comes to.
pub open spec fn whiten_tracked<S: Scalars>(
    before: Seq<Node<S>>,
    after: Seq<Node<S>>,
    x: Model<S>,
    r: Outcome<S>,
) -> bool {
    exists|mid: Seq<Node<S>>, o: Outcome<S>| #[trigger]
        mean_tracked::<S>(before, mid, x, None, false, o) && goes_on(
            o,
            mid,
            r,
            after,
            whiten_deviation::<S>(mid, after, x, o->Ok_0, r),
        )
}

/// The rest of it, once `m` is there.
pub open spec fn whiten_deviation<S: Scalars>(
    before: Seq<Node<S>>,
    after: Seq<Node<S>>,
    x: Model<S>,
    m: Model<S>,
    r: Outcome<S>,
) -> bool {
    exists|mid: Seq<Node<S>>, o: Outcome<S>| #[trigger]
        stddev_tracked::<S>(before, mid, x, None, false, o) && goes_on(
            o,
            mid,
            r,
            after,
            whiten_guard::<S>(mid, after, x, m, o->Ok_0, r),
        )
}

/// The rest of it, once `s` is there.
pub open spec fn whiten_guard<S: Scalars>(
    before: Seq<Node<S>>,
    after: Seq<Node<S>>,
    x: Model<S>,
    m: Model<S>,
    s: Model<S>,
    r: Outcome<S>,
) -> bool {
    exists|o: Outcome<S>| #[trigger]
        guard_out::<S>(x.dtype(), o) && goes_on(
            o,
            before,
            r,
            after,
            whiten_centered::<S>(before, after, x, m, s, o->Ok_0, r),
        )
}

/// The rest of it, once `eps` is there.
pub open spec fn whiten_centered<S: Scalars>(
    before: Seq<Node<S>>,
    after: Seq<Node<S>>,
    x: Model<S>,
    m: Model<S>,
    s: Model<S>,
    eps: Model<S>,
    r: Outcome<S>,
) -> bool {
    exists|mid: Seq<Node<S>>, o: Outcome<S>| #[trigger]
        sub_tracked::<S>(before, mid, x, m, o) && goes_on(
            o,
            mid,
            r,
            after,
            whiten_divisor::<S>(mid, after, s, eps, o->Ok_0, r),
        )
}

/// The rest of it, once `c` is there.
pub open spec fn whiten_divisor<S: Scalars>(
    before: Seq<Node<S>>,
    after: Seq<Node<S>>,
    s: Model<S>,
    eps: Model<S>,
    c: Model<S>,
    r: Outcome<S>,
) -> bool {
    exists|mid: Seq<Node<S>>, o: Outcome<S>| #[trigger]
        add_tracked::<S>(before, mid, s, eps, o) && goes_on(
            o,
            mid,
            r,
            after,
            whiten_quotient::<S>(mid, after, c, o->Ok_0, r),
        )
}

/// The rest of it, once `d` is there.
pub open spec fn whiten_quotient<S: Scalars>(
    before: Seq<Node<S>>,
    after: Seq<Node<S>>,
    c: Model<S>,
    d: Model<S>,
    r: Outcome<S>,
) -> bool {
    div_tracked::<S>(before, after, c, d, r)
}

/// Subtracts the mean and divides by the standard deviation (plus `1e-8`).
pub fn whiten<S: Scalars>(
    graph: &mut Graph<S>,
    x: &Tensor<S>,
) -> (r: Result<Tensor<S>, Error>)
    requires
        old(graph).wf(),
        old(graph).owns(x@),
    ensures
        kept::<S>(*old(graph), *final(graph), outcome(r)),
        whiten_tracked::<S>(
            old(graph).nodes(),
            final(graph).nodes(),
            x@,
            outcome(r),
        ),
{
    let m: Tensor<S> = match mean(graph, x, None, false) {
        Ok(t) => t,
        Err(e) => {
            return Err(e);
        },
    };
    let s: Tensor<S> = match stddev(graph, x, None, false) {
        Ok(t) => t,
        Err(e) => {
            return Err(e);
        },
    };
    let eps: Tensor<S> = match guard(x.dtype()) {
        Ok(t) => t,
        Err(e) => {
            return Err(e);
        },
    };
    let c: Tensor<S> = match crate::ad::sub(graph, x, &m) {
        Ok(t) => t,
        Err(e) => {
            return Err(e);
        },
    };
    let d: Tensor<S> = match crate::ad::add(graph, &s, &eps) {
        Ok(t) => t,
        Err(e) => {
            return Err(e);
        },
    };
    div(graph, &c, &d)
}

} // verus!
