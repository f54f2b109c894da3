//! Softmax and log-softmax along an axis.
use vstd::prelude::*;
use crate::cpu::sub_out;
use crate::dtype::Dtype;
use crate::error::{Error, ErrorKind};
use crate::index::fits;
use crate::nodes::{attach, kept, tracked_out, Graph, Node, Rule, RuleModel};
use crate::reduce::{
    axis_maxima, kept_shape, keeping_above, maxima, one_marked, reduce_axes, reduce_entry_ok,
    sum_out,
};
use crate::rows::{log_softmax_last, log_softmax_last_out, softmax_last, softmax_last_out};
use crate::rules::{axis_alone, one_part, sum_kept};
use crate::scalar::Scalars;
use crate::shape::{axis_at, axis_error, axis_ok, normalize_axis, numel};
use crate::storage::Data;
use crate::tensor::{numel_error, outcome, passes, Model, Outcome, Tensor};
use crate::unary::{exp, exp_out, log, log_out};

verus! {

/// What `reduce_max` comes to: the maxima along an axis, from a lowest number on; the axis stays.
pub open spec fn reduce_max_out<S: Scalars>(x: Model<S>, axis: usize, r: Outcome<S>) -> bool {
    let marks = one_marked(x.shape.len(), axis as int);
    let out = kept_shape(x.shape, marks, true);
    match r {
        Ok(t) => {
            &&& fits(out) && t.plain(out) && t.valid() && t.elems() == t.data
            &&& match (x.elems(), t.data) {
                (Data::F32(v), Data::F32(w)) => axis_maxima::<S::F, S>(
                    keeping_above::<S::F, S>(),
                    x.shape,
                    marks,
                    true,
                    v,
                    w,
                ),
                (Data::F64(v), Data::F64(w)) => axis_maxima::<S::D, S>(
                    keeping_above::<S::D, S>(),
                    x.shape,
                    marks,
                    true,
                    v,
                    w,
                ),
                _ => false,
            }
        },
        Err(e) => if x.dtype() == Dtype::I64 {
            e.says(ErrorKind::Dtype, "max"@, "float"@)
        } else {
            !fits(out) && numel_error(e)
        },
    }
}

/// The maxima along an axis, which stays with size one.
pub fn reduce_max<S: Scalars>(x: &Tensor<S>, axis: usize) -> (r: Result<Tensor<S>, Error>)
    requires
        axis < x@.shape.len(),
    ensures
        reduce_max_out::<S>(x@, axis, outcome(r)),
{
    let shape: &[usize] = x.shape();
    let axes: [usize; 1] = [axis];
    if x.dtype() == Dtype::I64 {
        return Err(Error::dtype("max", "float".to_owned()));
    }
    let (marks, out): (Vec<bool>, Vec<usize>) = match reduce_axes(shape, &axes, true) {
        Ok(p) => p,
        Err(e) => {
            proof {
                assert(reduce_entry_ok(axes@, shape@.len() as int, 0));
            }
            return Err(e);
        },
    };
    proof {
        let rank = shape@.len();
        assert forall|k: int| 0 <= k < rank implies crate::reduce::marked(axes@, rank)[k] == (k
            == axis) by {
            if k == axis {
                assert(axes@[0] == k);
            }
        }
        assert(marks@ =~= one_marked(rank, axis as int));
    }
    let n: usize = match numel(out.as_slice()) {
        Ok(n) => n,
        Err(e) => {
            return Err(e);
        },
    };
    match x.dtype() {
        Dtype::F32 => match x.to_vec_f32() {
            Ok(v) => {
                let w: Vec<S::F> = maxima::<S::F, S>(
                    v.as_slice(),
                    shape,
                    marks.as_slice(),
                    n,
                    Ghost(true),
                );
                Tensor::from_vec_f32(w, out.as_slice())
            },
            Err(e) => Err(e),
        },
        _ => match x.to_vec_f64() {
            Ok(v) => {
                let w: Vec<S::D> = maxima::<S::D, S>(
                    v.as_slice(),
                    shape,
                    marks.as_slice(),
                    n,
                    Ghost(true),
                );
                Tensor::from_vec_f64(w, out.as_slice())
            },
            Err(e) => Err(e),
        },
    }
}

/// What `x - max - log(sum(exp(x - max)))` comes to.
pub open spec fn log_by_steps_out<S: Scalars>(
    x: Model<S>,
    axis: usize,
    r: Outcome<S>,
) -> bool {
    exists|o: Outcome<S>| #[trigger]
        reduce_max_out::<S>(x, axis, o) && passes(
            o,
            r,
            log_shifted::<S>(x, axis, o->Ok_0, r),
        )
}

/// The rest of it, once `maxv` is there.
pub open spec fn log_shifted<S: Scalars>(
    x: Model<S>,
    axis: usize,
    maxv: Model<S>,
    r: Outcome<S>,
) -> bool {
    exists|o: Outcome<S>| #[trigger]
        sub_out::<S>(x, maxv, o) && passes(
            o,
            r,
            log_powers::<S>(axis, o->Ok_0, r),
        )
}

/// The rest of it, once `shifted` is there.
pub open spec fn log_powers<S: Scalars>(
    axis: usize,
    shifted: Model<S>,
    r: Outcome<S>,
) -> bool {
    exists|o: Outcome<S>| #[trigger]
        exp_out::<S>(shifted, o) && passes(
            o,
            r,
            log_total::<S>(axis, shifted, o->Ok_0, r),
        )
}

/// The rest of it, once `ex` is there.
pub open spec fn log_total<S: Scalars>(
    axis: usize,
    shifted: Model<S>,
    ex: Model<S>,
    r: Outcome<S>,
) -> bool {
    exists|o: Outcome<S>| #[trigger]
        sum_out::<S>(ex, axis_alone(axis), true, o) && passes(
            o,
            r,
            log_logarithm::<S>(shifted, o->Ok_0, r),
        )
}

/// The rest of it, once `se` is there.
pub open spec fn log_logarithm<S: Scalars>(
    shifted: Model<S>,
    se: Model<S>,
    r: Outcome<S>,
) -> bool {
    exists|o: Outcome<S>| #[trigger]
        log_out::<S>(se, o) && passes(
            o,
            r,
            log_rest::<S>(shifted, o->Ok_0, r),
        )
}

/// The rest of it, once `lse` is there.
pub open spec fn log_rest<S: Scalars>(
    shifted: Model<S>,
    lse: Model<S>,
    r: Outcome<S>,
) -> bool {
    sub_out::<S>(shifted, lse, r)
}

/// `x - max - log(sum(exp(x - max)))`.
fn log_by_steps<S: Scalars>(
    x: &Tensor<S>,
    axis: usize,
) -> (r: Result<Tensor<S>, Error>)
    requires
        axis < x@.shape.len(),
    ensures
        log_by_steps_out::<S>(x@, axis, outcome(r)),
{
    let maxv: Tensor<S> = match reduce_max(x, axis) {
        Ok(t) => t,
        Err(e) => {
            return Err(e);
        },
    };
    let shifted: Tensor<S> = match crate::cpu::sub(x, &maxv) {
        Ok(t) => t,
        Err(e) => {
            return Err(e);
        },
    };
    let ex: Tensor<S> = match exp(&shifted) {
        Ok(t) => t,
        Err(e) => {
            return Err(e);
        },
    };
    let se: Tensor<S> = match sum_kept(&ex, axis) {
        Ok(t) => t,
        Err(e) => {
            return Err(e);
        },
    };
    let lse: Tensor<S> = match log(&se) {
        Ok(t) => t,
        Err(e) => {
            return Err(e);
        },
    };
    crate::cpu::sub(&shifted, &lse)
}

/// What the log-softmax of `x` along `axis` comes to. Along the last axis of 32-bit data it is taken
/// row by row.
pub open spec fn log_values_out<S: Scalars>(x: Model<S>, axis: isize, r: Outcome<S>) -> bool {
    let rank = x.shape.len() as int;
    let ax = axis_at(axis as int, rank);
    if !axis_ok(axis as int, rank) {
        r is Err && axis_error(r->Err_0, axis as int, rank, "log_softmax"@)
    } else if x.shape[ax] == 0 {
        r is Err && r->Err_0.says(ErrorKind::Shape, "log_softmax"@, "empty axis"@)
    } else if x.dtype() == Dtype::F32 && ax + 1 == rank {
        log_softmax_last_out::<S>(x, r)
    } else {
        log_by_steps_out::<S>(x, ax as usize, r)
    }
}

/// The log-softmax of `x` along `axis`.
pub fn log_values<S: Scalars>(x: &Tensor<S>, axis: isize) -> (r: Result<Tensor<S>, Error>)
    ensures
        log_values_out::<S>(x@, axis, outcome(r)),
{
    let ax: usize = match normalize_axis(axis, x.rank(), "log_softmax") {
        Ok(a) => a,
        Err(e) => {
            return Err(e);
        },
    };
    if x.shape()[ax] == 0 {
        return Err(Error::shape("log_softmax", "empty axis".to_owned()));
    }
    if x.dtype() == Dtype::F32 && ax == x.rank() - 1 {
        return log_softmax_last(x);
    }
    log_by_steps(x, ax)
}

/// What the softmax of `x` along `axis` comes to: along the last axis of 32-bit data row by row, and
/// else the exponential of the log-softmax.
pub open spec fn softmax_values_out<S: Scalars>(x: Model<S>, axis: isize, r: Outcome<S>) -> bool {
    let rank = x.shape.len() as int;
    if !axis_ok(axis as int, rank) {
        r is Err && axis_error(r->Err_0, axis as int, rank, "softmax"@)
    } else if x.dtype() == Dtype::F32 && axis_at(axis as int, rank) + 1 == rank {
        softmax_last_out::<S>(x, r)
    } else {
        powers_out::<S>(x, axis, r)
    }
}

/// What the exponential of the log-softmax comes to.
pub open spec fn powers_out<S: Scalars>(x: Model<S>, axis: isize, r: Outcome<S>) -> bool {
    exists|o: Outcome<S>| #[trigger]
        log_values_out::<S>(x, axis, o) && passes(o, r, exp_out::<S>(o->Ok_0, r))
}

/// The softmax of `x` along `axis`.
pub fn softmax_values<S: Scalars>(x: &Tensor<S>, axis: isize) -> (r: Result<Tensor<S>, Error>)
    ensures
        softmax_values_out::<S>(x@, axis, outcome(r)),
{
    let ax: usize = match normalize_axis(axis, x.rank(), "softmax") {
        Ok(a) => a,
        Err(e) => {
            return Err(e);
        },
    };
    if x.dtype() == Dtype::F32 && ax == x.rank() - 1 {
        return softmax_last(x);
    }
    match log_values(x, axis) {
        Ok(z) => exp(&z),
        Err(e) => Err(e),
    }
}

/// What `log_softmax` comes to.
pub open spec fn log_softmax_tracked<S: Scalars>(
    before: Seq<Node<S>>,
    after: Seq<Node<S>>,
    x: Model<S>,
    axis: isize,
    r: Outcome<S>,
) -> bool {
    exists|y: Outcome<S>| #[trigger]
        log_values_out::<S>(x, axis, y) && tracked_out::<S>(
            before,
            after,
            x.in_graph,
            y,
            seq![x],
            RuleModel::LogSoftmax {
                y: y->Ok_0.detached(),
                axis: axis_at(axis as int, x.shape.len() as int) as usize,
            },
            r,
        )
}

/// Tracked log-softmax along `axis` (stable `x - max - logsumexp`).
pub fn log_softmax<S: Scalars>(
    graph: &mut Graph<S>,
    x: &Tensor<S>,
    axis: isize,
) -> (r: Result<Tensor<S>, Error>)
    requires
        old(graph).wf(),
        old(graph).owns(x@),
    ensures
        kept::<S>(*old(graph), *final(graph), outcome(r)),
        log_softmax_tracked::<S>(
            old(graph).nodes(),
            final(graph).nodes(),
            x@,
            axis,
            outcome(r),
        ),
{
    let y: Tensor<S> = match log_values(x, axis) {
        Ok(t) => t,
        Err(e) => {
            return Err(e);
        },
    };
    if !x.requires_grad() {
        return Ok(y);
    }
    let ax: usize = match normalize_axis(axis, x.rank(), "log_softmax") {
        Ok(a) => a,
        Err(e) => {
            return Err(e);
        },
    };
    let parents: Vec<Tensor<S>> = one_part(x.clone());
    let rule: Rule<S> = Rule::LogSoftmax { y: y.detach(), axis: ax };
    Ok(attach(graph, y, parents, rule))
}

/// What `softmax` comes to.
pub open spec fn softmax_tracked<S: Scalars>(
    before: Seq<Node<S>>,
    after: Seq<Node<S>>,
    x: Model<S>,
    axis: isize,
    r: Outcome<S>,
) -> bool {
    exists|y: Outcome<S>| #[trigger]
        softmax_values_out::<S>(x, axis, y) && tracked_out::<S>(
            before,
            after,
            x.in_graph,
            y,
            seq![x],
            RuleModel::Softmax {
                y: y->Ok_0.detached(),
                axis: axis_at(axis as int, x.shape.len() as int) as usize,
            },
            r,
        )
}

/// Tracked softmax along `axis`.
pub fn softmax<S: Scalars>(
    graph: &mut Graph<S>,
    x: &Tensor<S>,
    axis: isize,
) -> (r: Result<Tensor<S>, Error>)
    requires
        old(graph).wf(),
        old(graph).owns(x@),
    ensures
        kept::<S>(*old(graph), *final(graph), outcome(r)),
        softmax_tracked::<S>(
            old(graph).nodes(),
            final(graph).nodes(),
            x@,
            axis,
            outcome(r),
        ),
{
    let y: Tensor<S> = match softmax_values(x, axis) {
        Ok(t) => t,
        Err(e) => {
            return Err(e);
        },
    };
    if !x.requires_grad() {
        return Ok(y);
    }
    let ax: usize = match normalize_axis(axis, x.rank(), "softmax") {
        Ok(a) => a,
        Err(e) => {
            return Err(e);
        },
    };
    let parents: Vec<Tensor<S>> = one_part(x.clone());
    let rule: Rule<S> = Rule::Softmax { y: y.detach(), axis: ax };
    Ok(attach(graph, y, parents, rule))
}

} // verus!
