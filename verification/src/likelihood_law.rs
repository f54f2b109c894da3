//! The negative log-likelihood and the cross entropy, and what a reduction makes of them.
use vstd::prelude::*;
use crate::ad::{mean_tracked, sum_tracked};
use crate::calculus::{exact, exponents, lemma_negates};
use crate::classes::{
    class_negatives, cross_entropy_loss, cross_entropy_tracked, minus_one, nll_loss_tracked,
    nll_recorded, nll_reduced, nll_values_out, reduced_tracked, vector, Reduce,
};
use crate::index::volume;
use crate::lines::in_line;
use crate::matmul_law::lemma_table;
use crate::nodes::{tracked_out, Node, RuleModel};
use crate::norm_law::alike;
use crate::ring::Ring;
use crate::rules::{from_f32s_out, from_f64s_out};
use crate::scalar::Scalars;
use crate::shape::axis_at;
use crate::softmax::{log_softmax_tracked, log_values_out};
use crate::softmax_values::{
    law_log_softmax_values_f32, law_log_softmax_values_f64, log_probabilities,
};
use crate::tensor::{Model, Outcome};

verus! {

/// The negative log-likelihood with a reduction is the sum, or the mean, of the unreduced one.
pub proof fn law_nll_loss_reduces<S: Scalars>(
    before: Seq<Node<S>>,
    after: Seq<Node<S>>,
    lp: Model<S>,
    targets: Model<S>,
    reduction: Reduce,
    y: Model<S>,
) -> (w: (Seq<Node<S>>, Model<S>))
    requires
        nll_loss_tracked::<S>(before, after, lp, targets, reduction, Ok(y)),
    ensures
        nll_loss_tracked::<S>(before, w.0, lp, targets, Reduce::Each, Ok(w.1)),
        reduction is Each ==> after == w.0 && y == w.1,
        reduction is Sum ==> sum_tracked::<S>(w.0, after, w.1, None, false, Ok(y)),
        reduction is Mean ==> mean_tracked::<S>(w.0, after, w.1, None, false, Ok(y)),
{
    let res: Outcome<S> = Ok(y);
    let v = choose|v: Outcome<S>| #[trigger]
        nll_values_out::<S>(lp, targets, v) && nll_reduced::<S>(
            before,
            after,
            lp,
            targets,
            reduction,
            v,
            res,
        );
    let (mid, o) = choose|mid: Seq<Node<S>>, o: Outcome<S>| #[trigger]
        nll_recorded::<S>(before, mid, lp, targets, v, o) && o is Ok && reduced_tracked::<S>(
            mid,
            after,
            o->Ok_0,
            reduction,
            res,
        );
    let each: Outcome<S> = Ok(o->Ok_0);
    assert(reduced_tracked::<S>(mid, mid, o->Ok_0, Reduce::Each, each));
    assert(nll_recorded::<S>(before, mid, lp, targets, v, o));
    assert(nll_reduced::<S>(before, mid, lp, targets, Reduce::Each, v, each));
    (mid, o->Ok_0)
}

/// The cross entropy with a reduction is the sum, or the mean, of the unreduced one.
pub proof fn law_cross_entropy_reduces<S: Scalars>(
    before: Seq<Node<S>>,
    after: Seq<Node<S>>,
    logits: Model<S>,
    targets: Model<S>,
    reduction: Reduce,
    y: Model<S>,
) -> (w: (Seq<Node<S>>, Model<S>))
    requires
        cross_entropy_tracked::<S>(before, after, logits, targets, reduction, Ok(y)),
    ensures
        cross_entropy_tracked::<S>(before, w.0, logits, targets, Reduce::Each, Ok(w.1)),
        reduction is Each ==> after == w.0 && y == w.1,
        reduction is Sum ==> sum_tracked::<S>(w.0, after, w.1, None, false, Ok(y)),
        reduction is Mean ==> mean_tracked::<S>(w.0, after, w.1, None, false, Ok(y)),
{
    let res: Outcome<S> = Ok(y);
    let (mid, o) = choose|mid: Seq<Node<S>>, o: Outcome<S>| #[trigger]
        log_softmax_tracked::<S>(before, mid, logits, minus_one(), o) && o is Ok
            && cross_entropy_loss::<S>(mid, after, targets, reduction, o->Ok_0, res);
    let (last, v) = law_nll_loss_reduces::<S>(mid, after, o->Ok_0, targets, reduction, y);
    let each: Outcome<S> = Ok(v);
    assert(log_softmax_tracked::<S>(before, mid, logits, minus_one(), o));
    assert(cross_entropy_loss::<S>(mid, last, targets, Reduce::Each, o->Ok_0, each));
    (last, v)
}

/// The negative log-likelihood, unreduced: the loss of row `i` and the log-probability of its class
/// add up to zero. On 32-bit floats.
pub proof fn law_nll_loss_f32<S: Scalars>(
    r: Ring<S::F>,
    before: Seq<Node<S>>,
    after: Seq<Node<S>>,
    lp: Model<S>,
    targets: Model<S>,
    y: Model<S>,
    rows: usize,
    cols: usize,
    i: int,
    class: int,
)
    requires
        exact::<S::F, S>(r),
        lp.data is F32,
        lp.shape == seq![rows, cols],
        0 <= i < rows,
        targets.i64s()[i] == class,
        nll_loss_tracked::<S>(before, after, lp, targets, Reduce::Each, Ok(y)),
    ensures
        y.shape == seq![rows],
        r.plus(y.f32s()[i], lp.f32s()[i * cols + class]) == r.zero,
{
    let res: Outcome<S> = Ok(y);
    let v = choose|v: Outcome<S>| #[trigger]
        nll_values_out::<S>(lp, targets, v) && nll_reduced::<S>(
            before,
            after,
            lp,
            targets,
            Reduce::Each,
            v,
            res,
        );
    let (mid, o) = choose|mid: Seq<Node<S>>, o: Outcome<S>| #[trigger]
        nll_recorded::<S>(before, mid, lp, targets, v, o) && o is Ok && reduced_tracked::<S>(
            mid,
            after,
            o->Ok_0,
            Reduce::Each,
            res,
        );
    assert(alike::<S>(y, v->Ok_0));
    let ns = choose|ns: Seq<S::F>| #[trigger]
        class_negatives::<S::F, S>(lp.f32s(), targets.i64s(), cols as int, ns)
            && from_f32s_out::<S>(ns, vector(rows), v);
    let t = v->Ok_0;
    assert(t.elems() == t.data);
    assert(t.f32s() == ns && y.f32s() == t.f32s());
    assert(volume(seq![rows]) == rows) by {
        reveal_with_fuel(volume, 2);
        assert(seq![rows].drop_last() =~= Seq::<usize>::empty());
    }
    lemma_negates::<S::F, S>(r, lp.f32s()[i * cols + class], ns[i]);
}

/// The cross entropy, unreduced: the numbers `w` along row `i` differ as the logits do, their
/// exponentials add up to one, and the loss of the row and the number of its class add up to zero.
/// On 32-bit floats.
pub proof fn law_cross_entropy_f32<S: Scalars>(
    r: Ring<S::F>,
    before: Seq<Node<S>>,
    after: Seq<Node<S>>,
    logits: Model<S>,
    targets: Model<S>,
    y: Model<S>,
    rows: usize,
    cols: usize,
    i: int,
    class: int,
) -> (w: Seq<S::F>)
    requires
        exact::<S::F, S>(r),
        exponents::<S::F, S>(r),
        logits.data is F32,
        logits.shape == seq![rows, cols],
        0 <= i < rows,
        0 <= class < cols,
        targets.i64s()[i] == class,
        cross_entropy_tracked::<S>(before, after, logits, targets, Reduce::Each, Ok(y)),
    ensures
        y.shape == seq![rows],
        log_probabilities::<S::F, S>(
            r,
            logits.f32s(),
            w,
            in_line(logits.shape, 1, i * cols + class),
            i * cols + class,
        ),
        r.plus(y.f32s()[i], w[i * cols + class]) == r.zero,
{
    let res: Outcome<S> = Ok(y);
    let (mid, o) = choose|mid: Seq<Node<S>>, o: Outcome<S>| #[trigger]
        log_softmax_tracked::<S>(before, mid, logits, minus_one(), o) && o is Ok
            && cross_entropy_loss::<S>(mid, after, targets, Reduce::Each, o->Ok_0, res);
    let lp = o->Ok_0;
    let v = choose|v: Outcome<S>| #[trigger]
        log_values_out::<S>(logits, minus_one(), v) && tracked_out::<S>(
            before,
            mid,
            logits.in_graph,
            v,
            seq![logits],
            RuleModel::LogSoftmax {
                y: v->Ok_0.detached(),
                axis: axis_at(minus_one() as int, logits.shape.len() as int) as usize,
            },
            o,
        );
    assert(alike::<S>(lp, v->Ok_0));
    let at = i * cols + class;
    lemma_table(rows, cols);
    assert(0 <= at < rows * cols) by (nonlinear_arith)
        requires
            0 <= i < rows,
            0 <= class < cols,
            at == i * cols + class,
    ;
    law_log_softmax_values_f32::<S>(r, logits, minus_one(), v->Ok_0, at);
    assert(lp.f32s() == v->Ok_0.f32s());
    assert(lp.data is F32);
    law_nll_loss_f32::<S>(r, mid, after, lp, targets, y, rows, cols, i, class);
    lp.f32s()
}

/// The negative log-likelihood, unreduced: the loss of row `i` and the log-probability of its class
/// add up to zero. On 64-bit floats.
pub proof fn law_nll_loss_f64<S: Scalars>(
    r: Ring<S::D>,
    before: Seq<Node<S>>,
    after: Seq<Node<S>>,
    lp: Model<S>,
    targets: Model<S>,
    y: Model<S>,
    rows: usize,
    cols: usize,
    i: int,
    class: int,
)
    requires
        exact::<S::D, S>(r),
        lp.data is F64,
        lp.shape == seq![rows, cols],
        0 <= i < rows,
        targets.i64s()[i] == class,
        nll_loss_tracked::<S>(before, after, lp, targets, Reduce::Each, Ok(y)),
    ensures
        y.shape == seq![rows],
        r.plus(y.f64s()[i], lp.f64s()[i * cols + class]) == r.zero,
{
    let res: Outcome<S> = Ok(y);
    let v = choose|v: Outcome<S>| #[trigger]
        nll_values_out::<S>(lp, targets, v) && nll_reduced::<S>(
            before,
            after,
            lp,
            targets,
            Reduce::Each,
            v,
            res,
        );
    let (mid, o) = choose|mid: Seq<Node<S>>, o: Outcome<S>| #[trigger]
        nll_recorded::<S>(before, mid, lp, targets, v, o) && o is Ok && reduced_tracked::<S>(
            mid,
            after,
            o->Ok_0,
            Reduce::Each,
            res,
        );
    assert(alike::<S>(y, v->Ok_0));
    let ns = choose|ns: Seq<S::D>| #[trigger]
        class_negatives::<S::D, S>(lp.f64s(), targets.i64s(), cols as int, ns)
            && from_f64s_out::<S>(ns, vector(rows), v);
    let t = v->Ok_0;
    assert(t.elems() == t.data);
    assert(t.f64s() == ns && y.f64s() == t.f64s());
    assert(volume(seq![rows]) == rows) by {
        reveal_with_fuel(volume, 2);
        assert(seq![rows].drop_last() =~= Seq::<usize>::empty());
    }
    lemma_negates::<S::D, S>(r, lp.f64s()[i * cols + class], ns[i]);
}

/// The cross entropy, unreduced: the numbers `w` along row `i` differ as the logits do, their
/// exponentials add up to one, and the loss of the row and the number of its class add up to zero.
/// On 64-bit floats.
pub proof fn law_cross_entropy_f64<S: Scalars>(
    r: Ring<S::D>,
    before: Seq<Node<S>>,
    after: Seq<Node<S>>,
    logits: Model<S>,
    targets: Model<S>,
    y: Model<S>,
    rows: usize,
    cols: usize,
    i: int,
    class: int,
) -> (w: Seq<S::D>)
    requires
        exact::<S::D, S>(r),
        exponents::<S::D, S>(r),
        logits.data is F64,
        logits.shape == seq![rows, cols],
        0 <= i < rows,
        0 <= class < cols,
        targets.i64s()[i] == class,
        cross_entropy_tracked::<S>(before, after, logits, targets, Reduce::Each, Ok(y)),
    ensures
        y.shape == seq![rows],
        log_probabilities::<S::D, S>(
            r,
            logits.f64s(),
            w,
            in_line(logits.shape, 1, i * cols + class),
            i * cols + class,
        ),
        r.plus(y.f64s()[i], w[i * cols + class]) == r.zero,
{
    let res: Outcome<S> = Ok(y);
    let (mid, o) = choose|mid: Seq<Node<S>>, o: Outcome<S>| #[trigger]
        log_softmax_tracked::<S>(before, mid, logits, minus_one(), o) && o is Ok
            && cross_entropy_loss::<S>(mid, after, targets, Reduce::Each, o->Ok_0, res);
    let lp = o->Ok_0;
    let v = choose|v: Outcome<S>| #[trigger]
        log_values_out::<S>(logits, minus_one(), v) && tracked_out::<S>(
            before,
            mid,
            logits.in_graph,
            v,
            seq![logits],
            RuleModel::LogSoftmax {
                y: v->Ok_0.detached(),
                axis: axis_at(minus_one() as int, logits.shape.len() as int) as usize,
            },
            o,
        );
    assert(alike::<S>(lp, v->Ok_0));
    let at = i * cols + class;
    lemma_table(rows, cols);
    assert(0 <= at < rows * cols) by (nonlinear_arith)
        requires
            0 <= i < rows,
            0 <= class < cols,
            at == i * cols + class,
    ;
    law_log_softmax_values_f64::<S>(r, logits, minus_one(), v->Ok_0, at);
    assert(lp.f64s() == v->Ok_0.f64s());
    assert(lp.data is F64);
    law_nll_loss_f64::<S>(r, mid, after, lp, targets, y, rows, cols, i, class);
    lp.f64s()
}

} // verus!
