//! The log-probability of a chosen class.
use vstd::prelude::*;
use crate::ad::take_tracked;
use crate::calculus::{exact, exponents};
use crate::classes::minus_one;
use crate::index::volume;
use crate::indexing::{picked, take_out};
use crate::lines::in_line;
use crate::matmul_law::lemma_table;
use crate::nn::{categorical_log_prob_tracked, categorical_taken};
use crate::nodes::{tracked_out, Node, RuleModel};
use crate::norm_law::alike;
use crate::ring::Ring;
use crate::routes::flat_shape;
use crate::scalar::Scalars;
use crate::shape::axis_at;
use crate::softmax::{log_softmax_tracked, log_values_out};
use crate::softmax_values::{
    law_log_softmax_values_f32, law_log_softmax_values_f64, log_probabilities,
};
use crate::tensor::{Model, Outcome};
use crate::views::reshape_out;

verus! {

/// The log-probability of the class that row `i` names: the numbers `w` along the row differ as the
/// logits do, their exponentials add up to one, and the result is the one of the named class, which
/// counts from the end where it is negative. On 32-bit floats.
pub proof fn law_categorical_log_prob_f32<S: Scalars>(
    r: Ring<S::F>,
    before: Seq<Node<S>>,
    after: Seq<Node<S>>,
    logits: Model<S>,
    actions: Model<S>,
    y: Model<S>,
    rows: usize,
    cols: usize,
    i: int,
    class: int,
) -> (w: Seq<S::F>)
    requires
        exact::<S::F, S>(r),
        exponents::<S::F, S>(r),
        logits.data is F32,
        logits.shape == seq![rows, cols],
        cols <= i64::MAX,
        0 <= i < rows,
        0 <= class < cols,
        actions.i64s()[i] == class || actions.i64s()[i] + cols == class,
        categorical_log_prob_tracked::<S>(before, after, logits, actions, Ok(y)),
    ensures
        log_probabilities::<S::F, S>(
            r,
            logits.f32s(),
            w,
            in_line(logits.shape, 1, i * cols + class),
            i * cols + class,
        ),
        y.f32s()[i] == w[i * cols + class],
{
    let res: Outcome<S> = Ok(y);
    let (mid, o) = choose|mid: Seq<Node<S>>, o: Outcome<S>| #[trigger]
        log_softmax_tracked::<S>(before, mid, logits, minus_one(), o) && o is Ok
            && categorical_taken::<S>(mid, after, actions, o->Ok_0, res);
    let lp = o->Ok_0;
    let v = choose|v: Outcome<S>| #[trigger]
        log_values_out::<S>(logits, minus_one(), v) && tracked_out::<S>(
            before,
            mid,
            logits.in_graph,
            v,
            seq![logits],
            RuleModel::LogSoftmax {
                y: v->Ok_0.detached(),
                axis: axis_at(minus_one() as int, logits.shape.len() as int) as usize,
            },
            o,
        );
    assert(alike::<S>(lp, v->Ok_0));
    let at = i * cols + class;
    lemma_table(rows, cols);
    assert(0 <= at < rows * cols) by (nonlinear_arith)
        requires
            0 <= i < rows,
            0 <= class < cols,
            at == i * cols + class,
    ;
    law_log_softmax_values_f32::<S>(r, logits, minus_one(), v->Ok_0, at);
    assert(lp.f32s() == v->Ok_0.f32s());
    let (last, q) = choose|last: Seq<Node<S>>, q: Outcome<S>| #[trigger]
        take_tracked::<S>(mid, last, lp, 1, actions, q) && q is Ok && after == last
            && reshape_out::<S>(q->Ok_0, flat_shape(), res);
    let u = choose|u: Outcome<S>| #[trigger]
        take_out::<S>(lp, 1, actions, u) && tracked_out::<S>(
            mid,
            last,
            lp.in_graph,
            u,
            seq![lp],
            RuleModel::Take { index: actions.detached(), shape: lp.shape },
            q,
        );
    let t = u->Ok_0;
    assert(alike::<S>(q->Ok_0, t));
    assert(q->Ok_0.elems() == t.elems());
    assert(t.elems() == t.data);
    assert(volume(seq![rows]) == rows) by {
        reveal_with_fuel(volume, 2);
        assert(seq![rows].drop_last() =~= Seq::<usize>::empty());
    }
    assert(picked(actions.i64s()[i], cols) == class);
    assert(t.f32s()[i] == lp.f32s()[at]);
    assert(y.elems() == t.elems());
    lp.f32s()
}

/// The log-probability of the class that row `i` names: the numbers `w` along the row differ as the
/// logits do, their exponentials add up to one, and the result is the one of the named class, which
/// counts from the end where it is negative. On 64-bit floats.
pub proof fn law_categorical_log_prob_f64<S: Scalars>(
    r: Ring<S::D>,
    before: Seq<Node<S>>,
    after: Seq<Node<S>>,
    logits: Model<S>,
    actions: Model<S>,
    y: Model<S>,
    rows: usize,
    cols: usize,
    i: int,
    class: int,
) -> (w: Seq<S::D>)
    requires
        exact::<S::D, S>(r),
        exponents::<S::D, S>(r),
        logits.data is F64,
        logits.shape == seq![rows, cols],
        cols <= i64::MAX,
        0 <= i < rows,
        0 <= class < cols,
        actions.i64s()[i] == class || actions.i64s()[i] + cols == class,
        categorical_log_prob_tracked::<S>(before, after, logits, actions, Ok(y)),
    ensures
        log_probabilities::<S::D, S>(
            r,
            logits.f64s(),
            w,
            in_line(logits.shape, 1, i * cols + class),
            i * cols + class,
        ),
        y.f64s()[i] == w[i * cols + class],
{
    let res: Outcome<S> = Ok(y);
    let (mid, o) = choose|mid: Seq<Node<S>>, o: Outcome<S>| #[trigger]
        log_softmax_tracked::<S>(before, mid, logits, minus_one(), o) && o is Ok
            && categorical_taken::<S>(mid, after, actions, o->Ok_0, res);
    let lp = o->Ok_0;
    let v = choose|v: Outcome<S>| #[trigger]
        log_values_out::<S>(logits, minus_one(), v) && tracked_out::<S>(
            before,
            mid,
            logits.in_graph,
            v,
            seq![logits],
            RuleModel::LogSoftmax {
                y: v->Ok_0.detached(),
                axis: axis_at(minus_one() as int, logits.shape.len() as int) as usize,
            },
            o,
        );
    assert(alike::<S>(lp, v->Ok_0));
    let at = i * cols + class;
    lemma_table(rows, cols);
    assert(0 <= at < rows * cols) by (nonlinear_arith)
        requires
            0 <= i < rows,
            0 <= class < cols,
            at == i * cols + class,
    ;
    law_log_softmax_values_f64::<S>(r, logits, minus_one(), v->Ok_0, at);
    assert(lp.f64s() == v->Ok_0.f64s());
    let (last, q) = choose|last: Seq<Node<S>>, q: Outcome<S>| #[trigger]
        take_tracked::<S>(mid, last, lp, 1, actions, q) && q is Ok && after == last
            && reshape_out::<S>(q->Ok_0, flat_shape(), res);
    let u = choose|u: Outcome<S>| #[trigger]
        take_out::<S>(lp, 1, actions, u) && tracked_out::<S>(
            mid,
            last,
            lp.in_graph,
            u,
            seq![lp],
            RuleModel::Take { index: actions.detached(), shape: lp.shape },
            q,
        );
    let t = u->Ok_0;
    assert(alike::<S>(q->Ok_0, t));
    assert(q->Ok_0.elems() == t.elems());
    assert(t.elems() == t.data);
    assert(volume(seq![rows]) == rows) by {
        reveal_with_fuel(volume, 2);
        assert(seq![rows].drop_last() =~= Seq::<usize>::empty());
    }
    assert(picked(actions.i64s()[i], cols) == class);
    assert(t.f64s()[i] == lp.f64s()[at]);
    assert(y.elems() == t.elems());
    lp.f64s()
}

} // verus!
