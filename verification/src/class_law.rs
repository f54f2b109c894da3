//! The gradient of the cross-entropy loss: the probabilities less the target, times the cotangent.
use vstd::prelude::*;
use crate::ad::goes_on;
use crate::algebra::{lemma_flip, lemma_spread, lemma_total_agree, lemma_total_alone, lemma_zero};
use crate::calculus::{exact, lemma_negates};
use crate::classes::{
    class_negatives, cross_entropy_loss, cross_entropy_tracked, minus_one, nll_loss_tracked,
    nll_recorded, nll_reduced, nll_values_out, reduced_tracked, vector, Reduce,
};
use crate::elementwise::maps;
use crate::error::Error;
use crate::index::volume;
use crate::lines::in_line;
use crate::loss::count_of;
use crate::nodes::RuleModel::LogSoftmax;
use crate::nodes::{tracked_out, Node};
use crate::norm_law::{alike, lemma_last_line};
use crate::reduce::uniform;
use crate::ring::{lemma_laws, Ring};
use crate::routes::{
    classes_named, hot_slopes, item_of, matrix, negatives, nll_parts, nll_slopes_f32,
    nll_slopes_f64, nll_weights_f32, nll_weights_f64, single_out,
};
use crate::rules::{from_f32s_out, from_f64s_out, log_softmax_parts};
use crate::scalar::{is_zero, Arith, Scalars};
use crate::shape::axis_at;
use crate::softmax::{log_softmax_tracked, log_values_out};
use crate::softmax_law::{hot, lemma_log_softmax_piece_f32, lemma_log_softmax_piece_f64};
use crate::storage::Data;
use crate::tape::Backward;
use crate::tensor::{Model, Outcome};
use crate::unary::exp_rel;

verus! {

/// The rows of a matrix are its lines along the second axis.
proof fn lemma_matrix_row(batch: usize, classes: usize, i: int, k: int)
    requires
        0 <= i < batch * classes,
        0 <= k < batch * classes,
    ensures
        volume(matrix(batch, classes)) == batch * classes,
        classes > 0,
        in_line(matrix(batch, classes), 1, i)(k) == (k / (classes as int) == i / (classes as int)),
{
    let shape = matrix(batch, classes);
    lemma_volume_matrix(batch, classes);
    lemma_last_line(shape, i, k);
}

/// A row of negated targets, through the rule of log-softmax.
proof fn lemma_hot_row<T, A: Arith<T>>(
    r: Ring<T>,
    batch: usize,
    classes: usize,
    targets: Seq<i64>,
    s: Seq<T>,
    g: Seq<T>,
    o: int,
)
    requires
        exact::<T, A>(r),
        targets.len() == batch,
        s.len() == batch,
        classes_named(targets, classes),
        0 <= o < batch * classes,
        hot_slopes::<T, A>(targets, s, classes as int, g),
    ensures
        volume(matrix(batch, classes)) == batch * classes,
        0 <= o / (classes as int) < batch,
        g[o] == r.minus(
            r.zero,
            r.times(
                s[o / (classes as int)],
                hot(r, targets[o / (classes as int)] == o % (classes as int)),
            ),
        ),
        r.total(g, in_line(matrix(batch, classes), 1, o), batch * classes) == r.minus(
            r.zero,
            s[o / (classes as int)],
        ),
{
    let c = classes as int;
    let n = batch * classes;
    let z = choose|z: T| #[trigger]
        is_zero::<T, A>(z) && g.len() == targets.len() * c && negatives::<T, A>(
            targets,
            s,
            c,
            z,
            g,
        );
    lemma_matrix_row(batch, classes, o, o);
    let b = o / c;
    assert(0 <= b < batch && 0 <= b * c && b * c + c <= n) by (nonlinear_arith)
        requires
            0 <= o < batch * c,
            c > 0,
            b == o / c,
            n == batch * c,
    ;
    let t = targets[b] as int;
    let at = b * c + t;
    assert(at / c == b && at % c == t) by (nonlinear_arith)
        requires
            0 <= t < c,
            at == b * c + t,
            0 <= b,
    ;
    let w = s[b];
    lemma_zero(r, w);
    lemma_zero(r, r.zero);
    assert(g.len() == n);
    assert(if targets[o / c] == o % c {
        call_ensures(A::negated, (w,), g[o])
    } else {
        g[o] == z
    });
    if targets[b] == o % c {
        lemma_negates::<T, A>(r, w, g[o]);
    }
    assert(call_ensures(A::negated, (s[at / c],), g[at]));
    lemma_negates::<T, A>(r, w, g[at]);
    let pick = in_line(matrix(batch, classes), 1, o);
    let kept = Seq::new(n as nat, |k: int| if k / c == b { g[k] } else { r.zero });
    assert forall|k: int| 0 <= k < n implies #[trigger] pick(k) == (k / c == b) by {
        lemma_matrix_row(batch, classes, o, k);
    }
    lemma_total_agree(r, g, kept, pick, pick, n);
    assert forall|k: int| 0 <= k < n && k != at implies #[trigger] kept[k] == r.zero by {
        if k / c == b {
            assert(k == b * c + k % c) by (nonlinear_arith)
                requires
                    b == k / c,
                    c > 0,
            ;
            assert(if targets[k / c] == k % c {
                call_ensures(A::negated, (s[k / c],), g[k])
            } else {
                g[k] == z
            });
        }
    }
    lemma_total_alone(r, kept, pick, at, n);
    assert(pick(at));
}

/// `(0 - w h) - e (0 - w)` is `w (e - h)`.
proof fn lemma_pulled<T>(r: Ring<T>, w: T, h: T, e: T)
    requires
        r.lawful(),
    ensures
        r.minus(r.minus(r.zero, r.times(w, h)), r.times(e, r.minus(r.zero, w))) == r.times(
            w,
            r.minus(e, h),
        ),
{
    lemma_spread(r, e, r.zero, w);
    lemma_zero(r, e);
    lemma_laws(r, e, w, w);
    lemma_flip(r, r.times(w, h), r.times(w, e));
    lemma_spread(r, w, e, h);
}

/// What the two nodes of a cross-entropy without reduction are.
proof fn lemma_two_nodes<S: Scalars>(
    before: Seq<Node<S>>,
    after: Seq<Node<S>>,
    logits: Model<S>,
    targets: Model<S>,
    y: Model<S>,
    gy: Model<S>,
    gs: Seq<Model<S>>,
    parts: Seq<Model<S>>,
) -> (w: (Model<S>, Model<S>))
    requires
        logits.in_graph,
        logits.shape.len() == 2,
        cross_entropy_tracked::<S>(before, after, logits, targets, Reduce::Each, Ok(y)),
        after.len() >= 2,
        after[after.len() - 1].vjp(gy, Ok(gs)),
        gs.len() == 1,
        after[after.len() - 2].vjp(gs[0], Ok(parts)),
    ensures
        after.len() == before.len() + 2,
        after[after.len() - 2].sources() == seq![logits],
        after[after.len() - 1].sources() == seq![w.1],
        log_values_out::<S>(logits, minus_one(), Ok(w.0)),
        alike::<S>(w.1, w.0),
        nll_values_out::<S>(w.1, targets, Ok(y.detached())) || exists|v: Model<S>| #[trigger]
            nll_values_out::<S>(w.1, targets, Ok(v)) && alike::<S>(y, v),
        nll_parts::<S>(
            targets.detached(),
            w.1.shape[0],
            w.1.shape[1],
            w.1.dtype(),
            gy,
            Ok(gs),
        ),
        log_softmax_parts::<S>(
            w.0.detached(),
            axis_at(-1, logits.shape.len() as int) as usize,
            gs[0],
            Ok(parts),
        ),
{
    let res: Outcome<S> = Ok(y);
    let (g1, o1) = choose|g: Seq<Node<S>>, o: Outcome<S>| #[trigger]
        log_softmax_tracked::<S>(before, g, logits, minus_one(), o) && goes_on(
            o,
            g,
            res,
            after,
            cross_entropy_loss::<S>(g, after, targets, Reduce::Each, o->Ok_0, res),
        );
    let lp = o1->Ok_0;
    let v = choose|v: Outcome<S>| #[trigger]
        log_values_out::<S>(logits, minus_one(), v) && tracked_out::<S>(
            before,
            g1,
            true,
            v,
            seq![logits],
            LogSoftmax {
                y: v->Ok_0.detached(),
                axis: axis_at(minus_one() as int, logits.shape.len() as int) as usize,
            },
            o1,
        );
    assert(nll_loss_tracked::<S>(g1, after, lp, targets, Reduce::Each, res));
    let n = choose|n: Outcome<S>| #[trigger]
        nll_values_out::<S>(lp, targets, n) && nll_reduced::<S>(
            g1,
            after,
            lp,
            targets,
            Reduce::Each,
            n,
            res,
        );
    let (g2, o2) = choose|g: Seq<Node<S>>, o: Outcome<S>| #[trigger]
        nll_recorded::<S>(g1, g, lp, targets, n, o) && goes_on(
            o,
            g,
            res,
            after,
            reduced_tracked::<S>(g, after, o->Ok_0, Reduce::Each, res),
        );
    assert(g2 == after);
    assert(after.drop_last() == g1);
    assert(after[after.len() - 2] == g1[g1.len() - 1]);
    assert(alike::<S>(y, n->Ok_0));
    assert(nll_values_out::<S>(lp, targets, Ok(n->Ok_0)));
    (v->Ok_0, lp)
}

/// The number of elements of a matrix.
proof fn lemma_volume_matrix(batch: usize, classes: usize)
    ensures
        volume(matrix(batch, classes)) == batch * classes,
{
    reveal_with_fuel(volume, 3);
    let shape = matrix(batch, classes);
    assert(shape.drop_last() =~= seq![batch]);
    assert(seq![batch].drop_last() =~= Seq::<usize>::empty());
    assert(seq![batch].last() == batch);
    assert(shape.last() == classes);
    assert(volume(seq![batch]) == volume(seq![batch].drop_last()) * (batch as nat));
    assert(volume(seq![batch]) == batch) by (nonlinear_arith)
        requires
            volume(seq![batch]) == 1 * (batch as nat),
    ;
    assert(volume(shape) == volume(shape.drop_last()) * (classes as nat));
}

/// The gradient of the cross-entropy of a row of logits is the probabilities less the target, times
/// the row's cotangent: with `p` the exponentials of the log-probabilities, element `c` of row `b`
/// is `gy[b] (p[b, c] - [c = targets[b]])`. The loss of a row and the log-probability of its target
/// add up to zero. On 32-bit floats.
pub proof fn law_cross_entropy_gradient_f32<S: Scalars>(
    r: Ring<S::F>,
    before: Seq<Node<S>>,
    after: Seq<Node<S>>,
    logits: Model<S>,
    targets: Model<S>,
    y: Model<S>,
    gy: Model<S>,
    gs: Seq<Model<S>>,
    parts: Seq<Model<S>>,
) -> (w: (Model<S>, Seq<S::F>))
    requires
        exact::<S::F, S>(r),
        logits.in_graph,
        logits.shape.len() == 2,
        cross_entropy_tracked::<S>(before, after, logits, targets, Reduce::Each, Ok(y)),
        y.data is F32,
        gy.data is F32,
        gy.shape == y.shape,
        after.len() >= 2,
        after[after.len() - 1].vjp(gy, Ok(gs)),
        gs.len() == 1,
        after[after.len() - 2].vjp(gs[0], Ok(parts)),
    ensures
        after.len() == before.len() + 2,
        after[after.len() - 2].sources() == seq![logits],
        log_values_out::<S>(logits, minus_one(), Ok(w.0)),
        maps(exp_rel::<S::F, S>(), w.0.f32s(), w.1),
        w.0.shape.len() == 2,
        y.shape == seq![w.0.shape[0]],
        parts.len() == 1,
        parts[0].shape == w.0.shape,
        forall|o: int|
            0 <= o < volume(w.0.shape) ==> #[trigger] parts[0].f32s()[o] == r.times(
                gy.f32s()[o / (w.0.shape[1] as int)],
                r.minus(
                    w.1[o],
                    hot(
                        r,
                        targets.i64s()[o / (w.0.shape[1] as int)] == o % (w.0.shape[1] as int),
                    ),
                ),
            ),
        forall|b: int|
            0 <= b < w.0.shape[0] ==> r.plus(
                #[trigger] y.f32s()[b],
                w.0.f32s()[b * w.0.shape[1] + targets.i64s()[b]],
            ) == r.zero,
{
    let (lp0, lp) = lemma_two_nodes::<S>(before, after, logits, targets, y, gy, gs, parts);
    let v = choose|v: Model<S>| #[trigger]
        nll_values_out::<S>(lp, targets, Ok(v)) && alike::<S>(y, v);
    let (batch, classes) = (lp.shape[0], lp.shape[1]);
    let shape = matrix(batch, classes);
    assert(lp.shape =~= shape);
    assert(v.shape == vector(batch));
    assert(y.shape =~= seq![batch]);
    let res: Result<Seq<Model<S>>, Error> = Ok(gs);
    reveal(nll_parts);
    let ts = targets.i64s();
    assert(targets.detached().i64s() == ts);
    let s = choose|s: Seq<S::F>| #[trigger]
        nll_weights_f32::<S>(gy, batch, s) && nll_slopes_f32::<S>(ts, s, batch, classes, res);
    let (g, out) = choose|g: Seq<S::F>, out: Outcome<S>| #[trigger]
        hot_slopes::<S::F, S>(ts, s, classes as int, g) && #[trigger] from_f32s_out::<S>(
            g,
            shape,
            out,
        ) && single_out::<S>(out, res);
    assert(gs[0] == out->Ok_0);
    assert(gs[0].elems() == gs[0].data);
    assert(gs[0].f32s() == g);
    reveal_with_fuel(volume, 3);
    assert(seq![batch].drop_last() =~= Seq::<usize>::empty());
    assert(volume(gy.shape) == batch);
    assert(gy.f32s().len() == batch);
    assert forall|b: int| 0 <= b < batch implies s[b] == #[trigger] gy.f32s()[b] by {
        if count_of(gy.shape) == 1 {
            assert(batch == 1 && b == 0);
            assert(gy.elems() == Data::<S::F, S::D>::F32(gy.f32s()));
            let c = choose|c: S::F| #[trigger] item_of::<S>(gy, c) && uniform(s, c);
            assert(s[0] == c);
        }
    }
    let axis = axis_at(-1, logits.shape.len() as int) as usize;
    assert(lp0.shape == shape);
    assert(axis == 1);
    let e = lemma_log_softmax_piece_f32::<S>(r, lp0.detached(), axis, gs[0], parts);
    assert(lp0.detached().f32s() == lp0.f32s());
    assert forall|o: int| 0 <= o < volume(lp0.shape) implies #[trigger] parts[0].f32s()[o]
        == r.times(
        gy.f32s()[o / (classes as int)],
        r.minus(e[o], hot(r, ts[o / (classes as int)] == o % (classes as int))),
    ) by {
        lemma_volume_matrix(batch, classes);
        lemma_hot_row::<S::F, S>(r, batch, classes, ts, s, g, o);
        lemma_pulled(
            r,
            s[o / (classes as int)],
            hot(r, ts[o / (classes as int)] == o % (classes as int)),
            e[o],
        );
    }
    assert(v.elems() == v.data);
    assert forall|b: int| 0 <= b < batch implies r.plus(
        #[trigger] y.f32s()[b],
        lp0.f32s()[b * classes + ts[b]],
    ) == r.zero by {
        let l = choose|l: Seq<S::F>| #[trigger]
            class_negatives::<S::F, S>(lp.f32s(), ts, classes as int, l) && from_f32s_out::<S>(
                l,
                vector(batch),
                Ok(v),
            );
        assert(y.f32s() == l);
        assert(call_ensures(
            <S as Arith<S::F>>::negated,
            (lp.f32s()[b * classes + ts[b]],),
            l[b],
        ));
        lemma_negates::<S::F, S>(r, lp.f32s()[b * classes + ts[b]], l[b]);
    }
    (lp0, e)
}

/// The gradient of the cross-entropy of a row of logits is the probabilities less the target, times
/// the row's cotangent: with `p` the exponentials of the log-probabilities, element `c` of row `b`
/// is `gy[b] (p[b, c] - [c = targets[b]])`. The loss of a row and the log-probability of its target
/// add up to zero. On 64-bit floats.
pub proof fn law_cross_entropy_gradient_f64<S: Scalars>(
    r: Ring<S::D>,
    before: Seq<Node<S>>,
    after: Seq<Node<S>>,
    logits: Model<S>,
    targets: Model<S>,
    y: Model<S>,
    gy: Model<S>,
    gs: Seq<Model<S>>,
    parts: Seq<Model<S>>,
) -> (w: (Model<S>, Seq<S::D>))
    requires
        exact::<S::D, S>(r),
        forall|x: S::D, c: S::F, d: S::D|
            #![trigger call_ensures(S::narrow, (x,), c), call_ensures(S::widen, (c,), d)]
            call_ensures(S::narrow, (x,), c) && call_ensures(S::widen, (c,), d) ==> d == x,
        logits.in_graph,
        logits.shape.len() == 2,
        cross_entropy_tracked::<S>(before, after, logits, targets, Reduce::Each, Ok(y)),
        y.data is F64,
        gy.data is F64,
        gy.shape == y.shape,
        after.len() >= 2,
        after[after.len() - 1].vjp(gy, Ok(gs)),
        gs.len() == 1,
        after[after.len() - 2].vjp(gs[0], Ok(parts)),
    ensures
        after.len() == before.len() + 2,
        after[after.len() - 2].sources() == seq![logits],
        log_values_out::<S>(logits, minus_one(), Ok(w.0)),
        maps(exp_rel::<S::D, S>(), w.0.f64s(), w.1),
        w.0.shape.len() == 2,
        y.shape == seq![w.0.shape[0]],
        parts.len() == 1,
        parts[0].shape == w.0.shape,
        forall|o: int|
            0 <= o < volume(w.0.shape) ==> #[trigger] parts[0].f64s()[o] == r.times(
                gy.f64s()[o / (w.0.shape[1] as int)],
                r.minus(
                    w.1[o],
                    hot(
                        r,
                        targets.i64s()[o / (w.0.shape[1] as int)] == o % (w.0.shape[1] as int),
                    ),
                ),
            ),
        forall|b: int|
            0 <= b < w.0.shape[0] ==> r.plus(
                #[trigger] y.f64s()[b],
                w.0.f64s()[b * w.0.shape[1] + targets.i64s()[b]],
            ) == r.zero,
{
    let (lp0, lp) = lemma_two_nodes::<S>(before, after, logits, targets, y, gy, gs, parts);
    let v = choose|v: Model<S>| #[trigger]
        nll_values_out::<S>(lp, targets, Ok(v)) && alike::<S>(y, v);
    let (batch, classes) = (lp.shape[0], lp.shape[1]);
    let shape = matrix(batch, classes);
    assert(lp.shape =~= shape);
    assert(v.shape == vector(batch));
    assert(y.shape =~= seq![batch]);
    let res: Result<Seq<Model<S>>, Error> = Ok(gs);
    reveal(nll_parts);
    let ts = targets.i64s();
    assert(targets.detached().i64s() == ts);
    let s = choose|s: Seq<S::D>| #[trigger]
        nll_weights_f64::<S>(gy, batch, s) && nll_slopes_f64::<S>(ts, s, batch, classes, res);
    let (g, out) = choose|g: Seq<S::D>, out: Outcome<S>| #[trigger]
        hot_slopes::<S::D, S>(ts, s, classes as int, g) && #[trigger] from_f64s_out::<S>(
            g,
            shape,
            out,
        ) && single_out::<S>(out, res);
    assert(gs[0] == out->Ok_0);
    assert(gs[0].elems() == gs[0].data);
    assert(gs[0].f64s() == g);
    reveal_with_fuel(volume, 3);
    assert(seq![batch].drop_last() =~= Seq::<usize>::empty());
    assert(volume(gy.shape) == batch);
    assert(gy.f64s().len() == batch);
    assert forall|b: int| 0 <= b < batch implies s[b] == #[trigger] gy.f64s()[b] by {
        if count_of(gy.shape) == 1 {
            assert(batch == 1 && b == 0);
            assert(gy.elems() == Data::<S::F, S::D>::F64(gy.f64s()));
            let (c, d) = choose|c: S::F, d: S::D| #[trigger]
                item_of::<S>(gy, c) && #[trigger] call_ensures(S::widen, (c,), d) && uniform(s, d);
            assert(s[0] == d);
        }
    }
    let axis = axis_at(-1, logits.shape.len() as int) as usize;
    assert(lp0.shape == shape);
    assert(axis == 1);
    let e = lemma_log_softmax_piece_f64::<S>(r, lp0.detached(), axis, gs[0], parts);
    assert(lp0.detached().f64s() == lp0.f64s());
    assert forall|o: int| 0 <= o < volume(lp0.shape) implies #[trigger] parts[0].f64s()[o]
        == r.times(
        gy.f64s()[o / (classes as int)],
        r.minus(e[o], hot(r, ts[o / (classes as int)] == o % (classes as int))),
    ) by {
        lemma_volume_matrix(batch, classes);
        lemma_hot_row::<S::D, S>(r, batch, classes, ts, s, g, o);
        lemma_pulled(
            r,
            s[o / (classes as int)],
            hot(r, ts[o / (classes as int)] == o % (classes as int)),
            e[o],
        );
    }
    assert(v.elems() == v.data);
    assert forall|b: int| 0 <= b < batch implies r.plus(
        #[trigger] y.f64s()[b],
        lp0.f64s()[b * classes + ts[b]],
    ) == r.zero by {
        let l = choose|l: Seq<S::D>| #[trigger]
            class_negatives::<S::D, S>(lp.f64s(), ts, classes as int, l) && from_f64s_out::<S>(
                l,
                vector(batch),
                Ok(v),
            );
        assert(y.f64s() == l);
        assert(call_ensures(
            <S as Arith<S::D>>::negated,
            (lp.f64s()[b * classes + ts[b]],),
            l[b],
        ));
        lemma_negates::<S::D, S>(r, lp.f64s()[b * classes + ts[b]], l[b]);
    }
    (lp0, e)
}

} // verus!
