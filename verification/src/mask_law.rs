//! The masked cross-entropy: probabilities, the loss as a weighted mean, and its gradient.
use vstd::prelude::*;
use crate::ad_fused::{first_of, masked_ce_tracked};
use crate::algebra::{lemma_turn, lemma_undo, lemma_zero, products};
use crate::calculus::{exact, exponents, lemma_divides, orders};
use crate::cpu::{mul_scalar_out, scaled_f32, scaled_f64};
use crate::elementwise::maps;
use crate::error::Error;
use crate::index::volume;
use crate::loss::{
    is_floor, log_term, loss_step, masked_ce_backward_out, masked_ce_out, masked_loss,
    masked_slope, masked_slope_rel, masked_slope_row, masked_slopes, numbers, probability_rel,
    shared_loss, slopes_over, target_ok, weighs, weight_total, weight_zero, zero_row,
};
use crate::masking::loss_log;
use crate::nodes::{tracked_out, Node, RuleModel};
use crate::pointwise_law::lemma_one_f32;
use crate::reduce::sums;
use crate::ring::{lemma_laws, lemma_sums_total, Ring};
use crate::rows::{by_rows, inverse_of, probability_row, row, row_over, row_steps, RowSteps};
use crate::rules::{masked_parts, masked_times, scaled_parts};
use crate::scalar::{
    every, folds, is_difference, is_one, is_product, is_quotient, is_zero, runs, Arith, Scalars,
};
use crate::softmax_law::hot;
use crate::softmax_values::{lemma_from_quotients, probabilities};
use crate::tape::Backward;
use crate::tensor::{gives, passes, Model, Outcome};
use crate::unary::abs_rel;

verus! {

/// `same` tells whether two numbers are one.
pub open spec fn tells<T, A: Arith<T>>() -> bool {
    forall|x: T, y: T, b: bool| #[trigger] call_ensures(A::same, (x, y), b) ==> b == (x == y)
}

/// A row of probabilities, each an exponential over their sum.
pub proof fn law_probability_row<T, A: Arith<T>>(r: Ring<T>, s: Seq<T>, y: Seq<T>, i: int)
    requires
        exact::<T, A>(r),
        exponents::<T, A>(r),
        0 <= i < s.len(),
        probability_row::<T, A>(s, y),
    ensures
        y.len() == s.len(),
        probabilities::<T, A>(r, s, y, every(), i),
{
    let w = choose|w: RowSteps<T>| #[trigger]
        row_steps::<T, A>(s, w) && row_over::<T, A>(w.grown, w.total, y);
    lemma_sums_total::<T, A>(r, w.grown, every(), w.total);
    assert forall|k: int| 0 <= k < s.len() implies w.shifted[k] == r.minus(s[k], w.peak) by {
        assert(is_difference::<T, A>(s[k], w.peak, w.shifted[k]));
    }
    lemma_from_quotients::<T, A>(
        r,
        s,
        w.peak,
        w.shifted,
        w.grown,
        y,
        every(),
        i,
    );
}

/// The weights' magnitudes add up to the weight of the whole.
proof fn lemma_weight<T, A: Arith<T>>(r: Ring<T>, mk: Seq<T>, count: T) -> (mags: Seq<T>)
    requires
        r.computes::<A>(),
        weight_total::<T, A>(mk, count),
    ensures
        maps(abs_rel::<T, A>(), mk, mags),
        count == r.total(mags, every(), mk.len() as int),
{
    let mags = choose|mags: Seq<T>| #[trigger]
        maps(abs_rel::<T, A>(), mk, mags) && sums::<T, A>(mags, count);
    lemma_sums_total::<T, A>(r, mags, every(), count);
    mags
}

/// The derivative of the masked loss: each entry times the sum of the weights' magnitudes is the
/// row's weight times the probability less the target.
pub proof fn law_masked_slopes<T, A: Arith<T>>(
    r: Ring<T>,
    gt: spec_fn(T, T) -> bool,
    probs: Seq<T>,
    inner: int,
    tg: Seq<i64>,
    mk: Seq<T>,
    g: Seq<T>,
) -> (mags: Seq<T>)
    requires
        exact::<T, A>(r),
        orders::<T, A>(r, gt),
        tells::<T, A>(),
        inner > 0,
        probs.len() == tg.len() * inner,
        mk.len() == tg.len(),
        masked_slopes::<T, A>(probs, inner, tg, mk, g),
    ensures
        maps(abs_rel::<T, A>(), mk, mags),
        g.len() == probs.len(),
        r.total(mags, every(), mk.len() as int) != r.zero && gt(
            r.total(mags, every(), mk.len() as int),
            r.zero,
        ) ==> forall|i: int, c: int|
            0 <= i < tg.len() && 0 <= c < inner ==> r.times(
                #[trigger] g[i * inner + c],
                r.total(mags, every(), mk.len() as int),
            ) == r.times(mk[i], r.minus(probs[i * inner + c], hot(r, tg[i] == c))),
{
    let count = choose|count: T| #[trigger]
        weight_total::<T, A>(mk, count) && (weighs::<T, A>(count, false) && zero_row::<T, A>(
            probs.len(),
            g,
        ) || weighs::<T, A>(count, true) && slopes_over::<T, A>(probs, inner, tg, mk, count, g));
    let mags = lemma_weight::<T, A>(r, mk, count);
    if count != r.zero && gt(count, r.zero) {
        assert(!weighs::<T, A>(count, false)) by {
            reveal(orders);
        }
        let inv = choose|inv: T| #[trigger]
            inverse_of::<T, A>(count, inv) && by_rows(
                masked_slope_rel::<T, A>(tg, mk, inv),
                tg.len() as int,
                inner,
                probs,
                g,
            );
        let one = choose|one: T| #[trigger]
            is_one::<T, A>(one) && is_quotient::<T, A>(one, count, inv);
        lemma_divides::<T, A>(r, one, count, inv);
        assert forall|i: int, c: int| 0 <= i < tg.len() && 0 <= c < inner implies r.times(
            #[trigger] g[i * inner + c],
            count,
        ) == r.times(mk[i], r.minus(probs[i * inner + c], hot(r, tg[i] == c))) by {
            assert(0 <= i * inner && i * inner + inner <= probs.len()) by (nonlinear_arith)
                requires
                    0 <= i < tg.len(),
                    inner > 0,
                    probs.len() == tg.len() * inner,
            ;
            let (s, d) = (row(probs, inner, i), row(g, inner, i));
            assert(masked_slope_rel::<T, A>(tg, mk, inv)(i, s, d));
            assert(masked_slope_row::<T, A>(tg[i], mk[i], inv, s, d));
            assert(s[c] == probs[i * inner + c] && d[c] == g[i * inner + c]);
            let p = r.minus(s[c], hot(r, tg[i] == c));
            if mk[i] == r.zero {
                assert(weight_zero::<T, A>(mk[i], true));
                lemma_zero(r, p);
                lemma_zero(r, count);
                assert(d[c] == r.zero);
            } else {
                assert(!weight_zero::<T, A>(mk[i], true));
                assert(masked_slope::<T, A>(s[c], tg[i] == c, mk[i], inv, d[c]));
                lemma_laws(r, p, mk[i], mk[i]);
                lemma_laws(r, r.times(p, mk[i]), inv, count);
                lemma_zero(r, r.times(p, mk[i]));
            }
        }
    }
    mags
}

/// The running value of the loss.
proof fn lemma_losses_run<T, A: Arith<T>>(
    r: Ring<T>,
    probs: Seq<T>,
    inner: int,
    tg: Seq<i64>,
    mk: Seq<T>,
    logs: Seq<T>,
    acc: Seq<T>,
    n: int,
)
    requires
        r.computes::<A>(),
        tells::<T, A>(),
        0 <= n <= tg.len(),
        mk.len() == tg.len(),
        logs.len() == tg.len(),
        runs(
            loss_step::<T, A>(probs, inner, tg, mk),
            numbers(tg.len()),
            every(),
            tg.len() as int,
            r.zero,
            acc,
        ),
        forall|i: int, l: T|
            0 <= i < tg.len() && #[trigger] loss_log::<T, A>(probs[i * inner + tg[i]], l)
                ==> l == logs[i],
        forall|i: int| 0 <= i < tg.len() ==> target_ok(#[trigger] tg[i], inner),
    ensures
        r.plus(acc[n], r.total(products(r, mk, logs), every(), n)) == r.zero,
    decreases n,
{
    let w = products(r, mk, logs);
    lemma_zero(r, r.zero);
    if n > 0 {
        lemma_losses_run::<T, A>(r, probs, inner, tg, mk, logs, acc, n - 1);
        let step = loss_step::<T, A>(probs, inner, tg, mk);
        let i = n - 1;
        assert(every()(i));
        assert(step(acc[i], numbers(tg.len())[i], acc[i + 1]));
        assert(numbers(tg.len())[i] == i);
        let t = r.total(w, every(), i);
        let p = probs[i * inner + tg[i]];
        assert(target_ok(tg[i], inner));
        if mk[i] == r.zero {
            lemma_zero(r, logs[i]);
            lemma_zero(r, t);
            assert(!weight_zero::<T, A>(mk[i], false));
            assert(acc[n] == acc[i]);
        } else {
            assert(!weight_zero::<T, A>(mk[i], true));
            assert(log_term::<T, A>(acc[i], mk[i], p, acc[n]));
            let (least, one, held, log, term) = choose|
                least: T,
                one: T,
                held: T,
                log: T,
                term: T,
            |
                {
                    &&& #[trigger] is_floor::<T, A>(least)
                    &&& #[trigger] is_one::<T, A>(one)
                    &&& #[trigger] call_ensures(A::held, (p, least, one), held)
                    &&& #[trigger] call_ensures(A::logarithm, (held,), log)
                    &&& #[trigger] is_product::<T, A>(mk[i], log, term)
                    &&& is_difference::<T, A>(acc[i], term, acc[n])
                };
            assert(loss_log::<T, A>(p, log));
            assert(log == logs[i]);
            // (acc - term) + (t + term) == acc + t
            let a = acc[n];
            lemma_undo(r, acc[i], term);
            lemma_laws(r, a, term, t);
            lemma_turn(r, a, term, t);
            lemma_laws(r, t, term, a);
            lemma_laws(r, a, t, term);
        }
    }
}

/// The masked loss is a weighted mean: the loss times the sum of the weights' magnitudes, and the
/// sum of the weights times the logarithms of the targets' probabilities, held between the floor
/// and one, add up to zero. `logs` are those logarithms, one for each row.
pub proof fn law_masked_loss<T, A: Arith<T>>(
    r: Ring<T>,
    gt: spec_fn(T, T) -> bool,
    probs: Seq<T>,
    inner: int,
    tg: Seq<i64>,
    mk: Seq<T>,
    logs: Seq<T>,
    loss: T,
) -> (mags: Seq<T>)
    requires
        exact::<T, A>(r),
        orders::<T, A>(r, gt),
        tells::<T, A>(),
        mk.len() == tg.len(),
        logs.len() == tg.len(),
        forall|i: int| 0 <= i < tg.len() ==> target_ok(#[trigger] tg[i], inner),
        forall|i: int, l: T|
            0 <= i < tg.len() && #[trigger] loss_log::<T, A>(probs[i * inner + tg[i]], l)
                ==> l == logs[i],
        masked_loss::<T, A>(probs, inner, tg, mk, loss),
    ensures
        maps(abs_rel::<T, A>(), mk, mags),
        r.total(mags, every(), mk.len() as int) != r.zero && gt(
            r.total(mags, every(), mk.len() as int),
            r.zero,
        ) ==> r.plus(
            r.times(loss, r.total(mags, every(), mk.len() as int)),
            r.total(products(r, mk, logs), every(), mk.len() as int),
        ) == r.zero,
{
    let count = choose|count: T| #[trigger]
        weight_total::<T, A>(mk, count) && (weighs::<T, A>(count, false) && is_zero::<T, A>(loss)
            || weighs::<T, A>(count, true) && shared_loss::<T, A>(
            probs,
            inner,
            tg,
            mk,
            count,
            loss,
        ));
    let mags = lemma_weight::<T, A>(r, mk, count);
    if count != r.zero && gt(count, r.zero) {
        assert(!weighs::<T, A>(count, false)) by {
            reveal(orders);
        }
        let step = loss_step::<T, A>(probs, inner, tg, mk);
        let n = tg.len() as int;
        let (z, end) = choose|z: T, end: T| #[trigger]
            is_zero::<T, A>(z) && #[trigger] folds(
                step,
                numbers(tg.len()),
                every(),
                n,
                z,
                end,
            ) && is_quotient::<T, A>(end, count, loss);
        let acc = choose|acc: Seq<T>| #[trigger]
            runs(step, numbers(tg.len()), every(), n, z, acc) && acc[n] == end;
        lemma_losses_run::<T, A>(r, probs, inner, tg, mk, logs, acc, n);
        lemma_divides::<T, A>(r, end, count, loss);
    }
    mags
}

/// The gradient of the masked cross-entropy: each entry times the sum of the weights' magnitudes is
/// the cotangent times the row's weight times the probability less the target. Widening a number
/// and narrowing it again gives it back.
pub proof fn law_masked_ce_gradient<S: Scalars>(
    r: Ring<S::F>,
    gt: spec_fn(S::F, S::F) -> bool,
    before: Seq<Node<S>>,
    after: Seq<Node<S>>,
    logits: Model<S>,
    targets: Model<S>,
    mask: Model<S>,
    y: Model<S>,
    gy: Model<S>,
    parts: Seq<Model<S>>,
) -> (w: (Model<S>, Seq<S::F>))
    requires
        exact::<S::F, S>(r),
        orders::<S::F, S>(r, gt),
        tells::<S::F, S>(),
        forall|x: S::F, c: S::D, z: S::F|
            #![trigger call_ensures(S::widen, (x,), c), call_ensures(S::narrow, (c,), z)]
            call_ensures(S::widen, (x,), c) && call_ensures(S::narrow, (c,), z) ==> z == x,
        logits.in_graph,
        logits.shape.len() == 2,
        logits.shape[1] > 0,
        masked_ce_tracked::<S>(before, after, logits, targets, mask, Ok(y)),
        after.len() > 0,
        after.last().vjp(gy, Ok(parts)),
    ensures
        after.len() == before.len() + 1,
        after.last().sources() == seq![logits],
        by_rows(
            probability_rel::<S::F, S>(),
            volume(targets.shape) as int,
            logits.shape[1] as int,
            logits.f32s(),
            w.0.f32s(),
        ),
        maps(abs_rel::<S::F, S>(), mask.f32s(), w.1),
        parts.len() == 1,
        parts[0].shape == logits.shape,
        r.total(w.1, every(), w.1.len() as int) != r.zero && gt(
            r.total(w.1, every(), w.1.len() as int),
            r.zero,
        ) ==> forall|i: int, c: int|
            0 <= i < volume(targets.shape) && 0 <= c < logits.shape[1] ==> r.times(
                #[trigger] parts[0].f32s()[i * logits.shape[1] + c],
                r.total(w.1, every(), w.1.len() as int),
            ) == r.times(
                gy.f32s()[0],
                r.times(
                    mask.f32s()[i],
                    r.minus(
                        w.0.f32s()[i * logits.shape[1] + c],
                        hot(r, targets.i64s()[i] == c),
                    ),
                ),
            ),
{
    let res: Outcome<S> = Ok(y);
    let rp: Result<Seq<Model<S>>, Error> = Ok(parts);
    let v = choose|v: Result<(Model<S>, Model<S>), Error>| #[trigger]
        masked_ce_out::<S>(logits, targets, mask, v) && tracked_out::<S>(
            before,
            after,
            logits.in_graph,
            first_of(v),
            seq![logits],
            RuleModel::MaskedCe {
                probs: v->Ok_0.1,
                targets: targets.detached(),
                mask: mask.detached(),
            },
            res,
        );
    let probs = v->Ok_0.1;
    assert(probs.elems() == probs.data);
    let (tg, mk) = (targets.detached(), mask.detached());
    assert(tg.i64s() == targets.i64s() && mk.f32s() == mask.f32s());
    reveal(masked_parts);
    let o = choose|o: Outcome<S>| #[trigger]
        masked_ce_backward_out::<S>(probs, tg, mk, o) && passes(
            o,
            rp,
            masked_times::<S>(o->Ok_0, gy, rp),
        );
    let g = o->Ok_0;
    assert(g.elems() == g.data);
    let c = choose|c: S::D| #[trigger]
        call_ensures(S::widen, (gy.f32s()[0],), c) && scaled_parts::<S>(g, c, rp);
    reveal(scaled_parts);
    let p = choose|p: Outcome<S>| #[trigger]
        mul_scalar_out::<S>(g, c, p) && passes(p, rp, gives(rp, seq![p->Ok_0]));
    assert(parts == seq![p->Ok_0]);
    lemma_one_f32::<S>(g, scaled_f32::<S>(c), scaled_f64::<S>(c), p->Ok_0);
    let inner = logits.shape[1] as int;
    let rows = targets.i64s().len();
    let k = gy.f32s()[0];
    assert(probs.shape == logits.shape);
    assert(volume(logits.shape) == rows * inner);
    let mags = law_masked_slopes::<S::F, S>(
        r,
        gt,
        probs.f32s(),
        inner,
        targets.i64s(),
        mask.f32s(),
        g.f32s(),
    );
    let count = r.total(mags, every(), mags.len() as int);
    if count != r.zero && gt(count, r.zero) {
        assert forall|i: int, j: int| 0 <= i < rows && 0 <= j < inner implies r.times(
            #[trigger] parts[0].f32s()[i * inner + j],
            count,
        ) == r.times(
            k,
            r.times(
                mask.f32s()[i],
                r.minus(probs.f32s()[i * inner + j], hot(r, targets.i64s()[i] == j)),
            ),
        ) by {
            let q = i * inner + j;
            assert(0 <= q < rows * inner) by (nonlinear_arith)
                requires
                    0 <= i < rows,
                    0 <= j < inner,
                    q == i * inner + j,
            ;
            assert(scaled_f32::<S>(c)(g.f32s()[q], parts[0].f32s()[q]));
            assert(is_product::<S::F, S>(g.f32s()[q], k, parts[0].f32s()[q]));
            lemma_turn(r, g.f32s()[q], k, count);
        }
    }
    (probs, mags)
}

} // verus!
