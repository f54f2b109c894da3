//! What the weights of the masked loss decide.
use vstd::prelude::*;
use crate::elementwise::maps;
use crate::loss::{
    is_floor, log_term, loss_step, masked_ce_backward_out, masked_loss, masked_slope,
    masked_slope_rel, masked_slope_row, masked_slopes, numbers, shared_loss, slopes_over,
    target_ok, weighs, weight_total, weight_zero, zero_row,
};
use crate::reduce::sums;
use crate::rows::{by_rows, inverse_of, row};
use crate::scalar::{
    adding, every, folds, is_difference, is_one, is_product, is_quotient, is_sum, is_zero, runs,
    Arith, Scalars,
};
use crate::tensor::Model;
use crate::unary::abs_rel;

verus! {

/// The weight is zero, and no comparison says otherwise.
pub open spec fn no_weight<T, A: Arith<T>>(weight: T) -> bool {
    !weight_zero::<T, A>(weight, false)
}

/// A row of no weight receives a cotangent that is exactly zero.
pub proof fn law_masked_rows_are_flat<S: Scalars>(
    probs: Model<S>,
    targets: Model<S>,
    mask: Model<S>,
    t: Model<S>,
    i: int,
    k: int,
)
    requires
        masked_ce_backward_out::<S>(probs, targets, mask, Ok(t)),
        probs.shape.len() >= 2,
        0 <= i < targets.i64s().len(),
        0 <= k < probs.shape[1],
        no_weight::<S::F, S>(mask.f32s()[i]),
    ensures
        is_zero::<S::F, S>(t.data->F32_0[i * probs.shape[1] + k]),
{
    let ps = probs.f32s();
    let inner = probs.shape[1] as int;
    let tg = targets.i64s();
    let mk = mask.f32s();
    let g = t.data->F32_0;
    let at = i * inner + k;
    assert(0 <= i * inner && i * inner + inner <= tg.len() * inner) by (nonlinear_arith)
        requires
            0 <= i < tg.len(),
            0 <= inner,
    ;
    let count = choose|count: S::F| #[trigger]
        weight_total::<S::F, S>(mk, count) && {
            ||| weighs::<S::F, S>(count, false) && zero_row::<S::F, S>(ps.len(), g)
            ||| weighs::<S::F, S>(count, true) && slopes_over::<S::F, S>(
                ps,
                inner,
                tg,
                mk,
                count,
                g,
            )
        };
    if zero_row::<S::F, S>(ps.len(), g) {
        let z = choose|z: S::F| #[trigger]
            is_zero::<S::F, S>(z) && g == Seq::new(ps.len(), |j: int| z);
        assert(g[at] == z);
    } else {
        let inverse = choose|inverse: S::F| #[trigger]
            inverse_of::<S::F, S>(count, inverse) && by_rows(
                masked_slope_rel::<S::F, S>(tg, mk, inverse),
                tg.len() as int,
                inner,
                ps,
                g,
            );
        let s = row(ps, inner, i);
        let d = row(g, inner, i);
        assert(masked_slope_rel::<S::F, S>(tg, mk, inverse)(i, s, d));
        assert(masked_slope_row::<S::F, S>(tg[i], mk[i], inverse, s, d));
        assert(zero_row::<S::F, S>(s.len(), d));
        let z = choose|z: S::F| #[trigger]
            is_zero::<S::F, S>(z) && d == Seq::new(s.len(), |j: int| z);
        assert(d[k] == z);
        assert(d[k] == g[at]);
    }
}

/// The rows agree wherever they have a weight.
pub open spec fn rows_agree<T, A: Arith<T>>(
    inner: int,
    mk: Seq<T>,
    probs: Seq<T>,
    tg: Seq<i64>,
    other: Seq<T>,
    named: Seq<i64>,
) -> bool {
    &&& named.len() == tg.len()
    &&& forall|i: int|
        0 <= i < tg.len() ==> no_weight::<T, A>(#[trigger] mk[i]) || (named[i] == tg[i]
            && other[i * inner + tg[i]] == probs[i * inner + tg[i]])
}

/// A row of no weight adds nothing: its probabilities and its class are not looked at.
pub proof fn law_masked_rows_add_nothing<T, A: Arith<T>>(
    inner: int,
    mk: Seq<T>,
    probs: Seq<T>,
    tg: Seq<i64>,
    other: Seq<T>,
    named: Seq<i64>,
    loss: T,
)
    requires
        rows_agree::<T, A>(inner, mk, probs, tg, other, named),
        masked_loss::<T, A>(probs, inner, tg, mk, loss),
    ensures
        masked_loss::<T, A>(other, inner, named, mk, loss),
{
    let count = choose|count: T| #[trigger]
        weight_total::<T, A>(mk, count) && {
            ||| weighs::<T, A>(count, false) && is_zero::<T, A>(loss)
            ||| weighs::<T, A>(count, true) && shared_loss::<T, A>(
                probs,
                inner,
                tg,
                mk,
                count,
                loss,
            )
        };
    assert(weight_total::<T, A>(mk, count));
    if !(weighs::<T, A>(count, false) && is_zero::<T, A>(loss)) {
        let n = tg.len() as int;
        let step = loss_step::<T, A>(probs, inner, tg, mk);
        let same = loss_step::<T, A>(other, inner, named, mk);
        let (z, acc) = choose|z: T, acc: T| #[trigger]
            is_zero::<T, A>(z) && #[trigger] folds(step, numbers(tg.len()), every(), n, z, acc)
                && is_quotient::<T, A>(acc, count, loss);
        let st = choose|st: Seq<T>| #[trigger]
            runs(step, numbers(tg.len()), every(), n, z, st) && st[n] == acc;
        assert forall|i: int| 0 <= i < n implies if every()(i) {
            same(st[i], numbers(tg.len())[i], #[trigger] st[i + 1])
        } else {
            st[i + 1] == st[i]
        } by {
            assert(every()(i));
            assert(step(st[i], numbers(tg.len())[i], st[i + 1]));
            assert(no_weight::<T, A>(mk[i]) || named[i] == tg[i]);
        }
        assert(runs(same, numbers(named.len()), every(), n, z, st));
        assert(folds(same, numbers(named.len()), every(), n, z, acc));
        assert(shared_loss::<T, A>(other, inner, named, mk, count, loss));
    }
}

/// Zeros add up to zero, and no zero lies above another.
pub open spec fn zeros_rest<T, A: Arith<T>>() -> bool {
    &&& forall|x: T, y: T, s: T|
        is_zero::<T, A>(x) && is_zero::<T, A>(y) && #[trigger] is_sum::<T, A>(x, y, s)
            ==> is_zero::<T, A>(s)
    &&& forall|x: T, y: T|
        is_zero::<T, A>(x) && is_zero::<T, A>(y) ==> !#[trigger] call_ensures(
            A::above,
            (x, y),
            true,
        )
}

/// Every weight is of magnitude zero.
pub open spec fn all_masked<T, A: Arith<T>>(mk: Seq<T>) -> bool {
    forall|i: int, m: T|
        0 <= i < mk.len() && #[trigger] call_ensures(A::magnitude, (mk[i],), m) ==> is_zero::<T, A>(
            m,
        )
}

/// Weights of magnitude zero do not weigh.
proof fn lemma_no_total<T, A: Arith<T>>(mk: Seq<T>, count: T)
    requires
        zeros_rest::<T, A>(),
        all_masked::<T, A>(mk),
        weight_total::<T, A>(mk, count),
    ensures
        !weighs::<T, A>(count, true),
{
    let mags = choose|mags: Seq<T>| #[trigger]
        maps(abs_rel::<T, A>(), mk, mags) && sums::<T, A>(mags, count);
    let n = mags.len() as int;
    let z = choose|z: T| #[trigger]
        is_zero::<T, A>(z) && folds(adding::<T, A>(), mags, every(), n, z, count);
    let acc = choose|acc: Seq<T>| #[trigger]
        runs(adding::<T, A>(), mags, every(), n, z, acc) && acc[n] == count;
    assert forall|i: int| 0 <= i < n implies is_zero::<T, A>(#[trigger] mags[i]) by {
        assert(abs_rel::<T, A>()(mk[i], mags[i]));
    }
    lemma_zeros_fold::<T, A>(mags, z, acc, n);
    assert(is_zero::<T, A>(count));
}

proof fn lemma_zeros_fold<T, A: Arith<T>>(mags: Seq<T>, z: T, acc: Seq<T>, n: int)
    requires
        zeros_rest::<T, A>(),
        is_zero::<T, A>(z),
        runs(adding::<T, A>(), mags, every(), mags.len() as int, z, acc),
        forall|i: int| 0 <= i < mags.len() ==> is_zero::<T, A>(#[trigger] mags[i]),
        0 <= n <= mags.len(),
    ensures
        is_zero::<T, A>(acc[n]),
    decreases n,
{
    if n > 0 {
        lemma_zeros_fold::<T, A>(mags, z, acc, n - 1);
        assert(every()(n - 1));
        assert(adding::<T, A>()(acc[n - 1], mags[n - 1], acc[n - 1 + 1]));
        assert(is_sum::<T, A>(acc[n - 1], mags[n - 1], acc[n]));
    }
}

/// A mask of zeros gives a loss that is exactly zero.
pub proof fn law_empty_mask_has_no_loss<T, A: Arith<T>>(
    probs: Seq<T>,
    inner: int,
    tg: Seq<i64>,
    mk: Seq<T>,
    loss: T,
)
    requires
        zeros_rest::<T, A>(),
        all_masked::<T, A>(mk),
        masked_loss::<T, A>(probs, inner, tg, mk, loss),
    ensures
        is_zero::<T, A>(loss),
{
    let count = choose|count: T| #[trigger]
        weight_total::<T, A>(mk, count) && {
            ||| weighs::<T, A>(count, false) && is_zero::<T, A>(loss)
            ||| weighs::<T, A>(count, true) && shared_loss::<T, A>(
                probs,
                inner,
                tg,
                mk,
                count,
                loss,
            )
        };
    lemma_no_total::<T, A>(mk, count);
}

/// A mask of zeros gives cotangents that are exactly zero.
pub proof fn law_empty_mask_has_no_slope<T, A: Arith<T>>(
    probs: Seq<T>,
    inner: int,
    tg: Seq<i64>,
    mk: Seq<T>,
    g: Seq<T>,
)
    requires
        zeros_rest::<T, A>(),
        all_masked::<T, A>(mk),
        masked_slopes::<T, A>(probs, inner, tg, mk, g),
    ensures
        zero_row::<T, A>(probs.len(), g),
{
    let count = choose|count: T| #[trigger]
        weight_total::<T, A>(mk, count) && {
            ||| weighs::<T, A>(count, false) && zero_row::<T, A>(probs.len(), g)
            ||| weighs::<T, A>(count, true) && slopes_over::<T, A>(probs, inner, tg, mk, count, g)
        };
    lemma_no_total::<T, A>(mk, count);
}

/// The logarithm that a probability brings to the loss.
pub open spec fn loss_log<T, A: Arith<T>>(p: T, log: T) -> bool {
    exists|least: T, one: T, held: T|
        {
            &&& #[trigger] is_floor::<T, A>(least)
            &&& #[trigger] is_one::<T, A>(one)
            &&& #[trigger] call_ensures(A::held, (p, least, one), held)
            &&& call_ensures(A::logarithm, (held,), log)
        }
}

/// A probability brings one logarithm.
pub open spec fn logs_decided<T, A: Arith<T>>() -> bool {
    forall|p: T, l: T, m: T|
        #![trigger loss_log::<T, A>(p, l), loss_log::<T, A>(p, m)]
        loss_log::<T, A>(p, l) && loss_log::<T, A>(p, m) ==> l == m
}

/// How weights relate passes on to weighted terms and to what is left after they are taken off.
pub open spec fn terms_follow<T, A: Arith<T>>(rel: spec_fn(T, T) -> bool) -> bool {
    &&& forall|x: T, y: T|
        #[trigger] is_zero::<T, A>(x) && #[trigger] is_zero::<T, A>(y) ==> rel(x, y)
    &&& forall|v: T, w: T, l: T, s: T, t: T|
        rel(v, w) && #[trigger] is_product::<T, A>(v, l, s) && #[trigger] is_product::<T, A>(
            w,
            l,
            t,
        ) ==> rel(s, t)
    &&& forall|a: T, b: T, s: T, t: T, x: T, y: T|
        rel(a, b) && rel(s, t) && #[trigger] is_difference::<T, A>(a, s, x)
            && #[trigger] is_difference::<T, A>(b, t, y) ==> rel(x, y)
}

/// How magnitudes relate passes on to their totals, and such totals weigh alike.
pub open spec fn totals_follow<T, A: Arith<T>>(tot: spec_fn(T, T) -> bool) -> bool {
    &&& forall|x: T, y: T|
        #[trigger] is_zero::<T, A>(x) && #[trigger] is_zero::<T, A>(y) ==> tot(x, y)
    &&& forall|a: T, b: T, m: T, n: T, x: T, y: T|
        tot(a, b) && tot(m, n) && #[trigger] is_sum::<T, A>(a, m, x) && #[trigger] is_sum::<T, A>(
            b,
            n,
            y,
        ) ==> tot(x, y)
    &&& forall|c: T, d: T, p: bool, q: bool|
        tot(c, d) && #[trigger] weighs::<T, A>(c, p) && #[trigger] weighs::<T, A>(d, q) ==> p == q
}

/// Shares of related sums in related totals are related.
pub open spec fn shares_follow<T, A: Arith<T>>(
    rel: spec_fn(T, T) -> bool,
    tot: spec_fn(T, T) -> bool,
    out: spec_fn(T, T) -> bool,
) -> bool {
    &&& forall|x: T, y: T|
        #[trigger] is_zero::<T, A>(x) && #[trigger] is_zero::<T, A>(y) ==> out(x, y)
    &&& forall|a: T, b: T, c: T, d: T, x: T, y: T|
        rel(a, b) && tot(c, d) && #[trigger] is_quotient::<T, A>(a, c, x)
            && #[trigger] is_quotient::<T, A>(b, d, y) ==> out(x, y)
}

/// The weights are related one by one, and so are their magnitudes; one of them is zero where the
/// other is.
pub open spec fn weights_follow<T, A: Arith<T>>(
    rel: spec_fn(T, T) -> bool,
    tot: spec_fn(T, T) -> bool,
    mk: Seq<T>,
    other: Seq<T>,
) -> bool {
    &&& mk.len() == other.len()
    &&& forall|i: int| 0 <= i < mk.len() ==> rel(#[trigger] mk[i], other[i])
    &&& forall|i: int, p: bool, q: bool|
        0 <= i < mk.len() && #[trigger] weight_zero::<T, A>(mk[i], p) && #[trigger] weight_zero::<
            T,
            A,
        >(other[i], q) ==> p == q
    &&& forall|i: int, m: T, n: T|
        0 <= i < mk.len() && #[trigger] call_ensures(A::magnitude, (mk[i],), m)
            && #[trigger] call_ensures(A::magnitude, (other[i],), n) ==> tot(m, n)
}

proof fn lemma_totals_follow<T, A: Arith<T>>(
    tot: spec_fn(T, T) -> bool,
    ms: Seq<T>,
    ns: Seq<T>,
    x: T,
    y: T,
    xs: Seq<T>,
    ys: Seq<T>,
    n: int,
)
    requires
        totals_follow::<T, A>(tot),
        is_zero::<T, A>(x),
        is_zero::<T, A>(y),
        ms.len() == ns.len(),
        runs(adding::<T, A>(), ms, every(), ms.len() as int, x, xs),
        runs(adding::<T, A>(), ns, every(), ns.len() as int, y, ys),
        forall|i: int| 0 <= i < ms.len() ==> tot(#[trigger] ms[i], ns[i]),
        0 <= n <= ms.len(),
    ensures
        tot(xs[n], ys[n]),
    decreases n,
{
    if n > 0 {
        lemma_totals_follow::<T, A>(tot, ms, ns, x, y, xs, ys, n - 1);
        assert(every()(n - 1));
        assert(adding::<T, A>()(xs[n - 1], ms[n - 1], xs[n - 1 + 1]));
        assert(adding::<T, A>()(ys[n - 1], ns[n - 1], ys[n - 1 + 1]));
        assert(is_sum::<T, A>(xs[n - 1], ms[n - 1], xs[n]));
        assert(is_sum::<T, A>(ys[n - 1], ns[n - 1], ys[n]));
        assert(tot(ms[n - 1], ns[n - 1]));
    }
}

proof fn lemma_counts_follow<T, A: Arith<T>>(
    rel: spec_fn(T, T) -> bool,
    tot: spec_fn(T, T) -> bool,
    mk: Seq<T>,
    other: Seq<T>,
    c: T,
    d: T,
)
    requires
        totals_follow::<T, A>(tot),
        weights_follow::<T, A>(rel, tot, mk, other),
        weight_total::<T, A>(mk, c),
        weight_total::<T, A>(other, d),
    ensures
        tot(c, d),
{
    let ms = choose|ms: Seq<T>| #[trigger]
        maps(abs_rel::<T, A>(), mk, ms) && sums::<T, A>(ms, c);
    let ns = choose|ns: Seq<T>| #[trigger]
        maps(abs_rel::<T, A>(), other, ns) && sums::<T, A>(ns, d);
    let n = ms.len() as int;
    let x = choose|x: T| #[trigger]
        is_zero::<T, A>(x) && folds(adding::<T, A>(), ms, every(), n, x, c);
    let y = choose|y: T| #[trigger]
        is_zero::<T, A>(y) && folds(adding::<T, A>(), ns, every(), n, y, d);
    let xs = choose|xs: Seq<T>| #[trigger]
        runs(adding::<T, A>(), ms, every(), n, x, xs) && xs[n] == c;
    let ys = choose|ys: Seq<T>| #[trigger]
        runs(adding::<T, A>(), ns, every(), n, y, ys) && ys[n] == d;
    assert forall|i: int| 0 <= i < n implies tot(#[trigger] ms[i], ns[i]) by {
        assert(abs_rel::<T, A>()(mk[i], ms[i]));
        assert(abs_rel::<T, A>()(other[i], ns[i]));
        assert(call_ensures(A::magnitude, (mk[i],), ms[i]));
        assert(call_ensures(A::magnitude, (other[i],), ns[i]));
    }
    lemma_totals_follow::<T, A>(tot, ms, ns, x, y, xs, ys, n);
}

/// One row's term on either side.
proof fn lemma_step_follows<T, A: Arith<T>>(
    rel: spec_fn(T, T) -> bool,
    p: T,
    v: T,
    w: T,
    a: T,
    b: T,
    x: T,
    y: T,
)
    requires
        logs_decided::<T, A>(),
        terms_follow::<T, A>(rel),
        rel(v, w),
        rel(a, b),
        log_term::<T, A>(a, v, p, x),
        log_term::<T, A>(b, w, p, y),
    ensures
        rel(x, y),
{
    let (l1, o1, h1, g1, t1) = choose|least: T, one: T, held: T, log: T, term: T|
        {
            &&& #[trigger] is_floor::<T, A>(least)
            &&& #[trigger] is_one::<T, A>(one)
            &&& #[trigger] call_ensures(A::held, (p, least, one), held)
            &&& #[trigger] call_ensures(A::logarithm, (held,), log)
            &&& #[trigger] is_product::<T, A>(v, log, term)
            &&& is_difference::<T, A>(a, term, x)
        };
    let (l2, o2, h2, g2, t2) = choose|least: T, one: T, held: T, log: T, term: T|
        {
            &&& #[trigger] is_floor::<T, A>(least)
            &&& #[trigger] is_one::<T, A>(one)
            &&& #[trigger] call_ensures(A::held, (p, least, one), held)
            &&& #[trigger] call_ensures(A::logarithm, (held,), log)
            &&& #[trigger] is_product::<T, A>(w, log, term)
            &&& is_difference::<T, A>(b, term, y)
        };
    assert(loss_log::<T, A>(p, g1));
    assert(loss_log::<T, A>(p, g2));
    assert(g1 == g2);
    assert(rel(t1, t2));
}

proof fn lemma_folds_follow<T, A: Arith<T>>(
    rel: spec_fn(T, T) -> bool,
    tot: spec_fn(T, T) -> bool,
    probs: Seq<T>,
    inner: int,
    tg: Seq<i64>,
    mk: Seq<T>,
    other: Seq<T>,
    x: T,
    y: T,
    xs: Seq<T>,
    ys: Seq<T>,
    n: int,
)
    requires
        logs_decided::<T, A>(),
        terms_follow::<T, A>(rel),
        weights_follow::<T, A>(rel, tot, mk, other),
        mk.len() == tg.len(),
        is_zero::<T, A>(x),
        is_zero::<T, A>(y),
        runs(
            loss_step::<T, A>(probs, inner, tg, mk),
            numbers(tg.len()),
            every(),
            tg.len() as int,
            x,
            xs,
        ),
        runs(
            loss_step::<T, A>(probs, inner, tg, other),
            numbers(tg.len()),
            every(),
            tg.len() as int,
            y,
            ys,
        ),
        0 <= n <= tg.len(),
    ensures
        rel(xs[n], ys[n]),
    decreases n,
{
    if n > 0 {
        lemma_folds_follow::<T, A>(rel, tot, probs, inner, tg, mk, other, x, y, xs, ys, n - 1);
        let i = n - 1;
        let step = loss_step::<T, A>(probs, inner, tg, mk);
        let same = loss_step::<T, A>(probs, inner, tg, other);
        assert(every()(i));
        assert(step(xs[i], numbers(tg.len())[i], xs[i + 1]));
        assert(same(ys[i], numbers(tg.len())[i], ys[i + 1]));
        assert(rel(mk[i], other[i]));
        if weight_zero::<T, A>(mk[i], true) && xs[n] == xs[i] {
            if !(weight_zero::<T, A>(other[i], true) && ys[n] == ys[i]) {
                assert(weight_zero::<T, A>(other[i], false));
            }
        } else {
            assert(weight_zero::<T, A>(mk[i], false));
            if weight_zero::<T, A>(other[i], true) && ys[n] == ys[i] {
                assert(false);
            }
            if target_ok(tg[i], inner) {
                lemma_step_follows::<T, A>(
                    rel,
                    probs[i * inner + tg[i]],
                    mk[i],
                    other[i],
                    xs[i],
                    ys[i],
                    xs[n],
                    ys[n],
                );
            }
        }
    }
}

/// The loss follows its weights. With weights that are related one by one, by a relation that the
/// arithmetic passes on, the losses are related as shares of such sums are. Negated weights, whose
/// magnitudes are the same, negate the loss wherever negation passes through products, differences
/// and quotients; scaled weights leave it as it is wherever a common factor falls out of a
/// quotient.
pub proof fn law_loss_follows_its_weights<T, A: Arith<T>>(
    rel: spec_fn(T, T) -> bool,
    tot: spec_fn(T, T) -> bool,
    out: spec_fn(T, T) -> bool,
    probs: Seq<T>,
    inner: int,
    tg: Seq<i64>,
    mk: Seq<T>,
    other: Seq<T>,
    loss: T,
    next: T,
)
    requires
        logs_decided::<T, A>(),
        terms_follow::<T, A>(rel),
        totals_follow::<T, A>(tot),
        shares_follow::<T, A>(rel, tot, out),
        weights_follow::<T, A>(rel, tot, mk, other),
        mk.len() == tg.len(),
        masked_loss::<T, A>(probs, inner, tg, mk, loss),
        masked_loss::<T, A>(probs, inner, tg, other, next),
    ensures
        out(loss, next),
{
    let c = choose|count: T| #[trigger]
        weight_total::<T, A>(mk, count) && {
            ||| weighs::<T, A>(count, false) && is_zero::<T, A>(loss)
            ||| weighs::<T, A>(count, true) && shared_loss::<T, A>(
                probs,
                inner,
                tg,
                mk,
                count,
                loss,
            )
        };
    let d = choose|count: T| #[trigger]
        weight_total::<T, A>(other, count) && {
            ||| weighs::<T, A>(count, false) && is_zero::<T, A>(next)
            ||| weighs::<T, A>(count, true) && shared_loss::<T, A>(
                probs,
                inner,
                tg,
                other,
                count,
                next,
            )
        };
    lemma_counts_follow::<T, A>(rel, tot, mk, other, c, d);
    let n = tg.len() as int;
    if weighs::<T, A>(c, false) && is_zero::<T, A>(loss) {
        assert(!weighs::<T, A>(d, true));
    } else {
        assert(weighs::<T, A>(c, true));
        assert(!weighs::<T, A>(d, false));
        let step = loss_step::<T, A>(probs, inner, tg, mk);
        let same = loss_step::<T, A>(probs, inner, tg, other);
        let (x, a) = choose|z: T, acc: T| #[trigger]
            is_zero::<T, A>(z) && #[trigger] folds(step, numbers(tg.len()), every(), n, z, acc)
                && is_quotient::<T, A>(acc, c, loss);
        let (y, b) = choose|z: T, acc: T| #[trigger]
            is_zero::<T, A>(z) && #[trigger] folds(same, numbers(tg.len()), every(), n, z, acc)
                && is_quotient::<T, A>(acc, d, next);
        let xs = choose|st: Seq<T>| #[trigger]
            runs(step, numbers(tg.len()), every(), n, x, st) && st[n] == a;
        let ys = choose|st: Seq<T>| #[trigger]
            runs(same, numbers(tg.len()), every(), n, y, st) && st[n] == b;
        lemma_folds_follow::<T, A>(rel, tot, probs, inner, tg, mk, other, x, y, xs, ys, n);
        assert(rel(a, b));
    }
}

/// A probability less one for the class that was asked for, less zero for another.
pub open spec fn rest_from<T, A: Arith<T>>(p: T, hot: bool, rest: T) -> bool {
    exists|h: T|
        {
            &&& hot ==> is_one::<T, A>(h)
            &&& !hot ==> is_zero::<T, A>(h)
            &&& #[trigger] is_difference::<T, A>(p, h, rest)
        }
}

/// A probability leaves one rest.
pub open spec fn rests_decided<T, A: Arith<T>>() -> bool {
    forall|p: T, hot: bool, x: T, y: T|
        #![trigger rest_from::<T, A>(p, hot, x), rest_from::<T, A>(p, hot, y)]
        rest_from::<T, A>(p, hot, x) && rest_from::<T, A>(p, hot, y) ==> x == y
}

/// How weights relate passes on to weighted rests, and to the shares of these in related totals.
pub open spec fn rests_follow<T, A: Arith<T>>(
    rel: spec_fn(T, T) -> bool,
    tot: spec_fn(T, T) -> bool,
    out: spec_fn(T, T) -> bool,
) -> bool {
    &&& forall|x: T, y: T|
        #[trigger] is_zero::<T, A>(x) && #[trigger] is_zero::<T, A>(y) ==> out(x, y)
    &&& forall|v: T, w: T, rest: T, s: T, t: T|
        rel(v, w) && #[trigger] is_product::<T, A>(rest, v, s) && #[trigger] is_product::<T, A>(
            rest,
            w,
            t,
        ) ==> rel(s, t)
    &&& forall|s: T, t: T, c: T, d: T, i: T, j: T, x: T, y: T|
        rel(s, t) && tot(c, d) && #[trigger] inverse_of::<T, A>(c, i) && #[trigger] inverse_of::<
            T,
            A,
        >(d, j) && #[trigger] is_product::<T, A>(s, i, x) && #[trigger] is_product::<T, A>(t, j, y)
            ==> out(x, y)
}

proof fn lemma_slope_follows<T, A: Arith<T>>(
    rel: spec_fn(T, T) -> bool,
    tot: spec_fn(T, T) -> bool,
    out: spec_fn(T, T) -> bool,
    p: T,
    hot: bool,
    v: T,
    w: T,
    c: T,
    d: T,
    i: T,
    j: T,
    x: T,
    y: T,
)
    requires
        rests_decided::<T, A>(),
        rests_follow::<T, A>(rel, tot, out),
        rel(v, w),
        tot(c, d),
        inverse_of::<T, A>(c, i),
        inverse_of::<T, A>(d, j),
        masked_slope::<T, A>(p, hot, v, i, x),
        masked_slope::<T, A>(p, hot, w, j, y),
    ensures
        out(x, y),
{
    let (h1, r1, s1) = choose|h: T, rest: T, scaled: T|
        {
            &&& hot ==> is_one::<T, A>(h)
            &&& !hot ==> is_zero::<T, A>(h)
            &&& #[trigger] is_difference::<T, A>(p, h, rest)
            &&& #[trigger] is_product::<T, A>(rest, v, scaled)
            &&& is_product::<T, A>(scaled, i, x)
        };
    let (h2, r2, s2) = choose|h: T, rest: T, scaled: T|
        {
            &&& hot ==> is_one::<T, A>(h)
            &&& !hot ==> is_zero::<T, A>(h)
            &&& #[trigger] is_difference::<T, A>(p, h, rest)
            &&& #[trigger] is_product::<T, A>(rest, w, scaled)
            &&& is_product::<T, A>(scaled, j, y)
        };
    assert(rest_from::<T, A>(p, hot, r1));
    assert(rest_from::<T, A>(p, hot, r2));
    assert(r1 == r2);
    assert(rel(s1, s2));
}

proof fn lemma_slopes_follow<T, A: Arith<T>>(
    rel: spec_fn(T, T) -> bool,
    tot: spec_fn(T, T) -> bool,
    out: spec_fn(T, T) -> bool,
    probs: Seq<T>,
    inner: int,
    tg: Seq<i64>,
    mk: Seq<T>,
    other: Seq<T>,
    c: T,
    d: T,
    g: Seq<T>,
    h: Seq<T>,
    r: int,
    k: int,
)
    requires
        rests_decided::<T, A>(),
        rests_follow::<T, A>(rel, tot, out),
        weights_follow::<T, A>(rel, tot, mk, other),
        mk.len() == tg.len(),
        probs.len() == tg.len() * inner,
        tot(c, d),
        slopes_over::<T, A>(probs, inner, tg, mk, c, g),
        slopes_over::<T, A>(probs, inner, tg, other, d, h),
        0 <= r < tg.len(),
        0 <= k < inner,
    ensures
        out(g[r * inner + k], h[r * inner + k]),
{
    assert(0 <= r * inner && r * inner + inner <= tg.len() * inner) by (nonlinear_arith)
        requires
            0 <= r < tg.len(),
            0 <= inner,
    ;
    let i = choose|inverse: T| #[trigger]
        inverse_of::<T, A>(c, inverse) && by_rows(
            masked_slope_rel::<T, A>(tg, mk, inverse),
            tg.len() as int,
            inner,
            probs,
            g,
        );
    let j = choose|inverse: T| #[trigger]
        inverse_of::<T, A>(d, inverse) && by_rows(
            masked_slope_rel::<T, A>(tg, other, inverse),
            tg.len() as int,
            inner,
            probs,
            h,
        );
    let s = row(probs, inner, r);
    let x = row(g, inner, r);
    let y = row(h, inner, r);
    assert(masked_slope_rel::<T, A>(tg, mk, i)(r, s, x));
    assert(masked_slope_rel::<T, A>(tg, other, j)(r, s, y));
    assert(masked_slope_row::<T, A>(tg[r], mk[r], i, s, x));
    assert(masked_slope_row::<T, A>(tg[r], other[r], j, s, y));
    assert(rel(mk[r], other[r]));
    if weight_zero::<T, A>(mk[r], true) && zero_row::<T, A>(s.len(), x) {
        assert(!weight_zero::<T, A>(other[r], false));
        let z = choose|z: T| #[trigger] is_zero::<T, A>(z) && x == Seq::new(s.len(), |q: int| z);
        let u = choose|u: T| #[trigger] is_zero::<T, A>(u) && y == Seq::new(s.len(), |q: int| u);
        assert(x[k] == z && y[k] == u);
    } else {
        assert(weight_zero::<T, A>(mk[r], false));
        assert(!weight_zero::<T, A>(other[r], true));
        assert(masked_slope::<T, A>(s[k], tg[r] == k, mk[r], i, x[k]));
        assert(masked_slope::<T, A>(s[k], tg[r] == k, other[r], j, y[k]));
        lemma_slope_follows::<T, A>(
            rel,
            tot,
            out,
            s[k],
            tg[r] == k,
            mk[r],
            other[r],
            c,
            d,
            i,
            j,
            x[k],
            y[k],
        );
    }
    assert(x[k] == g[r * inner + k]);
    assert(y[k] == h[r * inner + k]);
}

/// The cotangents of the masked loss follow its weights as the loss does.
pub proof fn law_slopes_follow_the_weights<T, A: Arith<T>>(
    rel: spec_fn(T, T) -> bool,
    tot: spec_fn(T, T) -> bool,
    out: spec_fn(T, T) -> bool,
    probs: Seq<T>,
    inner: int,
    tg: Seq<i64>,
    mk: Seq<T>,
    other: Seq<T>,
    g: Seq<T>,
    h: Seq<T>,
    r: int,
    k: int,
)
    requires
        rests_decided::<T, A>(),
        totals_follow::<T, A>(tot),
        rests_follow::<T, A>(rel, tot, out),
        weights_follow::<T, A>(rel, tot, mk, other),
        mk.len() == tg.len(),
        probs.len() == tg.len() * inner,
        masked_slopes::<T, A>(probs, inner, tg, mk, g),
        masked_slopes::<T, A>(probs, inner, tg, other, h),
        0 <= r < tg.len(),
        0 <= k < inner,
    ensures
        out(g[r * inner + k], h[r * inner + k]),
{
    assert(0 <= r * inner && r * inner + inner <= tg.len() * inner) by (nonlinear_arith)
        requires
            0 <= r < tg.len(),
            0 <= inner,
    ;
    let c = choose|count: T| #[trigger]
        weight_total::<T, A>(mk, count) && {
            ||| weighs::<T, A>(count, false) && zero_row::<T, A>(probs.len(), g)
            ||| weighs::<T, A>(count, true) && slopes_over::<T, A>(probs, inner, tg, mk, count, g)
        };
    let d = choose|count: T| #[trigger]
        weight_total::<T, A>(other, count) && {
            ||| weighs::<T, A>(count, false) && zero_row::<T, A>(probs.len(), h)
            ||| weighs::<T, A>(count, true) && slopes_over::<T, A>(
                probs,
                inner,
                tg,
                other,
                count,
                h,
            )
        };
    lemma_counts_follow::<T, A>(rel, tot, mk, other, c, d);
    if weighs::<T, A>(c, false) && zero_row::<T, A>(probs.len(), g) {
        assert(!weighs::<T, A>(d, true));
        let n = probs.len();
        let z = choose|z: T| #[trigger] is_zero::<T, A>(z) && g == Seq::new(n, |q: int| z);
        let u = choose|u: T| #[trigger] is_zero::<T, A>(u) && h == Seq::new(n, |q: int| u);
        assert(g[r * inner + k] == z && h[r * inner + k] == u);
    } else {
        assert(weighs::<T, A>(c, true));
        assert(!weighs::<T, A>(d, false));
        lemma_slopes_follow::<T, A>(rel, tot, out, probs, inner, tg, mk, other, c, d, g, h, r, k);
    }
}

} // verus!
