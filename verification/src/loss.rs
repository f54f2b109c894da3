//! Masked cross-entropy and its derivative.
use vstd::prelude::*;
use crate::dtype::Dtype;
use crate::elementwise::maps;
use crate::error::{Error, ErrorKind};
use crate::index::{fits, volume};
use crate::reduce::{add_up, sums};
use crate::rows::{
    by_rows, map_rows, probabilities_of, probability_row, row_called, lemma_rows_weaken,
    inverse_of,
};
use crate::scalar::{
    every, folds, is_difference, is_one, is_product, is_quotient, is_zero, lemma_folds_start,
    lemma_folds_step, Arith, Scalars,
};
use crate::slopes::pair_outcome;
use crate::tensor::{numel_error, outcome, repeated, Model, Outcome, Tensor, TensorModel};
use crate::text::{decimal, push_decimal, with_number};
use crate::unary::{abs_of, abs_rel};

verus! {

/// Number of elements, or zero where it does not fit.
pub open spec fn count_of(shape: Seq<usize>) -> int {
    if fits(shape) {
        volume(shape) as int
    } else {
        0
    }
}

/// `count` is the sum of the magnitudes of the weights.
pub open spec fn weight_total<T, A: Arith<T>>(mk: Seq<T>, count: T) -> bool {
    exists|mags: Seq<T>| #[trigger] maps(abs_rel::<T, A>(), mk, mags) && sums::<T, A>(mags, count)
}

/// The class of row `i` is a column.
pub open spec fn target_ok(t: i64, inner: int) -> bool {
    0 <= t < inner
}

/// `x` is the least probability of which the loss takes the logarithm, `1e-30`.
pub open spec fn is_floor<T, A: Arith<T>>(x: T) -> bool {
    call_ensures(A::scientific, (1i64, (-30) as i32), x)
}

/// `r` is `acc` less the weight times the logarithm of the held probability `p`.
pub open spec fn log_term<T, A: Arith<T>>(acc: T, weight: T, p: T, r: T) -> bool {
    exists|least: T, one: T, held: T, log: T, term: T|
        {
            &&& #[trigger] is_floor::<T, A>(least)
            &&& #[trigger] is_one::<T, A>(one)
            &&& #[trigger] call_ensures(A::held, (p, least, one), held)
            &&& #[trigger] call_ensures(A::logarithm, (held,), log)
            &&& #[trigger] is_product::<T, A>(weight, log, term)
            &&& is_difference::<T, A>(acc, term, r)
        }
}

/// Whether a weight is zero.
pub open spec fn weight_zero<T, A: Arith<T>>(weight: T, yes: bool) -> bool {
    exists|z: T| #[trigger] is_zero::<T, A>(z) && call_ensures(A::same, (weight, z), yes)
}

/// One row's part in the loss: nothing where its weight is zero or its class is no column.
pub open spec fn loss_step<T, A: Arith<T>>(
    probs: Seq<T>,
    inner: int,
    tg: Seq<i64>,
    mk: Seq<T>,
) -> spec_fn(T, int, T) -> bool {
    |acc: T, i: int, r: T|
        {
            ||| weight_zero::<T, A>(mk[i], true) && r == acc
            ||| weight_zero::<T, A>(mk[i], false) && if target_ok(tg[i], inner) {
                log_term::<T, A>(acc, mk[i], probs[i * inner + tg[i]], r)
            } else {
                r == acc
            }
        }
}

/// The row numbers.
pub open spec fn numbers(n: nat) -> Seq<int> {
    Seq::new(n, |i: int| i)
}

/// Whether the weights add up to more than nothing.
pub open spec fn weighs<T, A: Arith<T>>(count: T, yes: bool) -> bool {
    exists|z: T| #[trigger] is_zero::<T, A>(z) && call_ensures(A::above, (count, z), yes)
}

/// The loss: zero where nothing weighs, else the sum of the rows' parts divided by the sum of the
/// weights' magnitudes.
pub open spec fn masked_loss<T, A: Arith<T>>(
    probs: Seq<T>,
    inner: int,
    tg: Seq<i64>,
    mk: Seq<T>,
    loss: T,
) -> bool {
    exists|count: T| #[trigger]
        weight_total::<T, A>(mk, count) && {
            ||| weighs::<T, A>(count, false) && is_zero::<T, A>(loss)
            ||| weighs::<T, A>(count, true) && shared_loss::<T, A>(
                probs,
                inner,
                tg,
                mk,
                count,
                loss,
            )
        }
}

/// The sum of the rows' parts divided by `count`.
pub open spec fn shared_loss<T, A: Arith<T>>(
    probs: Seq<T>,
    inner: int,
    tg: Seq<i64>,
    mk: Seq<T>,
    count: T,
    loss: T,
) -> bool {
    exists|z: T, acc: T| #[trigger]
        is_zero::<T, A>(z) && #[trigger] folds(
            loss_step::<T, A>(probs, inner, tg, mk),
            numbers(tg.len()),
            every(),
            tg.len() as int,
            z,
            acc,
        ) && is_quotient::<T, A>(acc, count, loss)
}

/// Sum of the magnitudes.
fn weight_total_of<T: Copy, A: Arith<T>>(mk: &[T]) -> (count: T)
    ensures
        weight_total::<T, A>(mk@, count),
{
    let mut mags: Vec<T> = Vec::new();
    let mut i: usize = 0;
    while i < mk.len()
        invariant
            i <= mk@.len(),
            mags@.len() == i,
            forall|j: int| 0 <= j < i ==> abs_of::<T, A>(mk@[j], #[trigger] mags@[j]),
        decreases mk@.len() - i,
    {
        mags.push(A::magnitude(mk[i]));
        i = i + 1;
    }
    let count: T = add_up::<T, A>(mags.as_slice(), 0, mags.len());
    assert(mags@.subrange(0, mags@.len() as int) =~= mags@);
    assert(maps(abs_rel::<T, A>(), mk@, mags@));
    count
}

fn log_term_of<T: Copy, A: Arith<T>>(acc: T, weight: T, p: T) -> (r: T)
    ensures
        log_term::<T, A>(acc, weight, p, r),
{
    let least: T = A::scientific(1, -30);
    let one: T = A::one();
    let held: T = A::held(p, least, one);
    let log: T = A::logarithm(held);
    let term: T = A::times(weight, log);
    let r: T = A::minus(acc, term);
    assert(is_floor::<T, A>(least));
    assert(is_one::<T, A>(one));
    assert(call_ensures(A::held, (p, least, one), held));
    assert(call_ensures(A::logarithm, (held,), log));
    assert(is_product::<T, A>(weight, log, term));
    assert(is_difference::<T, A>(acc, term, r));
    r
}

fn weight_is_zero<T: Copy, A: Arith<T>>(weight: T) -> (yes: bool)
    ensures
        weight_zero::<T, A>(weight, yes),
{
    let z: T = A::zero();
    assert(is_zero::<T, A>(z));
    A::same(weight, z)
}

fn weighs_of<T: Copy, A: Arith<T>>(count: T) -> (yes: bool)
    ensures
        weighs::<T, A>(count, yes),
{
    let z: T = A::zero();
    assert(is_zero::<T, A>(z));
    A::above(count, z)
}

fn masked_loss_of<T: Copy, A: Arith<T>>(
    probs: &[T],
    inner: usize,
    tg: &[i64],
    mk: &[T],
) -> (loss: T)
    requires
        probs@.len() == tg@.len() * inner,
        mk@.len() == tg@.len(),
    ensures
        masked_loss::<T, A>(probs@, inner as int, tg@, mk@, loss),
{
    let count: T = weight_total_of::<T, A>(mk);
    let z: T = A::zero();
    assert(is_zero::<T, A>(z));
    if !weighs_of::<T, A>(count) {
        return z;
    }
    let ghost step = loss_step::<T, A>(probs@, inner as int, tg@, mk@);
    let ghost items = numbers(tg@.len());
    let mut acc: T = z;
    let mut i: usize = 0;
    proof {
        lemma_folds_start(step, items, every(), z);
    }
    while i < tg.len()
        invariant
            i <= tg@.len(),
            probs@.len() == tg@.len() * inner,
            mk@.len() == tg@.len(),
            step == loss_step::<T, A>(probs@, inner as int, tg@, mk@),
            items == numbers(tg@.len()),
            folds(step, items, every(), i as int, z, acc),
        decreases tg@.len() - i,
    {
        let ghost before = acc;
        if !weight_is_zero::<T, A>(mk[i]) {
            let t: i64 = tg[i];
            if t >= 0 && (t as u64 as u128) < inner as u128 {
                assert(probs.len() == probs@.len());
                proof {
                    let n = tg@.len();
                    assert(i * inner + inner <= n * inner && 0 <= i * inner) by (nonlinear_arith)
                        requires
                            0 <= i < n,
                            inner >= 0,
                    ;
                }
                acc = log_term_of::<T, A>(acc, mk[i], probs[i * inner + t as usize]);
            }
        }
        proof {
            lemma_folds_step(step, items, every(), i as int, z, before, acc);
        }
        i = i + 1;
    }
    let loss: T = A::over(acc, count);
    assert(shared_loss::<T, A>(probs@, inner as int, tg@, mk@, count, loss));
    loss
}

/// Types are those that the loss asks for.
pub open spec fn masked_types<F, D>(
    logits: TensorModel<F, D>,
    targets: TensorModel<F, D>,
    mask: TensorModel<F, D>,
) -> bool {
    logits.dtype() == Dtype::F32 && targets.dtype() == Dtype::I64 && mask.dtype() == Dtype::F32
}

/// Lengths agree: one target and one weight for each row.
pub open spec fn masked_lengths<F, D>(
    logits: TensorModel<F, D>,
    targets: TensorModel<F, D>,
    mask: TensorModel<F, D>,
) -> bool {
    &&& volume(targets.shape) * logits.shape[1] == count_of(logits.shape)
    &&& volume(mask.shape) == volume(targets.shape)
}

/// A masked loss, or its derivative, is refused.
pub open spec fn masked_error<F, D>(
    e: Error,
    op: Seq<char>,
    what: Seq<char>,
    logits: TensorModel<F, D>,
    targets: TensorModel<F, D>,
    mask: TensorModel<F, D>,
) -> bool {
    if !masked_types(logits, targets, mask) {
        e.says(
            ErrorKind::Dtype,
            "to_vec"@,
            if logits.dtype() == Dtype::F32 && targets.dtype() != Dtype::I64 {
                "expected i64"@
            } else {
                "expected f32"@
            },
        )
    } else if !masked_lengths(logits, targets, mask) {
        e.says(
            ErrorKind::Shape,
            op,
            "targets/mask length "@ + decimal(volume(targets.shape)) + what + decimal(
                logits.shape[0] as nat,
            ) + "x"@ + decimal(logits.shape[1] as nat),
        )
    } else {
        !fits(logits.shape) && numel_error(e)
    }
}

/// Probabilities, as a relation of rows.
pub open spec fn probability_rel<T, A: Arith<T>>() -> spec_fn(int, Seq<T>, Seq<T>) -> bool {
    |r: int, s: Seq<T>, y: Seq<T>| probability_row::<T, A>(s, y)
}

/// What `masked_ce` comes to.
pub open spec fn masked_ce_out<S: Scalars>(
    logits: Model<S>,
    targets: Model<S>,
    mask: Model<S>,
    r: Result<(Model<S>, Model<S>), Error>,
) -> bool {
    match r {
        Ok(p) => {
            &&& masked_types(logits, targets, mask) && masked_lengths(logits, targets, mask)
            &&& fits(logits.shape)
            &&& p.0.plain(Seq::empty()) && p.0.valid() && p.0.elems() == p.0.data && p.0.data is F32
            &&& p.1.plain(logits.shape) && p.1.valid() && p.1.elems() == p.1.data
                && p.1.data is F32
            &&& by_rows(
                probability_rel::<S::F, S>(),
                volume(targets.shape) as int,
                logits.shape[1] as int,
                logits.f32s(),
                p.1.data->F32_0,
            )
            &&& masked_loss::<S::F, S>(
                p.1.data->F32_0,
                logits.shape[1] as int,
                targets.i64s(),
                mask.f32s(),
                p.0.data->F32_0[0],
            )
        },
        Err(e) => masked_error(
            e,
            "masked_ce"@,
            " inconsistent with logits "@,
            logits,
            targets,
            mask,
        ),
    }
}

/// Error text of lengths that do not agree.
fn length_message(n: usize, what: &str, rows: usize, columns: usize) -> (r: String)
    ensures
        r@ == "targets/mask length "@ + decimal(n as nat) + what@ + decimal(rows as nat) + "x"@
            + decimal(columns as nat),
{
    let mut s: String = with_number("targets/mask length ", n);
    s.append(what);
    push_decimal(&mut s, rows as u128);
    s.append("x");
    push_decimal(&mut s, columns as u128);
    s
}

/// The targets and weights, checked against rows of `[n, inner]`.
fn checked_rows<S: Scalars>(
    logits: &Tensor<S>,
    targets: &Tensor<S>,
    mask: &Tensor<S>,
    op: &'static str,
    what: &str,
) -> (r: Result<(Vec<i64>, Vec<S::F>), Error>)
    requires
        logits@.shape.len() >= 2,
    ensures
        r matches Ok(p) ==> masked_types(logits@, targets@, mask@) && masked_lengths(
            logits@,
            targets@,
            mask@,
        ) && fits(logits@.shape) && p.0@ == targets@.i64s() && p.1@ == mask@.f32s(),
        r matches Err(e) ==> !(masked_types(logits@, targets@, mask@) && masked_lengths(
            logits@,
            targets@,
            mask@,
        ) && fits(logits@.shape)) && masked_error(e, op@, what@, logits@, targets@, mask@),
{
    if logits.dtype() != Dtype::F32 {
        return Err(Error::dtype("to_vec", "expected f32".to_owned()));
    }
    let tg: Vec<i64> = match targets.to_vec_i64() {
        Ok(v) => v,
        Err(e) => {
            return Err(e);
        },
    };
    let mk: Vec<S::F> = match mask.to_vec_f32() {
        Ok(v) => v,
        Err(e) => {
            return Err(e);
        },
    };
    let n: usize = tg.len();
    let inner: usize = logits.shape()[1];
    assert(n * inner <= u128::MAX) by (nonlinear_arith)
        requires
            n <= usize::MAX,
            inner <= usize::MAX,
            usize::MAX <= 0xffff_ffff_ffff_ffff,
    ;
    if n as u128 * inner as u128 != logits.numel() as u128 || mk.len() != n {
        return Err(Error::shape(op, length_message(n, what, logits.shape()[0], inner)));
    }
    match crate::shape::numel(logits.shape()) {
        Ok(_) => {},
        Err(e) => {
            return Err(e);
        },
    }
    Ok((tg, mk))
}

/// Masked cross-entropy: minus the mean, over the weights' magnitudes, of each row's weight times
/// the logarithm of the probability of its class. Gives the loss and the probabilities. Where
/// nothing weighs the loss is zero.
pub fn masked_ce<S: Scalars>(
    logits: &Tensor<S>,
    targets: &Tensor<S>,
    mask: &Tensor<S>,
) -> (r: Result<
    (Tensor<S>, Tensor<S>),
    Error,
>)
    requires
        logits@.shape.len() >= 2,
    ensures
        masked_ce_out::<S>(logits@, targets@, mask@, pair_outcome(r)),
{
    let (tg, mk): (Vec<i64>, Vec<S::F>) = match checked_rows(
        logits,
        targets,
        mask,
        "masked_ce",
        " inconsistent with logits ",
    ) {
        Ok(p) => p,
        Err(e) => {
            return Err(e);
        },
    };
    let src: Vec<S::F> = match logits.to_vec_f32() {
        Ok(v) => v,
        Err(e) => {
            return Err(e);
        },
    };
    let n: usize = tg.len();
    let inner: usize = logits.shape()[1];
    let f = |r: usize, s: &[S::F]| -> (o: Vec<S::F>)
        ensures
            probability_row::<S::F, S>(s@, o@),
            o@.len() == s@.len()
    { probabilities_of::<S::F, S>(s) };
    let probs: Vec<S::F> = map_rows(src.as_slice(), n, inner, f);
    proof {
        lemma_rows_weaken(
            |r: int, s: Seq<S::F>, d: Seq<S::F>| row_called(f, r, s, d),
            probability_rel::<S::F, S>(),
            n as int,
            inner as int,
            src@,
            probs@,
        );
    }
    let loss: S::F = masked_loss_of::<S::F, S>(
        probs.as_slice(),
        inner,
        tg.as_slice(),
        mk.as_slice(),
    );
    match (Tensor::scalar_f32(loss), Tensor::from_vec_f32(probs, logits.shape())) {
        (Ok(l), Ok(p)) => Ok((l, p)),
        (Err(e), _) => Err(e),
        (_, Err(e)) => Err(e),
    }
}

/// `d` is `(p - hot) * weight * inverse`, where `hot` is one on the row's class and zero elsewhere.
pub open spec fn masked_slope<T, A: Arith<T>>(
    p: T,
    hot: bool,
    weight: T,
    inverse: T,
    d: T,
) -> bool {
    exists|h: T, rest: T, scaled: T|
        {
            &&& hot ==> is_one::<T, A>(h)
            &&& !hot ==> is_zero::<T, A>(h)
            &&& #[trigger] is_difference::<T, A>(p, h, rest)
            &&& #[trigger] is_product::<T, A>(rest, weight, scaled)
            &&& is_product::<T, A>(scaled, inverse, d)
        }
}

/// The derivative of the loss by a row of probabilities `s`.
pub open spec fn masked_slope_row<T, A: Arith<T>>(
    t: i64,
    weight: T,
    inverse: T,
    s: Seq<T>,
    d: Seq<T>,
) -> bool {
    ||| weight_zero::<T, A>(weight, true) && zero_row::<T, A>(s.len(), d)
    ||| weight_zero::<T, A>(weight, false) && d.len() == s.len() && forall|k: int|
        0 <= k < d.len() ==> masked_slope::<T, A>(s[k], t == k, weight, inverse, #[trigger] d[k])
}

/// Zeros.
pub open spec fn zero_row<T, A: Arith<T>>(n: nat, d: Seq<T>) -> bool {
    exists|z: T| #[trigger] is_zero::<T, A>(z) && d == Seq::new(n, |k: int| z)
}

/// The derivative of the loss, as a relation of rows.
pub open spec fn masked_slope_rel<T, A: Arith<T>>(tg: Seq<i64>, mk: Seq<T>, inverse: T) -> spec_fn(
    int,
    Seq<T>,
    Seq<T>,
) -> bool {
    |r: int, s: Seq<T>, d: Seq<T>| masked_slope_row::<T, A>(tg[r], mk[r], inverse, s, d)
}

/// The derivative of the loss: zero where nothing weighs, else row by row.
pub open spec fn masked_slopes<T, A: Arith<T>>(
    probs: Seq<T>,
    inner: int,
    tg: Seq<i64>,
    mk: Seq<T>,
    g: Seq<T>,
) -> bool {
    exists|count: T| #[trigger]
        weight_total::<T, A>(mk, count) && {
            ||| weighs::<T, A>(count, false) && zero_row::<T, A>(probs.len(), g)
            ||| weighs::<T, A>(count, true) && slopes_over::<T, A>(probs, inner, tg, mk, count, g)
        }
}

/// Row by row with the inverse of `count`.
pub open spec fn slopes_over<T, A: Arith<T>>(
    probs: Seq<T>,
    inner: int,
    tg: Seq<i64>,
    mk: Seq<T>,
    count: T,
    g: Seq<T>,
) -> bool {
    exists|inverse: T| #[trigger]
        inverse_of::<T, A>(count, inverse) && by_rows(
            masked_slope_rel::<T, A>(tg, mk, inverse),
            tg.len() as int,
            inner,
            probs,
            g,
        )
}

fn masked_slope_of<T: Copy, A: Arith<T>>(p: T, hot: bool, weight: T, inverse: T) -> (d: T)
    ensures
        masked_slope::<T, A>(p, hot, weight, inverse, d),
{
    let h: T = if hot {
        A::one()
    } else {
        A::zero()
    };
    let rest: T = A::minus(p, h);
    let scaled: T = A::times(rest, weight);
    let d: T = A::times(scaled, inverse);
    assert(is_difference::<T, A>(p, h, rest));
    assert(is_product::<T, A>(rest, weight, scaled));
    assert(is_product::<T, A>(scaled, inverse, d));
    d
}

fn masked_slope_row_of<T: Copy, A: Arith<T>>(t: i64, weight: T, inverse: T, s: &[T]) -> (d: Vec<T>)
    ensures
        masked_slope_row::<T, A>(t, weight, inverse, s@, d@),
        d@.len() == s@.len(),
{
    if weight_is_zero::<T, A>(weight) {
        let z: T = A::zero();
        assert(is_zero::<T, A>(z));
        return repeated(z, s.len());
    }
    let mut d: Vec<T> = Vec::new();
    let mut k: usize = 0;
    while k < s.len()
        invariant
            k <= s@.len(),
            d@.len() == k,
            forall|j: int|
                0 <= j < k ==> masked_slope::<T, A>(
                    s@[j],
                    t == j,
                    weight,
                    inverse,
                    #[trigger] d@[j],
                ),
        decreases s@.len() - k,
    {
        let hot: bool = t >= 0 && t as u64 as u128 == k as u128;
        d.push(masked_slope_of::<T, A>(s[k], hot, weight, inverse));
        k = k + 1;
    }
    d
}

/// What `masked_ce_backward` comes to.
pub open spec fn masked_ce_backward_out<S: Scalars>(
    probs: Model<S>,
    targets: Model<S>,
    mask: Model<S>,
    r: Outcome<S>,
) -> bool {
    match r {
        Ok(t) => {
            &&& masked_types(probs, targets, mask) && masked_lengths(probs, targets, mask)
            &&& fits(probs.shape) && t.plain(probs.shape) && t.valid() && t.elems() == t.data
                && t.data is F32
            &&& masked_slopes::<S::F, S>(
                probs.f32s(),
                probs.shape[1] as int,
                targets.i64s(),
                mask.f32s(),
                t.data->F32_0,
            )
        },
        Err(e) => masked_error(
            e,
            "masked_ce_backward"@,
            " inconsistent with probs "@,
            probs,
            targets,
            mask,
        ),
    }
}

/// The derivative of the masked loss by the logits, from the probabilities: each row's
/// probabilities less its class, times its weight, over the sum of the weights' magnitudes.
pub fn masked_ce_backward<S: Scalars>(
    probs: &Tensor<S>,
    targets: &Tensor<S>,
    mask: &Tensor<S>,
) -> (r:
    Result<Tensor<S>, Error>)
    requires
        probs@.shape.len() >= 2,
    ensures
        masked_ce_backward_out::<S>(probs@, targets@, mask@, outcome(r)),
{
    let (tg, mk): (Vec<i64>, Vec<S::F>) = match checked_rows(
        probs,
        targets,
        mask,
        "masked_ce_backward",
        " inconsistent with probs ",
    ) {
        Ok(p) => p,
        Err(e) => {
            return Err(e);
        },
    };
    let src: Vec<S::F> = match probs.to_vec_f32() {
        Ok(v) => v,
        Err(e) => {
            return Err(e);
        },
    };
    let n: usize = tg.len();
    let inner: usize = probs.shape()[1];
    let count: S::F = weight_total_of::<S::F, S>(mk.as_slice());
    if !weighs_of::<S::F, S>(count) {
        let z: S::F = <S as Arith<S::F>>::zero();
        assert(is_zero::<S::F, S>(z));
        let g: Vec<S::F> = repeated(z, src.len());
        assert(zero_row::<S::F, S>(src@.len(), g@));
        return Tensor::from_vec_f32(g, probs.shape());
    }
    let one: S::F = <S as Arith<S::F>>::one();
    assert(is_one::<S::F, S>(one));
    let inverse: S::F = <S as Arith<S::F>>::over(one, count);
    assert(inverse_of::<S::F, S>(count, inverse));
    let ts: &[i64] = tg.as_slice();
    let ms: &[S::F] = mk.as_slice();
    let f = |r: usize, s: &[S::F]| -> (o: Vec<S::F>)
        requires
            r < n,
            ts@.len() == n,
            ms@.len() == n
        ensures
            masked_slope_row::<S::F, S>(ts@[r as int], ms@[r as int], inverse, s@, o@),
            o@.len() == s@.len()
    { masked_slope_row_of::<S::F, S>(ts[r], ms[r], inverse, s) };
    let g: Vec<S::F> = map_rows(src.as_slice(), n, inner, f);
    proof {
        let rel = |r: int, s: Seq<S::F>, d: Seq<S::F>| row_called(f, r, s, d);
        let rel2 = masked_slope_rel::<S::F, S>(ts@, ms@, inverse);
        assert forall|k: int, s: Seq<S::F>, d: Seq<S::F>|
            0 <= k < n && #[trigger] rel(k, s, d) implies rel2(k, s, d) by {
            assert(((k as usize) as int) == k);
        }
        lemma_rows_weaken(rel, rel2, n as int, inner as int, src@, g@);
        assert(slopes_over::<S::F, S>(src@, inner as int, ts@, ms@, count, g@));
    }
    Tensor::from_vec_f32(g, probs.shape())
}

} // verus!
