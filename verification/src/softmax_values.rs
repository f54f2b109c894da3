//! What softmax and log-softmax give along their axis: probabilities, with the differences of the
//! logits.
use vstd::prelude::*;
use crate::algebra::{
    lemma_shuffle, lemma_total_agree, lemma_total_scaled, lemma_undo, lemma_zero, scaled,
};
use crate::calculus::{
    all_grown, exact, exponents, grown, lemma_cancels, lemma_divides, lemma_exponents,
};
use crate::cpu::sub_out;
use crate::elementwise::maps;
use crate::index::volume;
use crate::lines::{
    in_line, lemma_line, lemma_same_line, lemma_sum_lines_f32, lemma_sum_lines_f64,
    lemma_zips_lines, line_rank, line_shape,
};
use crate::norm_law::lemma_last_line;
use crate::pointwise_law::{lemma_one_f32, lemma_one_f64};
use crate::reduce::sum_out;
use crate::ring::{lemma_laws, lemma_sums_total, Ring};
use crate::rows::{
    inverse_of, log_softmax_last_out, log_softmax_rel, log_softmax_row, row, row_less, row_steps,
    row_times, softmax_last_out, softmax_rel, softmax_row, RowSteps,
};
use crate::rules::axis_alone;
use crate::scalar::{
    every, is_difference, is_one, is_product, is_quotient, subtracting, Arith, Scalars,
};
use crate::shape::axis_at;
use crate::softmax::{
    log_by_steps_out, log_logarithm, log_powers, log_rest, log_shifted, log_total, log_values_out,
    reduce_max_out, softmax_values_out,
};
use crate::tensor::{passes, Model, Outcome};
use crate::unary::{exp_out, exp_rel, log_of, log_out, log_rel};

verus! {

/// The numbers `ys` along the line of `i` are log-probabilities of the logits `xs`: they differ as
/// the logits do, and their exponentials, whatever they are, add up to one.
pub open spec fn log_probabilities<T, A: Arith<T>>(
    r: Ring<T>,
    xs: Seq<T>,
    ys: Seq<T>,
    line: spec_fn(int) -> bool,
    i: int,
) -> bool {
    &&& forall|k: int|
        0 <= k < xs.len() && #[trigger] line(k) ==> r.minus(ys[k], ys[i]) == r.minus(xs[k], xs[i])
    &&& forall|p: Seq<T>| #[trigger]
        maps(exp_rel::<T, A>(), ys, p) ==> r.total(p, line, xs.len() as int) == r.one
}

/// The numbers `ys` along the line of `i` are probabilities with the logits `xs`: they add up to
/// one, and each is the exponential of the difference of the logits times any other.
pub open spec fn probabilities<T, A: Arith<T>>(
    r: Ring<T>,
    xs: Seq<T>,
    ys: Seq<T>,
    line: spec_fn(int) -> bool,
    i: int,
) -> bool {
    &&& r.total(ys, line, xs.len() as int) == r.one
    &&& forall|k: int, a: T|
        #![trigger line(k), call_ensures(A::exponential, (r.minus(xs[k], xs[i]),), a)]
        0 <= k < xs.len() && line(k) && call_ensures(
            A::exponential,
            (r.minus(xs[k], xs[i]),),
            a,
        ) ==> ys[k] == r.times(a, ys[i])
}

/// Log-probabilities from shifted logits, the exponentials of these and the logarithm of their sum.
proof fn lemma_from_shifted<T, A: Arith<T>>(
    r: Ring<T>,
    xs: Seq<T>,
    shift: T,
    ds: Seq<T>,
    es: Seq<T>,
    m: T,
    ys: Seq<T>,
    line: spec_fn(int) -> bool,
    i: int,
)
    requires
        exact::<T, A>(r),
        exponents::<T, A>(r),
        0 <= i < xs.len(),
        line(i),
        ds.len() == xs.len(),
        es.len() == xs.len(),
        ys.len() == xs.len(),
        forall|k: int| 0 <= k < xs.len() && #[trigger] line(k) ==> ds[k] == r.minus(xs[k], shift),
        forall|k: int|
            0 <= k < xs.len() ==> call_ensures(A::exponential, (ds[k],), #[trigger] es[k]),
        call_ensures(A::logarithm, (r.total(es, line, xs.len() as int),), m),
        forall|k: int| 0 <= k < xs.len() && #[trigger] line(k) ==> ys[k] == r.minus(ds[k], m),
    ensures
        log_probabilities::<T, A>(r, xs, ys, line, i),
{
    let n = xs.len() as int;
    assert forall|k: int| 0 <= k < n && #[trigger] line(k) implies r.minus(ys[k], ys[i]) == r.minus(
        xs[k],
        xs[i],
    ) by {
        lemma_shuffle(r, ds[k], m, ds[i], m);
        lemma_shuffle(r, xs[k], shift, xs[i], shift);
        lemma_zero(r, m);
        lemma_zero(r, shift);
        lemma_zero(r, r.minus(ds[k], ds[i]));
        lemma_zero(r, r.minus(xs[k], xs[i]));
    }
    let t = r.total(es, line, n);
    assert(all_grown::<T, A>(es)) by {
        assert forall|k: int| 0 <= k < es.len() implies grown::<T, A>(#[trigger] es[k]) by {
            assert(call_ensures(A::exponential, (ds[k],), es[k]));
        }
    }
    assert(t != r.zero && call_ensures(A::exponential, (m,), t)) by {
        reveal(exponents);
    }
    assert forall|p: Seq<T>| #[trigger] maps(exp_rel::<T, A>(), ys, p) implies r.total(p, line, n)
        == r.one by {
        let u = scaled(r, t, p);
        assert forall|k: int| 0 <= k < n && #[trigger] line(k) implies u[k] == es[k] by {
            assert(exp_rel::<T, A>()(ys[k], p[k]));
            lemma_undo(r, ds[k], m);
            lemma_exponents::<T, A>(r, m, ys[k], ds[k], t, p[k], es[k]);
        }
        lemma_total_agree(r, u, es, line, line, n);
        lemma_total_scaled(r, t, p, line, n);
        let s = r.total(p, line, n);
        lemma_laws(r, t, s, s);
        lemma_zero(r, t);
        lemma_cancels(r, s, r.one, t);
    }
}

/// Probabilities from log-probabilities.
proof fn lemma_from_logs<T, A: Arith<T>>(
    r: Ring<T>,
    xs: Seq<T>,
    ls: Seq<T>,
    ys: Seq<T>,
    line: spec_fn(int) -> bool,
    i: int,
)
    requires
        r.lawful(),
        exponents::<T, A>(r),
        0 <= i < xs.len(),
        ls.len() == xs.len(),
        maps(exp_rel::<T, A>(), ls, ys),
        log_probabilities::<T, A>(r, xs, ls, line, i),
    ensures
        probabilities::<T, A>(r, xs, ys, line, i),
{
    assert forall|k: int, a: T|
        #![trigger line(k), call_ensures(A::exponential, (r.minus(xs[k], xs[i]),), a)]
        0 <= k < xs.len() && line(k) && call_ensures(
            A::exponential,
            (r.minus(xs[k], xs[i]),),
            a,
        ) implies ys[k] == r.times(a, ys[i]) by {
        assert(exp_rel::<T, A>()(ls[k], ys[k]));
        assert(exp_rel::<T, A>()(ls[i], ys[i]));
        lemma_undo(r, ls[k], ls[i]);
        lemma_exponents::<T, A>(r, r.minus(xs[k], xs[i]), ls[i], ls[k], a, ys[i], ys[k]);
    }
}

/// Probabilities from shifted logits, the exponentials of these and one over their sum.
proof fn lemma_from_powers<T, A: Arith<T>>(
    r: Ring<T>,
    xs: Seq<T>,
    shift: T,
    ds: Seq<T>,
    es: Seq<T>,
    inv: T,
    ys: Seq<T>,
    line: spec_fn(int) -> bool,
    i: int,
)
    requires
        exact::<T, A>(r),
        exponents::<T, A>(r),
        0 <= i < xs.len(),
        line(i),
        ds.len() == xs.len(),
        es.len() == xs.len(),
        ys.len() == xs.len(),
        forall|k: int| 0 <= k < xs.len() && #[trigger] line(k) ==> ds[k] == r.minus(xs[k], shift),
        forall|k: int|
            0 <= k < xs.len() ==> call_ensures(A::exponential, (ds[k],), #[trigger] es[k]),
        inverse_of::<T, A>(r.total(es, line, xs.len() as int), inv),
        forall|k: int| 0 <= k < xs.len() && #[trigger] line(k) ==> ys[k] == r.times(es[k], inv),
    ensures
        probabilities::<T, A>(r, xs, ys, line, i),
{
    let n = xs.len() as int;
    let t = r.total(es, line, n);
    assert(all_grown::<T, A>(es)) by {
        assert forall|k: int| 0 <= k < es.len() implies grown::<T, A>(#[trigger] es[k]) by {
            assert(call_ensures(A::exponential, (ds[k],), es[k]));
        }
    }
    assert(t != r.zero) by {
        reveal(exponents);
    }
    let one = choose|one: T| #[trigger] is_one::<T, A>(one) && is_quotient::<T, A>(one, t, inv);
    lemma_divides::<T, A>(r, one, t, inv);
    let u = scaled(r, inv, es);
    assert forall|k: int| 0 <= k < n && #[trigger] line(k) implies u[k] == ys[k] by {
        lemma_laws(r, inv, es[k], inv);
    }
    lemma_total_agree(r, u, ys, line, line, n);
    lemma_total_scaled(r, inv, es, line, n);
    assert forall|k: int, a: T|
        #![trigger line(k), call_ensures(A::exponential, (r.minus(xs[k], xs[i]),), a)]
        0 <= k < n && line(k) && call_ensures(
            A::exponential,
            (r.minus(xs[k], xs[i]),),
            a,
        ) implies ys[k] == r.times(a, ys[i]) by {
        lemma_shuffle(r, xs[k], shift, xs[i], shift);
        lemma_zero(r, shift);
        lemma_zero(r, r.minus(xs[k], xs[i]));
        lemma_undo(r, ds[k], ds[i]);
        lemma_exponents::<T, A>(r, r.minus(xs[k], xs[i]), ds[i], ds[k], a, es[i], es[k]);
        lemma_laws(r, a, es[i], inv);
    }
}

/// Probabilities from shifted logits, the exponentials of these and quotients by their sum.
pub(crate) proof fn lemma_from_quotients<T, A: Arith<T>>(
    r: Ring<T>,
    xs: Seq<T>,
    shift: T,
    ds: Seq<T>,
    es: Seq<T>,
    ys: Seq<T>,
    line: spec_fn(int) -> bool,
    i: int,
)
    requires
        exact::<T, A>(r),
        exponents::<T, A>(r),
        0 <= i < xs.len(),
        line(i),
        ds.len() == xs.len(),
        es.len() == xs.len(),
        ys.len() == xs.len(),
        forall|k: int| 0 <= k < xs.len() && #[trigger] line(k) ==> ds[k] == r.minus(xs[k], shift),
        forall|k: int|
            0 <= k < xs.len() ==> call_ensures(A::exponential, (ds[k],), #[trigger] es[k]),
        forall|k: int|
            0 <= k < xs.len() && #[trigger] line(k) ==> is_quotient::<T, A>(
                es[k],
                r.total(es, line, xs.len() as int),
                ys[k],
            ),
    ensures
        probabilities::<T, A>(r, xs, ys, line, i),
{
    let n = xs.len() as int;
    let t = r.total(es, line, n);
    assert(all_grown::<T, A>(es)) by {
        assert forall|k: int| 0 <= k < es.len() implies grown::<T, A>(#[trigger] es[k]) by {
            assert(call_ensures(A::exponential, (ds[k],), es[k]));
        }
    }
    assert(t != r.zero) by {
        reveal(exponents);
    }
    let u = scaled(r, t, ys);
    assert forall|k: int| 0 <= k < n && #[trigger] line(k) implies u[k] == es[k] by {
        lemma_divides::<T, A>(r, es[k], t, ys[k]);
        lemma_laws(r, t, ys[k], t);
    }
    lemma_total_agree(r, u, es, line, line, n);
    lemma_total_scaled(r, t, ys, line, n);
    let s = r.total(ys, line, n);
    lemma_laws(r, t, s, s);
    lemma_zero(r, t);
    lemma_cancels(r, s, r.one, t);
    assert forall|k: int, a: T|
        #![trigger line(k), call_ensures(A::exponential, (r.minus(xs[k], xs[i]),), a)]
        0 <= k < n && line(k) && call_ensures(
            A::exponential,
            (r.minus(xs[k], xs[i]),),
            a,
        ) implies ys[k] == r.times(a, ys[i]) by {
        lemma_shuffle(r, xs[k], shift, xs[i], shift);
        lemma_zero(r, shift);
        lemma_zero(r, r.minus(xs[k], xs[i]));
        lemma_undo(r, ds[k], ds[i]);
        lemma_exponents::<T, A>(r, r.minus(xs[k], xs[i]), ds[i], ds[k], a, es[i], es[k]);
        lemma_divides::<T, A>(r, es[k], t, ys[k]);
        lemma_divides::<T, A>(r, es[i], t, ys[i]);
        lemma_laws(r, a, ys[i], t);
        lemma_cancels(r, ys[k], r.times(a, ys[i]), t);
    }
}

/// The sum over a row is the sum over the line along the last axis.
pub(crate) proof fn lemma_row_total<T>(
    r: Ring<T>,
    xs: Seq<T>,
    pick: spec_fn(int) -> bool,
    start: int,
    inner: int,
    m: int,
)
    requires
        0 <= start,
        0 <= inner,
        start + inner <= xs.len(),
        0 <= m <= xs.len(),
        forall|k: int| 0 <= k < xs.len() ==> #[trigger] pick(k) == (start <= k < start + inner),
    ensures
        m <= start ==> r.total(xs, pick, m) == r.zero,
        start <= m <= start + inner ==> r.total(xs, pick, m) == r.total(
            xs.subrange(start, start + inner),
            every(),
            m - start,
        ),
        start + inner <= m ==> r.total(xs, pick, m) == r.total(
            xs.subrange(start, start + inner),
            every(),
            inner,
        ),
    decreases m,
{
    if m > 0 {
        lemma_row_total(r, xs, pick, start, inner, m - 1);
        assert(pick(m - 1) == (start <= m - 1 < start + inner));
    }
}

/// The line along the last axis is a row.
pub(crate) proof fn lemma_row_line(shape: Seq<usize>, i: int) -> (b: int)
    requires
        shape.len() > 0,
        0 <= i < volume(shape),
    ensures
        b == i / (shape.last() as int),
        0 <= b < volume(shape.drop_last()),
        shape.last() > 0,
        0 <= b * (shape.last() as int) <= i < b * (shape.last() as int) + shape.last(),
        b * (shape.last() as int) + shape.last() <= volume(shape),
        forall|k: int|
            0 <= k < volume(shape) ==> #[trigger] in_line(shape, shape.len() - 1, i)(k) == (b * (
            shape.last() as int) <= k < b * (shape.last() as int) + shape.last()),
{
    let d = shape.last() as int;
    let v = volume(shape.drop_last()) as int;
    lemma_last_line(shape, i, i);
    let b = i / d;
    assert(0 <= b < v && 0 <= b * d && b * d <= i < b * d + d && b * d + d <= v * d)
        by (nonlinear_arith)
        requires
            0 <= i < v * d,
            d > 0,
            b == i / d,
    ;
    assert forall|k: int| 0 <= k < volume(shape) implies #[trigger] in_line(
        shape,
        shape.len() - 1,
        i,
    )(k) == (b * d <= k < b * d + d) by {
        lemma_last_line(shape, i, k);
        assert((k / d == b) == (b * d <= k < b * d + d)) by (nonlinear_arith)
            requires
                0 <= k,
                d > 0,
        ;
    }
    b
}

/// What a row's log-softmax says of the whole.
proof fn lemma_log_row<T, A: Arith<T>>(r: Ring<T>, s: Seq<T>, y: Seq<T>, i: int)
    requires
        exact::<T, A>(r),
        exponents::<T, A>(r),
        0 <= i < s.len(),
        log_softmax_row::<T, A>(s, y),
    ensures
        y.len() == s.len(),
        log_probabilities::<T, A>(r, s, y, every(), i),
{
    let (w, m) = choose|w: RowSteps<T>, m: T| #[trigger]
        row_steps::<T, A>(s, w) && #[trigger] log_of::<T, A>(w.total, m) && row_less::<T, A>(
            w.shifted,
            m,
            y,
        );
    lemma_sums_total::<T, A>(r, w.grown, every(), w.total);
    assert forall|k: int| 0 <= k < s.len() implies w.shifted[k] == r.minus(s[k], w.peak) && y[k]
        == r.minus(w.shifted[k], m) by {
        assert(is_difference::<T, A>(s[k], w.peak, w.shifted[k]));
        assert(is_difference::<T, A>(w.shifted[k], m, y[k]));
    }
    lemma_from_shifted::<T, A>(r, s, w.peak, w.shifted, w.grown, m, y, every(), i);
}

/// What a row's softmax says of the whole.
proof fn lemma_soft_row<T, A: Arith<T>>(r: Ring<T>, s: Seq<T>, y: Seq<T>, i: int)
    requires
        exact::<T, A>(r),
        exponents::<T, A>(r),
        0 <= i < s.len(),
        softmax_row::<T, A>(s, y),
    ensures
        y.len() == s.len(),
        probabilities::<T, A>(r, s, y, every(), i),
{
    let (w, m) = choose|w: RowSteps<T>, m: T| #[trigger]
        row_steps::<T, A>(s, w) && #[trigger] inverse_of::<T, A>(w.total, m) && row_times::<T, A>(
            w.grown,
            m,
            y,
        );
    lemma_sums_total::<T, A>(r, w.grown, every(), w.total);
    assert forall|k: int| 0 <= k < s.len() implies w.shifted[k] == r.minus(s[k], w.peak) && y[k]
        == r.times(w.grown[k], m) by {
        assert(is_difference::<T, A>(s[k], w.peak, w.shifted[k]));
        assert(is_product::<T, A>(w.grown[k], m, y[k]));
    }
    lemma_from_powers::<T, A>(r, s, w.peak, w.shifted, w.grown, m, y, every(), i);
}

/// Log-softmax along the last axis, on 32-bit floats.
proof fn lemma_log_last<S: Scalars>(r: Ring<S::F>, x: Model<S>, t: Model<S>, i: int)
    requires
        exact::<S::F, S>(r),
        exponents::<S::F, S>(r),
        x.data is F32,
        0 <= i < volume(x.shape),
        log_softmax_last_out::<S>(x, Ok(t)),
    ensures
        t.shape == x.shape,
        t.data is F32,
        log_probabilities::<S::F, S>(
            r,
            x.f32s(),
            t.f32s(),
            in_line(x.shape, x.shape.len() - 1, i),
            i,
        ),
{
    let shape = x.shape;
    let d = shape.last() as int;
    let b = lemma_row_line(shape, i);
    assert(t.elems() == t.data);
    let (xs, ys) = (x.f32s(), t.f32s());
    assert(ys == t.data->F32_0);
    let line = in_line(shape, shape.len() - 1, i);
    let (s, y) = (row(xs, d, b), row(ys, d, b));
    assert(log_softmax_rel::<S::F, S>()(b, s, y));
    let at = i - b * d;
    lemma_log_row::<S::F, S>(r, s, y, at);
    assert forall|k: int| 0 <= k < xs.len() && #[trigger] line(k) implies r.minus(ys[k], ys[i])
        == r.minus(xs[k], xs[i]) by {
        assert(s[k - b * d] == xs[k] && y[k - b * d] == ys[k]);
        assert(every()(k - b * d));
    }
    assert forall|p: Seq<S::F>| #[trigger] maps(exp_rel::<S::F, S>(), ys, p) implies r.total(
        p,
        line,
        xs.len() as int,
    ) == r.one by {
        let q = p.subrange(b * d, b * d + d);
        assert(maps(exp_rel::<S::F, S>(), y, q)) by {
            assert forall|j: int| 0 <= j < q.len() implies exp_rel::<S::F, S>()(
                y[j],
                #[trigger] q[j],
            ) by {
                assert(exp_rel::<S::F, S>()(ys[b * d + j], p[b * d + j]));
            }
        }
        lemma_row_total(r, p, line, b * d, d, p.len() as int);
    }
}

/// Softmax along the last axis, on 32-bit floats.
proof fn lemma_soft_last<S: Scalars>(r: Ring<S::F>, x: Model<S>, t: Model<S>, i: int)
    requires
        exact::<S::F, S>(r),
        exponents::<S::F, S>(r),
        x.data is F32,
        0 <= i < volume(x.shape),
        softmax_last_out::<S>(x, Ok(t)),
    ensures
        t.shape == x.shape,
        probabilities::<S::F, S>(
            r,
            x.f32s(),
            t.f32s(),
            in_line(x.shape, x.shape.len() - 1, i),
            i,
        ),
{
    let shape = x.shape;
    let d = shape.last() as int;
    let b = lemma_row_line(shape, i);
    assert(t.elems() == t.data);
    let (xs, ys) = (x.f32s(), t.f32s());
    assert(ys == t.data->F32_0);
    let line = in_line(shape, shape.len() - 1, i);
    let (s, y) = (row(xs, d, b), row(ys, d, b));
    assert(softmax_rel::<S::F, S>()(b, s, y));
    let at = i - b * d;
    lemma_soft_row::<S::F, S>(r, s, y, at);
    lemma_row_total(r, ys, line, b * d, d, ys.len() as int);
    assert forall|k: int, a: S::F|
        #![trigger line(k), call_ensures(
            <S as Arith<S::F>>::exponential,
            (r.minus(xs[k], xs[i]),),
            a,
        )]
        0 <= k < xs.len() && line(k) && call_ensures(
            <S as Arith<S::F>>::exponential,
            (r.minus(xs[k], xs[i]),),
            a,
        ) implies ys[k] == r.times(a, ys[i]) by {
        assert(s[k - b * d] == xs[k] && y[k - b * d] == ys[k]);
        assert(s[at] == xs[i] && y[at] == ys[i]);
        assert(every()(k - b * d));
    }
}

/// Log-softmax by steps.
proof fn lemma_log_steps_f32<S: Scalars>(
    r: Ring<S::F>,
    x: Model<S>,
    axis: usize,
    t: Model<S>,
    i: int,
)
    requires
        exact::<S::F, S>(r),
        exponents::<S::F, S>(r),
        x.data is F32,
        axis < x.shape.len() <= isize::MAX,
        0 <= i < volume(x.shape),
        log_by_steps_out::<S>(x, axis, Ok(t)),
    ensures
        t.shape == x.shape,
        t.data is F32,
        log_probabilities::<S::F, S>(
            r,
            x.f32s(),
            t.f32s(),
            in_line(x.shape, axis as int, i),
            i,
        ),
{
    let res: Outcome<S> = Ok(t);
    let shape = x.shape;
    let ax = axis as int;
    let n = volume(shape) as int;
    let mx = choose|o: Outcome<S>| #[trigger]
        reduce_max_out::<S>(x, axis, o) && passes(o, res, log_shifted::<S>(x, axis, o->Ok_0, res));
    let m = mx->Ok_0;
    let sh = choose|o: Outcome<S>| #[trigger]
        sub_out::<S>(x, m, o) && passes(o, res, log_powers::<S>(axis, o->Ok_0, res));
    let d = sh->Ok_0;
    let ex = choose|o: Outcome<S>| #[trigger]
        exp_out::<S>(d, o) && passes(o, res, log_total::<S>(axis, d, o->Ok_0, res));
    let e = ex->Ok_0;
    let su = choose|o: Outcome<S>| #[trigger]
        sum_out::<S>(e, axis_alone(axis), true, o) && passes(
            o,
            res,
            log_logarithm::<S>(d, o->Ok_0, res),
        );
    let se = su->Ok_0;
    let lo = choose|o: Outcome<S>| #[trigger]
        log_out::<S>(se, o) && passes(o, res, log_rest::<S>(d, o->Ok_0, res));
    let l = lo->Ok_0;
    assert(sub_out::<S>(d, l, res));
    lemma_line(shape, ax, i);
    assert(m.elems() == m.data);
    assert(m.shape == line_shape(shape, ax));
    let less = subtracting::<S::F, S>();
    lemma_zips_lines(less, shape, ax, x.f32s(), m.f32s(), d.data->F32_0);
    assert(d.elems() == d.data);
    lemma_one_f32::<S>(d, exp_rel::<S::F, S>(), exp_rel::<S::D, S>(), e);
    lemma_sum_lines_f32::<S>(r, e, axis, se);
    lemma_one_f32::<S>(se, log_rel::<S::F, S>(), log_rel::<S::D, S>(), l);
    lemma_zips_lines(less, shape, ax, d.f32s(), l.f32s(), t.data->F32_0);
    assert(t.elems() == t.data);
    let line = in_line(shape, ax, i);
    let at = line_rank(shape, ax, i);
    let shift = m.f32s()[at];
    assert forall|k: int| 0 <= k < n && #[trigger] line(k) implies d.f32s()[k] == r.minus(
        x.f32s()[k],
        shift,
    ) && t.f32s()[k] == r.minus(d.f32s()[k], l.f32s()[at]) by {
        lemma_same_line(shape, ax, i, k);
        assert(less(x.f32s()[k], m.f32s()[line_rank(shape, ax, k)], d.data->F32_0[k]));
        assert(is_difference::<S::F, S>(x.f32s()[k], shift, d.f32s()[k]));
        assert(less(d.f32s()[k], l.f32s()[line_rank(shape, ax, k)], t.data->F32_0[k]));
        assert(is_difference::<S::F, S>(d.f32s()[k], l.f32s()[at], t.f32s()[k]));
    }
    assert forall|k: int| 0 <= k < n implies call_ensures(
        <S as Arith<S::F>>::exponential,
        (d.f32s()[k],),
        #[trigger] e.f32s()[k],
    ) by {
        assert(exp_rel::<S::F, S>()(d.f32s()[k], e.f32s()[k]));
    }
    assert(se.data->F32_0[line_rank(shape, ax, i)] == r.total(e.f32s(), line, n));
    assert(log_rel::<S::F, S>()(se.f32s()[at], l.f32s()[at]));
    lemma_from_shifted::<S::F, S>(
        r,
        x.f32s(),
        shift,
        d.f32s(),
        e.f32s(),
        l.f32s()[at],
        t.f32s(),
        line,
        i,
    );
}

/// Log-softmax along any axis gives log-probabilities: along each line they differ as the logits
/// do, and their exponentials add up to one. On 32-bit floats.
pub proof fn law_log_softmax_values_f32<S: Scalars>(
    r: Ring<S::F>,
    x: Model<S>,
    axis: isize,
    t: Model<S>,
    i: int,
)
    requires
        exact::<S::F, S>(r),
        exponents::<S::F, S>(r),
        x.data is F32,
        x.shape.len() <= isize::MAX,
        0 <= i < volume(x.shape),
        log_values_out::<S>(x, axis, Ok(t)),
    ensures
        t.shape == x.shape,
        log_probabilities::<S::F, S>(
            r,
            x.f32s(),
            t.f32s(),
            in_line(x.shape, axis_at(axis as int, x.shape.len() as int), i),
            i,
        ),
{
    let ax = axis_at(axis as int, x.shape.len() as int);
    if ax + 1 == x.shape.len() {
        lemma_log_last::<S>(r, x, t, i);
    } else {
        lemma_log_steps_f32::<S>(r, x, ax as usize, t, i);
    }
}

/// Softmax along any axis gives probabilities: along each line they add up to one, and each is the
/// exponential of the difference of the logits times any other. On 32-bit floats.
pub proof fn law_softmax_values_f32<S: Scalars>(
    r: Ring<S::F>,
    x: Model<S>,
    axis: isize,
    t: Model<S>,
    i: int,
)
    requires
        exact::<S::F, S>(r),
        exponents::<S::F, S>(r),
        x.data is F32,
        x.shape.len() <= isize::MAX,
        0 <= i < volume(x.shape),
        softmax_values_out::<S>(x, axis, Ok(t)),
    ensures
        t.shape == x.shape,
        probabilities::<S::F, S>(
            r,
            x.f32s(),
            t.f32s(),
            in_line(x.shape, axis_at(axis as int, x.shape.len() as int), i),
            i,
        ),
{
    let ax = axis_at(axis as int, x.shape.len() as int);
    if ax + 1 == x.shape.len() {
        lemma_soft_last::<S>(r, x, t, i);
    } else {
        let res: Outcome<S> = Ok(t);
        let o = choose|o: Outcome<S>| #[trigger]
            log_values_out::<S>(x, axis, o) && passes(o, res, exp_out::<S>(o->Ok_0, res));
        let l = o->Ok_0;
        law_log_softmax_values_f32::<S>(r, x, axis, l, i);
        lemma_log_kind_f32::<S>(x, axis, l);
        lemma_one_f32::<S>(l, exp_rel::<S::F, S>(), exp_rel::<S::D, S>(), t);
        let line = in_line(x.shape, ax, i);
        lemma_from_logs::<S::F, S>(r, x.f32s(), l.f32s(), t.f32s(), line, i);
    }
}

/// Log-softmax keeps the width.
proof fn lemma_log_kind_f32<S: Scalars>(x: Model<S>, axis: isize, t: Model<S>)
    requires
        x.data is F32,
        log_values_out::<S>(x, axis, Ok(t)),
    ensures
        t.data is F32,
{
}

/// Log-softmax by steps.
proof fn lemma_log_steps_f64<S: Scalars>(
    r: Ring<S::D>,
    x: Model<S>,
    axis: usize,
    t: Model<S>,
    i: int,
)
    requires
        exact::<S::D, S>(r),
        exponents::<S::D, S>(r),
        x.data is F64,
        axis < x.shape.len() <= isize::MAX,
        0 <= i < volume(x.shape),
        log_by_steps_out::<S>(x, axis, Ok(t)),
    ensures
        t.shape == x.shape,
        t.data is F64,
        log_probabilities::<S::D, S>(
            r,
            x.f64s(),
            t.f64s(),
            in_line(x.shape, axis as int, i),
            i,
        ),
{
    let res: Outcome<S> = Ok(t);
    let shape = x.shape;
    let ax = axis as int;
    let n = volume(shape) as int;
    let mx = choose|o: Outcome<S>| #[trigger]
        reduce_max_out::<S>(x, axis, o) && passes(o, res, log_shifted::<S>(x, axis, o->Ok_0, res));
    let m = mx->Ok_0;
    let sh = choose|o: Outcome<S>| #[trigger]
        sub_out::<S>(x, m, o) && passes(o, res, log_powers::<S>(axis, o->Ok_0, res));
    let d = sh->Ok_0;
    let ex = choose|o: Outcome<S>| #[trigger]
        exp_out::<S>(d, o) && passes(o, res, log_total::<S>(axis, d, o->Ok_0, res));
    let e = ex->Ok_0;
    let su = choose|o: Outcome<S>| #[trigger]
        sum_out::<S>(e, axis_alone(axis), true, o) && passes(
            o,
            res,
            log_logarithm::<S>(d, o->Ok_0, res),
        );
    let se = su->Ok_0;
    let lo = choose|o: Outcome<S>| #[trigger]
        log_out::<S>(se, o) && passes(o, res, log_rest::<S>(d, o->Ok_0, res));
    let l = lo->Ok_0;
    assert(sub_out::<S>(d, l, res));
    lemma_line(shape, ax, i);
    assert(m.elems() == m.data);
    assert(m.shape == line_shape(shape, ax));
    let less = subtracting::<S::D, S>();
    lemma_zips_lines(less, shape, ax, x.f64s(), m.f64s(), d.data->F64_0);
    assert(d.elems() == d.data);
    lemma_one_f64::<S>(d, exp_rel::<S::F, S>(), exp_rel::<S::D, S>(), e);
    lemma_sum_lines_f64::<S>(r, e, axis, se);
    lemma_one_f64::<S>(se, log_rel::<S::F, S>(), log_rel::<S::D, S>(), l);
    lemma_zips_lines(less, shape, ax, d.f64s(), l.f64s(), t.data->F64_0);
    assert(t.elems() == t.data);
    let line = in_line(shape, ax, i);
    let at = line_rank(shape, ax, i);
    let shift = m.f64s()[at];
    assert forall|k: int| 0 <= k < n && #[trigger] line(k) implies d.f64s()[k] == r.minus(
        x.f64s()[k],
        shift,
    ) && t.f64s()[k] == r.minus(d.f64s()[k], l.f64s()[at]) by {
        lemma_same_line(shape, ax, i, k);
        assert(less(x.f64s()[k], m.f64s()[line_rank(shape, ax, k)], d.data->F64_0[k]));
        assert(is_difference::<S::D, S>(x.f64s()[k], shift, d.f64s()[k]));
        assert(less(d.f64s()[k], l.f64s()[line_rank(shape, ax, k)], t.data->F64_0[k]));
        assert(is_difference::<S::D, S>(d.f64s()[k], l.f64s()[at], t.f64s()[k]));
    }
    assert forall|k: int| 0 <= k < n implies call_ensures(
        <S as Arith<S::D>>::exponential,
        (d.f64s()[k],),
        #[trigger] e.f64s()[k],
    ) by {
        assert(exp_rel::<S::D, S>()(d.f64s()[k], e.f64s()[k]));
    }
    assert(se.data->F64_0[line_rank(shape, ax, i)] == r.total(e.f64s(), line, n));
    assert(log_rel::<S::D, S>()(se.f64s()[at], l.f64s()[at]));
    lemma_from_shifted::<S::D, S>(
        r,
        x.f64s(),
        shift,
        d.f64s(),
        e.f64s(),
        l.f64s()[at],
        t.f64s(),
        line,
        i,
    );
}

/// Log-softmax along any axis gives log-probabilities: along each line they differ as the logits
/// do, and their exponentials add up to one. On 64-bit floats.
pub proof fn law_log_softmax_values_f64<S: Scalars>(
    r: Ring<S::D>,
    x: Model<S>,
    axis: isize,
    t: Model<S>,
    i: int,
)
    requires
        exact::<S::D, S>(r),
        exponents::<S::D, S>(r),
        x.data is F64,
        x.shape.len() <= isize::MAX,
        0 <= i < volume(x.shape),
        log_values_out::<S>(x, axis, Ok(t)),
    ensures
        t.shape == x.shape,
        log_probabilities::<S::D, S>(
            r,
            x.f64s(),
            t.f64s(),
            in_line(x.shape, axis_at(axis as int, x.shape.len() as int), i),
            i,
        ),
{
    let ax = axis_at(axis as int, x.shape.len() as int);
    lemma_log_steps_f64::<S>(r, x, ax as usize, t, i);
}

/// Softmax along any axis gives probabilities: along each line they add up to one, and each is the
/// exponential of the difference of the logits times any other. On 64-bit floats.
pub proof fn law_softmax_values_f64<S: Scalars>(
    r: Ring<S::D>,
    x: Model<S>,
    axis: isize,
    t: Model<S>,
    i: int,
)
    requires
        exact::<S::D, S>(r),
        exponents::<S::D, S>(r),
        x.data is F64,
        x.shape.len() <= isize::MAX,
        0 <= i < volume(x.shape),
        softmax_values_out::<S>(x, axis, Ok(t)),
    ensures
        t.shape == x.shape,
        probabilities::<S::D, S>(
            r,
            x.f64s(),
            t.f64s(),
            in_line(x.shape, axis_at(axis as int, x.shape.len() as int), i),
            i,
        ),
{
    let ax = axis_at(axis as int, x.shape.len() as int);
    let res: Outcome<S> = Ok(t);
    let o = choose|o: Outcome<S>| #[trigger]
        log_values_out::<S>(x, axis, o) && passes(o, res, exp_out::<S>(o->Ok_0, res));
    let l = o->Ok_0;
    law_log_softmax_values_f64::<S>(r, x, axis, l, i);
    lemma_log_kind_f64::<S>(x, axis, l);
    lemma_one_f64::<S>(l, exp_rel::<S::F, S>(), exp_rel::<S::D, S>(), t);
    let line = in_line(x.shape, ax, i);
    lemma_from_logs::<S::D, S>(r, x.f64s(), l.f64s(), t.f64s(), line, i);
}

/// Log-softmax keeps the width.
proof fn lemma_log_kind_f64<S: Scalars>(x: Model<S>, axis: isize, t: Model<S>)
    requires
        x.data is F64,
        log_values_out::<S>(x, axis, Ok(t)),
    ensures
        t.data is F64,
{
}

} // verus!
