//! What a step of an optimizer does with each parameter.
use vstd::prelude::*;
use crate::algebra::{lemma_is_minus, lemma_spread, lemma_turn, lemma_undo, lemma_zero};
use crate::calculus::{carries, exact, lemma_carries, lemma_divides};
use crate::cpu::{mul_out, mul_scalar_out, scaled_f32, scaled_f64};
use crate::error::Error;
use crate::fused::rest_of;
use crate::index::volume;
use crate::optim::{
    adam_from, adam_one, adam_out, adam_second, adam_square, corrected_out, correction, decay,
    decayed_out, descended_difference, descended_from, descended_out, divisor_out, moment_new,
    moment_out, moment_sum, paired, quotients, rest_times_out, root_plus, roots_plus, sgd_out,
    stepped_decay, stepped_difference, stepped_divisor, stepped_out, stepped_scaled,
    stepped_second, stepped_update, update_out, AdamModel, Rates,
};
use crate::pointwise_law::{lemma_one_f32, lemma_one_f64, lemma_two_f32, lemma_two_f64};
use crate::ring::{lemma_laws, Ring};
use crate::rules::{from_f32s_out, from_f64s_out};
use crate::scalar::{
    adding, is_difference, is_one, is_product, is_quotient, is_sum, multiplying, subtracting,
    Arith, Scalars,
};
use crate::tensor::{passes, stops, Model, Outcome};

verus! {

/// The state for one parameter: the moments at `i`, alone.
pub open spec fn alone<S: Scalars>(h: AdamModel<S>, i: int) -> AdamModel<S> {
    AdamModel { m: seq![h.m[i]], v: seq![h.v[i]], ..h }
}

/// The state `a` differs from `b` in the moments at `i` alone, if at all.
spec fn beside<S: Scalars>(a: AdamModel<S>, b: AdamModel<S>, i: int) -> bool {
    &&& a.rates() == b.rates()
    &&& a.step == b.step
    &&& a.m.len() == b.m.len()
    &&& a.v.len() == b.v.len()
    &&& forall|j: int| 0 <= j < a.m.len() && j != i ==> #[trigger] a.m[j] == b.m[j]
    &&& forall|j: int| 0 <= j < a.v.len() && j != i ==> #[trigger] a.v[j] == b.v[j]
}

/// One parameter's step reads and writes the moments at its own place.
proof fn lemma_one_alone<S: Scalars>(
    h: AdamModel<S>,
    p: Model<S>,
    g: Model<S>,
    t: S::D,
    i: int,
    after: AdamModel<S>,
    o: Model<S>,
)
    requires
        0 <= i < h.m.len(),
        h.v.len() == h.m.len(),
        adam_one::<S>(h, p, g, t, i, after, Ok(o)),
    ensures
        beside(after, h, i),
        adam_one::<S>(alone(h, i), p, g, t, 0, alone(after, i), Ok(o)),
{
    let r: Outcome<S> = Ok(o);
    let a = choose|a: Outcome<S>| #[trigger]
        moment_out::<S>(h.m[i], g, h.beta1, a) && if a is Err {
            after == h && stops(a, r)
        } else {
            adam_square::<S>(
                AdamModel { m: h.m.update(i, a->Ok_0), ..h },
                p,
                g,
                t,
                i,
                after,
                r,
            )
        };
    let h1 = AdamModel { m: h.m.update(i, a->Ok_0), ..h };
    assert(adam_square::<S>(h1, p, g, t, i, after, r));
    let b = choose|b: Outcome<S>| #[trigger]
        mul_out::<S>(g, g, b) && if b is Err {
            after == h1 && stops(b, r)
        } else {
            adam_second::<S>(h1, p, b->Ok_0, t, i, after, r)
        };
    assert(adam_second::<S>(h1, p, b->Ok_0, t, i, after, r));
    let c = choose|c: Outcome<S>| #[trigger]
        moment_out::<S>(h1.v[i], b->Ok_0, h1.beta2, c) && if c is Err {
            after == h1 && stops(c, r)
        } else {
            after == (AdamModel { v: h1.v.update(i, c->Ok_0), ..h1 }) && stepped_out::<S>(
                p,
                after.m[i],
                after.v[i],
                after.rates(),
                t,
                r,
            )
        };
    let s = alone(h, i);
    let s1 = AdamModel { m: s.m.update(0, a->Ok_0), ..s };
    let s2 = AdamModel { v: s1.v.update(0, c->Ok_0), ..s1 };
    assert(s2.m =~= alone(after, i).m);
    assert(s2.v =~= alone(after, i).v);
    assert(s2 == alone(after, i));
    assert(moment_out::<S>(s1.v[0], b->Ok_0, s1.beta2, c));
    assert(s2.rates() == after.rates());
    assert(adam_second::<S>(s1, p, b->Ok_0, t, 0, s2, r));
    assert(adam_square::<S>(s1, p, g, t, 0, s2, r));
    assert(moment_out::<S>(s.m[0], g, s.beta1, a));
    assert(adam_one::<S>(s, p, g, t, 0, s2, r));
}

/// Every parameter from the `i`-th on takes its own step, and the moments before it stay.
proof fn lemma_from_alone<S: Scalars>(
    h: AdamModel<S>,
    ps: Seq<Model<S>>,
    gs: Seq<Model<S>>,
    t: S::D,
    i: int,
    n: int,
    done: Seq<Model<S>>,
    after: AdamModel<S>,
    out: Seq<Model<S>>,
)
    requires
        0 <= i <= n <= h.m.len(),
        h.v.len() == h.m.len(),
        done.len() == i,
        adam_from::<S>(h, ps, gs, t, i, n, done, after, Ok(out)),
    ensures
        out.len() == n,
        after.rates() == h.rates(),
        after.step == h.step,
        after.m.len() == h.m.len(),
        after.v.len() == h.v.len(),
        forall|k: int| 0 <= k < i ==> #[trigger] out[k] == done[k],
        forall|k: int| 0 <= k < h.m.len() && !(i <= k < n) ==> #[trigger] after.m[k] == h.m[k],
        forall|k: int| 0 <= k < h.v.len() && !(i <= k < n) ==> #[trigger] after.v[k] == h.v[k],
        forall|k: int|
            i <= k < n ==> adam_one::<S>(
                alone(h, k),
                ps[k],
                gs[k],
                t,
                0,
                alone(after, k),
                Ok(#[trigger] out[k]),
            ),
    decreases n - i,
{
    if i < n {
        let r: Result<Seq<Model<S>>, Error> = Ok(out);
        let (mid, o) = choose|mid: AdamModel<S>, o: Outcome<S>| #[trigger]
            adam_one::<S>(h, ps[i], gs[i], t, i, mid, o) && if o is Err {
                after == mid && stops(o, r)
            } else {
                adam_from::<S>(mid, ps, gs, t, i + 1, n, done.push(o->Ok_0), after, r)
            };
        assert(o is Ok);
        lemma_one_alone(h, ps[i], gs[i], t, i, mid, o->Ok_0);
        lemma_from_alone(mid, ps, gs, t, i + 1, n, done.push(o->Ok_0), after, out);
        assert(out[i] == o->Ok_0);
        assert(alone(after, i) == alone(mid, i));
        assert forall|k: int| i <= k < n implies adam_one::<S>(
            alone(h, k),
            ps[k],
            gs[k],
            t,
            0,
            alone(after, k),
            Ok(#[trigger] out[k]),
        ) by {
            if k > i {
                assert(alone(h, k) == alone(mid, k));
            }
        }
    }
}

/// An AdamW step treats every parameter by itself: the `i`-th output and the `i`-th moments are
/// what an optimizer that holds the `i`-th moments alone gives for the `i`-th parameter and the
/// `i`-th gradient alone. There are as many outputs as pairs, the moments past the pairs stay as
/// they are, and one step is counted.
pub proof fn law_adam_each_alone<S: Scalars>(
    before: AdamModel<S>,
    ps: Seq<Model<S>>,
    gs: Seq<Model<S>>,
    after: AdamModel<S>,
    out: Seq<Model<S>>,
    i: int,
)
    requires
        before.m.len() == before.v.len(),
        before.step < i64::MAX,
        ps.len() <= before.m.len() || gs.len() <= before.m.len(),
        adam_out::<S>(before, ps, gs, after, Ok(out)),
        0 <= i < before.m.len(),
    ensures
        out.len() <= ps.len(),
        out.len() <= gs.len(),
        out.len() == ps.len() || out.len() == gs.len(),
        after.step == before.step + 1,
        after.rates() == before.rates(),
        after.m.len() == before.m.len(),
        after.v.len() == before.v.len(),
        i < ps.len() && i < gs.len() ==> adam_out::<S>(
            alone(before, i),
            seq![ps[i]],
            seq![gs[i]],
            alone(after, i),
            Ok(seq![out[i]]),
        ),
        i >= ps.len() || i >= gs.len() ==> after.m[i] == before.m[i] && after.v[i]
            == before.v[i],
{
    let n = paired(ps.len(), gs.len());
    let none = Seq::<Model<S>>::empty();
    let r: Result<Seq<Model<S>>, Error> = Ok(out);
    let h = AdamModel { step: (before.step + 1) as i64, ..before };
    let t = choose|t: S::D| #[trigger]
        call_ensures(S::integer_f64, ((before.step + 1) as i64,), t) && adam_from::<S>(
            h,
            ps,
            gs,
            t,
            0,
            n,
            none,
            after,
            r,
        );
    lemma_from_alone(h, ps, gs, t, 0, n, none, after, out);
    if i < n {
        let s = alone(before, i);
        let hs = AdamModel { step: (s.step + 1) as i64, ..s };
        assert(hs == alone(h, i));
        let p = seq![ps[i]];
        let g = seq![gs[i]];
        let one: Result<Seq<Model<S>>, Error> = Ok(seq![out[i]]);
        assert(adam_one::<S>(hs, p[0], g[0], t, 0, alone(after, i), Ok(out[i])));
        assert(none.push(out[i]) =~= seq![out[i]]);
        assert(adam_from::<S>(
            alone(after, i),
            p,
            g,
            t,
            1,
            1,
            none.push(out[i]),
            alone(after, i),
            one,
        ));
        assert(adam_from::<S>(hs, p, g, t, 0, 1, none, alone(after, i), one));
        assert(call_ensures(S::integer_f64, ((s.step + 1) as i64,), t));
    }
}

/// The step of one parameter with the moments `h` has one outcome.
pub open spec fn one_outcome<S: Scalars>(h: AdamModel<S>, p: Model<S>, g: Model<S>) -> bool {
    forall|a: AdamModel<S>, b: AdamModel<S>, x: Seq<Model<S>>, y: Seq<Model<S>>|
        #![trigger adam_out::<S>(h, seq![p], seq![g], a, Ok(x)),
            adam_out::<S>(h, seq![p], seq![g], b, Ok(y))]
        adam_out::<S>(h, seq![p], seq![g], a, Ok(x)) && adam_out::<S>(
            h,
            seq![p],
            seq![g],
            b,
            Ok(y),
        ) ==> a == b && x == y
}

/// Two AdamW steps from one state that agree in the `i`-th parameter and the `i`-th gradient give
/// one `i`-th output and the same `i`-th moments, whatever the other parameters and gradients are.
pub proof fn law_adam_leaves_others<S: Scalars>(
    before: AdamModel<S>,
    ps: Seq<Model<S>>,
    gs: Seq<Model<S>>,
    after: AdamModel<S>,
    out: Seq<Model<S>>,
    ps2: Seq<Model<S>>,
    gs2: Seq<Model<S>>,
    after2: AdamModel<S>,
    out2: Seq<Model<S>>,
    i: int,
)
    requires
        before.m.len() == before.v.len(),
        before.step < i64::MAX,
        ps.len() <= before.m.len() || gs.len() <= before.m.len(),
        ps2.len() <= before.m.len() || gs2.len() <= before.m.len(),
        0 <= i < before.m.len(),
        i < ps.len(),
        i < gs.len(),
        i < ps2.len(),
        i < gs2.len(),
        ps2[i] == ps[i],
        gs2[i] == gs[i],
        one_outcome::<S>(alone(before, i), ps[i], gs[i]),
        adam_out::<S>(before, ps, gs, after, Ok(out)),
        adam_out::<S>(before, ps2, gs2, after2, Ok(out2)),
    ensures
        out2[i] == out[i],
        after2.m[i] == after.m[i],
        after2.v[i] == after.v[i],
{
    law_adam_each_alone(before, ps, gs, after, out, i);
    law_adam_each_alone(before, ps2, gs2, after2, out2, i);
    let a = alone(after, i);
    let b = alone(after2, i);
    assert(a == b && seq![out[i]] == seq![out2[i]]);
    assert(a.m[0] == b.m[0] && a.v[0] == b.v[0]);
    assert(seq![out[i]][0] == seq![out2[i]][0]);
}

/// Every parameter from the `i`-th on descends along its own gradient.
proof fn lemma_descended<S: Scalars>(
    lr: S::D,
    ps: Seq<Model<S>>,
    gs: Seq<Model<S>>,
    i: int,
    done: Seq<Model<S>>,
    out: Seq<Model<S>>,
)
    requires
        0 <= i <= ps.len(),
        done.len() == i,
        descended_from::<S>(lr, ps, gs, i, done, Ok(out)),
    ensures
        out.len() == ps.len(),
        forall|k: int| 0 <= k < i ==> #[trigger] out[k] == done[k],
        forall|k: int|
            i <= k < ps.len() ==> descended_out::<S>(ps[k], gs[k], lr, Ok(#[trigger] out[k])),
    decreases ps.len() - i,
{
    if i < ps.len() {
        let r: Result<Seq<Model<S>>, Error> = Ok(out);
        let o = choose|o: Outcome<S>| #[trigger]
            descended_out::<S>(ps[i], gs[i], lr, o) && passes(
                o,
                r,
                descended_from::<S>(lr, ps, gs, i + 1, done.push(o->Ok_0), r),
            );
        assert(o is Ok);
        lemma_descended::<S>(lr, ps, gs, i + 1, done.push(o->Ok_0), out);
        assert(out[i] == o->Ok_0);
    }
}

/// A step of gradient descent treats every parameter by itself: the `i`-th output is what a step
/// gives for the `i`-th parameter and the `i`-th gradient alone.
pub proof fn law_sgd_each_alone<S: Scalars>(
    lr: S::D,
    ps: Seq<Model<S>>,
    gs: Seq<Model<S>>,
    out: Seq<Model<S>>,
    i: int,
)
    requires
        sgd_out::<S>(lr, ps, gs, Ok(out)),
        0 <= i < ps.len(),
    ensures
        out.len() == ps.len(),
        gs.len() == ps.len(),
        sgd_out::<S>(lr, seq![ps[i]], seq![gs[i]], Ok(seq![out[i]])),
{
    let none = Seq::<Model<S>>::empty();
    lemma_descended::<S>(lr, ps, gs, 0, none, out);
    let p = seq![ps[i]];
    let g = seq![gs[i]];
    let one: Result<Seq<Model<S>>, Error> = Ok(seq![out[i]]);
    assert(none.push(out[i]) =~= seq![out[i]]);
    assert(descended_from::<S>(lr, p, g, 1, none.push(out[i]), one));
    assert(descended_out::<S>(p[0], g[0], lr, Ok(out[i])));
    assert(descended_from::<S>(lr, p, g, 0, none, one));
}

/// `m b + g (1 - b)` less `g` is `b (m - g)`.
proof fn lemma_kept_share<T>(r: Ring<T>, m: T, g: T, b: T)
    requires
        r.lawful(),
    ensures
        r.minus(r.plus(r.times(m, b), r.times(g, r.minus(r.one, b))), g) == r.times(
            b,
            r.minus(m, g),
        ),
{
    lemma_spread(r, g, r.one, b);
    lemma_zero(r, g);
    lemma_laws(r, m, b, b);
    lemma_laws(r, g, b, b);
    lemma_spread(r, b, m, g);
    let (x, y) = (r.times(b, m), r.times(b, g));
    let rest = r.minus(g, y);
    let d = r.minus(x, y);
    lemma_undo(r, g, y);
    lemma_undo(r, x, y);
    lemma_laws(r, d, rest, y);
    lemma_turn(r, d, rest, y);
    lemma_is_minus(r, r.plus(x, rest), g, d);
}

/// What was taken off.
proof fn lemma_taken_off<T>(r: Ring<T>, x: T, y: T)
    requires
        r.lawful(),
    ensures
        r.minus(x, r.minus(x, y)) == y,
{
    lemma_undo(r, x, y);
    lemma_is_minus(r, x, r.minus(x, y), y);
}

/// What an AdamW step goes through: the powers of the rates, the corrected moments, and a root of
/// the second.
pub ghost struct Moved<T, D> {
    pub power1: D,
    pub power2: D,
    pub mean: Seq<T>,
    pub square: Seq<T>,
    pub root: Seq<T>,
}

impl<T, D> Moved<T, D> {
    /// How the element at `j` moves from `p` to `out`, with the moments `m` and `v`.
    pub open spec fn moves<A: Arith<T>>(
        self,
        r: Ring<T>,
        power1: T,
        power2: T,
        lr: T,
        decay: T,
        eps: T,
        p: T,
        m: T,
        v: T,
        out: T,
        j: int,
    ) -> bool {
        &&& r.times(self.mean[j], r.minus(r.one, power1)) == m
        &&& r.times(self.square[j], r.minus(r.one, power2)) == v
        &&& call_ensures(A::root, (self.square[j],), self.root[j])
        &&& r.plus(self.root[j], eps) != r.zero ==> r.times(
            r.minus(r.times(p, r.minus(r.one, r.times(lr, decay))), out),
            r.plus(self.root[j], eps),
        ) == r.times(lr, self.mean[j])
    }
}

/// The number of the step, as the arithmetic gives it.
proof fn lemma_step_number<S: Scalars>(
    before: AdamModel<S>,
    ps: Seq<Model<S>>,
    gs: Seq<Model<S>>,
    after: AdamModel<S>,
    out: Seq<Model<S>>,
    i: int,
) -> (t: S::D)
    requires
        before.m.len() == before.v.len(),
        before.step < i64::MAX,
        ps.len() <= before.m.len() || gs.len() <= before.m.len(),
        0 <= i < before.m.len(),
        i < ps.len(),
        i < gs.len(),
        adam_out::<S>(before, ps, gs, after, Ok(out)),
    ensures
        call_ensures(S::integer_f64, ((before.step + 1) as i64,), t),
        i < out.len(),
        adam_one::<S>(
            (AdamModel { step: (before.step + 1) as i64, ..alone(before, i) }),
            ps[i],
            gs[i],
            t,
            0,
            alone(after, i),
            Ok(out[i]),
        ),
{
    let n = paired(ps.len(), gs.len());
    let none = Seq::<Model<S>>::empty();
    let r: Result<Seq<Model<S>>, Error> = Ok(out);
    let h = AdamModel { step: (before.step + 1) as i64, ..before };
    let t = choose|t: S::D| #[trigger]
        call_ensures(S::integer_f64, ((before.step + 1) as i64,), t) && adam_from::<S>(
            h,
            ps,
            gs,
            t,
            0,
            n,
            none,
            after,
            r,
        );
    lemma_from_alone(h, ps, gs, t, 0, n, none, after, out);
    assert(alone(h, i) == (AdamModel { step: (before.step + 1) as i64, ..alone(before, i) }));
    assert(adam_one::<S>(alone(h, i), ps[i], gs[i], t, 0, alone(after, i), Ok(out[i])));
    t
}

/// The moments and the square on the way of one parameter's step.
proof fn lemma_one_stages<S: Scalars>(
    s: AdamModel<S>,
    p: Model<S>,
    g: Model<S>,
    t: S::D,
    fin: AdamModel<S>,
    y: Model<S>,
) -> (w: (Model<S>, Model<S>, Model<S>))
    requires
        s.m.len() == 1,
        s.v.len() == 1,
        adam_one::<S>(s, p, g, t, 0, fin, Ok(y)),
    ensures
        moment_out::<S>(s.m[0], g, s.beta1, Ok(w.0)),
        mul_out::<S>(g, g, Ok(w.1)),
        moment_out::<S>(s.v[0], w.1, s.beta2, Ok(w.2)),
        stepped_out::<S>(p, w.0, w.2, s.rates(), t, Ok(y)),
        fin.m[0] == w.0,
        fin.v[0] == w.2,
{
    let r: Outcome<S> = Ok(y);
    let a = choose|a: Outcome<S>| #[trigger]
        moment_out::<S>(s.m[0], g, s.beta1, a) && if a is Err {
            fin == s && stops(a, r)
        } else {
            adam_square::<S>(
                AdamModel { m: s.m.update(0, a->Ok_0), ..s },
                p,
                g,
                t,
                0,
                fin,
                r,
            )
        };
    let s1 = AdamModel { m: s.m.update(0, a->Ok_0), ..s };
    let b = choose|b: Outcome<S>| #[trigger]
        mul_out::<S>(g, g, b) && if b is Err {
            fin == s1 && stops(b, r)
        } else {
            adam_second::<S>(s1, p, b->Ok_0, t, 0, fin, r)
        };
    let c = choose|c: Outcome<S>| #[trigger]
        moment_out::<S>(s1.v[0], b->Ok_0, s1.beta2, c) && if c is Err {
            fin == s1 && stops(c, r)
        } else {
            fin == (AdamModel { v: s1.v.update(0, c->Ok_0), ..s1 }) && stepped_out::<S>(
                p,
                fin.m[0],
                fin.v[0],
                fin.rates(),
                t,
                r,
            )
        };
    assert(fin.rates() == s.rates());
    (a->Ok_0, b->Ok_0, c->Ok_0)
}

/// The elements of a tensor times a number.
pub(crate) proof fn lemma_times_f64<S: Scalars>(
    r: Ring<S::D>,
    a: Model<S>,
    s: S::D,
    t: Model<S>,
)
    requires
        r.computes::<S>(),
        a.data is F64,
        mul_scalar_out::<S>(a, s, Ok(t)),
    ensures
        t.shape == a.shape,
        t.data is F64,
        t.f64s().len() == volume(a.shape),
        forall|j: int|
            0 <= j < volume(a.shape) ==> #[trigger] t.f64s()[j] == r.times(
                a.f64s()[j],
                s,
            ),
{
    lemma_one_f64::<S>(a, scaled_f32::<S>(s), scaled_f64::<S>(s), t);
    assert forall|j: int| 0 <= j < volume(a.shape) implies #[trigger] t.f64s()[j] == r.times(
        a.f64s()[j],
        s,
    ) by {
        assert(scaled_f64::<S>(s)(a.f64s()[j], t.f64s()[j]));
        assert(is_product::<S::D, S>(a.f64s()[j], s, t.f64s()[j]));
    }
}

/// A moment keeps `beta` of its distance from what is new.
proof fn lemma_moment_f64<S: Scalars>(
    r: Ring<S::D>,
    m: Model<S>,
    g: Model<S>,
    beta: S::D,
    out: Model<S>,
)
    requires
        r.computes::<S>(),
        m.data is F64,
        g.data is F64,
        m.shape == g.shape,
        moment_out::<S>(m, g, beta, Ok(out)),
    ensures
        out.shape == g.shape,
        out.data is F64,
        forall|j: int|
            0 <= j < volume(g.shape) ==> r.minus(#[trigger] out.f64s()[j], g.f64s()[j]) == r.times(
                beta,
                r.minus(m.f64s()[j], g.f64s()[j]),
            ),
{
    let res: Outcome<S> = Ok(out);
    let o = choose|o: Outcome<S>| #[trigger]
        mul_scalar_out::<S>(m, beta, o) && passes(o, res, moment_new::<S>(g, beta, o->Ok_0, res));
    let n = choose|n: Outcome<S>| #[trigger]
        rest_times_out::<S>(g, beta, n) && passes(
            n,
            res,
            moment_sum::<S>(o->Ok_0, n->Ok_0, res),
        );
    let k = choose|k: S::D| #[trigger]
        rest_of::<S::D, S>(beta, k) && mul_scalar_out::<S>(g, k, n);
    assert(k == r.minus(r.one, beta));
    lemma_times_f64::<S>(r, m, beta, o->Ok_0);
    lemma_times_f64::<S>(r, g, k, n->Ok_0);
    let plus = adding::<S::D, S>();
    lemma_two_f64::<S>(o->Ok_0, n->Ok_0, adding::<S::F, S>(), adding::<S::D, S>(), out);
    assert forall|j: int| 0 <= j < volume(g.shape) implies r.minus(
        #[trigger] out.f64s()[j],
        g.f64s()[j],
    ) == r.times(beta, r.minus(m.f64s()[j], g.f64s()[j])) by {
        let (a, b) = (o->Ok_0.f64s()[j], n->Ok_0.f64s()[j]);
        assert(plus(a, b, out.f64s()[j]));
        assert(is_sum::<S::D, S>(a, b, out.f64s()[j]));
        lemma_kept_share(r, m.f64s()[j], g.f64s()[j], beta);
    }
}

/// A corrected moment times one less the power is the moment.
proof fn lemma_corrected_f64<S: Scalars>(
    r: Ring<S::D>,
    m: Model<S>,
    beta: S::D,
    t: S::D,
    out: Model<S>,
) -> (p: S::D)
    requires
        exact::<S::D, S>(r),
        m.data is F64,
        forall|p: S::D| #[trigger]
            call_ensures(<S as Arith<S::D>>::power, (beta, t), p) ==> r.minus(r.one, p)
                != r.zero,
        corrected_out::<S>(m, beta, t, Ok(out)),
    ensures
        call_ensures(<S as Arith<S::D>>::power, (beta, t), p),
        out.shape == m.shape,
        out.data is F64,
        out.f64s().len() == volume(m.shape),
        forall|j: int|
            0 <= j < volume(m.shape) ==> r.times(
                #[trigger] out.f64s()[j],
                r.minus(r.one, p),
            ) == m.f64s()[j],
{
    let res: Outcome<S> = Ok(out);
    let k = choose|k: S::D| #[trigger]
        correction::<S>(beta, t, k) && mul_scalar_out::<S>(m, k, res);
    let (p, d, one) = choose|p: S::D, d: S::D, one: S::D| #[trigger]
        call_ensures(<S as Arith<S::D>>::power, (beta, t), p) && #[trigger] rest_of::<S::D, S>(
            p,
            d,
        ) && #[trigger] is_one::<S::D, S>(one) && is_quotient::<S::D, S>(one, d, k);
    assert(d == r.minus(r.one, p));
    lemma_divides::<S::D, S>(r, one, d, k);
    lemma_times_f64::<S>(r, m, k, out);
    assert forall|j: int| 0 <= j < volume(m.shape) implies r.times(
        #[trigger] out.f64s()[j],
        r.minus(r.one, p),
    ) == m.f64s()[j] by {
        lemma_laws(r, m.f64s()[j], k, d);
        lemma_zero(r, m.f64s()[j]);
    }
    p
}

/// The parameter's step.
proof fn lemma_stepped_f64<S: Scalars>(
    r: Ring<S::D>,
    p: Model<S>,
    m: Model<S>,
    v: Model<S>,
    h: Rates<S::D>,
    t: S::D,
    out: Model<S>,
) -> (w: Moved<S::D, S::D>)
    requires
        exact::<S::D, S>(r),
        p.data is F64,
        m.data is F64,
        v.data is F64,
        m.shape == p.shape,
        v.shape == p.shape,
        forall|x: S::D| #[trigger]
            call_ensures(<S as Arith<S::D>>::power, (h.beta1, t), x) ==> r.minus(r.one, x)
                != r.zero,
        forall|x: S::D| #[trigger]
            call_ensures(<S as Arith<S::D>>::power, (h.beta2, t), x) ==> r.minus(r.one, x)
                != r.zero,
        stepped_out::<S>(p, m, v, h, t, Ok(out)),
    ensures
        call_ensures(<S as Arith<S::D>>::power, (h.beta1, t), w.power1),
        call_ensures(<S as Arith<S::D>>::power, (h.beta2, t), w.power2),
        out.shape == p.shape,
        forall|j: int|
            0 <= j < volume(p.shape) ==> #[trigger] w.moves::<S>(
                r,
                w.power1,
                w.power2,
                h.lr,
                h.weight_decay,
                h.eps,
                p.f64s()[j],
                m.f64s()[j],
                v.f64s()[j],
                out.f64s()[j],
                j,
            ),
{
    let res: Outcome<S> = Ok(out);
    let a = choose|o: Outcome<S>| #[trigger]
        corrected_out::<S>(m, h.beta1, t, o) && passes(
            o,
            res,
            stepped_second::<S>(p, v, h, t, o->Ok_0, res),
        );
    let mh = a->Ok_0;
    let b = choose|o: Outcome<S>| #[trigger]
        corrected_out::<S>(v, h.beta2, t, o) && passes(
            o,
            res,
            stepped_divisor::<S>(p, h, mh, o->Ok_0, res),
        );
    let vh = b->Ok_0;
    let c = choose|o: Outcome<S>| #[trigger]
        divisor_out::<S>(p, vh, h.eps, o) && passes(
            o,
            res,
            stepped_update::<S>(p, h, mh, o->Ok_0, res),
        );
    let den = c->Ok_0;
    let e = choose|o: Outcome<S>| #[trigger]
        update_out::<S>(p, mh, den, o) && passes(o, res, stepped_decay::<S>(p, h, o->Ok_0, res));
    let upd = e->Ok_0;
    let f = choose|o: Outcome<S>| #[trigger]
        decayed_out::<S>(p, h.lr, h.weight_decay, o) && passes(
            o,
            res,
            stepped_scaled::<S>(h, upd, o->Ok_0, res),
        );
    let kept = f->Ok_0;
    let g = choose|o: Outcome<S>| #[trigger]
        mul_scalar_out::<S>(upd, h.lr, o) && passes(
            o,
            res,
            stepped_difference::<S>(kept, o->Ok_0, res),
        );
    let dec = g->Ok_0;
    let n = volume(p.shape) as int;
    let p1 = lemma_corrected_f64::<S>(r, m, h.beta1, t, mh);
    let p2 = lemma_corrected_f64::<S>(r, v, h.beta2, t, vh);
    let ds = choose|ds: Seq<S::D>| #[trigger]
        roots_plus::<S::D, S>(vh.f64s(), h.eps, ds) && from_f64s_out::<S>(ds, p.shape, c);
    assert(den.elems() == den.data);
    assert(den.f64s() == ds);
    let us = choose|us: Seq<S::D>| #[trigger]
        quotients::<S::D, S>(mh.f64s(), den.f64s(), us) && from_f64s_out::<S>(us, p.shape, e);
    assert(upd.elems() == upd.data);
    assert(upd.f64s() == us);
    let k = choose|k: S::D| #[trigger]
        decay::<S>(h.lr, h.weight_decay, k) && mul_scalar_out::<S>(p, k, f);
    let lw = choose|x: S::D| #[trigger]
        is_product::<S::D, S>(h.lr, h.weight_decay, x) && rest_of::<S::D, S>(x, k);
    assert(k == r.minus(r.one, r.times(h.lr, h.weight_decay)));
    lemma_times_f64::<S>(r, p, k, kept);
    lemma_times_f64::<S>(r, upd, h.lr, dec);
    let less = subtracting::<S::D, S>();
    lemma_two_f64::<S>(kept, dec, subtracting::<S::F, S>(), subtracting::<S::D, S>(), out);
    let rt = Seq::new(
        n as nat,
        |j: int|
            choose|s: S::D| #[trigger]
                call_ensures(<S as Arith<S::D>>::root, (vh.f64s()[j],), s) && is_sum::<S::D, S>(
                    s,
                    h.eps,
                    ds[j],
                ),
    );
    let w = Moved { power1: p1, power2: p2, mean: mh.f64s(), square: vh.f64s(), root: rt };
    assert forall|j: int| 0 <= j < n implies #[trigger] w.moves::<S>(
        r,
        w.power1,
        w.power2,
        h.lr,
        h.weight_decay,
        h.eps,
        p.f64s()[j],
        m.f64s()[j],
        v.f64s()[j],
        out.f64s()[j],
        j,
    ) by {
        assert(root_plus::<S::D, S>(vh.f64s()[j], h.eps, ds[j]));
        let s = w.root[j];
        assert(call_ensures(<S as Arith<S::D>>::root, (vh.f64s()[j],), s) && is_sum::<S::D, S>(
            s,
            h.eps,
            ds[j],
        ));
        assert(is_quotient::<S::D, S>(mh.f64s()[j], ds[j], us[j]));
        assert(less(kept.f64s()[j], dec.f64s()[j], out.f64s()[j]));
        assert(is_difference::<S::D, S>(kept.f64s()[j], dec.f64s()[j], out.f64s()[j]));
        if ds[j] != r.zero {
            lemma_divides::<S::D, S>(r, mh.f64s()[j], ds[j], us[j]);
            lemma_taken_off(r, kept.f64s()[j], dec.f64s()[j]);
            lemma_turn(r, us[j], h.lr, ds[j]);
        }
    }
    w
}

/// An AdamW step, element by element: the first moment keeps `beta1` of its distance from the
/// gradient and the second `beta2` of its distance from the gradient's square. With the two moments
/// over one less the powers of their rates, and a root of the second, the decayed parameter less
/// the new one, times the root and `eps`, is the rate times the first.
pub proof fn law_adam_step_f64<S: Scalars>(
    r: Ring<S::D>,
    before: AdamModel<S>,
    ps: Seq<Model<S>>,
    gs: Seq<Model<S>>,
    after: AdamModel<S>,
    out: Seq<Model<S>>,
    i: int,
    t: S::D,
) -> (w: Moved<S::D, S::D>)
    requires
        exact::<S::D, S>(r),
        before.m.len() == before.v.len(),
        before.step < i64::MAX,
        ps.len() <= before.m.len() || gs.len() <= before.m.len(),
        0 <= i < before.m.len(),
        i < ps.len(),
        i < gs.len(),
        ps[i].data is F64,
        gs[i].data is F64,
        before.m[i].data is F64,
        before.v[i].data is F64,
        gs[i].shape == ps[i].shape,
        before.m[i].shape == ps[i].shape,
        before.v[i].shape == ps[i].shape,
        adam_out::<S>(before, ps, gs, after, Ok(out)),
        forall|x: S::D| #[trigger]
            call_ensures(S::integer_f64, ((before.step + 1) as i64,), x) ==> x == t,
        forall|x: S::D| #[trigger]
            call_ensures(<S as Arith<S::D>>::power, (before.beta1, t), x) ==> r.minus(
                r.one,
                x,
            ) != r.zero,
        forall|x: S::D| #[trigger]
            call_ensures(<S as Arith<S::D>>::power, (before.beta2, t), x) ==> r.minus(
                r.one,
                x,
            ) != r.zero,
    ensures
        call_ensures(<S as Arith<S::D>>::power, (before.beta1, t), w.power1),
        call_ensures(<S as Arith<S::D>>::power, (before.beta2, t), w.power2),
        i < out.len(),
        out[i].shape == ps[i].shape,
        after.m[i].shape == ps[i].shape,
        after.v[i].shape == ps[i].shape,
        forall|j: int|
            0 <= j < volume(ps[i].shape) ==> r.minus(
                #[trigger] after.m[i].f64s()[j],
                gs[i].f64s()[j],
            ) == r.times(
                before.beta1,
                r.minus(before.m[i].f64s()[j], gs[i].f64s()[j]),
            ),
        forall|j: int|
            0 <= j < volume(ps[i].shape) ==> r.minus(
                #[trigger] after.v[i].f64s()[j],
                r.times(gs[i].f64s()[j], gs[i].f64s()[j]),
            ) == r.times(
                before.beta2,
                r.minus(
                    before.v[i].f64s()[j],
                    r.times(gs[i].f64s()[j], gs[i].f64s()[j]),
                ),
            ),
        forall|j: int|
            0 <= j < volume(ps[i].shape) ==> #[trigger] w.moves::<S>(
                r,
                w.power1,
                w.power2,
                before.lr,
                before.weight_decay,
                before.eps,
                ps[i].f64s()[j],
                after.m[i].f64s()[j],
                after.v[i].f64s()[j],
                out[i].f64s()[j],
                j,
            ),
{
    law_adam_each_alone(before, ps, gs, after, out, i);
    let x = lemma_step_number(before, ps, gs, after, out, i);
    let s = AdamModel { step: (before.step + 1) as i64, ..alone(before, i) };
    let (p, g, y) = (ps[i], gs[i], out[i]);
    let fin = alone(after, i);
    let (a, sq, c) = lemma_one_stages::<S>(s, p, g, x, fin, y);
    lemma_moment_f64::<S>(r, s.m[0], g, s.beta1, a);
    lemma_two_f64::<S>(g, g, multiplying::<S::F, S>(), multiplying::<S::D, S>(), sq);
    lemma_moment_f64::<S>(r, s.v[0], sq, s.beta2, c);
    assert forall|j: int| 0 <= j < volume(p.shape) implies #[trigger] sq.f64s()[j] == r.times(
        g.f64s()[j],
        g.f64s()[j],
    ) by {
        assert(multiplying::<S::D, S>()(g.f64s()[j], g.f64s()[j], sq.f64s()[j]));
        assert(is_product::<S::D, S>(g.f64s()[j], g.f64s()[j], sq.f64s()[j]));
    }
    assert(after.m[i] == a && after.v[i] == c) by {
        assert(fin.m[0] == a && fin.v[0] == c);
    }
    lemma_stepped_f64::<S>(r, p, a, c, s.rates(), t, y)
}

/// Gradient descent, element by element: the parameter less the new one is the rate times the
/// gradient.
pub proof fn law_sgd_step_f64<S: Scalars>(
    r: Ring<S::D>,
    lr: S::D,
    ps: Seq<Model<S>>,
    gs: Seq<Model<S>>,
    out: Seq<Model<S>>,
    i: int,
)
    requires
        r.computes::<S>(),
        0 <= i < ps.len(),
        ps[i].data is F64,
        gs[i].data is F64,
        gs[i].shape == ps[i].shape,
        sgd_out::<S>(lr, ps, gs, Ok(out)),
    ensures
        out.len() == ps.len(),
        out[i].shape == ps[i].shape,
        forall|j: int|
            0 <= j < volume(ps[i].shape) ==> r.minus(
                ps[i].f64s()[j],
                #[trigger] out[i].f64s()[j],
            ) == r.times(lr, gs[i].f64s()[j]),
{
    let none = Seq::<Model<S>>::empty();
    lemma_descended::<S>(lr, ps, gs, 0, none, out);
    let (p, g) = (ps[i], gs[i]);
    let res: Outcome<S> = Ok(out[i]);
    let o = choose|o: Outcome<S>| #[trigger]
        mul_scalar_out::<S>(g, lr, o) && passes(
            o,
            res,
            descended_difference::<S>(p, o->Ok_0, res),
        );
    lemma_times_f64::<S>(r, g, lr, o->Ok_0);
    let less = subtracting::<S::D, S>();
    lemma_two_f64::<S>(p, o->Ok_0, subtracting::<S::F, S>(), subtracting::<S::D, S>(), out[i]);
    assert forall|j: int| 0 <= j < volume(p.shape) implies r.minus(
        p.f64s()[j],
        #[trigger] out[i].f64s()[j],
    ) == r.times(lr, g.f64s()[j]) by {
        assert(less(p.f64s()[j], o->Ok_0.f64s()[j], out[i].f64s()[j]));
        assert(is_difference::<S::D, S>(p.f64s()[j], o->Ok_0.f64s()[j], out[i].f64s()[j]));
        lemma_taken_off(r, p.f64s()[j], o->Ok_0.f64s()[j]);
        lemma_laws(r, g.f64s()[j], lr, r.one);
    }
}

/// The elements of a tensor times a number.
pub(crate) proof fn lemma_times_f32<S: Scalars>(
    r: Ring<S::F>,
    q: Ring<S::D>,
    to: spec_fn(S::D) -> S::F,
    a: Model<S>,
    s: S::D,
    t: Model<S>,
)
    requires
        r.computes::<S>(),
        q.computes::<S>(),
        carries::<S>(r, q, to),
        a.data is F32,
        mul_scalar_out::<S>(a, s, Ok(t)),
    ensures
        t.shape == a.shape,
        t.data is F32,
        t.f32s().len() == volume(a.shape),
        forall|j: int|
            0 <= j < volume(a.shape) ==> #[trigger] t.f32s()[j] == r.times(
                a.f32s()[j],
                to(s),
            ),
{
    lemma_one_f32::<S>(a, scaled_f32::<S>(s), scaled_f64::<S>(s), t);
    lemma_carries::<S>(r, q, to, s, s);
    assert forall|j: int| 0 <= j < volume(a.shape) implies #[trigger] t.f32s()[j] == r.times(
        a.f32s()[j],
        to(s),
    ) by {
        assert(scaled_f32::<S>(s)(a.f32s()[j], t.f32s()[j]));
        assert(is_product::<S::F, S>(a.f32s()[j], to(s), t.f32s()[j]));
    }
}

/// A moment keeps `beta` of its distance from what is new.
proof fn lemma_moment_f32<S: Scalars>(
    r: Ring<S::F>,
    q: Ring<S::D>,
    to: spec_fn(S::D) -> S::F,
    m: Model<S>,
    g: Model<S>,
    beta: S::D,
    out: Model<S>,
)
    requires
        r.computes::<S>(),
        q.computes::<S>(),
        carries::<S>(r, q, to),
        m.data is F32,
        g.data is F32,
        m.shape == g.shape,
        moment_out::<S>(m, g, beta, Ok(out)),
    ensures
        out.shape == g.shape,
        out.data is F32,
        forall|j: int|
            0 <= j < volume(g.shape) ==> r.minus(#[trigger] out.f32s()[j], g.f32s()[j]) == r.times(
                to(beta),
                r.minus(m.f32s()[j], g.f32s()[j]),
            ),
{
    let res: Outcome<S> = Ok(out);
    let o = choose|o: Outcome<S>| #[trigger]
        mul_scalar_out::<S>(m, beta, o) && passes(o, res, moment_new::<S>(g, beta, o->Ok_0, res));
    let n = choose|n: Outcome<S>| #[trigger]
        rest_times_out::<S>(g, beta, n) && passes(
            n,
            res,
            moment_sum::<S>(o->Ok_0, n->Ok_0, res),
        );
    let k = choose|k: S::D| #[trigger]
        rest_of::<S::D, S>(beta, k) && mul_scalar_out::<S>(g, k, n);
    assert(k == q.minus(q.one, beta));
    lemma_carries::<S>(r, q, to, q.one, beta);
    lemma_times_f32::<S>(r, q, to, m, beta, o->Ok_0);
    lemma_times_f32::<S>(r, q, to, g, k, n->Ok_0);
    let plus = adding::<S::F, S>();
    lemma_two_f32::<S>(o->Ok_0, n->Ok_0, adding::<S::F, S>(), adding::<S::D, S>(), out);
    assert forall|j: int| 0 <= j < volume(g.shape) implies r.minus(
        #[trigger] out.f32s()[j],
        g.f32s()[j],
    ) == r.times(to(beta), r.minus(m.f32s()[j], g.f32s()[j])) by {
        let (a, b) = (o->Ok_0.f32s()[j], n->Ok_0.f32s()[j]);
        assert(plus(a, b, out.f32s()[j]));
        assert(is_sum::<S::F, S>(a, b, out.f32s()[j]));
        lemma_kept_share(r, m.f32s()[j], g.f32s()[j], to(beta));
    }
}

/// A corrected moment times one less the power is the moment.
proof fn lemma_corrected_f32<S: Scalars>(
    r: Ring<S::F>,
    q: Ring<S::D>,
    to: spec_fn(S::D) -> S::F,
    m: Model<S>,
    beta: S::D,
    t: S::D,
    out: Model<S>,
) -> (p: S::D)
    requires
        exact::<S::F, S>(r),
        exact::<S::D, S>(q),
        carries::<S>(r, q, to),
        m.data is F32,
        forall|p: S::D| #[trigger]
            call_ensures(<S as Arith<S::D>>::power, (beta, t), p) ==> q.minus(q.one, p)
                != q.zero,
        corrected_out::<S>(m, beta, t, Ok(out)),
    ensures
        call_ensures(<S as Arith<S::D>>::power, (beta, t), p),
        out.shape == m.shape,
        out.data is F32,
        out.f32s().len() == volume(m.shape),
        forall|j: int|
            0 <= j < volume(m.shape) ==> r.times(
                #[trigger] out.f32s()[j],
                r.minus(r.one, to(p)),
            ) == m.f32s()[j],
{
    let res: Outcome<S> = Ok(out);
    let k = choose|k: S::D| #[trigger]
        correction::<S>(beta, t, k) && mul_scalar_out::<S>(m, k, res);
    let (p, d, one) = choose|p: S::D, d: S::D, one: S::D| #[trigger]
        call_ensures(<S as Arith<S::D>>::power, (beta, t), p) && #[trigger] rest_of::<S::D, S>(
            p,
            d,
        ) && #[trigger] is_one::<S::D, S>(one) && is_quotient::<S::D, S>(one, d, k);
    assert(d == q.minus(q.one, p));
    lemma_divides::<S::D, S>(q, one, d, k);
    lemma_carries::<S>(r, q, to, k, d);
    lemma_carries::<S>(r, q, to, q.one, p);
    lemma_times_f32::<S>(r, q, to, m, k, out);
    assert forall|j: int| 0 <= j < volume(m.shape) implies r.times(
        #[trigger] out.f32s()[j],
        r.minus(r.one, to(p)),
    ) == m.f32s()[j] by {
        lemma_laws(r, m.f32s()[j], to(k), to(d));
        lemma_zero(r, m.f32s()[j]);
    }
    p
}

/// The parameter's step.
proof fn lemma_stepped_f32<S: Scalars>(
    r: Ring<S::F>,
    q: Ring<S::D>,
    to: spec_fn(S::D) -> S::F,
    p: Model<S>,
    m: Model<S>,
    v: Model<S>,
    h: Rates<S::D>,
    t: S::D,
    out: Model<S>,
) -> (w: Moved<S::F, S::D>)
    requires
        exact::<S::F, S>(r),
        exact::<S::D, S>(q),
        carries::<S>(r, q, to),
        p.data is F32,
        m.data is F32,
        v.data is F32,
        m.shape == p.shape,
        v.shape == p.shape,
        forall|x: S::D| #[trigger]
            call_ensures(<S as Arith<S::D>>::power, (h.beta1, t), x) ==> q.minus(q.one, x)
                != q.zero,
        forall|x: S::D| #[trigger]
            call_ensures(<S as Arith<S::D>>::power, (h.beta2, t), x) ==> q.minus(q.one, x)
                != q.zero,
        stepped_out::<S>(p, m, v, h, t, Ok(out)),
    ensures
        call_ensures(<S as Arith<S::D>>::power, (h.beta1, t), w.power1),
        call_ensures(<S as Arith<S::D>>::power, (h.beta2, t), w.power2),
        out.shape == p.shape,
        forall|j: int|
            0 <= j < volume(p.shape) ==> #[trigger] w.moves::<S>(
                r,
                to(w.power1),
                to(w.power2),
                to(h.lr),
                to(h.weight_decay),
                to(h.eps),
                p.f32s()[j],
                m.f32s()[j],
                v.f32s()[j],
                out.f32s()[j],
                j,
            ),
{
    let res: Outcome<S> = Ok(out);
    let a = choose|o: Outcome<S>| #[trigger]
        corrected_out::<S>(m, h.beta1, t, o) && passes(
            o,
            res,
            stepped_second::<S>(p, v, h, t, o->Ok_0, res),
        );
    let mh = a->Ok_0;
    let b = choose|o: Outcome<S>| #[trigger]
        corrected_out::<S>(v, h.beta2, t, o) && passes(
            o,
            res,
            stepped_divisor::<S>(p, h, mh, o->Ok_0, res),
        );
    let vh = b->Ok_0;
    let c = choose|o: Outcome<S>| #[trigger]
        divisor_out::<S>(p, vh, h.eps, o) && passes(
            o,
            res,
            stepped_update::<S>(p, h, mh, o->Ok_0, res),
        );
    let den = c->Ok_0;
    let e = choose|o: Outcome<S>| #[trigger]
        update_out::<S>(p, mh, den, o) && passes(o, res, stepped_decay::<S>(p, h, o->Ok_0, res));
    let upd = e->Ok_0;
    let f = choose|o: Outcome<S>| #[trigger]
        decayed_out::<S>(p, h.lr, h.weight_decay, o) && passes(
            o,
            res,
            stepped_scaled::<S>(h, upd, o->Ok_0, res),
        );
    let kept = f->Ok_0;
    let g = choose|o: Outcome<S>| #[trigger]
        mul_scalar_out::<S>(upd, h.lr, o) && passes(
            o,
            res,
            stepped_difference::<S>(kept, o->Ok_0, res),
        );
    let dec = g->Ok_0;
    let n = volume(p.shape) as int;
    let p1 = lemma_corrected_f32::<S>(r, q, to, m, h.beta1, t, mh);
    let p2 = lemma_corrected_f32::<S>(r, q, to, v, h.beta2, t, vh);
    let (ee, ds) = choose|ee: S::F, ds: Seq<S::F>| #[trigger]
        call_ensures(S::narrow, (h.eps,), ee) && #[trigger] roots_plus::<S::F, S>(
            vh.f32s(),
            ee,
            ds,
        ) && from_f32s_out::<S>(ds, p.shape, c);
    lemma_carries::<S>(r, q, to, h.eps, h.eps);
    assert(den.elems() == den.data);
    assert(den.f32s() == ds);
    let us = choose|us: Seq<S::F>| #[trigger]
        quotients::<S::F, S>(mh.f32s(), den.f32s(), us) && from_f32s_out::<S>(us, p.shape, e);
    assert(upd.elems() == upd.data);
    assert(upd.f32s() == us);
    let k = choose|k: S::D| #[trigger]
        decay::<S>(h.lr, h.weight_decay, k) && mul_scalar_out::<S>(p, k, f);
    let lw = choose|x: S::D| #[trigger]
        is_product::<S::D, S>(h.lr, h.weight_decay, x) && rest_of::<S::D, S>(x, k);
    assert(k == q.minus(q.one, q.times(h.lr, h.weight_decay)));
    lemma_carries::<S>(r, q, to, q.one, lw);
    lemma_carries::<S>(r, q, to, h.lr, h.weight_decay);
    lemma_times_f32::<S>(r, q, to, p, k, kept);
    lemma_times_f32::<S>(r, q, to, upd, h.lr, dec);
    let less = subtracting::<S::F, S>();
    lemma_two_f32::<S>(kept, dec, subtracting::<S::F, S>(), subtracting::<S::D, S>(), out);
    let rt = Seq::new(
        n as nat,
        |j: int|
            choose|s: S::F| #[trigger]
                call_ensures(<S as Arith<S::F>>::root, (vh.f32s()[j],), s) && is_sum::<S::F, S>(
                    s,
                    to(h.eps),
                    ds[j],
                ),
    );
    let w = Moved { power1: p1, power2: p2, mean: mh.f32s(), square: vh.f32s(), root: rt };
    assert forall|j: int| 0 <= j < n implies #[trigger] w.moves::<S>(
        r,
        to(w.power1),
        to(w.power2),
        to(h.lr),
        to(h.weight_decay),
        to(h.eps),
        p.f32s()[j],
        m.f32s()[j],
        v.f32s()[j],
        out.f32s()[j],
        j,
    ) by {
        assert(root_plus::<S::F, S>(vh.f32s()[j], to(h.eps), ds[j]));
        let s = w.root[j];
        assert(call_ensures(<S as Arith<S::F>>::root, (vh.f32s()[j],), s) && is_sum::<S::F, S>(
            s,
            to(h.eps),
            ds[j],
        ));
        assert(is_quotient::<S::F, S>(mh.f32s()[j], ds[j], us[j]));
        assert(less(kept.f32s()[j], dec.f32s()[j], out.f32s()[j]));
        assert(is_difference::<S::F, S>(kept.f32s()[j], dec.f32s()[j], out.f32s()[j]));
        if ds[j] != r.zero {
            lemma_divides::<S::F, S>(r, mh.f32s()[j], ds[j], us[j]);
            lemma_taken_off(r, kept.f32s()[j], dec.f32s()[j]);
            lemma_turn(r, us[j], to(h.lr), ds[j]);
        }
    }
    w
}

/// An AdamW step, element by element: the first moment keeps `beta1` of its distance from the
/// gradient and the second `beta2` of its distance from the gradient's square. With the two moments
/// over one less the powers of their rates, and a root of the second, the decayed parameter less
/// the new one, times the root and `eps`, is the rate times the first.
pub proof fn law_adam_step_f32<S: Scalars>(
    r: Ring<S::F>,
    q: Ring<S::D>,
    to: spec_fn(S::D) -> S::F,
    before: AdamModel<S>,
    ps: Seq<Model<S>>,
    gs: Seq<Model<S>>,
    after: AdamModel<S>,
    out: Seq<Model<S>>,
    i: int,
    t: S::D,
) -> (w: Moved<S::F, S::D>)
    requires
        exact::<S::F, S>(r),
        exact::<S::D, S>(q),
        carries::<S>(r, q, to),
        before.m.len() == before.v.len(),
        before.step < i64::MAX,
        ps.len() <= before.m.len() || gs.len() <= before.m.len(),
        0 <= i < before.m.len(),
        i < ps.len(),
        i < gs.len(),
        ps[i].data is F32,
        gs[i].data is F32,
        before.m[i].data is F32,
        before.v[i].data is F32,
        gs[i].shape == ps[i].shape,
        before.m[i].shape == ps[i].shape,
        before.v[i].shape == ps[i].shape,
        adam_out::<S>(before, ps, gs, after, Ok(out)),
        forall|x: S::D| #[trigger]
            call_ensures(S::integer_f64, ((before.step + 1) as i64,), x) ==> x == t,
        forall|x: S::D| #[trigger]
            call_ensures(<S as Arith<S::D>>::power, (before.beta1, t), x) ==> q.minus(
                q.one,
                x,
            ) != q.zero,
        forall|x: S::D| #[trigger]
            call_ensures(<S as Arith<S::D>>::power, (before.beta2, t), x) ==> q.minus(
                q.one,
                x,
            ) != q.zero,
    ensures
        call_ensures(<S as Arith<S::D>>::power, (before.beta1, t), w.power1),
        call_ensures(<S as Arith<S::D>>::power, (before.beta2, t), w.power2),
        i < out.len(),
        out[i].shape == ps[i].shape,
        after.m[i].shape == ps[i].shape,
        after.v[i].shape == ps[i].shape,
        forall|j: int|
            0 <= j < volume(ps[i].shape) ==> r.minus(
                #[trigger] after.m[i].f32s()[j],
                gs[i].f32s()[j],
            ) == r.times(
                to(before.beta1),
                r.minus(before.m[i].f32s()[j], gs[i].f32s()[j]),
            ),
        forall|j: int|
            0 <= j < volume(ps[i].shape) ==> r.minus(
                #[trigger] after.v[i].f32s()[j],
                r.times(gs[i].f32s()[j], gs[i].f32s()[j]),
            ) == r.times(
                to(before.beta2),
                r.minus(
                    before.v[i].f32s()[j],
                    r.times(gs[i].f32s()[j], gs[i].f32s()[j]),
                ),
            ),
        forall|j: int|
            0 <= j < volume(ps[i].shape) ==> #[trigger] w.moves::<S>(
                r,
                to(w.power1),
                to(w.power2),
                to(before.lr),
                to(before.weight_decay),
                to(before.eps),
                ps[i].f32s()[j],
                after.m[i].f32s()[j],
                after.v[i].f32s()[j],
                out[i].f32s()[j],
                j,
            ),
{
    law_adam_each_alone(before, ps, gs, after, out, i);
    let x = lemma_step_number(before, ps, gs, after, out, i);
    let s = AdamModel { step: (before.step + 1) as i64, ..alone(before, i) };
    let (p, g, y) = (ps[i], gs[i], out[i]);
    let fin = alone(after, i);
    let (a, sq, c) = lemma_one_stages::<S>(s, p, g, x, fin, y);
    lemma_moment_f32::<S>(r, q, to, s.m[0], g, s.beta1, a);
    lemma_two_f32::<S>(g, g, multiplying::<S::F, S>(), multiplying::<S::D, S>(), sq);
    lemma_moment_f32::<S>(r, q, to, s.v[0], sq, s.beta2, c);
    assert forall|j: int| 0 <= j < volume(p.shape) implies #[trigger] sq.f32s()[j] == r.times(
        g.f32s()[j],
        g.f32s()[j],
    ) by {
        assert(multiplying::<S::F, S>()(g.f32s()[j], g.f32s()[j], sq.f32s()[j]));
        assert(is_product::<S::F, S>(g.f32s()[j], g.f32s()[j], sq.f32s()[j]));
    }
    assert(after.m[i] == a && after.v[i] == c) by {
        assert(fin.m[0] == a && fin.v[0] == c);
    }
    lemma_stepped_f32::<S>(r, q, to, p, a, c, s.rates(), t, y)
}

/// Gradient descent, element by element: the parameter less the new one is the rate times the
/// gradient.
pub proof fn law_sgd_step_f32<S: Scalars>(
    r: Ring<S::F>,
    q: Ring<S::D>,
    to: spec_fn(S::D) -> S::F,
    lr: S::D,
    ps: Seq<Model<S>>,
    gs: Seq<Model<S>>,
    out: Seq<Model<S>>,
    i: int,
)
    requires
        r.computes::<S>(),
        q.computes::<S>(),
        carries::<S>(r, q, to),
        0 <= i < ps.len(),
        ps[i].data is F32,
        gs[i].data is F32,
        gs[i].shape == ps[i].shape,
        sgd_out::<S>(lr, ps, gs, Ok(out)),
    ensures
        out.len() == ps.len(),
        out[i].shape == ps[i].shape,
        forall|j: int|
            0 <= j < volume(ps[i].shape) ==> r.minus(
                ps[i].f32s()[j],
                #[trigger] out[i].f32s()[j],
            ) == r.times(to(lr), gs[i].f32s()[j]),
{
    let none = Seq::<Model<S>>::empty();
    lemma_descended::<S>(lr, ps, gs, 0, none, out);
    let (p, g) = (ps[i], gs[i]);
    let res: Outcome<S> = Ok(out[i]);
    let o = choose|o: Outcome<S>| #[trigger]
        mul_scalar_out::<S>(g, lr, o) && passes(
            o,
            res,
            descended_difference::<S>(p, o->Ok_0, res),
        );
    lemma_times_f32::<S>(r, q, to, g, lr, o->Ok_0);
    let less = subtracting::<S::F, S>();
    lemma_two_f32::<S>(p, o->Ok_0, subtracting::<S::F, S>(), subtracting::<S::D, S>(), out[i]);
    assert forall|j: int| 0 <= j < volume(p.shape) implies r.minus(
        p.f32s()[j],
        #[trigger] out[i].f32s()[j],
    ) == r.times(to(lr), g.f32s()[j]) by {
        assert(less(p.f32s()[j], o->Ok_0.f32s()[j], out[i].f32s()[j]));
        assert(is_difference::<S::F, S>(p.f32s()[j], o->Ok_0.f32s()[j], out[i].f32s()[j]));
        lemma_taken_off(r, p.f32s()[j], o->Ok_0.f32s()[j]);
        lemma_laws(r, g.f32s()[j], to(lr), r.one);
    }
}

} // verus!
