//! The gradient of the gated recurrence follows from the rules of differentiation.
use vstd::arithmetic::div_mod::{lemma_fundamental_div_mod, lemma_fundamental_div_mod_converse};
use vstd::prelude::*;
use crate::ad::gated_scan_tracked;
use crate::algebra::{
    differences, lemma_spread, lemma_total_agree, lemma_total_parts, lemma_turn, lemma_undo,
    lemma_zero, products, sums_of,
};
use crate::calculus::{lemma_change, Change};
use crate::error::Error;
use crate::guarded::scan_back_out;
use crate::index::volume;
use crate::nodes::{tracked_out, Node, RuleModel};
use crate::norm_law::alike;
use crate::ring::{lemma_laws, Ring};
use crate::rms_law::changes;
use crate::rules::scan_parts;
use crate::scalar::{every, is_product, is_sum, is_zero, Arith, Scalars};
use crate::scan::{
    advances, batch_len, carried, carries, gate_slope, gated_scan_out, scans, scans_back,
    scans_from, state_before,
};
use crate::tape::Backward;
use crate::tensor::{gives, passes, Model, Outcome};

verus! {

/// Which steps have a step after them, and which one before.
proof fn lemma_next_step(step: int, d: int, q: int)
    requires
        0 < d <= step,
        0 <= q,
    ensures
        (q % step + d < step) == ((q + d) % step >= d),
{
    lemma_fundamental_div_mod(q, step);
    let (k, m) = (q / step, q % step);
    assert(0 <= m < step) by (nonlinear_arith)
        requires
            m == q % step,
            step > 0,
    ;
    if m + d < step {
        assert(q + d == k * step + (m + d)) by (nonlinear_arith)
            requires
                q == step * k + m,
        ;
        lemma_fundamental_div_mod_converse(q + d, step, k, m + d);
    } else {
        assert(q + d == (k + 1) * step + (m + d - step)) by (nonlinear_arith)
            requires
                q == step * k + m,
        ;
        lemma_fundamental_div_mod_converse(q + d, step, k + 1, m + d - step);
    }
}

/// The steps that have one before them.
spec fn later(step: int, d: int) -> spec_fn(int) -> bool {
    |p: int| p % step >= d
}

/// The steps that have one after them.
spec fn earlier(step: int, d: int) -> spec_fn(int) -> bool {
    |q: int| q % step + d < step
}

/// A list from the `d`-th number on, with zeros behind.
spec fn moved_up<T>(r: Ring<T>, f: Seq<T>, d: int) -> Seq<T> {
    Seq::new(f.len(), |q: int| if q + d < f.len() { f[q + d] } else { r.zero })
}

/// Summing over the steps with one before them is summing over those with one after.
proof fn lemma_shifted_total<T>(r: Ring<T>, f: Seq<T>, step: int, d: int, n: int)
    requires
        0 < d <= step,
        0 <= n <= f.len(),
    ensures
        n <= d ==> r.total(f, later(step, d), n) == r.zero,
        n >= d ==> r.total(f, later(step, d), n) == r.total(
            moved_up(r, f, d),
            earlier(step, d),
            n - d,
        ),
    decreases n,
{
    if n > 0 {
        lemma_shifted_total(r, f, step, d, n - 1);
        let p = n - 1;
        if p < d {
            assert(p % step == p) by (nonlinear_arith)
                requires
                    0 <= p < step,
            ;
            assert(!later(step, d)(p));
        } else {
            lemma_next_step(step, d, p - d);
            assert(later(step, d)(p) == earlier(step, d)(p - d));
            assert(moved_up(r, f, d)[p - d] == f[p]);
        }
    }
}

/// The last steps have none after them.
proof fn lemma_last_steps<T>(r: Ring<T>, f: Seq<T>, step: int, d: int, count: int, m: int)
    requires
        0 < d <= step,
        count >= 1,
        count * step - d <= m <= count * step,
        0 <= m,
    ensures
        r.total(f, earlier(step, d), m) == r.total(f, earlier(step, d), count * step - d),
    decreases m,
{
    assert(count * step - d >= 0) by (nonlinear_arith)
        requires
            count >= 1,
            0 < d <= step,
    ;
    if m > count * step - d {
        lemma_last_steps(r, f, step, d, count, m - 1);
        let q = m - 1;
        let s = q - (count - 1) * step;
        assert(0 <= s < step && step - d <= s && q == (count - 1) * step + s) by (nonlinear_arith)
            requires
                count * step - d <= q < count * step,
                s == q - (count - 1) * step,
                0 < d <= step,
        ;
        lemma_fundamental_div_mod_converse(q, step, count - 1, s);
        assert(!earlier(step, d)(q));
    }
}

/// What comes over from the next step, as a list.
spec fn carry_over<T>(r: Ring<T>, a: Seq<T>, g: Seq<T>, step: int, d: int) -> Seq<T> {
    Seq::new(
        a.len(),
        |p: int| if p % step + d < step { r.times(a[p + d], g[p + d]) } else { r.zero },
    )
}

/// The change that comes over from the step before, times the cotangent, as a list.
spec fn pulled_over<T>(
    r: Ring<T>,
    d: Change<T>,
    a: Seq<T>,
    h: Seq<T>,
    g: Seq<T>,
    w: int,
) -> Seq<T> {
    Seq::new(
        a.len(),
        |p: int|
            if p >= w {
                r.times(r.times(a[p], g[p]), d.at(h[p - w]))
            } else {
                r.zero
            },
    )
}

/// Leaving out zeros.
proof fn lemma_total_masked<T>(
    r: Ring<T>,
    xs: Seq<T>,
    ys: Seq<T>,
    pick: spec_fn(int) -> bool,
    n: int,
)
    requires
        r.lawful(),
        forall|i: int| 0 <= i < n && #[trigger] pick(i) ==> xs[i] == ys[i],
        forall|i: int| 0 <= i < n && !(#[trigger] pick(i)) ==> xs[i] == r.zero,
    ensures
        r.total(xs, every(), n) == r.total(ys, pick, n),
    decreases n,
{
    if n > 0 {
        lemma_total_masked(r, xs, ys, pick, n - 1);
        lemma_zero(r, r.total(xs, every(), n - 1));
        assert(pick(n - 1) || !pick(n - 1));
    }
}

/// The gradient of the recurrence on lists: the pieces of gates and inputs, each times the change
/// of what it is for, add up to the cotangents times the changes of the states.
pub proof fn law_scan_gradient<T, A: Arith<T>>(
    r: Ring<T>,
    d: Change<T>,
    a: Seq<T>,
    b: Seq<T>,
    step: int,
    w: int,
    h: Seq<T>,
    gh: Seq<T>,
    ga: Seq<T>,
    gb: Seq<T>,
    count: int,
)
    requires
        r.computes::<A>(),
        d.adds(r),
        d.multiplies(r),
        0 < w <= step,
        count >= 1,
        a.len() == count * step,
        b.len() == a.len(),
        gh.len() >= a.len(),
        scans::<T, A>(a, b, step, w, h),
        scans_back::<T, A>(a, h, gh, step, w, ga, gb),
    ensures
        r.plus(
            r.total(products(r, ga, changes(d, a)), every(), a.len() as int),
            r.total(products(r, gb, changes(d, b)), every(), a.len() as int),
        ) == r.total(products(r, gh, changes(d, h)), every(), a.len() as int),
{
    let n = a.len() as int;
    let z = choose|z: T| #[trigger] is_zero::<T, A>(z) && scans_from::<T, A>(a, b, step, w, z, h);
    let (da, db, dh) = (changes(d, a), changes(d, b), changes(d, h));
    let left = sums_of(r, products(r, ga, da), products(r, gb, db));
    let full = products(r, gb, dh);
    let over = pulled_over(r, d, a, h, gb, w);
    let kept = Seq::new(a.len(), |p: int| if p % step >= w { over[p] } else { r.zero });
    let next = carry_over(r, a, gb, step, w);
    let pulled = products(r, next, dh);
    let right = products(r, gh, dh);
    assert forall|p: int| 0 <= p < n && #[trigger] every()(p) implies left[p] == differences(
        r,
        full,
        kept,
    )[p] by {
        let prev = state_before(h, step, w, z, p);
        assert(advances::<T, A>(a[p], prev, b[p], h[p]));
        let t = choose|t: T| #[trigger]
            is_product::<T, A>(a[p], prev, t) && is_sum::<T, A>(t, b[p], h[p]);
        lemma_change(r, d, t, b[p]);
        lemma_change(r, d, a[p], prev);
        assert(gate_slope::<T, A>(h, gb, step, w, p, ga[p]));
        let g = gb[p];
        lemma_zero(r, g);
        lemma_zero(r, da[p]);
        lemma_zero(r, a[p]);
        // g dh == (g da) prev + g (a dprev) + g db
        let (u, v) = (r.times(da[p], prev), r.times(a[p], d.at(prev)));
        lemma_spread(r, g, r.plus(u, v), db[p]);
        lemma_spread(r, g, u, v);
        lemma_turn(r, g, da[p], prev);
        lemma_laws(r, g, da[p], prev);
        lemma_turn(r, g, prev, da[p]);
        lemma_laws(r, g, prev, da[p]);
        let x = r.times(r.times(g, prev), da[p]);
        assert(r.times(g, u) == x);
        let y = r.times(g, v);
        let q = r.times(g, db[p]);
        assert(full[p] == r.plus(r.plus(x, y), q));
        lemma_turn(r, x, y, q);
        lemma_undo(r, r.plus(x, q), y);
        assert(r.minus(full[p], y) == r.plus(x, q));
        if p % step >= w {
            assert(p >= w) by (nonlinear_arith)
                requires
                    p % step >= w,
                    0 <= p,
                    step > 0,
            ;
            lemma_laws(r, g, a[p], d.at(prev));
            lemma_laws(r, a[p], g, g);
            assert(kept[p] == y);
            assert(ga[p] == r.times(g, prev));
        } else {
            assert(prev == r.zero);
            assert(ga[p] == r.zero);
            assert(y == r.zero);
            assert(x == r.zero);
        }
    }
    lemma_total_agree(r, left, differences(r, full, kept), every(), every(), n);
    lemma_total_parts(r, products(r, ga, da), products(r, gb, db), every(), n);
    lemma_total_parts(r, full, kept, every(), n);
    // What comes over from the step before is what goes to the step after.
    lemma_total_masked(r, kept, over, later(step, w), n);
    let up = moved_up(r, over, w);
    assert(n >= w) by (nonlinear_arith)
        requires
            n == count * step,
            count >= 1,
            0 < w <= step,
    ;
    lemma_shifted_total(r, over, step, w, n);
    lemma_last_steps(r, up, step, w, count, n);
    assert forall|q: int| 0 <= q < n && #[trigger] earlier(step, w)(q) implies pulled[q]
        == up[q] by {
        assert(q + w < n) by {
            lemma_next_step(step, w, q);
            if q + w >= n {
                let s = q - (count - 1) * step;
                assert(0 <= s < step && step - w <= s && q == (count - 1) * step + s)
                    by (nonlinear_arith)
                    requires
                        count * step - w <= q < count * step,
                        s == q - (count - 1) * step,
                        0 < w <= step,
                ;
                lemma_fundamental_div_mod_converse(q, step, count - 1, s);
            }
        }
        assert(over[q + w] == r.times(r.times(a[q + w], gb[q + w]), d.at(h[q])));
    }
    assert forall|q: int| 0 <= q < n && !(#[trigger] earlier(step, w)(q)) implies pulled[q]
        == r.zero by {
        lemma_zero(r, dh[q]);
    }
    lemma_total_masked(r, pulled, up, earlier(step, w), n);
    assert(r.total(kept, every(), n) == r.total(pulled, every(), n));
    // What is left is the cotangent.
    assert forall|p: int| 0 <= p < n && #[trigger] every()(p) implies right[p] == differences(
        r,
        full,
        pulled,
    )[p] by {
        assert(carries::<T, A>(a, gh, step, w, gb, p));
        let c = choose|c: T| #[trigger]
            carried::<T, A>(a, gb, step, w, p, c) && is_sum::<T, A>(gh[p], c, gb[p]);
        assert(c == next[p]);
        lemma_spread(r, dh[p], gh[p], c);
        lemma_undo(r, r.times(gh[p], dh[p]), r.times(c, dh[p]));
    }
    lemma_total_agree(r, right, differences(r, full, pulled), every(), every(), n);
    lemma_total_parts(r, full, pulled, every(), n);
}

/// The gradient of the gated recurrence: the pieces of gates and inputs, each times the change of
/// what it is for, add up to the cotangents times the changes of the states.
pub proof fn law_gated_scan_gradient<S: Scalars>(
    r: Ring<S::F>,
    d: Change<S::F>,
    before: Seq<Node<S>>,
    after: Seq<Node<S>>,
    a: Model<S>,
    b: Model<S>,
    y: Model<S>,
    gy: Model<S>,
    parts: Seq<Model<S>>,
)
    requires
        r.computes::<S>(),
        d.adds(r),
        d.multiplies(r),
        a.in_graph || b.in_graph,
        gy.shape == a.shape,
        gated_scan_tracked::<S>(before, after, a, b, Ok(y)),
        after.len() > 0,
        after.last().vjp(gy, Ok(parts)),
        volume(a.shape) > 0,
    ensures
        after.len() == before.len() + 1,
        after.last().sources() == seq![a, b],
        y.shape == a.shape,
        parts.len() == 2,
        parts[0].shape == a.shape,
        parts[1].shape == a.shape,
        r.plus(
            r.total(
                products(r, parts[0].f32s(), changes(d, a.f32s())),
                every(),
                volume(a.shape) as int,
            ),
            r.total(
                products(r, parts[1].f32s(), changes(d, b.f32s())),
                every(),
                volume(a.shape) as int,
            ),
        ) == r.total(
            products(r, gy.f32s(), changes(d, y.f32s())),
            every(),
            volume(a.shape) as int,
        ),
{
    let res: Outcome<S> = Ok(y);
    let rp: Result<Seq<Model<S>>, Error> = Ok(parts);
    let v = choose|v: Outcome<S>| #[trigger]
        gated_scan_out::<S>(a, b, v) && tracked_out::<S>(
            before,
            after,
            a.in_graph || b.in_graph,
            v,
            seq![a, b],
            RuleModel::Scan { a: a.detached(), h: v->Ok_0.detached() },
            res,
        );
    let t = v->Ok_0;
    assert(alike::<S>(y, t));
    assert(t.elems() == t.data);
    reveal(scan_parts);
    let o = choose|o: Result<(Model<S>, Model<S>), Error>| #[trigger]
        scan_back_out::<S>("gated_scan"@, a.detached(), t.detached(), gy, o) && passes(
            o,
            rp,
            gives(rp, seq![o->Ok_0.0, o->Ok_0.1]),
        );
    let (p, q) = o->Ok_0;
    assert(parts == seq![p, q]);
    assert(p.elems() == p.data && q.elems() == q.data);
    assert(a.detached().f32s() == a.f32s());
    assert(t.detached().f32s() == t.f32s());
    let shape = a.shape;
    let (n0, n1, n2) = (shape[0] as int, shape[1] as int, shape[2] as int);
    reveal_with_fuel(volume, 4);
    assert(shape =~= seq![shape[0], shape[1], shape[2]]);
    let s2 = shape.drop_last();
    let s1 = s2.drop_last();
    assert(s1.drop_last().len() == 0);
    assert(volume(s1) == 1 * (shape[0] as nat));
    assert(volume(s2) == volume(s1) * (shape[1] as nat));
    assert(volume(shape) == volume(s2) * (shape[2] as nat));
    let step = batch_len(shape);
    assert(volume(shape) == n0 * step && n0 >= 1 && 0 < n2 <= step) by (nonlinear_arith)
        requires
            volume(shape) == ((1 * n0) * n1) * n2,
            volume(shape) > 0,
            step == n1 * n2,
            n0 >= 0,
            n1 >= 0,
            n2 >= 0,
    ;
    law_scan_gradient::<S::F, S>(
        r,
        d,
        a.f32s(),
        b.f32s(),
        step,
        n2,
        t.f32s(),
        gy.f32s(),
        p.f32s(),
        q.f32s(),
        n0,
    );
}

} // verus!
