//! Maxima along an axis, and their gradient.
use vstd::prelude::*;
use crate::ad_axes::amax_tracked;
use crate::algebra::{lemma_is_minus, lemma_undo, lemma_zero};
use crate::calculus::orders;
use crate::error::Error;
use crate::index::{lemma_ravel, lemma_unravel, unravel, volume};
use crate::lines::{in_line, lemma_line, lemma_same_line, line_rank};
use crate::nodes::{tracked_out, Node, RuleModel};
use crate::norm_law::alike;
use crate::reduce::{
    amax_out, axis_maxima, contributes, keeping_above, keeping_greater, one_marked, reduces,
};
use crate::ring::{lemma_laws, Ring};
use crate::routes::{
    all_routed, along, amax_parts, amax_routed, beats, given_f32s, leads, level, line_of, routed,
    routes, shaped_parts, single_out, spares,
};
use crate::rules::from_f32s_out;
use crate::scalar::{folds, is_difference, runs, Arith, Scalars};
use crate::shape::axis_at;
use crate::sum_law::{lemma_kept_source, lemma_unsqueezed_elems};
use crate::tape::Backward;
use crate::tensor::{passes, Model, Outcome};
use crate::views::{unsqueeze_out, unsqueezed};

verus! {

/// In the order `gt`, a number that is not above a second, which is not above a third, is not above
/// the third; and every number is above the lowest, or is the lowest.
pub open spec fn ranks<T, A: Arith<T>>(gt: spec_fn(T, T) -> bool) -> bool {
    &&& forall|x: T, y: T, z: T|
        #![trigger gt(x, y), gt(y, z)]
        !gt(x, y) && !gt(y, z) ==> !gt(x, z)
    &&& forall|low: T, x: T|
        #![trigger call_ensures(A::lowest, (), low), gt(x, low)]
        call_ensures(A::lowest, (), low) && !gt(x, low) ==> x == low
}

/// One of the first `n` picked numbers is `v`.
pub open spec fn among<T>(xs: Seq<T>, pick: spec_fn(int) -> bool, n: int, v: T) -> bool {
    exists|k: int| 0 <= k < n && #[trigger] pick(k) && xs[k] == v
}

/// Steps that keep the greater of what was found and the next number.
spec fn keeps_most<T>(gt: spec_fn(T, T) -> bool, step: spec_fn(T, T, T) -> bool) -> bool {
    forall|p: T, x: T, q: T| #[trigger]
        step(p, x, q) ==> (q == p && !gt(x, p)) || (q == x && !gt(p, x))
}

/// What is kept of the first `n` numbers.
proof fn lemma_most<T, A: Arith<T>>(
    r: Ring<T>,
    gt: spec_fn(T, T) -> bool,
    step: spec_fn(T, T, T) -> bool,
    xs: Seq<T>,
    pick: spec_fn(int) -> bool,
    total: int,
    low: T,
    acc: Seq<T>,
    n: int,
)
    requires
        orders::<T, A>(r, gt),
        ranks::<T, A>(gt),
        keeps_most(gt, step),
        runs(step, xs, pick, total, low, acc),
        0 <= n <= total,
    ensures
        acc[n] == low || among(xs, pick, n, acc[n]),
        forall|k: int| 0 <= k < n && #[trigger] pick(k) ==> !gt(xs[k], acc[n]),
    decreases n,
{
    if n > 0 {
        let m = n - 1;
        lemma_most::<T, A>(r, gt, step, xs, pick, total, low, acc, m);
        let (p, q) = (acc[m], acc[m + 1]);
        if pick(m) {
            assert(step(p, xs[m], q));
            assert(!gt(p, q) && !gt(xs[m], q)) by {
                reveal(orders);
                assert(gt(p, p) ==> !gt(p, p));
                assert(gt(xs[m], xs[m]) ==> !gt(xs[m], xs[m]));
            }
            assert forall|k: int| 0 <= k < n && #[trigger] pick(k) implies !gt(xs[k], q) by {
                if k < m {
                    assert(!gt(xs[k], p));
                }
            }
            if q == xs[m] {
                assert(pick(m));
                assert(among(xs, pick, n, q));
            }
        } else {
            assert(q == p);
        }
        if p != low && q == p {
            let k = choose|k: int| 0 <= k < m && #[trigger] pick(k) && xs[k] == p;
            assert(pick(k) && k < n);
        }
    }
}

/// The maximum of the line of `i`.
proof fn lemma_line_most<T, A: Arith<T>>(
    r: Ring<T>,
    gt: spec_fn(T, T) -> bool,
    step: spec_fn(T, T, T) -> bool,
    shape: Seq<usize>,
    ax: int,
    keep: bool,
    xs: Seq<T>,
    out: Seq<T>,
    i: int,
)
    requires
        orders::<T, A>(r, gt),
        ranks::<T, A>(gt),
        keeps_most(gt, step),
        0 <= ax < shape.len(),
        0 <= i < volume(shape),
        xs.len() == volume(shape),
        axis_maxima::<T, A>(step, shape, one_marked(shape.len(), ax), keep, xs, out),
    ensures
        0 <= line_rank(shape, ax, i) < out.len(),
        !gt(xs[i], out[line_rank(shape, ax, i)]),
        among(xs, in_line(shape, ax, i), xs.len() as int, out[line_rank(shape, ax, i)]),
{
    let red = one_marked(shape.len(), ax);
    let low = choose|low: T| #[trigger]
        call_ensures(A::lowest, (), low) && reduces(step, low, shape, red, keep, xs, out);
    let at = line_rank(shape, ax, i);
    lemma_line(shape, ax, i);
    lemma_kept_source(shape, red, i);
    let pick = contributes(shape, red, keep, at);
    let n = xs.len() as int;
    let top = out[at];
    assert(folds(step, xs, pick, n, low, top));
    let acc = choose|acc: Seq<T>| #[trigger]
        runs(step, xs, pick, n, low, acc) && acc[n] == top;
    lemma_most::<T, A>(r, gt, step, xs, pick, n, low, acc, n);
    assert(pick(i));
    assert(!gt(xs[i], top));
    let line = in_line(shape, ax, i);
    if among(xs, pick, n, top) {
        let k = choose|k: int| 0 <= k < n && #[trigger] pick(k) && xs[k] == top;
        lemma_line(shape, ax, k);
        lemma_kept_source(shape, red, k);
        lemma_same_line(shape, ax, i, k);
        assert(line(k));
    } else {
        assert(xs[i] == low);
        assert(line(i));
    }
}

/// Keeping the greater, either way.
proof fn lemma_keeps_most<T, A: Arith<T>>(r: Ring<T>, gt: spec_fn(T, T) -> bool)
    requires
        orders::<T, A>(r, gt),
    ensures
        keeps_most(gt, keeping_greater::<T, A>()),
        keeps_most(gt, keeping_above::<T, A>()),
{
    reveal(orders);
}

/// A maximum along an axis: no element is above what its line comes to, which is one of the
/// elements of the line. On 32-bit floats.
pub proof fn law_amax_f32<S: Scalars>(
    r: Ring<S::F>,
    gt: spec_fn(S::F, S::F) -> bool,
    x: Model<S>,
    axis: isize,
    keepdims: bool,
    t: Model<S>,
    ax: int,
    i: int,
)
    requires
        orders::<S::F, S>(r, gt),
        ranks::<S::F, S>(gt),
        x.data is F32,
        ax == axis || ax == axis + x.shape.len(),
        0 <= ax < x.shape.len(),
        0 <= i < volume(x.shape),
        amax_out::<S>(x, axis, keepdims, Ok(t)),
    ensures
        0 <= line_rank(x.shape, ax, i) < t.f32s().len(),
        !gt(x.f32s()[i], t.f32s()[line_rank(x.shape, ax, i)]),
        among(
            x.f32s(),
            in_line(x.shape, ax, i),
            volume(x.shape) as int,
            t.f32s()[line_rank(x.shape, ax, i)],
        ),
{
    assert(axis_at(axis as int, x.shape.len() as int) == ax);
    lemma_keeps_most::<S::F, S>(r, gt);
    let step = if ax == x.shape.len() - 1 {
        keeping_greater::<S::F, S>()
    } else {
        keeping_above::<S::F, S>()
    };
    assert(t.elems() == t.data);
    assert(t.f32s() == t.data->F32_0);
    lemma_line_most::<S::F, S>(r, gt, step, x.shape, ax, keepdims, x.f32s(), t.f32s(), i);
}

/// A maximum along an axis: no element is above what its line comes to, which is one of the
/// elements of the line. On 64-bit floats.
pub proof fn law_amax_f64<S: Scalars>(
    r: Ring<S::D>,
    gt: spec_fn(S::D, S::D) -> bool,
    x: Model<S>,
    axis: isize,
    keepdims: bool,
    t: Model<S>,
    ax: int,
    i: int,
)
    requires
        orders::<S::D, S>(r, gt),
        ranks::<S::D, S>(gt),
        x.data is F64,
        ax == axis || ax == axis + x.shape.len(),
        0 <= ax < x.shape.len(),
        0 <= i < volume(x.shape),
        amax_out::<S>(x, axis, keepdims, Ok(t)),
    ensures
        0 <= line_rank(x.shape, ax, i) < t.f64s().len(),
        !gt(x.f64s()[i], t.f64s()[line_rank(x.shape, ax, i)]),
        among(
            x.f64s(),
            in_line(x.shape, ax, i),
            volume(x.shape) as int,
            t.f64s()[line_rank(x.shape, ax, i)],
        ),
{
    assert(axis_at(axis as int, x.shape.len() as int) == ax);
    lemma_keeps_most::<S::D, S>(r, gt);
    let step = keeping_above::<S::D, S>();
    assert(t.elems() == t.data);
    assert(t.f64s() == t.data->F64_0);
    lemma_line_most::<S::D, S>(r, gt, step, x.shape, ax, keepdims, x.f64s(), t.f64s(), i);
}

/// The order goes by the signs of differences.
pub open spec fn by_difference<T>(r: Ring<T>, gt: spec_fn(T, T) -> bool) -> bool {
    forall|x: T, y: T| #[trigger] gt(x, y) ==> gt(r.minus(x, y), r.zero)
}

/// What is told of two numbers, one above the other or both equal.
proof fn lemma_level<T, A: Arith<T>>(
    r: Ring<T>,
    gt: spec_fn(T, T) -> bool,
    v: T,
    x: T,
    yes: bool,
)
    requires
        r.computes::<A>(),
        orders::<T, A>(r, gt),
        by_difference(r, gt),
        level::<T, A>(v, x, r.zero, yes),
    ensures
        gt(x, v) ==> !yes,
        v == x ==> yes,
{
    reveal(orders);
    let (d, m) = choose|d: T, m: T| #[trigger]
        is_difference::<T, A>(v, x, d) && #[trigger] call_ensures(A::magnitude, (d,), m)
            && call_ensures(A::at_least, (r.zero, m), yes);
    assert(d == r.minus(v, x));
    assert(yes == !gt(m, r.zero));
    lemma_zero(r, x);
    lemma_zero(r, r.zero);
    assert(gt(r.zero, r.zero) ==> !gt(r.zero, r.zero));
    if gt(x, v) {
        let e = r.minus(x, v);
        assert(gt(e, r.zero));
        // 0 - (v - x) is x - v
        lemma_undo(r, v, x);
        lemma_undo(r, x, v);
        lemma_laws(r, e, d, x);
        lemma_laws(r, d, x, x);
        lemma_laws(r, e, v, v);
        lemma_opposites(r, v, x);
    }
}

/// A difference turned round is what it takes to bring it to zero.
proof fn lemma_opposites<T>(r: Ring<T>, v: T, x: T)
    requires
        r.lawful(),
    ensures
        r.minus(r.zero, r.minus(v, x)) == r.minus(x, v),
{
    let (d, e) = (r.minus(v, x), r.minus(x, v));
    lemma_undo(r, v, x);
    lemma_undo(r, x, v);
    // (e + d) + x == e + (d + x) == e + v == x
    lemma_laws(r, e, d, x);
    lemma_laws(r, d, x, x);
    lemma_laws(r, e, v, v);
    lemma_laws(r, r.plus(e, d), x, x);
    lemma_zero(r, x);
    lemma_is_minus(r, x, x, r.plus(e, d));
    lemma_is_minus(r, r.zero, d, e);
}

/// An element of the line of `i`, by its place on the axis.
proof fn lemma_on_line(shape: Seq<usize>, ax: int, i: int, k: int)
    requires
        0 <= ax < shape.len(),
        0 <= i < volume(shape),
        0 <= k < volume(shape),
        in_line(shape, ax, i)(k),
    ensures
        0 <= unravel(shape, k)[ax] < shape[ax],
        along(shape, ax, i, unravel(shape, k)[ax]) == k,
{
    lemma_unravel(shape, i);
    lemma_unravel(shape, k);
    assert(unravel(shape, i).update(ax, unravel(shape, k)[ax]) =~= unravel(shape, k));
}

/// A place on the axis gives an element of the line of `i`.
proof fn lemma_from_line(shape: Seq<usize>, ax: int, i: int, j: int)
    requires
        0 <= ax < shape.len(),
        0 <= i < volume(shape),
        0 <= j < shape[ax],
    ensures
        0 <= along(shape, ax, i, j) < volume(shape),
        in_line(shape, ax, i)(along(shape, ax, i, j)),
        unravel(shape, along(shape, ax, i, j))[ax] == j,
{
    lemma_unravel(shape, i);
    let idx = unravel(shape, i).update(ax, j);
    assert forall|q: int| 0 <= q < shape.len() implies 0 <= #[trigger] idx[q] < shape[q] by {
        assert(0 <= unravel(shape, i)[q] < shape[q]);
    }
    lemma_ravel(shape, idx);
}

/// Element `i` is the first of the greatest of its line: no element of the line is above it, and it
/// is above those that come before it on the axis.
pub open spec fn foremost<T>(
    gt: spec_fn(T, T) -> bool,
    xs: Seq<T>,
    shape: Seq<usize>,
    ax: int,
    i: int,
) -> bool {
    forall|k: int|
        0 <= k < xs.len() && #[trigger] in_line(shape, ax, i)(k) ==> !gt(xs[k], xs[i]) && (unravel(
            shape,
            k,
        )[ax] < unravel(shape, i)[ax] ==> gt(xs[i], xs[k]))
}

/// Some element of the line of `i` is above it, or equals it and comes before it on the axis.
pub open spec fn outdone<T>(
    gt: spec_fn(T, T) -> bool,
    xs: Seq<T>,
    shape: Seq<usize>,
    ax: int,
    i: int,
) -> bool {
    exists|k: int|
        0 <= k < xs.len() && #[trigger] in_line(shape, ax, i)(k) && (gt(xs[k], xs[i]) || (unravel(
            shape,
            k,
        )[ax] < unravel(shape, i)[ax] && xs[k] == xs[i]))
}

/// What position `i` gets.
proof fn lemma_due<T, A: Arith<T>>(
    r: Ring<T>,
    gt: spec_fn(T, T) -> bool,
    xs: Seq<T>,
    shape: Seq<usize>,
    ax: int,
    gs: Seq<T>,
    i: int,
    p: T,
)
    requires
        r.computes::<A>(),
        orders::<T, A>(r, gt),
        by_difference(r, gt),
        0 <= ax < shape.len(),
        0 <= i < volume(shape),
        xs.len() == volume(shape),
        routed::<T, A>(xs, shape, ax, r.zero, Some(gs), i, p),
    ensures
        foremost(gt, xs, shape, ax, i) ==> p == gs[line_rank(shape, ax, i)],
        outdone(gt, xs, shape, ax, i) ==> p == r.zero,
{
    let z = r.zero;
    let yes = choose|yes: bool| #[trigger]
        leads::<T, A>(xs, shape, ax, z, i, yes) && p == if yes {
            gs[line_of(shape, ax, i)]
        } else {
            z
        };
    if foremost(gt, xs, shape, ax, i) && !yes {
        let j = choose|j: int|
            0 <= j < shape[ax] && beats::<T, A>(
                xs[#[trigger] along(shape, ax, i, j)],
                xs[i],
                j < unravel(shape, i)[ax],
                z,
            );
        let k = along(shape, ax, i, j);
        lemma_from_line(shape, ax, i, j);
        assert(in_line(shape, ax, i)(k));
        if call_ensures(A::above, (xs[k], xs[i]), true) {
            reveal(orders);
        } else {
            lemma_level::<T, A>(r, gt, xs[k], xs[i], true);
        }
        assert(false);
    }
    if outdone(gt, xs, shape, ax, i) && yes {
        let k = choose|k: int|
            0 <= k < xs.len() && #[trigger] in_line(shape, ax, i)(k) && (gt(xs[k], xs[i]) || (
            unravel(shape, k)[ax] < unravel(shape, i)[ax] && xs[k] == xs[i]));
        lemma_on_line(shape, ax, i, k);
        let j = unravel(shape, k)[ax];
        assert(spares::<T, A>(
            xs[along(shape, ax, i, j)],
            xs[i],
            j < unravel(shape, i)[ax],
            z,
        ));
        if gt(xs[k], xs[i]) {
            reveal(orders);
        } else {
            lemma_level::<T, A>(r, gt, xs[k], xs[i], false);
        }
        assert(false);
    }
}

/// The gradient of a maximum along an axis: the first of the greatest of a line gets the cotangent
/// of the line, and an element that another outdoes gets nothing.
pub proof fn law_amax_gradient<S: Scalars>(
    r: Ring<S::F>,
    gt: spec_fn(S::F, S::F) -> bool,
    before: Seq<Node<S>>,
    after: Seq<Node<S>>,
    x: Model<S>,
    axis: isize,
    keepdims: bool,
    y: Model<S>,
    gy: Model<S>,
    parts: Seq<Model<S>>,
    ax: int,
    i: int,
)
    requires
        r.computes::<S>(),
        orders::<S::F, S>(r, gt),
        by_difference(r, gt),
        x.data is F32,
        x.in_graph,
        gy.data is F32,
        gy.valid(),
        x.shape.len() <= isize::MAX,
        gy.shape == y.shape,
        ax == axis || ax == axis + x.shape.len(),
        0 <= ax < x.shape.len(),
        0 <= i < volume(x.shape),
        amax_tracked::<S>(before, after, x, axis, keepdims, Ok(y)),
        after.len() > 0,
        after.last().vjp(gy, Ok(parts)),
    ensures
        after.len() == before.len() + 1,
        after.last().sources() == seq![x],
        parts.len() == 1,
        parts[0].shape == x.shape,
        foremost(gt, x.f32s(), x.shape, ax, i) ==> parts[0].f32s()[i] == gy.f32s()[line_rank(
            x.shape,
            ax,
            i,
        )],
        outdone(gt, x.f32s(), x.shape, ax, i) ==> parts[0].f32s()[i] == r.zero,
{
    let res: Outcome<S> = Ok(y);
    let rp: Result<Seq<Model<S>>, Error> = Ok(parts);
    assert(axis_at(axis as int, x.shape.len() as int) == ax);
    let at = ax as usize;
    let dx = x.detached();
    let v = choose|v: Outcome<S>| #[trigger]
        amax_out::<S>(x, axis, keepdims, v) && tracked_out::<S>(
            before,
            after,
            x.in_graph,
            v,
            seq![x],
            RuleModel::Amax { x: dx, axis: at, keep: keepdims },
            res,
        );
    assert(alike::<S>(y, v->Ok_0));
    assert(dx.f32s() == x.f32s());
    reveal(amax_parts);
    let g = if keepdims {
        gy
    } else {
        let o = choose|o: Outcome<S>| #[trigger]
            unsqueeze_out::<S>(gy, (at as isize) as int, o) && passes(
                o,
                rp,
                amax_routed::<S>(dx, at, o->Ok_0, rp),
            );
        assert((at as isize) as int == ax);
        lemma_unsqueezed_elems(gy, ax, gy.data->F32_0);
        assert(o->Ok_0 == unsqueezed(gy, ax));
        o->Ok_0
    };
    assert(g.f32s() == gy.f32s());
    assert(amax_routed::<S>(dx, at, g, rp));
    let ps = choose|ps: Seq<S::F>| #[trigger]
        routes::<S::F, S>(dx.f32s(), dx.shape, ax, given_f32s::<S>(g), ps) && shaped_parts::<S>(
            ps,
            dx.shape,
            rp,
        );
    let o = choose|o: Outcome<S>| #[trigger]
        from_f32s_out::<S>(ps, dx.shape, o) && single_out::<S>(o, rp);
    assert(parts == seq![o->Ok_0]);
    assert(parts[0].elems() == parts[0].data);
    assert(parts[0].f32s() == ps);
    assert(all_routed::<S::F, S>(x.f32s(), x.shape, ax, r.zero, Some(gy.f32s()), ps));
    lemma_due::<S::F, S>(r, gt, x.f32s(), x.shape, ax, gy.f32s(), i, ps[i]);
}

} // verus!
