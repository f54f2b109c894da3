//! Normalisation by the root mean square: rows of mean square one, and the gradient that follows
//! from the rules of differentiation.
use vstd::prelude::*;
use crate::ad::rms_norm_tracked;
use crate::algebra::{
    differences, lemma_factors, lemma_is_minus, lemma_spread, lemma_total_agree, lemma_total_parts,
    lemma_total_scaled, lemma_turn, lemma_undo, lemma_zero, multiple, products, scaled, sums_of,
};
use crate::calculus::{
    exact, lemma_cancels, lemma_change, lemma_counts, lemma_divides, lemma_squares_back, single,
    Change,
};
use crate::error::Error;
use crate::guarded::rms_back_out;
use crate::index::volume;
use crate::lines::in_line;
use crate::nodes::{tracked_out, Node, RuleModel};
use crate::norm_law::alike;
use crate::ring::{lemma_laws, lemma_sums_total, Ring};
use crate::rows::{
    rms_back_rel, rms_back_row, rms_back_steps, rms_norm_out, rms_rel, rms_row, rms_steps, row,
    row_scaled_differences, row_times, scaled_difference, RmsBackSteps, RmsSteps,
};
use crate::rules::rms_parts;
use crate::scalar::{every, is_difference, is_one, is_product, is_quotient, is_sum, Arith, Scalars};
use crate::softmax_values::{lemma_row_line, lemma_row_total};
use crate::tape::Backward;
use crate::tensor::{gives, passes, Model, Outcome};

verus! {

/// The changes of a list.
pub open spec fn changes<T>(d: Change<T>, xs: Seq<T>) -> Seq<T> {
    Seq::new(xs.len(), |i: int| d.at(xs[i]))
}

/// The change of a sum is the sum of the changes.
pub proof fn lemma_total_change<T>(
    r: Ring<T>,
    d: Change<T>,
    xs: Seq<T>,
    pick: spec_fn(int) -> bool,
    n: int,
)
    requires
        r.lawful(),
        d.adds(r),
        d.multiplies(r),
        n <= xs.len(),
    ensures
        d.at(r.total(xs, pick, n)) == r.total(changes(d, xs), pick, n),
    decreases n,
{
    lemma_change(r, d, r.zero, r.zero);
    if n > 0 {
        lemma_total_change(r, d, xs, pick, n - 1);
        lemma_change(r, d, r.total(xs, pick, n - 1), xs[n - 1]);
    }
}

/// A whole number does not change.
pub(crate) proof fn lemma_multiple_rests<T>(r: Ring<T>, d: Change<T>, n: nat)
    requires
        r.lawful(),
        d.adds(r),
        d.multiplies(r),
    ensures
        d.at(multiple(r, n)) == r.zero,
    decreases n,
{
    lemma_change(r, d, r.zero, r.zero);
    if n > 0 {
        lemma_multiple_rests(r, d, (n - 1) as nat);
        lemma_change(r, d, multiple(r, (n - 1) as nat), r.one);
        lemma_zero(r, r.zero);
    }
}

/// The numbers on the way of a row's normalisation, as equations.
pub open spec fn rms_facts<T, A: Arith<T>>(
    r: Ring<T>,
    eps: T,
    s: Seq<T>,
    mean: T,
    root: T,
    inverse: T,
) -> bool {
    &&& r.times(mean, multiple(r, s.len())) == r.total(products(r, s, s), every(), s.len() as int)
    &&& call_ensures(A::root, (r.plus(mean, eps),), root)
    &&& r.times(root, root) == r.plus(mean, eps)
    &&& root != r.zero ==> r.times(inverse, root) == r.one
}

proof fn lemma_rms_facts<T, A: Arith<T>>(r: Ring<T>, eps: T, s: Seq<T>, w: RmsSteps<T>)
    requires
        exact::<T, A>(r),
        s.len() <= usize::MAX,
        multiple(r, s.len()) != r.zero,
        rms_steps::<T, A>(eps, s, w),
    ensures
        w.count == multiple(r, s.len()),
        rms_facts::<T, A>(r, eps, s, w.mean, w.root, w.inverse),
{
    assert(w.squares =~= products(r, s, s)) by {
        assert forall|i: int| 0 <= i < s.len() implies w.squares[i] == products(r, s, s)[i] by {
            assert(is_product::<T, A>(s[i], s[i], w.squares[i]));
        }
    }
    lemma_sums_total::<T, A>(r, w.squares, every(), w.total);
    lemma_counts::<T, A>(r, s.len() as usize, w.count);
    lemma_divides::<T, A>(r, w.total, w.count, w.mean);
    assert(is_sum::<T, A>(w.mean, eps, w.lifted));
    lemma_squares_back::<T, A>(r, w.lifted, w.root);
    let one = choose|one: T| #[trigger]
        is_one::<T, A>(one) && is_quotient::<T, A>(one, w.root, w.inverse);
    if w.root != r.zero {
        lemma_divides::<T, A>(r, one, w.root, w.inverse);
    }
}

/// A normalised row: each element times the root of the mean square and `eps` is the element; its
/// square times the mean square and `eps` is the element's square; with `eps` zero the squares of
/// the row add up to its length.
pub proof fn law_rms_row<T, A: Arith<T>>(r: Ring<T>, eps: T, s: Seq<T>, y: Seq<T>) -> (w: (T, T))
    requires
        exact::<T, A>(r),
        s.len() <= usize::MAX,
        multiple(r, s.len()) != r.zero,
        rms_row::<T, A>(eps, s, y),
    ensures
        y.len() == s.len(),
        r.times(w.0, multiple(r, s.len())) == r.total(products(r, s, s), every(), s.len() as int),
        call_ensures(A::root, (r.plus(w.0, eps),), w.1),
        r.plus(w.0, eps) != r.zero ==> forall|k: int|
            0 <= k < s.len() ==> r.times(#[trigger] y[k], w.1) == s[k],
        r.plus(w.0, eps) != r.zero ==> forall|k: int|
            0 <= k < s.len() ==> r.times(
                r.times(#[trigger] y[k], y[k]),
                r.plus(w.0, eps),
            ) == r.times(s[k], s[k]),
        eps == r.zero && w.0 != r.zero ==> r.total(products(r, y, y), every(), y.len() as int)
            == multiple(r, s.len()),
{
    let w = choose|w: RmsSteps<T>| #[trigger]
        rms_steps::<T, A>(eps, s, w) && row_times::<T, A>(s, w.inverse, y);
    lemma_rms_facts::<T, A>(r, eps, s, w);
    let n = s.len() as int;
    let l = r.plus(w.mean, eps);
    lemma_zero(r, w.mean);
    if l != r.zero {
        lemma_zero(r, w.root);
        assert forall|k: int| 0 <= k < n implies r.times(#[trigger] y[k], w.root) == s[k] by {
            assert(is_product::<T, A>(s[k], w.inverse, y[k]));
            lemma_laws(r, s[k], w.inverse, w.root);
            lemma_zero(r, s[k]);
        }
        assert forall|k: int| 0 <= k < n implies r.times(r.times(#[trigger] y[k], y[k]), l)
            == r.times(s[k], s[k]) by {
            lemma_factors(r, y[k], w.root, y[k], w.root);
        }
        if eps == r.zero {
            let sq = products(r, y, y);
            let a = scaled(r, w.mean, sq);
            let b = products(r, s, s);
            assert forall|k: int| 0 <= k < n && #[trigger] every()(k) implies a[k] == b[k] by {
                lemma_laws(r, w.mean, sq[k], sq[k]);
            }
            lemma_total_agree(r, a, b, every(), every(), n);
            lemma_total_scaled(r, w.mean, sq, every(), n);
            let t = r.total(sq, every(), n);
            lemma_laws(r, w.mean, t, t);
            lemma_laws(r, w.mean, multiple(r, s.len()), t);
            lemma_cancels(r, t, multiple(r, s.len()), w.mean);
        }
    }
    (w.mean, w.root)
}

/// The change of the inverse of the root mean square.
proof fn lemma_inverse_change<T, A: Arith<T>>(
    r: Ring<T>,
    d: Change<T>,
    eps: T,
    s: Seq<T>,
    w: RmsSteps<T>,
)
    requires
        exact::<T, A>(r),
        d.follows::<A>(r),
        d.at(eps) == r.zero,
        s.len() <= usize::MAX,
        multiple(r, s.len()) != r.zero,
        r.plus(r.one, r.one) != r.zero,
        w.root != r.zero,
        rms_steps::<T, A>(eps, s, w),
    ensures
        r.times(d.at(w.inverse), w.count) == r.minus(
            r.zero,
            r.times(
                r.times(r.times(w.inverse, w.inverse), w.inverse),
                r.total(products(r, s, changes(d, s)), every(), s.len() as int),
            ),
        ),
{
    lemma_rms_facts::<T, A>(r, eps, s, w);
    let n = s.len() as int;
    let c = w.count;
    let (v, root, l) = (w.inverse, w.root, r.plus(w.mean, eps));
    let sq = products(r, s, s);
    let ds = changes(d, s);
    let sd = products(r, s, ds);
    let t = r.total(sd, every(), n);
    // c d(l) == t + t
    lemma_multiple_rests(r, d, s.len());
    lemma_change(r, d, w.mean, c);
    lemma_change(r, d, w.mean, eps);
    lemma_zero(r, d.at(w.mean));
    lemma_zero(r, w.mean);
    lemma_zero(r, r.times(d.at(w.mean), c));
    lemma_total_change(r, d, sq, every(), n);
    let a = changes(d, sq);
    let b = sums_of(r, sd, sd);
    assert forall|k: int| 0 <= k < n && #[trigger] every()(k) implies a[k] == b[k] by {
        lemma_change(r, d, s[k], s[k]);
        lemma_laws(r, d.at(s[k]), s[k], s[k]);
    }
    lemma_total_agree(r, a, b, every(), every(), n);
    lemma_total_parts(r, sd, sd, every(), n);
    let dl = d.at(l);
    assert(r.times(dl, c) == r.plus(t, t));
    // d(root): root root == l
    lemma_change(r, d, root, root);
    let dr = d.at(root);
    lemma_laws(r, dr, root, root);
    let x = r.times(dr, root);
    assert(dl == r.plus(x, x));
    // d(v) root + v dr == 0
    lemma_change(r, d, v, root);
    let dv = d.at(v);
    assert(r.plus(r.times(dv, root), r.times(v, dr)) == r.zero);
    lemma_is_minus(r, r.zero, r.times(v, dr), r.times(dv, root));
    // times v: dv == 0 - v v dr
    let vv = r.times(v, v);
    lemma_laws(r, dv, root, v);
    lemma_laws(r, root, v, v);
    lemma_zero(r, dv);
    assert(r.times(r.times(dv, root), v) == dv);
    lemma_spread(r, v, r.zero, r.times(v, dr));
    lemma_zero(r, v);
    lemma_laws(r, v, dr, v);
    lemma_turn(r, v, dr, v);
    assert(r.times(r.times(v, dr), v) == r.times(vv, dr));
    assert(dv == r.minus(r.zero, r.times(vv, dr)));
    // dr == v x, as root v == 1
    lemma_turn(r, dr, root, v);
    lemma_laws(r, dr, root, v);
    lemma_zero(r, dr);
    assert(r.times(x, v) == dr);
    let vvv = r.times(vv, v);
    lemma_laws(r, x, v, v);
    lemma_laws(r, vv, v, x);
    assert(r.times(vv, dr) == r.times(vvv, x));
    // c x == t
    let two = r.plus(r.one, r.one);
    lemma_spread(r, c, x, x);
    let xc = r.times(x, c);
    assert(r.plus(xc, xc) == r.plus(t, t));
    lemma_spread(r, xc, r.one, r.one);
    lemma_spread(r, t, r.one, r.one);
    lemma_zero(r, xc);
    lemma_zero(r, t);
    lemma_cancels(r, xc, t, two);
    // dv c == 0 - vvv x c
    lemma_spread(r, c, r.zero, r.times(vvv, x));
    lemma_zero(r, c);
    lemma_laws(r, vvv, x, c);
}

/// The gradient of a normalised row: the pieces, each times the change of its element, add up to
/// the cotangents times the changes of the values.
pub proof fn law_rms_row_gradient<T, A: Arith<T>>(
    r: Ring<T>,
    d: Change<T>,
    eps: T,
    s: Seq<T>,
    y: Seq<T>,
    g: Seq<T>,
    p: Seq<T>,
)
    requires
        exact::<T, A>(r),
        single::<T, A>(),
        d.follows::<A>(r),
        d.at(eps) == r.zero,
        s.len() <= usize::MAX,
        g.len() == s.len(),
        multiple(r, s.len()) != r.zero,
        r.plus(r.one, r.one) != r.zero,
        forall|m: T| #[trigger]
            r.times(m, multiple(r, s.len())) == r.total(
                products(r, s, s),
                every(),
                s.len() as int,
            ) ==> r.plus(m, eps) != r.zero,
        rms_row::<T, A>(eps, s, y),
        rms_back_row::<T, A>(eps, s, g, p),
    ensures
        y.len() == s.len(),
        p.len() == s.len(),
        r.total(products(r, p, changes(d, s)), every(), s.len() as int) == r.total(
            products(r, g, changes(d, y)),
            every(),
            s.len() as int,
        ),
{
    let w = choose|w: RmsSteps<T>| #[trigger]
        rms_steps::<T, A>(eps, s, w) && row_times::<T, A>(s, w.inverse, y);
    let (u, b) = choose|u: RmsSteps<T>, b: RmsBackSteps<T>|
        {
            &&& #[trigger] rms_steps::<T, A>(eps, s, u)
            &&& #[trigger] rms_back_steps::<T, A>(s, g, u.inverse, u.count, b)
            &&& p.len() == s.len()
            &&& row_scaled_differences::<T, A>(g, u.inverse, s, b.share, p)
        };
    lemma_rms_facts::<T, A>(r, eps, s, w);
    lemma_rms_facts::<T, A>(r, eps, s, u);
    let n = s.len() as int;
    let c = multiple(r, s.len());
    assert(r.plus(w.mean, eps) != r.zero);
    lemma_zero(r, w.root);
    lemma_cancels(r, w.mean, u.mean, c);
    assert(u.root == w.root) by {
        reveal(single);
    }
    lemma_cancels(r, u.inverse, w.inverse, w.root);
    let v = w.inverse;
    lemma_inverse_change::<T, A>(r, d, eps, s, w);
    let dv = d.at(v);
    let ds = changes(d, s);
    let dy = changes(d, y);
    let vvv = r.times(r.times(v, v), v);
    let gs = products(r, g, s);
    let gd = products(r, g, ds);
    let sd = products(r, s, ds);
    // The right side: v sum(g ds) + dv sum(g s).
    let right = products(r, g, dy);
    let a = scaled(r, v, gd);
    let e = scaled(r, dv, gs);
    let parted = sums_of(r, a, e);
    assert forall|k: int| 0 <= k < n && #[trigger] every()(k) implies right[k] == parted[k] by {
        assert(is_product::<T, A>(s[k], v, y[k]));
        lemma_change(r, d, s[k], v);
        lemma_spread(r, g[k], r.times(ds[k], v), r.times(s[k], dv));
        lemma_turn(r, g[k], ds[k], v);
        lemma_laws(r, g[k], ds[k], v);
        lemma_laws(r, r.times(g[k], ds[k]), v, v);
        lemma_laws(r, g[k], s[k], dv);
        lemma_laws(r, r.times(g[k], s[k]), dv, dv);
    }
    lemma_total_agree(r, right, sums_of(r, a, e), every(), every(), n);
    lemma_total_parts(r, a, e, every(), n);
    lemma_total_scaled(r, v, gd, every(), n);
    lemma_total_scaled(r, dv, gs, every(), n);
    // The left side: v sum(g ds) - share sum(s ds).
    let left = products(r, p, ds);
    let h = scaled(r, b.share, sd);
    assert forall|k: int| 0 <= k < n && #[trigger] every()(k) implies left[k] == differences(
        r,
        a,
        h,
    )[k] by {
        assert(scaled_difference::<T, A>(g[k], v, s[k], b.share, p[k]));
        let (x, z) = choose|x: T, z: T| #[trigger]
            is_product::<T, A>(g[k], v, x) && #[trigger] is_product::<T, A>(s[k], b.share, z)
                && is_difference::<T, A>(x, z, p[k]);
        lemma_spread(r, ds[k], x, z);
        lemma_turn(r, g[k], v, ds[k]);
        lemma_laws(r, r.times(g[k], ds[k]), v, v);
        lemma_turn(r, s[k], b.share, ds[k]);
        lemma_laws(r, r.times(s[k], ds[k]), b.share, v);
    }
    lemma_total_agree(r, left, differences(r, a, h), every(), every(), n);
    lemma_total_parts(r, a, h, every(), n);
    lemma_total_scaled(r, b.share, sd, every(), n);
    // dv sum(g s) == 0 - share sum(s ds), both times the length.
    assert(b.products =~= products(r, s, g)) by {
        assert forall|k: int| 0 <= k < n implies b.products[k] == products(r, s, g)[k] by {
            assert(is_product::<T, A>(s[k], g[k], b.products[k]));
        }
    }
    lemma_sums_total::<T, A>(r, b.products, every(), b.dot);
    let dot = r.total(gs, every(), n);
    assert forall|k: int| 0 <= k < n && #[trigger] every()(k) implies b.products[k] == gs[k] by {
        lemma_laws(r, s[k], g[k], g[k]);
    }
    lemma_total_agree(r, b.products, gs, every(), every(), n);
    assert(b.dot == dot);
    lemma_divides::<T, A>(r, b.third, c, b.share);
    let t = r.total(sd, every(), n);
    let f = r.times(b.share, t);
    assert(b.third == r.times(r.times(r.times(dot, v), v), v));
    lemma_laws(r, dot, v, v);
    lemma_laws(r, dot, r.times(v, v), v);
    assert(b.third == r.times(dot, vvv));
    // (dv dot) c
    lemma_turn(r, dv, dot, c);
    lemma_laws(r, dot, r.times(dv, c), dot);
    lemma_spread(r, dot, r.zero, r.times(vvv, t));
    lemma_zero(r, dot);
    lemma_laws(r, vvv, t, dot);
    assert(r.times(r.times(dv, dot), c) == r.minus(r.zero, r.times(dot, r.times(vvv, t))));
    // (0 - share t) c
    lemma_spread(r, c, r.zero, f);
    lemma_zero(r, c);
    lemma_turn(r, b.share, t, c);
    lemma_laws(r, t, r.times(b.share, c), t);
    lemma_laws(r, dot, vvv, t);
    assert(r.times(f, c) == r.times(r.times(dot, vvv), t));
    let nf = r.minus(r.zero, f);
    lemma_cancels(r, r.times(dv, dot), nf, c);
    // v sum(g ds) - share t == v sum(g ds) + dv dot
    let q = r.times(v, r.total(gd, every(), n));
    lemma_undo(r, r.zero, f);
    lemma_laws(r, q, nf, f);
    lemma_zero(r, q);
    lemma_is_minus(r, q, f, r.plus(q, nf));
}

/// Normalisation by the root mean square along the last axis, on 32-bit floats: with eps zero,
/// every row has mean square one; whatever eps is, every element's square times the row's mean
/// square and eps is the square of the element that it comes from.
pub proof fn law_rms_norm<S: Scalars>(
    r: Ring<S::F>,
    before: Seq<Node<S>>,
    after: Seq<Node<S>>,
    x: Model<S>,
    eps: S::F,
    y: Model<S>,
    i: int,
) -> (w: (S::F, S::F))
    requires
        exact::<S::F, S>(r),
        x.data is F32,
        0 < x.shape.len(),
        0 <= i < volume(x.shape),
        multiple(r, x.shape.last() as nat) != r.zero,
        rms_norm_tracked::<S>(before, after, x, eps, Ok(y)),
    ensures
        y.shape == x.shape,
        r.times(w.0, multiple(r, x.shape.last() as nat)) == r.total(
            products(r, x.f32s(), x.f32s()),
            in_line(x.shape, x.shape.len() - 1, i),
            volume(x.shape) as int,
        ),
        call_ensures(<S as Arith<S::F>>::root, (r.plus(w.0, eps),), w.1),
        r.plus(w.0, eps) != r.zero ==> r.times(y.f32s()[i], w.1) == x.f32s()[i] && r.times(
            r.times(y.f32s()[i], y.f32s()[i]),
            r.plus(w.0, eps),
        ) == r.times(x.f32s()[i], x.f32s()[i]),
        eps == r.zero && w.0 != r.zero ==> r.total(
            products(r, y.f32s(), y.f32s()),
            in_line(x.shape, x.shape.len() - 1, i),
            volume(x.shape) as int,
        ) == multiple(r, x.shape.last() as nat),
{
    let v = choose|v: Outcome<S>| #[trigger]
        rms_norm_out::<S>(x, eps, v) && v is Ok && alike::<S>(y, v->Ok_0);
    let t = v->Ok_0;
    assert(t.elems() == t.data);
    let shape = x.shape;
    let d = shape.last() as int;
    let b = lemma_row_line(shape, i);
    let (xs, ys) = (x.f32s(), y.f32s());
    assert(ys == t.data->F32_0);
    let line = in_line(shape, shape.len() - 1, i);
    let (s, z) = (row(xs, d, b), row(ys, d, b));
    assert(rms_rel::<S::F, S>(eps)(b, s, z));
    let w = law_rms_row::<S::F, S>(r, eps, s, z);
    let n = xs.len() as int;
    let (xx, yy) = (products(r, xs, xs), products(r, ys, ys));
    lemma_row_total(r, xx, line, b * d, d, n);
    lemma_row_total(r, yy, line, b * d, d, n);
    assert(xx.subrange(b * d, b * d + d) =~= products(r, s, s));
    assert(yy.subrange(b * d, b * d + d) =~= products(r, z, z));
    assert(s[i - b * d] == xs[i] && z[i - b * d] == ys[i]);
    w
}

/// The gradient of the normalisation, on 32-bit floats: along each row the pieces, each times the
/// change of its element, add up to the cotangents times the changes of the values.
pub proof fn law_rms_norm_gradient<S: Scalars>(
    r: Ring<S::F>,
    d: Change<S::F>,
    before: Seq<Node<S>>,
    after: Seq<Node<S>>,
    x: Model<S>,
    eps: S::F,
    y: Model<S>,
    gy: Model<S>,
    parts: Seq<Model<S>>,
    i: int,
)
    requires
        exact::<S::F, S>(r),
        single::<S::F, S>(),
        d.follows::<S>(r),
        d.at(eps) == r.zero,
        x.data is F32,
        x.in_graph,
        0 < x.shape.len(),
        0 <= i < volume(x.shape),
        gy.shape == x.shape,
        multiple(r, x.shape.last() as nat) != r.zero,
        r.plus(r.one, r.one) != r.zero,
        forall|m: S::F| #[trigger]
            r.times(m, multiple(r, x.shape.last() as nat)) == r.total(
                products(r, x.f32s(), x.f32s()),
                in_line(x.shape, x.shape.len() - 1, i),
                volume(x.shape) as int,
            ) ==> r.plus(m, eps) != r.zero,
        rms_norm_tracked::<S>(before, after, x, eps, Ok(y)),
        after.len() > 0,
        after.last().vjp(gy, Ok(parts)),
    ensures
        after.len() == before.len() + 1,
        after.last().sources() == seq![x],
        y.shape == x.shape,
        parts.len() == 1,
        parts[0].shape == x.shape,
        r.total(
            products(r, parts[0].f32s(), changes(d, x.f32s())),
            in_line(x.shape, x.shape.len() - 1, i),
            volume(x.shape) as int,
        ) == r.total(
            products(r, gy.f32s(), changes(d, y.f32s())),
            in_line(x.shape, x.shape.len() - 1, i),
            volume(x.shape) as int,
        ),
{
    let res: Outcome<S> = Ok(y);
    let rp: Result<Seq<Model<S>>, Error> = Ok(parts);
    let v = choose|v: Outcome<S>| #[trigger]
        rms_norm_out::<S>(x, eps, v) && tracked_out::<S>(
            before,
            after,
            x.in_graph,
            v,
            seq![x],
            RuleModel::Rms { x: x.detached(), eps },
            res,
        );
    let t = v->Ok_0;
    assert(alike::<S>(y, t));
    assert(t.elems() == t.data);
    reveal(rms_parts);
    let o = choose|o: Outcome<S>| #[trigger]
        rms_back_out::<S>("rms_norm"@, x.detached(), gy, eps, o) && passes(
            o,
            rp,
            gives(rp, seq![o->Ok_0]),
        );
    let q = o->Ok_0;
    assert(parts == seq![q]);
    assert(q.elems() == q.data);
    let shape = x.shape;
    let len = shape.last() as int;
    let b = lemma_row_line(shape, i);
    let (xs, ys, gs, ps) = (x.f32s(), y.f32s(), gy.f32s(), q.f32s());
    assert(x.detached().f32s() == xs);
    assert(ys == t.data->F32_0);
    assert(ps == q.data->F32_0);
    let line = in_line(shape, shape.len() - 1, i);
    let (s, z, g, p) = (row(xs, len, b), row(ys, len, b), row(gs, len, b), row(ps, len, b));
    assert(rms_rel::<S::F, S>(eps)(b, s, z));
    assert(rms_back_rel::<S::F, S>(eps, gs, len)(b, s, p));
    let n = xs.len() as int;
    let xx = products(r, xs, xs);
    lemma_row_total(r, xx, line, b * len, len, n);
    assert(xx.subrange(b * len, b * len + len) =~= products(r, s, s));
    law_rms_row_gradient::<S::F, S>(r, d, eps, s, z, g, p);
    let left = products(r, ps, changes(d, xs));
    let right = products(r, gs, changes(d, ys));
    lemma_row_total(r, left, line, b * len, len, n);
    lemma_row_total(r, right, line, b * len, len, n);
    assert(left.subrange(b * len, b * len + len) =~= products(r, p, changes(d, s)));
    assert(right.subrange(b * len, b * len + len) =~= products(r, g, changes(d, z)));
}

} // verus!
