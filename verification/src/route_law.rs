//! The gradients of the operations that pick elements: each cotangent goes back to the element that
//! it was picked from.
use vstd::prelude::*;
use crate::ad::{gather_tracked, take_tracked};
use crate::ad_fused::embedding_fused_tracked;
use crate::algebra::{lemma_total_agree, lemma_total_scaled, lemma_zero, products, scaled};
use crate::calculus::{lemma_change, Change};
use crate::error::Error;
use crate::guarded::{lookup_back_out, scatter_out};
use crate::index::{in_bounds, lemma_ravel, lemma_unravel, ravel, unravel, volume};
use crate::indexing::{
    gather_out, gather_source, pick_ok, picked, scatter_hits, scatter_target, take_out,
};
use crate::lookup::{all_summed, class_ok, column, embedding_out, looked_up, names, rows_looked_up};
use crate::matmul_law::{lemma_table, lemma_table_at};
use crate::nodes::{tracked_out, Node, RuleModel};
use crate::norm_law::alike;
use crate::ring::{group_sums, grouped, law_sums_regroup, lemma_folds_total, lemma_laws, Ring};
use crate::rms_law::changes;
use crate::rows::row;
use crate::rules::{
    embedding_parts, embedding_shaped, gather_added, gather_parts, take_added, take_column,
    take_index, take_parts, unbroadcast_out,
};
use crate::scalar::{every, is_zero, Scalars};
use crate::shape::axis_at;
use crate::sum_law::lemma_unsqueezed_elems;
use crate::tape::Backward;
use crate::tensor::{gives, passes, zeros_out, Model, Outcome};
use crate::views::{unsqueeze_out, unsqueezed};

verus! {

/// The balance of a choice: with each value the element that it is picked from, and each piece the
/// sum of the cotangents of what was picked there, both sides add up alike. What is picked from
/// nowhere does not change.
proof fn lemma_routed_balance<T>(
    r: Ring<T>,
    d: Change<T>,
    to: spec_fn(int) -> int,
    xs: Seq<T>,
    ys: Seq<T>,
    gs: Seq<T>,
    ps: Seq<T>,
)
    requires
        r.lawful(),
        d.adds(r),
        d.multiplies(r),
        ps.len() == xs.len(),
        gs.len() == ys.len(),
        forall|o: int| 0 <= o < ys.len() ==> -1 <= #[trigger] to(o) < xs.len(),
        forall|o: int|
            0 <= o < ys.len() ==> #[trigger] ys[o] == if to(o) >= 0 {
                xs[to(o)]
            } else {
                r.zero
            },
        forall|i: int|
            0 <= i < xs.len() ==> #[trigger] ps[i] == r.total(
                gs,
                grouped(to, i),
                ys.len() as int,
            ),
    ensures
        r.total(products(r, ps, changes(d, xs)), every(), xs.len() as int) == r.total(
            products(r, gs, changes(d, ys)),
            every(),
            ys.len() as int,
        ),
{
    let n = ys.len() as int;
    let right = products(r, gs, changes(d, ys));
    let left = products(r, ps, changes(d, xs));
    // One more place for what is picked from nowhere.
    let count = xs.len() + 1;
    let at = |o: int| if to(o) >= 0 { to(o) } else { xs.len() as int };
    law_sums_regroup(r, right, at, count, every(), every(), n);
    let groups = group_sums(r, right, at, count, n);
    lemma_change(r, d, r.zero, r.zero);
    assert forall|i: int| 0 <= i < xs.len() implies groups[i] == left[i] by {
        let e = d.at(xs[i]);
        let s = scaled(r, e, gs);
        let (p, q) = (grouped(at, i), grouped(to, i));
        assert forall|o: int| 0 <= o < n implies #[trigger] p(o) == q(o) by {
        }
        assert forall|o: int| 0 <= o < n && #[trigger] p(o) implies right[o] == s[o] by {
            lemma_laws(r, gs[o], e, e);
        }
        lemma_total_agree(r, right, s, p, q, n);
        lemma_total_scaled(r, e, gs, q, n);
        lemma_laws(r, e, ps[i], e);
    }
    let last = grouped(at, xs.len() as int);
    let none = scaled(r, r.zero, gs);
    assert forall|o: int| 0 <= o < n && #[trigger] last(o) implies right[o] == none[o] by {
        lemma_zero(r, gs[o]);
    }
    lemma_total_agree(r, right, none, last, last, n);
    lemma_total_scaled(r, r.zero, gs, last, n);
    lemma_zero(r, r.total(gs, last, n));
    assert(groups[xs.len() as int] == r.zero);
    lemma_total_agree(r, groups, left, every(), every(), xs.len() as int);
    lemma_zero(r, r.total(left, every(), xs.len() as int));
}

/// Where a gather reads is where its gradient goes.
proof fn lemma_gather_target(
    shape: Seq<usize>,
    ax: int,
    index_shape: Seq<usize>,
    index: Seq<i64>,
    o: int,
)
    requires
        0 <= ax < shape.len(),
        index_shape.len() == shape.len(),
        forall|k: int|
            0 <= k < shape.len() && k != ax ==> #[trigger] index_shape[k] <= shape[k],
        0 <= o < volume(index_shape),
        pick_ok(index[o], shape[ax]),
        shape[ax] <= i64::MAX,
    ensures
        scatter_target(shape, ax, index_shape, index, o) == ravel(
            shape,
            gather_source(shape, ax, unravel(index_shape, o), index[o]),
        ),
        0 <= scatter_target(shape, ax, index_shape, index, o) < volume(shape),
{
    lemma_unravel(index_shape, o);
    let idx = unravel(index_shape, o);
    let g = picked(index[o], shape[ax]);
    let a = gather_source(shape, ax, idx, index[o]);
    let b = idx.update(ax, g).take(shape.len() as int);
    assert forall|k: int| 0 <= k < shape.len() implies a[k] == b[k] && 0 <= b[k] < shape[k] by {
        assert(0 <= idx[k] < index_shape[k]);
        if k != ax {
            assert(index_shape[k] <= shape[k]);
        }
    }
    assert(a =~= b);
    assert(in_bounds(shape, b));
    lemma_ravel(shape, b);
}

/// Where every gathered element comes from.
spec fn gathered_from(
    shape: Seq<usize>,
    ax: int,
    index_shape: Seq<usize>,
    index: Seq<i64>,
) -> spec_fn(int) -> int {
    |o: int| scatter_target(shape, ax, index_shape, index, o)
}

/// Where every element of a look-up comes from.
spec fn looked_from(index: Seq<i64>, v: usize, inner: int) -> spec_fn(int) -> int {
    |q: int|
        if class_ok(index[q / inner], v) {
            index[q / inner] * inner + q % inner
        } else {
            -1
        }
}

/// The rows of a look-up that name a class, element by element.
proof fn lemma_named_rows<T>(
    r: Ring<T>,
    gs: Seq<T>,
    index: Seq<i64>,
    v: usize,
    inner: int,
    i: int,
    p: int,
    j: int,
)
    requires
        inner > 0,
        0 <= p,
        0 <= j <= inner,
        j < inner || p >= 0,
        p < index.len() || j == 0,
        p <= index.len(),
        0 <= i < v * inner,
        v <= i64::MAX,
    ensures
        r.total(gs, grouped(looked_from(index, v, inner), i), p * inner + j) == r.total(
            column(gs, inner, i % inner, index.len()),
            names(index, i / inner),
            if j > i % inner {
                p + 1
            } else {
                p
            },
        ),
    decreases p, j,
{
    let to = looked_from(index, v, inner);
    let pick = grouped(to, i);
    let (c, k) = (i / inner, i % inner);
    assert(0 <= c < v && 0 <= k < inner && i == c * inner + k) by (nonlinear_arith)
        requires
            0 <= i < v * inner,
            inner > 0,
            c == i / inner,
            k == i % inner,
    ;
    if j > 0 {
        lemma_named_rows(r, gs, index, v, inner, i, p, j - 1);
        let q = p * inner + j - 1;
        assert(q / inner == p && q % inner == j - 1 && q >= 0) by (nonlinear_arith)
            requires
                0 <= p,
                0 <= j - 1 < inner,
                q == p * inner + j - 1,
        ;
        let e = index[p];
        assert(pick(q) == (to(q) == i));
        assert(pick(q) == (e == c && j - 1 == k)) by {
            if class_ok(e, v) {
                assert(to(q) == e * inner + (j - 1));
                assert((e * inner + (j - 1) == c * inner + k) == (e == c && j - 1 == k))
                    by (nonlinear_arith)
                    requires
                        0 <= j - 1 < inner,
                        0 <= k < inner,
                ;
            } else {
                assert(to(q) == -1);
                assert(e != c);
            }
        }
        if j - 1 == k {
            assert(column(gs, inner, k, index.len())[p] == gs[q]);
            assert(names(index, c)(p) == (e == c));
        }
    } else if p > 0 {
        lemma_named_rows(r, gs, index, v, inner, i, p - 1, inner);
        assert((p - 1) * inner + inner == p * inner) by (nonlinear_arith);
    } else {
        assert(0 * inner == 0);
    }
}

/// The gradient of an embedding: the pieces of the table, each times the change of its entry, add
/// up to the cotangents times the changes of the rows that were looked up.
pub proof fn law_embedding_gradient<S: Scalars>(
    r: Ring<S::F>,
    d: Change<S::F>,
    before: Seq<Node<S>>,
    after: Seq<Node<S>>,
    table: Model<S>,
    idx: Model<S>,
    y: Model<S>,
    gy: Model<S>,
    parts: Seq<Model<S>>,
)
    requires
        r.computes::<S>(),
        d.adds(r),
        d.multiplies(r),
        table.in_graph,
        table.shape.len() == 2,
        table.shape[0] <= i64::MAX,
        table.shape[1] > 0,
        gy.shape == y.shape,
        embedding_fused_tracked::<S>(before, after, table, idx, Ok(y)),
        after.len() > 0,
        after.last().vjp(gy, Ok(parts)),
    ensures
        after.len() == before.len() + 1,
        after.last().sources() == seq![table],
        parts.len() == 1,
        parts[0].shape == table.shape,
        r.total(
            products(r, parts[0].f32s(), changes(d, table.f32s())),
            every(),
            volume(table.shape) as int,
        ) == r.total(
            products(r, gy.f32s(), changes(d, y.f32s())),
            every(),
            volume(y.shape) as int,
        ),
{
    let res: Outcome<S> = Ok(y);
    let rp: Result<Seq<Model<S>>, Error> = Ok(parts);
    let w = choose|w: Outcome<S>| #[trigger]
        embedding_out::<S>(table, idx, w) && tracked_out::<S>(
            before,
            after,
            table.in_graph,
            w,
            seq![table],
            RuleModel::Embedding { table: table.detached(), idx: idx.detached() },
            res,
        );
    let t = w->Ok_0;
    assert(alike::<S>(y, t));
    assert(t.elems() == t.data);
    reveal(embedding_parts);
    let (dt, di) = (table.detached(), idx.detached());
    assert(di.i64s() == idx.i64s() && dt.f32s() == table.f32s());
    let o = choose|o: Outcome<S>| #[trigger]
        lookup_back_out::<S>("embedding_fused"@, dt, di, gy, o) && passes(
            o,
            rp,
            embedding_shaped::<S>(dt, o->Ok_0, rp),
        );
    let g = o->Ok_0;
    assert(g.elems() == g.data);
    let u = choose|u: Outcome<S>| #[trigger]
        unbroadcast_out::<S>(g, dt.shape, u) && passes(u, rp, gives(rp, seq![u->Ok_0]));
    assert(parts == seq![g]);
    let (v, inner) = (table.shape[0], table.shape[1] as int);
    let index = idx.i64s();
    let (xs, ys, gs, ps) = (table.f32s(), y.f32s(), gy.f32s(), g.f32s());
    assert(table.shape =~= seq![v, table.shape[1]]);
    lemma_table(v, table.shape[1]);
    let to = looked_from(index, v, inner);
    let n = ys.len() as int;
    let z = choose|z: S::F| #[trigger]
        is_zero::<S::F, S>(z) && ys.len() == index.len() * inner
            && rows_looked_up(xs, v, inner, z, index, ys);
    assert forall|q: int| 0 <= q < n implies -1 <= #[trigger] to(q) < xs.len() && ys[q] == if to(q)
        >= 0 {
        xs[to(q)]
    } else {
        r.zero
    } by {
        let (p, k) = (q / inner, q % inner);
        assert(0 <= p < index.len() && 0 <= k < inner && q == p * inner + k && p * inner + inner
            <= n) by (nonlinear_arith)
            requires
                0 <= q < n,
                n == index.len() * inner,
                inner > 0,
                p == q / inner,
                k == q % inner,
        ;
        let line = row(ys, inner, p);
        assert(looked_up(xs, v, inner, z, index[p], line));
        assert(line[k] == ys[q]);
        let c = index[p];
        if class_ok(c, v) {
            assert(0 <= c * inner && c * inner + inner <= v * inner) by (nonlinear_arith)
                requires
                    0 <= c < v,
                    inner > 0,
            ;
            assert(row(xs, inner, c as int)[k] == xs[c * inner + k]);
        }
    }
    let z2 = choose|z2: S::F| #[trigger]
        is_zero::<S::F, S>(z2) && all_summed::<S::F, S>(gs, inner, index, z2, ps);
    assert forall|i: int| 0 <= i < xs.len() implies #[trigger] ps[i] == r.total(
        gs,
        grouped(to, i),
        n,
    ) by {
        let m = index.len() as int;
        lemma_folds_total::<S::F, S>(
            r,
            column(gs, inner, i % inner, index.len()),
            names(index, i / inner),
            m,
            ps[i],
        );
        lemma_named_rows(r, gs, index, v, inner, i, m, 0);
        assert(i % inner >= 0);
        assert(m * inner + 0 == n);
    }
    lemma_routed_balance(r, d, to, xs, ys, gs, ps);
}

/// What is added into zeros.
proof fn lemma_added_f32<S: Scalars>(
    r: Ring<S::F>,
    op: Seq<char>,
    shape: Seq<usize>,
    z: Model<S>,
    axis: int,
    index: Model<S>,
    gy: Model<S>,
    t: Model<S>,
    to: spec_fn(int) -> int,
)
    requires
        r.computes::<S>(),
        gy.data is F32,
        gy.shape.len() == shape.len(),
        zeros_out::<S>(shape, gy.dtype(), Ok(z)),
        scatter_out::<S>(op, z, axis, index, gy, Ok(t)),
        forall|o: int|
            0 <= o < volume(gy.shape) ==> #[trigger] to(o) == scatter_target(
                shape,
                axis_at(axis, shape.len() as int),
                gy.shape,
                index.i64s(),
                o,
            ) && pick_ok(index.i64s()[o], shape[axis_at(axis, shape.len() as int)]),
    ensures
        t.shape == shape,
        t.data is F32,
        t.f32s().len() == volume(shape),
        forall|i: int|
            0 <= i < volume(shape) ==> #[trigger] t.f32s()[i] == r.total(
                gy.f32s(),
                grouped(to, i),
                volume(gy.shape) as int,
            ),
{
    let ax = axis_at(axis, shape.len() as int);
    assert(z.elems() == z.data && t.elems() == t.data);
    let gs = gy.f32s();
    let n = volume(gy.shape) as int;
    assert forall|i: int| 0 <= i < volume(shape) implies #[trigger] t.f32s()[i] == r.total(
        gs,
        grouped(to, i),
        n,
    ) by {
        let hits = scatter_hits(shape, ax, gy.shape, index.i64s(), i);
        lemma_folds_total::<S::F, S>(r, gs, hits, n, t.f32s()[i]);
        let pick = grouped(to, i);
        assert forall|o: int| 0 <= o < n implies #[trigger] hits(o) == pick(o) by {
            assert(to(o) == scatter_target(shape, ax, gy.shape, index.i64s(), o));
        }
        lemma_total_agree(r, gs, gs, hits, pick, n);
    }
}

/// The gradient of a gather: the pieces, each times the change of its element, add up to the
/// cotangents times the changes of what was gathered. On 32-bit floats.
pub proof fn law_gather_gradient_f32<S: Scalars>(
    r: Ring<S::F>,
    d: Change<S::F>,
    before: Seq<Node<S>>,
    after: Seq<Node<S>>,
    x: Model<S>,
    axis: isize,
    index: Model<S>,
    y: Model<S>,
    gy: Model<S>,
    parts: Seq<Model<S>>,
)
    requires
        r.computes::<S>(),
        d.adds(r),
        d.multiplies(r),
        x.data is F32,
        x.in_graph,
        gy.data is F32,
        gy.shape == y.shape,
        index.shape.len() == x.shape.len(),
        forall|k: int|
            0 <= k < x.shape.len() && k != axis_at(axis as int, x.shape.len() as int)
                ==> #[trigger] index.shape[k] <= x.shape[k],
        forall|k: int| 0 <= k < x.shape.len() ==> #[trigger] x.shape[k] <= i64::MAX,
        gather_tracked::<S>(before, after, x, axis, index, Ok(y)),
        after.len() > 0,
        after.last().vjp(gy, Ok(parts)),
    ensures
        after.len() == before.len() + 1,
        after.last().sources() == seq![x],
        parts.len() == 1,
        parts[0].shape == x.shape,
        r.total(
            products(r, parts[0].f32s(), changes(d, x.f32s())),
            every(),
            volume(x.shape) as int,
        ) == r.total(
            products(r, gy.f32s(), changes(d, y.f32s())),
            every(),
            volume(y.shape) as int,
        ),
{
    let res: Outcome<S> = Ok(y);
    let rp: Result<Seq<Model<S>>, Error> = Ok(parts);
    let shape = x.shape;
    let ax = axis_at(axis as int, shape.len() as int);
    let v = choose|v: Outcome<S>| #[trigger]
        gather_out::<S>(x, axis as int, index, v) && tracked_out::<S>(
            before,
            after,
            x.in_graph,
            v,
            seq![x],
            RuleModel::Gather { at: axis, index: index.detached(), shape },
            res,
        );
    let t = v->Ok_0;
    assert(alike::<S>(y, t));
    assert(t.elems() == t.data);
    let di = index.detached();
    assert(di.i64s() == index.i64s());
    reveal(gather_parts);
    let z = choose|o: Outcome<S>| #[trigger]
        zeros_out::<S>(shape, gy.dtype(), o) && passes(
            o,
            rp,
            gather_added::<S>(axis, di, gy, o->Ok_0, rp),
        );
    let p = choose|o: Outcome<S>| #[trigger]
        scatter_out::<S>("gather"@, z->Ok_0, axis as int, di, gy, o) && passes(
            o,
            rp,
            gives(rp, seq![o->Ok_0]),
        );
    assert(parts == seq![p->Ok_0]);
    let to = gathered_from(shape, ax, index.shape, index.i64s());
    let n = volume(index.shape) as int;
    assert forall|o: int| 0 <= o < n implies 0 <= #[trigger] to(o) < volume(shape) && y.f32s()[o]
        == x.f32s()[to(o)] by {
        assert(pick_ok(index.i64s()[o], shape[ax]));
        assert(shape[ax] <= i64::MAX);
        lemma_gather_target(shape, ax, index.shape, index.i64s(), o);
    }
    lemma_added_f32::<S>(r, "gather"@, shape, z->Ok_0, axis as int, di, gy, p->Ok_0, to);
    lemma_routed_balance(r, d, to, x.f32s(), y.f32s(), gy.f32s(), parts[0].f32s());
}

/// The gradient of taking one element of each row: the pieces, each times the change of its
/// element, add up to the cotangents times the changes of what was taken. On 32-bit floats.
pub proof fn law_take_gradient_f32<S: Scalars>(
    r: Ring<S::F>,
    d: Change<S::F>,
    before: Seq<Node<S>>,
    after: Seq<Node<S>>,
    x: Model<S>,
    axis: isize,
    index: Model<S>,
    y: Model<S>,
    gy: Model<S>,
    parts: Seq<Model<S>>,
)
    requires
        r.computes::<S>(),
        d.adds(r),
        d.multiplies(r),
        x.data is F32,
        x.in_graph,
        gy.data is F32,
        gy.valid(),
        index.valid(),
        gy.shape == y.shape,
        forall|k: int| 0 <= k < x.shape.len() ==> #[trigger] x.shape[k] <= i64::MAX,
        take_tracked::<S>(before, after, x, axis, index, Ok(y)),
        after.len() > 0,
        after.last().vjp(gy, Ok(parts)),
    ensures
        after.len() == before.len() + 1,
        after.last().sources() == seq![x],
        parts.len() == 1,
        parts[0].shape == x.shape,
        r.total(
            products(r, parts[0].f32s(), changes(d, x.f32s())),
            every(),
            volume(x.shape) as int,
        ) == r.total(
            products(r, gy.f32s(), changes(d, y.f32s())),
            every(),
            volume(y.shape) as int,
        ),
{
    let res: Outcome<S> = Ok(y);
    let rp: Result<Seq<Model<S>>, Error> = Ok(parts);
    let shape = x.shape;
    let v = choose|v: Outcome<S>| #[trigger]
        take_out::<S>(x, axis as int, index, v) && tracked_out::<S>(
            before,
            after,
            x.in_graph,
            v,
            seq![x],
            RuleModel::Take { index: index.detached(), shape },
            res,
        );
    let t = v->Ok_0;
    assert(alike::<S>(y, t));
    assert(t.elems() == t.data);
    let di = index.detached();
    assert(di.i64s() == index.i64s());
    reveal(take_parts);
    let z = choose|o: Outcome<S>| #[trigger]
        zeros_out::<S>(shape, gy.dtype(), o) && passes(
            o,
            rp,
            take_column::<S>(di, gy, o->Ok_0, rp),
        );
    let gc = choose|o: Outcome<S>| #[trigger]
        unsqueeze_out::<S>(gy, 1, o) && passes(
            o,
            rp,
            take_index::<S>(di, z->Ok_0, o->Ok_0, rp),
        );
    let ic = choose|o: Outcome<S>| #[trigger]
        unsqueeze_out::<S>(di, 1, o) && passes(
            o,
            rp,
            take_added::<S>(z->Ok_0, gc->Ok_0, o->Ok_0, rp),
        );
    let p = choose|o: Outcome<S>| #[trigger]
        scatter_out::<S>("take"@, z->Ok_0, 1, ic->Ok_0, gc->Ok_0, o) && passes(
            o,
            rp,
            gives(rp, seq![o->Ok_0]),
        );
    assert(parts == seq![p->Ok_0]);
    let (rows, cols) = (shape[0], shape[1]);
    assert(shape =~= seq![rows, cols]);
    assert(gy.shape == seq![rows]);
    assert(gc->Ok_0 == unsqueezed(gy, 1));
    assert(ic->Ok_0 == unsqueezed(di, 1));
    let wide = seq![rows, 1usize];
    assert(gy.shape.insert(1, 1) =~= wide);
    lemma_unsqueezed_elems(gy, 1, gy.data->F32_0);
    lemma_unsqueezed_elems(di, 1, di.data->I64_0);
    assert(gc->Ok_0.f32s() == gy.f32s());
    assert(ic->Ok_0.i64s() == index.i64s());
    lemma_table(rows, 1);
    lemma_table(rows, cols);
    let index1 = index.i64s();
    let to = gathered_from(shape, 1, wide, index1);
    let n = rows as int;
    reveal_with_fuel(volume, 2);
    assert(seq![rows].drop_last() =~= Seq::<usize>::empty());
    assert(volume(seq![rows]) == rows);
    assert forall|o: int| 0 <= o < n implies 0 <= #[trigger] to(o) < volume(shape) && y.f32s()[o]
        == x.f32s()[to(o)] by {
        assert(pick_ok(index1[o], cols));
        assert(shape[1] <= i64::MAX);
        lemma_table_at(rows, 1, o, 0);
        let g = picked(index1[o], cols);
        let idx = seq![o, 0int].update(1, g);
        assert(unravel(wide, o * 1 + 0) == seq![o, 0int]);
        assert(idx.take(2) =~= seq![o, g]);
        lemma_table_at(rows, cols, o, g);
        assert(in_bounds(shape, seq![o, g]));
        lemma_ravel(shape, seq![o, g]);
        assert(0 <= o * cols + g < rows * cols) by (nonlinear_arith)
            requires
                0 <= o < rows,
                0 <= g < cols,
        ;
        lemma_unravel(shape, o * cols + g);
        assert(to(o) == o * cols + g);
    }
    lemma_added_f32::<S>(r, "take"@, shape, z->Ok_0, 1, ic->Ok_0, gc->Ok_0, p->Ok_0, to);
    lemma_routed_balance(r, d, to, x.f32s(), y.f32s(), gy.f32s(), parts[0].f32s());
}

/// What is added into zeros.
proof fn lemma_added_f64<S: Scalars>(
    r: Ring<S::D>,
    op: Seq<char>,
    shape: Seq<usize>,
    z: Model<S>,
    axis: int,
    index: Model<S>,
    gy: Model<S>,
    t: Model<S>,
    to: spec_fn(int) -> int,
)
    requires
        r.computes::<S>(),
        gy.data is F64,
        gy.shape.len() == shape.len(),
        zeros_out::<S>(shape, gy.dtype(), Ok(z)),
        scatter_out::<S>(op, z, axis, index, gy, Ok(t)),
        forall|o: int|
            0 <= o < volume(gy.shape) ==> #[trigger] to(o) == scatter_target(
                shape,
                axis_at(axis, shape.len() as int),
                gy.shape,
                index.i64s(),
                o,
            ) && pick_ok(index.i64s()[o], shape[axis_at(axis, shape.len() as int)]),
    ensures
        t.shape == shape,
        t.data is F64,
        t.f64s().len() == volume(shape),
        forall|i: int|
            0 <= i < volume(shape) ==> #[trigger] t.f64s()[i] == r.total(
                gy.f64s(),
                grouped(to, i),
                volume(gy.shape) as int,
            ),
{
    let ax = axis_at(axis, shape.len() as int);
    assert(z.elems() == z.data && t.elems() == t.data);
    let gs = gy.f64s();
    let n = volume(gy.shape) as int;
    assert forall|i: int| 0 <= i < volume(shape) implies #[trigger] t.f64s()[i] == r.total(
        gs,
        grouped(to, i),
        n,
    ) by {
        let hits = scatter_hits(shape, ax, gy.shape, index.i64s(), i);
        lemma_folds_total::<S::D, S>(r, gs, hits, n, t.f64s()[i]);
        let pick = grouped(to, i);
        assert forall|o: int| 0 <= o < n implies #[trigger] hits(o) == pick(o) by {
            assert(to(o) == scatter_target(shape, ax, gy.shape, index.i64s(), o));
        }
        lemma_total_agree(r, gs, gs, hits, pick, n);
    }
}

/// The gradient of a gather: the pieces, each times the change of its element, add up to the
/// cotangents times the changes of what was gathered. On 64-bit floats.
pub proof fn law_gather_gradient_f64<S: Scalars>(
    r: Ring<S::D>,
    d: Change<S::D>,
    before: Seq<Node<S>>,
    after: Seq<Node<S>>,
    x: Model<S>,
    axis: isize,
    index: Model<S>,
    y: Model<S>,
    gy: Model<S>,
    parts: Seq<Model<S>>,
)
    requires
        r.computes::<S>(),
        d.adds(r),
        d.multiplies(r),
        x.data is F64,
        x.in_graph,
        gy.data is F64,
        gy.shape == y.shape,
        index.shape.len() == x.shape.len(),
        forall|k: int|
            0 <= k < x.shape.len() && k != axis_at(axis as int, x.shape.len() as int)
                ==> #[trigger] index.shape[k] <= x.shape[k],
        forall|k: int| 0 <= k < x.shape.len() ==> #[trigger] x.shape[k] <= i64::MAX,
        gather_tracked::<S>(before, after, x, axis, index, Ok(y)),
        after.len() > 0,
        after.last().vjp(gy, Ok(parts)),
    ensures
        after.len() == before.len() + 1,
        after.last().sources() == seq![x],
        parts.len() == 1,
        parts[0].shape == x.shape,
        r.total(
            products(r, parts[0].f64s(), changes(d, x.f64s())),
            every(),
            volume(x.shape) as int,
        ) == r.total(
            products(r, gy.f64s(), changes(d, y.f64s())),
            every(),
            volume(y.shape) as int,
        ),
{
    let res: Outcome<S> = Ok(y);
    let rp: Result<Seq<Model<S>>, Error> = Ok(parts);
    let shape = x.shape;
    let ax = axis_at(axis as int, shape.len() as int);
    let v = choose|v: Outcome<S>| #[trigger]
        gather_out::<S>(x, axis as int, index, v) && tracked_out::<S>(
            before,
            after,
            x.in_graph,
            v,
            seq![x],
            RuleModel::Gather { at: axis, index: index.detached(), shape },
            res,
        );
    let t = v->Ok_0;
    assert(alike::<S>(y, t));
    assert(t.elems() == t.data);
    let di = index.detached();
    assert(di.i64s() == index.i64s());
    reveal(gather_parts);
    let z = choose|o: Outcome<S>| #[trigger]
        zeros_out::<S>(shape, gy.dtype(), o) && passes(
            o,
            rp,
            gather_added::<S>(axis, di, gy, o->Ok_0, rp),
        );
    let p = choose|o: Outcome<S>| #[trigger]
        scatter_out::<S>("gather"@, z->Ok_0, axis as int, di, gy, o) && passes(
            o,
            rp,
            gives(rp, seq![o->Ok_0]),
        );
    assert(parts == seq![p->Ok_0]);
    let to = gathered_from(shape, ax, index.shape, index.i64s());
    let n = volume(index.shape) as int;
    assert forall|o: int| 0 <= o < n implies 0 <= #[trigger] to(o) < volume(shape) && y.f64s()[o]
        == x.f64s()[to(o)] by {
        assert(pick_ok(index.i64s()[o], shape[ax]));
        assert(shape[ax] <= i64::MAX);
        lemma_gather_target(shape, ax, index.shape, index.i64s(), o);
    }
    lemma_added_f64::<S>(r, "gather"@, shape, z->Ok_0, axis as int, di, gy, p->Ok_0, to);
    lemma_routed_balance(r, d, to, x.f64s(), y.f64s(), gy.f64s(), parts[0].f64s());
}

/// The gradient of taking one element of each row: the pieces, each times the change of its
/// element, add up to the cotangents times the changes of what was taken. On 64-bit floats.
pub proof fn law_take_gradient_f64<S: Scalars>(
    r: Ring<S::D>,
    d: Change<S::D>,
    before: Seq<Node<S>>,
    after: Seq<Node<S>>,
    x: Model<S>,
    axis: isize,
    index: Model<S>,
    y: Model<S>,
    gy: Model<S>,
    parts: Seq<Model<S>>,
)
    requires
        r.computes::<S>(),
        d.adds(r),
        d.multiplies(r),
        x.data is F64,
        x.in_graph,
        gy.data is F64,
        gy.valid(),
        index.valid(),
        gy.shape == y.shape,
        forall|k: int| 0 <= k < x.shape.len() ==> #[trigger] x.shape[k] <= i64::MAX,
        take_tracked::<S>(before, after, x, axis, index, Ok(y)),
        after.len() > 0,
        after.last().vjp(gy, Ok(parts)),
    ensures
        after.len() == before.len() + 1,
        after.last().sources() == seq![x],
        parts.len() == 1,
        parts[0].shape == x.shape,
        r.total(
            products(r, parts[0].f64s(), changes(d, x.f64s())),
            every(),
            volume(x.shape) as int,
        ) == r.total(
            products(r, gy.f64s(), changes(d, y.f64s())),
            every(),
            volume(y.shape) as int,
        ),
{
    let res: Outcome<S> = Ok(y);
    let rp: Result<Seq<Model<S>>, Error> = Ok(parts);
    let shape = x.shape;
    let v = choose|v: Outcome<S>| #[trigger]
        take_out::<S>(x, axis as int, index, v) && tracked_out::<S>(
            before,
            after,
            x.in_graph,
            v,
            seq![x],
            RuleModel::Take { index: index.detached(), shape },
            res,
        );
    let t = v->Ok_0;
    assert(alike::<S>(y, t));
    assert(t.elems() == t.data);
    let di = index.detached();
    assert(di.i64s() == index.i64s());
    reveal(take_parts);
    let z = choose|o: Outcome<S>| #[trigger]
        zeros_out::<S>(shape, gy.dtype(), o) && passes(
            o,
            rp,
            take_column::<S>(di, gy, o->Ok_0, rp),
        );
    let gc = choose|o: Outcome<S>| #[trigger]
        unsqueeze_out::<S>(gy, 1, o) && passes(
            o,
            rp,
            take_index::<S>(di, z->Ok_0, o->Ok_0, rp),
        );
    let ic = choose|o: Outcome<S>| #[trigger]
        unsqueeze_out::<S>(di, 1, o) && passes(
            o,
            rp,
            take_added::<S>(z->Ok_0, gc->Ok_0, o->Ok_0, rp),
        );
    let p = choose|o: Outcome<S>| #[trigger]
        scatter_out::<S>("take"@, z->Ok_0, 1, ic->Ok_0, gc->Ok_0, o) && passes(
            o,
            rp,
            gives(rp, seq![o->Ok_0]),
        );
    assert(parts == seq![p->Ok_0]);
    let (rows, cols) = (shape[0], shape[1]);
    assert(shape =~= seq![rows, cols]);
    assert(gy.shape == seq![rows]);
    assert(gc->Ok_0 == unsqueezed(gy, 1));
    assert(ic->Ok_0 == unsqueezed(di, 1));
    let wide = seq![rows, 1usize];
    assert(gy.shape.insert(1, 1) =~= wide);
    lemma_unsqueezed_elems(gy, 1, gy.data->F64_0);
    lemma_unsqueezed_elems(di, 1, di.data->I64_0);
    assert(gc->Ok_0.f64s() == gy.f64s());
    assert(ic->Ok_0.i64s() == index.i64s());
    lemma_table(rows, 1);
    lemma_table(rows, cols);
    let index1 = index.i64s();
    let to = gathered_from(shape, 1, wide, index1);
    let n = rows as int;
    reveal_with_fuel(volume, 2);
    assert(seq![rows].drop_last() =~= Seq::<usize>::empty());
    assert(volume(seq![rows]) == rows);
    assert forall|o: int| 0 <= o < n implies 0 <= #[trigger] to(o) < volume(shape) && y.f64s()[o]
        == x.f64s()[to(o)] by {
        assert(pick_ok(index1[o], cols));
        assert(shape[1] <= i64::MAX);
        lemma_table_at(rows, 1, o, 0);
        let g = picked(index1[o], cols);
        let idx = seq![o, 0int].update(1, g);
        assert(unravel(wide, o * 1 + 0) == seq![o, 0int]);
        assert(idx.take(2) =~= seq![o, g]);
        lemma_table_at(rows, cols, o, g);
        assert(in_bounds(shape, seq![o, g]));
        lemma_ravel(shape, seq![o, g]);
        assert(0 <= o * cols + g < rows * cols) by (nonlinear_arith)
            requires
                0 <= o < rows,
                0 <= g < cols,
        ;
        lemma_unravel(shape, o * cols + g);
        assert(to(o) == o * cols + g);
    }
    lemma_added_f64::<S>(r, "take"@, shape, z->Ok_0, 1, ic->Ok_0, gc->Ok_0, p->Ok_0, to);
    lemma_routed_balance(r, d, to, x.f64s(), y.f64s(), gy.f64s(), parts[0].f64s());
}

} // verus!
