//! Matrix products of tensors and their gradients.
use vstd::prelude::*;
use vstd::arithmetic::div_mod::lemma_fundamental_div_mod_converse;
use crate::ad::matmul_tracked;
use crate::algebra::products;
use crate::calculus::Change;
use crate::elementwise::source_rank;
use crate::error::Error;
use crate::index::{dot, packed, unravel, volume};
use crate::matmul::{
    batch_axes, left_matrix, matmul_out, multiplies, multiply_add, product_shape, result_shape,
    right_matrix, stack_of, sums_products,
};
use crate::nodes::{tracked_out, Node, RuleModel};
use crate::norm_law::alike;
use crate::product_law::{is_matrix_product, law_product_gradient, over, terms, turned};
use crate::ring::Ring;
use crate::rms_law::changes;
use crate::rules::{
    matmul_first, matmul_left, matmul_parts, matmul_right, matmul_second, matmul_turned,
    unbroadcast_out,
};
use crate::scalar::{every, folds, is_product, is_sum, is_zero, runs, Arith, Scalars};
use crate::shape::joined;
use crate::tape::Backward;
use crate::tensor::{gives, passes, Model, Outcome};
use crate::views::transpose_out;

verus! {

/// The running values of a sum of products.
proof fn lemma_products_run<T, A: Arith<T>>(
    r: Ring<T>,
    pairs: Seq<(T, T)>,
    f: spec_fn(int) -> T,
    n: int,
    acc: Seq<T>,
    p: int,
)
    requires
        r.computes::<A>(),
        0 <= p <= n,
        runs(multiply_add::<T, A>(), pairs, every(), n, r.zero, acc),
        forall|q: int| 0 <= q < n ==> #[trigger] f(q) == r.times(pairs[q].0, pairs[q].1),
    ensures
        acc[p] == over(r, f, p),
    decreases p,
{
    if p > 0 {
        lemma_products_run::<T, A>(r, pairs, f, n, acc, p - 1);
        let step = multiply_add::<T, A>();
        assert(every()(p - 1));
        assert(step(acc[p - 1], pairs[p - 1], acc[p - 1 + 1]));
        let t = choose|t: T| #[trigger]
            is_product::<T, A>(pairs[p - 1].0, pairs[p - 1].1, t) && is_sum::<T, A>(
                acc[p - 1],
                t,
                acc[p],
            );
        assert(f(p - 1) == t);
    }
}

/// A sum of products.
proof fn lemma_products_over<T, A: Arith<T>>(
    r: Ring<T>,
    pairs: Seq<(T, T)>,
    f: spec_fn(int) -> T,
    v: T,
)
    requires
        r.computes::<A>(),
        sums_products::<T, A>(pairs, v),
        forall|q: int| 0 <= q < pairs.len() ==> #[trigger] f(q) == r.times(pairs[q].0, pairs[q].1),
    ensures
        v == over(r, f, pairs.len() as int),
{
    let n = pairs.len() as int;
    let step = multiply_add::<T, A>();
    let z = choose|z: T| #[trigger]
        is_zero::<T, A>(z) && folds(step, pairs, every(), n, z, v);
    let acc = choose|acc: Seq<T>| #[trigger] runs(step, pairs, every(), n, z, acc) && acc[n] == v;
    lemma_products_run::<T, A>(r, pairs, f, n, acc, n);
}

/// A table has as many entries as its sides say.
pub(crate) proof fn lemma_table(m: usize, n: usize)
    ensures
        volume(seq![m, n]) == m * n,
{
    let shape = seq![m, n];
    reveal_with_fuel(volume, 3);
    assert(shape.drop_last() =~= seq![m]);
    assert(seq![m].drop_last() =~= Seq::<usize>::empty());
    assert(volume(seq![m]) == 1 * (m as nat));
    assert(volume(shape) == volume(seq![m]) * (n as nat));
}

/// The entry `(i, j)` of a table is at `i n + j`.
pub(crate) proof fn lemma_table_at(m: usize, n: usize, i: int, j: int)
    requires
        0 <= i < m,
        0 <= j < n,
    ensures
        unravel(seq![m, n], i * n + j) == seq![i, j],
{
    let shape = seq![m, n];
    reveal_with_fuel(unravel, 3);
    assert(shape.drop_last() =~= seq![m]);
    assert(seq![m].drop_last() =~= Seq::<usize>::empty());
    lemma_fundamental_div_mod_converse(i * n + j, n as int, i, j);
    let front = unravel(seq![m], i);
    assert(i % (m as int) == i) by (nonlinear_arith)
        requires
            0 <= i < m,
    ;
    assert(front =~= seq![i]) by {
        assert(unravel(seq![m].drop_last(), i / (m as int)) =~= Seq::<int>::empty());
    }
    assert(unravel(shape, i * n + j) =~= seq![i, j]);
}

/// The entry `(i, j)` of a view of two axes.
proof fn lemma_entry_slot<T>(
    data: Seq<T>,
    offset: int,
    m: usize,
    n: usize,
    s: isize,
    t: isize,
    i: int,
    j: int,
)
    requires
        0 <= i < m,
        0 <= j < n,
    ensures
        packed(data, offset, seq![m, n], seq![s, t])[i * n + j] == data[offset + i * s + j * t],
{
    lemma_table(m, n);
    lemma_table_at(m, n, i, j);
    assert(0 <= i * n + j < m * n) by (nonlinear_arith)
        requires
            0 <= i < m,
            0 <= j < n,
    ;
    let idx = seq![i, j];
    let st = seq![s, t];
    reveal_with_fuel(dot, 3);
    assert(idx.drop_last() =~= seq![i]);
    assert(st.drop_last() =~= seq![s]);
    assert(seq![i].drop_last() =~= Seq::<int>::empty());
    assert(unravel(seq![m, n], i * n + j) == idx);
    assert(dot(seq![i], seq![s]) == i * s) by {
        assert(dot(seq![i].drop_last(), seq![s].drop_last()) == 0);
    }
    assert(dot(idx, st) == i * s + j * t);
}

/// A transposed matrix is turned.
proof fn lemma_transposed<S: Scalars>(a: Model<S>, t: Model<S>, m: usize, n: usize)
    requires
        a.valid(),
        a.shape == seq![m, n],
        transpose_out::<S>(a, Ok(t)),
    ensures
        t.valid(),
        t.shape == seq![n, m],
        t.data == a.data,
        t.device == a.device,
        turned(a.f32s(), m as int, n as int, t.f32s()),
        turned(a.f64s(), m as int, n as int, t.f64s()),
{
    let st = a.strides;
    assert(st =~= seq![st[0], st[1]]);
    assert(t.shape =~= seq![n, m]);
    assert(t.strides =~= seq![st[1], st[0]]);
    assert forall|i: int, j: int| 0 <= i < m && 0 <= j < n implies #[trigger] t.f32s()[j * m + i]
        == a.f32s()[i * n + j] by {
        lemma_entry_slot(a.data->F32_0, a.offset, m, n, st[0], st[1], i, j);
        lemma_entry_slot(a.data->F32_0, a.offset, n, m, st[1], st[0], j, i);
    }
    assert forall|i: int, j: int| 0 <= i < m && 0 <= j < n implies #[trigger] t.f64s()[j * m + i]
        == a.f64s()[i * n + j] by {
        lemma_entry_slot(a.data->F64_0, a.offset, m, n, st[0], st[1], i, j);
        lemma_entry_slot(a.data->F64_0, a.offset, n, m, st[1], st[0], j, i);
    }
}

/// A product of two matrices is their matrix product: entry `(i, j)` is the sum of the products of
/// row `i` and column `j`. On 32-bit floats.
pub proof fn law_matmul_f32<S: Scalars>(
    r: Ring<S::F>,
    a: Model<S>,
    b: Model<S>,
    t: Model<S>,
    m: usize,
    k: usize,
    n: usize,
)
    requires
        r.computes::<S>(),
        a.data is F32,
        a.shape == seq![m, k],
        b.shape == seq![k, n],
        matmul_out::<S>(a, b, Ok(t)),
    ensures
        t.shape == seq![m, n],
        t.data is F32,
        t.f32s().len() == m * n,
        b.data is F32,
        a.f32s().len() == m * k,
        b.f32s().len() == k * n,
        is_matrix_product(
            r,
            m as int,
            k as int,
            n as int,
            a.f32s(),
            b.f32s(),
            t.f32s(),
        ),
{
    let s = stack_of(a.shape, b.shape);
    let none = Seq::<usize>::empty();
    assert(left_matrix(a.shape) == a.shape);
    assert(right_matrix(b.shape) == b.shape);
    assert(batch_axes(a.shape) =~= none);
    assert(batch_axes(b.shape) =~= none);
    assert(joined(none, none) =~= none);
    assert(result_shape(a.shape, b.shape) =~= seq![m, n]);
    assert(product_shape(a.shape, b.shape) =~= seq![m, n]);
    lemma_table(m, n);
    lemma_table(m, k);
    lemma_table(k, n);
    assert(t.elems() == t.data);
    let (xs, zs, ys) = (a.f32s(), b.f32s(), t.f32s());
    assert(ys == t.data->F32_0);
    assert(s.m == m && s.n == n && s.k == k && s.a_batch == none && s.b_batch == none);
    assert(multiplies::<S::F, S>(s, xs, zs, ys));
    assert forall|i: int, j: int| 0 <= i < m && 0 <= j < n implies #[trigger] ys[i * n + j] == over(
        r,
        terms(r, xs, zs, k as int, n as int, i, j),
        k as int,
    ) by {
        let q = i * n + j;
        assert(0 <= q < m * n) by (nonlinear_arith)
            requires
                0 <= i < m,
                0 <= j < n,
                q == i * n + j,
        ;
        assert(q / (m * n) == 0 && q % (m * n) == q) by (nonlinear_arith)
            requires
                0 <= q < m * n,
        ;
        lemma_fundamental_div_mod_converse(q, n as int, i, j);
        assert(source_rank(none, none, 0) == 0);
        let pairs = s.pairs(xs, zs, q);
        let f = terms(r, xs, zs, k as int, n as int, i, j);
        assert(sums_products::<S::F, S>(pairs, ys[q]));
        assert forall|p: int| 0 <= p < k implies #[trigger] f(p) == r.times(
            pairs[p].0,
            pairs[p].1,
        ) by {
            assert(0 * (s.m * s.k) + i * s.k == i * k);
            assert(0 * (s.k * s.n) + j == j);
            assert(pairs[p] == (xs[i * k + p], zs[j + p * n]));
        }
        lemma_products_over::<S::F, S>(r, pairs, f, ys[q]);
    }
}

/// The gradient of a product of two matrices: the pieces, each times the change of its entry, add
/// up to the cotangent times the change of the product. On 32-bit floats.
pub proof fn law_matmul_gradient_f32<S: Scalars>(
    r: Ring<S::F>,
    d: Change<S::F>,
    before: Seq<Node<S>>,
    after: Seq<Node<S>>,
    a: Model<S>,
    b: Model<S>,
    y: Model<S>,
    gy: Model<S>,
    parts: Seq<Model<S>>,
    m: usize,
    k: usize,
    n: usize,
)
    requires
        r.computes::<S>(),
        d.adds(r),
        d.multiplies(r),
        a.data is F32,
        a.valid(),
        b.valid(),
        a.in_graph || b.in_graph,
        a.shape == seq![m, k],
        b.shape == seq![k, n],
        gy.data is F32,
        gy.shape == y.shape,
        matmul_tracked::<S>(before, after, a, b, Ok(y)),
        after.len() > 0,
        after.last().vjp(gy, Ok(parts)),
    ensures
        after.len() == before.len() + 1,
        after.last().sources() == seq![a, b],
        parts.len() == 2,
        parts[0].shape == a.shape,
        parts[1].shape == b.shape,
        r.plus(
            r.total(products(r, parts[0].f32s(), changes(d, a.f32s())), every(), m * k),
            r.total(products(r, parts[1].f32s(), changes(d, b.f32s())), every(), k * n),
        ) == r.total(products(r, gy.f32s(), changes(d, y.f32s())), every(), m * n),
{
    let res: Outcome<S> = Ok(y);
    let rp: Result<Seq<Model<S>>, Error> = Ok(parts);
    let v = choose|v: Outcome<S>| #[trigger]
        matmul_out::<S>(a, b, v) && tracked_out::<S>(
            before,
            after,
            a.in_graph || b.in_graph,
            v,
            seq![a, b],
            RuleModel::Matmul { a: a.detached(), b: b.detached() },
            res,
        );
    assert(alike::<S>(y, v->Ok_0));
    law_matmul_f32::<S>(r, a, b, v->Ok_0, m, k, n);
    let (da, db) = (a.detached(), b.detached());
    assert(da.f32s() == a.f32s() && db.f32s() == b.f32s());
    reveal(matmul_parts);
    let bt = choose|o: Outcome<S>| #[trigger]
        transpose_out::<S>(db, o) && passes(o, rp, matmul_left::<S>(da, db, gy, o->Ok_0, rp));
    lemma_transposed::<S>(db, bt->Ok_0, k, n);
    let pa = choose|o: Outcome<S>| #[trigger]
        matmul_out::<S>(gy, bt->Ok_0, o) && passes(
            o,
            rp,
            matmul_turned::<S>(da, db, gy, o->Ok_0, rp),
        );
    law_matmul_f32::<S>(r, gy, bt->Ok_0, pa->Ok_0, m, n, k);
    let at = choose|o: Outcome<S>| #[trigger]
        transpose_out::<S>(da, o) && passes(
            o,
            rp,
            matmul_right::<S>(da, db, gy, pa->Ok_0, o->Ok_0, rp),
        );
    lemma_transposed::<S>(da, at->Ok_0, m, k);
    let pb = choose|o: Outcome<S>| #[trigger]
        matmul_out::<S>(at->Ok_0, gy, o) && passes(
            o,
            rp,
            matmul_first::<S>(da, db, pa->Ok_0, o->Ok_0, rp),
        );
    law_matmul_f32::<S>(r, at->Ok_0, gy, pb->Ok_0, k, m, n);
    let ga = choose|o: Outcome<S>| #[trigger]
        unbroadcast_out::<S>(pa->Ok_0, da.shape, o) && passes(
            o,
            rp,
            matmul_second::<S>(db, pb->Ok_0, o->Ok_0, rp),
        );
    let gb = choose|o: Outcome<S>| #[trigger]
        unbroadcast_out::<S>(pb->Ok_0, db.shape, o) && passes(
            o,
            rp,
            gives(rp, seq![ga->Ok_0, o->Ok_0]),
        );
    assert(parts == seq![pa->Ok_0, pb->Ok_0]);
    law_product_gradient(
        r,
        d,
        m as int,
        k as int,
        n as int,
        a.f32s(),
        b.f32s(),
        y.f32s(),
        gy.f32s(),
        at->Ok_0.f32s(),
        bt->Ok_0.f32s(),
        parts[0].f32s(),
        parts[1].f32s(),
    );
}

/// A product of two matrices is their matrix product: entry `(i, j)` is the sum of the products of
/// row `i` and column `j`. On 64-bit floats.
pub proof fn law_matmul_f64<S: Scalars>(
    r: Ring<S::D>,
    a: Model<S>,
    b: Model<S>,
    t: Model<S>,
    m: usize,
    k: usize,
    n: usize,
)
    requires
        r.computes::<S>(),
        a.data is F64,
        a.shape == seq![m, k],
        b.shape == seq![k, n],
        matmul_out::<S>(a, b, Ok(t)),
    ensures
        t.shape == seq![m, n],
        t.data is F64,
        t.f64s().len() == m * n,
        b.data is F64,
        a.f64s().len() == m * k,
        b.f64s().len() == k * n,
        is_matrix_product(
            r,
            m as int,
            k as int,
            n as int,
            a.f64s(),
            b.f64s(),
            t.f64s(),
        ),
{
    let s = stack_of(a.shape, b.shape);
    let none = Seq::<usize>::empty();
    assert(left_matrix(a.shape) == a.shape);
    assert(right_matrix(b.shape) == b.shape);
    assert(batch_axes(a.shape) =~= none);
    assert(batch_axes(b.shape) =~= none);
    assert(joined(none, none) =~= none);
    assert(result_shape(a.shape, b.shape) =~= seq![m, n]);
    assert(product_shape(a.shape, b.shape) =~= seq![m, n]);
    lemma_table(m, n);
    lemma_table(m, k);
    lemma_table(k, n);
    assert(t.elems() == t.data);
    let (xs, zs, ys) = (a.f64s(), b.f64s(), t.f64s());
    assert(ys == t.data->F64_0);
    assert(s.m == m && s.n == n && s.k == k && s.a_batch == none && s.b_batch == none);
    assert(multiplies::<S::D, S>(s, xs, zs, ys));
    assert forall|i: int, j: int| 0 <= i < m && 0 <= j < n implies #[trigger] ys[i * n + j] == over(
        r,
        terms(r, xs, zs, k as int, n as int, i, j),
        k as int,
    ) by {
        let q = i * n + j;
        assert(0 <= q < m * n) by (nonlinear_arith)
            requires
                0 <= i < m,
                0 <= j < n,
                q == i * n + j,
        ;
        assert(q / (m * n) == 0 && q % (m * n) == q) by (nonlinear_arith)
            requires
                0 <= q < m * n,
        ;
        lemma_fundamental_div_mod_converse(q, n as int, i, j);
        assert(source_rank(none, none, 0) == 0);
        let pairs = s.pairs(xs, zs, q);
        let f = terms(r, xs, zs, k as int, n as int, i, j);
        assert(sums_products::<S::D, S>(pairs, ys[q]));
        assert forall|p: int| 0 <= p < k implies #[trigger] f(p) == r.times(
            pairs[p].0,
            pairs[p].1,
        ) by {
            assert(0 * (s.m * s.k) + i * s.k == i * k);
            assert(0 * (s.k * s.n) + j == j);
            assert(pairs[p] == (xs[i * k + p], zs[j + p * n]));
        }
        lemma_products_over::<S::D, S>(r, pairs, f, ys[q]);
    }
}

/// The gradient of a product of two matrices: the pieces, each times the change of its entry, add
/// up to the cotangent times the change of the product. On 64-bit floats.
pub proof fn law_matmul_gradient_f64<S: Scalars>(
    r: Ring<S::D>,
    d: Change<S::D>,
    before: Seq<Node<S>>,
    after: Seq<Node<S>>,
    a: Model<S>,
    b: Model<S>,
    y: Model<S>,
    gy: Model<S>,
    parts: Seq<Model<S>>,
    m: usize,
    k: usize,
    n: usize,
)
    requires
        r.computes::<S>(),
        d.adds(r),
        d.multiplies(r),
        a.data is F64,
        a.valid(),
        b.valid(),
        a.in_graph || b.in_graph,
        a.shape == seq![m, k],
        b.shape == seq![k, n],
        gy.data is F64,
        gy.shape == y.shape,
        matmul_tracked::<S>(before, after, a, b, Ok(y)),
        after.len() > 0,
        after.last().vjp(gy, Ok(parts)),
    ensures
        after.len() == before.len() + 1,
        after.last().sources() == seq![a, b],
        parts.len() == 2,
        parts[0].shape == a.shape,
        parts[1].shape == b.shape,
        r.plus(
            r.total(products(r, parts[0].f64s(), changes(d, a.f64s())), every(), m * k),
            r.total(products(r, parts[1].f64s(), changes(d, b.f64s())), every(), k * n),
        ) == r.total(products(r, gy.f64s(), changes(d, y.f64s())), every(), m * n),
{
    let res: Outcome<S> = Ok(y);
    let rp: Result<Seq<Model<S>>, Error> = Ok(parts);
    let v = choose|v: Outcome<S>| #[trigger]
        matmul_out::<S>(a, b, v) && tracked_out::<S>(
            before,
            after,
            a.in_graph || b.in_graph,
            v,
            seq![a, b],
            RuleModel::Matmul { a: a.detached(), b: b.detached() },
            res,
        );
    assert(alike::<S>(y, v->Ok_0));
    law_matmul_f64::<S>(r, a, b, v->Ok_0, m, k, n);
    let (da, db) = (a.detached(), b.detached());
    assert(da.f64s() == a.f64s() && db.f64s() == b.f64s());
    reveal(matmul_parts);
    let bt = choose|o: Outcome<S>| #[trigger]
        transpose_out::<S>(db, o) && passes(o, rp, matmul_left::<S>(da, db, gy, o->Ok_0, rp));
    lemma_transposed::<S>(db, bt->Ok_0, k, n);
    let pa = choose|o: Outcome<S>| #[trigger]
        matmul_out::<S>(gy, bt->Ok_0, o) && passes(
            o,
            rp,
            matmul_turned::<S>(da, db, gy, o->Ok_0, rp),
        );
    law_matmul_f64::<S>(r, gy, bt->Ok_0, pa->Ok_0, m, n, k);
    let at = choose|o: Outcome<S>| #[trigger]
        transpose_out::<S>(da, o) && passes(
            o,
            rp,
            matmul_right::<S>(da, db, gy, pa->Ok_0, o->Ok_0, rp),
        );
    lemma_transposed::<S>(da, at->Ok_0, m, k);
    let pb = choose|o: Outcome<S>| #[trigger]
        matmul_out::<S>(at->Ok_0, gy, o) && passes(
            o,
            rp,
            matmul_first::<S>(da, db, pa->Ok_0, o->Ok_0, rp),
        );
    law_matmul_f64::<S>(r, at->Ok_0, gy, pb->Ok_0, k, m, n);
    let ga = choose|o: Outcome<S>| #[trigger]
        unbroadcast_out::<S>(pa->Ok_0, da.shape, o) && passes(
            o,
            rp,
            matmul_second::<S>(db, pb->Ok_0, o->Ok_0, rp),
        );
    let gb = choose|o: Outcome<S>| #[trigger]
        unbroadcast_out::<S>(pb->Ok_0, db.shape, o) && passes(
            o,
            rp,
            gives(rp, seq![ga->Ok_0, o->Ok_0]),
        );
    assert(parts == seq![pa->Ok_0, pb->Ok_0]);
    law_product_gradient(
        r,
        d,
        m as int,
        k as int,
        n as int,
        a.f64s(),
        b.f64s(),
        y.f64s(),
        gy.f64s(),
        at->Ok_0.f64s(),
        bt->Ok_0.f64s(),
        parts[0].f64s(),
        parts[1].f64s(),
    );
}

} // verus!
