//! What devices compute is what the CPU computes.
use vstd::prelude::*;
use crate::elementwise::{lemma_source, source_rank};
use crate::error::Error;
use crate::gpu::{
    batch_of, computed_on, dims_of, law_devices_compute_the_product, law_same_shape_as_cpu,
    lemma_batch_volume, lemma_final_volume, materialize_first, materialize_out, materialize_right,
    materialize_second, packed_out, promoted_out, spread_out, whole_stack, DimsModel, GpuWork, Job,
};
use crate::guarded::stretch_out;
use crate::index::{fits, lemma_unravel, lemma_unravel_concat, ravel, unravel, volume};
use crate::matmul::{
    batch_axes, columns_of, left_matrix, matmul_value, multiplies, product_shape, result_shape,
    right_matrix, rows_of, stack_of, sums_products,
};
use crate::scalar::Scalars;
use crate::shape::joined;
use crate::tensor::{gives, passes, Model, Outcome};
use crate::views::{law_unsqueeze_reads, narrowed, unsqueezed};

verus! {

/// A matrix of rank `e` holds its element at the same place in every box that it closes.
proof fn lemma_source_of_matrix(
    lead: Seq<usize>,
    batch: Seq<usize>,
    rows: usize,
    columns: usize,
    at: int,
    e: int,
)
    requires
        lead.len() <= batch.len(),
        0 <= at < volume(batch),
        0 <= e < rows * columns,
    ensures
        source_rank(
            batch_of(lead, rows, columns),
            batch_of(batch, rows, columns),
            at * (rows * columns) + e,
        ) == source_rank(lead, batch, at) * (rows * columns) + e,
        0 <= at * (rows * columns) + e < volume(batch) * (rows * columns),
{
    let m = seq![rows, columns];
    let size = rows * columns;
    assert(m.drop_last() =~= seq![rows]);
    assert(m.drop_last().drop_last() =~= Seq::<usize>::empty());
    reveal_with_fuel(volume, 3);
    assert(volume(m) == size) by (nonlinear_arith)
        requires
            volume(m) == (1 * (rows as nat)) * (columns as nat),
            size == rows * columns,
    ;
    let q = at * size + e;
    assert(0 <= q < volume(batch) * size && q / size == at && q % size == e) by (nonlinear_arith)
        requires
            q == at * size + e,
            0 <= at < volume(batch),
            0 <= e < size,
    ;
    let shape = batch_of(batch, rows, columns);
    let src = batch_of(lead, rows, columns);
    assert(shape =~= batch + m);
    lemma_unravel_concat(batch, m, q);
    let u = unravel(batch, at);
    let v = unravel(m, e);
    assert(unravel(shape, q) == u + v);
    lemma_unravel(batch, at);
    lemma_unravel(m, e);
    assert(v.len() == 2);
    let idx = narrowed(src, u + v);
    let x = narrowed(lead, u);
    assert(idx =~= x.push(v[0]).push(v[1])) by {
        assert(0 <= v[0] < m[0]);
        assert(0 <= v[1] < m[1]);
    }
    assert(src.drop_last() =~= lead.push(rows));
    assert(lead.push(rows).drop_last() =~= lead);
    assert(idx.drop_last() =~= x.push(v[0]));
    assert(x.push(v[0]).drop_last() =~= x);
    assert(ravel(src, idx) == ravel(lead.push(rows), x.push(v[0])) * columns + v[1]);
    assert(ravel(lead.push(rows), x.push(v[0])) == ravel(lead, x) * rows + v[0]);
    assert(v.drop_last() =~= seq![v[0]]);
    reveal_with_fuel(ravel, 3);
    assert(ravel(m, v) == v[0] * columns + v[1]);
    assert((ravel(lead, x) * rows + v[0]) * columns + v[1] == ravel(lead, x) * size + (v[0]
        * columns + v[1])) by (nonlinear_arith)
        requires
            size == rows * columns,
    ;
}

/// What is spread over a batch is, at each place, the element that the batch repeats there.
proof fn lemma_spread<S: Scalars>(
    m: Model<S>,
    lead: Seq<usize>,
    batch: Seq<usize>,
    rows: usize,
    columns: usize,
    list: Seq<S::F>,
    at: int,
    e: int,
)
    requires
        m.valid(),
        m.data is F32,
        m.shape == batch_of(lead, rows, columns),
        spread_out::<S>(m, batch_of(batch, rows, columns), Ok(list)),
        0 <= at < volume(batch),
        0 <= e < rows * columns,
    ensures
        list[at * (rows * columns) + e] == m.f32s()[source_rank(lead, batch, at) * (rows * columns)
            + e],
{
    let target = batch_of(batch, rows, columns);
    let r: Result<Seq<S::F>, Error> = Ok(list);
    let o = choose|o: Outcome<S>| #[trigger]
        stretch_out::<S>("gpu.matmul"@, m, target, o) && passes(
            o,
            r,
            packed_out::<S>(o->Ok_0, r),
        );
    assert(m.shape.len() <= target.len());
    lemma_source_of_matrix(lead, batch, rows, columns, at, e);
    let q = at * (rows * columns) + e;
    assert(target.drop_last() =~= batch.push(rows));
    assert(batch.push(rows).drop_last() =~= batch);
    assert(volume(batch.push(rows)) == volume(batch) * rows);
    assert(volume(target) == volume(batch.push(rows)) * columns);
    assert((volume(batch) * rows) * columns == volume(batch) * (rows * columns))
        by (nonlinear_arith);
    lemma_source(m, m.data->F32_0, target, q);
}

/// A vector as a matrix shows the same elements.
proof fn lemma_promoted_elements<S: Scalars>(m: Model<S>, at: isize, t: Model<S>)
    requires
        m.data is F32,
        m.shape.len() > 0,
        at == 0 || at == 1,
        m.valid(),
        promoted_out::<S>(m, at, Ok(t)),
    ensures
        t.data == m.data,
        m.shape.len() != 1 ==> t.shape == m.shape,
        m.shape.len() == 1 && at == 0 ==> t.shape == seq![1, m.shape[0]],
        m.shape.len() == 1 && at == 1 ==> t.shape == seq![m.shape[0], 1],
        t.f32s() == m.f32s(),
{
    if m.shape.len() == 1 {
        let n = m.shape[0];
        let shape = if at == 0 {
            seq![1, n]
        } else {
            seq![n, 1]
        };
        assert(t == unsqueezed(m, at as int));
        assert(t.shape =~= shape);
        assert(m.shape =~= seq![n]);
        reveal_with_fuel(volume, 3);
        assert(shape.drop_last() =~= seq![shape[0]]);
        assert(shape.drop_last().drop_last() =~= Seq::<usize>::empty());
        assert(m.shape.drop_last() =~= Seq::<usize>::empty());
        assert(volume(m.shape.drop_last()) == 1);
        assert(volume(m.shape) == volume(m.shape.drop_last()) * (m.shape.last() as nat));
        assert(volume(m.shape) == n);
        assert(volume(seq![shape[0]]) == shape[0]);
        assert(volume(shape) == volume(seq![shape[0]]) * (shape[1] as nat));
        assert(volume(shape) == n);
        assert forall|i: int| 0 <= i < volume(m.shape) implies t.f32s()[i] == m.f32s()[i] by {
            lemma_unravel(shape, i);
            let idx = unravel(shape, i);
            law_unsqueeze_reads(m, at as int, idx);
            reveal_with_fuel(unravel, 3);
            assert(i % (n as int) == i && i / (n as int) == 0) by (nonlinear_arith)
                requires
                    0 <= i < n,
            ;
            assert(unravel(m.shape, i) =~= seq![i]);
            assert(idx.remove(at as int) =~= unravel(m.shape, i));
        }
        assert(t.f32s() =~= m.f32s());
    }
}

/// The leading axes of a matrix close its shape again.
proof fn lemma_closed(shape: Seq<usize>)
    requires
        shape.len() >= 2,
    ensures
        batch_of(batch_axes(shape), rows_of(shape), columns_of(shape)) == shape,
{
    assert(batch_of(batch_axes(shape), rows_of(shape), columns_of(shape)) =~= shape);
}

/// The whole batch repeats itself.
proof fn lemma_same_place(count: usize, at: int)
    requires
        0 <= at < count,
    ensures
        source_rank(seq![count], joined(seq![count], seq![count]), at) == at,
{
    let s = seq![count];
    assert(joined(s, s) =~= s);
    reveal_with_fuel(unravel, 2);
    reveal_with_fuel(ravel, 2);
    assert(at % (count as int) == at) by (nonlinear_arith)
        requires
            0 <= at < count,
    ;
    assert(unravel(s, at) =~= seq![at]);
    assert(narrowed(s, seq![at]) =~= seq![at]);
    assert(ravel(s, seq![at]) == at);
}

/// The elements of both operands, as the devices get them, come from the operands.
proof fn lemma_materialized<S: Scalars>(
    a: Model<S>,
    b: Model<S>,
    d: DimsModel,
    x: Seq<S::F>,
    y: Seq<S::F>,
    at: int,
)
    requires
        a.valid(),
        b.valid(),
        dims_of::<S>(a, b) == Some(d),
        materialize_out::<S>(a, b, d, Ok((x, y))),
        0 <= at < volume(d.batch),
    ensures
        forall|e: int|
            0 <= e < d.m * d.k ==> #[trigger] x[at * (d.m * d.k) + e] == a.f32s()[source_rank(
                batch_axes(left_matrix(a.shape)),
                d.batch,
                at,
            ) * (d.m * d.k) + e],
        forall|e: int|
            0 <= e < d.k * d.n ==> #[trigger] y[at * (d.k * d.n) + e] == b.f32s()[source_rank(
                batch_axes(right_matrix(b.shape)),
                d.batch,
                at,
            ) * (d.k * d.n) + e],
{
    let r: Result<(Seq<S::F>, Seq<S::F>), Error> = Ok((x, y));
    let oa = choose|o: Outcome<S>| #[trigger]
        promoted_out::<S>(a, 0, o) && passes(o, r, materialize_right::<S>(o->Ok_0, b, d, r));
    let ma = oa->Ok_0;
    let ob = choose|o: Outcome<S>| #[trigger]
        promoted_out::<S>(b, 1, o) && passes(o, r, materialize_first::<S>(ma, o->Ok_0, d, r));
    let mb = ob->Ok_0;
    lemma_promoted_elements::<S>(a, 0, ma);
    lemma_promoted_elements::<S>(b, 1, mb);
    let first = choose|o: Result<Seq<S::F>, Error>| #[trigger]
        spread_out::<S>(ma, batch_of(d.batch, d.m, d.k), o) && passes(
            o,
            r,
            materialize_second::<S>(o->Ok_0, mb, d, r),
        );
    let second = choose|o: Result<Seq<S::F>, Error>| #[trigger]
        spread_out::<S>(mb, batch_of(d.batch, d.k, d.n), o) && passes(
            o,
            r,
            gives(r, (first->Ok_0, o->Ok_0)),
        );
    assert(first->Ok_0 == x && second->Ok_0 == y);
    lemma_closed(left_matrix(a.shape));
    lemma_closed(right_matrix(b.shape));
    assert(ma.shape == left_matrix(a.shape));
    assert(mb.shape == right_matrix(b.shape));
    let la = batch_axes(left_matrix(a.shape));
    let lb = batch_axes(right_matrix(b.shape));
    assert forall|e: int| 0 <= e < d.m * d.k implies #[trigger] x[at * (d.m * d.k) + e]
        == a.f32s()[source_rank(la, d.batch, at) * (d.m * d.k) + e] by {
        lemma_spread::<S>(ma, la, d.batch, d.m, d.k, x, at, e);
    }
    assert forall|e: int| 0 <= e < d.k * d.n implies #[trigger] y[at * (d.k * d.n) + e]
        == b.f32s()[source_rank(lb, d.batch, at) * (d.k * d.n) + e] by {
        lemma_spread::<S>(mb, lb, d.batch, d.k, d.n, y, at, e);
    }
}

/// The inner products that the devices' operands ask for are those of the operands.
proof fn lemma_same_pairs<S: Scalars>(
    a: Model<S>,
    b: Model<S>,
    d: DimsModel,
    x: Seq<S::F>,
    y: Seq<S::F>,
    q: int,
)
    requires
        a.valid(),
        b.valid(),
        dims_of::<S>(a, b) == Some(d),
        materialize_out::<S>(a, b, d, Ok((x, y))),
        volume(d.batch) <= usize::MAX,
        0 <= q < volume(d.batch) * (d.m * d.n),
    ensures
        whole_stack(d).pairs(x, y, q) == stack_of(a.shape, b.shape).pairs(a.f32s(), b.f32s(), q),
{
    let (m, n, k) = (d.m as int, d.n as int, d.k as int);
    let size = m * n;
    let at = q / size;
    let i = (q % size) / n;
    let j = (q % size) % n;
    assert(0 <= at < volume(d.batch) && 0 <= i < m && 0 <= j < n) by (nonlinear_arith)
        requires
            0 <= q < volume(d.batch) * size,
            size == m * n,
            m > 0,
            n > 0,
            at == q / size,
            i == (q % size) / n,
            j == (q % size) % n,
    ;
    lemma_materialized::<S>(a, b, d, x, y, at);
    let w = whole_stack(d);
    let s = stack_of(a.shape, b.shape);
    let there = source_rank(w.a_batch, w.batch(), at);
    assert(there == at) by {
        if d.batch.len() > 0 {
            lemma_same_place(volume(d.batch) as usize, at);
        } else {
            assert(d.batch =~= Seq::<usize>::empty());
            assert(volume(d.batch) == 1);
            assert(joined(Seq::<usize>::empty(), Seq::<usize>::empty()) =~= Seq::<usize>::empty());
        }
    }
    let sa = source_rank(s.a_batch, s.batch(), at);
    let sb = source_rank(s.b_batch, s.batch(), at);
    assert forall|p: int| 0 <= p < k implies #[trigger] w.pairs(x, y, q)[p] == s.pairs(
        a.f32s(),
        b.f32s(),
        q,
    )[p] by {
        let e = i * k + p;
        let f = p * n + j;
        assert(0 <= e < m * k && 0 <= f < k * n) by (nonlinear_arith)
            requires
                e == i * k + p,
                f == p * n + j,
                0 <= i < m,
                0 <= j < n,
                0 <= p < k,
        ;
        assert(x[at * (m * k) + e] == a.f32s()[sa * (m * k) + e]);
        assert(y[at * (k * n) + f] == b.f32s()[sb * (k * n) + f]);
        assert(at * (m * k) + i * k + p == at * (m * k) + e);
        assert(at * (k * n) + j + p * n == at * (k * n) + f);
    }
    assert(w.pairs(x, y, q) =~= s.pairs(a.f32s(), b.f32s(), q));
}

/// A product on any number of devices has the value that the CPU gives it.
pub proof fn law_devices_match_the_cpu<S: Scalars>(
    op: Seq<char>,
    a: Model<S>,
    b: Model<S>,
    devices: usize,
    w: GpuWork<S::F>,
    jobs: Seq<Job>,
    answers: Seq<Result<Vec<S::F>, Error>>,
    r: Outcome<S>,
)
    requires
        a.valid(),
        b.valid(),
        computed_on::<S>(op, a, b, devices, w, jobs, answers, r),
        fits(result_shape(a.shape, b.shape)),
    ensures
        r is Ok,
        matmul_value::<S>(a, b, r->Ok_0),
{
    law_devices_compute_the_product::<S>(op, a, b, devices, w, jobs, answers, r);
    let d = w.dims@;
    let c = r->Ok_0.data->F32_0;
    let s = stack_of(a.shape, b.shape);
    law_same_shape_as_cpu::<S>(a, b);
    lemma_final_volume::<S>(a, b);
    lemma_batch_volume(d.batch, d.m, d.n);
    assert(product_shape(a.shape, b.shape) =~= batch_of(d.batch, d.m, d.n));
    assert(volume(d.batch) <= usize::MAX) by {
        assert(d.batch.take(d.batch.len() as int) =~= d.batch);
    }
    assert forall|q: int| 0 <= q < c.len() implies sums_products::<S::F, S>(
        s.pairs(a.f32s(), b.f32s(), q),
        #[trigger] c[q],
    ) by {
        lemma_same_pairs::<S>(a, b, d, w.operands.a@, w.operands.b@, q);
        assert(sums_products::<S::F, S>(
            whole_stack(d).pairs(w.operands.a@, w.operands.b@, q),
            c[q],
        ));
    }
    assert(multiplies::<S::F, S>(s, a.f32s(), b.f32s(), c));
}

} // verus!
