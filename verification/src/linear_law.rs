//! The affine map of a matrix: the product with the weights, and the bias added to every row.
use vstd::prelude::*;
use crate::ad::matmul_tracked;
use crate::cpu::add_out;
use crate::elementwise::{source_rank, zips};
use crate::index::ravel;
use crate::matmul::matmul_out;
use crate::matmul_law::{law_matmul_f32, law_matmul_f64, lemma_table, lemma_table_at};
use crate::nn::{biased_tracked, linear_tracked};
use crate::nodes::{tracked_out, Node, RuleModel};
use crate::norm_law::alike;
use crate::product_law::{over, terms};
use crate::ring::Ring;
use crate::scalar::{adding, is_sum, Scalars};
use crate::shape::{aligned, joined};
use crate::tensor::{Model, Outcome};
use crate::views::narrowed;

verus! {

/// A row added to a table: what stands at `(i, j)` of the table meets what stands at `j` of the
/// row.
proof fn lemma_row_added<T>(
    rel: spec_fn(T, T, T) -> bool,
    m: usize,
    n: usize,
    a: Seq<T>,
    b: Seq<T>,
    out: Seq<T>,
    i: int,
    j: int,
)
    requires
        zips(rel, seq![m, n], a, seq![n], b, out),
        0 <= i < m,
        0 <= j < n,
    ensures
        joined(seq![m, n], seq![n]) == seq![m, n],
        rel(a[i * n + j], b[j], out[i * n + j]),
{
    let (shape, row) = (seq![m, n], seq![n]);
    let both = joined(shape, row);
    assert(aligned(row, 2, 0) == 1 && aligned(row, 2, 1) == n);
    assert(aligned(shape, 2, 0) == m && aligned(shape, 2, 1) == n);
    assert(both =~= shape);
    lemma_table(m, n);
    let at = i * n + j;
    assert(0 <= at < m * n) by (nonlinear_arith)
        requires
            0 <= i < m,
            0 <= j < n,
            at == i * n + j,
    ;
    lemma_table_at(m, n, i, j);
    let idx = seq![i, j];
    reveal_with_fuel(ravel, 3);
    assert(idx.drop_last() =~= seq![i]);
    assert(shape.drop_last() =~= seq![m]);
    assert(ravel(shape, idx) == at);
    assert(narrowed(shape, idx) =~= idx);
    assert(source_rank(shape, both, at) == at);
    let small = narrowed(row, idx);
    assert(small =~= seq![j]);
    assert(row.drop_last() =~= Seq::<usize>::empty());
    assert(ravel(row, small) == j);
    assert(source_rank(row, both, at) == j);
    assert(rel(a[source_rank(shape, both, at)], b[source_rank(row, both, at)], out[at]));
}

/// An affine map: entry `(i, j)` is the sum of the products of row `i` of the input and column `j`
/// of the weights, and the bias of column `j` where there is one. On 32-bit floats.
pub proof fn law_linear_f32<S: Scalars>(
    r: Ring<S::F>,
    before: Seq<Node<S>>,
    after: Seq<Node<S>>,
    x: Model<S>,
    w: Model<S>,
    b: Option<Model<S>>,
    y: Model<S>,
    m: usize,
    k: usize,
    n: usize,
    i: int,
    j: int,
)
    requires
        r.computes::<S>(),
        x.data is F32,
        x.shape == seq![m, k],
        w.shape == seq![k, n],
        b is Some ==> b->Some_0.shape == seq![n],
        linear_tracked::<S>(before, after, x, w, b, Ok(y)),
        0 <= i < m,
        0 <= j < n,
    ensures
        y.shape == seq![m, n],
        b is None ==> y.f32s()[i * n + j] == over(
            r,
            terms(r, x.f32s(), w.f32s(), k as int, n as int, i, j),
            k as int,
        ),
        b is Some ==> y.f32s()[i * n + j] == r.plus(
            over(r, terms(r, x.f32s(), w.f32s(), k as int, n as int, i, j), k as int),
            b->Some_0.f32s()[j],
        ),
{
    let res: Outcome<S> = Ok(y);
    let (mid, o) = choose|mid: Seq<Node<S>>, o: Outcome<S>| #[trigger]
        matmul_tracked::<S>(before, mid, x, w, o) && o is Ok && biased_tracked::<S>(
            mid,
            after,
            o->Ok_0,
            b,
            res,
        );
    let p = o->Ok_0;
    let v = choose|v: Outcome<S>| #[trigger]
        matmul_out::<S>(x, w, v) && tracked_out::<S>(
            before,
            mid,
            x.in_graph || w.in_graph,
            v,
            seq![x, w],
            RuleModel::Matmul { a: x.detached(), b: w.detached() },
            o,
        );
    assert(alike::<S>(p, v->Ok_0));
    law_matmul_f32::<S>(r, x, w, v->Ok_0, m, k, n);
    assert(p.f32s() == v->Ok_0.f32s());
    let at = i * n + j;
    let whole = over(r, terms(r, x.f32s(), w.f32s(), k as int, n as int, i, j), k as int);
    assert(p.f32s()[i * n + j] == whole);
    if b is Some {
        let bias = b->Some_0;
        let u = choose|u: Outcome<S>| #[trigger]
            add_out::<S>(p, bias, u) && tracked_out::<S>(
                mid,
                after,
                p.in_graph || bias.in_graph,
                u,
                seq![p, bias],
                RuleModel::Add { a_shape: p.shape, b_shape: bias.shape },
                res,
            );
        let t = u->Ok_0;
        assert(alike::<S>(y, t));
        assert(t.elems() == t.data);
        assert(t.f32s() == t.data->F32_0 && y.f32s() == t.f32s());
        let rel = adding::<S::F, S>();
        lemma_row_added(rel, m, n, p.f32s(), bias.f32s(), t.data->F32_0, i, j);
        assert(is_sum::<S::F, S>(p.f32s()[at], bias.f32s()[j], y.f32s()[at]));
    }
}

/// An affine map: entry `(i, j)` is the sum of the products of row `i` of the input and column `j`
/// of the weights, and the bias of column `j` where there is one. On 64-bit floats.
pub proof fn law_linear_f64<S: Scalars>(
    r: Ring<S::D>,
    before: Seq<Node<S>>,
    after: Seq<Node<S>>,
    x: Model<S>,
    w: Model<S>,
    b: Option<Model<S>>,
    y: Model<S>,
    m: usize,
    k: usize,
    n: usize,
    i: int,
    j: int,
)
    requires
        r.computes::<S>(),
        x.data is F64,
        x.shape == seq![m, k],
        w.shape == seq![k, n],
        b is Some ==> b->Some_0.shape == seq![n],
        linear_tracked::<S>(before, after, x, w, b, Ok(y)),
        0 <= i < m,
        0 <= j < n,
    ensures
        y.shape == seq![m, n],
        b is None ==> y.f64s()[i * n + j] == over(
            r,
            terms(r, x.f64s(), w.f64s(), k as int, n as int, i, j),
            k as int,
        ),
        b is Some ==> y.f64s()[i * n + j] == r.plus(
            over(r, terms(r, x.f64s(), w.f64s(), k as int, n as int, i, j), k as int),
            b->Some_0.f64s()[j],
        ),
{
    let res: Outcome<S> = Ok(y);
    let (mid, o) = choose|mid: Seq<Node<S>>, o: Outcome<S>| #[trigger]
        matmul_tracked::<S>(before, mid, x, w, o) && o is Ok && biased_tracked::<S>(
            mid,
            after,
            o->Ok_0,
            b,
            res,
        );
    let p = o->Ok_0;
    let v = choose|v: Outcome<S>| #[trigger]
        matmul_out::<S>(x, w, v) && tracked_out::<S>(
            before,
            mid,
            x.in_graph || w.in_graph,
            v,
            seq![x, w],
            RuleModel::Matmul { a: x.detached(), b: w.detached() },
            o,
        );
    assert(alike::<S>(p, v->Ok_0));
    law_matmul_f64::<S>(r, x, w, v->Ok_0, m, k, n);
    assert(p.f64s() == v->Ok_0.f64s());
    let at = i * n + j;
    let whole = over(r, terms(r, x.f64s(), w.f64s(), k as int, n as int, i, j), k as int);
    assert(p.f64s()[i * n + j] == whole);
    if b is Some {
        let bias = b->Some_0;
        let u = choose|u: Outcome<S>| #[trigger]
            add_out::<S>(p, bias, u) && tracked_out::<S>(
                mid,
                after,
                p.in_graph || bias.in_graph,
                u,
                seq![p, bias],
                RuleModel::Add { a_shape: p.shape, b_shape: bias.shape },
                res,
            );
        let t = u->Ok_0;
        assert(alike::<S>(y, t));
        assert(t.elems() == t.data);
        assert(t.f64s() == t.data->F64_0 && y.f64s() == t.f64s());
        let rel = adding::<S::D, S>();
        lemma_row_added(rel, m, n, p.f64s(), bias.f64s(), t.data->F64_0, i, j);
        assert(is_sum::<S::D, S>(p.f64s()[at], bias.f64s()[j], y.f64s()[at]));
    }
}

} // verus!
