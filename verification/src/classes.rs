//! Losses and lookups by class index.
use vstd::prelude::*;
use crate::ad::{goes_on, mean, mean_tracked, sum, sum_tracked};
use crate::dtype::Dtype;
use crate::error::{Error, ErrorKind};
use crate::index::volume;
use crate::lookup::{class_ok, lemma_class};
use crate::nodes::{attach, kept, tracked_out, Graph, Node, Rule, RuleModel};
use crate::routes::{all_named, classes_named, flat_shape};
use crate::rules::{from_f32s_out, from_f64s_out, one_part};
use crate::scalar::{is_one, is_zero, Arith, Scalars};
use crate::softmax::{log_softmax, log_softmax_tracked};
use crate::tensor::{copied, gives, outcome, passes, repeated, Model, Outcome, Tensor};
use crate::views::reshape_out;

verus! {

/// How a loss reduces over the batch.
#[derive(Clone, Copy, Debug, PartialEq, Eq, Structural)]
pub enum Reduce {
    /// Their mean.
    Mean,
    /// Their sum.
    Sum,
    /// Each value stays.
    Each,
}

/// What a loss comes to, given its values.
pub open spec fn reduced_tracked<S: Scalars>(
    before: Seq<Node<S>>,
    after: Seq<Node<S>>,
    m: Model<S>,
    reduction: Reduce,
    r: Outcome<S>,
) -> bool {
    match reduction {
        Reduce::Each => after == before && gives(r, m),
        Reduce::Sum => sum_tracked::<S>(before, after, m, None, false, r),
        Reduce::Mean => mean_tracked::<S>(before, after, m, None, false, r),
    }
}

/// Reduces the values of a loss.
pub fn reduced<S: Scalars>(graph: &mut Graph<S>, y: Tensor<S>, reduction: Reduce) -> (r: Result<
    Tensor<S>,
    Error,
>)
    requires
        old(graph).wf(),
        old(graph).owns(y@),
    ensures
        kept::<S>(*old(graph), *final(graph), outcome(r)),
        reduced_tracked::<S>(
            old(graph).nodes(),
            final(graph).nodes(),
            y@,
            reduction,
            outcome(r),
        ),
{
    match reduction {
        Reduce::Each => Ok(y),
        Reduce::Sum => sum(graph, &y, None, false),
        Reduce::Mean => mean(graph, &y, None, false),
    }
}

/// Every entry names one of `width` classes.
pub open spec fn classes_ok(targets: Seq<i64>, width: usize) -> bool {
    forall|i: int| 0 <= i < targets.len() ==> class_ok(#[trigger] targets[i], width)
}

/// `v[i]` is the negative of row `i`'s element at its class.
pub open spec fn class_negatives<T, A: Arith<T>>(
    lp: Seq<T>,
    targets: Seq<i64>,
    width: int,
    v: Seq<T>,
) -> bool {
    &&& v.len() == targets.len()
    &&& forall|i: int|
        0 <= i < v.len() ==> call_ensures(
            A::negated,
            (lp[i * width + targets[i]],),
            #[trigger] v[i],
        )
}

/// The negatives, unless an entry names no class.
fn class_negatives_of<T: Copy, A: Arith<T>>(lp: &[T], targets: &[i64], width: usize) -> (r: Option<
    Vec<T>,
>)
    requires
        lp@.len() == targets@.len() * width,
    ensures
        match r {
            Some(v) => classes_ok(targets@, width) && class_negatives::<T, A>(
                lp@,
                targets@,
                width as int,
                v@,
            ),
            None => !classes_ok(targets@, width),
        },
{
    let n: usize = targets.len();
    assert(lp.len() == lp@.len());
    let mut v: Vec<T> = Vec::new();
    let mut i: usize = 0;
    while i < n
        invariant
            i <= n == targets@.len(),
            lp@.len() == n * width,
            lp@.len() <= usize::MAX,
            v@.len() == i,
            forall|j: int| 0 <= j < i ==> class_ok(#[trigger] targets@[j], width),
            forall|j: int|
                0 <= j < i ==> call_ensures(
                    A::negated,
                    (lp@[j * width + targets@[j]],),
                    #[trigger] v@[j],
                ),
        decreases n - i,
    {
        let c: i64 = targets[i];
        if c < 0 || c >= width as i64 {
            assert(!class_ok(targets@[i as int], width));
            return None;
        }
        proof {
            lemma_class(c, width);
            assert(0 <= i * width && i * width + width <= n * width) by (nonlinear_arith)
                requires
                    0 <= i < n,
                    width >= 0,
            ;
        }
        let y: T = A::negated(lp[i * width + c as usize]);
        v.push(y);
        i = i + 1;
    }
    Some(v)
}

/// The shape of a vector.
pub open spec fn vector(n: usize) -> Seq<usize> {
    seq![n]
}

/// What the values of a negative log-likelihood come to: minus the log-probability of each row's
/// class.
pub open spec fn nll_values_out<S: Scalars>(
    lp: Model<S>,
    targets: Model<S>,
    r: Outcome<S>,
) -> bool {
    if targets.dtype() != Dtype::I64 {
        r is Err && r->Err_0.says(
            ErrorKind::Dtype,
            "nll_loss"@,
            "targets must be i64 class indices"@,
        )
    } else if lp.shape.len() != 2 || targets.shape.len() != 1 {
        r is Err && r->Err_0.says(ErrorKind::Shape, "nll_loss"@, "expected [B,C] and [B]"@)
    } else if lp.shape[0] != targets.shape[0] {
        r is Err && r->Err_0.says(ErrorKind::Shape, "nll_loss"@, "batch mismatch"@)
    } else if lp.dtype() == Dtype::I64 {
        r is Err && r->Err_0.says(ErrorKind::Dtype, "nll_loss"@, "float logits"@)
    } else if !classes_ok(targets.i64s(), lp.shape[1]) {
        r is Err && r->Err_0.says(ErrorKind::Index, "nll_loss"@, "class oob"@)
    } else if lp.dtype() == Dtype::F32 {
        exists|v: Seq<S::F>| #[trigger]
            class_negatives::<S::F, S>(lp.f32s(), targets.i64s(), lp.shape[1] as int, v)
                && from_f32s_out::<S>(v, vector(lp.shape[0]), r)
    } else {
        exists|v: Seq<S::D>| #[trigger]
            class_negatives::<S::D, S>(lp.f64s(), targets.i64s(), lp.shape[1] as int, v)
                && from_f64s_out::<S>(v, vector(lp.shape[0]), r)
    }
}

fn nll_values<S: Scalars>(lp: &Tensor<S>, targets: &Tensor<S>) -> (r: Result<Tensor<S>, Error>)
    ensures
        nll_values_out::<S>(lp@, targets@, outcome(r)),
{
    let tg: Vec<i64> = match targets.to_vec_i64() {
        Ok(v) => v,
        Err(_) => {
            return Err(Error::dtype("nll_loss", "targets must be i64 class indices".to_owned()));
        },
    };
    if lp.rank() != 2 || targets.rank() != 1 {
        return Err(Error::shape("nll_loss", "expected [B,C] and [B]".to_owned()));
    }
    let b: usize = lp.shape()[0];
    if b != targets.shape()[0] {
        return Err(Error::shape("nll_loss", "batch mismatch".to_owned()));
    }
    let width: usize = lp.shape()[1];
    let shape: [usize; 1] = [b];
    proof {
        crate::lookup::lemma_matrix_volume(lp@.shape);
        let ts = targets@.shape;
        assert(ts.drop_last() =~= Seq::<usize>::empty());
        assert(volume(ts.drop_last()) == 1);
        assert(1 * b == b) by (nonlinear_arith);
        assert(tg@.len() == b);
        assert(shape@ =~= vector(b));
    }
    match lp.dtype() {
        Dtype::F32 => {
            let v: Vec<S::F> = match lp.to_vec_f32() {
                Ok(v) => v,
                Err(e) => {
                    return Err(e);
                },
            };
            match class_negatives_of::<S::F, S>(v.as_slice(), tg.as_slice(), width) {
                Some(w) => {
                    let ghost ws = w@;
                    let r: Result<Tensor<S>, Error> = Tensor::from_vec_f32(w, &shape);
                    assert(from_f32s_out::<S>(ws, vector(b), outcome(r)));
                    r
                },
                None => Err(Error::index("nll_loss", "class oob".to_owned())),
            }
        },
        Dtype::F64 => {
            let v: Vec<S::D> = match lp.to_vec_f64() {
                Ok(v) => v,
                Err(e) => {
                    return Err(e);
                },
            };
            match class_negatives_of::<S::D, S>(v.as_slice(), tg.as_slice(), width) {
                Some(w) => {
                    let ghost ws = w@;
                    let r: Result<Tensor<S>, Error> = Tensor::from_vec_f64(w, &shape);
                    assert(from_f64s_out::<S>(ws, vector(b), outcome(r)));
                    r
                },
                None => Err(Error::index("nll_loss", "class oob".to_owned())),
            }
        },
        Dtype::I64 => Err(Error::dtype("nll_loss", "float logits".to_owned())),
    }
}

/// The values `y`, recorded.
pub open spec fn nll_recorded<S: Scalars>(
    before: Seq<Node<S>>,
    after: Seq<Node<S>>,
    lp: Model<S>,
    targets: Model<S>,
    y: Outcome<S>,
    r: Outcome<S>,
) -> bool {
    tracked_out::<S>(
        before,
        after,
        lp.in_graph,
        y,
        seq![lp],
        RuleModel::Nll {
            targets: targets.detached(),
            batch: lp.shape[0],
            classes: lp.shape[1],
            dtype: lp.dtype(),
        },
        r,
    )
}

/// What `nll_loss` comes to: the values, recorded, then reduced.
pub open spec fn nll_loss_tracked<S: Scalars>(
    before: Seq<Node<S>>,
    after: Seq<Node<S>>,
    log_probs: Model<S>,
    targets: Model<S>,
    reduction: Reduce,
    r: Outcome<S>,
) -> bool {
    exists|y: Outcome<S>| #[trigger]
        nll_values_out::<S>(log_probs, targets, y) && nll_reduced::<S>(
            before,
            after,
            log_probs,
            targets,
            reduction,
            y,
            r,
        )
}

/// The values `y`, recorded and reduced.
pub open spec fn nll_reduced<S: Scalars>(
    before: Seq<Node<S>>,
    after: Seq<Node<S>>,
    lp: Model<S>,
    targets: Model<S>,
    reduction: Reduce,
    y: Outcome<S>,
    r: Outcome<S>,
) -> bool {
    exists|mid: Seq<Node<S>>, o: Outcome<S>| #[trigger]
        nll_recorded::<S>(before, mid, lp, targets, y, o) && goes_on(
            o,
            mid,
            r,
            after,
            reduced_tracked::<S>(mid, after, o->Ok_0, reduction, r),
        )
}

/// Negative log-likelihood of class indices given log-probabilities `[B, C]`.
pub fn nll_loss<S: Scalars>(
    graph: &mut Graph<S>,
    log_probs: &Tensor<S>,
    targets: &Tensor<S>,
    reduction: Reduce,
) -> (r: Result<Tensor<S>, Error>)
    requires
        old(graph).wf(),
        old(graph).owns(log_probs@),
        old(graph).owns(targets@),
    ensures
        kept::<S>(*old(graph), *final(graph), outcome(r)),
        nll_loss_tracked::<S>(
            old(graph).nodes(),
            final(graph).nodes(),
            log_probs@,
            targets@,
            reduction,
            outcome(r),
        ),
{
    let made: Result<Tensor<S>, Error> = nll_values(log_probs, targets);
    let ghost before = graph.nodes();
    let ghost y = outcome(made);
    let values: Tensor<S> = match made {
        Ok(t) => t,
        Err(e) => {
            proof {
                assert(nll_recorded::<S>(before, before, log_probs@, targets@, y, y));
            }
            return Err(e);
        },
    };
    let out: Tensor<S> = if log_probs.requires_grad() {
        let parents: Vec<Tensor<S>> = one_part(log_probs.clone());
        let rule: Rule<S> = Rule::Nll {
            targets: targets.detach(),
            batch: log_probs.shape()[0],
            classes: log_probs.shape()[1],
            dtype: log_probs.dtype(),
        };
        attach(graph, values, parents, rule)
    } else {
        values
    };
    proof {
        assert(nll_recorded::<S>(before, graph.nodes(), log_probs@, targets@, y, Ok(out@)));
    }
    reduced(graph, out, reduction)
}

/// The last axis, counted from the end.
pub open spec fn minus_one() -> isize {
    (-1) as isize
}

/// What `cross_entropy` comes to.
pub open spec fn cross_entropy_tracked<S: Scalars>(
    before: Seq<Node<S>>,
    after: Seq<Node<S>>,
    logits: Model<S>,
    targets: Model<S>,
    reduction: Reduce,
    r: Outcome<S>,
) -> bool {
    exists|mid: Seq<Node<S>>, o: Outcome<S>| #[trigger]
        log_softmax_tracked::<S>(before, mid, logits, minus_one(), o) && goes_on(
            o,
            mid,
            r,
            after,
            cross_entropy_loss::<S>(mid, after, targets, reduction, o->Ok_0, r),
        )
}

/// The rest of it, once `lp` is there.
pub open spec fn cross_entropy_loss<S: Scalars>(
    before: Seq<Node<S>>,
    after: Seq<Node<S>>,
    targets: Model<S>,
    reduction: Reduce,
    lp: Model<S>,
    r: Outcome<S>,
) -> bool {
    nll_loss_tracked::<S>(before, after, lp, targets, reduction, r)
}

/// `nll_loss(log_softmax(logits), targets)`.
pub fn cross_entropy<S: Scalars>(
    graph: &mut Graph<S>,
    logits: &Tensor<S>,
    targets: &Tensor<S>,
    reduction: Reduce,
) -> (r: Result<Tensor<S>, Error>)
    requires
        old(graph).wf(),
        old(graph).owns(logits@),
        old(graph).owns(targets@),
    ensures
        kept::<S>(*old(graph), *final(graph), outcome(r)),
        cross_entropy_tracked::<S>(
            old(graph).nodes(),
            final(graph).nodes(),
            logits@,
            targets@,
            reduction,
            outcome(r),
        ),
{
    assert(minus_one() == -1);
    let lp: Tensor<S> = match log_softmax(graph, logits, -1) {
        Ok(t) => t,
        Err(e) => {
            return Err(e);
        },
    };
    nll_loss(graph, &lp, targets, reduction)
}

/// Row after row of the table, as the entries name them.
pub open spec fn rows_taken<T>(table: Seq<T>, dim: int, index: Seq<i64>, v: Seq<T>) -> bool {
    &&& v.len() == index.len() * dim
    &&& forall|o: int| 0 <= o < v.len() ==> #[trigger] v[o] == table[index[o / dim] * dim + o % dim]
}

fn take_rows<T: Copy>(table: &[T], rows: usize, dim: usize, index: &[i64]) -> (v: Vec<T>)
    requires
        table@.len() == rows * dim,
        classes_ok(index@, rows),
        index@.len() * dim <= usize::MAX,
    ensures
        rows_taken(table@, dim as int, index@, v@),
{
    assert(table.len() == table@.len());
    let mut v: Vec<T> = Vec::new();
    let mut i: usize = 0;
    while i < index.len()
        invariant
            i <= index@.len(),
            table@.len() == rows * dim,
            table@.len() <= usize::MAX,
            classes_ok(index@, rows),
            v@.len() == i * dim,
            forall|o: int|
                0 <= o < v@.len() ==> #[trigger] v@[o] == table@[index@[o / (dim as int)] * dim + o
                    % (dim as int)],
        decreases index@.len() - i,
    {
        let c: i64 = index[i];
        let ghost w = dim as int;
        proof {
            assert(class_ok(index@[i as int], rows));
            lemma_class(c, rows);
            assert(0 <= c * w && c * w + w <= rows * w) by (nonlinear_arith)
                requires
                    0 <= c < rows,
                    w >= 0,
            ;
            assert((i + 1) * w == i * w + w) by (nonlinear_arith);
        }
        let mut j: usize = 0;
        while j < dim
            invariant
                j <= dim,
                w == dim,
                i < index@.len(),
                c == index@[i as int],
                0 <= c < rows,
                0 <= c * w,
                c * w + w <= table@.len() <= usize::MAX,
                v@.len() == i * dim + j,
                forall|o: int|
                    0 <= o < v@.len() ==> #[trigger] v@[o] == table@[index@[o / w] * dim + o % w],
            decreases dim - j,
        {
            proof {
                let o = i * w + j;
                assert(o / w == i && o % w == j) by (nonlinear_arith)
                    requires
                        o == i * w + j,
                        0 <= j < w,
                ;
            }
            v.push(table[c as usize * dim + j]);
            j = j + 1;
        }
        i = i + 1;
    }
    v
}

/// Whether every entry names one of `width` classes.
fn all_classes(targets: &[i64], width: usize) -> (r: bool)
    ensures
        r == classes_ok(targets@, width),
{
    let mut i: usize = 0;
    while i < targets.len()
        invariant
            i <= targets@.len(),
            forall|j: int| 0 <= j < i ==> class_ok(#[trigger] targets@[j], width),
        decreases targets@.len() - i,
    {
        if targets[i] < 0 || targets[i] >= width as i64 {
            assert(!class_ok(targets@[i as int], width));
            return false;
        }
        i = i + 1;
    }
    true
}

/// What the rows of a table, as the entries `flat` name them, come to.
pub open spec fn embed_rows<S: Scalars>(
    flat: Model<S>,
    weight: Model<S>,
    shape: Seq<usize>,
    r: Outcome<S>,
) -> bool {
    let index = flat.i64s();
    let dim = weight.shape[1];
    if index.len() > 0 && dim > 0 && weight.dtype() != Dtype::F32 && class_ok(
        index[0],
        weight.shape[0],
    ) {
        r is Err && r->Err_0.says(
            ErrorKind::Dtype,
            "embedding"@,
            "f32 weight in v1 helper"@,
        )
    } else if !classes_ok(index, weight.shape[0]) {
        r is Err && r->Err_0.says(ErrorKind::Index, "embedding"@, "index oob"@)
    } else {
        exists|v: Seq<S::F>| #[trigger]
            rows_taken(weight.f32s(), dim as int, index, v) && from_f32s_out::<S>(v, shape, r)
    }
}

/// What the forward half of `embedding` comes to.
pub open spec fn embed_forward_out<S: Scalars>(
    weight: Model<S>,
    indices: Model<S>,
    r: Outcome<S>,
) -> bool {
    exists|o: Outcome<S>| #[trigger]
        reshape_out::<S>(indices, flat_shape(), o) && passes(
            o,
            r,
            embed_rows::<S>(o->Ok_0, weight, indices.shape.push(weight.shape[1]), r),
        )
}

/// The rows that the entries name.
fn embed_forward<S: Scalars>(weight: &Tensor<S>, indices: &Tensor<S>) -> (r: Result<
    Tensor<S>,
    Error,
>)
    requires
        weight@.shape.len() == 2,
        indices@.dtype() == Dtype::I64,
        volume(indices@.shape) * weight@.shape[1] <= usize::MAX,
    ensures
        embed_forward_out::<S>(weight@, indices@, outcome(r)),
{
    let one: [isize; 1] = [-1];
    assert(one@ =~= flat_shape());
    let flat: Tensor<S> = match indices.reshape(&one) {
        Ok(t) => t,
        Err(e) => {
            return Err(e);
        },
    };
    let index: Vec<i64> = match flat.to_vec_i64() {
        Ok(v) => v,
        Err(e) => {
            return Err(e);
        },
    };
    proof {
        crate::shape::law_reshape_keeps_volume(indices@.shape, flat_shape());
        crate::lookup::lemma_matrix_volume(weight@.shape);
    }
    let rows: usize = weight.shape()[0];
    let dim: usize = weight.shape()[1];
    if index.len() > 0 && dim > 0 && weight.dtype() != Dtype::F32 && index[0] >= 0 && index[0]
        < rows as i64 {
        return Err(Error::dtype("embedding", "f32 weight in v1 helper".to_owned()));
    }
    if !all_classes(index.as_slice(), rows) {
        return Err(Error::index("embedding", "index oob".to_owned()));
    }
    let v: Vec<S::F> = match weight.to_vec_f32() {
        Ok(table) => take_rows(table.as_slice(), rows, dim, index.as_slice()),
        Err(_) => {
            proof {
                if index@.len() > 0 {
                    assert(class_ok(index@[0], rows));
                }
                assert(index@.len() * dim == 0) by (nonlinear_arith)
                    requires
                        index@.len() == 0 || dim == 0,
                ;
            }
            Vec::new()
        },
    };
    assert(rows_taken(weight@.f32s(), dim as int, index@, v@));
    let mut shape: Vec<usize> = copied(indices.shape());
    shape.push(dim);
    assert(shape@ =~= indices@.shape.push(dim));
    let r: Result<Tensor<S>, Error> = Tensor::from_slice_f32(v.as_slice(), shape.as_slice());
    assert(from_f32s_out::<S>(v@, indices@.shape.push(dim), outcome(r)));
    r
}

/// What `embedding` comes to.
pub open spec fn embedding_tracked<S: Scalars>(
    before: Seq<Node<S>>,
    after: Seq<Node<S>>,
    weight: Model<S>,
    indices: Model<S>,
    r: Outcome<S>,
) -> bool {
    if weight.shape.len() != 2 {
        after == before && r is Err && r->Err_0.says(
            ErrorKind::Shape,
            "embedding"@,
            "weight [num, dim]"@,
        )
    } else if indices.dtype() != Dtype::I64 {
        after == before && r is Err && r->Err_0.says(ErrorKind::Dtype, "embedding"@, "indices i64"@)
    } else {
        exists|y: Outcome<S>| #[trigger]
            embed_forward_out::<S>(weight, indices, y) && tracked_out::<S>(
                before,
                after,
                weight.in_graph,
                y,
                seq![weight],
                RuleModel::Lookup { indices: indices.detached(), rows: weight.shape },
                r,
            )
    }
}

/// Row lookup: `weight[indices]`, of shape `[..., dim]`.
pub fn embedding<S: Scalars>(
    graph: &mut Graph<S>,
    weight: &Tensor<S>,
    indices: &Tensor<S>,
) -> (r: Result<Tensor<S>, Error>)
    requires
        old(graph).wf(),
        old(graph).owns(weight@),
        old(graph).owns(indices@),
        weight@.shape.len() == 2 && indices@.dtype() == Dtype::I64 ==> volume(indices@.shape)
            * weight@.shape[1] <= usize::MAX,
    ensures
        kept::<S>(*old(graph), *final(graph), outcome(r)),
        embedding_tracked::<S>(
            old(graph).nodes(),
            final(graph).nodes(),
            weight@,
            indices@,
            outcome(r),
        ),
{
    if weight.rank() != 2 {
        return Err(Error::shape("embedding", "weight [num, dim]".to_owned()));
    }
    if indices.dtype() != Dtype::I64 {
        return Err(Error::dtype("embedding", "indices i64".to_owned()));
    }
    let y: Tensor<S> = match embed_forward(weight, indices) {
        Ok(t) => t,
        Err(e) => {
            return Err(e);
        },
    };
    if !weight.requires_grad() {
        return Ok(y);
    }
    let parents: Vec<Tensor<S>> = one_part(weight.clone());
    let rule: Rule<S> = Rule::Lookup { indices: indices.detach(), rows: copied(weight.shape()) };
    Ok(attach(graph, y, parents, rule))
}

/// Row after row of `depth` elements: `u` at the class of the row, `z` elsewhere.
pub open spec fn hot_rows<T>(index: Seq<i64>, depth: int, z: T, u: T, v: Seq<T>) -> bool {
    &&& v.len() == index.len() * depth
    &&& forall|o: int|
        0 <= o < v.len() ==> #[trigger] v[o] == if index[o / depth] == o % depth {
            u
        } else {
            z
        }
}

/// One at the class of each row, zero elsewhere.
pub open spec fn one_hot_rows<T, A: Arith<T>>(index: Seq<i64>, depth: int, v: Seq<T>) -> bool {
    exists|z: T, u: T| #[trigger]
        is_zero::<T, A>(z) && #[trigger] is_one::<T, A>(u) && hot_rows(index, depth, z, u, v)
}

fn one_hot_rows_of<T: Copy, A: Arith<T>>(index: &[i64], depth: usize) -> (v: Vec<T>)
    requires
        classes_named(index@, depth),
        index@.len() * depth <= usize::MAX,
    ensures
        one_hot_rows::<T, A>(index@, depth as int, v@),
{
    let n: usize = index.len();
    let z: T = A::zero();
    let u: T = A::one();
    assert(is_zero::<T, A>(z) && is_one::<T, A>(u));
    let mut v: Vec<T> = repeated(z, n * depth);
    let mut i: usize = 0;
    while i < n
        invariant
            i <= n == index@.len(),
            n * depth <= usize::MAX,
            classes_named(index@, depth),
            v@.len() == n * depth,
            forall|o: int|
                0 <= o < i * depth ==> #[trigger] v@[o] == if index@[o / (depth as int)] == o % (
                depth as int) {
                    u
                } else {
                    z
                },
            forall|o: int| i * depth <= o < v@.len() ==> #[trigger] v@[o] == z,
        decreases n - i,
    {
        let ghost w = depth as int;
        let ghost before = v@;
        proof {
            assert(0 <= index@[i as int] < depth);
            assert(0 <= i * w && i * w + w <= n * w && (i + 1) * w == i * w + w) by (nonlinear_arith)
                requires
                    0 <= i < n,
                    w >= 0,
            ;
        }
        v.set(i * depth + index[i] as usize, u);
        proof {
            assert forall|o: int| 0 <= o < (i + 1) * depth implies #[trigger] v@[o]
                == if index@[o / w] == o % w {
                u
            } else {
                z
            } by {
                if o < i * w {
                    assert(v@[o] == before[o]);
                } else {
                    assert(o / w == i && o % w == o - i * w) by (nonlinear_arith)
                        requires
                            w > 0,
                            i * w <= o < i * w + w,
                    ;
                }
            }
        }
        i = i + 1;
    }
    v
}

/// What the one-hot rows of the entries `flat` come to.
pub open spec fn hot_out<S: Scalars>(
    flat: Model<S>,
    depth: usize,
    shape: Seq<usize>,
    r: Outcome<S>,
) -> bool {
    if !classes_named(flat.i64s(), depth) {
        r is Err && r->Err_0.says(ErrorKind::Index, "one_hot"@, "class oob"@)
    } else {
        exists|v: Seq<S::F>| #[trigger]
            one_hot_rows::<S::F, S>(flat.i64s(), depth as int, v) && from_f32s_out::<S>(v, shape, r)
    }
}

/// What `one_hot` comes to.
pub open spec fn one_hot_out<S: Scalars>(indices: Model<S>, depth: usize, r: Outcome<S>) -> bool {
    if indices.dtype() != Dtype::I64 {
        r is Err && r->Err_0.says(ErrorKind::Dtype, "one_hot"@, "i64 indices"@)
    } else {
        exists|o: Outcome<S>| #[trigger]
            reshape_out::<S>(indices, flat_shape(), o) && passes(
                o,
                r,
                hot_out::<S>(o->Ok_0, depth, indices.shape.push(depth), r),
            )
    }
}

/// One-hot rows of `i64` indices, with last dimension `depth`.
pub fn one_hot<S: Scalars>(indices: &Tensor<S>, depth: usize) -> (r: Result<Tensor<S>, Error>)
    requires
        indices@.dtype() == Dtype::I64 ==> volume(indices@.shape) * depth <= usize::MAX,
    ensures
        one_hot_out::<S>(indices@, depth, outcome(r)),
{
    if indices.dtype() != Dtype::I64 {
        return Err(Error::dtype("one_hot", "i64 indices".to_owned()));
    }
    let one: [isize; 1] = [-1];
    assert(one@ =~= flat_shape());
    let flat: Tensor<S> = match indices.reshape(&one) {
        Ok(t) => t,
        Err(e) => {
            return Err(e);
        },
    };
    let index: Vec<i64> = match flat.to_vec_i64() {
        Ok(v) => v,
        Err(e) => {
            return Err(e);
        },
    };
    proof {
        crate::shape::law_reshape_keeps_volume(indices@.shape, flat_shape());
    }
    if !all_named(index.as_slice(), depth) {
        return Err(Error::index("one_hot", "class oob".to_owned()));
    }
    let v: Vec<S::F> = one_hot_rows_of::<S::F, S>(index.as_slice(), depth);
    let mut shape: Vec<usize> = copied(indices.shape());
    shape.push(depth);
    assert(shape@ =~= indices@.shape.push(depth));
    let r: Result<Tensor<S>, Error> = Tensor::from_slice_f32(v.as_slice(), shape.as_slice());
    assert(from_f32s_out::<S>(v@, indices@.shape.push(depth), outcome(r)));
    r
}

} // verus!
