//! What holds of the rules of differentiation, of recorded operations, and of reductions and views.
use vstd::prelude::*;
use crate::dtype::Dtype;
use crate::error::Error;
use crate::fused::{AuxModel, WeightsModel};
use crate::index::volume;
use crate::nodes::{rule_parts, tracked_out, Node, RuleModel};
use crate::reduce::{all_undefined, asked_axes, axes_product, mean_out, sum_out};
use crate::routes::{amax_parts, cat_parts, lookup_parts, nll_parts, slice_parts};
use crate::rules::{
    add_parts, block_parts, pair_parts, embedding_parts, folded_out, from_f32s_out, from_f64s_out,
    gated_of, gates_all, gather_parts, local_parts, log_softmax_parts, masked_parts, matmul_parts,
    mean_parts, mul_parts, peeled_out, relu_back_out, relu_parts, reshape_parts, rms_parts,
    scan_parts, shaped_out, signed, softmax_parts, stop_parts, sub_parts, sum_parts, take_parts,
    tanh_parts, transpose_parts, unbroadcast_out, unsqueeze_parts,
};
use crate::scalar::{is_zero, Arith, Scalars};
use crate::shape::reshaped;
use crate::storage::Data;
use crate::tape::Backward;
use crate::tensor::{gives, passes, zeros_out, Model, Outcome, TensorModel};
use crate::views::{other_axes, reshape_out, swapped_axes, unsqueezed, with_axes, Range3};

verus! {

/// How many tensors receive a piece.
pub open spec fn arity<S: Scalars>(rule: RuleModel<S>) -> nat {
    match rule {
        RuleModel::Add { .. } => 2,
        RuleModel::Sub { .. } => 2,
        RuleModel::Mul { .. } => 2,
        RuleModel::Pair { .. } => 2,
        RuleModel::Matmul { .. } => 2,
        RuleModel::Scan { .. } => 2,
        RuleModel::Block { .. } => 10,
        RuleModel::Cat { sizes, .. } => sizes.len(),
        _ => 1,
    }
}

/// A split into parts gives as many as there are sizes.
proof fn lemma_cat_arity<S: Scalars>(
    gy: Model<S>,
    axis: usize,
    sizes: Seq<usize>,
    i: int,
    start: int,
    done: Seq<Model<S>>,
    r: Result<Seq<Model<S>>, Error>,
)
    requires
        0 <= i <= sizes.len(),
        done.len() == i,
        cat_parts::<S>(gy, axis, sizes, i, start, done, r),
        r is Ok,
    ensures
        r->Ok_0.len() == sizes.len(),
    decreases sizes.len() - i,
{
    if i < sizes.len() {
        let o = choose|o: Outcome<S>| #[trigger]
            crate::guarded::cut_out::<S>(
                "cat"@,
                gy,
                crate::routes::band(gy.shape.len(), axis as int, start, start + sizes[i]),
                o,
            ) && passes(
                o,
                r,
                cat_parts::<S>(gy, axis, sizes, i + 1, start + sizes[i], done.push(o->Ok_0), r),
            );
        lemma_cat_arity::<S>(gy, axis, sizes, i + 1, start + sizes[i], done.push(o->Ok_0), r);
    }
}

proof fn lemma_add_pieces<S: Scalars>(
    a_shape: Seq<usize>,
    b_shape: Seq<usize>,
    gy: Model<S>,
    r: Result<Seq<Model<S>>, Error>,
)
    requires
        add_parts::<S>(a_shape, b_shape, gy, r),
        r is Ok,
    ensures
        r->Ok_0.len() == 2,
{
    reveal(add_parts);
}

proof fn lemma_sub_pieces<S: Scalars>(
    a_shape: Seq<usize>,
    b_shape: Seq<usize>,
    gy: Model<S>,
    r: Result<Seq<Model<S>>, Error>,
)
    requires
        sub_parts::<S>(a_shape, b_shape, gy, r),
        r is Ok,
    ensures
        r->Ok_0.len() == 2,
{
    reveal(sub_parts);
}

proof fn lemma_mul_pieces<S: Scalars>(
    a: Model<S>,
    b: Model<S>,
    gy: Model<S>,
    r: Result<Seq<Model<S>>, Error>,
)
    requires
        mul_parts::<S>(a, b, gy, r),
        r is Ok,
    ensures
        r->Ok_0.len() == 2,
{
    reveal(mul_parts);
}

proof fn lemma_pair_pieces<S: Scalars>(
    da: Model<S>,
    db: Model<S>,
    a_shape: Seq<usize>,
    b_shape: Seq<usize>,
    gy: Model<S>,
    r: Result<Seq<Model<S>>, Error>,
)
    requires
        pair_parts::<S>(da, db, a_shape, b_shape, gy, r),
        r is Ok,
    ensures
        r->Ok_0.len() == 2,
{
    reveal(pair_parts);
}

proof fn lemma_matmul_pieces<S: Scalars>(
    a: Model<S>,
    b: Model<S>,
    gy: Model<S>,
    r: Result<Seq<Model<S>>, Error>,
)
    requires
        matmul_parts::<S>(a, b, gy, r),
        r is Ok,
    ensures
        r->Ok_0.len() == 2,
{
    reveal(matmul_parts);
}

proof fn lemma_relu_pieces<S: Scalars>(
    x: Model<S>,
    gy: Model<S>,
    r: Result<Seq<Model<S>>, Error>,
)
    requires
        relu_parts::<S>(x, gy, r),
        r is Ok,
    ensures
        r->Ok_0.len() == 1,
{
    reveal(relu_parts);
}

proof fn lemma_tanh_pieces<S: Scalars>(
    y: Model<S>,
    gy: Model<S>,
    r: Result<Seq<Model<S>>, Error>,
)
    requires
        tanh_parts::<S>(y, gy, r),
        r is Ok,
    ensures
        r->Ok_0.len() == 1,
{
    reveal(tanh_parts);
}

proof fn lemma_sum_pieces<S: Scalars>(
    shape: Seq<usize>,
    marks: Seq<bool>,
    keep: bool,
    gy: Model<S>,
    r: Result<Seq<Model<S>>, Error>,
)
    requires
        sum_parts::<S>(shape, marks, keep, gy, r),
        r is Ok,
    ensures
        r->Ok_0.len() == 1,
{
    reveal(sum_parts);
}

proof fn lemma_mean_pieces<S: Scalars>(
    shape: Seq<usize>,
    marks: Seq<bool>,
    keep: bool,
    n: S::D,
    gy: Model<S>,
    r: Result<Seq<Model<S>>, Error>,
)
    requires
        mean_parts::<S>(shape, marks, keep, n, gy, r),
        r is Ok,
    ensures
        r->Ok_0.len() == 1,
{
    reveal(mean_parts);
    reveal(crate::rules::mean_scaled_parts);
}

proof fn lemma_stop_pieces<S: Scalars>(
    gy: Model<S>,
    r: Result<Seq<Model<S>>, Error>,
)
    requires
        stop_parts::<S>(gy, r),
        r is Ok,
    ensures
        r->Ok_0.len() == 1,
{
    reveal(stop_parts);
}

proof fn lemma_local_pieces<S: Scalars>(
    gx: Model<S>,
    gy: Model<S>,
    r: Result<Seq<Model<S>>, Error>,
)
    requires
        local_parts::<S>(gx, gy, r),
        r is Ok,
    ensures
        r->Ok_0.len() == 1,
{
    reveal(local_parts);
}

proof fn lemma_unsqueeze_pieces<S: Scalars>(
    axis: isize,
    gy: Model<S>,
    r: Result<Seq<Model<S>>, Error>,
)
    requires
        unsqueeze_parts::<S>(axis, gy, r),
        r is Ok,
    ensures
        r->Ok_0.len() == 1,
{
    reveal(unsqueeze_parts);
}

proof fn lemma_gather_pieces<S: Scalars>(
    axis: isize,
    index: Model<S>,
    shape: Seq<usize>,
    gy: Model<S>,
    r: Result<Seq<Model<S>>, Error>,
)
    requires
        gather_parts::<S>(axis, index, shape, gy, r),
        r is Ok,
    ensures
        r->Ok_0.len() == 1,
{
    reveal(gather_parts);
}

proof fn lemma_amax_pieces<S: Scalars>(
    x: Model<S>,
    axis: usize,
    keep: bool,
    gy: Model<S>,
    r: Result<Seq<Model<S>>, Error>,
)
    requires
        amax_parts::<S>(x, axis, keep, gy, r),
        r is Ok,
    ensures
        r->Ok_0.len() == 1,
{
    reveal(amax_parts);
}

proof fn lemma_take_pieces<S: Scalars>(
    index: Model<S>,
    shape: Seq<usize>,
    gy: Model<S>,
    r: Result<Seq<Model<S>>, Error>,
)
    requires
        take_parts::<S>(index, shape, gy, r),
        r is Ok,
    ensures
        r->Ok_0.len() == 1,
{
    reveal(take_parts);
}

proof fn lemma_slice_pieces<S: Scalars>(
    shape: Seq<usize>,
    ranges: Seq<Range3>,
    gy: Model<S>,
    r: Result<Seq<Model<S>>, Error>,
)
    requires
        slice_parts::<S>(shape, ranges, gy, r),
        r is Ok,
    ensures
        r->Ok_0.len() == 1,
{
    reveal(slice_parts);
}

proof fn lemma_transpose_pieces<S: Scalars>(
    gy: Model<S>,
    r: Result<Seq<Model<S>>, Error>,
)
    requires
        transpose_parts::<S>(gy, r),
        r is Ok,
    ensures
        r->Ok_0.len() == 1,
{
    reveal(transpose_parts);
}

proof fn lemma_reshape_pieces<S: Scalars>(
    former: Seq<isize>,
    gy: Model<S>,
    r: Result<Seq<Model<S>>, Error>,
)
    requires
        reshape_parts::<S>(former, gy, r),
        r is Ok,
    ensures
        r->Ok_0.len() == 1,
{
    reveal(reshape_parts);
}

proof fn lemma_scan_pieces<S: Scalars>(
    a: Model<S>,
    h: Model<S>,
    gy: Model<S>,
    r: Result<Seq<Model<S>>, Error>,
)
    requires
        scan_parts::<S>(a, h, gy, r),
        r is Ok,
    ensures
        r->Ok_0.len() == 2,
{
    reveal(scan_parts);
}

proof fn lemma_rms_pieces<S: Scalars>(
    x: Model<S>,
    eps: S::F,
    gy: Model<S>,
    r: Result<Seq<Model<S>>, Error>,
)
    requires
        rms_parts::<S>(x, eps, gy, r),
        r is Ok,
    ensures
        r->Ok_0.len() == 1,
{
    reveal(rms_parts);
}

proof fn lemma_embedding_pieces<S: Scalars>(
    table: Model<S>,
    idx: Model<S>,
    gy: Model<S>,
    r: Result<Seq<Model<S>>, Error>,
)
    requires
        embedding_parts::<S>(table, idx, gy, r),
        r is Ok,
    ensures
        r->Ok_0.len() == 1,
{
    reveal(embedding_parts);
}

proof fn lemma_masked_pieces<S: Scalars>(
    probs: Model<S>,
    targets: Model<S>,
    mask: Model<S>,
    gy: Model<S>,
    r: Result<Seq<Model<S>>, Error>,
)
    requires
        masked_parts::<S>(probs, targets, mask, gy, r),
        r is Ok,
    ensures
        r->Ok_0.len() == 1,
{
    reveal(masked_parts);
    reveal(crate::rules::scaled_parts);
}

proof fn lemma_block_pieces<S: Scalars>(
    aux: AuxModel<S>,
    w: WeightsModel<S>,
    eps: S::F,
    gy: Model<S>,
    r: Result<Seq<Model<S>>, Error>,
)
    requires
        block_parts::<S>(aux, w, eps, gy, r),
        r is Ok,
    ensures
        r->Ok_0.len() == 10,
{
    reveal(block_parts);
}

proof fn lemma_softmax_pieces<S: Scalars>(
    y: Model<S>,
    axis: usize,
    gy: Model<S>,
    r: Result<Seq<Model<S>>, Error>,
)
    requires
        softmax_parts::<S>(y, axis, gy, r),
        r is Ok,
    ensures
        r->Ok_0.len() == 1,
{
    reveal(softmax_parts);
}

proof fn lemma_log_softmax_pieces<S: Scalars>(
    y: Model<S>,
    axis: usize,
    gy: Model<S>,
    r: Result<Seq<Model<S>>, Error>,
)
    requires
        log_softmax_parts::<S>(y, axis, gy, r),
        r is Ok,
    ensures
        r->Ok_0.len() == 1,
{
    reveal(log_softmax_parts);
}

proof fn lemma_nll_pieces<S: Scalars>(
    targets: Model<S>,
    batch: usize,
    classes: usize,
    dtype: Dtype,
    gy: Model<S>,
    r: Result<Seq<Model<S>>, Error>,
)
    requires
        nll_parts::<S>(targets, batch, classes, dtype, gy, r),
        r is Ok,
    ensures
        r->Ok_0.len() == 1,
{
    reveal(nll_parts);
}

proof fn lemma_lookup_pieces<S: Scalars>(
    indices: Model<S>,
    table: Seq<usize>,
    gy: Model<S>,
    r: Result<Seq<Model<S>>, Error>,
)
    requires
        lookup_parts::<S>(indices, table, gy, r),
        r is Ok,
    ensures
        r->Ok_0.len() == 1,
{
    reveal(lookup_parts);
}

/// Every rule gives one piece for each of its operands, so the pieces of a recorded operation always
/// match its parents.
pub proof fn law_one_piece_each<S: Scalars>(
    rule: RuleModel<S>,
    gy: Model<S>,
    r: Result<Seq<Model<S>>, Error>,
)
    requires
        rule_parts::<S>(rule, gy, r),
        r is Ok,
    ensures
        r->Ok_0.len() == arity(rule),
{
    match rule {
        RuleModel::Add { a_shape, b_shape } => {
            lemma_add_pieces::<S>(a_shape, b_shape, gy, r);
        },
        RuleModel::Sub { a_shape, b_shape } => {
            lemma_sub_pieces::<S>(a_shape, b_shape, gy, r);
        },
        RuleModel::Mul { a, b } => {
            lemma_mul_pieces::<S>(a, b, gy, r);
        },
        RuleModel::Pair { da, db, a_shape, b_shape, .. } => {
            lemma_pair_pieces::<S>(da, db, a_shape, b_shape, gy, r);
        },
        RuleModel::Matmul { a, b } => {
            lemma_matmul_pieces::<S>(a, b, gy, r);
        },
        RuleModel::Relu { x } => {
            lemma_relu_pieces::<S>(x, gy, r);
        },
        RuleModel::Tanh { y } => {
            lemma_tanh_pieces::<S>(y, gy, r);
        },
        RuleModel::Sum { shape, marks, keep } => {
            lemma_sum_pieces::<S>(shape, marks, keep, gy, r);
        },
        RuleModel::Mean { shape, marks, keep, n } => {
            lemma_mean_pieces::<S>(shape, marks, keep, n, gy, r);
        },
        RuleModel::Stop => {
            lemma_stop_pieces::<S>(gy, r);
        },
        RuleModel::Same => {},
        RuleModel::Local { name, gx } => {
            lemma_local_pieces::<S>(gx, gy, r);
        },
        RuleModel::Unsqueeze { at } => {
            lemma_unsqueeze_pieces::<S>(at, gy, r);
        },
        RuleModel::Cat { axis, sizes } => {
            lemma_cat_arity::<S>(gy, axis, sizes, 0, 0, Seq::empty(), r);
        },
        RuleModel::Gather { at, index, shape } => {
            lemma_gather_pieces::<S>(at, index, shape, gy, r);
        },
        RuleModel::Amax { x, axis, keep } => {
            lemma_amax_pieces::<S>(x, axis, keep, gy, r);
        },
        RuleModel::Take { index, shape } => {
            lemma_take_pieces::<S>(index, shape, gy, r);
        },
        RuleModel::Slice { shape, ranges } => {
            lemma_slice_pieces::<S>(shape, ranges, gy, r);
        },
        RuleModel::Transpose => {
            lemma_transpose_pieces::<S>(gy, r);
        },
        RuleModel::Reshape { former } => {
            lemma_reshape_pieces::<S>(former, gy, r);
        },
        RuleModel::Scan { a, h } => {
            lemma_scan_pieces::<S>(a, h, gy, r);
        },
        RuleModel::Rms { x, eps } => {
            lemma_rms_pieces::<S>(x, eps, gy, r);
        },
        RuleModel::Embedding { table, idx } => {
            lemma_embedding_pieces::<S>(table, idx, gy, r);
        },
        RuleModel::MaskedCe { probs, targets, mask } => {
            lemma_masked_pieces::<S>(probs, targets, mask, gy, r);
        },
        RuleModel::Block { aux, wa, wb, wo, wf1, wf2, g1, g2, g3, g4, eps } => {
            lemma_block_pieces::<S>(aux, WeightsModel { wa, wb, wo, wf1, wf2, g1, g2, g3, g4 }, eps, gy, r);
        },
        RuleModel::Softmax { y, axis } => {
            lemma_softmax_pieces::<S>(y, axis, gy, r);
        },
        RuleModel::LogSoftmax { y, axis } => {
            lemma_log_softmax_pieces::<S>(y, axis, gy, r);
        },
        RuleModel::Nll { targets, batch, classes, dtype } => {
            lemma_nll_pieces::<S>(targets, batch, classes, dtype, gy, r);
        },
        RuleModel::Lookup { indices, rows } => {
            lemma_lookup_pieces::<S>(indices, rows, gy, r);
        },
    }
}

/// A stopped gradient passes on zeros, whatever the cotangent.
pub proof fn law_stop_gives_zeros<S: Scalars>(gy: Model<S>, r: Result<Seq<Model<S>>, Error>)
    requires
        rule_parts::<S>(RuleModel::Stop, gy, r),
        r is Ok,
    ensures
        r->Ok_0.len() == 1,
        zeros_out::<S>(gy.shape, gy.dtype(), Ok(r->Ok_0[0])),
{
    reveal(stop_parts);
}

/// An operation of which no operand is in the graph records nothing, and gives what the plain
/// operation gives.
pub proof fn law_off_the_tape<S: Scalars>(
    before: Seq<Node<S>>,
    after: Seq<Node<S>>,
    y: Outcome<S>,
    parents: Seq<Model<S>>,
    rule: RuleModel<S>,
    r: Outcome<S>,
)
    requires
        tracked_out::<S>(before, after, false, y, parents, rule, r),
    ensures
        after == before,
        r == y,
{
}

/// Recording an operation leaves its value as it is: a tracked operation succeeds where the plain one
/// does, with the same elements in the same layout.
pub proof fn law_tracking_keeps_values<S: Scalars>(
    before: Seq<Node<S>>,
    after: Seq<Node<S>>,
    on: bool,
    y: Outcome<S>,
    parents: Seq<Model<S>>,
    rule: RuleModel<S>,
    r: Outcome<S>,
)
    requires
        tracked_out::<S>(before, after, on, y, parents, rule, r),
    ensures
        r is Ok == y is Ok,
        r is Ok ==> r->Ok_0.data == y->Ok_0.data && r->Ok_0.elems() == y->Ok_0.elems()
            && r->Ok_0.shape == y->Ok_0.shape && r->Ok_0.strides == y->Ok_0.strides
            && r->Ok_0.offset == y->Ok_0.offset,
        r is Err ==> r->Err_0 == y->Err_0,
{
}

/// Every size can be asked for in a reshape.
pub open spec fn askable(shape: Seq<usize>) -> bool {
    forall|i: int| 0 <= i < shape.len() ==> #[trigger] shape[i] <= isize::MAX
}

/// A reshape that asks for a shape gives it.
proof fn lemma_asked_shape<S: Scalars>(m: Model<S>, target: Seq<usize>, t: Model<S>)
    requires
        askable(target),
        shaped_out::<S>(m, target, Ok(t)),
    ensures
        t.shape == target,
{
    if m.shape != target {
        let new = signed(target);
        assert forall|i: int| 0 <= i < target.len() implies reshaped(m.shape, new)[i]
            == target[i] by {
            assert(target[i] <= isize::MAX);
            assert(new[i] == target[i]);
        }
        assert(reshaped(m.shape, new) =~= target);
    }
}

/// The cotangent of a broadcast operand comes back in the operand's shape.
pub proof fn law_unbroadcast_shape<S: Scalars>(g: Model<S>, target: Seq<usize>, t: Model<S>)
    requires
        askable(target),
        unbroadcast_out::<S>(g, target, Ok(t)),
    ensures
        t.shape == target,
{
    if g.shape != target {
        let r: Outcome<S> = Ok(t);
        let o = choose|o: Outcome<S>| #[trigger]
            peeled_out::<S>(g, crate::rules::extra_rank(g.shape, target), o)
                && passes(o, r, folded_out::<S>(o->Ok_0, target, r));
        let m = o->Ok_0;
        let axes = crate::rules::stretched_axes(
            m.shape,
            target,
            crate::rules::shared_rank(m.shape, target),
        );
        if axes.len() == 0 {
            lemma_asked_shape::<S>(m, target, t);
        } else {
            let p = choose|p: Outcome<S>| #[trigger]
                sum_out::<S>(m, Some(axes), true, p) && passes(
                    p,
                    r,
                    shaped_out::<S>(p->Ok_0, target, r),
                );
            lemma_asked_shape::<S>(p->Ok_0, target, t);
        }
    }
}

/// The pieces of a sum of two operands have the operands' shapes, however they were broadcast.
pub proof fn law_add_pieces_fit<S: Scalars>(
    a_shape: Seq<usize>,
    b_shape: Seq<usize>,
    gy: Model<S>,
    parts: Seq<Model<S>>,
)
    requires
        askable(a_shape),
        askable(b_shape),
        rule_parts::<S>(RuleModel::Add { a_shape, b_shape }, gy, Ok(parts)),
    ensures
        parts.len() == 2,
        parts[0].shape == a_shape,
        parts[1].shape == b_shape,
{
    reveal(add_parts);
    law_unbroadcast_shape::<S>(gy, a_shape, parts[0]);
    law_unbroadcast_shape::<S>(gy, b_shape, parts[1]);
}

/// The pieces of a product of two operands have the operands' shapes, however they were broadcast.
pub proof fn law_mul_pieces_fit<S: Scalars>(
    a: Model<S>,
    b: Model<S>,
    gy: Model<S>,
    parts: Seq<Model<S>>,
)
    requires
        askable(a.shape),
        askable(b.shape),
        rule_parts::<S>(RuleModel::Mul { a, b }, gy, Ok(parts)),
    ensures
        parts.len() == 2,
        parts[0].shape == a.shape,
        parts[1].shape == b.shape,
{
    reveal(mul_parts);
    let r: Result<Seq<Model<S>>, Error> = Ok(parts);
    let pa = choose|o: Outcome<S>| #[trigger]
        crate::cpu::mul_out::<S>(gy, b, o) && passes(
            o,
            r,
            crate::rules::mul_first::<S>(a, b, gy, o->Ok_0, r),
        );
    let ga = choose|o: Outcome<S>| #[trigger]
        unbroadcast_out::<S>(pa->Ok_0, a.shape, o) && passes(
            o,
            r,
            crate::rules::mul_other::<S>(a, b, gy, o->Ok_0, r),
        );
    let pb = choose|o: Outcome<S>| #[trigger]
        crate::cpu::mul_out::<S>(gy, a, o) && passes(
            o,
            r,
            crate::rules::mul_second::<S>(b, ga->Ok_0, o->Ok_0, r),
        );
    law_unbroadcast_shape::<S>(pa->Ok_0, a.shape, parts[0]);
    law_unbroadcast_shape::<S>(pb->Ok_0, b.shape, parts[1]);
}

/// A recorded result is no leaf: it shares no gradient slot with the operands.
pub proof fn law_products_are_no_leaves<S: Scalars>(
    before: Seq<Node<S>>,
    after: Seq<Node<S>>,
    y: Outcome<S>,
    parents: Seq<Model<S>>,
    rule: RuleModel<S>,
    r: Outcome<S>,
)
    requires
        tracked_out::<S>(before, after, true, y, parents, rule, r),
        r is Ok,
        before.len() <= usize::MAX,
    ensures
        r->Ok_0.leaf is None,
        r->Ok_0.in_graph,
        r->Ok_0.grad_fn == Some(before.len() as usize),
        after.last().sources() == parents,
{
}

/// A transpose undoes a transpose, outside the graph.
pub proof fn law_transpose_twice<F, D>(m: TensorModel<F, D>)
    requires
        m.valid(),
        m.shape.len() >= 2,
    ensures
        with_axes(
            with_axes(m, swapped_axes(m.shape.len())).detached(),
            swapped_axes(m.shape.len()),
        ).detached() == m.detached(),
{
    let axes = swapped_axes(m.shape.len());
    let t = with_axes(m, axes).detached();
    assert(with_axes(t, axes).detached() =~= m.detached());
}

/// Taking an axis of size one out undoes putting it in.
pub proof fn law_squeeze_undoes_unsqueeze<F, D>(m: TensorModel<F, D>, ax: int)
    requires
        m.valid(),
        0 <= ax <= m.shape.len(),
    ensures
        with_axes(unsqueezed(m, ax), other_axes(m.shape.len() + 1, ax)) == m,
{
    assert(with_axes(unsqueezed(m, ax), other_axes(m.shape.len() + 1, ax)) =~= m);
}

/// A reshape of row-major data is undone by a reshape to the former shape.
pub proof fn law_reshape_back<S: Scalars>(
    m: Model<S>,
    new: Seq<isize>,
    there: Model<S>,
    back: Model<S>,
)
    requires
        m.valid(),
        m.contiguous(),
        askable(m.shape),
        reshape_out::<S>(m, new, Ok(there)),
        reshape_out::<S>(there, signed(m.shape), Ok(back)),
    ensures
        back == m,
{
    assert forall|i: int| 0 <= i < m.shape.len() implies reshaped(there.shape, signed(m.shape))[i]
        == m.shape[i] by {
        assert(m.shape[i] <= isize::MAX);
    }
    assert(reshaped(there.shape, signed(m.shape)) =~= m.shape);
    assert(back =~= m);
}

/// Every element is a zero.
pub open spec fn each_zero<S: Scalars>(data: Data<S::F, S::D>) -> bool {
    match data {
        Data::F32(v) => forall|i: int|
            0 <= i < v.len() ==> is_zero::<S::F, S>(#[trigger] v[i]),
        Data::F64(v) => forall|i: int|
            0 <= i < v.len() ==> is_zero::<S::D, S>(#[trigger] v[i]),
        Data::I64(v) => false,
    }
}

/// A sum of nothing is zero.
pub proof fn law_empty_sum_is_zero<S: Scalars>(
    x: Model<S>,
    axes: Option<Seq<isize>>,
    keepdims: bool,
    t: Model<S>,
)
    requires
        sum_out::<S>(x, axes, keepdims, Ok(t)),
        volume(x.shape) == 0,
    ensures
        each_zero::<S>(t.data),
{
}

/// A mean of nothing is undefined.
pub proof fn law_empty_mean_is_undefined<S: Scalars>(
    x: Model<S>,
    axes: Option<Seq<isize>>,
    keepdims: bool,
    t: Model<S>,
)
    requires
        mean_out::<S>(x, axes, keepdims, Ok(t)),
        axes_product(x.shape, asked_axes(axes, x.shape.len())) == 0,
    ensures
        all_undefined::<S>(t.data),
{
}

/// `x` is above no zero.
pub open spec fn above_no_zero<T, A: Arith<T>>(x: T) -> bool {
    forall|z: T| is_zero::<T, A>(z) ==> !#[trigger] call_ensures(A::above, (x, z), true)
}

/// Element `i` is above no zero.
pub open spec fn not_above_zero<S: Scalars>(data: Data<S::F, S::D>, i: int) -> bool {
    match data {
        Data::F32(v) => above_no_zero::<S::F, S>(v[i]),
        Data::F64(v) => above_no_zero::<S::D, S>(v[i]),
        Data::I64(v) => false,
    }
}

/// Element `i` is a zero.
pub open spec fn zero_at<S: Scalars>(data: Data<S::F, S::D>, i: int) -> bool {
    match data {
        Data::F32(v) => is_zero::<S::F, S>(v[i]),
        Data::F64(v) => is_zero::<S::D, S>(v[i]),
        Data::I64(v) => false,
    }
}

/// What is above no zero lets nothing through.
proof fn lemma_gated_zero<T, A: Arith<T>>(x: T, g: T, y: T)
    requires
        gated_of::<T, A>(x, g, y),
        above_no_zero::<T, A>(x),
    ensures
        is_zero::<T, A>(y),
{
    let (z, up) = choose|z: T, up: bool| #[trigger]
        is_zero::<T, A>(z) && #[trigger] call_ensures(A::above, (x, z), up) && y == if up {
            g
        } else {
            z
        };
    if up {
        assert(call_ensures(A::above, (x, z), true));
    }
}

/// The derivative of ReLU at zero is zero: where an element of its argument is above no zero, the
/// piece is a zero, whatever the cotangent.
pub proof fn law_relu_flat_at_zero<S: Scalars>(
    x: Model<S>,
    gy: Model<S>,
    parts: Seq<Model<S>>,
    i: int,
)
    requires
        rule_parts::<S>(RuleModel::Relu { x }, gy, Ok(parts)),
        0 <= i < volume(x.shape),
        not_above_zero::<S>(x.elems(), i),
    ensures
        zero_at::<S>(parts[0].data, i),
{
    reveal(relu_parts);
    let r: Result<Seq<Model<S>>, Error> = Ok(parts);
    let o = choose|o: Outcome<S>| #[trigger]
        relu_back_out::<S>(x, gy, o) && passes(o, r, gives(r, seq![o->Ok_0]));
    match x.dtype() {
        Dtype::F32 => {
            let v = choose|v: Seq<S::F>| #[trigger]
                gates_all::<S::F, S>(x.f32s(), gy.f32s(), v) && from_f32s_out::<S>(v, x.shape, o);
            lemma_gated_zero::<S::F, S>(x.f32s()[i], gy.f32s()[i], v[i]);
        },
        Dtype::F64 => {
            let v = choose|v: Seq<S::D>| #[trigger]
                gates_all::<S::D, S>(x.f64s(), gy.f64s(), v) && from_f64s_out::<S>(v, x.shape, o);
            lemma_gated_zero::<S::D, S>(x.f64s()[i], gy.f64s()[i], v[i]);
        },
        Dtype::I64 => {},
    }
}

} // verus!
