//! Pieces of a cotangent have the shapes of the tensors that they go to.
use vstd::prelude::*;
use crate::block_shapes::{law_block_slopes_fit, BlockSizes};
use crate::cpu::{mul_out, neg_out};
use crate::dtype::Dtype;
use crate::error::Error;
use crate::fused::{fused_block_bwd_out, AuxModel, BlockSlopesModel, WeightsModel};
use crate::guarded::cut_out;
use crate::index::chosen;
use crate::joining::total;
use crate::laws::{askable, law_add_pieces_fit, law_mul_pieces_fit, law_unbroadcast_shape};
use crate::matmul::matmul_out;
use crate::nodes::{rule_parts, Node, RuleModel};
use crate::outline::{law_gradients_have_input_shapes, node_fits, nodes_fit, Outline};
use crate::reduce::{asked_axes, kept_shape, marked};
use crate::routes::{amax_parts, band, cat_parts, lookup_parts, nll_parts, slice_parts};
use crate::rules::{
    axis_alone, block_parts, embedding_parts, gather_parts, local_parts, log_softmax_parts,
    masked_parts, matmul_first, matmul_left, matmul_parts, matmul_right, matmul_turned, mean_parts,
    mean_scaled_parts, pair_first, pair_other, pair_parts, pair_second, relu_parts, reshape_parts,
    rms_parts, scaled_parts, scan_parts, signed, slope_list, softmax_parts, stop_parts, sub_parts,
    sub_second, sum_parts, take_parts, tanh_parts, transpose_parts, unbroadcast_out,
    unsqueeze_parts,
};
use crate::scalar::Scalars;
use crate::shape::{axis_at, axis_ok, joined, reshaped};
use crate::tape::{all_within, grad_out, none_seen, ordered, visit, within, Backward};
use crate::tensor::{gives, passes, Model, Outcome};
use crate::views::{
    other_axes, range_at, slice_end, slice_shape, slice_start, swapped_axes, transpose_out, Range3,
};

verus! {

/// The shapes of several tensors.
pub open spec fn shapes_of<S: Scalars>(ts: Seq<Model<S>>) -> Seq<Seq<usize>> {
    Seq::new(ts.len(), |i: int| ts[i].shape)
}

/// The rule was recorded for parents of these shapes and a product of shape `out`.
pub open spec fn rule_fits<S: Scalars>(
    rule: RuleModel<S>,
    shapes: Seq<Seq<usize>>,
    out: Seq<usize>,
) -> bool {
    match rule {
        RuleModel::Add { a_shape, b_shape } => two_fit(shapes, a_shape, b_shape),
        RuleModel::Sub { a_shape, b_shape } => two_fit(shapes, a_shape, b_shape),
        RuleModel::Mul { a, b } => two_fit(shapes, a.shape, b.shape),
        RuleModel::Pair { a_shape, b_shape, .. } => two_fit(shapes, a_shape, b_shape),
        RuleModel::Matmul { a, b } => two_fit(shapes, a.shape, b.shape),
        RuleModel::Relu { x } => shapes == seq![x.shape],
        RuleModel::Tanh { y } => shapes == seq![out] && y.shape == out,
        RuleModel::Sum { shape, .. } => shapes == seq![shape],
        RuleModel::Mean { shape, .. } => shapes == seq![shape],
        RuleModel::Stop => shapes == seq![out],
        RuleModel::Same => shapes == seq![out],
        RuleModel::Local { gx, .. } => shapes == seq![out] && gx.shape == out,
        RuleModel::Unsqueeze { at } => axis_ok(at as int, out.len() as int) && shapes == seq![
            chosen(out, other_axes(out.len(), axis_at(at as int, out.len() as int))),
        ],
        RuleModel::Cat { axis, sizes } => {
            &&& axis < out.len() && shapes.len() == sizes.len()
            &&& total(sizes) == out[axis as int]
            &&& forall|i: int|
                0 <= i < shapes.len() ==> #[trigger] shapes[i] == out.update(axis as int, sizes[i])
        },
        RuleModel::Gather { shape, .. } => shapes == seq![shape],
        RuleModel::Amax { x, .. } => shapes == seq![x.shape],
        RuleModel::Take { shape, .. } => shapes == seq![shape],
        RuleModel::Slice { shape, .. } => shapes == seq![shape],
        RuleModel::Transpose => shapes == seq![chosen(out, swapped_axes(out.len()))],
        RuleModel::Reshape { former } => shapes.len() == 1 && askable(shapes[0]) && former
            == signed(shapes[0]),
        RuleModel::Scan { a, .. } => shapes == seq![a.shape, a.shape],
        RuleModel::Rms { x, .. } => shapes == seq![x.shape],
        RuleModel::Embedding { table, .. } => shapes == seq![table.shape] && askable(table.shape),
        RuleModel::MaskedCe { probs, .. } => shapes == seq![probs.shape],
        RuleModel::Block { aux, wa, wb, wo, wf1, wf2, g1, g2, g3, g4, .. } => block_fits::<S>(
            aux,
            WeightsModel { wa, wb, wo, wf1, wf2, g1, g2, g3, g4 },
            shapes,
            out,
        ),
        RuleModel::Softmax { y, .. } => shapes == seq![out] && y.shape == out,
        RuleModel::LogSoftmax { y, .. } => shapes == seq![out] && y.shape == out,
        RuleModel::Nll { batch, classes, .. } => shapes == seq![seq![batch, classes]],
        RuleModel::Lookup { rows, .. } => shapes == seq![rows],
    }
}

/// A block of some sizes, whose input and weights have these shapes.
pub open spec fn block_fits<S: Scalars>(
    aux: AuxModel<S>,
    w: WeightsModel<S>,
    shapes: Seq<Seq<usize>>,
    out: Seq<usize>,
) -> bool {
    &&& shapes == shapes_of::<S>(slope_list::<S>(BlockSlopesModel { x: aux.x, w }))
    &&& exists|z: BlockSizes| #[trigger]
        z.keeps::<S>(aux) && z.weighs::<S>(w) && out == z.steps_of(z.features)
}

/// Two parents of shapes that a reshape can ask for.
pub open spec fn two_fit(shapes: Seq<Seq<usize>>, a: Seq<usize>, b: Seq<usize>) -> bool {
    shapes == seq![a, b] && askable(a) && askable(b)
}

/// The pieces have these shapes.
pub open spec fn parts_fit<S: Scalars>(parts: Seq<Model<S>>, shapes: Seq<Seq<usize>>) -> bool {
    &&& parts.len() == shapes.len()
    &&& forall|i: int| 0 <= i < parts.len() ==> (#[trigger] parts[i]).shape == shapes[i]
}

/// A shape joined with itself.
pub(crate) proof fn lemma_joined_same(s: Seq<usize>)
    ensures
        joined(s, s) == s,
{
    assert(joined(s, s) =~= s);
}

/// A shape joined with itself where some axes are reduced to one.
pub(crate) proof fn lemma_joined_kept(s: Seq<usize>, red: Seq<bool>)
    requires
        red.len() == s.len(),
    ensures
        joined(s, kept_shape(s, red, true)) == s,
        joined(kept_shape(s, red, true), s) == s,
{
    lemma_kept(s, red);
    assert(joined(s, kept_shape(s, red, true)) =~= s);
    assert(joined(kept_shape(s, red, true), s) =~= s);
}

proof fn lemma_kept(s: Seq<usize>, red: Seq<bool>)
    requires
        red.len() == s.len(),
    ensures
        kept_shape(s, red, true).len() == s.len(),
        forall|i: int|
            0 <= i < s.len() ==> #[trigger] kept_shape(s, red, true)[i] == if red[i] {
                1
            } else {
                s[i]
            },
    decreases s.len(),
{
    if s.len() > 0 {
        lemma_kept(s.drop_last(), red.drop_last());
    }
}

proof fn lemma_sub_shapes<S: Scalars>(
    a: Seq<usize>,
    b: Seq<usize>,
    gy: Model<S>,
    parts: Seq<Model<S>>,
)
    requires
        askable(a),
        askable(b),
        sub_parts::<S>(a, b, gy, Ok(parts)),
    ensures
        parts_fit::<S>(parts, seq![a, b]),
{
    reveal(sub_parts);
    law_unbroadcast_shape::<S>(gy, a, parts[0]);
    let r: Result<Seq<Model<S>>, Error> = Ok(parts);
    let m = choose|o: Outcome<S>| #[trigger]
        neg_out::<S>(gy, o) && passes(
            o,
            r,
            sub_second::<S>(b, parts[0], o->Ok_0, r),
        );
    law_unbroadcast_shape::<S>(m->Ok_0, b, parts[1]);
}

proof fn lemma_pair_shapes<S: Scalars>(
    da: Model<S>,
    db: Model<S>,
    a: Seq<usize>,
    b: Seq<usize>,
    gy: Model<S>,
    parts: Seq<Model<S>>,
)
    requires
        askable(a),
        askable(b),
        pair_parts::<S>(da, db, a, b, gy, Ok(parts)),
    ensures
        parts_fit::<S>(parts, seq![a, b]),
{
    reveal(pair_parts);
    let r: Result<Seq<Model<S>>, Error> = Ok(parts);
    let pa = choose|o: Outcome<S>| #[trigger]
        mul_out::<S>(gy, da, o) && passes(
            o,
            r,
            pair_first::<S>(db, a, b, gy, o->Ok_0, r),
        );
    let ga = choose|o: Outcome<S>| #[trigger]
        unbroadcast_out::<S>(pa->Ok_0, a, o) && passes(
            o,
            r,
            pair_other::<S>(db, b, gy, o->Ok_0, r),
        );
    let pb = choose|o: Outcome<S>| #[trigger]
        mul_out::<S>(gy, db, o) && passes(
            o,
            r,
            pair_second::<S>(b, ga->Ok_0, o->Ok_0, r),
        );
    law_unbroadcast_shape::<S>(pa->Ok_0, a, parts[0]);
    law_unbroadcast_shape::<S>(pb->Ok_0, b, parts[1]);
}

proof fn lemma_matmul_shapes<S: Scalars>(
    a: Model<S>,
    b: Model<S>,
    gy: Model<S>,
    parts: Seq<Model<S>>,
)
    requires
        askable(a.shape),
        askable(b.shape),
        matmul_parts::<S>(a, b, gy, Ok(parts)),
    ensures
        parts_fit::<S>(parts, seq![a.shape, b.shape]),
{
    reveal(matmul_parts);
    let r: Result<Seq<Model<S>>, Error> = Ok(parts);
    let bt = choose|o: Outcome<S>| #[trigger]
        transpose_out::<S>(b, o) && passes(
            o,
            r,
            matmul_left::<S>(a, b, gy, o->Ok_0, r),
        );
    let pa = choose|o: Outcome<S>| #[trigger]
        matmul_out::<S>(gy, bt->Ok_0, o) && passes(
            o,
            r,
            matmul_turned::<S>(a, b, gy, o->Ok_0, r),
        );
    let at = choose|o: Outcome<S>| #[trigger]
        transpose_out::<S>(a, o) && passes(
            o,
            r,
            matmul_right::<S>(a, b, gy, pa->Ok_0, o->Ok_0, r),
        );
    let pb = choose|o: Outcome<S>| #[trigger]
        matmul_out::<S>(at->Ok_0, gy, o) && passes(
            o,
            r,
            matmul_first::<S>(a, b, pa->Ok_0, o->Ok_0, r),
        );
    law_unbroadcast_shape::<S>(pa->Ok_0, a.shape, parts[0]);
    law_unbroadcast_shape::<S>(pb->Ok_0, b.shape, parts[1]);
}

proof fn lemma_relu_shapes<S: Scalars>(x: Model<S>, gy: Model<S>, parts: Seq<Model<S>>)
    requires
        relu_parts::<S>(x, gy, Ok(parts)),
    ensures
        parts_fit::<S>(parts, seq![x.shape]),
{
    reveal(relu_parts);
}

proof fn lemma_tanh_shapes<S: Scalars>(y: Model<S>, gy: Model<S>, parts: Seq<Model<S>>)
    requires
        y.shape == gy.shape,
        tanh_parts::<S>(y, gy, Ok(parts)),
    ensures
        parts_fit::<S>(parts, seq![gy.shape]),
{
    reveal(tanh_parts);
    lemma_joined_same(gy.shape);
}

proof fn lemma_sum_shapes<S: Scalars>(
    shape: Seq<usize>,
    marks: Seq<bool>,
    keep: bool,
    gy: Model<S>,
    parts: Seq<Model<S>>,
)
    requires
        sum_parts::<S>(shape, marks, keep, gy, Ok(parts)),
    ensures
        parts_fit::<S>(parts, seq![shape]),
{
    reveal(sum_parts);
}

proof fn lemma_mean_shapes<S: Scalars>(
    shape: Seq<usize>,
    marks: Seq<bool>,
    keep: bool,
    n: S::D,
    gy: Model<S>,
    parts: Seq<Model<S>>,
)
    requires
        mean_parts::<S>(shape, marks, keep, n, gy, Ok(parts)),
    ensures
        parts_fit::<S>(parts, seq![shape]),
{
    reveal(mean_parts);
    reveal(mean_scaled_parts);
}

proof fn lemma_stop_shapes<S: Scalars>(gy: Model<S>, parts: Seq<Model<S>>)
    requires
        stop_parts::<S>(gy, Ok(parts)),
    ensures
        parts_fit::<S>(parts, seq![gy.shape]),
{
    reveal(stop_parts);
}

proof fn lemma_local_shapes<S: Scalars>(gx: Model<S>, gy: Model<S>, parts: Seq<Model<S>>)
    requires
        gx.shape == gy.shape,
        local_parts::<S>(gx, gy, Ok(parts)),
    ensures
        parts_fit::<S>(parts, seq![gy.shape]),
{
    reveal(local_parts);
    lemma_joined_same(gy.shape);
}

proof fn lemma_unsqueeze_shapes<S: Scalars>(at: isize, gy: Model<S>, parts: Seq<Model<S>>)
    requires
        unsqueeze_parts::<S>(at, gy, Ok(parts)),
    ensures
        parts_fit::<S>(
            parts,
            seq![
                chosen(
                    gy.shape,
                    other_axes(gy.shape.len(), axis_at(at as int, gy.shape.len() as int)),
                ),
            ],
        ),
{
    reveal(unsqueeze_parts);
}

/// A band of a tensor has the size asked for along its axis.
proof fn lemma_band_shape(shape: Seq<usize>, axis: int, start: int, end: int)
    requires
        0 <= axis < shape.len(),
        0 <= start <= end <= shape[axis],
        end <= isize::MAX,
    ensures
        slice_shape(shape, band(shape.len(), axis, start, end)) == shape.update(
            axis,
            (end - start) as usize,
        ),
{
    let s = slice_shape(shape, band(shape.len(), axis, start, end));
    assert forall|k: int| 0 <= k < shape.len() implies s[k] == shape.update(
        axis,
        (end - start) as usize,
    )[k] by {
        let rg = range_at(band(shape.len(), axis, start, end), k);
        if k == axis {
            assert(slice_start(shape[k] as int, rg) == start);
            assert(slice_end(shape[k] as int, rg) == end);
        } else {
            assert(slice_start(shape[k] as int, rg) == 0);
            assert(slice_end(shape[k] as int, rg) == shape[k]);
        }
    }
    assert(s =~= shape.update(axis, (end - start) as usize));
}

/// One size more adds up to no less.
proof fn lemma_total_grows(sizes: Seq<usize>, i: int, n: int)
    requires
        0 <= i <= n <= sizes.len(),
    ensures
        0 <= total(sizes.take(i)) <= total(sizes.take(n)),
    decreases n,
{
    if n > 0 {
        assert(sizes.take(n).drop_last() =~= sizes.take(n - 1));
        if i < n {
            lemma_total_grows(sizes, i, n - 1);
        } else {
            lemma_total_grows(sizes, i - 1, n - 1);
        }
    }
}

proof fn lemma_cat_shapes<S: Scalars>(
    gy: Model<S>,
    axis: usize,
    sizes: Seq<usize>,
    i: int,
    done: Seq<Model<S>>,
    parts: Seq<Model<S>>,
)
    requires
        axis < gy.shape.len(),
        total(sizes) == gy.shape[axis as int],
        0 <= i <= sizes.len(),
        done.len() == i,
        forall|k: int|
            0 <= k < i ==> (#[trigger] done[k]).shape == gy.shape.update(axis as int, sizes[k]),
        cat_parts::<S>(gy, axis, sizes, i, total(sizes.take(i)), done, Ok(parts)),
    ensures
        parts.len() == sizes.len(),
        forall|k: int|
            0 <= k < parts.len() ==> (#[trigger] parts[k]).shape == gy.shape.update(
                axis as int,
                sizes[k],
            ),
    decreases sizes.len() - i,
{
    if i < sizes.len() {
        let r: Result<Seq<Model<S>>, Error> = Ok(parts);
        let start = total(sizes.take(i));
        let end = start + sizes[i];
        assert(sizes.take(i + 1).drop_last() =~= sizes.take(i));
        assert(end == total(sizes.take(i + 1)));
        assert(sizes.take(sizes.len() as int) =~= sizes);
        lemma_total_grows(sizes, i, i + 1);
        lemma_total_grows(sizes, i + 1, sizes.len() as int);
        let o = choose|o: Outcome<S>| #[trigger]
            cut_out::<S>(
                "cat"@,
                gy,
                band(gy.shape.len(), axis as int, start, end),
                o,
            ) && passes(
                o,
                r,
                cat_parts::<S>(gy, axis, sizes, i + 1, end, done.push(o->Ok_0), r),
            );
        lemma_band_shape(gy.shape, axis as int, start, end);
        let more = done.push(o->Ok_0);
        assert forall|k: int| 0 <= k < i + 1 implies (#[trigger] more[k]).shape == gy.shape.update(
            axis as int,
            sizes[k],
        ) by {
            if k < i {
                assert(more[k] == done[k]);
            }
        }
        lemma_cat_shapes::<S>(gy, axis, sizes, i + 1, more, parts);
    }
}

proof fn lemma_gather_shapes<S: Scalars>(
    at: isize,
    index: Model<S>,
    shape: Seq<usize>,
    gy: Model<S>,
    parts: Seq<Model<S>>,
)
    requires
        gather_parts::<S>(at, index, shape, gy, Ok(parts)),
    ensures
        parts_fit::<S>(parts, seq![shape]),
{
    reveal(gather_parts);
}

proof fn lemma_take_shapes<S: Scalars>(
    index: Model<S>,
    shape: Seq<usize>,
    gy: Model<S>,
    parts: Seq<Model<S>>,
)
    requires
        take_parts::<S>(index, shape, gy, Ok(parts)),
    ensures
        parts_fit::<S>(parts, seq![shape]),
{
    reveal(take_parts);
}

proof fn lemma_amax_shapes<S: Scalars>(
    x: Model<S>,
    axis: usize,
    keep: bool,
    gy: Model<S>,
    parts: Seq<Model<S>>,
)
    requires
        amax_parts::<S>(x, axis, keep, gy, Ok(parts)),
    ensures
        parts_fit::<S>(parts, seq![x.shape]),
{
    reveal(amax_parts);
}

proof fn lemma_slice_shapes<S: Scalars>(
    shape: Seq<usize>,
    ranges: Seq<Range3>,
    gy: Model<S>,
    parts: Seq<Model<S>>,
)
    requires
        slice_parts::<S>(shape, ranges, gy, Ok(parts)),
    ensures
        parts_fit::<S>(parts, seq![shape]),
{
    reveal(slice_parts);
}

proof fn lemma_transpose_shapes<S: Scalars>(gy: Model<S>, parts: Seq<Model<S>>)
    requires
        transpose_parts::<S>(gy, Ok(parts)),
    ensures
        parts_fit::<S>(parts, seq![chosen(gy.shape, swapped_axes(gy.shape.len()))]),
{
    reveal(transpose_parts);
}

proof fn lemma_reshape_shapes<S: Scalars>(
    shape: Seq<usize>,
    gy: Model<S>,
    parts: Seq<Model<S>>,
)
    requires
        askable(shape),
        reshape_parts::<S>(signed(shape), gy, Ok(parts)),
    ensures
        parts_fit::<S>(parts, seq![shape]),
{
    reveal(reshape_parts);
    let new = signed(shape);
    assert forall|i: int| 0 <= i < shape.len() implies reshaped(gy.shape, new)[i] == shape[i] by {
        assert(shape[i] <= isize::MAX);
        assert(new[i] == shape[i]);
    }
    assert(reshaped(gy.shape, new) =~= shape);
}

proof fn lemma_scan_shapes<S: Scalars>(
    a: Model<S>,
    h: Model<S>,
    gy: Model<S>,
    parts: Seq<Model<S>>,
)
    requires
        scan_parts::<S>(a, h, gy, Ok(parts)),
    ensures
        parts_fit::<S>(parts, seq![a.shape, a.shape]),
{
    reveal(scan_parts);
}

proof fn lemma_rms_shapes<S: Scalars>(x: Model<S>, eps: S::F, gy: Model<S>, parts: Seq<Model<S>>)
    requires
        rms_parts::<S>(x, eps, gy, Ok(parts)),
    ensures
        parts_fit::<S>(parts, seq![x.shape]),
{
    reveal(rms_parts);
}

proof fn lemma_embedding_shapes<S: Scalars>(
    table: Model<S>,
    idx: Model<S>,
    gy: Model<S>,
    parts: Seq<Model<S>>,
)
    requires
        embedding_parts::<S>(table, idx, gy, Ok(parts)),
        askable(table.shape),
    ensures
        parts_fit::<S>(parts, seq![table.shape]),
{
    reveal(embedding_parts);
}

proof fn lemma_masked_shapes<S: Scalars>(
    probs: Model<S>,
    targets: Model<S>,
    mask: Model<S>,
    gy: Model<S>,
    parts: Seq<Model<S>>,
)
    requires
        masked_parts::<S>(probs, targets, mask, gy, Ok(parts)),
    ensures
        parts_fit::<S>(parts, seq![probs.shape]),
{
    reveal(masked_parts);
    reveal(scaled_parts);
}

proof fn lemma_softmax_shapes<S: Scalars>(
    y: Model<S>,
    axis: usize,
    gy: Model<S>,
    parts: Seq<Model<S>>,
)
    requires
        y.shape == gy.shape,
        softmax_parts::<S>(y, axis, gy, Ok(parts)),
    ensures
        parts_fit::<S>(parts, seq![gy.shape]),
{
    reveal(softmax_parts);
    let s = gy.shape;
    lemma_joined_same(s);
    lemma_joined_kept(
        s,
        marked(
            asked_axes(axis_alone(axis), s.len()),
            s.len(),
        ),
    );
}

proof fn lemma_log_softmax_shapes<S: Scalars>(
    y: Model<S>,
    axis: usize,
    gy: Model<S>,
    parts: Seq<Model<S>>,
)
    requires
        y.shape == gy.shape,
        log_softmax_parts::<S>(y, axis, gy, Ok(parts)),
    ensures
        parts_fit::<S>(parts, seq![gy.shape]),
{
    reveal(log_softmax_parts);
    let s = gy.shape;
    lemma_joined_same(s);
    lemma_joined_kept(
        s,
        marked(
            asked_axes(axis_alone(axis), s.len()),
            s.len(),
        ),
    );
}

proof fn lemma_nll_shapes<S: Scalars>(
    targets: Model<S>,
    batch: usize,
    classes: usize,
    dtype: Dtype,
    gy: Model<S>,
    parts: Seq<Model<S>>,
)
    requires
        nll_parts::<S>(targets, batch, classes, dtype, gy, Ok(parts)),
    ensures
        parts_fit::<S>(parts, seq![seq![batch, classes]]),
{
    reveal(nll_parts);
}

proof fn lemma_lookup_shapes<S: Scalars>(
    indices: Model<S>,
    rows: Seq<usize>,
    gy: Model<S>,
    parts: Seq<Model<S>>,
)
    requires
        lookup_parts::<S>(indices, rows, gy, Ok(parts)),
    ensures
        parts_fit::<S>(parts, seq![rows]),
{
    reveal(lookup_parts);
}

proof fn lemma_block_shapes<S: Scalars>(
    aux: AuxModel<S>,
    w: WeightsModel<S>,
    eps: S::F,
    shapes: Seq<Seq<usize>>,
    gy: Model<S>,
    parts: Seq<Model<S>>,
)
    requires
        block_fits::<S>(aux, w, shapes, gy.shape),
        block_parts::<S>(aux, w, eps, gy, Ok(parts)),
    ensures
        parts_fit::<S>(parts, shapes),
{
    reveal(block_parts);
    let r: Result<Seq<Model<S>>, Error> = Ok(parts);
    let o = choose|o: Result<BlockSlopesModel<S>, Error>| #[trigger]
        fused_block_bwd_out::<S>(aux, w, eps, gy, o) && passes(
            o,
            r,
            gives(r, slope_list::<S>(o->Ok_0)),
        );
    let z = choose|z: BlockSizes| #[trigger]
        z.keeps::<S>(aux) && z.weighs::<S>(w) && gy.shape == z.steps_of(z.features);
    law_block_slopes_fit::<S>(z, aux, w, eps, gy, o->Ok_0);
    let from = slope_list::<S>(BlockSlopesModel { x: aux.x, w });
    assert forall|i: int| 0 <= i < parts.len() implies (#[trigger] parts[i]).shape == shapes[i] by {
        assert(shapes[i] == from[i].shape);
    }
}

/// Every rule hands out one piece to each parent, of the parent's shape, where the cotangent has
/// the shape of the product.
pub proof fn law_pieces_fit<S: Scalars>(
    rule: RuleModel<S>,
    shapes: Seq<Seq<usize>>,
    gy: Model<S>,
    parts: Seq<Model<S>>,
)
    requires
        rule_fits::<S>(rule, shapes, gy.shape),
        rule_parts::<S>(rule, gy, Ok(parts)),
    ensures
        parts_fit::<S>(parts, shapes),
{
    match rule {
        RuleModel::Add { a_shape, b_shape } => {
            law_add_pieces_fit::<S>(a_shape, b_shape, gy, parts);
        },
        RuleModel::Sub { a_shape, b_shape } => {
            lemma_sub_shapes::<S>(a_shape, b_shape, gy, parts);
        },
        RuleModel::Mul { a, b } => {
            law_mul_pieces_fit::<S>(a, b, gy, parts);
        },
        RuleModel::Pair { da, db, a_shape, b_shape, .. } => {
            lemma_pair_shapes::<S>(da, db, a_shape, b_shape, gy, parts);
        },
        RuleModel::Matmul { a, b } => {
            lemma_matmul_shapes::<S>(a, b, gy, parts);
        },
        RuleModel::Relu { x } => {
            lemma_relu_shapes::<S>(x, gy, parts);
        },
        RuleModel::Tanh { y } => {
            lemma_tanh_shapes::<S>(y, gy, parts);
        },
        RuleModel::Sum { shape, marks, keep } => {
            lemma_sum_shapes::<S>(shape, marks, keep, gy, parts);
        },
        RuleModel::Mean { shape, marks, keep, n } => {
            lemma_mean_shapes::<S>(shape, marks, keep, n, gy, parts);
        },
        RuleModel::Stop => {
            lemma_stop_shapes::<S>(gy, parts);
        },
        RuleModel::Same => {},
        RuleModel::Local { gx, .. } => {
            lemma_local_shapes::<S>(gx, gy, parts);
        },
        RuleModel::Unsqueeze { at } => {
            lemma_unsqueeze_shapes::<S>(at, gy, parts);
        },
        RuleModel::Cat { axis, sizes } => {
            assert(sizes.take(0) =~= Seq::empty());
            lemma_cat_shapes::<S>(gy, axis, sizes, 0, Seq::empty(), parts);
        },
        RuleModel::Gather { at, index, shape } => {
            lemma_gather_shapes::<S>(at, index, shape, gy, parts);
        },
        RuleModel::Amax { x, axis, keep } => {
            lemma_amax_shapes::<S>(x, axis, keep, gy, parts);
        },
        RuleModel::Take { index, shape } => {
            lemma_take_shapes::<S>(index, shape, gy, parts);
        },
        RuleModel::Slice { shape, ranges } => {
            lemma_slice_shapes::<S>(shape, ranges, gy, parts);
        },
        RuleModel::Transpose => {
            lemma_transpose_shapes::<S>(gy, parts);
        },
        RuleModel::Reshape { .. } => {
            lemma_reshape_shapes::<S>(shapes[0], gy, parts);
        },
        RuleModel::Scan { a, h } => {
            lemma_scan_shapes::<S>(a, h, gy, parts);
        },
        RuleModel::Rms { x, eps } => {
            lemma_rms_shapes::<S>(x, eps, gy, parts);
        },
        RuleModel::Embedding { table, idx } => {
            lemma_embedding_shapes::<S>(table, idx, gy, parts);
        },
        RuleModel::MaskedCe { probs, targets, mask } => {
            lemma_masked_shapes::<S>(probs, targets, mask, gy, parts);
        },
        RuleModel::Block { aux, wa, wb, wo, wf1, wf2, g1, g2, g3, g4, eps } => {
            let w = WeightsModel { wa, wb, wo, wf1, wf2, g1, g2, g3, g4 };
            lemma_block_shapes::<S>(aux, w, eps, shapes, gy, parts);
        },
        RuleModel::Softmax { y, axis } => {
            lemma_softmax_shapes::<S>(y, axis, gy, parts);
        },
        RuleModel::LogSoftmax { y, axis } => {
            lemma_log_softmax_shapes::<S>(y, axis, gy, parts);
        },
        RuleModel::Nll { targets, batch, classes, dtype } => {
            lemma_nll_shapes::<S>(targets, batch, classes, dtype, gy, parts);
        },
        RuleModel::Lookup { indices, rows } => {
            lemma_lookup_shapes::<S>(indices, rows, gy, parts);
        },
    }
}

/// Every tensor that the nodes hold has the shape of its node and of its leaf, and every node's
/// rule was recorded for its parents' shapes.
pub open spec fn graph_fits<S: Scalars>(nodes: Seq<Node<S>>, shapes: Outline) -> bool {
    forall|n: int|
        0 <= n < nodes.len() ==> shapes.holds_all::<S>((#[trigger] nodes[n]).sources())
            && rule_fits::<S>(nodes[n].rule@, shapes_of::<S>(nodes[n].sources()), shapes.nodes[n])
}

/// Gradient `i` of `grad` has the shape of input `i`, over any graph that was recorded for the
/// shapes of its tensors.
pub proof fn law_grad_shapes<S: Scalars>(
    nodes: Seq<Node<S>>,
    shapes: Outline,
    output: Model<S>,
    inputs: Seq<Model<S>>,
    before: Seq<Option<Model<S>>>,
    after: Seq<Option<Model<S>>>,
    gs: Seq<Model<S>>,
)
    requires
        graph_fits::<S>(nodes, shapes),
        shapes.holds::<S>(output),
        shapes.holds_all::<S>(inputs),
        shapes.nodes.len() == nodes.len(),
        shapes.leaves.len() == before.len(),
        ordered::<S, Node<S>>(nodes, before.len() as int),
        within(output, nodes.len() as int, before.len() as int),
        all_within(inputs, nodes.len() as int, before.len() as int),
        before.len() <= usize::MAX,
        grad_out::<S, Node<S>>(
            nodes,
            visit::<S, Node<S>>(nodes, output, none_seen(nodes.len(), before.len())),
            output,
            inputs,
            before,
            after,
            Ok(gs),
        ),
    ensures
        gs.len() == inputs.len(),
        forall|i: int| 0 <= i < gs.len() ==> (#[trigger] gs[i]).shape == inputs[i].shape,
{
    assert(nodes_fit::<S, Node<S>>(nodes, shapes)) by {
        assert forall|n: int| 0 <= n < nodes.len() implies shapes.holds_all::<S>(
            (#[trigger] nodes[n]).sources(),
        ) && node_fits::<S, Node<S>>(nodes[n], shapes.nodes[n]) by {
            let node = nodes[n];
            let rule = node.rule@;
            let out = shapes.nodes[n];
            let ps = node.sources();
            assert(rule_fits::<S>(rule, shapes_of::<S>(ps), out));
            assert forall|gy: Model<S>, o: Result<Seq<Model<S>>, Error>, i: int|
                #![trigger node.vjp(gy, o), o->Ok_0[i]]
                gy.shape == out && node.vjp(gy, o) && o is Ok && 0 <= i < o->Ok_0.len() && i
                    < ps.len() implies o->Ok_0[i].shape == ps[i].shape by {
                let parts = o->Ok_0;
                assert(rule_parts::<S>(rule, gy, Ok(parts)));
                law_pieces_fit::<S>(rule, shapes_of::<S>(ps), gy, parts);
                assert(parts[i].shape == shapes_of::<S>(ps)[i]);
            }
        }
    }
    law_gradients_have_input_shapes::<S, Node<S>>(
        nodes,
        shapes,
        output,
        inputs,
        before,
        after,
        gs,
    );
}

} // verus!
