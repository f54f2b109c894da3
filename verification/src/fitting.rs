//! What is recorded fits: every tracked operation records a rule that hands out pieces of its
//! parents' shapes.
use vstd::prelude::*;
use crate::ad::{
    abs_tracked, add_tracked, clamp_tracked, div_tracked, exp_tracked, gated_scan_tracked,
    gather_tracked, gelu_tracked, identity_tracked, leaky_relu_tracked, log_tracked,
    matmul_tracked, mean_tracked, mul_tracked, relu_tracked, reshape_tracked, rms_norm_tracked,
    sigmoid_tracked, silu_tracked, softplus_tracked, sqrt_tracked, stop_gradient_tracked,
    sub_tracked, sum_tracked, take_tracked, tanh_tracked, transpose_tracked, unsqueeze_tracked,
};
use crate::ad_axes::{amax_tracked, cat_tracked, joint_axis, slice_recorded};
use crate::ad_fused::{
    block_in_graph, block_rule, block_sources, embedding_fused_tracked, first_of,
    fused_block_tracked, masked_ce_tracked,
};
use crate::block_shapes::{law_block_keeps_shapes, BlockSizes};
use crate::classes::{embedding_tracked, nll_recorded, nll_values_out};
use crate::error::Error;
use crate::extremes::{maximum_tracked, minimum_tracked};
use crate::fused::{fused_block_fwd_out, AuxModel, BlockSlopesModel, WeightsModel};
use crate::index::chosen;
use crate::joining::{cat_ready, cat_shape, cat_sized, joins, sizes, total};
use crate::laws::askable;
use crate::nodes::{produced, recorded, tracked_out, Node, RuleModel};
use crate::outline::Outline;
use crate::pieces::{graph_fits, lemma_joined_kept, lemma_joined_same, rule_fits, shapes_of};
use crate::reduce::{asked_axes, marked, one_marked};
use crate::rules::{axis_alone, slope_list};
use crate::scalar::Scalars;
use crate::shape::{axis_at, axis_ok};
use crate::softmax::{log_softmax_tracked, log_values_out, softmax_tracked};
use crate::tape::{all_within, ordered, within, Backward};
use crate::tensor::{Model, Outcome};
use crate::views::{other_axes, swapped_axes, Range3};

verus! {

/// Where a node was recorded, its rule fits its parents and the result.
pub open spec fn fitted<S: Scalars>(
    before: Seq<Node<S>>,
    after: Seq<Node<S>>,
    r: Outcome<S>,
) -> bool {
    after.len() > before.len() ==> r is Ok && rule_fits::<S>(
        after.last().rule@,
        shapes_of::<S>(after.last().sources()),
        r->Ok_0.shape,
    )
}

/// The shapes of one and of two tensors.
proof fn lemma_shapes<S: Scalars>(a: Model<S>, b: Model<S>)
    ensures
        shapes_of::<S>(seq![a]) == seq![a.shape],
        shapes_of::<S>(seq![a, b]) == seq![a.shape, b.shape],
{
    assert(shapes_of::<S>(seq![a]) =~= seq![a.shape]);
    assert(shapes_of::<S>(seq![a, b]) =~= seq![a.shape, b.shape]);
}

/// One of the operations on two tensors.
pub open spec fn one_of_pairs<S: Scalars>(
    before: Seq<Node<S>>,
    after: Seq<Node<S>>,
    a: Model<S>,
    b: Model<S>,
    r: Outcome<S>,
) -> bool {
    ||| add_tracked::<S>(before, after, a, b, r)
    ||| sub_tracked::<S>(before, after, a, b, r)
    ||| mul_tracked::<S>(before, after, a, b, r)
    ||| div_tracked::<S>(before, after, a, b, r)
    ||| matmul_tracked::<S>(before, after, a, b, r)
    ||| maximum_tracked::<S>(before, after, a, b, r)
    ||| minimum_tracked::<S>(before, after, a, b, r)
    ||| gated_scan_tracked::<S>(before, after, a, b, r)
}

/// An operation on two tensors records a rule that fits them, however they are broadcast.
pub proof fn law_pairs_fit<S: Scalars>(
    before: Seq<Node<S>>,
    after: Seq<Node<S>>,
    a: Model<S>,
    b: Model<S>,
    r: Outcome<S>,
)
    requires
        askable(a.shape),
        askable(b.shape),
        one_of_pairs::<S>(before, after, a, b, r),
    ensures
        fitted::<S>(before, after, r),
{
    lemma_shapes::<S>(a, b);
}

/// One of the elementwise operations.
pub open spec fn one_of_curves<S: Scalars>(
    before: Seq<Node<S>>,
    after: Seq<Node<S>>,
    x: Model<S>,
    r: Outcome<S>,
) -> bool {
    ||| relu_tracked::<S>(before, after, x, r)
    ||| tanh_tracked::<S>(before, after, x, r)
    ||| exp_tracked::<S>(before, after, x, r)
    ||| log_tracked::<S>(before, after, x, r)
    ||| sqrt_tracked::<S>(before, after, x, r)
    ||| abs_tracked::<S>(before, after, x, r)
    ||| softplus_tracked::<S>(before, after, x, r)
    ||| gelu_tracked::<S>(before, after, x, r)
}

proof fn lemma_curves_fit<S: Scalars>(
    before: Seq<Node<S>>,
    after: Seq<Node<S>>,
    x: Model<S>,
    r: Outcome<S>,
)
    requires
        one_of_curves::<S>(before, after, x, r),
    ensures
        fitted::<S>(before, after, r),
{
    lemma_shapes::<S>(x, x);
    lemma_joined_same(x.shape);
}

proof fn lemma_sigmoids_fit<S: Scalars>(
    before: Seq<Node<S>>,
    after: Seq<Node<S>>,
    x: Model<S>,
    r: Outcome<S>,
)
    requires
        sigmoid_tracked::<S>(before, after, x, r) || silu_tracked::<S>(before, after, x, r),
    ensures
        fitted::<S>(before, after, r),
{
    lemma_shapes::<S>(x, x);
    lemma_joined_same(x.shape);
}

proof fn lemma_transpose_fits<S: Scalars>(
    before: Seq<Node<S>>,
    after: Seq<Node<S>>,
    x: Model<S>,
    r: Outcome<S>,
)
    requires
        transpose_tracked::<S>(before, after, x, r),
    ensures
        fitted::<S>(before, after, r),
{
    lemma_shapes::<S>(x, x);
    let axes = swapped_axes(x.shape.len());
    assert(x.shape.len() >= 2 ==> chosen(chosen(x.shape, axes), axes) =~= x.shape);
}

/// One of the operations on one tensor.
pub open spec fn one_of_singles<S: Scalars>(
    before: Seq<Node<S>>,
    after: Seq<Node<S>>,
    x: Model<S>,
    r: Outcome<S>,
) -> bool {
    ||| relu_tracked::<S>(before, after, x, r)
    ||| tanh_tracked::<S>(before, after, x, r)
    ||| exp_tracked::<S>(before, after, x, r)
    ||| log_tracked::<S>(before, after, x, r)
    ||| sqrt_tracked::<S>(before, after, x, r)
    ||| abs_tracked::<S>(before, after, x, r)
    ||| sigmoid_tracked::<S>(before, after, x, r)
    ||| silu_tracked::<S>(before, after, x, r)
    ||| softplus_tracked::<S>(before, after, x, r)
    ||| gelu_tracked::<S>(before, after, x, r)
    ||| transpose_tracked::<S>(before, after, x, r)
    ||| stop_gradient_tracked::<S>(before, after, x, r)
    ||| identity_tracked::<S>(before, after, x, r)
}

/// An operation on one tensor records a rule that fits it.
pub proof fn law_singles_fit<S: Scalars>(
    before: Seq<Node<S>>,
    after: Seq<Node<S>>,
    x: Model<S>,
    r: Outcome<S>,
)
    requires
        one_of_singles::<S>(before, after, x, r),
    ensures
        fitted::<S>(before, after, r),
{
    if transpose_tracked::<S>(before, after, x, r) {
        lemma_transpose_fits::<S>(before, after, x, r);
    } else if sigmoid_tracked::<S>(before, after, x, r) || silu_tracked::<S>(before, after, x, r) {
        lemma_sigmoids_fit::<S>(before, after, x, r);
    } else if stop_gradient_tracked::<S>(before, after, x, r) || identity_tracked::<S>(
        before,
        after,
        x,
        r,
    ) {
        lemma_shapes::<S>(x, x);
    } else {
        lemma_curves_fit::<S>(before, after, x, r);
    }
}

/// So do a leaky ReLU and a clamp.
pub proof fn law_bends_fit<S: Scalars>(
    before: Seq<Node<S>>,
    after: Seq<Node<S>>,
    x: Model<S>,
    low: S::D,
    high: S::D,
    r: Outcome<S>,
)
    requires
        leaky_relu_tracked::<S>(before, after, x, low, r) || clamp_tracked::<S>(
            before,
            after,
            x,
            low,
            high,
            r,
        ),
    ensures
        fitted::<S>(before, after, r),
{
    lemma_shapes::<S>(x, x);
}

/// So do a sum and a mean, whatever the axes.
pub proof fn law_reductions_fit<S: Scalars>(
    before: Seq<Node<S>>,
    after: Seq<Node<S>>,
    x: Model<S>,
    axes: Option<Seq<isize>>,
    keep: bool,
    r: Outcome<S>,
)
    requires
        sum_tracked::<S>(before, after, x, axes, keep, r) || mean_tracked::<S>(
            before,
            after,
            x,
            axes,
            keep,
            r,
        ),
    ensures
        fitted::<S>(before, after, r),
{
    lemma_shapes::<S>(x, x);
}

proof fn lemma_unsqueeze_fits<S: Scalars>(
    before: Seq<Node<S>>,
    after: Seq<Node<S>>,
    x: Model<S>,
    axis: isize,
    r: Outcome<S>,
)
    requires
        unsqueeze_tracked::<S>(before, after, x, axis, r),
    ensures
        fitted::<S>(before, after, r),
{
    lemma_shapes::<S>(x, x);
    let rank = (x.shape.len() + 1) as int;
    let ax = axis_at(axis as int, rank);
    if axis_ok(axis as int, rank) {
        let out = x.shape.insert(ax, 1);
        assert(chosen(out, other_axes(out.len(), ax)) =~= x.shape);
    }
}

/// The logarithm of a softmax has the shape of its argument.
proof fn lemma_log_shape<S: Scalars>(x: Model<S>, axis: isize, y: Model<S>)
    requires
        log_values_out::<S>(x, axis, Ok(y)),
    ensures
        y.shape == x.shape,
{
    let s = x.shape;
    let rank = s.len() as int;
    let ax = axis_at(axis as int, rank);
    lemma_joined_same(s);
    if axis_ok(axis as int, rank) {
        let at = ax as usize;
        lemma_joined_kept(s, one_marked(s.len(), at as int));
        lemma_joined_kept(s, marked(asked_axes(axis_alone(at), s.len()), s.len()));
    }
}

proof fn lemma_softmax_fits<S: Scalars>(
    before: Seq<Node<S>>,
    after: Seq<Node<S>>,
    x: Model<S>,
    axis: isize,
    r: Outcome<S>,
)
    requires
        softmax_tracked::<S>(before, after, x, axis, r) || log_softmax_tracked::<S>(
            before,
            after,
            x,
            axis,
            r,
        ),
    ensures
        fitted::<S>(before, after, r),
{
    lemma_shapes::<S>(x, x);
    assert forall|y: Outcome<S>| #[trigger]
        log_values_out::<S>(x, axis, y) && y is Ok implies y->Ok_0.shape == x.shape by {
        lemma_log_shape::<S>(x, axis, y->Ok_0);
    }
}

/// One of the operations along one axis.
pub open spec fn one_of_axis<S: Scalars>(
    before: Seq<Node<S>>,
    after: Seq<Node<S>>,
    x: Model<S>,
    axis: isize,
    r: Outcome<S>,
) -> bool {
    ||| unsqueeze_tracked::<S>(before, after, x, axis, r)
    ||| softmax_tracked::<S>(before, after, x, axis, r)
    ||| log_softmax_tracked::<S>(before, after, x, axis, r)
    ||| amax_tracked::<S>(before, after, x, axis, true, r)
    ||| amax_tracked::<S>(before, after, x, axis, false, r)
}

/// An operation along one axis records a rule that fits its argument.
pub proof fn law_axis_fits<S: Scalars>(
    before: Seq<Node<S>>,
    after: Seq<Node<S>>,
    x: Model<S>,
    axis: isize,
    r: Outcome<S>,
)
    requires
        one_of_axis::<S>(before, after, x, axis, r),
    ensures
        fitted::<S>(before, after, r),
{
    lemma_shapes::<S>(x, x);
    if unsqueeze_tracked::<S>(before, after, x, axis, r) {
        lemma_unsqueeze_fits::<S>(before, after, x, axis, r);
    } else if softmax_tracked::<S>(before, after, x, axis, r) || log_softmax_tracked::<S>(
        before,
        after,
        x,
        axis,
        r,
    ) {
        lemma_softmax_fits::<S>(before, after, x, axis, r);
    }
}

/// A gather and a take record rules that fit what they pick from.
pub proof fn law_picks_fit<S: Scalars>(
    before: Seq<Node<S>>,
    after: Seq<Node<S>>,
    x: Model<S>,
    axis: isize,
    index: Model<S>,
    r: Outcome<S>,
)
    requires
        gather_tracked::<S>(before, after, x, axis, index, r) || take_tracked::<S>(
            before,
            after,
            x,
            axis,
            index,
            r,
        ),
    ensures
        fitted::<S>(before, after, r),
{
    lemma_shapes::<S>(x, x);
}

/// A slice records a rule that fits what was sliced.
pub proof fn law_slice_fits<S: Scalars>(
    before: Seq<Node<S>>,
    after: Seq<Node<S>>,
    x: Model<S>,
    ranges: Seq<Range3>,
    r: Outcome<S>,
)
    requires
        slice_recorded::<S>(before, after, x, ranges, r),
    ensures
        fitted::<S>(before, after, r),
{
    lemma_shapes::<S>(x, x);
}

/// A reshape records a rule that fits its argument.
pub proof fn law_reshape_fits<S: Scalars>(
    before: Seq<Node<S>>,
    after: Seq<Node<S>>,
    x: Model<S>,
    shape: Seq<isize>,
    r: Outcome<S>,
)
    requires
        askable(x.shape),
        reshape_tracked::<S>(before, after, x, shape, r),
    ensures
        fitted::<S>(before, after, r),
{
    lemma_shapes::<S>(x, x);
}

/// A concatenation records a rule that fits what it joins.
pub proof fn law_cat_fits<S: Scalars>(
    before: Seq<Node<S>>,
    after: Seq<Node<S>>,
    ms: Seq<Model<S>>,
    axis: isize,
    r: Outcome<S>,
)
    requires
        cat_tracked::<S>(before, after, ms, axis, r),
        cat_sized(ms, axis as int),
        ms.len() > 0 ==> ms[0].shape.len() <= usize::MAX,
    ensures
        fitted::<S>(before, after, r),
{
    let ax = joint_axis::<S>(ms, axis as int);
    if cat_ready(ms, axis as int) {
        let out = cat_shape(ms, ax);
        let shapes = shapes_of::<S>(ms);
        let sizes = sizes(ms, ax);
        lemma_total_at_least_zero(sizes);
        assert forall|i: int| 0 <= i < shapes.len() implies #[trigger] shapes[i] == out.update(
            ax,
            sizes[i],
        ) by {
            assert(joins(ms, ax, i));
            assert(shapes[i] =~= out.update(ax, sizes[i]));
        }
    }
}

proof fn lemma_total_at_least_zero(sizes: Seq<usize>)
    ensures
        total(sizes) >= 0,
    decreases sizes.len(),
{
    if sizes.len() > 0 {
        lemma_total_at_least_zero(sizes.drop_last());
    }
}

/// An RMS normalization records a rule that fits its argument.
pub proof fn law_rms_norm_fits<S: Scalars>(
    before: Seq<Node<S>>,
    after: Seq<Node<S>>,
    x: Model<S>,
    eps: S::F,
    r: Outcome<S>,
)
    requires
        rms_norm_tracked::<S>(before, after, x, eps, r),
    ensures
        fitted::<S>(before, after, r),
{
    lemma_shapes::<S>(x, x);
}

/// Lookups record rules that fit their table.
pub proof fn law_lookups_fit<S: Scalars>(
    before: Seq<Node<S>>,
    after: Seq<Node<S>>,
    table: Model<S>,
    idx: Model<S>,
    r: Outcome<S>,
)
    requires
        askable(table.shape),
        embedding_fused_tracked::<S>(before, after, table, idx, r) || embedding_tracked::<S>(
            before,
            after,
            table,
            idx,
            r,
        ),
    ensures
        fitted::<S>(before, after, r),
{
    lemma_shapes::<S>(table, table);
}

/// A masked loss records a rule that fits its logits.
pub proof fn law_masked_ce_fits<S: Scalars>(
    before: Seq<Node<S>>,
    after: Seq<Node<S>>,
    logits: Model<S>,
    targets: Model<S>,
    mask: Model<S>,
    r: Outcome<S>,
)
    requires
        masked_ce_tracked::<S>(before, after, logits, targets, mask, r),
    ensures
        fitted::<S>(before, after, r),
{
    lemma_shapes::<S>(logits, logits);
}

/// A negative log-likelihood records a rule that fits its argument.
pub proof fn law_nll_fits<S: Scalars>(
    before: Seq<Node<S>>,
    after: Seq<Node<S>>,
    lp: Model<S>,
    targets: Model<S>,
    y: Outcome<S>,
    r: Outcome<S>,
)
    requires
        nll_values_out::<S>(lp, targets, y),
        nll_recorded::<S>(before, after, lp, targets, y, r),
    ensures
        fitted::<S>(before, after, r),
{
    lemma_shapes::<S>(lp, lp);
    assert(lp.shape.len() == 2 ==> lp.shape =~= seq![lp.shape[0], lp.shape[1]]);
}

/// The rule of a fused block fits its input and its weights.
proof fn lemma_block_rule_fits<S: Scalars>(
    z: BlockSizes,
    x: Model<S>,
    w: WeightsModel<S>,
    eps: S::F,
    aux: AuxModel<S>,
)
    requires
        z.weighs::<S>(w),
        z.keeps::<S>(aux),
        x.shape == z.steps_of(z.features),
    ensures
        rule_fits::<S>(
            block_rule::<S>(aux, w, eps),
            shapes_of::<S>(block_sources::<S>(x, w)),
            x.shape,
        ),
{
    let kept = WeightsModel {
        wa: w.wa.detached(),
        wb: w.wb.detached(),
        wo: w.wo.detached(),
        wf1: w.wf1.detached(),
        wf2: w.wf2.detached(),
        g1: w.g1.detached(),
        g2: w.g2.detached(),
        g3: w.g3.detached(),
        g4: w.g4.detached(),
    };
    assert(z.keeps::<S>(aux) && z.weighs::<S>(kept));
    let list = slope_list::<S>(BlockSlopesModel { x: aux.x, w: kept });
    assert(shapes_of::<S>(block_sources::<S>(x, w)) =~= shapes_of::<S>(list));
}

/// A fused block of any sizes records a rule that fits its input and its weights.
pub proof fn law_block_fits<S: Scalars>(
    before: Seq<Node<S>>,
    after: Seq<Node<S>>,
    z: BlockSizes,
    x: Model<S>,
    w: WeightsModel<S>,
    eps: S::F,
    r: Outcome<S>,
)
    requires
        z.weighs::<S>(w),
        x.shape == z.steps_of(z.features),
        fused_block_tracked::<S>(before, after, x, w, eps, r),
    ensures
        fitted::<S>(before, after, r),
{
    let o = choose|o: Result<(Model<S>, AuxModel<S>), Error>| #[trigger]
        fused_block_fwd_out::<S>(x, w, eps, o) && tracked_out::<S>(
            before,
            after,
            block_in_graph::<S>(x, w),
            first_of(o),
            block_sources::<S>(x, w),
            block_rule::<S>(o->Ok_0.1, w, eps),
            r,
        );
    if o is Ok {
        let (y, aux) = o->Ok_0;
        law_block_keeps_shapes::<S>(z, x, w, eps, y, aux);
        lemma_block_rule_fits::<S>(z, x, w, eps, aux);
    }
}

/// Recording keeps a graph fit: where every tensor had the shape of its node and of its leaf, and
/// the new node fits, this still holds, with the result's shape as that of the new node.
pub proof fn law_recording_keeps_fit<S: Scalars>(
    before: Seq<Node<S>>,
    after: Seq<Node<S>>,
    shapes: Outline,
    parents: Seq<Model<S>>,
    rule: RuleModel<S>,
    y: Model<S>,
)
    requires
        graph_fits::<S>(before, shapes),
        shapes.nodes.len() == before.len(),
        before.len() <= usize::MAX,
        ordered::<S, Node<S>>(after, shapes.leaves.len() as int),
        shapes.holds_all::<S>(parents),
        recorded::<S>(before, after, parents, rule),
        fitted::<S>(before, after, Ok(produced::<S>(y, before.len() as int))),
    ensures
        graph_fits::<S>(after, shapes.grown(y.shape)),
        shapes.grown(y.shape).holds::<S>(produced::<S>(y, before.len() as int)),
{
    let more = shapes.grown(y.shape);
    let last = before.len() as int;
    assert forall|n: int| 0 <= n < after.len() implies more.holds_all::<S>(
        (#[trigger] after[n]).sources(),
    ) && rule_fits::<S>(
        after[n].rule@,
        shapes_of::<S>(after[n].sources()),
        more.nodes[n],
    ) by {
        let ps = after[n].sources();
        if n < last {
            assert(after[n] == after.drop_last()[n]);
            assert(after[n] == before[n]);
        }
        assert(shapes.holds_all::<S>(ps));
        assert(all_within(ps, n, shapes.leaves.len() as int));
        assert forall|i: int| 0 <= i < ps.len() implies more.holds::<S>(#[trigger] ps[i]) by {
            assert(shapes.holds::<S>(ps[i]));
            assert(within(ps[i], n, shapes.leaves.len() as int));
        }
    }
}

} // verus!
