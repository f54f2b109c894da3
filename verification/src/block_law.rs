//! The fused block and the block that is put together from tracked single operations have the same
//! value and the same gradients.
use vstd::prelude::*;
use crate::ad::{
    add_tracked, gated_scan_tracked, matmul_tracked, mul_tracked, rms_norm_tracked,
    sigmoid_local_out, sigmoid_sloped, sigmoid_tracked, silu_local_out, silu_sloped, silu_tracked,
    sloped_out,
};
use crate::ad_axes::{any_in_graph, cat_tracked, joint_axis};
use crate::ad_fused::block_sources;
use crate::block::{composed, law_block_is_composed, Stages};
use crate::block_flow::{
    bends, countable, feed_flows, gate_flows, law_stages_settle, lemma_block_flow, mix_flows,
    settled, Bends, Cotangents,
};
use crate::block_grads::{alike, one_sigmoid};
use crate::block_graph::{
    block_nodes, feed_nodes, feed_order, gate_nodes, gate_order, lemma_block_pass,
    lemma_block_walk, lists, loose, mix_nodes, mix_order, on_leaves,
};
use crate::block_shapes::{law_block_keeps_shapes, lemma_joined_last, BlockSizes};
use crate::cpu::{add_out, mul_out};
use crate::dtype::Dtype;
use crate::error::Error;
use crate::fused::{
    column_shape, fused_block_bwd_out, fused_block_fwd_out, AuxModel, BlockSlopesModel,
    WeightsModel,
};
use crate::joining::{all_f32s, all_f64s, cat_out, cat_shape, joins, sizes};
use crate::loss::count_of;
use crate::matmul::matmul_out;
use crate::nodes::{produced, tracked_out, Node, RuleModel};
use crate::repeat::{decided, law_grad_repeats};
use crate::ring::Ring;
use crate::rows::rms_norm_out;
use crate::rules::slope_list;
use crate::scalar::Scalars;
use crate::scan::gated_scan_out;
use crate::tape::{
    accumulates, cleared, collects, fresh_pass, grad_out, has_leaf, idle, leaf_is, none_seen,
    ordered, sweeps, visit, Backward, Key,
};
use crate::tensor::{ones_out, Model, Outcome};
use crate::unary::{sigmoid_out, silu_out};
use crate::unrolled::{lemma_waiting_put, passes_over, seen_of, waiting, walks};

verus! {

/// `y` is a layer block that tracked single operations put together on a graph without nodes: `s`
/// holds the nodes before and after each of them, and `u` what they give.
#[verifier::opaque]
pub open spec fn composed_tracked<S: Scalars>(
    s: Seq<Seq<Node<S>>>,
    x: Model<S>,
    w: WeightsModel<S>,
    eps: S::F,
    u: Stages<S>,
    y: Model<S>,
) -> bool {
    &&& s.len() == 19
    &&& s[0].len() == 0
    &&& rms_norm_tracked::<S>(s[0], s[1], x, eps, Ok(u.n1))
    &&& mul_tracked::<S>(s[1], s[2], u.n1, w.g1, Ok(u.xn))
    &&& ones_out::<S>(column_shape(x.shape), Dtype::F32, Ok(u.ones))
    &&& cat_tracked::<S>(s[2], s[3], seq![u.xn, u.ones], 2, Ok(u.xna))
    &&& matmul_tracked::<S>(s[3], s[4], u.xna, w.wa, Ok(u.ua))
    &&& sigmoid_tracked::<S>(s[4], s[5], u.ua, Ok(u.a))
    &&& matmul_tracked::<S>(s[5], s[6], u.xn, w.wb, Ok(u.ub))
    &&& gated_scan_tracked::<S>(s[6], s[7], u.a, u.ub, Ok(u.h))
    &&& mul_tracked::<S>(s[7], s[8], u.h, w.g2, Ok(u.hg))
    &&& silu_tracked::<S>(s[8], s[9], u.hg, Ok(u.s2))
    &&& matmul_tracked::<S>(s[9], s[10], u.s2, w.wo, Ok(u.so))
    &&& add_tracked::<S>(s[10], s[11], x, u.so, Ok(u.out1))
    &&& rms_norm_tracked::<S>(s[11], s[12], u.out1, eps, Ok(u.n2))
    &&& mul_tracked::<S>(s[12], s[13], u.n2, w.g3, Ok(u.xn2))
    &&& matmul_tracked::<S>(s[13], s[14], u.xn2, w.wf1, Ok(u.f1))
    &&& silu_tracked::<S>(s[14], s[15], u.f1, Ok(u.sf1))
    &&& matmul_tracked::<S>(s[15], s[16], u.sf1, w.wf2, Ok(u.f2))
    &&& mul_tracked::<S>(s[16], s[17], u.f2, w.g4, Ok(u.fg))
    &&& add_tracked::<S>(s[17], s[18], u.out1, u.fg, Ok(y))
}

/// The values outside any graph.
pub open spec fn values<S: Scalars>(u: Stages<S>) -> Stages<S> {
    Stages {
        n1: u.n1.detached(),
        xn: u.xn.detached(),
        ones: u.ones.detached(),
        xna: u.xna.detached(),
        ua: u.ua.detached(),
        a: u.a.detached(),
        ub: u.ub.detached(),
        h: u.h.detached(),
        hg: u.hg.detached(),
        s2: u.s2.detached(),
        so: u.so.detached(),
        out1: u.out1.detached(),
        n2: u.n2.detached(),
        xn2: u.xn2.detached(),
        f1: u.f1.detached(),
        sf1: u.sf1.detached(),
        f2: u.f2.detached(),
        fg: u.fg.detached(),
    }
}

/// One node more.
spec fn grows<S: Scalars>(before: Seq<Node<S>>, after: Seq<Node<S>>) -> bool {
    after.len() == before.len() + 1 && after.drop_last() == before
}

/// A node has been recorded on `n` others, and `r` is its product.
spec fn adds_node<S: Scalars>(
    before: Seq<Node<S>>,
    after: Seq<Node<S>>,
    n: int,
    parents: Seq<Model<S>>,
    rule: RuleModel<S>,
    r: Model<S>,
) -> bool {
    &&& grows::<S>(before, after)
    &&& after.len() == n + 1
    &&& lists::<S>(after.last(), parents, rule)
    &&& r == produced::<S>(r.detached(), n)
}

proof fn lemma_rms_step<S: Scalars>(
    before: Seq<Node<S>>,
    after: Seq<Node<S>>,
    x: Model<S>,
    eps: S::F,
    r: Model<S>,
    n: int,
)
    requires
        rms_norm_tracked::<S>(before, after, x, eps, Ok(r)),
        x.in_graph,
        before.len() == n,
    ensures
        adds_node::<S>(before, after, n, seq![x], RuleModel::Rms { x: x.detached(), eps }, r),
        rms_norm_out::<S>(x, eps, Ok(r.detached())),
        rms_norm_out::<S>(x.detached(), eps, Ok(r.detached())),
{
    let y = choose|y: Outcome<S>| #[trigger]
        rms_norm_out::<S>(x, eps, y) && tracked_out::<S>(
            before,
            after,
            x.in_graph,
            y,
            seq![x],
            RuleModel::Rms { x: x.detached(), eps },
            Ok(r),
        );
    assert(y->Ok_0 == r.detached());
}

proof fn lemma_mul_step<S: Scalars>(
    before: Seq<Node<S>>,
    after: Seq<Node<S>>,
    a: Model<S>,
    b: Model<S>,
    r: Model<S>,
    n: int,
)
    requires
        mul_tracked::<S>(before, after, a, b, Ok(r)),
        a.in_graph,
        before.len() == n,
    ensures
        adds_node::<S>(
            before,
            after,
            n,
            seq![a, b],
            RuleModel::Mul { a: a.detached(), b: b.detached() },
            r,
        ),
        mul_out::<S>(a.detached(), b.detached(), Ok(r.detached())),
{
    let y = choose|y: Outcome<S>| #[trigger]
        mul_out::<S>(a, b, y) && tracked_out::<S>(
            before,
            after,
            a.in_graph || b.in_graph,
            y,
            seq![a, b],
            RuleModel::Mul { a: a.detached(), b: b.detached() },
            Ok(r),
        );
    assert(y->Ok_0 == r.detached());
}

proof fn lemma_add_step<S: Scalars>(
    before: Seq<Node<S>>,
    after: Seq<Node<S>>,
    a: Model<S>,
    b: Model<S>,
    r: Model<S>,
    n: int,
)
    requires
        add_tracked::<S>(before, after, a, b, Ok(r)),
        a.in_graph,
        before.len() == n,
    ensures
        adds_node::<S>(
            before,
            after,
            n,
            seq![a, b],
            RuleModel::Add { a_shape: a.shape, b_shape: b.shape },
            r,
        ),
        add_out::<S>(a.detached(), b.detached(), Ok(r.detached())),
        add_out::<S>(a, b.detached(), Ok(r.detached())),
{
    let y = choose|y: Outcome<S>| #[trigger]
        add_out::<S>(a, b, y) && tracked_out::<S>(
            before,
            after,
            a.in_graph || b.in_graph,
            y,
            seq![a, b],
            RuleModel::Add { a_shape: a.shape, b_shape: b.shape },
            Ok(r),
        );
    assert(y->Ok_0 == r.detached());
}

proof fn lemma_matmul_step<S: Scalars>(
    before: Seq<Node<S>>,
    after: Seq<Node<S>>,
    a: Model<S>,
    b: Model<S>,
    r: Model<S>,
    n: int,
)
    requires
        matmul_tracked::<S>(before, after, a, b, Ok(r)),
        a.in_graph,
        before.len() == n,
    ensures
        adds_node::<S>(
            before,
            after,
            n,
            seq![a, b],
            RuleModel::Matmul { a: a.detached(), b: b.detached() },
            r,
        ),
        matmul_out::<S>(a.detached(), b.detached(), Ok(r.detached())),
{
    let y = choose|y: Outcome<S>| #[trigger]
        matmul_out::<S>(a, b, y) && tracked_out::<S>(
            before,
            after,
            a.in_graph || b.in_graph,
            y,
            seq![a, b],
            RuleModel::Matmul { a: a.detached(), b: b.detached() },
            Ok(r),
        );
    assert(y->Ok_0 == r.detached());
}

proof fn lemma_scan_step<S: Scalars>(
    before: Seq<Node<S>>,
    after: Seq<Node<S>>,
    a: Model<S>,
    b: Model<S>,
    r: Model<S>,
    n: int,
)
    requires
        gated_scan_tracked::<S>(before, after, a, b, Ok(r)),
        a.in_graph,
        before.len() == n,
    ensures
        adds_node::<S>(
            before,
            after,
            n,
            seq![a, b],
            RuleModel::Scan { a: a.detached(), h: r.detached() },
            r,
        ),
        gated_scan_out::<S>(a.detached(), b.detached(), Ok(r.detached())),
{
    let y = choose|y: Outcome<S>| #[trigger]
        gated_scan_out::<S>(a, b, y) && tracked_out::<S>(
            before,
            after,
            a.in_graph || b.in_graph,
            y,
            seq![a, b],
            RuleModel::Scan { a: a.detached(), h: y->Ok_0.detached() },
            Ok(r),
        );
    assert(y->Ok_0 == r.detached());
}

proof fn lemma_cat_step<S: Scalars>(
    before: Seq<Node<S>>,
    after: Seq<Node<S>>,
    a: Model<S>,
    b: Model<S>,
    r: Model<S>,
    n: int,
)
    requires
        cat_tracked::<S>(before, after, seq![a, b], 2, Ok(r)),
        a.in_graph,
        a.shape.len() == 3,
        b.free(),
        before.len() == n,
    ensures
        adds_node::<S>(
            before,
            after,
            n,
            seq![a, b],
            RuleModel::Cat { axis: 2, sizes: seq![a.shape[2], b.shape[2]] },
            r,
        ),
        cat_out::<S>(seq![a.detached(), b], 2, Ok(r.detached())),
{
    let ms = seq![a, b];
    let y = choose|y: Outcome<S>| #[trigger]
        cat_out::<S>(ms, 2, y) && tracked_out::<S>(
            before,
            after,
            any_in_graph::<S>(ms),
            y,
            ms,
            RuleModel::Cat {
                axis: joint_axis::<S>(ms, 2) as usize,
                sizes: sizes(ms, joint_axis::<S>(ms, 2)),
            },
            Ok(r),
        );
    assert(ms[0].in_graph);
    assert(sizes(ms, 2) =~= seq![a.shape[2], b.shape[2]]);
    assert(y->Ok_0 == r.detached());
    lemma_cat_loose::<S>(a, b, y->Ok_0);
}

/// Tensors side by side, outside a graph.
proof fn lemma_cat_loose<S: Scalars>(a: Model<S>, b: Model<S>, r: Model<S>)
    requires
        cat_out::<S>(seq![a, b], 2, Ok(r)),
    ensures
        cat_out::<S>(seq![a.detached(), b], 2, Ok(r)),
{
    let ms = seq![a, b];
    let us = seq![a.detached(), b];
    assert(sizes(ms, 2) =~= sizes(us, 2));
    assert(cat_shape(ms, 2) == cat_shape(us, 2));
    assert(all_f32s(ms) =~= all_f32s(us));
    assert(all_f64s(ms) =~= all_f64s(us));
    assert forall|i: int| 0 <= i < us.len() implies #[trigger] joins(us, 2, i) by {
        assert(joins(ms, 2, i));
    }
}

proof fn lemma_sigmoid_step<S: Scalars>(
    before: Seq<Node<S>>,
    after: Seq<Node<S>>,
    x: Model<S>,
    r: Model<S>,
    n: int,
) -> (gx: Model<S>)
    requires
        sigmoid_tracked::<S>(before, after, x, Ok(r)),
        x.in_graph,
        before.len() == n,
    ensures
        adds_node::<S>(
            before,
            after,
            n,
            seq![x],
            RuleModel::Local { name: "sigmoid"@, gx },
            r,
        ),
        sigmoid_out::<S>(x.detached(), Ok(r.detached())),
        sigmoid_local_out::<S>(r.detached(), Ok(gx)),
{
    let y = choose|y: Outcome<S>| #[trigger]
        sigmoid_out::<S>(x, y) && if !x.in_graph || y is Err {
            after == before && Outcome::<S>::Ok(r) == y
        } else {
            sigmoid_sloped::<S>(before, after, x, y->Ok_0, Ok(r))
        };
    let o = choose|o: Outcome<S>| #[trigger]
        sigmoid_local_out::<S>(y->Ok_0, o) && sloped_out::<S>(
            before,
            after,
            "sigmoid"@,
            x,
            y->Ok_0,
            o,
            Ok(r),
        );
    assert(y->Ok_0 == r.detached());
    o->Ok_0
}

proof fn lemma_silu_step<S: Scalars>(
    before: Seq<Node<S>>,
    after: Seq<Node<S>>,
    x: Model<S>,
    r: Model<S>,
    n: int,
) -> (gx: Model<S>)
    requires
        silu_tracked::<S>(before, after, x, Ok(r)),
        x.in_graph,
        before.len() == n,
    ensures
        adds_node::<S>(before, after, n, seq![x], RuleModel::Local { name: "silu"@, gx }, r),
        silu_out::<S>(x.detached(), Ok(r.detached())),
        silu_local_out::<S>(x, Ok(gx)),
{
    let y = choose|y: Outcome<S>| #[trigger]
        silu_out::<S>(x, y) && if !x.in_graph || y is Err {
            after == before && Outcome::<S>::Ok(r) == y
        } else {
            silu_sloped::<S>(before, after, x, y->Ok_0, Ok(r))
        };
    let o = choose|o: Outcome<S>| #[trigger]
        silu_local_out::<S>(x, o) && sloped_out::<S>(
            before,
            after,
            "silu"@,
            x,
            y->Ok_0,
            o,
            Ok(r),
        );
    assert(y->Ok_0 == r.detached());
    o->Ok_0
}

/// A node stays where it was recorded.
proof fn lemma_grown<S: Scalars>(s: Seq<Seq<Node<S>>>, i: int, j: int)
    requires
        0 <= i < j < s.len(),
        s[0].len() == 0,
        forall|k: int| 0 <= k < s.len() - 1 ==> grows::<S>(s[k], #[trigger] s[k + 1]),
    ensures
        s[j].len() == j,
        s[i].len() == i,
        s[j][i] == s[i + 1].last(),
    decreases j,
{
    assert(grows::<S>(s[j - 1], s[j - 1 + 1]));
    if i + 1 < j {
        lemma_grown::<S>(s, i, j - 1);
        assert(s[j][i] == s[j].drop_last()[i]);
    } else if i > 0 {
        lemma_grown::<S>(s, i - 1, i);
    }
}

/// What the gates and inputs record.
#[verifier::rlimit(60)]
#[verifier::spinoff_prover]
proof fn lemma_gate_record<S: Scalars>(
    s: Seq<Seq<Node<S>>>,
    x: Model<S>,
    w: WeightsModel<S>,
    eps: S::F,
    u: Stages<S>,
) -> (gate: Model<S>)
    requires
        s[0].len() == 0,
        rms_norm_tracked::<S>(s[0], s[1], x, eps, Ok(u.n1)),
        mul_tracked::<S>(s[1], s[2], u.n1, w.g1, Ok(u.xn)),
        ones_out::<S>(column_shape(x.shape), Dtype::F32, Ok(u.ones)),
        cat_tracked::<S>(s[2], s[3], seq![u.xn, u.ones], 2, Ok(u.xna)),
        matmul_tracked::<S>(s[3], s[4], u.xna, w.wa, Ok(u.ua)),
        sigmoid_tracked::<S>(s[4], s[5], u.ua, Ok(u.a)),
        matmul_tracked::<S>(s[5], s[6], u.xn, w.wb, Ok(u.ub)),
        x.in_graph,
        x.shape.len() == 3,
        w.g1.shape == seq![x.shape[2]],
    ensures
        forall|l: Bends<S>|
            l.gate == gate ==> #[trigger] gate_steps::<S>(s, x, w, eps, u, values::<S>(u), l),
        sigmoid_local_out::<S>(u.a.detached(), Ok(gate)),
        u.ones.free(),
        u.a == produced::<S>(u.a.detached(), 4),
        u.ub == produced::<S>(u.ub.detached(), 5),
        ({
            let t = values::<S>(u);
            let v = loose::<S>(w);
            &&& rms_norm_out::<S>(x, eps, Ok(t.n1))
            &&& mul_out::<S>(t.n1, v.g1, Ok(t.xn))
            &&& cat_out::<S>(seq![t.xn, t.ones], 2, Ok(t.xna))
            &&& matmul_out::<S>(t.xna, v.wa, Ok(t.ua))
            &&& sigmoid_out::<S>(t.ua, Ok(t.a))
            &&& matmul_out::<S>(t.xn, v.wb, Ok(t.ub))
        }),
{
    lemma_rms_step::<S>(s[0], s[1], x, eps, u.n1, 0);
    lemma_mul_step::<S>(s[1], s[2], u.n1, w.g1, u.xn, 1);
    lemma_joined_last(x.shape);
    assert(u.xn.shape == x.shape);
    assert(u.ones.free());
    assert(u.ones.detached() == u.ones);
    lemma_cat_step::<S>(s[2], s[3], u.xn, u.ones, u.xna, 2);
    lemma_matmul_step::<S>(s[3], s[4], u.xna, w.wa, u.ua, 3);
    let gate = lemma_sigmoid_step::<S>(s[4], s[5], u.ua, u.a, 4);
    lemma_matmul_step::<S>(s[5], s[6], u.xn, w.wb, u.ub, 5);
    gate
}

/// The nodes of the gates and inputs, one after the other.
spec fn gate_steps<S: Scalars>(
    s: Seq<Seq<Node<S>>>,
    x: Model<S>,
    w: WeightsModel<S>,
    eps: S::F,
    u: Stages<S>,
    t: Stages<S>,
    l: Bends<S>,
) -> bool {
    &&& adds_node::<S>(s[0], s[1], 0, seq![x], RuleModel::Rms { x: x.detached(), eps }, u.n1)
    &&& adds_node::<S>(
        s[1],
        s[2],
        1,
        seq![u.n1, w.g1],
        RuleModel::Mul { a: t.n1, b: w.g1.detached() },
        u.xn,
    )
    &&& adds_node::<S>(
        s[2],
        s[3],
        2,
        seq![u.xn, u.ones],
        RuleModel::Cat { axis: 2, sizes: seq![x.shape[2], 1] },
        u.xna,
    )
    &&& adds_node::<S>(
        s[3],
        s[4],
        3,
        seq![u.xna, w.wa],
        RuleModel::Matmul { a: t.xna, b: w.wa.detached() },
        u.ua,
    )
    &&& adds_node::<S>(
        s[4],
        s[5],
        4,
        seq![u.ua],
        RuleModel::Local { name: "sigmoid"@, gx: l.gate },
        u.a,
    )
    &&& adds_node::<S>(
        s[5],
        s[6],
        5,
        seq![u.xn, w.wb],
        RuleModel::Matmul { a: t.xn, b: w.wb.detached() },
        u.ub,
    )
}

/// The nodes of the recurrence and the mix, one after the other.
spec fn mix_steps<S: Scalars>(
    s: Seq<Seq<Node<S>>>,
    x: Model<S>,
    w: WeightsModel<S>,
    u: Stages<S>,
    t: Stages<S>,
    l: Bends<S>,
) -> bool {
    &&& adds_node::<S>(s[6], s[7], 6, seq![u.a, u.ub], RuleModel::Scan { a: t.a, h: t.h }, u.h)
    &&& adds_node::<S>(
        s[7],
        s[8],
        7,
        seq![u.h, w.g2],
        RuleModel::Mul { a: t.h, b: w.g2.detached() },
        u.hg,
    )
    &&& adds_node::<S>(
        s[8],
        s[9],
        8,
        seq![u.hg],
        RuleModel::Local { name: "silu"@, gx: l.mix },
        u.s2,
    )
    &&& adds_node::<S>(
        s[9],
        s[10],
        9,
        seq![u.s2, w.wo],
        RuleModel::Matmul { a: t.s2, b: w.wo.detached() },
        u.so,
    )
    &&& adds_node::<S>(
        s[10],
        s[11],
        10,
        seq![x, u.so],
        RuleModel::Add { a_shape: x.shape, b_shape: t.so.shape },
        u.out1,
    )
}

/// The nodes of the second normalization and the feed-forward half, one after the other.
spec fn feed_steps<S: Scalars>(
    s: Seq<Seq<Node<S>>>,
    w: WeightsModel<S>,
    eps: S::F,
    u: Stages<S>,
    t: Stages<S>,
    l: Bends<S>,
    y: Model<S>,
) -> bool {
    &&& adds_node::<S>(s[11], s[12], 11, seq![u.out1], RuleModel::Rms { x: t.out1, eps }, u.n2)
    &&& adds_node::<S>(
        s[12],
        s[13],
        12,
        seq![u.n2, w.g3],
        RuleModel::Mul { a: t.n2, b: w.g3.detached() },
        u.xn2,
    )
    &&& adds_node::<S>(
        s[13],
        s[14],
        13,
        seq![u.xn2, w.wf1],
        RuleModel::Matmul { a: t.xn2, b: w.wf1.detached() },
        u.f1,
    )
    &&& adds_node::<S>(
        s[14],
        s[15],
        14,
        seq![u.f1],
        RuleModel::Local { name: "silu"@, gx: l.feed },
        u.sf1,
    )
    &&& adds_node::<S>(
        s[15],
        s[16],
        15,
        seq![u.sf1, w.wf2],
        RuleModel::Matmul { a: t.sf1, b: w.wf2.detached() },
        u.f2,
    )
    &&& adds_node::<S>(
        s[16],
        s[17],
        16,
        seq![u.f2, w.g4],
        RuleModel::Mul { a: t.f2, b: w.g4.detached() },
        u.fg,
    )
    &&& adds_node::<S>(
        s[17],
        s[18],
        17,
        seq![u.out1, u.fg],
        RuleModel::Add { a_shape: t.out1.shape, b_shape: t.fg.shape },
        y,
    )
}

/// What the recurrence and the mix record.
proof fn lemma_mix_record<S: Scalars>(
    s: Seq<Seq<Node<S>>>,
    x: Model<S>,
    w: WeightsModel<S>,
    eps: S::F,
    u: Stages<S>,
    y: Model<S>,
) -> (mix: Model<S>)
    requires
        composed_tracked::<S>(s, x, w, eps, u, y),
        x.in_graph,
        s[6].len() == 6,
        u.a == produced::<S>(u.a.detached(), 4),
    ensures
        forall|l: Bends<S>|
            l.mix == mix ==> #[trigger] mix_steps::<S>(s, x, w, u, values::<S>(u), l),
        silu_local_out::<S>(u.hg, Ok(mix)),
        u.out1 == produced::<S>(u.out1.detached(), 10),
        ({
            let t = values::<S>(u);
            let v = loose::<S>(w);
            &&& gated_scan_out::<S>(t.a, t.ub, Ok(t.h))
            &&& mul_out::<S>(t.h, v.g2, Ok(t.hg))
            &&& silu_out::<S>(t.hg, Ok(t.s2))
            &&& matmul_out::<S>(t.s2, v.wo, Ok(t.so))
            &&& add_out::<S>(x, t.so, Ok(t.out1))
        }),
{
    reveal(composed_tracked);
    lemma_scan_step::<S>(s[6], s[7], u.a, u.ub, u.h, 6);
    lemma_mul_step::<S>(s[7], s[8], u.h, w.g2, u.hg, 7);
    let mix = lemma_silu_step::<S>(s[8], s[9], u.hg, u.s2, 8);
    lemma_matmul_step::<S>(s[9], s[10], u.s2, w.wo, u.so, 9);
    lemma_add_step::<S>(s[10], s[11], x, u.so, u.out1, 10);
    mix
}

/// What the second normalization and the feed-forward half record.
proof fn lemma_feed_record<S: Scalars>(
    s: Seq<Seq<Node<S>>>,
    x: Model<S>,
    w: WeightsModel<S>,
    eps: S::F,
    u: Stages<S>,
    y: Model<S>,
) -> (feed: Model<S>)
    requires
        composed_tracked::<S>(s, x, w, eps, u, y),
        s[11].len() == 11,
        u.out1 == produced::<S>(u.out1.detached(), 10),
    ensures
        forall|l: Bends<S>|
            l.feed == feed ==> #[trigger] feed_steps::<S>(s, w, eps, u, values::<S>(u), l, y),
        silu_local_out::<S>(u.f1, Ok(feed)),
        ({
            let t = values::<S>(u);
            let v = loose::<S>(w);
            &&& rms_norm_out::<S>(t.out1, eps, Ok(t.n2))
            &&& mul_out::<S>(t.n2, v.g3, Ok(t.xn2))
            &&& matmul_out::<S>(t.xn2, v.wf1, Ok(t.f1))
            &&& silu_out::<S>(t.f1, Ok(t.sf1))
            &&& matmul_out::<S>(t.sf1, v.wf2, Ok(t.f2))
            &&& mul_out::<S>(t.f2, v.g4, Ok(t.fg))
            &&& add_out::<S>(t.out1, t.fg, Ok(y.detached()))
        }),
{
    reveal(composed_tracked);
    lemma_rms_step::<S>(s[11], s[12], u.out1, eps, u.n2, 11);
    lemma_mul_step::<S>(s[12], s[13], u.n2, w.g3, u.xn2, 12);
    lemma_matmul_step::<S>(s[13], s[14], u.xn2, w.wf1, u.f1, 13);
    let feed = lemma_silu_step::<S>(s[14], s[15], u.f1, u.sf1, 14);
    lemma_matmul_step::<S>(s[15], s[16], u.sf1, w.wf2, u.f2, 15);
    lemma_mul_step::<S>(s[16], s[17], u.f2, w.g4, u.fg, 16);
    lemma_add_step::<S>(s[17], s[18], u.out1, u.fg, y, 17);
    feed
}

/// What the single operations of a block record, and the values that they pass through.
proof fn lemma_recorded_block<S: Scalars>(
    s: Seq<Seq<Node<S>>>,
    nodes: Seq<Node<S>>,
    x: Model<S>,
    w: WeightsModel<S>,
    eps: S::F,
    u: Stages<S>,
    y: Model<S>,
) -> (l: Bends<S>)
    requires
        composed_tracked::<S>(s, x, w, eps, u, y),
        x.in_graph,
        x.shape.len() == 3,
        w.g1.shape == seq![x.shape[2]],
        nodes.len() >= 18,
        nodes.take(18) == s[18],
    ensures
        block_nodes::<S>(nodes, x, w, eps, values::<S>(u), l),
        composed::<S>(x, loose::<S>(w), eps, values::<S>(u), y.detached()),
        y == produced::<S>(y.detached(), 17),
        values::<S>(u).ones.free(),
        sigmoid_local_out::<S>(u.a.detached(), Ok(l.gate)),
        silu_local_out::<S>(u.hg, Ok(l.mix)),
        silu_local_out::<S>(u.f1, Ok(l.feed)),
{
    reveal(composed_tracked);
    let t = values::<S>(u);
    let gate = lemma_gate_record::<S>(s, x, w, eps, u);
    let none = Bends { gate, mix: gate, feed: gate };
    assert(gate_steps::<S>(s, x, w, eps, u, t, none));
    let mix = lemma_mix_record::<S>(s, x, w, eps, u, y);
    assert(mix_steps::<S>(s, x, w, u, t, Bends { gate, mix, feed: gate }));
    let feed = lemma_feed_record::<S>(s, x, w, eps, u, y);
    let l = Bends { gate, mix, feed };
    assert(gate_steps::<S>(s, x, w, eps, u, t, l));
    assert(mix_steps::<S>(s, x, w, u, t, l));
    assert(feed_steps::<S>(s, w, eps, u, t, l, y));
    assert forall|k: int| 0 <= k < 18 implies grows::<S>(s[k], #[trigger] s[k + 1]) by {
        lemma_growth::<S>(s, x, w, eps, u, t, l, y, k);
    }
    assert forall|i: int| 0 <= i < 18 implies #[trigger] nodes[i] == s[i + 1].last() by {
        lemma_grown::<S>(s, i, 18);
        assert(nodes[i] == nodes.take(18)[i]);
    }
    assert(nodes[0] == s[1].last());
    assert(nodes[1] == s[2].last());
    assert(nodes[2] == s[3].last());
    assert(nodes[3] == s[4].last());
    assert(nodes[4] == s[5].last());
    assert(nodes[5] == s[6].last());
    assert(gate_nodes::<S>(nodes, x, w, eps, t, l));
    assert(nodes[6] == s[7].last());
    assert(nodes[7] == s[8].last());
    assert(nodes[8] == s[9].last());
    assert(nodes[9] == s[10].last());
    assert(nodes[10] == s[11].last());
    assert(mix_nodes::<S>(nodes, x, w, t, l));
    assert(nodes[11] == s[12].last());
    assert(nodes[12] == s[13].last());
    assert(nodes[13] == s[14].last());
    assert(nodes[14] == s[15].last());
    assert(nodes[15] == s[16].last());
    assert(nodes[16] == s[17].last());
    assert(nodes[17] == s[18].last());
    assert(feed_nodes::<S>(nodes, w, eps, t, l));
    l
}

/// Every operation adds one node.
proof fn lemma_growth<S: Scalars>(
    s: Seq<Seq<Node<S>>>,
    x: Model<S>,
    w: WeightsModel<S>,
    eps: S::F,
    u: Stages<S>,
    t: Stages<S>,
    l: Bends<S>,
    y: Model<S>,
    k: int,
)
    requires
        gate_steps::<S>(s, x, w, eps, u, t, l),
        mix_steps::<S>(s, x, w, u, t, l),
        feed_steps::<S>(s, w, eps, u, t, l, y),
        0 <= k < 18,
    ensures
        grows::<S>(s[k], s[k + 1]),
{
    assert(k == 0 || k == 1 || k == 2 || k == 3 || k == 4 || k == 5 || k == 6 || k == 7 || k == 8
        || k == 9 || k == 10 || k == 11 || k == 12 || k == 13 || k == 14 || k == 15 || k == 16
        || k == 17);
}

/// The fused block's stages with the weights outside any graph.
proof fn lemma_composed_loose<S: Scalars>(
    x: Model<S>,
    w: WeightsModel<S>,
    eps: S::F,
    t: Stages<S>,
    y: Model<S>,
)
    requires
        composed::<S>(x, w, eps, t, y),
    ensures
        composed::<S>(x, loose::<S>(w), eps, t, y),
{
    let v = loose::<S>(w);
    assert(mul_out::<S>(t.n1, v.g1, Ok(t.xn)));
    assert(matmul_out::<S>(t.xna, v.wa, Ok(t.ua)));
    assert(matmul_out::<S>(t.xn, v.wb, Ok(t.ub)));
    assert(mul_out::<S>(t.h, v.g2, Ok(t.hg)));
    assert(matmul_out::<S>(t.s2, v.wo, Ok(t.so)));
    assert(mul_out::<S>(t.n2, v.g3, Ok(t.xn2)));
    assert(matmul_out::<S>(t.xn2, v.wf1, Ok(t.f1)));
    assert(matmul_out::<S>(t.sf1, v.wf2, Ok(t.f2)));
    assert(mul_out::<S>(t.f2, v.g4, Ok(t.fg)));
}

/// What `grad` gives over the nodes of a block and of a loss behind it.
proof fn lemma_block_grad<S: Scalars>(
    nodes: Seq<Node<S>>,
    before: Seq<Option<Model<S>>>,
    x: Model<S>,
    w: WeightsModel<S>,
    eps: S::F,
    t: Stages<S>,
    l: Bends<S>,
    y: Model<S>,
    loss: Model<S>,
    seed: Model<S>,
    c: Cotangents<S>,
) -> (after: Seq<Option<Model<S>>>)
    requires
        block_nodes::<S>(nodes, x, w, eps, t, l),
        nodes.len() >= 19,
        nodes[18].sources() == seq![produced::<S>(y, 17)],
        nodes[18].vjp(seed, Ok(seq![c.y])),
        feed_flows::<S>(loose(w), eps, t, l, c),
        mix_flows::<S>(x, loose(w), t, l, c),
        gate_flows::<S>(x, loose(w), eps, t, l, c),
        on_leaves::<S>(x, w),
        t.ones.free(),
        count_of(loss.shape) == 1,
        loss.dtype().floating(),
        ones_out::<S>(loss.shape, loss.dtype(), Ok(seed)),
        before.len() >= 10,
        before.len() <= usize::MAX,
        nodes.len() <= usize::MAX,
    ensures
        grad_out::<S, Node<S>>(
            nodes,
            visit::<S, Node<S>>(
                nodes,
                produced::<S>(loss, 18),
                none_seen(nodes.len(), before.len()),
            ),
            produced::<S>(loss, 18),
            block_sources::<S>(x, w),
            before,
            after,
            Ok(slope_list::<S>(c.slopes())),
        ),
{
    let output = produced::<S>(loss, 18);
    let inputs = block_sources::<S>(x, w);
    let nn = nodes.len();
    let ns = before.len();
    let met = lemma_block_walk::<S>(nodes, ns, x, w, eps, t, l, y, loss);
    let walk = visit::<S, Node<S>>(nodes, output, none_seen(nn, ns));
    let order = gate_order::<S>(x, w, t) + mix_order::<S>(w, t) + feed_order::<S>(w, t, y, loss);
    assert(none_seen(nn, ns) =~= seen_of(nn, ns, Set::<Key>::empty()));
    assert(walk.post == order) by {
        reveal(walks);
    }
    let slots = cleared::<S>(before, walk.pre + inputs);
    assert forall|i: int| 0 <= i < 10 implies #[trigger] slots[i] is None by {
        let all = walk.pre + inputs;
        assert(all[walk.pre.len() + i] == inputs[i]);
        assert(leaf_is(inputs[i], i));
        assert(has_leaf(all, i));
    }
    lemma_block_pass::<S>(nodes, slots, x, w, eps, t, l, y, loss, c, seed);
    let ws: Map<Key, Model<S>> = map![Key::Node(18) => seed];
    let none: Map<Key, Model<S>> = Map::empty();
    let empty: Map<usize, Model<S>> = Map::empty();
    let done: Map<usize, Model<S>> = map![
        9usize => c.g4,
        5usize => c.wf2,
        4usize => c.wf1,
        8usize => c.g3,
        3usize => c.wo,
        7usize => c.g2,
        2usize => c.wb,
        1usize => c.wa,
        6usize => c.g1,
        0usize => c.x
    ];
    let end = waiting::<S>(nn, slots, none, done);
    assert(sweeps::<S, Node<S>>(nodes, order, waiting::<S>(nn, slots, ws, empty), end)) by {
        reveal(passes_over);
    }
    let start = waiting::<S>(nn, slots, none, empty);
    let quiet = idle::<S>(nn, slots);
    assert(quiet.node_grads =~= start.node_grads);
    assert(quiet.leaf_grads =~= start.leaf_grads);
    assert(quiet.slots =~= start.slots);
    lemma_waiting_put::<S>(nn, slots, none, empty, Key::Node(18), seed);
    assert(none.insert(Key::Node(18), seed) =~= ws);
    let after = end.slots;
    let r: Result<Seq<Model<S>>, Error> = Ok(slope_list::<S>(c.slopes()));
    let a: Result<(), Error> = Ok(());
    let so: Outcome<S> = Ok(seed);
    assert(accumulates::<S, Node<S>>(nodes, walk, output, seed, slots, after, a));
    let gs = slope_list::<S>(c.slopes());
    assert(collects::<S>(inputs, after, r)) by {
        assert(after[0] == Some(gs[0]));
        assert(after[1] == Some(gs[1]));
        assert(after[2] == Some(gs[2]));
        assert(after[3] == Some(gs[3]));
        assert(after[4] == Some(gs[4]));
        assert(after[5] == Some(gs[5]));
        assert(after[6] == Some(gs[6]));
        assert(after[7] == Some(gs[7]));
        assert(after[8] == Some(gs[8]));
        assert(after[9] == Some(gs[9]));
    }
    assert(ones_out::<S>(output.shape, output.dtype(), so));
    assert(fresh_pass::<S, Node<S>>(nodes, walk, output, inputs, before, after, r));
    after
}

/// The fused block has the value of the block that tracked single operations put together, and its
/// ten cotangents are the gradients that `grad` gives over their nodes.
///
/// The input and the weights are the first leaves of the graph, and the loss hangs on the block by
/// one node, through which the cotangent `gy` reaches it. This holds for an arithmetic on 32-bit
/// numbers that is a commutative ring in addition, subtraction and multiplication, and that gives
/// each operation of the block one value: the fused block sums over batch and steps at once and
/// forms the slope of SiLU in another order, so on floats the two may differ in the last digits.
#[verifier::rlimit(60)]
#[verifier::spinoff_prover]
pub proof fn law_block_gradients_are_composed<S: Scalars>(
    ring: Ring<S::F>,
    z: BlockSizes,
    s: Seq<Seq<Node<S>>>,
    nodes: Seq<Node<S>>,
    before: Seq<Option<Model<S>>>,
    x: Model<S>,
    w: WeightsModel<S>,
    eps: S::F,
    u: Stages<S>,
    y: Model<S>,
    loss: Model<S>,
    seed: Model<S>,
    gy: Model<S>,
    value: Model<S>,
    aux: AuxModel<S>,
    g: BlockSlopesModel<S>,
) -> (after: Seq<Option<Model<S>>>)
    requires
        ring.computes::<S>(),
        one_sigmoid::<S::F, S>(),
        settled::<S>(),
        countable(z),
        z.weighs::<S>(w),
        x.shape == z.steps_of(z.features),
        w.wa.valid(),
        on_leaves::<S>(x, w),
        composed_tracked::<S>(s, x, w, eps, u, y),
        nodes.len() >= 19,
        nodes.take(18) == s[18],
        nodes[18].sources() == seq![y],
        nodes[18].vjp(seed, Ok(seq![gy])),
        ones_out::<S>(loss.shape, loss.dtype(), Ok(seed)),
        count_of(loss.shape) == 1,
        loss.dtype().floating(),
        gy.shape == y.shape,
        before.len() >= 10,
        before.len() <= usize::MAX,
        nodes.len() <= usize::MAX,
        fused_block_fwd_out::<S>(x, w, eps, Ok((value, aux))),
        fused_block_bwd_out::<S>(aux, loose::<S>(w), eps, gy, Ok(g)),
    ensures
        y == produced::<S>(value, 17),
        grad_out::<S, Node<S>>(
            nodes,
            visit::<S, Node<S>>(
                nodes,
                produced::<S>(loss, 18),
                none_seen(nodes.len(), before.len()),
            ),
            produced::<S>(loss, 18),
            block_sources::<S>(x, w),
            before,
            after,
            Ok(slope_list::<S>(g)),
        ),
{
    let t = values::<S>(u);
    let v = loose::<S>(w);
    let l = lemma_recorded_block::<S>(s, nodes, x, w, eps, u, y);
    law_block_is_composed::<S>(x, w, eps, value, aux);
    let f = choose|f: Stages<S>| #[trigger]
        composed::<S>(x, w, eps, f, value) && f.kept(x) == aux;
    lemma_composed_loose::<S>(x, w, eps, f, value);
    law_stages_settle::<S>(x, v, eps, t, f, y.detached(), value);
    law_block_keeps_shapes::<S>(z, x, w, eps, value, aux);
    lemma_bends::<S>(x, v, eps, u, t, y.detached(), l);
    let c = lemma_block_flow::<S>(
        ring,
        z,
        x,
        v,
        eps,
        t,
        y.detached(),
        l,
        u.hg,
        u.f1,
        gy,
        g,
    );
    lemma_block_grad::<S>(nodes, before, x, w, eps, t, l, y.detached(), loss, seed, c)
}

/// The recorded local derivatives are those of a block of 32-bit numbers.
proof fn lemma_bends<S: Scalars>(
    x: Model<S>,
    w: WeightsModel<S>,
    eps: S::F,
    u: Stages<S>,
    t: Stages<S>,
    y: Model<S>,
    l: Bends<S>,
)
    requires
        composed::<S>(x, w, eps, t, y),
        t == values::<S>(u),
        sigmoid_local_out::<S>(u.a.detached(), Ok(l.gate)),
        silu_local_out::<S>(u.hg, Ok(l.mix)),
        silu_local_out::<S>(u.f1, Ok(l.feed)),
    ensures
        bends::<S>(t, u.hg, u.f1, l),
{
    assert(t.h.data is F32);
    assert(t.hg.data is F32);
    assert(t.n2.data is F32);
    assert(t.xn2.data is F32);
    assert(t.f1.data is F32);
    assert(alike::<S>(u.hg, t.hg));
    assert(alike::<S>(u.f1, t.f1));
}

/// Whatever `grad` gives over the nodes of the block that tracked single operations put together,
/// the ten cotangents of the fused block are just that, where each node's rule has one outcome too.
pub proof fn law_composed_grad_is_the_blocks<S: Scalars>(
    ring: Ring<S::F>,
    z: BlockSizes,
    s: Seq<Seq<Node<S>>>,
    nodes: Seq<Node<S>>,
    before: Seq<Option<Model<S>>>,
    x: Model<S>,
    w: WeightsModel<S>,
    eps: S::F,
    u: Stages<S>,
    y: Model<S>,
    loss: Model<S>,
    seed: Model<S>,
    gy: Model<S>,
    value: Model<S>,
    aux: AuxModel<S>,
    g: BlockSlopesModel<S>,
    after: Seq<Option<Model<S>>>,
    r: Result<Seq<Model<S>>, Error>,
)
    requires
        ring.computes::<S>(),
        one_sigmoid::<S::F, S>(),
        settled::<S>(),
        countable(z),
        z.weighs::<S>(w),
        x.shape == z.steps_of(z.features),
        w.wa.valid(),
        on_leaves::<S>(x, w),
        composed_tracked::<S>(s, x, w, eps, u, y),
        nodes.len() >= 19,
        nodes.take(18) == s[18],
        nodes[18].sources() == seq![y],
        nodes[18].vjp(seed, Ok(seq![gy])),
        ones_out::<S>(loss.shape, loss.dtype(), Ok(seed)),
        count_of(loss.shape) == 1,
        loss.dtype().floating(),
        gy.shape == y.shape,
        before.len() >= 10,
        before.len() <= usize::MAX,
        nodes.len() <= usize::MAX,
        fused_block_fwd_out::<S>(x, w, eps, Ok((value, aux))),
        fused_block_bwd_out::<S>(aux, loose::<S>(w), eps, gy, Ok(g)),
        decided::<S, Node<S>>(nodes),
        ordered::<S, Node<S>>(nodes, before.len() as int),
        grad_out::<S, Node<S>>(
            nodes,
            visit::<S, Node<S>>(
                nodes,
                produced::<S>(loss, 18),
                none_seen(nodes.len(), before.len()),
            ),
            produced::<S>(loss, 18),
            block_sources::<S>(x, w),
            before,
            after,
            r,
        ),
    ensures
        r == Ok::<Seq<Model<S>>, Error>(slope_list::<S>(g)),
{
    let mine = law_block_gradients_are_composed::<S>(
        ring,
        z,
        s,
        nodes,
        before,
        x,
        w,
        eps,
        u,
        y,
        loss,
        seed,
        gy,
        value,
        aux,
        g,
    );
    law_grad_repeats::<S, Node<S>>(
        nodes,
        produced::<S>(loss, 18),
        block_sources::<S>(x, w),
        before,
        mine,
        slope_list::<S>(g),
        before,
        after,
        r,
    );
}

} // verus!
