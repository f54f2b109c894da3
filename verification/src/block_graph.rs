//! The layer block put together from tracked single operations: its nodes, the walk over them and
//! the reverse pass.
use vstd::prelude::*;
use crate::block::Stages;
use crate::block_flow::{feed_flows, gate_flows, mix_flows, Bends, Cotangents};
use crate::fused::WeightsModel;
use crate::nodes::{produced, Node, RuleModel};
use crate::scalar::Scalars;
use crate::tape::{Backward, Key};
use crate::tensor::Model;
use crate::unrolled::{
    handed, lemma_pass_leaf, lemma_pass_none, lemma_pass_one, lemma_pass_two, lemma_walk_leaf,
    lemma_walk_one, lemma_walk_past, lemma_walk_two, passes_over, walks,
};

verus! {

/// A node with these parents and this rule.
pub open spec fn lists<S: Scalars>(
    node: Node<S>,
    parents: Seq<Model<S>>,
    rule: RuleModel<S>,
) -> bool {
    node.sources() == parents && node.rule@ == rule
}

/// Leaf `l`.
pub open spec fn leaf_at<S: Scalars>(m: Model<S>, l: usize) -> bool {
    m.in_graph && m.leaf == Some(l) && m.grad_fn is None
}

/// The input and the weights are the first ten leaves, in order.
pub open spec fn on_leaves<S: Scalars>(x: Model<S>, w: WeightsModel<S>) -> bool {
    &&& leaf_at::<S>(x, 0)
    &&& leaf_at::<S>(w.wa, 1)
    &&& leaf_at::<S>(w.wb, 2)
    &&& leaf_at::<S>(w.wo, 3)
    &&& leaf_at::<S>(w.wf1, 4)
    &&& leaf_at::<S>(w.wf2, 5)
    &&& leaf_at::<S>(w.g1, 6)
    &&& leaf_at::<S>(w.g2, 7)
    &&& leaf_at::<S>(w.g3, 8)
    &&& leaf_at::<S>(w.g4, 9)
}

/// The nodes of the gates, the inputs and the first normalization.
pub open spec fn gate_nodes<S: Scalars>(
    nodes: Seq<Node<S>>,
    x: Model<S>,
    w: WeightsModel<S>,
    eps: S::F,
    t: Stages<S>,
    l: Bends<S>,
) -> bool {
    &&& lists::<S>(nodes[0], seq![x], RuleModel::Rms { x: x.detached(), eps })
    &&& lists::<S>(
        nodes[1],
        seq![produced::<S>(t.n1, 0), w.g1],
        RuleModel::Mul { a: t.n1, b: w.g1.detached() },
    )
    &&& lists::<S>(
        nodes[2],
        seq![produced::<S>(t.xn, 1), t.ones],
        RuleModel::Cat { axis: 2, sizes: seq![x.shape[2], 1] },
    )
    &&& lists::<S>(
        nodes[3],
        seq![produced::<S>(t.xna, 2), w.wa],
        RuleModel::Matmul { a: t.xna, b: w.wa.detached() },
    )
    &&& lists::<S>(
        nodes[4],
        seq![produced::<S>(t.ua, 3)],
        RuleModel::Local { name: "sigmoid"@, gx: l.gate },
    )
    &&& lists::<S>(
        nodes[5],
        seq![produced::<S>(t.xn, 1), w.wb],
        RuleModel::Matmul { a: t.xn, b: w.wb.detached() },
    )
}

/// The nodes of the recurrence and the mix.
pub open spec fn mix_nodes<S: Scalars>(
    nodes: Seq<Node<S>>,
    x: Model<S>,
    w: WeightsModel<S>,
    t: Stages<S>,
    l: Bends<S>,
) -> bool {
    &&& lists::<S>(
        nodes[6],
        seq![produced::<S>(t.a, 4), produced::<S>(t.ub, 5)],
        RuleModel::Scan { a: t.a, h: t.h },
    )
    &&& lists::<S>(
        nodes[7],
        seq![produced::<S>(t.h, 6), w.g2],
        RuleModel::Mul { a: t.h, b: w.g2.detached() },
    )
    &&& lists::<S>(
        nodes[8],
        seq![produced::<S>(t.hg, 7)],
        RuleModel::Local { name: "silu"@, gx: l.mix },
    )
    &&& lists::<S>(
        nodes[9],
        seq![produced::<S>(t.s2, 8), w.wo],
        RuleModel::Matmul { a: t.s2, b: w.wo.detached() },
    )
    &&& lists::<S>(
        nodes[10],
        seq![x, produced::<S>(t.so, 9)],
        RuleModel::Add { a_shape: x.shape, b_shape: t.so.shape },
    )
}

/// The nodes of the second normalization and the feed-forward half.
pub open spec fn feed_nodes<S: Scalars>(
    nodes: Seq<Node<S>>,
    w: WeightsModel<S>,
    eps: S::F,
    t: Stages<S>,
    l: Bends<S>,
) -> bool {
    &&& lists::<S>(
        nodes[11],
        seq![produced::<S>(t.out1, 10)],
        RuleModel::Rms { x: t.out1, eps },
    )
    &&& lists::<S>(
        nodes[12],
        seq![produced::<S>(t.n2, 11), w.g3],
        RuleModel::Mul { a: t.n2, b: w.g3.detached() },
    )
    &&& lists::<S>(
        nodes[13],
        seq![produced::<S>(t.xn2, 12), w.wf1],
        RuleModel::Matmul { a: t.xn2, b: w.wf1.detached() },
    )
    &&& lists::<S>(
        nodes[14],
        seq![produced::<S>(t.f1, 13)],
        RuleModel::Local { name: "silu"@, gx: l.feed },
    )
    &&& lists::<S>(
        nodes[15],
        seq![produced::<S>(t.sf1, 14), w.wf2],
        RuleModel::Matmul { a: t.sf1, b: w.wf2.detached() },
    )
    &&& lists::<S>(
        nodes[16],
        seq![produced::<S>(t.f2, 15), w.g4],
        RuleModel::Mul { a: t.f2, b: w.g4.detached() },
    )
    &&& lists::<S>(
        nodes[17],
        seq![produced::<S>(t.out1, 10), produced::<S>(t.fg, 16)],
        RuleModel::Add { a_shape: t.out1.shape, b_shape: t.fg.shape },
    )
}

/// The nodes of a block are the first eighteen.
pub open spec fn block_nodes<S: Scalars>(
    nodes: Seq<Node<S>>,
    x: Model<S>,
    w: WeightsModel<S>,
    eps: S::F,
    t: Stages<S>,
    l: Bends<S>,
) -> bool {
    &&& nodes.len() >= 18
    &&& gate_nodes::<S>(nodes, x, w, eps, t, l)
    &&& mix_nodes::<S>(nodes, x, w, t, l)
    &&& feed_nodes::<S>(nodes, w, eps, t, l)
}

/// The weights outside any graph.
pub open spec fn loose<S: Scalars>(w: WeightsModel<S>) -> WeightsModel<S> {
    WeightsModel {
        wa: w.wa.detached(),
        wb: w.wb.detached(),
        wo: w.wo.detached(),
        wf1: w.wf1.detached(),
        wf2: w.wf2.detached(),
        g1: w.g1.detached(),
        g2: w.g2.detached(),
        g3: w.g3.detached(),
        g4: w.g4.detached(),
    }
}

/// The tensors of the gates, the inputs and the first normalization in the order in which a walk
/// leaves them.
pub open spec fn gate_order<S: Scalars>(
    x: Model<S>,
    w: WeightsModel<S>,
    t: Stages<S>,
) -> Seq<Model<S>> {
    seq![
        x,
        produced::<S>(t.n1, 0),
        w.g1,
        produced::<S>(t.xn, 1),
        produced::<S>(t.xna, 2),
        w.wa,
        produced::<S>(t.ua, 3),
        produced::<S>(t.a, 4),
        w.wb,
        produced::<S>(t.ub, 5),
    ]
}

/// The tensors of the recurrence and the mix in the order in which a walk leaves them.
pub open spec fn mix_order<S: Scalars>(w: WeightsModel<S>, t: Stages<S>) -> Seq<Model<S>> {
    seq![
        produced::<S>(t.h, 6),
        w.g2,
        produced::<S>(t.hg, 7),
        produced::<S>(t.s2, 8),
        w.wo,
        produced::<S>(t.so, 9),
        produced::<S>(t.out1, 10),
    ]
}

/// The tensors of the second normalization, the feed-forward half and the loss in the order in
/// which a walk leaves them.
pub open spec fn feed_order<S: Scalars>(
    w: WeightsModel<S>,
    t: Stages<S>,
    y: Model<S>,
    loss: Model<S>,
) -> Seq<Model<S>> {
    seq![
        produced::<S>(t.n2, 11),
        w.g3,
        produced::<S>(t.xn2, 12),
        w.wf1,
        produced::<S>(t.f1, 13),
        produced::<S>(t.sf1, 14),
        w.wf2,
        produced::<S>(t.f2, 15),
        w.g4,
        produced::<S>(t.fg, 16),
        produced::<S>(y, 17),
        produced::<S>(loss, 18),
    ]
}

/// The walk over a block and a loss behind it.
#[verifier::rlimit(60)]
#[verifier::spinoff_prover]
pub(crate) proof fn lemma_block_walk<S: Scalars>(
    nodes: Seq<Node<S>>,
    slots: nat,
    x: Model<S>,
    w: WeightsModel<S>,
    eps: S::F,
    t: Stages<S>,
    l: Bends<S>,
    y: Model<S>,
    loss: Model<S>,
) -> (after: Set<Key>)
    requires
        block_nodes::<S>(nodes, x, w, eps, t, l),
        nodes.len() >= 19,
        nodes[18].sources() == seq![produced::<S>(y, 17)],
        on_leaves::<S>(x, w),
        t.ones.free(),
        slots >= 10,
        nodes.len() <= usize::MAX,
        slots <= usize::MAX,
    ensures
        walks::<S, Node<S>>(
            nodes,
            slots,
            produced::<S>(loss, 18),
            Set::<Key>::empty(),
            gate_order::<S>(x, w, t) + mix_order::<S>(w, t) + feed_order::<S>(w, t, y, loss),
            after,
        ),
{
    let n1 = produced::<S>(t.n1, 0);
    let xn = produced::<S>(t.xn, 1);
    let xna = produced::<S>(t.xna, 2);
    let ua = produced::<S>(t.ua, 3);
    let a = produced::<S>(t.a, 4);
    let ub = produced::<S>(t.ub, 5);
    let h = produced::<S>(t.h, 6);
    let hg = produced::<S>(t.hg, 7);
    let s2 = produced::<S>(t.s2, 8);
    let so = produced::<S>(t.so, 9);
    let out1 = produced::<S>(t.out1, 10);
    let n2 = produced::<S>(t.n2, 11);
    let xn2 = produced::<S>(t.xn2, 12);
    let f1 = produced::<S>(t.f1, 13);
    let sf1 = produced::<S>(t.sf1, 14);
    let f2 = produced::<S>(t.f2, 15);
    let fg = produced::<S>(t.fg, 16);
    let top = produced::<S>(y, 17);
    let end = produced::<S>(loss, 18);
    let none = Seq::<Model<S>>::empty();
    let k0 = Set::<Key>::empty();
    let k1 = k0.insert(Key::Node(18));
    let k2 = k1.insert(Key::Node(17));
    let k3 = k2.insert(Key::Node(10));
    let k4 = k3.insert(Key::Leaf(0));
    let k5 = k4.insert(Key::Node(9));
    let k6 = k5.insert(Key::Node(8));
    let k7 = k6.insert(Key::Node(7));
    let k8 = k7.insert(Key::Node(6));
    let k9 = k8.insert(Key::Node(4));
    let k10 = k9.insert(Key::Node(3));
    let k11 = k10.insert(Key::Node(2));
    let k12 = k11.insert(Key::Node(1));
    let k13 = k12.insert(Key::Node(0));
    let k14 = k13.insert(Key::Leaf(6));
    let k15 = k14.insert(Key::Leaf(1));
    let k16 = k15.insert(Key::Node(5));
    let k17 = k16.insert(Key::Leaf(2));
    let k18 = k17.insert(Key::Leaf(7));
    let k19 = k18.insert(Key::Leaf(3));
    let k20 = k19.insert(Key::Node(16));
    let k21 = k20.insert(Key::Node(15));
    let k22 = k21.insert(Key::Node(14));
    let k23 = k22.insert(Key::Node(13));
    let k24 = k23.insert(Key::Node(12));
    let k25 = k24.insert(Key::Node(11));
    let k26 = k25.insert(Key::Leaf(8));
    let k27 = k26.insert(Key::Leaf(4));
    let k28 = k27.insert(Key::Leaf(5));
    let k29 = k28.insert(Key::Leaf(9));
    lemma_walk_leaf::<S, Node<S>>(nodes, slots, x, 0, k3);
    lemma_walk_past::<S, Node<S>>(nodes, slots, x, k13);
    lemma_walk_one::<S, Node<S>>(nodes, slots, n1, 0, x, k12, none, k13);
    let v0 = none.push(n1);
    lemma_walk_leaf::<S, Node<S>>(nodes, slots, w.g1, 6, k13);
    lemma_walk_two::<S, Node<S>>(nodes, slots, xn, 1, n1, w.g1, k11, v0, k13, seq![w.g1], k14);
    let v1 = (v0 + seq![w.g1]).push(xn);
    lemma_walk_past::<S, Node<S>>(nodes, slots, t.ones, k14);
    lemma_walk_two::<S, Node<S>>(nodes, slots, xna, 2, xn, t.ones, k10, v1, k14, none, k14);
    let v2 = (v1 + none).push(xna);
    lemma_walk_leaf::<S, Node<S>>(nodes, slots, w.wa, 1, k14);
    lemma_walk_two::<S, Node<S>>(nodes, slots, ua, 3, xna, w.wa, k9, v2, k14, seq![w.wa], k15);
    let v3 = (v2 + seq![w.wa]).push(ua);
    lemma_walk_one::<S, Node<S>>(nodes, slots, a, 4, ua, k8, v3, k15);
    let v4 = v3.push(a);
    lemma_walk_past::<S, Node<S>>(nodes, slots, xn, k16);
    lemma_walk_leaf::<S, Node<S>>(nodes, slots, w.wb, 2, k16);
    lemma_walk_two::<S, Node<S>>(nodes, slots, ub, 5, xn, w.wb, k15, none, k16, seq![w.wb], k17);
    let v5 = (none + seq![w.wb]).push(ub);
    lemma_walk_two::<S, Node<S>>(nodes, slots, h, 6, a, ub, k7, v4, k15, v5, k17);
    let v6 = (v4 + v5).push(h);
    lemma_walk_leaf::<S, Node<S>>(nodes, slots, w.g2, 7, k17);
    lemma_walk_two::<S, Node<S>>(nodes, slots, hg, 7, h, w.g2, k6, v6, k17, seq![w.g2], k18);
    let v7 = (v6 + seq![w.g2]).push(hg);
    lemma_walk_one::<S, Node<S>>(nodes, slots, s2, 8, hg, k5, v7, k18);
    let v8 = v7.push(s2);
    lemma_walk_leaf::<S, Node<S>>(nodes, slots, w.wo, 3, k18);
    lemma_walk_two::<S, Node<S>>(nodes, slots, so, 9, s2, w.wo, k4, v8, k18, seq![w.wo], k19);
    let v9 = (v8 + seq![w.wo]).push(so);
    lemma_walk_two::<S, Node<S>>(nodes, slots, out1, 10, x, so, k2, seq![x], k4, v9, k19);
    let v10 = (seq![x] + v9).push(out1);
    lemma_walk_past::<S, Node<S>>(nodes, slots, out1, k25);
    lemma_walk_one::<S, Node<S>>(nodes, slots, n2, 11, out1, k24, none, k25);
    let v11 = none.push(n2);
    lemma_walk_leaf::<S, Node<S>>(nodes, slots, w.g3, 8, k25);
    lemma_walk_two::<S, Node<S>>(nodes, slots, xn2, 12, n2, w.g3, k23, v11, k25, seq![w.g3], k26);
    let v12 = (v11 + seq![w.g3]).push(xn2);
    lemma_walk_leaf::<S, Node<S>>(nodes, slots, w.wf1, 4, k26);
    lemma_walk_two::<S, Node<S>>(nodes, slots, f1, 13, xn2, w.wf1, k22, v12, k26, seq![w.wf1], k27);
    let v13 = (v12 + seq![w.wf1]).push(f1);
    lemma_walk_one::<S, Node<S>>(nodes, slots, sf1, 14, f1, k21, v13, k27);
    let v14 = v13.push(sf1);
    lemma_walk_leaf::<S, Node<S>>(nodes, slots, w.wf2, 5, k27);
    lemma_walk_two::<S, Node<S>>(nodes, slots, f2, 15, sf1, w.wf2, k20, v14, k27, seq![w.wf2], k28);
    let v15 = (v14 + seq![w.wf2]).push(f2);
    lemma_walk_leaf::<S, Node<S>>(nodes, slots, w.g4, 9, k28);
    lemma_walk_two::<S, Node<S>>(nodes, slots, fg, 16, f2, w.g4, k19, v15, k28, seq![w.g4], k29);
    let v16 = (v15 + seq![w.g4]).push(fg);
    lemma_walk_two::<S, Node<S>>(nodes, slots, top, 17, out1, fg, k1, v10, k19, v16, k29);
    let v17 = (v10 + v16).push(top);
    lemma_walk_one::<S, Node<S>>(nodes, slots, end, 18, top, k0, v17, k29);
    let v18 = v17.push(end);
    let order = gate_order::<S>(x, w, t) + mix_order::<S>(w, t) + feed_order::<S>(w, t, y, loss);
    assert(v18 =~= order);
    k29
}

/// The turns of the loss, the feed-forward half and the second normalization.
#[verifier::rlimit(60)]
#[verifier::spinoff_prover]
proof fn lemma_feed_pass<S: Scalars>(
    nodes: Seq<Node<S>>,
    slots: Seq<Option<Model<S>>>,
    x: Model<S>,
    w: WeightsModel<S>,
    eps: S::F,
    t: Stages<S>,
    l: Bends<S>,
    y: Model<S>,
    loss: Model<S>,
    seed: Model<S>,
    c: Cotangents<S>,
    post: Seq<Model<S>>,
    first_ws: Map<Key, Model<S>>,
    first_done: Map<usize, Model<S>>,
)
    requires
        nodes.len() >= 19,
        nodes[18].sources() == seq![produced::<S>(y, 17)],
        nodes[18].vjp(seed, Ok(seq![c.y])),
        feed_nodes::<S>(nodes, w, eps, t, l),
        feed_flows::<S>(loose(w), eps, t, l, c),
        on_leaves::<S>(x, w),
        slots.len() >= 10,
        forall|i: int| 0 <= i < 10 ==> #[trigger] slots[i] is None,
        nodes.len() <= usize::MAX,
        slots.len() <= usize::MAX,
        passes_over::<S, Node<S>>(
            nodes,
            slots,
            post,
            first_ws,
            first_done,
            map![Key::Node(18) => seed],
            Map::empty(),
        ),
    ensures
        passes_over::<S, Node<S>>(
            nodes,
            slots,
            feed_order::<S>(w, t, y, loss) + post,
            first_ws,
            first_done,
            map![Key::Node(10) => c.out1],
            map![9usize => c.g4, 5usize => c.wf2, 4usize => c.wf1, 8usize => c.g3],
        ),
{
    reveal(feed_flows);
    let out1 = produced::<S>(t.out1, 10);
    let n2 = produced::<S>(t.n2, 11);
    let xn2 = produced::<S>(t.xn2, 12);
    let f1 = produced::<S>(t.f1, 13);
    let sf1 = produced::<S>(t.sf1, 14);
    let f2 = produced::<S>(t.f2, 15);
    let fg = produced::<S>(t.fg, 16);
    let top = produced::<S>(y, 17);
    let end = produced::<S>(loss, 18);
    let w0: Map<Key, Model<S>> = map![Key::Node(18) => seed];
    let d0: Map<usize, Model<S>> = Map::empty();
    let q0 = post;
    lemma_pass_one::<S, Node<S>>(
        nodes,
        slots,
        q0,
        end,
        18,
        top,
        c.y,
        c.y,
        first_ws,
        first_done,
        w0,
        d0,
    );
    let r0 = w0.remove(Key::Node(18));
    let w1: Map<Key, Model<S>> = map![Key::Node(17) => c.y];
    assert(handed::<S>(r0, top, c.y) =~= w1);
    let q1 = seq![end] + q0;
    lemma_pass_two::<S, Node<S>>(
        nodes,
        slots,
        q1,
        top,
        17,
        out1,
        c.y,
        c.y,
        fg,
        c.y,
        c.y,
        first_ws,
        first_done,
        w1,
        d0,
    );
    let r1 = handed::<S>(w1.remove(Key::Node(17)), out1, c.y);
    let w2: Map<Key, Model<S>> = map![Key::Node(10) => c.y, Key::Node(16) => c.y];
    assert(handed::<S>(r1, fg, c.y) =~= w2);
    let q2 = seq![top] + q1;
    lemma_pass_two::<S, Node<S>>(
        nodes,
        slots,
        q2,
        fg,
        16,
        f2,
        c.f2,
        c.f2,
        w.g4,
        c.g4,
        c.g4,
        first_ws,
        first_done,
        w2,
        d0,
    );
    let r2 = handed::<S>(w2.remove(Key::Node(16)), f2, c.f2);
    let w3: Map<Key, Model<S>> = map![
        Key::Node(10) => c.y,
        Key::Node(15) => c.f2,
        Key::Leaf(9) => c.g4,
    ];
    assert(handed::<S>(r2, w.g4, c.g4) =~= w3);
    let q3 = seq![fg] + q2;
    lemma_pass_leaf::<S, Node<S>>(nodes, slots, q3, w.g4, 9, first_ws, first_done, w3, d0);
    assert(w3[Key::Leaf(9)] == c.g4);
    let d1 = d0.insert(9, c.g4);
    let w4: Map<Key, Model<S>> = map![Key::Node(10) => c.y, Key::Node(15) => c.f2];
    assert(w3.remove(Key::Leaf(9)) =~= w4);
    let q4 = seq![w.g4] + q3;
    lemma_pass_two::<S, Node<S>>(
        nodes,
        slots,
        q4,
        f2,
        15,
        sf1,
        c.sf1,
        c.sf1,
        w.wf2,
        c.wf2,
        c.wf2,
        first_ws,
        first_done,
        w4,
        d1,
    );
    let r4 = handed::<S>(w4.remove(Key::Node(15)), sf1, c.sf1);
    let w5: Map<Key, Model<S>> = map![
        Key::Node(10) => c.y,
        Key::Node(14) => c.sf1,
        Key::Leaf(5) => c.wf2,
    ];
    assert(handed::<S>(r4, w.wf2, c.wf2) =~= w5);
    let q5 = seq![f2] + q4;
    lemma_pass_leaf::<S, Node<S>>(nodes, slots, q5, w.wf2, 5, first_ws, first_done, w5, d1);
    assert(w5[Key::Leaf(5)] == c.wf2);
    let d2 = d1.insert(5, c.wf2);
    let w6: Map<Key, Model<S>> = map![Key::Node(10) => c.y, Key::Node(14) => c.sf1];
    assert(w5.remove(Key::Leaf(5)) =~= w6);
    let q6 = seq![w.wf2] + q5;
    lemma_pass_one::<S, Node<S>>(
        nodes,
        slots,
        q6,
        sf1,
        14,
        f1,
        c.f1,
        c.f1,
        first_ws,
        first_done,
        w6,
        d2,
    );
    let r6 = w6.remove(Key::Node(14));
    let w7: Map<Key, Model<S>> = map![Key::Node(10) => c.y, Key::Node(13) => c.f1];
    assert(handed::<S>(r6, f1, c.f1) =~= w7);
    let q7 = seq![sf1] + q6;
    lemma_pass_two::<S, Node<S>>(
        nodes,
        slots,
        q7,
        f1,
        13,
        xn2,
        c.xn2,
        c.xn2,
        w.wf1,
        c.wf1,
        c.wf1,
        first_ws,
        first_done,
        w7,
        d2,
    );
    let r7 = handed::<S>(w7.remove(Key::Node(13)), xn2, c.xn2);
    let w8: Map<Key, Model<S>> = map![
        Key::Node(10) => c.y,
        Key::Node(12) => c.xn2,
        Key::Leaf(4) => c.wf1,
    ];
    assert(handed::<S>(r7, w.wf1, c.wf1) =~= w8);
    let q8 = seq![f1] + q7;
    lemma_pass_leaf::<S, Node<S>>(nodes, slots, q8, w.wf1, 4, first_ws, first_done, w8, d2);
    assert(w8[Key::Leaf(4)] == c.wf1);
    let d3 = d2.insert(4, c.wf1);
    let w9: Map<Key, Model<S>> = map![Key::Node(10) => c.y, Key::Node(12) => c.xn2];
    assert(w8.remove(Key::Leaf(4)) =~= w9);
    let q9 = seq![w.wf1] + q8;
    lemma_pass_two::<S, Node<S>>(
        nodes,
        slots,
        q9,
        xn2,
        12,
        n2,
        c.n2,
        c.n2,
        w.g3,
        c.g3,
        c.g3,
        first_ws,
        first_done,
        w9,
        d3,
    );
    let r9 = handed::<S>(w9.remove(Key::Node(12)), n2, c.n2);
    let w10: Map<Key, Model<S>> = map![
        Key::Node(10) => c.y,
        Key::Node(11) => c.n2,
        Key::Leaf(8) => c.g3,
    ];
    assert(handed::<S>(r9, w.g3, c.g3) =~= w10);
    let q10 = seq![xn2] + q9;
    lemma_pass_leaf::<S, Node<S>>(nodes, slots, q10, w.g3, 8, first_ws, first_done, w10, d3);
    assert(w10[Key::Leaf(8)] == c.g3);
    let d4 = d3.insert(8, c.g3);
    let w11: Map<Key, Model<S>> = map![Key::Node(10) => c.y, Key::Node(11) => c.n2];
    assert(w10.remove(Key::Leaf(8)) =~= w11);
    let q11 = seq![w.g3] + q10;
    lemma_pass_one::<S, Node<S>>(
        nodes,
        slots,
        q11,
        n2,
        11,
        out1,
        c.back2,
        c.out1,
        first_ws,
        first_done,
        w11,
        d4,
    );
    let r11 = w11.remove(Key::Node(11));
    let w12: Map<Key, Model<S>> = map![Key::Node(10) => c.out1];
    assert(handed::<S>(r11, out1, c.out1) =~= w12);
    let q12 = seq![n2] + q11;
    assert(q12 =~= feed_order::<S>(w, t, y, loss) + post);
    let done: Map<usize, Model<S>> = map![
        9usize => c.g4,
        5usize => c.wf2,
        4usize => c.wf1,
        8usize => c.g3,
    ];
    assert(d4 =~= done);
}

/// The turns of the mix and the recurrence.
#[verifier::rlimit(60)]
#[verifier::spinoff_prover]
proof fn lemma_mix_pass<S: Scalars>(
    nodes: Seq<Node<S>>,
    slots: Seq<Option<Model<S>>>,
    x: Model<S>,
    w: WeightsModel<S>,
    t: Stages<S>,
    l: Bends<S>,
    c: Cotangents<S>,
    post: Seq<Model<S>>,
    first_ws: Map<Key, Model<S>>,
    first_done: Map<usize, Model<S>>,
)
    requires
        nodes.len() >= 19,
        mix_nodes::<S>(nodes, x, w, t, l),
        mix_flows::<S>(x, loose(w), t, l, c),
        on_leaves::<S>(x, w),
        slots.len() >= 10,
        forall|i: int| 0 <= i < 10 ==> #[trigger] slots[i] is None,
        nodes.len() <= usize::MAX,
        slots.len() <= usize::MAX,
        passes_over::<S, Node<S>>(
            nodes,
            slots,
            post,
            first_ws,
            first_done,
            map![Key::Node(10) => c.out1],
            map![9usize => c.g4, 5usize => c.wf2, 4usize => c.wf1, 8usize => c.g3],
        ),
    ensures
        passes_over::<S, Node<S>>(
            nodes,
            slots,
            mix_order::<S>(w, t) + post,
            first_ws,
            first_done,
            map![Key::Leaf(0) => c.out1, Key::Node(4) => c.a, Key::Node(5) => c.ub],
            map![
                9usize => c.g4,
                5usize => c.wf2,
                4usize => c.wf1,
                8usize => c.g3,
                3usize => c.wo,
                7usize => c.g2,
            ],
        ),
{
    reveal(mix_flows);
    let a = produced::<S>(t.a, 4);
    let ub = produced::<S>(t.ub, 5);
    let h = produced::<S>(t.h, 6);
    let hg = produced::<S>(t.hg, 7);
    let s2 = produced::<S>(t.s2, 8);
    let so = produced::<S>(t.so, 9);
    let out1 = produced::<S>(t.out1, 10);
    let w0: Map<Key, Model<S>> = map![Key::Node(10) => c.out1];
    let d0: Map<usize, Model<S>> = map![
        9usize => c.g4,
        5usize => c.wf2,
        4usize => c.wf1,
        8usize => c.g3,
    ];
    let q0 = post;
    lemma_pass_two::<S, Node<S>>(
        nodes,
        slots,
        q0,
        out1,
        10,
        x,
        c.out1,
        c.out1,
        so,
        c.out1,
        c.out1,
        first_ws,
        first_done,
        w0,
        d0,
    );
    let r0 = handed::<S>(w0.remove(Key::Node(10)), x, c.out1);
    let w1: Map<Key, Model<S>> = map![Key::Leaf(0) => c.out1, Key::Node(9) => c.out1];
    assert(handed::<S>(r0, so, c.out1) =~= w1);
    let q1 = seq![out1] + q0;
    lemma_pass_two::<S, Node<S>>(
        nodes,
        slots,
        q1,
        so,
        9,
        s2,
        c.s2,
        c.s2,
        w.wo,
        c.wo,
        c.wo,
        first_ws,
        first_done,
        w1,
        d0,
    );
    let r1 = handed::<S>(w1.remove(Key::Node(9)), s2, c.s2);
    let w2: Map<Key, Model<S>> = map![
        Key::Leaf(0) => c.out1,
        Key::Node(8) => c.s2,
        Key::Leaf(3) => c.wo,
    ];
    assert(handed::<S>(r1, w.wo, c.wo) =~= w2);
    let q2 = seq![so] + q1;
    lemma_pass_leaf::<S, Node<S>>(nodes, slots, q2, w.wo, 3, first_ws, first_done, w2, d0);
    assert(w2[Key::Leaf(3)] == c.wo);
    let d1 = d0.insert(3, c.wo);
    let w3: Map<Key, Model<S>> = map![Key::Leaf(0) => c.out1, Key::Node(8) => c.s2];
    assert(w2.remove(Key::Leaf(3)) =~= w3);
    let q3 = seq![w.wo] + q2;
    lemma_pass_one::<S, Node<S>>(
        nodes,
        slots,
        q3,
        s2,
        8,
        hg,
        c.hg,
        c.hg,
        first_ws,
        first_done,
        w3,
        d1,
    );
    let r3 = w3.remove(Key::Node(8));
    let w4: Map<Key, Model<S>> = map![Key::Leaf(0) => c.out1, Key::Node(7) => c.hg];
    assert(handed::<S>(r3, hg, c.hg) =~= w4);
    let q4 = seq![s2] + q3;
    lemma_pass_two::<S, Node<S>>(
        nodes,
        slots,
        q4,
        hg,
        7,
        h,
        c.h,
        c.h,
        w.g2,
        c.g2,
        c.g2,
        first_ws,
        first_done,
        w4,
        d1,
    );
    let r4 = handed::<S>(w4.remove(Key::Node(7)), h, c.h);
    let w5: Map<Key, Model<S>> = map![
        Key::Leaf(0) => c.out1,
        Key::Node(6) => c.h,
        Key::Leaf(7) => c.g2,
    ];
    assert(handed::<S>(r4, w.g2, c.g2) =~= w5);
    let q5 = seq![hg] + q4;
    lemma_pass_leaf::<S, Node<S>>(nodes, slots, q5, w.g2, 7, first_ws, first_done, w5, d1);
    assert(w5[Key::Leaf(7)] == c.g2);
    let d2 = d1.insert(7, c.g2);
    let w6: Map<Key, Model<S>> = map![Key::Leaf(0) => c.out1, Key::Node(6) => c.h];
    assert(w5.remove(Key::Leaf(7)) =~= w6);
    let q6 = seq![w.g2] + q5;
    lemma_pass_two::<S, Node<S>>(
        nodes,
        slots,
        q6,
        h,
        6,
        a,
        c.a,
        c.a,
        ub,
        c.ub,
        c.ub,
        first_ws,
        first_done,
        w6,
        d2,
    );
    let r6 = handed::<S>(w6.remove(Key::Node(6)), a, c.a);
    let w7: Map<Key, Model<S>> = map![
        Key::Leaf(0) => c.out1,
        Key::Node(4) => c.a,
        Key::Node(5) => c.ub,
    ];
    assert(handed::<S>(r6, ub, c.ub) =~= w7);
    let q7 = seq![h] + q6;
    assert(q7 =~= mix_order::<S>(w, t) + post);
    let done: Map<usize, Model<S>> = map![
        9usize => c.g4,
        5usize => c.wf2,
        4usize => c.wf1,
        8usize => c.g3,
        3usize => c.wo,
        7usize => c.g2,
    ];
    assert(d2 =~= done);
}

/// The turns of the gates, the inputs and the first normalization.
#[verifier::rlimit(60)]
#[verifier::spinoff_prover]
proof fn lemma_gate_pass<S: Scalars>(
    nodes: Seq<Node<S>>,
    slots: Seq<Option<Model<S>>>,
    x: Model<S>,
    w: WeightsModel<S>,
    eps: S::F,
    t: Stages<S>,
    l: Bends<S>,
    c: Cotangents<S>,
    post: Seq<Model<S>>,
    first_ws: Map<Key, Model<S>>,
    first_done: Map<usize, Model<S>>,
)
    requires
        nodes.len() >= 19,
        gate_nodes::<S>(nodes, x, w, eps, t, l),
        gate_flows::<S>(x, loose(w), eps, t, l, c),
        t.ones.free(),
        on_leaves::<S>(x, w),
        slots.len() >= 10,
        forall|i: int| 0 <= i < 10 ==> #[trigger] slots[i] is None,
        nodes.len() <= usize::MAX,
        slots.len() <= usize::MAX,
        passes_over::<S, Node<S>>(
            nodes,
            slots,
            post,
            first_ws,
            first_done,
            map![Key::Leaf(0) => c.out1, Key::Node(4) => c.a, Key::Node(5) => c.ub],
            map![
                9usize => c.g4,
                5usize => c.wf2,
                4usize => c.wf1,
                8usize => c.g3,
                3usize => c.wo,
                7usize => c.g2,
            ],
        ),
    ensures
        passes_over::<S, Node<S>>(
            nodes,
            slots,
            gate_order::<S>(x, w, t) + post,
            first_ws,
            first_done,
            Map::empty(),
            map![
                9usize => c.g4,
                5usize => c.wf2,
                4usize => c.wf1,
                8usize => c.g3,
                3usize => c.wo,
                7usize => c.g2,
                2usize => c.wb,
                1usize => c.wa,
                6usize => c.g1,
                0usize => c.x,
            ],
        ),
{
    reveal(gate_flows);
    let n1 = produced::<S>(t.n1, 0);
    let xn = produced::<S>(t.xn, 1);
    let xna = produced::<S>(t.xna, 2);
    let ua = produced::<S>(t.ua, 3);
    let a = produced::<S>(t.a, 4);
    let ub = produced::<S>(t.ub, 5);
    let w0: Map<Key, Model<S>> = map![
        Key::Leaf(0) => c.out1,
        Key::Node(4) => c.a,
        Key::Node(5) => c.ub,
    ];
    let d0: Map<usize, Model<S>> = map![
        9usize => c.g4,
        5usize => c.wf2,
        4usize => c.wf1,
        8usize => c.g3,
        3usize => c.wo,
        7usize => c.g2,
    ];
    let q0 = post;
    lemma_pass_two::<S, Node<S>>(
        nodes,
        slots,
        q0,
        ub,
        5,
        xn,
        c.through,
        c.through,
        w.wb,
        c.wb,
        c.wb,
        first_ws,
        first_done,
        w0,
        d0,
    );
    let r0 = handed::<S>(w0.remove(Key::Node(5)), xn, c.through);
    let w1: Map<Key, Model<S>> = map![
        Key::Leaf(0) => c.out1,
        Key::Node(4) => c.a,
        Key::Node(1) => c.through,
        Key::Leaf(2) => c.wb,
    ];
    assert(handed::<S>(r0, w.wb, c.wb) =~= w1);
    let q1 = seq![ub] + q0;
    lemma_pass_leaf::<S, Node<S>>(nodes, slots, q1, w.wb, 2, first_ws, first_done, w1, d0);
    assert(w1[Key::Leaf(2)] == c.wb);
    let d1 = d0.insert(2, c.wb);
    let w2: Map<Key, Model<S>> = map![
        Key::Leaf(0) => c.out1,
        Key::Node(4) => c.a,
        Key::Node(1) => c.through,
    ];
    assert(w1.remove(Key::Leaf(2)) =~= w2);
    let q2 = seq![w.wb] + q1;
    lemma_pass_one::<S, Node<S>>(
        nodes,
        slots,
        q2,
        a,
        4,
        ua,
        c.ua,
        c.ua,
        first_ws,
        first_done,
        w2,
        d1,
    );
    let r2 = w2.remove(Key::Node(4));
    let w3: Map<Key, Model<S>> = map![
        Key::Leaf(0) => c.out1,
        Key::Node(1) => c.through,
        Key::Node(3) => c.ua,
    ];
    assert(handed::<S>(r2, ua, c.ua) =~= w3);
    let q3 = seq![a] + q2;
    lemma_pass_two::<S, Node<S>>(
        nodes,
        slots,
        q3,
        ua,
        3,
        xna,
        c.xna,
        c.xna,
        w.wa,
        c.wa,
        c.wa,
        first_ws,
        first_done,
        w3,
        d1,
    );
    let r3 = handed::<S>(w3.remove(Key::Node(3)), xna, c.xna);
    let w4: Map<Key, Model<S>> = map![
        Key::Leaf(0) => c.out1,
        Key::Node(1) => c.through,
        Key::Node(2) => c.xna,
        Key::Leaf(1) => c.wa,
    ];
    assert(handed::<S>(r3, w.wa, c.wa) =~= w4);
    let q4 = seq![ua] + q3;
    lemma_pass_leaf::<S, Node<S>>(nodes, slots, q4, w.wa, 1, first_ws, first_done, w4, d1);
    assert(w4[Key::Leaf(1)] == c.wa);
    let d2 = d1.insert(1, c.wa);
    let w5: Map<Key, Model<S>> = map![
        Key::Leaf(0) => c.out1,
        Key::Node(1) => c.through,
        Key::Node(2) => c.xna,
    ];
    assert(w4.remove(Key::Leaf(1)) =~= w5);
    let q5 = seq![w.wa] + q4;
    lemma_pass_two::<S, Node<S>>(
        nodes,
        slots,
        q5,
        xna,
        2,
        xn,
        c.left,
        c.xn,
        t.ones,
        c.right,
        c.right,
        first_ws,
        first_done,
        w5,
        d2,
    );
    let r5 = handed::<S>(w5.remove(Key::Node(2)), xn, c.xn);
    let w6: Map<Key, Model<S>> = map![Key::Leaf(0) => c.out1, Key::Node(1) => c.xn];
    assert(handed::<S>(r5, t.ones, c.right) =~= w6);
    let q6 = seq![xna] + q5;
    lemma_pass_two::<S, Node<S>>(
        nodes,
        slots,
        q6,
        xn,
        1,
        n1,
        c.n1,
        c.n1,
        w.g1,
        c.g1,
        c.g1,
        first_ws,
        first_done,
        w6,
        d2,
    );
    let r6 = handed::<S>(w6.remove(Key::Node(1)), n1, c.n1);
    let w7: Map<Key, Model<S>> = map![
        Key::Leaf(0) => c.out1,
        Key::Node(0) => c.n1,
        Key::Leaf(6) => c.g1,
    ];
    assert(handed::<S>(r6, w.g1, c.g1) =~= w7);
    let q7 = seq![xn] + q6;
    lemma_pass_leaf::<S, Node<S>>(nodes, slots, q7, w.g1, 6, first_ws, first_done, w7, d2);
    assert(w7[Key::Leaf(6)] == c.g1);
    let d3 = d2.insert(6, c.g1);
    let w8: Map<Key, Model<S>> = map![Key::Leaf(0) => c.out1, Key::Node(0) => c.n1];
    assert(w7.remove(Key::Leaf(6)) =~= w8);
    let q8 = seq![w.g1] + q7;
    lemma_pass_one::<S, Node<S>>(
        nodes,
        slots,
        q8,
        n1,
        0,
        x,
        c.back1,
        c.x,
        first_ws,
        first_done,
        w8,
        d3,
    );
    let r8 = w8.remove(Key::Node(0));
    let w9: Map<Key, Model<S>> = map![Key::Leaf(0) => c.x];
    assert(handed::<S>(r8, x, c.x) =~= w9);
    let q9 = seq![n1] + q8;
    lemma_pass_leaf::<S, Node<S>>(nodes, slots, q9, x, 0, first_ws, first_done, w9, d3);
    assert(w9[Key::Leaf(0)] == c.x);
    let d4 = d3.insert(0, c.x);
    let w10: Map<Key, Model<S>> = Map::empty();
    assert(w9.remove(Key::Leaf(0)) =~= w10);
    let q10 = seq![x] + q9;
    assert(q10 =~= gate_order::<S>(x, w, t) + post);
    let done: Map<usize, Model<S>> = map![
        9usize => c.g4,
        5usize => c.wf2,
        4usize => c.wf1,
        8usize => c.g3,
        3usize => c.wo,
        7usize => c.g2,
        2usize => c.wb,
        1usize => c.wa,
        6usize => c.g1,
        0usize => c.x,
    ];
    assert(d4 =~= done);
}

/// The reverse pass over a block and a loss behind it leaves the slopes in the slots.
pub(crate) proof fn lemma_block_pass<S: Scalars>(
    nodes: Seq<Node<S>>,
    slots: Seq<Option<Model<S>>>,
    x: Model<S>,
    w: WeightsModel<S>,
    eps: S::F,
    t: Stages<S>,
    l: Bends<S>,
    y: Model<S>,
    loss: Model<S>,
    c: Cotangents<S>,
    seed: Model<S>,
)
    requires
        block_nodes::<S>(nodes, x, w, eps, t, l),
        nodes.len() >= 19,
        nodes[18].sources() == seq![produced::<S>(y, 17)],
        nodes[18].vjp(seed, Ok(seq![c.y])),
        feed_flows::<S>(loose(w), eps, t, l, c),
        mix_flows::<S>(x, loose(w), t, l, c),
        gate_flows::<S>(x, loose(w), eps, t, l, c),
        on_leaves::<S>(x, w),
        t.ones.free(),
        slots.len() >= 10,
        forall|i: int| 0 <= i < 10 ==> #[trigger] slots[i] is None,
        nodes.len() <= usize::MAX,
        slots.len() <= usize::MAX,
    ensures
        passes_over::<S, Node<S>>(
            nodes,
            slots,
            gate_order::<S>(x, w, t) + mix_order::<S>(w, t) + feed_order::<S>(w, t, y, loss),
            map![Key::Node(18) => seed],
            Map::empty(),
            Map::empty(),
            map![
                9usize => c.g4,
                5usize => c.wf2,
                4usize => c.wf1,
                8usize => c.g3,
                3usize => c.wo,
                7usize => c.g2,
                2usize => c.wb,
                1usize => c.wa,
                6usize => c.g1,
                0usize => c.x,
            ],
        ),
{
    let none = Seq::<Model<S>>::empty();
    let ws: Map<Key, Model<S>> = map![Key::Node(18) => seed];
    let done: Map<usize, Model<S>> = Map::empty();
    let last = feed_order::<S>(w, t, y, loss);
    let mid = mix_order::<S>(w, t);
    let first = gate_order::<S>(x, w, t);
    lemma_pass_none::<S, Node<S>>(nodes, slots, ws, done);
    lemma_feed_pass::<S>(nodes, slots, x, w, eps, t, l, y, loss, seed, c, none, ws, done);
    assert(last + none =~= last);
    lemma_mix_pass::<S>(nodes, slots, x, w, t, l, c, last, ws, done);
    lemma_gate_pass::<S>(nodes, slots, x, w, eps, t, l, c, mid + last, ws, done);
    assert(first + (mid + last) =~= first + mid + last);
}

} // verus!
