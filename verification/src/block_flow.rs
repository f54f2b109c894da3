//! The cotangents that the fused block passes through, one single operation after the other.
use vstd::prelude::*;
use crate::ad::{sigmoid_local_out, silu_local_out};
use crate::block::{composed, Stages};
use crate::block_grads::{
    alike, lemma_add_pieces, lemma_gain_pieces, lemma_gate_slopes, lemma_local_piece,
    lemma_silu_slopes, lemma_turned_sum, one_sigmoid,
};
use crate::block_shapes::{
    law_matrix_slopes_are_matmuls, law_norm_slope_is_rms_norms, law_scan_slopes_are_gated_scans,
    lemma_gate_shapes, lemma_joined_last, lemma_times, lemma_top, lemma_turned_product,
    lemma_widened, BlockSizes,
};
use crate::cpu::{add_out, mul_out};
use crate::device::Device;
use crate::dtype::Dtype;
use crate::error::Error;
use crate::fused::{
    block_slopes_again, block_slopes_feed, block_slopes_gained, block_slopes_gate,
    block_slopes_input, block_slopes_last, block_slopes_mix, block_slopes_norm, block_slopes_scan,
    block_slopes_tail, column_shape, feed_slopes_bent, feed_slopes_first, feed_slopes_hidden,
    feed_slopes_input, feed_slopes_last, feed_slopes_local, feed_slopes_out, first_norm_back,
    first_norm_scaled, first_norm_slopes_out, first_norm_sum, fused_block_bwd_out, gain_out,
    gain_slope_out, gain_slope_sum, gate_slope_local, gate_slope_of_out, gate_slope_scaled,
    input_slopes_gate, input_slopes_input, input_slopes_out, input_slopes_sum,
    input_slopes_through_gate, input_slopes_through_input, input_slopes_top, joint_out, mapped_out,
    mix_slopes_bent, mix_slopes_gain, mix_slopes_gained, mix_slopes_local, mix_slopes_out,
    mix_slopes_states, mix_slopes_weight, rest_rel, second_norm_back, second_norm_gain,
    second_norm_scaled, second_norm_slopes_out, second_norm_sum, silu_f32_out, top_of_out,
    turned_product_out, weight_slope_out, widened_out, BlockSlopesModel, WeightsModel,
};
use crate::guarded::{join_out, rms_back_out, scan_back_out};
use crate::index::fits;
use crate::joining::cat_out;
use crate::matmul::matmul_out;
use crate::ring::{lemma_matrix_volume, Ring};
use crate::routes::cat_parts;
use crate::rows::rms_norm_out;
use crate::rules::{add_parts, local_parts, matmul_parts, mul_parts, rms_parts, scan_parts};
use crate::scalar::Scalars;
use crate::scan::gated_scan_out;
use crate::slopes::silu_slope_rel;
use crate::tensor::{gives, ones_out, passes, Model, Outcome};
use crate::unary::{sigmoid_out, silu_out};
use crate::widened::{lemma_ones_pieces, lemma_wide_product};

verus! {

/// A normalization, a product of elements, a column of ones, tensors side by side, a matrix
/// product, a sigmoid, a SiLU, a recurrence and a sum have one value each.
#[verifier::opaque]
pub open spec fn settled<S: Scalars>() -> bool {
    &&& forall|x: Model<S>, eps: S::F, a: Model<S>, b: Model<S>|
        #![trigger rms_norm_out::<S>(x, eps, Ok(a)), rms_norm_out::<S>(x, eps, Ok(b))]
        rms_norm_out::<S>(x, eps, Ok(a)) && rms_norm_out::<S>(x, eps, Ok(b)) ==> a == b
    &&& forall|x: Model<S>, y: Model<S>, a: Model<S>, b: Model<S>|
        #![trigger mul_out::<S>(x, y, Ok(a)), mul_out::<S>(x, y, Ok(b))]
        mul_out::<S>(x, y, Ok(a)) && mul_out::<S>(x, y, Ok(b)) ==> a == b
    &&& forall|s: Seq<usize>, d: Dtype, a: Model<S>, b: Model<S>|
        #![trigger ones_out::<S>(s, d, Ok(a)), ones_out::<S>(s, d, Ok(b))]
        ones_out::<S>(s, d, Ok(a)) && ones_out::<S>(s, d, Ok(b)) ==> a == b
    &&& forall|ms: Seq<Model<S>>, k: int, a: Model<S>, b: Model<S>|
        #![trigger cat_out::<S>(ms, k, Ok(a)), cat_out::<S>(ms, k, Ok(b))]
        cat_out::<S>(ms, k, Ok(a)) && cat_out::<S>(ms, k, Ok(b)) ==> a == b
    &&& forall|x: Model<S>, y: Model<S>, a: Model<S>, b: Model<S>|
        #![trigger matmul_out::<S>(x, y, Ok(a)), matmul_out::<S>(x, y, Ok(b))]
        matmul_out::<S>(x, y, Ok(a)) && matmul_out::<S>(x, y, Ok(b)) ==> a == b
    &&& forall|x: Model<S>, a: Model<S>, b: Model<S>|
        #![trigger sigmoid_out::<S>(x, Ok(a)), sigmoid_out::<S>(x, Ok(b))]
        sigmoid_out::<S>(x, Ok(a)) && sigmoid_out::<S>(x, Ok(b)) ==> a == b
    &&& forall|x: Model<S>, a: Model<S>, b: Model<S>|
        #![trigger silu_out::<S>(x, Ok(a)), silu_out::<S>(x, Ok(b))]
        silu_out::<S>(x, Ok(a)) && silu_out::<S>(x, Ok(b)) ==> a == b
    &&& forall|x: Model<S>, y: Model<S>, a: Model<S>, b: Model<S>|
        #![trigger gated_scan_out::<S>(x, y, Ok(a)), gated_scan_out::<S>(x, y, Ok(b))]
        gated_scan_out::<S>(x, y, Ok(a)) && gated_scan_out::<S>(x, y, Ok(b)) ==> a == b
    &&& forall|x: Model<S>, y: Model<S>, a: Model<S>, b: Model<S>|
        #![trigger add_out::<S>(x, y, Ok(a)), add_out::<S>(x, y, Ok(b))]
        add_out::<S>(x, y, Ok(a)) && add_out::<S>(x, y, Ok(b)) ==> a == b
}

/// A block that is put together from single operations passes through one list of values.
pub proof fn law_stages_settle<S: Scalars>(
    x: Model<S>,
    w: WeightsModel<S>,
    eps: S::F,
    t: Stages<S>,
    u: Stages<S>,
    y: Model<S>,
    z: Model<S>,
)
    requires
        settled::<S>(),
        composed::<S>(x, w, eps, t, y),
        composed::<S>(x, w, eps, u, z),
    ensures
        t == u,
        y == z,
{
    reveal(settled);
}

/// The cotangents of the feed-forward half: at SiLU's value and at its argument.
proof fn lemma_feed_flow<S: Scalars>(
    ring: Ring<S::F>,
    z: BlockSizes,
    f1: Model<S>,
    met: Model<S>,
    local: Model<S>,
    sf1: Model<S>,
    xn2: Model<S>,
    wf1: Model<S>,
    wf2: Model<S>,
    dm: Model<S>,
    p: (Model<S>, Model<S>, Model<S>),
) -> (c: (Model<S>, Model<S>))
    requires
        ring.computes::<S>(),
        one_sigmoid::<S::F, S>(),
        settled::<S>(),
        f1.shape == z.steps_of(z.hidden),
        xn2.shape == z.steps_of(z.features),
        wf1.shape == seq![z.features, z.hidden],
        wf2.shape == seq![z.hidden, z.features],
        dm.shape == z.steps_of(z.features),
        silu_out::<S>(f1, Ok(sf1)),
        alike::<S>(met, f1),
        silu_local_out::<S>(met, Ok(local)),
        feed_slopes_out::<S>(f1, xn2, wf1, wf2, dm, Ok(p)),
    ensures
        matmul_parts::<S>(sf1, wf2, dm, Ok(seq![c.0, p.0])),
        local_parts::<S>(local, c.0, Ok(seq![c.1])),
        matmul_parts::<S>(xn2, wf1, c.1, Ok(seq![p.2, p.1])),
        p.2.shape == z.steps_of(z.features),
{
    reveal(feed_slopes_out);
    let r: Result<(Model<S>, Model<S>, Model<S>), Error> = Ok(p);
    let so = choose|o: Outcome<S>| #[trigger]
        silu_f32_out::<S>(f1, o) && passes(
            o,
            r,
            feed_slopes_last::<S>(f1, xn2, wf1, wf2, dm, o->Ok_0, r),
        );
    assert(so->Ok_0 == sf1) by {
        reveal(settled);
        assert(silu_out::<S>(f1, Ok(so->Ok_0)));
    }
    let gwf2 = choose|o: Outcome<S>| #[trigger]
        weight_slope_out::<S>(so->Ok_0, dm, o) && passes(
            o,
            r,
            feed_slopes_hidden::<S>(f1, xn2, wf1, wf2, dm, o->Ok_0, r),
        );
    let dsf1 = choose|o: Outcome<S>| #[trigger]
        turned_product_out::<S>(dm, wf2, o) && passes(
            o,
            r,
            feed_slopes_local::<S>(f1, xn2, wf1, gwf2->Ok_0, o->Ok_0, r),
        );
    let sl = choose|o: Outcome<S>| #[trigger]
        mapped_out::<S>(f1, silu_slope_rel::<S::F, S>(), o) && passes(
            o,
            r,
            feed_slopes_bent::<S>(xn2, wf1, gwf2->Ok_0, dsf1->Ok_0, o->Ok_0, r),
        );
    let pre = choose|o: Outcome<S>| #[trigger]
        gain_out::<S>(dsf1->Ok_0, sl->Ok_0, o) && passes(
            o,
            r,
            feed_slopes_first::<S>(xn2, wf1, gwf2->Ok_0, o->Ok_0, r),
        );
    let gwf1 = choose|o: Outcome<S>| #[trigger]
        weight_slope_out::<S>(xn2, pre->Ok_0, o) && passes(
            o,
            r,
            feed_slopes_input::<S>(wf1, gwf2->Ok_0, pre->Ok_0, o->Ok_0, r),
        );
    let (b, s, d, f) = (z.batches, z.steps, z.features, z.hidden);
    lemma_turned_product::<S>(dm, wf2, dsf1->Ok_0, b, s, f, d);
    lemma_joined_last(f1.shape);
    lemma_silu_slopes::<S>(ring, met, local, f1, sl->Ok_0);
    lemma_local_piece::<S>(local, dsf1->Ok_0, pre->Ok_0);
    assert(sf1.shape == z.steps_of(f));
    assert(sl->Ok_0.shape == z.steps_of(f));
    assert(pre->Ok_0.shape == z.steps_of(f));
    law_matrix_slopes_are_matmuls::<S>(z, f, d, sf1, wf2, dm, dsf1->Ok_0, gwf2->Ok_0);
    law_matrix_slopes_are_matmuls::<S>(z, d, f, xn2, wf1, pre->Ok_0, p.2, gwf1->Ok_0);
    lemma_turned_product::<S>(pre->Ok_0, wf1, p.2, b, s, d, f);
    (dsf1->Ok_0, pre->Ok_0)
}

/// The cotangents of the second normalization: at its value and behind it.
proof fn lemma_second_norm_flow<S: Scalars>(
    ring: Ring<S::F>,
    z: BlockSizes,
    out1: Model<S>,
    n2: Model<S>,
    g3: Model<S>,
    eps: S::F,
    dxn2: Model<S>,
    gy: Model<S>,
    p: (Model<S>, Model<S>),
) -> (c: (Model<S>, Model<S>))
    requires
        ring.computes::<S>(),
        settled::<S>(),
        z.steps * z.features <= usize::MAX,
        out1.shape == z.steps_of(z.features),
        g3.shape == seq![z.features],
        dxn2.shape == z.steps_of(z.features),
        gy.shape == z.steps_of(z.features),
        rms_norm_out::<S>(out1, eps, Ok(n2)),
        second_norm_slopes_out::<S>(out1, g3, eps, dxn2, gy, Ok(p)),
    ensures
        mul_parts::<S>(n2, g3, dxn2, Ok(seq![c.0, p.0])),
        rms_parts::<S>(out1, eps, c.0, Ok(seq![c.1])),
        add_out::<S>(gy, c.1, Ok(p.1)),
        p.1.shape == z.steps_of(z.features),
{
    reveal(second_norm_slopes_out);
    let r: Result<(Model<S>, Model<S>), Error> = Ok(p);
    let r2 = choose|o: Outcome<S>| #[trigger]
        rms_norm_out::<S>(out1, eps, o) && passes(
            o,
            r,
            second_norm_gain::<S>(out1, g3, eps, dxn2, gy, o->Ok_0, r),
        );
    assert(r2->Ok_0 == n2) by {
        reveal(settled);
        assert(rms_norm_out::<S>(out1, eps, Ok(r2->Ok_0)));
    }
    let gg3 = choose|o: Outcome<S>| #[trigger]
        gain_slope_out::<S>(dxn2, r2->Ok_0, o) && passes(
            o,
            r,
            second_norm_scaled::<S>(out1, g3, eps, dxn2, gy, o->Ok_0, r),
        );
    let scaled = choose|o: Outcome<S>| #[trigger]
        gain_out::<S>(dxn2, g3, o) && passes(
            o,
            r,
            second_norm_back::<S>(out1, eps, gy, gg3->Ok_0, o->Ok_0, r),
        );
    let back = choose|o: Outcome<S>| #[trigger]
        rms_back_out::<S>("fused_block"@, out1, scaled->Ok_0, eps, o) && passes(
            o,
            r,
            second_norm_sum::<S>(gy, gg3->Ok_0, o->Ok_0, r),
        );
    let sum = choose|o: Outcome<S>| #[trigger]
        joint_out::<S>(back->Ok_0, gy, o) && passes(o, r, gives(r, (gg3->Ok_0, o->Ok_0)));
    lemma_joined_last(gy.shape);
    assert(n2.shape == out1.shape);
    assert(n2.data is F32) by {
        let go = choose|o: Outcome<S>| #[trigger]
            gain_out::<S>(dxn2, n2, o) && passes(
                o,
                gg3,
                gain_slope_sum::<S>(o->Ok_0, gg3),
            );
    }
    lemma_gain_pieces::<S>(
        ring,
        z.batches,
        z.steps,
        z.features,
        n2,
        g3,
        dxn2,
        n2,
        scaled->Ok_0,
        gg3->Ok_0,
    );
    law_norm_slope_is_rms_norms::<S>(out1, scaled->Ok_0, eps, back->Ok_0);
    assert(back->Ok_0.shape == gy.shape);
    lemma_turned_sum::<S>(ring, back->Ok_0, gy, back->Ok_0, gy, sum->Ok_0);
    (scaled->Ok_0, back->Ok_0)
}

/// The cotangents of the mix: at SiLU's value and at its argument.
proof fn lemma_mix_flow<S: Scalars>(
    ring: Ring<S::F>,
    z: BlockSizes,
    h: Model<S>,
    hg: Model<S>,
    met: Model<S>,
    local: Model<S>,
    s2: Model<S>,
    wo: Model<S>,
    g2: Model<S>,
    dout1: Model<S>,
    p: (Model<S>, Model<S>, Model<S>),
) -> (c: (Model<S>, Model<S>))
    requires
        ring.computes::<S>(),
        one_sigmoid::<S::F, S>(),
        settled::<S>(),
        z.steps * z.states <= usize::MAX,
        h.shape == z.steps_of(z.states),
        s2.shape == z.steps_of(z.states),
        wo.shape == seq![z.states, z.features],
        g2.shape == seq![z.states],
        dout1.shape == z.steps_of(z.features),
        mul_out::<S>(h, g2, Ok(hg)),
        alike::<S>(met, hg),
        silu_local_out::<S>(met, Ok(local)),
        mix_slopes_out::<S>(h, s2, wo, g2, dout1, Ok(p)),
    ensures
        matmul_parts::<S>(s2, wo, dout1, Ok(seq![c.0, p.0])),
        local_parts::<S>(local, c.0, Ok(seq![c.1])),
        mul_parts::<S>(h, g2, c.1, Ok(seq![p.1, p.2])),
{
    reveal(mix_slopes_out);
    let r: Result<(Model<S>, Model<S>, Model<S>), Error> = Ok(p);
    let gs2 = choose|o: Outcome<S>| #[trigger]
        turned_product_out::<S>(dout1, wo, o) && passes(
            o,
            r,
            mix_slopes_weight::<S>(h, s2, g2, dout1, o->Ok_0, r),
        );
    let gwo = choose|o: Outcome<S>| #[trigger]
        weight_slope_out::<S>(s2, dout1, o) && passes(
            o,
            r,
            mix_slopes_gained::<S>(h, g2, gs2->Ok_0, o->Ok_0, r),
        );
    let ho = choose|o: Outcome<S>| #[trigger]
        gain_out::<S>(h, g2, o) && passes(
            o,
            r,
            mix_slopes_local::<S>(h, g2, gs2->Ok_0, gwo->Ok_0, o->Ok_0, r),
        );
    assert(ho->Ok_0 == hg) by {
        reveal(settled);
        assert(mul_out::<S>(h, g2, Ok(ho->Ok_0)));
    }
    let sl = choose|o: Outcome<S>| #[trigger]
        mapped_out::<S>(ho->Ok_0, silu_slope_rel::<S::F, S>(), o) && passes(
            o,
            r,
            mix_slopes_bent::<S>(h, g2, gs2->Ok_0, gwo->Ok_0, o->Ok_0, r),
        );
    let ghg = choose|o: Outcome<S>| #[trigger]
        gain_out::<S>(gs2->Ok_0, sl->Ok_0, o) && passes(
            o,
            r,
            mix_slopes_states::<S>(h, g2, gwo->Ok_0, o->Ok_0, r),
        );
    let dh = choose|o: Outcome<S>| #[trigger]
        gain_out::<S>(ghg->Ok_0, g2, o) && passes(
            o,
            r,
            mix_slopes_gain::<S>(h, gwo->Ok_0, ghg->Ok_0, o->Ok_0, r),
        );
    let (b, s, d, n) = (z.batches, z.steps, z.features, z.states);
    lemma_turned_product::<S>(dout1, wo, gs2->Ok_0, b, s, n, d);
    lemma_joined_last(h.shape);
    assert(hg.shape == h.shape);
    assert(sl->Ok_0.shape == h.shape);
    assert(ghg->Ok_0.shape == h.shape);
    lemma_silu_slopes::<S>(ring, met, local, hg, sl->Ok_0);
    lemma_local_piece::<S>(local, gs2->Ok_0, ghg->Ok_0);
    law_matrix_slopes_are_matmuls::<S>(z, n, d, s2, wo, dout1, gs2->Ok_0, gwo->Ok_0);
    let gg2 = choose|o: Outcome<S>| #[trigger]
        gain_slope_out::<S>(ghg->Ok_0, h, o) && passes(
            o,
            r,
            gives(r, (gwo->Ok_0, dh->Ok_0, o->Ok_0)),
        );
    lemma_gain_pieces::<S>(ring, b, s, n, h, g2, ghg->Ok_0, h, dh->Ok_0, gg2->Ok_0);
    (gs2->Ok_0, ghg->Ok_0)
}

/// The cotangent at the gates.
proof fn lemma_gate_flow<S: Scalars>(
    ring: Ring<S::F>,
    a: Model<S>,
    local: Model<S>,
    ga: Model<S>,
    gua: Model<S>,
)
    requires
        ring.computes::<S>(),
        sigmoid_local_out::<S>(a, Ok(local)),
        gate_slope_of_out::<S>(a, ga, Ok(gua)),
    ensures
        local_parts::<S>(local, ga, Ok(seq![gua])),
{
    let r: Outcome<S> = Ok(gua);
    let low = choose|o: Outcome<S>| #[trigger]
        mapped_out::<S>(a, rest_rel::<S::F, S>(), o) && passes(
            o,
            r,
            gate_slope_local::<S>(a, ga, o->Ok_0, r),
        );
    let p = choose|o: Outcome<S>| #[trigger]
        gain_out::<S>(a, low->Ok_0, o) && passes(o, r, gate_slope_scaled::<S>(ga, o->Ok_0, r));
    lemma_gate_slopes::<S>(ring, a, local, a, low->Ok_0, p->Ok_0);
    lemma_local_piece::<S>(local, ga, gua);
}

/// The cotangents behind the gates and inputs: at the widened input, its two parts, and at the
/// input through the input weights.
#[verifier::rlimit(40)]
#[verifier::spinoff_prover]
proof fn lemma_input_flow<S: Scalars>(
    ring: Ring<S::F>,
    z: BlockSizes,
    x: Model<S>,
    xn: Model<S>,
    ones: Model<S>,
    xna: Model<S>,
    ua: Model<S>,
    wa: Model<S>,
    wb: Model<S>,
    gua: Model<S>,
    gb: Model<S>,
    p: (Model<S>, Model<S>, Model<S>),
) -> (c: (Model<S>, Model<S>, Model<S>, Model<S>))
    requires
        ring.computes::<S>(),
        settled::<S>(),
        z.features + 1 <= isize::MAX,
        x.shape == z.steps_of(z.features),
        xn.shape == z.steps_of(z.features),
        wa.valid(),
        wa.shape == seq![(z.features + 1) as usize, z.states],
        wb.shape == seq![z.features, z.states],
        gua.shape == z.steps_of(z.states),
        gua.data is F32,
        gua.device == xna.device,
        gb.shape == z.steps_of(z.states),
        xna.data is F32,
        ones_out::<S>(column_shape(x.shape), Dtype::F32, Ok(ones)),
        cat_out::<S>(seq![xn, ones], 2, Ok(xna)),
        matmul_out::<S>(xna, wa, Ok(ua)),
        input_slopes_out::<S>(x, xn, wa, wb, gua, gb, Ok(p)),
    ensures
        matmul_parts::<S>(xna, wa, gua, Ok(seq![c.0, p.0])),
        cat_parts::<S>(
            c.0,
            2,
            seq![z.features, 1],
            0,
            0,
            Seq::<Model<S>>::empty(),
            Ok(seq![c.1, c.2]),
        ),
        matmul_parts::<S>(xn, wb, gb, Ok(seq![c.3, p.1])),
        add_out::<S>(c.3, c.1, Ok(p.2)),
        p.2.shape == z.steps_of(z.features),
{
    reveal(input_slopes_out);
    let r: Result<(Model<S>, Model<S>, Model<S>), Error> = Ok(p);
    let wo = choose|o: Outcome<S>| #[trigger]
        widened_out::<S>(x, xn, o) && passes(
            o,
            r,
            input_slopes_gate::<S>(xn, wa, wb, gua, gb, o->Ok_0, r),
        );
    let oo = choose|o: Outcome<S>| #[trigger]
        ones_out::<S>(column_shape(x.shape), Dtype::F32, o) && passes(
            o,
            wo,
            join_out::<S>("fused_block"@, seq![xn, o->Ok_0], 2, wo),
        );
    assert(wo->Ok_0 == xna) by {
        reveal(settled);
        assert(ones_out::<S>(column_shape(x.shape), Dtype::F32, Ok(oo->Ok_0)));
        assert(cat_out::<S>(seq![xn, ones], 2, Ok(wo->Ok_0)));
    }
    let gwa = choose|o: Outcome<S>| #[trigger]
        weight_slope_out::<S>(wo->Ok_0, gua, o) && passes(
            o,
            r,
            input_slopes_input::<S>(xn, wa, wb, gua, gb, o->Ok_0, r),
        );
    let gwb = choose|o: Outcome<S>| #[trigger]
        weight_slope_out::<S>(xn, gb, o) && passes(
            o,
            r,
            input_slopes_top::<S>(wa, wb, gua, gb, gwa->Ok_0, o->Ok_0, r),
        );
    let top = choose|o: Outcome<S>| #[trigger]
        top_of_out::<S>(wa, o) && passes(
            o,
            r,
            input_slopes_through_gate::<S>(wb, gua, gb, gwa->Ok_0, gwb->Ok_0, o->Ok_0, r),
        );
    let pa = choose|o: Outcome<S>| #[trigger]
        turned_product_out::<S>(gua, top->Ok_0, o) && passes(
            o,
            r,
            input_slopes_through_input::<S>(wb, gb, gwa->Ok_0, gwb->Ok_0, o->Ok_0, r),
        );
    let pb = choose|o: Outcome<S>| #[trigger]
        turned_product_out::<S>(gb, wb, o) && passes(
            o,
            r,
            input_slopes_sum::<S>(gwa->Ok_0, gwb->Ok_0, pa->Ok_0, o->Ok_0, r),
        );
    let sum = choose|o: Outcome<S>| #[trigger]
        joint_out::<S>(pa->Ok_0, pb->Ok_0, o) && passes(
            o,
            r,
            gives(r, (gwa->Ok_0, gwb->Ok_0, o->Ok_0)),
        );
    let (b, s, d, n) = (z.batches, z.steps, z.features, z.states);
    let e = (d + 1) as usize;
    lemma_widened::<S>(x, xn, xna, b, s, d);
    lemma_top::<S>(wa, top->Ok_0, d, n);
    lemma_turned_product::<S>(gua, top->Ok_0, pa->Ok_0, b, s, d, n);
    lemma_turned_product::<S>(gb, wb, pb->Ok_0, b, s, d, n);
    lemma_joined_last(x.shape);
    assert(fits(wa.shape));
    assert(e * n <= usize::MAX) by {
        lemma_matrix_volume(e, n);
        assert(wa.shape.take(2) =~= wa.shape);
    }
    assert(fits(xna.shape));
    let wide = lemma_wide_product::<S>(ring, b, s, d, n, gua, wa, top->Ok_0, pa->Ok_0);
    let sides = lemma_ones_pieces::<S>(b, s, d, wide, pa->Ok_0);
    law_matrix_slopes_are_matmuls::<S>(z, e, n, xna, wa, gua, wide, gwa->Ok_0);
    law_matrix_slopes_are_matmuls::<S>(z, d, n, xn, wb, gb, pb->Ok_0, gwb->Ok_0);
    lemma_turned_sum::<S>(ring, pa->Ok_0, pb->Ok_0, sides.0, pb->Ok_0, sum->Ok_0);
    (wide, sides.0, sides.1, pb->Ok_0)
}

/// The cotangents of the first normalization: at its value and behind it.
proof fn lemma_first_norm_flow<S: Scalars>(
    ring: Ring<S::F>,
    z: BlockSizes,
    x: Model<S>,
    n1: Model<S>,
    g1: Model<S>,
    eps: S::F,
    dxn: Model<S>,
    dout1: Model<S>,
    p: (Model<S>, Model<S>),
) -> (c: (Model<S>, Model<S>))
    requires
        ring.computes::<S>(),
        z.steps * z.features <= usize::MAX,
        x.shape == z.steps_of(z.features),
        n1.shape == z.steps_of(z.features),
        g1.shape == seq![z.features],
        dxn.shape == z.steps_of(z.features),
        dout1.shape == z.steps_of(z.features),
        first_norm_slopes_out::<S>(x, n1, g1, eps, dxn, dout1, Ok(p)),
    ensures
        mul_parts::<S>(n1, g1, dxn, Ok(seq![c.0, p.0])),
        rms_parts::<S>(x.detached(), eps, c.0, Ok(seq![c.1])),
        add_out::<S>(dout1, c.1, Ok(p.1)),
{
    reveal(first_norm_slopes_out);
    let r: Result<(Model<S>, Model<S>), Error> = Ok(p);
    let gg1 = choose|o: Outcome<S>| #[trigger]
        gain_slope_out::<S>(dxn, n1, o) && passes(
            o,
            r,
            first_norm_scaled::<S>(x, g1, eps, dxn, dout1, o->Ok_0, r),
        );
    let scaled = choose|o: Outcome<S>| #[trigger]
        gain_out::<S>(dxn, g1, o) && passes(
            o,
            r,
            first_norm_back::<S>(x, eps, dout1, gg1->Ok_0, o->Ok_0, r),
        );
    let back = choose|o: Outcome<S>| #[trigger]
        rms_back_out::<S>("fused_block"@, x, scaled->Ok_0, eps, o) && passes(
            o,
            r,
            first_norm_sum::<S>(dout1, gg1->Ok_0, o->Ok_0, r),
        );
    let sum = choose|o: Outcome<S>| #[trigger]
        joint_out::<S>(dout1, back->Ok_0, o) && passes(o, r, gives(r, (gg1->Ok_0, o->Ok_0)));
    lemma_joined_last(x.shape);
    assert(n1.data is F32) by {
        let go = choose|o: Outcome<S>| #[trigger]
            gain_out::<S>(dxn, n1, o) && passes(
                o,
                gg1,
                gain_slope_sum::<S>(o->Ok_0, gg1),
            );
    }
    lemma_gain_pieces::<S>(
        ring,
        z.batches,
        z.steps,
        z.features,
        n1,
        g1,
        dxn,
        n1,
        scaled->Ok_0,
        gg1->Ok_0,
    );
    assert(rms_back_out::<S>("fused_block"@, x.detached(), scaled->Ok_0, eps, Ok(back->Ok_0)));
    law_norm_slope_is_rms_norms::<S>(
        x.detached(),
        scaled->Ok_0,
        eps,
        back->Ok_0,
    );
    assert(back->Ok_0.shape == x.shape);
    lemma_turned_sum::<S>(ring, dout1, back->Ok_0, dout1, back->Ok_0, sum->Ok_0);
    (scaled->Ok_0, back->Ok_0)
}

/// The cotangents that a block passes through on the way back, and those of its input and weights.
pub ghost struct Cotangents<S: Scalars> {
    pub y: Model<S>,
    pub f2: Model<S>,
    pub g4: Model<S>,
    pub sf1: Model<S>,
    pub wf2: Model<S>,
    pub f1: Model<S>,
    pub xn2: Model<S>,
    pub wf1: Model<S>,
    pub n2: Model<S>,
    pub g3: Model<S>,
    pub back2: Model<S>,
    pub out1: Model<S>,
    pub s2: Model<S>,
    pub wo: Model<S>,
    pub hg: Model<S>,
    pub h: Model<S>,
    pub g2: Model<S>,
    pub a: Model<S>,
    pub ub: Model<S>,
    pub through: Model<S>,
    pub wb: Model<S>,
    pub ua: Model<S>,
    pub xna: Model<S>,
    pub wa: Model<S>,
    pub left: Model<S>,
    pub right: Model<S>,
    pub xn: Model<S>,
    pub n1: Model<S>,
    pub g1: Model<S>,
    pub back1: Model<S>,
    pub x: Model<S>,
}

impl<S: Scalars> Cotangents<S> {
    /// Those of the input and of the weights.
    pub open spec fn slopes(self) -> BlockSlopesModel<S> {
        BlockSlopesModel {
            x: self.x,
            w: WeightsModel {
                wa: self.wa,
                wb: self.wb,
                wo: self.wo,
                wf1: self.wf1,
                wf2: self.wf2,
                g1: self.g1,
                g2: self.g2,
                g3: self.g3,
                g4: self.g4,
            },
        }
    }
}

/// The local derivatives that the elementwise operations of a block record: of the sigmoid and of
/// the two SiLUs.
pub ghost struct Bends<S: Scalars> {
    pub gate: Model<S>,
    pub mix: Model<S>,
    pub feed: Model<S>,
}

/// Through the feed-forward half and the second normalization.
#[verifier::opaque]
pub open spec fn feed_flows<S: Scalars>(
    w: WeightsModel<S>,
    eps: S::F,
    t: Stages<S>,
    l: Bends<S>,
    c: Cotangents<S>,
) -> bool {
    &&& add_parts::<S>(t.out1.shape, t.fg.shape, c.y, Ok(seq![c.y, c.y]))
    &&& mul_parts::<S>(t.f2, w.g4, c.y, Ok(seq![c.f2, c.g4]))
    &&& matmul_parts::<S>(t.sf1, w.wf2, c.f2, Ok(seq![c.sf1, c.wf2]))
    &&& local_parts::<S>(l.feed, c.sf1, Ok(seq![c.f1]))
    &&& matmul_parts::<S>(t.xn2, w.wf1, c.f1, Ok(seq![c.xn2, c.wf1]))
    &&& mul_parts::<S>(t.n2, w.g3, c.xn2, Ok(seq![c.n2, c.g3]))
    &&& rms_parts::<S>(t.out1, eps, c.n2, Ok(seq![c.back2]))
    &&& add_out::<S>(c.y, c.back2, Ok(c.out1))
}

/// Through the mix and the recurrence.
#[verifier::opaque]
pub open spec fn mix_flows<S: Scalars>(
    x: Model<S>,
    w: WeightsModel<S>,
    t: Stages<S>,
    l: Bends<S>,
    c: Cotangents<S>,
) -> bool {
    &&& add_parts::<S>(x.shape, t.so.shape, c.out1, Ok(seq![c.out1, c.out1]))
    &&& matmul_parts::<S>(t.s2, w.wo, c.out1, Ok(seq![c.s2, c.wo]))
    &&& local_parts::<S>(l.mix, c.s2, Ok(seq![c.hg]))
    &&& mul_parts::<S>(t.h, w.g2, c.hg, Ok(seq![c.h, c.g2]))
    &&& scan_parts::<S>(t.a, t.h, c.h, Ok(seq![c.a, c.ub]))
}

/// Through the gates, the inputs and the first normalization.
#[verifier::opaque]
pub open spec fn gate_flows<S: Scalars>(
    x: Model<S>,
    w: WeightsModel<S>,
    eps: S::F,
    t: Stages<S>,
    l: Bends<S>,
    c: Cotangents<S>,
) -> bool {
    &&& matmul_parts::<S>(t.xn, w.wb, c.ub, Ok(seq![c.through, c.wb]))
    &&& local_parts::<S>(l.gate, c.a, Ok(seq![c.ua]))
    &&& matmul_parts::<S>(t.xna, w.wa, c.ua, Ok(seq![c.xna, c.wa]))
    &&& cat_parts::<S>(
        c.xna,
        2,
        seq![x.shape[2], 1],
        0,
        0,
        Seq::<Model<S>>::empty(),
        Ok(seq![c.left, c.right]),
    )
    &&& add_out::<S>(c.through, c.left, Ok(c.xn))
    &&& mul_parts::<S>(t.n1, w.g1, c.xn, Ok(seq![c.n1, c.g1]))
    &&& rms_parts::<S>(x.detached(), eps, c.n1, Ok(seq![c.back1]))
    &&& add_out::<S>(c.out1, c.back1, Ok(c.x))
}

/// The local derivatives are those of the operations on these values, wherever in a graph they
/// stand.
pub open spec fn bends<S: Scalars>(
    t: Stages<S>,
    mix_at: Model<S>,
    feed_at: Model<S>,
    l: Bends<S>,
) -> bool {
    &&& sigmoid_local_out::<S>(t.a, Ok(l.gate))
    &&& alike::<S>(mix_at, t.hg)
    &&& silu_local_out::<S>(mix_at, Ok(l.mix))
    &&& alike::<S>(feed_at, t.f1)
    &&& silu_local_out::<S>(feed_at, Ok(l.feed))
}

/// The sizes of a block whose sums over steps can be taken one axis after the other.
pub open spec fn countable(z: BlockSizes) -> bool {
    &&& z.steps * z.features <= usize::MAX
    &&& z.steps * z.states <= usize::MAX
}

/// From where the slopes of the recurrence and input weights are due.
proof fn lemma_flow_from_input<S: Scalars>(
    ring: Ring<S::F>,
    z: BlockSizes,
    x: Model<S>,
    w: WeightsModel<S>,
    eps: S::F,
    t: Stages<S>,
    l: Bends<S>,
    part: WeightsModel<S>,
    c: Cotangents<S>,
    n1: Model<S>,
    xn: Model<S>,
    g: BlockSlopesModel<S>,
) -> (d: Cotangents<S>)
    requires
        ring.computes::<S>(),
        settled::<S>(),
        countable(z),
        z.weighs::<S>(w),
        w.wa.valid(),
        x.shape == z.steps_of(z.features),
        n1 == t.n1,
        xn == t.xn,
        t.n1.shape == z.steps_of(z.features),
        t.xn.shape == z.steps_of(z.features),
        t.xna.data is F32,
        t.xna.device == c.ua.device,
        ones_out::<S>(column_shape(x.shape), Dtype::F32, Ok(t.ones)),
        cat_out::<S>(seq![t.xn, t.ones], 2, Ok(t.xna)),
        matmul_out::<S>(t.xna, w.wa, Ok(t.ua)),
        local_parts::<S>(l.gate, c.a, Ok(seq![c.ua])),
        c.ua.shape == z.steps_of(z.states),
        c.ua.data is F32,
        c.ub.shape == z.steps_of(z.states),
        c.out1.shape == z.steps_of(z.features),
        block_slopes_input::<S>(t.kept(x), w, eps, part, c.out1, c.ua, c.ub, n1, xn, Ok(g)),
    ensures
        gate_flows::<S>(x, w, eps, t, l, d),
        d == (Cotangents {
            through: d.through,
            wb: d.wb,
            xna: d.xna,
            wa: d.wa,
            left: d.left,
            right: d.right,
            xn: d.xn,
            n1: d.n1,
            g1: d.g1,
            back1: d.back1,
            x: d.x,
            ..c
        }),
        g.x == d.x,
        g.w == (WeightsModel { wa: d.wa, wb: d.wb, g1: d.g1, ..part }),
{
    reveal(block_slopes_input);
    let aux = t.kept(x);
    let r: Result<BlockSlopesModel<S>, Error> = Ok(g);
    let inp = choose|o: Result<(Model<S>, Model<S>, Model<S>), Error>| #[trigger]
        input_slopes_out::<S>(aux.x, xn, w.wa, w.wb, c.ua, c.ub, o) && passes(
            o,
            r,
            block_slopes_last::<S>(
                aux,
                w,
                eps,
                WeightsModel { wa: o->Ok_0.0, wb: o->Ok_0.1, ..part },
                c.out1,
                n1,
                o->Ok_0.2,
                r,
            ),
        );
    let more = WeightsModel { wa: inp->Ok_0.0, wb: inp->Ok_0.1, ..part };
    let last = choose|o: Result<(Model<S>, Model<S>), Error>| #[trigger]
        first_norm_slopes_out::<S>(aux.x, n1, w.g1, eps, inp->Ok_0.2, c.out1, o) && passes(
            o,
            r,
            gives(
                r,
                BlockSlopesModel { x: o->Ok_0.1, w: WeightsModel { g1: o->Ok_0.0, ..more } },
            ),
        );
    let i = lemma_input_flow::<S>(
        ring,
        z,
        x,
        t.xn,
        t.ones,
        t.xna,
        t.ua,
        w.wa,
        w.wb,
        c.ua,
        c.ub,
        inp->Ok_0,
    );
    let f = lemma_first_norm_flow::<S>(
        ring,
        z,
        x,
        t.n1,
        w.g1,
        eps,
        inp->Ok_0.2,
        c.out1,
        last->Ok_0,
    );
    let d = Cotangents {
        through: i.3,
        wb: inp->Ok_0.1,
        xna: i.0,
        wa: inp->Ok_0.0,
        left: i.1,
        right: i.2,
        xn: inp->Ok_0.2,
        n1: f.0,
        g1: last->Ok_0.0,
        back1: f.1,
        x: last->Ok_0.1,
        ..c
    };
    reveal(gate_flows);
    d
}

/// From where the slopes of the scan are due.
proof fn lemma_flow_from_scan<S: Scalars>(
    ring: Ring<S::F>,
    z: BlockSizes,
    x: Model<S>,
    w: WeightsModel<S>,
    eps: S::F,
    t: Stages<S>,
    y: Model<S>,
    l: Bends<S>,
    part: WeightsModel<S>,
    c: Cotangents<S>,
    g: BlockSlopesModel<S>,
) -> (d: Cotangents<S>)
    requires
        ring.computes::<S>(),
        settled::<S>(),
        countable(z),
        z.weighs::<S>(w),
        z.keeps::<S>(t.kept(x)),
        w.wa.valid(),
        composed::<S>(x, w, eps, t, y),
        sigmoid_local_out::<S>(t.a, Ok(l.gate)),
        c.out1.shape == z.steps_of(z.features),
        block_slopes_scan::<S>(t.kept(x), w, eps, part, c.out1, c.h, Ok(g)),
    ensures
        gate_flows::<S>(x, w, eps, t, l, d),
        scan_parts::<S>(t.a, t.h, d.h, Ok(seq![d.a, d.ub])),
        d == (Cotangents {
            a: d.a,
            ub: d.ub,
            ua: d.ua,
            through: d.through,
            wb: d.wb,
            xna: d.xna,
            wa: d.wa,
            left: d.left,
            right: d.right,
            xn: d.xn,
            n1: d.n1,
            g1: d.g1,
            back1: d.back1,
            x: d.x,
            ..c
        }),
        g.x == d.x,
        g.w == (WeightsModel { wa: d.wa, wb: d.wb, g1: d.g1, ..part }),
{
    reveal(block_slopes_scan);
    let aux = t.kept(x);
    let r: Result<BlockSlopesModel<S>, Error> = Ok(g);
    let scan = choose|o: Result<(Model<S>, Model<S>), Error>| #[trigger]
        scan_back_out::<S>("fused_block"@, aux.a, aux.h, c.h, o) && passes(
            o,
            r,
            block_slopes_gate::<S>(aux, w, eps, part, c.out1, o->Ok_0.0, o->Ok_0.1, r),
        );
    let gb = scan->Ok_0.1;
    let gate = choose|o: Outcome<S>| #[trigger]
        gate_slope_of_out::<S>(aux.a, scan->Ok_0.0, o) && passes(
            o,
            r,
            block_slopes_again::<S>(aux, w, eps, part, c.out1, o->Ok_0, gb, r),
        );
    let gua = gate->Ok_0;
    let norm = choose|o: Outcome<S>| #[trigger]
        rms_norm_out::<S>(aux.x, eps, o) && passes(
            o,
            r,
            block_slopes_gained::<S>(aux, w, eps, part, c.out1, gua, gb, o->Ok_0, r),
        );
    let gained = choose|o: Outcome<S>| #[trigger]
        gain_out::<S>(norm->Ok_0, w.g1, o) && passes(
            o,
            r,
            block_slopes_input::<S>(
                aux,
                w,
                eps,
                part,
                c.out1,
                gua,
                gb,
                norm->Ok_0,
                o->Ok_0,
                r,
            ),
        );
    assert(norm->Ok_0 == t.n1 && gained->Ok_0 == t.xn) by {
        reveal(settled);
        assert(rms_norm_out::<S>(x, eps, Ok(norm->Ok_0)));
        assert(norm->Ok_0 == t.n1);
        assert(mul_out::<S>(t.n1, w.g1, Ok(gained->Ok_0)));
    }
    law_scan_slopes_are_gated_scans::<S>(t.a, t.h, c.h, scan->Ok_0);
    lemma_gate_flow::<S>(ring, t.a, l.gate, scan->Ok_0.0, gua);
    lemma_joined_last(x.shape);
    lemma_joined_last(t.a.shape);
    lemma_gate_shapes::<S>(z, t.a, scan->Ok_0.0, gua);
    lemma_gate_kind::<S>(t.a, scan->Ok_0.0, gua);
    let d = Cotangents { a: scan->Ok_0.0, ub: gb, ua: gua, ..c };
    assert(t.n1.shape == x.shape);
    assert(t.xn.shape == x.shape);
    assert(t.xn.data is F32);
    lemma_flow_from_input::<S>(ring, z, x, w, eps, t, l, part, d, t.n1, t.xn, g)
}

/// The cotangent at the gates is a plain tensor of 32-bit numbers.
proof fn lemma_gate_kind<S: Scalars>(a: Model<S>, ga: Model<S>, gua: Model<S>)
    requires
        gate_slope_of_out::<S>(a, ga, Ok(gua)),
    ensures
        gua.data is F32,
        gua.device == Device::Cpu,
{
    let r: Outcome<S> = Ok(gua);
    let low = choose|o: Outcome<S>| #[trigger]
        mapped_out::<S>(a, rest_rel::<S::F, S>(), o) && passes(
            o,
            r,
            gate_slope_local::<S>(a, ga, o->Ok_0, r),
        );
    let p = choose|o: Outcome<S>| #[trigger]
        gain_out::<S>(a, low->Ok_0, o) && passes(o, r, gate_slope_scaled::<S>(ga, o->Ok_0, r));
    assert(gain_out::<S>(ga, p->Ok_0, r));
}

/// From where the slopes of the second normalization are due.
proof fn lemma_flow_from_norm<S: Scalars>(
    ring: Ring<S::F>,
    z: BlockSizes,
    x: Model<S>,
    w: WeightsModel<S>,
    eps: S::F,
    t: Stages<S>,
    y: Model<S>,
    l: Bends<S>,
    mix_at: Model<S>,
    feed_at: Model<S>,
    part: WeightsModel<S>,
    c: Cotangents<S>,
    g: BlockSlopesModel<S>,
) -> (d: Cotangents<S>)
    requires
        ring.computes::<S>(),
        one_sigmoid::<S::F, S>(),
        settled::<S>(),
        countable(z),
        z.weighs::<S>(w),
        z.keeps::<S>(t.kept(x)),
        w.wa.valid(),
        composed::<S>(x, w, eps, t, y),
        bends::<S>(t, mix_at, feed_at, l),
        c.y.shape == z.steps_of(z.features),
        c.xn2.shape == z.steps_of(z.features),
        block_slopes_norm::<S>(t.kept(x), w, eps, c.y, part, c.xn2, Ok(g)),
    ensures
        gate_flows::<S>(x, w, eps, t, l, d),
        mix_flows::<S>(x, w, t, l, d),
        mul_parts::<S>(t.n2, w.g3, d.xn2, Ok(seq![d.n2, d.g3])),
        rms_parts::<S>(t.out1, eps, d.n2, Ok(seq![d.back2])),
        add_out::<S>(d.y, d.back2, Ok(d.out1)),
        d.y == c.y && d.f2 == c.f2 && d.g4 == c.g4 && d.sf1 == c.sf1 && d.wf2 == c.wf2,
        d.f1 == c.f1 && d.xn2 == c.xn2 && d.wf1 == c.wf1,
        g.x == d.x,
        g.w == (WeightsModel {
            wa: d.wa,
            wb: d.wb,
            g1: d.g1,
            wo: d.wo,
            g2: d.g2,
            g3: d.g3,
            ..part
        }),
{
    reveal(block_slopes_norm);
    let aux = t.kept(x);
    let r: Result<BlockSlopesModel<S>, Error> = Ok(g);
    let norm = choose|o: Result<(Model<S>, Model<S>), Error>| #[trigger]
        second_norm_slopes_out::<S>(aux.out1, w.g3, eps, c.xn2, c.y, o) && passes(
            o,
            r,
            block_slopes_mix::<S>(
                aux,
                w,
                eps,
                WeightsModel { g3: o->Ok_0.0, ..part },
                o->Ok_0.1,
                r,
            ),
        );
    let some = WeightsModel { g3: norm->Ok_0.0, ..part };
    let dout1 = norm->Ok_0.1;
    let second = lemma_second_norm_flow::<S>(
        ring,
        z,
        t.out1,
        t.n2,
        w.g3,
        eps,
        c.xn2,
        c.y,
        norm->Ok_0,
    );
    let mix = choose|o: Result<(Model<S>, Model<S>, Model<S>), Error>| #[trigger]
        mix_slopes_out::<S>(aux.h, aux.s2, w.wo, w.g2, dout1, o) && passes(
            o,
            r,
            block_slopes_scan::<S>(
                aux,
                w,
                eps,
                WeightsModel { wo: o->Ok_0.0, g2: o->Ok_0.2, ..some },
                dout1,
                o->Ok_0.1,
                r,
            ),
        );
    let more = WeightsModel { wo: mix->Ok_0.0, g2: mix->Ok_0.2, ..some };
    let m = lemma_mix_flow::<S>(
        ring,
        z,
        t.h,
        t.hg,
        mix_at,
        l.mix,
        t.s2,
        w.wo,
        w.g2,
        dout1,
        mix->Ok_0,
    );
    let e = Cotangents {
        n2: second.0,
        g3: norm->Ok_0.0,
        back2: second.1,
        out1: dout1,
        s2: m.0,
        wo: mix->Ok_0.0,
        hg: m.1,
        h: mix->Ok_0.1,
        g2: mix->Ok_0.2,
        ..c
    };
    let d = lemma_flow_from_scan::<S>(ring, z, x, w, eps, t, y, l, more, e, g);
    lemma_times(z.batches, z.steps, z.states, z.features);
    assert(t.so.shape == x.shape);
    lemma_add_pieces::<S>(x.shape, dout1);
    reveal(mix_flows);
    d
}

/// What the fused block computes on the way back, one single operation after the other.
pub(crate) proof fn lemma_block_flow<S: Scalars>(
    ring: Ring<S::F>,
    z: BlockSizes,
    x: Model<S>,
    w: WeightsModel<S>,
    eps: S::F,
    t: Stages<S>,
    y: Model<S>,
    l: Bends<S>,
    mix_at: Model<S>,
    feed_at: Model<S>,
    gy: Model<S>,
    g: BlockSlopesModel<S>,
) -> (c: Cotangents<S>)
    requires
        ring.computes::<S>(),
        one_sigmoid::<S::F, S>(),
        settled::<S>(),
        countable(z),
        z.weighs::<S>(w),
        z.keeps::<S>(t.kept(x)),
        w.wa.valid(),
        composed::<S>(x, w, eps, t, y),
        bends::<S>(t, mix_at, feed_at, l),
        gy.shape == z.steps_of(z.features),
        fused_block_bwd_out::<S>(t.kept(x), w, eps, gy, Ok(g)),
    ensures
        feed_flows::<S>(w, eps, t, l, c),
        mix_flows::<S>(x, w, t, l, c),
        gate_flows::<S>(x, w, eps, t, l, c),
        c.y == gy,
        c.slopes() == g,
{
    reveal(fused_block_bwd_out);
    let aux = t.kept(x);
    let r: Result<BlockSlopesModel<S>, Error> = Ok(g);
    let gain = choose|o: Outcome<S>| #[trigger]
        gain_slope_out::<S>(gy, aux.f2, o) && passes(
            o,
            r,
            block_slopes_tail::<S>(aux, w, eps, gy, o->Ok_0, r),
        );
    let gg4 = gain->Ok_0;
    let tail = choose|o: Outcome<S>| #[trigger]
        gain_out::<S>(gy, w.g4, o) && passes(
            o,
            r,
            block_slopes_feed::<S>(aux, w, eps, gy, gg4, o->Ok_0, r),
        );
    let dm = tail->Ok_0;
    lemma_joined_last(gy.shape);
    let fed = choose|o: Result<(Model<S>, Model<S>, Model<S>), Error>| #[trigger]
        feed_slopes_out::<S>(aux.f1, aux.xn2, w.wf1, w.wf2, dm, o) && passes(
            o,
            r,
            block_slopes_norm::<S>(
                aux,
                w,
                eps,
                gy,
                WeightsModel { wf2: o->Ok_0.0, wf1: o->Ok_0.1, g4: gg4, ..w },
                o->Ok_0.2,
                r,
            ),
        );
    let p = fed->Ok_0;
    let f = lemma_feed_flow::<S>(
        ring,
        z,
        t.f1,
        feed_at,
        l.feed,
        t.sf1,
        t.xn2,
        w.wf1,
        w.wf2,
        dm,
        p,
    );
    assert(t.f2.data is F32) by {
        let go = choose|o: Outcome<S>| #[trigger]
            gain_out::<S>(gy, t.f2, o) && passes(
                o,
                gain,
                gain_slope_sum::<S>(o->Ok_0, gain),
            );
    }
    lemma_gain_pieces::<S>(
        ring,
        z.batches,
        z.steps,
        z.features,
        t.f2,
        w.g4,
        gy,
        t.f2,
        dm,
        gg4,
    );
    let some = WeightsModel { wf2: p.0, wf1: p.1, g4: gg4, ..w };
    let c = Cotangents {
        y: gy,
        f2: dm,
        g4: gg4,
        sf1: f.0,
        wf2: p.0,
        f1: f.1,
        xn2: p.2,
        wf1: p.1,
        n2: gy,
        g3: gy,
        back2: gy,
        out1: gy,
        s2: gy,
        wo: gy,
        hg: gy,
        h: gy,
        g2: gy,
        a: gy,
        ub: gy,
        through: gy,
        wb: gy,
        ua: gy,
        xna: gy,
        wa: gy,
        left: gy,
        right: gy,
        xn: gy,
        n1: gy,
        g1: gy,
        back1: gy,
        x: gy,
    };
    let d = lemma_flow_from_norm::<S>(
        ring,
        z,
        x,
        w,
        eps,
        t,
        y,
        l,
        mix_at,
        feed_at,
        some,
        c,
        g,
    );
    lemma_joined_last(t.f2.shape);
    assert(t.fg.shape == t.out1.shape);
    lemma_add_pieces::<S>(t.out1.shape, gy);
    reveal(feed_flows);
    d
}

} // verus!
