//! Shapes within the fused block: what it keeps, and the slopes of its input and its weights.
use vstd::prelude::*;
use crate::dtype::Dtype;
use crate::error::Error;
use crate::fused::{
    block_of_feed, block_of_mix, block_of_states, block_slopes_again, block_slopes_feed,
    block_slopes_gained, block_slopes_gate, block_slopes_input, block_slopes_last,
    block_slopes_mix, block_slopes_norm, block_slopes_scan, block_slopes_tail, column_shape,
    fed_out, feed_slopes_bent, feed_slopes_first, feed_slopes_hidden, feed_slopes_input,
    feed_slopes_last, feed_slopes_local, feed_slopes_out, first_axis, first_norm_back,
    first_norm_scaled, first_norm_slopes_out, first_norm_sum, fused_block_bwd_out,
    fused_block_fwd_out, gain_out, gain_slope_out, gain_slope_sum, gate_slope_local,
    gate_slope_of_out, gate_slope_scaled, gates_of, gates_out, input_slopes_gate,
    input_slopes_input, input_slopes_out, input_slopes_sum, input_slopes_through_gate,
    input_slopes_through_input, input_slopes_top, leading_axes, mapped_out, mix_slopes_bent,
    mix_slopes_gain, mix_slopes_gained, mix_slopes_local, mix_slopes_out, mix_slopes_states,
    mix_slopes_weight, mixed_out, normed_out, rest_rel, second_norm_back, second_norm_gain,
    second_norm_scaled, second_norm_slopes_out, second_norm_sum, silu_f32_out, states_out,
    top_of_out, top_rows, turned_product_of, turned_product_out, weight_slope_out,
    weight_slope_product, weight_slope_sum, widened_out, AuxModel, BlockSlopesModel, FeedModel,
    WeightsModel,
};
use crate::guarded::{join_out, rms_back_out, scan_back_out};
use crate::index::chosen;
use crate::joining::{cat_shape, sizes, total};
use crate::matmul::{batch_axes, matmul_out, result_shape};
use crate::reduce::{asked_axes, kept_shape, marked, sum_out};
use crate::rows::rms_norm_out;
use crate::rules::{
    extra_rank, folded_out, matmul_first, matmul_left, matmul_parts, matmul_right, matmul_second,
    matmul_turned, peeled_out, rms_parts, scan_parts, stretched_axes, unbroadcast_out,
};
use crate::scalar::Scalars;
use crate::shape::joined;
use crate::slopes::silu_slope_rel;
use crate::tensor::{gives, ones_out, passes, Model, Outcome};
use crate::views::{range_at, slice_end, slice_shape, slice_start, swapped_axes, transpose_out};

verus! {

/// The sizes of a fused block: batches, steps, features, states and hidden features.
pub ghost struct BlockSizes {
    pub batches: usize,
    pub steps: usize,
    pub features: usize,
    pub states: usize,
    pub hidden: usize,
}

impl BlockSizes {
    /// Steps of `n` numbers.
    pub open spec fn steps_of(self, n: usize) -> Seq<usize> {
        seq![self.batches, self.steps, n]
    }

    /// The weights have the shapes of a block of these sizes, whose rows can be counted.
    pub open spec fn weighs<S: Scalars>(self, w: WeightsModel<S>) -> bool {
        &&& self.features + 1 <= isize::MAX
        &&& w.wa.shape == seq![(self.features + 1) as usize, self.states]
        &&& w.wb.shape == seq![self.features, self.states]
        &&& w.wo.shape == seq![self.states, self.features]
        &&& w.wf1.shape == seq![self.features, self.hidden]
        &&& w.wf2.shape == seq![self.hidden, self.features]
        &&& w.g1.shape == seq![self.features]
        &&& w.g2.shape == seq![self.states]
        &&& w.g3.shape == seq![self.features]
        &&& w.g4.shape == seq![self.features]
    }

    /// What was kept has the shapes of a block of these sizes.
    pub open spec fn keeps<S: Scalars>(self, aux: AuxModel<S>) -> bool {
        &&& aux.x.shape == self.steps_of(self.features)
        &&& aux.a.shape == self.steps_of(self.states)
        &&& aux.h.shape == self.steps_of(self.states)
        &&& aux.s2.shape == self.steps_of(self.states)
        &&& aux.out1.shape == self.steps_of(self.features)
        &&& aux.xn2.shape == self.steps_of(self.features)
        &&& aux.f1.shape == self.steps_of(self.hidden)
        &&& aux.f2.shape == self.steps_of(self.features)
    }
}

/// A shape joined with itself, and with its last size alone.
pub(crate) proof fn lemma_joined_last(s: Seq<usize>)
    requires
        s.len() == 3,
    ensures
        joined(s, s) == s,
        joined(s, seq![s[2]]) == s,
{
    assert(joined(s, s) =~= s);
    assert(joined(s, seq![s[2]]) =~= s);
}

/// Rows of steps times a matrix.
pub(crate) proof fn lemma_times(b: usize, t: usize, k: usize, n: usize)
    ensures
        result_shape(seq![b, t, k], seq![k, n]) == seq![b, t, n],
{
    let l = seq![b, t, k];
    let r = seq![k, n];
    assert(batch_axes(l) =~= seq![b]);
    assert(batch_axes(r) =~= Seq::<usize>::empty());
    assert(joined(batch_axes(l), batch_axes(r)) =~= seq![b]);
    assert(result_shape(l, r) =~= seq![b, t, n]);
}

/// Matrices times matrices, batch by batch.
proof fn lemma_times_each(b: usize, k: usize, t: usize, n: usize)
    ensures
        result_shape(seq![b, k, t], seq![b, t, n]) == seq![b, k, n],
{
    let l = seq![b, k, t];
    let r = seq![b, t, n];
    assert(batch_axes(l) =~= seq![b]);
    assert(batch_axes(r) =~= seq![b]);
    assert(joined(seq![b], seq![b]) =~= seq![b]);
    assert(result_shape(l, r) =~= seq![b, k, n]);
}

/// Which axes are left when the leading ones are summed away.
proof fn lemma_summed(b: usize, t: usize, n: usize)
    ensures
        kept_shape(seq![b, t, n], marked(asked_axes(leading_axes(), 3), 3), false) == seq![n],
        kept_shape(seq![b, t, n], marked(asked_axes(first_axis(), 3), 3), false) == seq![t, n],
{
    let s = seq![b, t, n];
    let two = asked_axes(leading_axes(), 3);
    let one = asked_axes(first_axis(), 3);
    assert(two[0] == 0 && two[1] == 1 && two.len() == 2);
    assert(one[0] == 0 && one.len() == 1);
    let m2 = marked(two, 3);
    let m1 = marked(one, 3);
    assert(m2[0] && m2[1] && !m2[2]);
    assert(m1[0] && !m1[1] && !m1[2]);
    reveal_with_fuel(kept_shape, 4);
    assert(s.drop_last() =~= seq![b, t]);
    assert(s.drop_last().drop_last() =~= seq![b]);
    assert(s.drop_last().drop_last().drop_last() =~= Seq::<usize>::empty());
    assert(m2.drop_last().last() == m2[1]);
    assert(m2.drop_last().drop_last().last() == m2[0]);
    assert(m1.drop_last().last() == m1[1]);
    assert(m1.drop_last().drop_last().last() == m1[0]);
    assert(kept_shape(s, m2, false) =~= seq![n]);
    assert(kept_shape(s, m1, false) =~= seq![t, n]);
}

pub(crate) proof fn lemma_turned<S: Scalars>(m: Model<S>, t: Model<S>)
    requires
        m.shape.len() == 2 || m.shape.len() == 3,
        transpose_out::<S>(m, Ok(t)),
    ensures
        m.shape.len() == 2 ==> t.shape == seq![m.shape[1], m.shape[0]],
        m.shape.len() == 3 ==> t.shape == seq![m.shape[0], m.shape[2], m.shape[1]],
{
    let axes = swapped_axes(m.shape.len());
    if m.shape.len() == 2 {
        assert(chosen(m.shape, axes) =~= seq![m.shape[1], m.shape[0]]);
    } else {
        assert(chosen(m.shape, axes) =~= seq![
            m.shape[0],
            m.shape[2],
            m.shape[1],
        ]);
    }
}

/// `a @ w` turned.
pub(crate) proof fn lemma_turned_product<S: Scalars>(
    a: Model<S>,
    w: Model<S>,
    t: Model<S>,
    b: usize,
    s: usize,
    k: usize,
    n: usize,
)
    requires
        a.shape == seq![b, s, n],
        w.shape == seq![k, n],
        turned_product_out::<S>(a, w, Ok(t)),
    ensures
        t.shape == seq![b, s, k],
{
    let r: Outcome<S> = Ok(t);
    let o = choose|o: Outcome<S>| #[trigger]
        transpose_out::<S>(w, o) && passes(
            o,
            r,
            turned_product_of::<S>(a, o->Ok_0, r),
        );
    lemma_turned::<S>(w, o->Ok_0);
    lemma_times(b, s, n, k);
}

pub(crate) proof fn lemma_weight_slope<S: Scalars>(
    a: Model<S>,
    g: Model<S>,
    t: Model<S>,
    b: usize,
    s: usize,
    k: usize,
    n: usize,
)
    requires
        a.shape == seq![b, s, k],
        g.shape == seq![b, s, n],
        weight_slope_out::<S>(a, g, Ok(t)),
    ensures
        t.shape == seq![k, n],
{
    let r: Outcome<S> = Ok(t);
    let o = choose|o: Outcome<S>| #[trigger]
        transpose_out::<S>(a, o) && passes(o, r, weight_slope_product::<S>(g, o->Ok_0, r));
    let p = choose|p: Outcome<S>| #[trigger]
        matmul_out::<S>(o->Ok_0, g, p) && passes(p, r, weight_slope_sum::<S>(p->Ok_0, r));
    lemma_turned::<S>(a, o->Ok_0);
    lemma_times_each(b, k, s, n);
    lemma_summed(b, k, n);
}

pub(crate) proof fn lemma_gain_slope<S: Scalars>(
    a: Model<S>,
    g: Model<S>,
    t: Model<S>,
    b: usize,
    s: usize,
    n: usize,
)
    requires
        a.shape == seq![b, s, n],
        g.shape == seq![b, s, n],
        gain_slope_out::<S>(a, g, Ok(t)),
    ensures
        t.shape == seq![n],
{
    let r: Outcome<S> = Ok(t);
    let o = choose|o: Outcome<S>| #[trigger]
        gain_out::<S>(a, g, o) && passes(o, r, gain_slope_sum::<S>(o->Ok_0, r));
    lemma_joined_last(a.shape);
    lemma_summed(b, s, n);
}

/// The gates' rows without the last.
pub(crate) proof fn lemma_top<S: Scalars>(wa: Model<S>, t: Model<S>, d: usize, n: usize)
    requires
        d + 1 <= isize::MAX,
        wa.shape == seq![(d + 1) as usize, n],
        top_of_out::<S>(wa, Ok(t)),
    ensures
        t.shape == seq![d, n],
{
    let rows = (d + 1) as usize;
    let ranges = top_rows(rows);
    let s = slice_shape(wa.shape, ranges);
    assert(range_at(ranges, 0) == ranges[0]);
    assert(range_at(ranges, 1) == ranges[1]);
    assert(slice_start(rows as int, ranges[0]) == 0);
    assert(slice_end(rows as int, ranges[0]) == d);
    assert(slice_start(n as int, ranges[1]) == 0);
    assert(slice_end(n as int, ranges[1]) == n);
    assert(s[0] == d);
    assert(s[1] == n);
    assert(s =~= seq![d, n]);
}

/// A column of ones beside the features.
pub(crate) proof fn lemma_widened<S: Scalars>(
    x: Model<S>,
    xn: Model<S>,
    t: Model<S>,
    b: usize,
    s: usize,
    d: usize,
)
    requires
        d + 1 <= isize::MAX,
        x.shape == seq![b, s, d],
        xn.shape == seq![b, s, d],
        widened_out::<S>(x, xn, Ok(t)),
    ensures
        t.shape == seq![b, s, (d + 1) as usize],
{
    let r: Outcome<S> = Ok(t);
    let o = choose|o: Outcome<S>| #[trigger]
        ones_out::<S>(column_shape(x.shape), Dtype::F32, o) && passes(
            o,
            r,
            join_out::<S>("fused_block"@, seq![xn, o->Ok_0], 2, r),
        );
    let ms = seq![xn, o->Ok_0];
    let z = sizes(ms, 2);
    assert(z =~= seq![z[0], z[1]]);
    assert(z.drop_last() =~= seq![z[0]]);
    assert(z.drop_last().drop_last() =~= Seq::empty());
    reveal_with_fuel(total, 3);
    assert(total(z) == d + 1);
    assert(cat_shape(ms, 2) =~= seq![b, s, (d + 1) as usize]);
}

proof fn lemma_feed_shapes<S: Scalars>(
    z: BlockSizes,
    f1: Model<S>,
    xn2: Model<S>,
    wf1: Model<S>,
    wf2: Model<S>,
    dm: Model<S>,
    p: (Model<S>, Model<S>, Model<S>),
)
    requires
        f1.shape == z.steps_of(z.hidden),
        xn2.shape == z.steps_of(z.features),
        wf1.shape == seq![z.features, z.hidden],
        wf2.shape == seq![z.hidden, z.features],
        dm.shape == z.steps_of(z.features),
        feed_slopes_out::<S>(f1, xn2, wf1, wf2, dm, Ok(p)),
    ensures
        p.0.shape == wf2.shape,
        p.1.shape == wf1.shape,
        p.2.shape == z.steps_of(z.features),
{
    reveal(feed_slopes_out);
    let r: Result<(Model<S>, Model<S>, Model<S>), Error> = Ok(p);
    let sf1 = choose|o: Outcome<S>| #[trigger]
        silu_f32_out::<S>(f1, o) && passes(
            o,
            r,
            feed_slopes_last::<S>(f1, xn2, wf1, wf2, dm, o->Ok_0, r),
        );
    let gwf2 = choose|o: Outcome<S>| #[trigger]
        weight_slope_out::<S>(sf1->Ok_0, dm, o) && passes(
            o,
            r,
            feed_slopes_hidden::<S>(f1, xn2, wf1, wf2, dm, o->Ok_0, r),
        );
    let dsf1 = choose|o: Outcome<S>| #[trigger]
        turned_product_out::<S>(dm, wf2, o) && passes(
            o,
            r,
            feed_slopes_local::<S>(f1, xn2, wf1, gwf2->Ok_0, o->Ok_0, r),
        );
    let sl = choose|o: Outcome<S>| #[trigger]
        mapped_out::<S>(f1, silu_slope_rel::<S::F, S>(), o) && passes(
            o,
            r,
            feed_slopes_bent::<S>(xn2, wf1, gwf2->Ok_0, dsf1->Ok_0, o->Ok_0, r),
        );
    let pre = choose|o: Outcome<S>| #[trigger]
        gain_out::<S>(dsf1->Ok_0, sl->Ok_0, o) && passes(
            o,
            r,
            feed_slopes_first::<S>(xn2, wf1, gwf2->Ok_0, o->Ok_0, r),
        );
    let gwf1 = choose|o: Outcome<S>| #[trigger]
        weight_slope_out::<S>(xn2, pre->Ok_0, o) && passes(
            o,
            r,
            feed_slopes_input::<S>(wf1, gwf2->Ok_0, pre->Ok_0, o->Ok_0, r),
        );
    let (b, s, d, f) = (z.batches, z.steps, z.features, z.hidden);
    lemma_weight_slope::<S>(sf1->Ok_0, dm, gwf2->Ok_0, b, s, f, d);
    lemma_turned_product::<S>(dm, wf2, dsf1->Ok_0, b, s, f, d);
    lemma_joined_last(f1.shape);
    lemma_weight_slope::<S>(xn2, pre->Ok_0, gwf1->Ok_0, b, s, d, f);
    lemma_turned_product::<S>(pre->Ok_0, wf1, p.2, b, s, d, f);
}

proof fn lemma_second_norm_shapes<S: Scalars>(
    z: BlockSizes,
    out1: Model<S>,
    g3: Model<S>,
    eps: S::F,
    dxn2: Model<S>,
    gy: Model<S>,
    p: (Model<S>, Model<S>),
)
    requires
        out1.shape == z.steps_of(z.features),
        g3.shape == seq![z.features],
        dxn2.shape == z.steps_of(z.features),
        gy.shape == z.steps_of(z.features),
        second_norm_slopes_out::<S>(out1, g3, eps, dxn2, gy, Ok(p)),
    ensures
        p.0.shape == g3.shape,
        p.1.shape == z.steps_of(z.features),
{
    reveal(second_norm_slopes_out);
    let r: Result<(Model<S>, Model<S>), Error> = Ok(p);
    let r2 = choose|o: Outcome<S>| #[trigger]
        rms_norm_out::<S>(out1, eps, o) && passes(
            o,
            r,
            second_norm_gain::<S>(out1, g3, eps, dxn2, gy, o->Ok_0, r),
        );
    let gg3 = choose|o: Outcome<S>| #[trigger]
        gain_slope_out::<S>(dxn2, r2->Ok_0, o) && passes(
            o,
            r,
            second_norm_scaled::<S>(out1, g3, eps, dxn2, gy, o->Ok_0, r),
        );
    let scaled = choose|o: Outcome<S>| #[trigger]
        gain_out::<S>(dxn2, g3, o) && passes(
            o,
            r,
            second_norm_back::<S>(out1, eps, gy, gg3->Ok_0, o->Ok_0, r),
        );
    let back = choose|o: Outcome<S>| #[trigger]
        rms_back_out::<S>("fused_block"@, out1, scaled->Ok_0, eps, o) && passes(
            o,
            r,
            second_norm_sum::<S>(gy, gg3->Ok_0, o->Ok_0, r),
        );
    lemma_gain_slope::<S>(dxn2, r2->Ok_0, gg3->Ok_0, z.batches, z.steps, z.features);
    lemma_joined_last(gy.shape);
}

proof fn lemma_mix_shapes<S: Scalars>(
    z: BlockSizes,
    h: Model<S>,
    s2: Model<S>,
    wo: Model<S>,
    g2: Model<S>,
    dout1: Model<S>,
    p: (Model<S>, Model<S>, Model<S>),
)
    requires
        h.shape == z.steps_of(z.states),
        s2.shape == z.steps_of(z.states),
        wo.shape == seq![z.states, z.features],
        g2.shape == seq![z.states],
        dout1.shape == z.steps_of(z.features),
        mix_slopes_out::<S>(h, s2, wo, g2, dout1, Ok(p)),
    ensures
        p.0.shape == wo.shape,
        p.1.shape == z.steps_of(z.states),
        p.2.shape == g2.shape,
{
    reveal(mix_slopes_out);
    let r: Result<(Model<S>, Model<S>, Model<S>), Error> = Ok(p);
    let gs2 = choose|o: Outcome<S>| #[trigger]
        turned_product_out::<S>(dout1, wo, o) && passes(
            o,
            r,
            mix_slopes_weight::<S>(h, s2, g2, dout1, o->Ok_0, r),
        );
    let gwo = choose|o: Outcome<S>| #[trigger]
        weight_slope_out::<S>(s2, dout1, o) && passes(
            o,
            r,
            mix_slopes_gained::<S>(h, g2, gs2->Ok_0, o->Ok_0, r),
        );
    let hg = choose|o: Outcome<S>| #[trigger]
        gain_out::<S>(h, g2, o) && passes(
            o,
            r,
            mix_slopes_local::<S>(h, g2, gs2->Ok_0, gwo->Ok_0, o->Ok_0, r),
        );
    let sl = choose|o: Outcome<S>| #[trigger]
        mapped_out::<S>(hg->Ok_0, silu_slope_rel::<S::F, S>(), o) && passes(
            o,
            r,
            mix_slopes_bent::<S>(h, g2, gs2->Ok_0, gwo->Ok_0, o->Ok_0, r),
        );
    let ghg = choose|o: Outcome<S>| #[trigger]
        gain_out::<S>(gs2->Ok_0, sl->Ok_0, o) && passes(
            o,
            r,
            mix_slopes_states::<S>(h, g2, gwo->Ok_0, o->Ok_0, r),
        );
    let dh = choose|o: Outcome<S>| #[trigger]
        gain_out::<S>(ghg->Ok_0, g2, o) && passes(
            o,
            r,
            mix_slopes_gain::<S>(h, gwo->Ok_0, ghg->Ok_0, o->Ok_0, r),
        );
    let (b, s, d, n) = (z.batches, z.steps, z.features, z.states);
    lemma_turned_product::<S>(dout1, wo, gs2->Ok_0, b, s, n, d);
    lemma_weight_slope::<S>(s2, dout1, gwo->Ok_0, b, s, n, d);
    lemma_joined_last(h.shape);
    lemma_gain_slope::<S>(ghg->Ok_0, h, p.2, b, s, n);
}

pub(crate) proof fn lemma_gate_shapes<S: Scalars>(
    z: BlockSizes,
    a: Model<S>,
    ga: Model<S>,
    t: Model<S>,
)
    requires
        a.shape == z.steps_of(z.states),
        ga.shape == z.steps_of(z.states),
        gate_slope_of_out::<S>(a, ga, Ok(t)),
    ensures
        t.shape == z.steps_of(z.states),
{
    let r: Outcome<S> = Ok(t);
    let low = choose|o: Outcome<S>| #[trigger]
        mapped_out::<S>(a, rest_rel::<S::F, S>(), o) && passes(
            o,
            r,
            gate_slope_local::<S>(a, ga, o->Ok_0, r),
        );
    let p = choose|o: Outcome<S>| #[trigger]
        gain_out::<S>(a, low->Ok_0, o) && passes(o, r, gate_slope_scaled::<S>(ga, o->Ok_0, r));
    lemma_joined_last(a.shape);
}

proof fn lemma_input_shapes<S: Scalars>(
    z: BlockSizes,
    x: Model<S>,
    xn: Model<S>,
    wa: Model<S>,
    wb: Model<S>,
    gua: Model<S>,
    gb: Model<S>,
    p: (Model<S>, Model<S>, Model<S>),
)
    requires
        z.features + 1 <= isize::MAX,
        x.shape == z.steps_of(z.features),
        xn.shape == z.steps_of(z.features),
        wa.shape == seq![(z.features + 1) as usize, z.states],
        wb.shape == seq![z.features, z.states],
        gua.shape == z.steps_of(z.states),
        gb.shape == z.steps_of(z.states),
        input_slopes_out::<S>(x, xn, wa, wb, gua, gb, Ok(p)),
    ensures
        p.0.shape == wa.shape,
        p.1.shape == wb.shape,
        p.2.shape == z.steps_of(z.features),
{
    reveal(input_slopes_out);
    let r: Result<(Model<S>, Model<S>, Model<S>), Error> = Ok(p);
    let xna = choose|o: Outcome<S>| #[trigger]
        widened_out::<S>(x, xn, o) && passes(
            o,
            r,
            input_slopes_gate::<S>(xn, wa, wb, gua, gb, o->Ok_0, r),
        );
    let gwa = choose|o: Outcome<S>| #[trigger]
        weight_slope_out::<S>(xna->Ok_0, gua, o) && passes(
            o,
            r,
            input_slopes_input::<S>(xn, wa, wb, gua, gb, o->Ok_0, r),
        );
    let gwb = choose|o: Outcome<S>| #[trigger]
        weight_slope_out::<S>(xn, gb, o) && passes(
            o,
            r,
            input_slopes_top::<S>(wa, wb, gua, gb, gwa->Ok_0, o->Ok_0, r),
        );
    let top = choose|o: Outcome<S>| #[trigger]
        top_of_out::<S>(wa, o) && passes(
            o,
            r,
            input_slopes_through_gate::<S>(wb, gua, gb, gwa->Ok_0, gwb->Ok_0, o->Ok_0, r),
        );
    let pa = choose|o: Outcome<S>| #[trigger]
        turned_product_out::<S>(gua, top->Ok_0, o) && passes(
            o,
            r,
            input_slopes_through_input::<S>(wb, gb, gwa->Ok_0, gwb->Ok_0, o->Ok_0, r),
        );
    let pb = choose|o: Outcome<S>| #[trigger]
        turned_product_out::<S>(gb, wb, o) && passes(
            o,
            r,
            input_slopes_sum::<S>(gwa->Ok_0, gwb->Ok_0, pa->Ok_0, o->Ok_0, r),
        );
    let (b, s, d, n) = (z.batches, z.steps, z.features, z.states);
    lemma_widened::<S>(x, xn, xna->Ok_0, b, s, d);
    lemma_weight_slope::<S>(xna->Ok_0, gua, gwa->Ok_0, b, s, (d + 1) as usize, n);
    lemma_weight_slope::<S>(xn, gb, gwb->Ok_0, b, s, d, n);
    lemma_top::<S>(wa, top->Ok_0, d, n);
    lemma_turned_product::<S>(gua, top->Ok_0, pa->Ok_0, b, s, d, n);
    lemma_turned_product::<S>(gb, wb, pb->Ok_0, b, s, d, n);
    lemma_joined_last(x.shape);
}

proof fn lemma_first_norm_shapes<S: Scalars>(
    z: BlockSizes,
    x: Model<S>,
    r1: Model<S>,
    g1: Model<S>,
    eps: S::F,
    dxn: Model<S>,
    dout1: Model<S>,
    p: (Model<S>, Model<S>),
)
    requires
        x.shape == z.steps_of(z.features),
        r1.shape == z.steps_of(z.features),
        g1.shape == seq![z.features],
        dxn.shape == z.steps_of(z.features),
        dout1.shape == z.steps_of(z.features),
        first_norm_slopes_out::<S>(x, r1, g1, eps, dxn, dout1, Ok(p)),
    ensures
        p.0.shape == g1.shape,
        p.1.shape == z.steps_of(z.features),
{
    reveal(first_norm_slopes_out);
    let r: Result<(Model<S>, Model<S>), Error> = Ok(p);
    let gg1 = choose|o: Outcome<S>| #[trigger]
        gain_slope_out::<S>(dxn, r1, o) && passes(
            o,
            r,
            first_norm_scaled::<S>(x, g1, eps, dxn, dout1, o->Ok_0, r),
        );
    let scaled = choose|o: Outcome<S>| #[trigger]
        gain_out::<S>(dxn, g1, o) && passes(
            o,
            r,
            first_norm_back::<S>(x, eps, dout1, gg1->Ok_0, o->Ok_0, r),
        );
    let back = choose|o: Outcome<S>| #[trigger]
        rms_back_out::<S>("fused_block"@, x, scaled->Ok_0, eps, o) && passes(
            o,
            r,
            first_norm_sum::<S>(dout1, gg1->Ok_0, o->Ok_0, r),
        );
    lemma_gain_slope::<S>(dxn, r1, gg1->Ok_0, z.batches, z.steps, z.features);
    lemma_joined_last(x.shape);
}

/// The last of the slopes, from where the input's slopes are due.
proof fn lemma_slopes_from_input<S: Scalars>(
    z: BlockSizes,
    aux: AuxModel<S>,
    w: WeightsModel<S>,
    eps: S::F,
    part: WeightsModel<S>,
    dout1: Model<S>,
    gua: Model<S>,
    gb: Model<S>,
    r1: Model<S>,
    xn: Model<S>,
    g: BlockSlopesModel<S>,
)
    requires
        z.weighs::<S>(w),
        z.weighs::<S>(part),
        z.keeps::<S>(aux),
        dout1.shape == z.steps_of(z.features),
        gua.shape == z.steps_of(z.states),
        gb.shape == z.steps_of(z.states),
        r1.shape == z.steps_of(z.features),
        xn.shape == z.steps_of(z.features),
        block_slopes_input::<S>(aux, w, eps, part, dout1, gua, gb, r1, xn, Ok(g)),
    ensures
        g.x.shape == aux.x.shape,
        z.weighs::<S>(g.w),
{
    reveal(block_slopes_input);
    let r: Result<BlockSlopesModel<S>, Error> = Ok(g);
    let inp = choose|o: Result<(Model<S>, Model<S>, Model<S>), Error>| #[trigger]
        input_slopes_out::<S>(aux.x, xn, w.wa, w.wb, gua, gb, o) && passes(
            o,
            r,
            block_slopes_last::<S>(
                aux,
                w,
                eps,
                WeightsModel { wa: o->Ok_0.0, wb: o->Ok_0.1, ..part },
                dout1,
                r1,
                o->Ok_0.2,
                r,
            ),
        );
    let more = WeightsModel { wa: inp->Ok_0.0, wb: inp->Ok_0.1, ..part };
    let last = choose|o: Result<(Model<S>, Model<S>), Error>| #[trigger]
        first_norm_slopes_out::<S>(aux.x, r1, w.g1, eps, inp->Ok_0.2, dout1, o) && passes(
            o,
            r,
            gives(
                r,
                BlockSlopesModel { x: o->Ok_0.1, w: WeightsModel { g1: o->Ok_0.0, ..more } },
            ),
        );
    lemma_input_shapes::<S>(z, aux.x, xn, w.wa, w.wb, gua, gb, inp->Ok_0);
    lemma_first_norm_shapes::<S>(z, aux.x, r1, w.g1, eps, inp->Ok_0.2, dout1, last->Ok_0);
}

/// The slopes from where those of the scan are due.
proof fn lemma_slopes_from_scan<S: Scalars>(
    z: BlockSizes,
    aux: AuxModel<S>,
    w: WeightsModel<S>,
    eps: S::F,
    part: WeightsModel<S>,
    dout1: Model<S>,
    dh: Model<S>,
    g: BlockSlopesModel<S>,
)
    requires
        z.weighs::<S>(w),
        z.weighs::<S>(part),
        z.keeps::<S>(aux),
        dout1.shape == z.steps_of(z.features),
        block_slopes_scan::<S>(aux, w, eps, part, dout1, dh, Ok(g)),
    ensures
        g.x.shape == aux.x.shape,
        z.weighs::<S>(g.w),
{
    reveal(block_slopes_scan);
    let r: Result<BlockSlopesModel<S>, Error> = Ok(g);
    let scan = choose|o: Result<(Model<S>, Model<S>), Error>| #[trigger]
        scan_back_out::<S>("fused_block"@, aux.a, aux.h, dh, o) && passes(
            o,
            r,
            block_slopes_gate::<S>(aux, w, eps, part, dout1, o->Ok_0.0, o->Ok_0.1, r),
        );
    let gb = scan->Ok_0.1;
    let gate = choose|o: Outcome<S>| #[trigger]
        gate_slope_of_out::<S>(aux.a, scan->Ok_0.0, o) && passes(
            o,
            r,
            block_slopes_again::<S>(aux, w, eps, part, dout1, o->Ok_0, gb, r),
        );
    let gua = gate->Ok_0;
    lemma_gate_shapes::<S>(z, aux.a, scan->Ok_0.0, gua);
    let norm = choose|o: Outcome<S>| #[trigger]
        rms_norm_out::<S>(aux.x, eps, o) && passes(
            o,
            r,
            block_slopes_gained::<S>(aux, w, eps, part, dout1, gua, gb, o->Ok_0, r),
        );
    let r1 = norm->Ok_0;
    let gained = choose|o: Outcome<S>| #[trigger]
        gain_out::<S>(r1, w.g1, o) && passes(
            o,
            r,
            block_slopes_input::<S>(aux, w, eps, part, dout1, gua, gb, r1, o->Ok_0, r),
        );
    lemma_joined_last(aux.x.shape);
    lemma_slopes_from_input::<S>(z, aux, w, eps, part, dout1, gua, gb, r1, gained->Ok_0, g);
}

/// The slopes from where those of the second normalization are due.
proof fn lemma_slopes_from_norm<S: Scalars>(
    z: BlockSizes,
    aux: AuxModel<S>,
    w: WeightsModel<S>,
    eps: S::F,
    gy: Model<S>,
    part: WeightsModel<S>,
    dxn2: Model<S>,
    g: BlockSlopesModel<S>,
)
    requires
        z.weighs::<S>(w),
        z.weighs::<S>(part),
        z.keeps::<S>(aux),
        gy.shape == z.steps_of(z.features),
        dxn2.shape == z.steps_of(z.features),
        block_slopes_norm::<S>(aux, w, eps, gy, part, dxn2, Ok(g)),
    ensures
        g.x.shape == aux.x.shape,
        z.weighs::<S>(g.w),
{
    reveal(block_slopes_norm);
    let r: Result<BlockSlopesModel<S>, Error> = Ok(g);
    let norm = choose|o: Result<(Model<S>, Model<S>), Error>| #[trigger]
        second_norm_slopes_out::<S>(aux.out1, w.g3, eps, dxn2, gy, o) && passes(
            o,
            r,
            block_slopes_mix::<S>(
                aux,
                w,
                eps,
                WeightsModel { g3: o->Ok_0.0, ..part },
                o->Ok_0.1,
                r,
            ),
        );
    let some = WeightsModel { g3: norm->Ok_0.0, ..part };
    let dout1 = norm->Ok_0.1;
    lemma_second_norm_shapes::<S>(z, aux.out1, w.g3, eps, dxn2, gy, norm->Ok_0);
    let mix = choose|o: Result<(Model<S>, Model<S>, Model<S>), Error>| #[trigger]
        mix_slopes_out::<S>(aux.h, aux.s2, w.wo, w.g2, dout1, o) && passes(
            o,
            r,
            block_slopes_scan::<S>(
                aux,
                w,
                eps,
                WeightsModel { wo: o->Ok_0.0, g2: o->Ok_0.2, ..some },
                dout1,
                o->Ok_0.1,
                r,
            ),
        );
    lemma_mix_shapes::<S>(z, aux.h, aux.s2, w.wo, w.g2, dout1, mix->Ok_0);
    let more = WeightsModel { wo: mix->Ok_0.0, g2: mix->Ok_0.2, ..some };
    lemma_slopes_from_scan::<S>(z, aux, w, eps, more, dout1, mix->Ok_0.1, g);
}

/// The slopes of a fused block have the shapes of its input and of its weights.
pub proof fn law_block_slopes_fit<S: Scalars>(
    z: BlockSizes,
    aux: AuxModel<S>,
    w: WeightsModel<S>,
    eps: S::F,
    gy: Model<S>,
    g: BlockSlopesModel<S>,
)
    requires
        z.weighs::<S>(w),
        z.keeps::<S>(aux),
        gy.shape == z.steps_of(z.features),
        fused_block_bwd_out::<S>(aux, w, eps, gy, Ok(g)),
    ensures
        g.x.shape == aux.x.shape,
        z.weighs::<S>(g.w),
{
    reveal(fused_block_bwd_out);
    let r: Result<BlockSlopesModel<S>, Error> = Ok(g);
    let gain = choose|o: Outcome<S>| #[trigger]
        gain_slope_out::<S>(gy, aux.f2, o) && passes(
            o,
            r,
            block_slopes_tail::<S>(aux, w, eps, gy, o->Ok_0, r),
        );
    let gg4 = gain->Ok_0;
    lemma_gain_slope::<S>(gy, aux.f2, gg4, z.batches, z.steps, z.features);
    let tail = choose|o: Outcome<S>| #[trigger]
        gain_out::<S>(gy, w.g4, o) && passes(
            o,
            r,
            block_slopes_feed::<S>(aux, w, eps, gy, gg4, o->Ok_0, r),
        );
    let dm = tail->Ok_0;
    lemma_joined_last(gy.shape);
    let fed = choose|o: Result<(Model<S>, Model<S>, Model<S>), Error>| #[trigger]
        feed_slopes_out::<S>(aux.f1, aux.xn2, w.wf1, w.wf2, dm, o) && passes(
            o,
            r,
            block_slopes_norm::<S>(
                aux,
                w,
                eps,
                gy,
                WeightsModel { wf2: o->Ok_0.0, wf1: o->Ok_0.1, g4: gg4, ..w },
                o->Ok_0.2,
                r,
            ),
        );
    lemma_feed_shapes::<S>(z, aux.f1, aux.xn2, w.wf1, w.wf2, dm, fed->Ok_0);
    let some = WeightsModel { wf2: fed->Ok_0.0, wf1: fed->Ok_0.1, g4: gg4, ..w };
    lemma_slopes_from_norm::<S>(z, aux, w, eps, gy, some, fed->Ok_0.2, g);
}

proof fn lemma_gates_shapes<S: Scalars>(
    z: BlockSizes,
    x: Model<S>,
    wa: Model<S>,
    wb: Model<S>,
    g1: Model<S>,
    eps: S::F,
    p: (Model<S>, Model<S>),
)
    requires
        z.features + 1 <= isize::MAX,
        x.shape == z.steps_of(z.features),
        wa.shape == seq![(z.features + 1) as usize, z.states],
        wb.shape == seq![z.features, z.states],
        g1.shape == seq![z.features],
        gates_out::<S>(x, wa, wb, g1, eps, Ok(p)),
    ensures
        p.0.shape == z.steps_of(z.states),
        p.1.shape == z.steps_of(z.states),
{
    let r: Result<(Model<S>, Model<S>), Error> = Ok(p);
    let xn = choose|o: Outcome<S>| #[trigger]
        normed_out::<S>(x, g1, eps, o) && passes(o, r, gates_of::<S>(x, o->Ok_0, wa, wb, r));
    lemma_joined_last(x.shape);
    assert(xn->Ok_0.shape == x.shape);
    let xna = choose|o: Outcome<S>| #[trigger]
        widened_out::<S>(x, xn->Ok_0, o) && passes(
            o,
            r,
            states_out::<S>(xn->Ok_0, o->Ok_0, wa, wb, r),
        );
    lemma_widened::<S>(x, xn->Ok_0, xna->Ok_0, z.batches, z.steps, z.features);
    lemma_times(z.batches, z.steps, (z.features + 1) as usize, z.states);
    lemma_times(z.batches, z.steps, z.features, z.states);
}

proof fn lemma_mixed_shapes<S: Scalars>(
    z: BlockSizes,
    x: Model<S>,
    h: Model<S>,
    wo: Model<S>,
    g2: Model<S>,
    p: (Model<S>, Model<S>),
)
    requires
        x.shape == z.steps_of(z.features),
        h.shape == z.steps_of(z.states),
        wo.shape == seq![z.states, z.features],
        g2.shape == seq![z.states],
        mixed_out::<S>(x, h, wo, g2, Ok(p)),
    ensures
        p.0.shape == z.steps_of(z.states),
        p.1.shape == z.steps_of(z.features),
{
    lemma_joined_last(x.shape);
    lemma_joined_last(h.shape);
    lemma_times(z.batches, z.steps, z.states, z.features);
}

proof fn lemma_fed_shapes<S: Scalars>(
    z: BlockSizes,
    out1: Model<S>,
    wf1: Model<S>,
    wf2: Model<S>,
    g3: Model<S>,
    eps: S::F,
    m: FeedModel<S>,
)
    requires
        out1.shape == z.steps_of(z.features),
        wf1.shape == seq![z.features, z.hidden],
        wf2.shape == seq![z.hidden, z.features],
        g3.shape == seq![z.features],
        fed_out::<S>(out1, wf1, wf2, g3, eps, Ok(m)),
    ensures
        m.xn2.shape == z.steps_of(z.features),
        m.f1.shape == z.steps_of(z.hidden),
        m.f2.shape == z.steps_of(z.features),
{
    lemma_joined_last(out1.shape);
    lemma_times(z.batches, z.steps, z.features, z.hidden);
    lemma_times(z.batches, z.steps, z.hidden, z.features);
}

/// A fused block gives a value of its input's shape and keeps what its slopes need.
pub proof fn law_block_keeps_shapes<S: Scalars>(
    z: BlockSizes,
    x: Model<S>,
    w: WeightsModel<S>,
    eps: S::F,
    y: Model<S>,
    aux: AuxModel<S>,
)
    requires
        z.weighs::<S>(w),
        x.shape == z.steps_of(z.features),
        fused_block_fwd_out::<S>(x, w, eps, Ok((y, aux))),
    ensures
        y.shape == x.shape,
        z.keeps::<S>(aux),
{
    let r: Result<(Model<S>, AuxModel<S>), Error> = Ok((y, aux));
    let gates = choose|o: Result<(Model<S>, Model<S>), Error>| #[trigger]
        gates_out::<S>(x, w.wa, w.wb, w.g1, eps, o) && passes(
            o,
            r,
            block_of_states::<S>(x, w, eps, o->Ok_0.0, o->Ok_0.1, r),
        );
    let (a, h) = gates->Ok_0;
    let mixed = choose|o: Result<(Model<S>, Model<S>), Error>| #[trigger]
        mixed_out::<S>(x, h, w.wo, w.g2, o) && passes(
            o,
            r,
            block_of_mix::<S>(x, w, eps, a, h, o->Ok_0.0, o->Ok_0.1, r),
        );
    let out1 = mixed->Ok_0.1;
    lemma_gates_shapes::<S>(z, x, w.wa, w.wb, w.g1, eps, gates->Ok_0);
    lemma_mixed_shapes::<S>(z, x, h, w.wo, w.g2, mixed->Ok_0);
    let fed = choose|o: Result<FeedModel<S>, Error>| #[trigger]
        fed_out::<S>(out1, w.wf1, w.wf2, w.g3, eps, o) && passes(
            o,
            r,
            block_of_feed::<S>(
                w,
                AuxModel {
                    x,
                    a,
                    h,
                    s2: mixed->Ok_0.0,
                    out1,
                    xn2: o->Ok_0.xn2,
                    f1: o->Ok_0.f1,
                    f2: o->Ok_0.f2,
                },
                r,
            ),
        );
    lemma_fed_shapes::<S>(z, out1, w.wf1, w.wf2, w.g3, eps, fed->Ok_0);
    lemma_joined_last(x.shape);
}

/// Summing away the first axis is what brings a slope of matrices back to one matrix.
proof fn lemma_first_axis_folds<S: Scalars>(
    m: Model<S>,
    b: usize,
    k: usize,
    n: usize,
    t: Model<S>,
)
    requires
        m.shape == seq![b, k, n],
        sum_out::<S>(m, first_axis(), false, Ok(t)),
    ensures
        unbroadcast_out::<S>(m, seq![k, n], Ok(t)),
{
    let target = seq![k, n];
    lemma_summed(b, k, n);
    assert(t.shape == target);
    let r: Outcome<S> = Ok(t);
    assert(extra_rank(m.shape, target) == 1);
    assert(peeled_out::<S>(t, 0, r));
    assert(peeled_out::<S>(m, 1, r));
    reveal_with_fuel(stretched_axes, 3);
    assert(stretched_axes(target, target, 2) =~= Seq::<isize>::empty());
    assert(folded_out::<S>(t, target, r));
    assert(m.shape.len() != target.len());
}

/// The fused block's slopes of a matrix, and of what it was applied to, are those of `matmul`.
pub proof fn law_matrix_slopes_are_matmuls<S: Scalars>(
    z: BlockSizes,
    k: usize,
    n: usize,
    a: Model<S>,
    w: Model<S>,
    gy: Model<S>,
    ga: Model<S>,
    gw: Model<S>,
)
    requires
        a.shape == z.steps_of(k),
        w.shape == seq![k, n],
        gy.shape == z.steps_of(n),
        turned_product_out::<S>(gy, w, Ok(ga)),
        weight_slope_out::<S>(a, gy, Ok(gw)),
    ensures
        matmul_parts::<S>(a, w, gy, Ok(seq![ga, gw])),
{
    reveal(matmul_parts);
    let r: Result<Seq<Model<S>>, Error> = Ok(seq![ga, gw]);
    let ra: Outcome<S> = Ok(ga);
    let rw: Outcome<S> = Ok(gw);
    let (b, s) = (z.batches, z.steps);
    lemma_turned_product::<S>(gy, w, ga, b, s, k, n);
    let wt = choose|o: Outcome<S>| #[trigger]
        transpose_out::<S>(w, o) && passes(o, ra, turned_product_of::<S>(gy, o->Ok_0, ra));
    let at = choose|o: Outcome<S>| #[trigger]
        transpose_out::<S>(a, o) && passes(o, rw, weight_slope_product::<S>(gy, o->Ok_0, rw));
    let pb = choose|p: Outcome<S>| #[trigger]
        matmul_out::<S>(at->Ok_0, gy, p) && passes(p, rw, weight_slope_sum::<S>(p->Ok_0, rw));
    lemma_turned::<S>(a, at->Ok_0);
    lemma_times_each(b, k, s, n);
    lemma_first_axis_folds::<S>(pb->Ok_0, b, k, n, gw);
    assert(unbroadcast_out::<S>(pb->Ok_0, w.shape, rw));
    assert(unbroadcast_out::<S>(ga, a.shape, ra));
    assert(matmul_second::<S>(w, pb->Ok_0, ga, r));
    assert(matmul_first::<S>(a, w, ga, pb->Ok_0, r));
    assert(matmul_right::<S>(a, w, gy, ga, at->Ok_0, r));
    assert(matmul_turned::<S>(a, w, gy, ga, r));
    assert(matmul_out::<S>(gy, wt->Ok_0, ra));
    assert(matmul_left::<S>(a, w, gy, wt->Ok_0, r));
}

/// The fused block's slope through a normalization is that of `rms_norm`.
pub proof fn law_norm_slope_is_rms_norms<S: Scalars>(
    x: Model<S>,
    gy: Model<S>,
    eps: S::F,
    gx: Model<S>,
)
    requires
        rms_back_out::<S>("fused_block"@, x, gy, eps, Ok(gx)),
    ensures
        rms_parts::<S>(x, eps, gy, Ok(seq![gx])),
{
    reveal(rms_parts);
    assert(rms_back_out::<S>("rms_norm"@, x, gy, eps, Ok(gx)));
}

/// The fused block's slopes through the recurrence are those of `gated_scan`.
pub proof fn law_scan_slopes_are_gated_scans<S: Scalars>(
    a: Model<S>,
    h: Model<S>,
    gy: Model<S>,
    p: (Model<S>, Model<S>),
)
    requires
        scan_back_out::<S>("fused_block"@, a, h, gy, Ok(p)),
    ensures
        scan_parts::<S>(a, h, gy, Ok(seq![p.0, p.1])),
{
    reveal(scan_parts);
    assert(scan_back_out::<S>("gated_scan"@, a, h, gy, Ok(p)));
}

} // verus!
