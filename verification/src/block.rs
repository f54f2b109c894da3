//! The fused block against the block that is put together from single operations.
use vstd::prelude::*;
use crate::cpu::{add_out, mul_out};
use crate::dtype::Dtype;
use crate::error::Error;
use crate::fused::{
    block_of_feed, block_of_mix, block_of_states, column_shape, fed_hidden, fed_last, fed_of,
    fed_out, finished_out, fused_block_fwd_out, gain_out, gates_of, gates_out, joint_out, mixed_of,
    mixed_out, normed_out, projected, rejoined, scanned, silu_f32_out, states_of_gates,
    states_of_inputs, states_out, widened_out, AuxModel, FeedModel, WeightsModel,
};
use crate::guarded::join_out;
use crate::joining::cat_out;
use crate::matmul::matmul_out;
use crate::rows::rms_norm_out;
use crate::scalar::Scalars;
use crate::scan::gated_scan_out;
use crate::tensor::{gives, ones_out, passes, Model, Outcome};
use crate::unary::{sigmoid_out, silu_out};

verus! {

/// The values that a layer block passes through, put together from single operations.
pub ghost struct Stages<S: Scalars> {
    pub n1: Model<S>,
    pub xn: Model<S>,
    pub ones: Model<S>,
    pub xna: Model<S>,
    pub ua: Model<S>,
    pub a: Model<S>,
    pub ub: Model<S>,
    pub h: Model<S>,
    pub hg: Model<S>,
    pub s2: Model<S>,
    pub so: Model<S>,
    pub out1: Model<S>,
    pub n2: Model<S>,
    pub xn2: Model<S>,
    pub f1: Model<S>,
    pub sf1: Model<S>,
    pub f2: Model<S>,
    pub fg: Model<S>,
}

impl<S: Scalars> Stages<S> {
    /// What a block on `x` keeps of them for its gradients.
    pub open spec fn kept(self, x: Model<S>) -> AuxModel<S> {
        AuxModel {
            x,
            a: self.a,
            h: self.h,
            s2: self.s2,
            out1: self.out1,
            xn2: self.xn2,
            f1: self.f1,
            f2: self.f2,
        }
    }
}

/// `y` is a layer block put together from single operations: a gated recurrence over the normalized
/// input, mixed into the input, and a feed-forward half on top.
pub open spec fn composed<S: Scalars>(
    x: Model<S>,
    w: WeightsModel<S>,
    eps: S::F,
    t: Stages<S>,
    y: Model<S>,
) -> bool {
    &&& rms_norm_out::<S>(x, eps, Ok(t.n1))
    &&& mul_out::<S>(t.n1, w.g1, Ok(t.xn))
    &&& ones_out::<S>(column_shape(x.shape), Dtype::F32, Ok(t.ones))
    &&& cat_out::<S>(seq![t.xn, t.ones], 2, Ok(t.xna))
    &&& matmul_out::<S>(t.xna, w.wa, Ok(t.ua))
    &&& sigmoid_out::<S>(t.ua, Ok(t.a))
    &&& matmul_out::<S>(t.xn, w.wb, Ok(t.ub))
    &&& gated_scan_out::<S>(t.a, t.ub, Ok(t.h))
    &&& mul_out::<S>(t.h, w.g2, Ok(t.hg))
    &&& silu_out::<S>(t.hg, Ok(t.s2))
    &&& matmul_out::<S>(t.s2, w.wo, Ok(t.so))
    &&& add_out::<S>(x, t.so, Ok(t.out1))
    &&& rms_norm_out::<S>(t.out1, eps, Ok(t.n2))
    &&& mul_out::<S>(t.n2, w.g3, Ok(t.xn2))
    &&& matmul_out::<S>(t.xn2, w.wf1, Ok(t.f1))
    &&& silu_out::<S>(t.f1, Ok(t.sf1))
    &&& matmul_out::<S>(t.sf1, w.wf2, Ok(t.f2))
    &&& mul_out::<S>(t.f2, w.g4, Ok(t.fg))
    &&& add_out::<S>(t.out1, t.fg, Ok(y))
}

/// A normalization with a gain, from single operations.
proof fn lemma_normed_steps<S: Scalars>(x: Model<S>, g: Model<S>, eps: S::F, t: Model<S>) -> (n:
    Model<S>)
    requires
        normed_out::<S>(x, g, eps, Ok(t)),
    ensures
        rms_norm_out::<S>(x, eps, Ok(n)),
        mul_out::<S>(n, g, Ok(t)),
{
    let r: Outcome<S> = Ok(t);
    let o = choose|o: Outcome<S>| #[trigger]
        rms_norm_out::<S>(x, eps, o) && passes(o, r, gain_out::<S>(o->Ok_0, g, r));
    o->Ok_0
}

/// The recurrence, from single operations.
proof fn lemma_gates_steps<S: Scalars>(
    x: Model<S>,
    w: WeightsModel<S>,
    eps: S::F,
    a: Model<S>,
    h: Model<S>,
) -> (t: Stages<S>)
    requires
        gates_out::<S>(x, w.wa, w.wb, w.g1, eps, Ok((a, h))),
    ensures
        t.a == a && t.h == h,
        rms_norm_out::<S>(x, eps, Ok(t.n1)),
        mul_out::<S>(t.n1, w.g1, Ok(t.xn)),
        ones_out::<S>(column_shape(x.shape), Dtype::F32, Ok(t.ones)),
        cat_out::<S>(seq![t.xn, t.ones], 2, Ok(t.xna)),
        matmul_out::<S>(t.xna, w.wa, Ok(t.ua)),
        sigmoid_out::<S>(t.ua, Ok(t.a)),
        matmul_out::<S>(t.xn, w.wb, Ok(t.ub)),
        gated_scan_out::<S>(t.a, t.ub, Ok(t.h)),
{
    let r: Result<(Model<S>, Model<S>), Error> = Ok((a, h));
    let xn = choose|o: Outcome<S>| #[trigger]
        normed_out::<S>(x, w.g1, eps, o) && passes(
            o,
            r,
            gates_of::<S>(x, o->Ok_0, w.wa, w.wb, r),
        );
    let n1 = lemma_normed_steps::<S>(x, w.g1, eps, xn->Ok_0);
    let xna = choose|o: Outcome<S>| #[trigger]
        widened_out::<S>(x, xn->Ok_0, o) && passes(
            o,
            r,
            states_out::<S>(xn->Ok_0, o->Ok_0, w.wa, w.wb, r),
        );
    let ones = choose|o: Outcome<S>| #[trigger]
        ones_out::<S>(column_shape(x.shape), Dtype::F32, o) && passes(
            o,
            xna,
            join_out::<S>("fused_block"@, seq![xn->Ok_0, o->Ok_0], 2, xna),
        );
    let ua = choose|o: Outcome<S>| #[trigger]
        matmul_out::<S>(xna->Ok_0, w.wa, o) && passes(
            o,
            r,
            states_of_gates::<S>(xn->Ok_0, o->Ok_0, w.wb, r),
        );
    let sa = choose|o: Outcome<S>| #[trigger]
        sigmoid_out::<S>(ua->Ok_0, o) && passes(
            o,
            r,
            states_of_inputs::<S>(xn->Ok_0, o->Ok_0, w.wb, r),
        );
    let ub = choose|o: Outcome<S>| #[trigger]
        matmul_out::<S>(xn->Ok_0, w.wb, o) && passes(o, r, scanned::<S>(sa->Ok_0, o->Ok_0, r));
    let sh = choose|o: Outcome<S>| #[trigger]
        gated_scan_out::<S>(sa->Ok_0, ub->Ok_0, o) && passes(
            o,
            r,
            gives(r, (sa->Ok_0, o->Ok_0)),
        );
    Stages {
        n1,
        xn: xn->Ok_0,
        ones: ones->Ok_0,
        xna: xna->Ok_0,
        ua: ua->Ok_0,
        a: sa->Ok_0,
        ub: ub->Ok_0,
        h: sh->Ok_0,
        hg: x,
        s2: x,
        so: x,
        out1: x,
        n2: x,
        xn2: x,
        f1: x,
        sf1: x,
        f2: x,
        fg: x,
    }
}

/// The mix, from single operations: `h * g2` and `s2 @ wo`.
proof fn lemma_mix_steps<S: Scalars>(
    x: Model<S>,
    h: Model<S>,
    wo: Model<S>,
    g2: Model<S>,
    s2: Model<S>,
    out1: Model<S>,
) -> (t: (Model<S>, Model<S>))
    requires
        mixed_out::<S>(x, h, wo, g2, Ok((s2, out1))),
    ensures
        mul_out::<S>(h, g2, Ok(t.0)),
        silu_out::<S>(t.0, Ok(s2)),
        matmul_out::<S>(s2, wo, Ok(t.1)),
        add_out::<S>(x, t.1, Ok(out1)),
{
    let r: Result<(Model<S>, Model<S>), Error> = Ok((s2, out1));
    let hg = choose|o: Outcome<S>| #[trigger]
        gain_out::<S>(h, g2, o) && passes(o, r, mixed_of::<S>(x, o->Ok_0, wo, r));
    let ss = choose|o: Outcome<S>| #[trigger]
        silu_f32_out::<S>(hg->Ok_0, o) && passes(o, r, projected::<S>(x, o->Ok_0, wo, r));
    let so = choose|o: Outcome<S>| #[trigger]
        matmul_out::<S>(ss->Ok_0, wo, o) && passes(o, r, rejoined::<S>(x, ss->Ok_0, o->Ok_0, r));
    let sum = choose|o: Outcome<S>| #[trigger]
        joint_out::<S>(x, so->Ok_0, o) && passes(o, r, gives(r, (ss->Ok_0, o->Ok_0)));
    assert(sum == Outcome::<S>::Ok(out1));
    (hg->Ok_0, so->Ok_0)
}

/// The feed-forward half, from single operations: the normalization and SiLU of the hidden layer.
proof fn lemma_feed_steps<S: Scalars>(
    out1: Model<S>,
    wf1: Model<S>,
    wf2: Model<S>,
    g3: Model<S>,
    eps: S::F,
    feed: FeedModel<S>,
) -> (t: (Model<S>, Model<S>))
    requires
        fed_out::<S>(out1, wf1, wf2, g3, eps, Ok(feed)),
    ensures
        rms_norm_out::<S>(out1, eps, Ok(t.0)),
        mul_out::<S>(t.0, g3, Ok(feed.xn2)),
        matmul_out::<S>(feed.xn2, wf1, Ok(feed.f1)),
        silu_out::<S>(feed.f1, Ok(t.1)),
        matmul_out::<S>(t.1, wf2, Ok(feed.f2)),
{
    let r: Result<FeedModel<S>, Error> = Ok(feed);
    let xn2 = choose|o: Outcome<S>| #[trigger]
        normed_out::<S>(out1, g3, eps, o) && passes(o, r, fed_of::<S>(o->Ok_0, wf1, wf2, r));
    let n2 = lemma_normed_steps::<S>(out1, g3, eps, xn2->Ok_0);
    let f1 = choose|o: Outcome<S>| #[trigger]
        matmul_out::<S>(xn2->Ok_0, wf1, o) && passes(
            o,
            r,
            fed_hidden::<S>(xn2->Ok_0, o->Ok_0, wf2, r),
        );
    let sf1 = choose|o: Outcome<S>| #[trigger]
        silu_f32_out::<S>(f1->Ok_0, o) && passes(
            o,
            r,
            fed_last::<S>(xn2->Ok_0, f1->Ok_0, o->Ok_0, wf2, r),
        );
    let f2 = choose|o: Outcome<S>| #[trigger]
        matmul_out::<S>(sf1->Ok_0, wf2, o) && passes(
            o,
            r,
            gives(r, FeedModel { xn2: xn2->Ok_0, f1: f1->Ok_0, f2: o->Ok_0 }),
        );
    assert(f2 == Outcome::<S>::Ok(feed.f2));
    (n2, sf1->Ok_0)
}

/// The fused block has the value of the block that is put together from single operations, and
/// keeps the values that it passes through.
pub proof fn law_block_is_composed<S: Scalars>(
    x: Model<S>,
    w: WeightsModel<S>,
    eps: S::F,
    y: Model<S>,
    aux: AuxModel<S>,
)
    requires
        fused_block_fwd_out::<S>(x, w, eps, Ok((y, aux))),
    ensures
        exists|t: Stages<S>| #[trigger] composed::<S>(x, w, eps, t, y) && t.kept(x) == aux,
{
    let r: Result<(Model<S>, AuxModel<S>), Error> = Ok((y, aux));
    let gs = choose|o: Result<(Model<S>, Model<S>), Error>| #[trigger]
        gates_out::<S>(x, w.wa, w.wb, w.g1, eps, o) && passes(
            o,
            r,
            block_of_states::<S>(x, w, eps, o->Ok_0.0, o->Ok_0.1, r),
        );
    let (a, h) = gs->Ok_0;
    let first = lemma_gates_steps::<S>(x, w, eps, a, h);
    let mx = choose|o: Result<(Model<S>, Model<S>), Error>| #[trigger]
        mixed_out::<S>(x, h, w.wo, w.g2, o) && passes(
            o,
            r,
            block_of_mix::<S>(x, w, eps, a, h, o->Ok_0.0, o->Ok_0.1, r),
        );
    let (s2, out1) = mx->Ok_0;
    let mix = lemma_mix_steps::<S>(x, h, w.wo, w.g2, s2, out1);
    let fo = choose|o: Result<FeedModel<S>, Error>| #[trigger]
        fed_out::<S>(out1, w.wf1, w.wf2, w.g3, eps, o) && passes(
            o,
            r,
            block_of_feed::<S>(
                w,
                AuxModel {
                    x,
                    a,
                    h,
                    s2,
                    out1,
                    xn2: o->Ok_0.xn2,
                    f1: o->Ok_0.f1,
                    f2: o->Ok_0.f2,
                },
                r,
            ),
        );
    let feed = fo->Ok_0;
    let fed = lemma_feed_steps::<S>(out1, w.wf1, w.wf2, w.g3, eps, feed);
    let kept = AuxModel { x, a, h, s2, out1, xn2: feed.xn2, f1: feed.f1, f2: feed.f2 };
    let last = choose|o: Outcome<S>| #[trigger]
        finished_out::<S>(kept.out1, kept.f2, w.g4, o) && passes(o, r, gives(r, (o->Ok_0, kept)));
    assert(last == Outcome::<S>::Ok(y));
    let fg = choose|o: Outcome<S>| #[trigger]
        gain_out::<S>(feed.f2, w.g4, o) && passes(o, last, joint_out::<S>(out1, o->Ok_0, last));
    let t = Stages {
        hg: mix.0,
        s2,
        so: mix.1,
        out1,
        n2: fed.0,
        xn2: feed.xn2,
        f1: feed.f1,
        sf1: fed.1,
        f2: feed.f2,
        fg: fg->Ok_0,
        ..first
    };
    assert(composed::<S>(x, w, eps, t, y));
}

} // verus!
