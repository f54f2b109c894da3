//! What the fused block computes for its gradients, against the reverse rules of single operations,
//! where the arithmetic is a commutative ring.
use vstd::prelude::*;
use crate::ad::{
    sigmoid_local_out, sigmoid_local_product, sigmoid_local_rest, silu_local_bell, silu_local_ones,
    silu_local_out, silu_local_rest, silu_local_sum, silu_local_tail,
};
use crate::cpu::{add_out, mul_out, sub_out};
use crate::elementwise::{binary_value, source_rank};
use crate::error::Error;
use crate::fused::{
    gain_out, gain_slope_out, gain_slope_sum, joint_out, mapped_out, rest_of, rest_rel,
};
use crate::index::{lemma_unravel, unravel, volume};
use crate::ring::{law_axes_in_turn, law_slope_forms, lemma_laws, lemma_plain_equal, Ring};
use crate::rules::{
    add_parts, add_second, extra_rank, folded_out, local_parts, mul_first, mul_other, mul_parts,
    mul_second, peeled_out, stretched_axes, unbroadcast_out,
};
use crate::scalar::{
    adding, is_difference, is_product, is_sum, multiplying, subtracting, Arith, Scalars,
};
use crate::shape::joined;
use crate::slopes::{silu_slope_of, silu_slope_rel, silu_slope_steps, SiluSlopeSteps};
use crate::tensor::{ones_out, passes, Model, Outcome};
use crate::unary::{sigmoid_of, sigmoid_out, sigmoid_rel};
use crate::views::narrowed;

verus! {

/// A number has one sigmoid.
pub open spec fn one_sigmoid<T, A: Arith<T>>() -> bool {
    forall|x: T, y: T, z: T|
        #![trigger sigmoid_of::<T, A>(x, y), sigmoid_of::<T, A>(x, z)]
        sigmoid_of::<T, A>(x, y) && sigmoid_of::<T, A>(x, z) ==> y == z
}

/// Two tensors of 32-bit numbers show the same.
pub open spec fn alike<S: Scalars>(a: Model<S>, b: Model<S>) -> bool {
    &&& a.shape == b.shape
    &&& a.data is F32 && b.data is F32
    &&& a.f32s() == b.f32s()
    &&& a.device == b.device
}

/// A box read as itself.
proof fn lemma_source_same(shape: Seq<usize>, i: int)
    requires
        0 <= i < volume(shape),
    ensures
        source_rank(shape, shape, i) == i,
{
    lemma_unravel(shape, i);
    let idx = unravel(shape, i);
    assert(narrowed(shape, idx) =~= idx) by {
        assert forall|k: int| 0 <= k < shape.len() implies narrowed(shape, idx)[k] == idx[k] by {
            assert(0 <= idx[k] < shape[k]);
        }
    }
}

/// Combining two tensors of one shape combines their elements place by place.
pub(crate) proof fn lemma_zip_same<S: Scalars>(
    a: Model<S>,
    b: Model<S>,
    rel32: spec_fn(S::F, S::F, S::F) -> bool,
    rel64: spec_fn(S::D, S::D, S::D) -> bool,
    t: Model<S>,
)
    requires
        a.shape == b.shape,
        a.data is F32,
        binary_value::<S>(a, b, rel32, rel64, t),
    ensures
        b.data is F32,
        t.data is F32,
        t.plain(a.shape),
        t.f32s() == t.data->F32_0,
        t.f32s().len() == volume(a.shape),
        forall|i: int|
            0 <= i < volume(a.shape) ==> rel32(a.f32s()[i], b.f32s()[i], #[trigger] t.f32s()[i]),
{
    assert(joined(a.shape, a.shape) =~= a.shape);
    assert forall|i: int| 0 <= i < volume(a.shape) implies rel32(
        a.f32s()[i],
        b.f32s()[i],
        #[trigger] t.f32s()[i],
    ) by {
        lemma_source_same(a.shape, i);
        assert(t.f32s()[i] == t.data->F32_0[i]);
    }
}

/// The pieces of a sum of two tensors of one shape are the cotangent itself.
pub(crate) proof fn lemma_add_pieces<S: Scalars>(shape: Seq<usize>, gy: Model<S>)
    requires
        gy.shape == shape,
    ensures
        add_parts::<S>(shape, shape, gy, Ok(seq![gy, gy])),
{
    reveal(add_parts);
    let r: Result<Seq<Model<S>>, Error> = Ok(seq![gy, gy]);
    let o: Outcome<S> = Ok(gy);
    assert(unbroadcast_out::<S>(gy, shape, o));
    assert(add_second::<S>(shape, gy, gy, r));
}

/// A sum that has been turned round.
pub(crate) proof fn lemma_turned_sum<S: Scalars>(
    ring: Ring<S::F>,
    a: Model<S>,
    b: Model<S>,
    c: Model<S>,
    d: Model<S>,
    t: Model<S>,
)
    requires
        ring.computes::<S>(),
        joint_out::<S>(a, b, Ok(t)),
        a.shape == b.shape,
        alike::<S>(a, c),
        alike::<S>(b, d),
    ensures
        add_out::<S>(d, c, Ok(t)),
        add_out::<S>(c, d, Ok(t)),
{
    let add32 = adding::<S::F, S>();
    let add64 = adding::<S::D, S>();
    lemma_zip_same::<S>(a, b, add32, add64, t);
    assert(joined(a.shape, a.shape) =~= a.shape);
    assert forall|i: int| 0 <= i < volume(a.shape) implies add32(
        b.f32s()[source_rank(a.shape, a.shape, i)],
        a.f32s()[source_rank(a.shape, a.shape, i)],
        #[trigger] t.data->F32_0[i],
    ) by {
        lemma_source_same(a.shape, i);
        assert(add32(a.f32s()[i], b.f32s()[i], t.f32s()[i]));
        assert(is_sum::<S::F, S>(a.f32s()[i], b.f32s()[i], t.f32s()[i]));
        lemma_laws(ring, a.f32s()[i], b.f32s()[i], b.f32s()[i]);
        assert(is_sum::<S::F, S>(b.f32s()[i], a.f32s()[i], t.f32s()[i]));
    }
}

/// The pieces of a product with gains: the block's are those of `mul`.
pub(crate) proof fn lemma_gain_pieces<S: Scalars>(
    ring: Ring<S::F>,
    b: usize,
    s: usize,
    n: usize,
    a: Model<S>,
    w: Model<S>,
    gy: Model<S>,
    kept: Model<S>,
    da: Model<S>,
    dw: Model<S>,
)
    requires
        ring.computes::<S>(),
        s * n <= usize::MAX,
        a.shape == seq![b, s, n],
        w.shape == seq![n],
        gy.shape == seq![b, s, n],
        alike::<S>(a, kept),
        gain_out::<S>(gy, w, Ok(da)),
        gain_slope_out::<S>(gy, kept, Ok(dw)),
    ensures
        mul_parts::<S>(a, w, gy, Ok(seq![da, dw])),
{
    reveal(mul_parts);
    let r: Result<Seq<Model<S>>, Error> = Ok(seq![da, dw]);
    let rw: Outcome<S> = Ok(dw);
    let shape = gy.shape;
    assert(joined(shape, shape) =~= shape);
    assert(joined(shape, seq![n]) =~= shape);
    let o = choose|o: Outcome<S>| #[trigger]
        gain_out::<S>(gy, kept, o) && passes(o, rw, gain_slope_sum::<S>(o->Ok_0, rw));
    let pb = o->Ok_0;
    let mid = law_axes_in_turn::<S>(ring, pb, b, s, n, dw);
    let target = seq![n];
    assert(dw.shape == target);
    assert(peeled_out::<S>(dw, 0, rw));
    assert(peeled_out::<S>(mid, 1, rw));
    assert(peeled_out::<S>(pb, 2, rw));
    assert(extra_rank(pb.shape, target) == 2);
    reveal_with_fuel(stretched_axes, 2);
    assert(stretched_axes(target, target, 1) =~= Seq::<isize>::empty());
    assert(folded_out::<S>(dw, target, rw));
    assert(pb.shape.len() != target.len());
    assert(unbroadcast_out::<S>(pb, w.shape, rw));
    assert(mul_second::<S>(w, da, pb, r));
    assert(mul_out::<S>(gy, a, Ok(pb)));
    assert(mul_other::<S>(a, w, gy, da, r));
    assert(unbroadcast_out::<S>(da, a.shape, Ok(da)));
    assert(mul_first::<S>(a, w, gy, da, r));
    assert(mul_out::<S>(gy, w, Ok(da)));
}

/// The piece of an elementwise operation.
pub(crate) proof fn lemma_local_piece<S: Scalars>(gx: Model<S>, gy: Model<S>, part: Model<S>)
    requires
        gain_out::<S>(gy, gx, Ok(part)),
    ensures
        local_parts::<S>(gx, gy, Ok(seq![part])),
{
    reveal(local_parts);
    assert(mul_out::<S>(gy, gx, Ok(part)));
}

/// The slope that SiLU records is the slope that the block computes.
pub(crate) proof fn lemma_silu_slopes<S: Scalars>(
    ring: Ring<S::F>,
    x: Model<S>,
    gx: Model<S>,
    kept: Model<S>,
    sl: Model<S>,
)
    requires
        ring.computes::<S>(),
        one_sigmoid::<S::F, S>(),
        alike::<S>(x, kept),
        silu_local_out::<S>(x, Ok(gx)),
        mapped_out::<S>(kept, silu_slope_rel::<S::F, S>(), Ok(sl)),
    ensures
        gx == sl,
{
    let r: Outcome<S> = Ok(gx);
    let so = choose|o: Outcome<S>| #[trigger]
        sigmoid_out::<S>(x.detached(), o) && passes(o, r, silu_local_ones::<S>(x, o->Ok_0, r));
    let s = so->Ok_0;
    let oo = choose|o: Outcome<S>| #[trigger]
        ones_out::<S>(x.shape, x.dtype(), o) && passes(
            o,
            r,
            silu_local_rest::<S>(x, s, o->Ok_0, r),
        );
    let ones = oo->Ok_0;
    let ro = choose|o: Outcome<S>| #[trigger]
        sub_out::<S>(ones, s, o) && passes(o, r, silu_local_bell::<S>(x, s, o->Ok_0, r));
    let rest = ro->Ok_0;
    let bo = choose|o: Outcome<S>| #[trigger]
        mul_out::<S>(s, rest, o) && passes(o, r, silu_local_tail::<S>(x, s, o->Ok_0, r));
    let bell = bo->Ok_0;
    let to = choose|o: Outcome<S>| #[trigger]
        mul_out::<S>(x.detached(), bell, o) && passes(o, r, silu_local_sum::<S>(s, o->Ok_0, r));
    let tail = to->Ok_0;
    let shape = x.shape;
    let less = subtracting::<S::F, S>();
    let less64 = subtracting::<S::D, S>();
    let times = multiplying::<S::F, S>();
    let times64 = multiplying::<S::D, S>();
    let plus = adding::<S::F, S>();
    let plus64 = adding::<S::D, S>();
    lemma_zip_same::<S>(ones, s, less, less64, rest);
    lemma_zip_same::<S>(s, rest, times, times64, bell);
    lemma_zip_same::<S>(x.detached(), bell, times, times64, tail);
    lemma_zip_same::<S>(s, tail, plus, plus64, gx);
    assert(x.detached().f32s() == x.f32s());
    let xs = x.f32s();
    assert forall|i: int| 0 <= i < volume(shape) implies gx.data->F32_0[i] == sl.data->F32_0[i] by {
        assert(sigmoid_rel::<S::F, S>()(xs[i], s.data->F32_0[i]));
        assert(s.f32s()[i] == s.data->F32_0[i]);
        let v = s.f32s()[i];
        assert(sigmoid_of::<S::F, S>(xs[i], v));
        assert(ones.f32s()[i] == ring.one) by {
            assert(ones.data->F32_0[i] == ring.one);
        }
        assert(less(ones.f32s()[i], v, rest.f32s()[i]));
        assert(is_difference::<S::F, S>(ones.f32s()[i], v, rest.f32s()[i]));
        assert(times(v, rest.f32s()[i], bell.f32s()[i]));
        assert(is_product::<S::F, S>(v, rest.f32s()[i], bell.f32s()[i]));
        assert(times(xs[i], bell.f32s()[i], tail.f32s()[i]));
        assert(is_product::<S::F, S>(xs[i], bell.f32s()[i], tail.f32s()[i]));
        assert(plus(v, tail.f32s()[i], gx.f32s()[i]));
        assert(is_sum::<S::F, S>(v, tail.f32s()[i], gx.f32s()[i]));
        assert(silu_slope_rel::<S::F, S>()(xs[i], sl.data->F32_0[i]));
        assert(silu_slope_of::<S::F, S>(xs[i], sl.data->F32_0[i]));
        let w = choose|w: SiluSlopeSteps<S::F>| #[trigger]
            silu_slope_steps::<S::F, S>(xs[i], w, sl.data->F32_0[i]);
        assert(w.sigmoid == v);
        law_slope_forms(ring, v, xs[i]);
    }
    assert(gx.data->F32_0 =~= sl.data->F32_0);
    lemma_plain_equal::<S>(gx, sl, shape);
}

/// The slope that the sigmoid records is the slope that the block computes.
pub(crate) proof fn lemma_gate_slopes<S: Scalars>(
    ring: Ring<S::F>,
    y: Model<S>,
    gx: Model<S>,
    kept: Model<S>,
    low: Model<S>,
    p: Model<S>,
)
    requires
        ring.computes::<S>(),
        alike::<S>(y, kept),
        sigmoid_local_out::<S>(y, Ok(gx)),
        mapped_out::<S>(kept, rest_rel::<S::F, S>(), Ok(low)),
        gain_out::<S>(kept, low, Ok(p)),
    ensures
        gx == p,
{
    let r: Outcome<S> = Ok(gx);
    let oo = choose|o: Outcome<S>| #[trigger]
        ones_out::<S>(y.shape, y.dtype(), o) && passes(
            o,
            r,
            sigmoid_local_rest::<S>(y, o->Ok_0, r),
        );
    let ones = oo->Ok_0;
    let ro = choose|o: Outcome<S>| #[trigger]
        sub_out::<S>(ones, y.detached(), o) && passes(
            o,
            r,
            sigmoid_local_product::<S>(y, o->Ok_0, r),
        );
    let rest = ro->Ok_0;
    let less = subtracting::<S::F, S>();
    let less64 = subtracting::<S::D, S>();
    let times = multiplying::<S::F, S>();
    let times64 = multiplying::<S::D, S>();
    lemma_zip_same::<S>(ones, y.detached(), less, less64, rest);
    lemma_zip_same::<S>(y.detached(), rest, times, times64, gx);
    lemma_zip_same::<S>(kept, low, times, times64, p);
    assert(y.detached().f32s() == y.f32s());
    let ys = y.f32s();
    assert forall|i: int| 0 <= i < volume(y.shape) implies gx.data->F32_0[i]
        == p.data->F32_0[i] by {
        assert(ones.f32s()[i] == ring.one) by {
            assert(ones.data->F32_0[i] == ring.one);
        }
        assert(less(ones.f32s()[i], ys[i], rest.f32s()[i]));
        assert(is_difference::<S::F, S>(ones.f32s()[i], ys[i], rest.f32s()[i]));
        assert(times(ys[i], rest.f32s()[i], gx.f32s()[i]));
        assert(is_product::<S::F, S>(ys[i], rest.f32s()[i], gx.f32s()[i]));
        assert(rest_rel::<S::F, S>()(ys[i], low.data->F32_0[i]));
        assert(rest_of::<S::F, S>(ys[i], low.data->F32_0[i]));
        assert(low.f32s()[i] == low.data->F32_0[i]);
        assert(times(ys[i], low.f32s()[i], p.f32s()[i]));
        assert(is_product::<S::F, S>(ys[i], low.f32s()[i], p.f32s()[i]));
    }
    assert(gx.data->F32_0 =~= p.data->F32_0);
    lemma_plain_equal::<S>(gx, p, y.shape);
}

} // verus!
