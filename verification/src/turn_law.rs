//! The operations that only rearrange elements, and their gradients: where the value shows an
//! element of the argument, the piece shows at that element what the cotangent holds there.
use vstd::prelude::*;
use crate::ad::{reshape_tracked, transpose_tracked, unsqueeze_tracked};
use crate::error::Error;
use crate::index::{in_bounds, lemma_distinct_axes_cover, lemma_spread, spread};
use crate::laws::askable;
use crate::nodes::{tracked_out, Node, RuleModel};
use crate::norm_law::alike;
use crate::rules::{reshape_parts, signed, transpose_parts, unsqueeze_parts};
use crate::scalar::Scalars;
use crate::shape::{axis_at, reshaped};
use crate::tape::Backward;
use crate::tensor::{gives, passes, Model, Outcome, TensorModel};
use crate::views::{
    law_axes_read, law_unsqueeze_reads, other_axes, reshape_out, squeeze_out, swapped_axes,
    transpose_out, unsqueeze_out, unsqueezed, with_axes,
};

verus! {

/// `a` shows at `at` the element that `b` shows at `there`.
pub open spec fn shows<F, D>(
    a: TensorModel<F, D>,
    at: Seq<int>,
    b: TensorModel<F, D>,
    there: Seq<int>,
) -> bool {
    &&& in_bounds(a.shape, at)
    &&& in_bounds(b.shape, there)
    &&& a.data == b.data
    &&& a.slot(at) == b.slot(there)
}

/// A position with its last two coordinates exchanged.
pub open spec fn turned(idx: Seq<int>) -> Seq<int> {
    idx.update(idx.len() - 1, idx[idx.len() - 2]).update(idx.len() - 2, idx[idx.len() - 1])
}

/// A position with a zero put in at `axis`, which counts from the end where it is negative.
pub open spec fn widened_at(idx: Seq<int>, axis: isize) -> Seq<int> {
    if axis < 0 {
        idx.insert(idx.len() + 1 + axis, 0)
    } else {
        idx.insert(axis as int, 0)
    }
}

/// What a transpose shows.
proof fn lemma_turns<S: Scalars>(m: Model<S>, t: Model<S>, idx: Seq<int>)
    requires
        m.valid(),
        transpose_out::<S>(m, Ok(t)),
        in_bounds(m.shape, idx),
    ensures
        t.shape.len() == m.shape.len(),
        idx.len() == m.shape.len(),
        shows(t, turned(idx), m, idx),
{
    let n = m.shape.len();
    let axes = swapped_axes(n);
    let w = with_axes(m, axes);
    let to = turned(idx);
    assert(t.shape == w.shape && t.strides == w.strides && t.offset == w.offset);
    assert(in_bounds(w.shape, to));
    lemma_distinct_axes_cover(axes, n);
    law_axes_read(m, axes, to);
    lemma_spread(to, axes, n);
    let whole = spread(to, axes, n);
    assert(whole =~= idx) by {
        assert forall|q: int| 0 <= q < n implies whole[q] == idx[q] by {
            assert(whole[axes[q]] == to[q]);
            assert(axes[axes[q]] == q);
            assert(whole[axes[axes[q]]] == to[axes[q]]);
        }
    }
    assert(t.slot(to) == w.slot(to));
}

/// A transpose shows each element with its last two coordinates exchanged, and the piece of an
/// element is the cotangent at the place where the transpose shows it.
pub proof fn law_transpose_gradient<S: Scalars>(
    before: Seq<Node<S>>,
    after: Seq<Node<S>>,
    x: Model<S>,
    y: Model<S>,
    gy: Model<S>,
    parts: Seq<Model<S>>,
    idx: Seq<int>,
)
    requires
        x.valid(),
        x.in_graph,
        gy.valid(),
        gy.shape == y.shape,
        transpose_tracked::<S>(before, after, x, Ok(y)),
        after.len() > 0,
        after.last().vjp(gy, Ok(parts)),
        in_bounds(x.shape, idx),
    ensures
        after.len() == before.len() + 1,
        after.last().sources() == seq![x],
        parts.len() == 1,
        parts[0].shape == x.shape,
        idx.len() >= 2,
        shows(y, turned(idx), x, idx),
        shows(parts[0], idx, gy, turned(idx)),
{
    let res: Outcome<S> = Ok(y);
    let rp: Result<Seq<Model<S>>, Error> = Ok(parts);
    let v = choose|v: Outcome<S>| #[trigger]
        transpose_out::<S>(x, v) && tracked_out::<S>(
            before,
            after,
            x.in_graph,
            v,
            seq![x],
            RuleModel::Transpose,
            res,
        );
    assert(alike::<S>(y, v->Ok_0));
    lemma_turns::<S>(x, v->Ok_0, idx);
    reveal(transpose_parts);
    let o = choose|o: Outcome<S>| #[trigger]
        transpose_out::<S>(gy, o) && passes(o, rp, gives(rp, seq![o->Ok_0]));
    let to = turned(idx);
    assert(in_bounds(gy.shape, to));
    lemma_turns::<S>(gy, o->Ok_0, to);
    assert(turned(to) =~= idx);
    assert(parts == seq![o->Ok_0]);
    assert(parts[0].shape =~= x.shape);
}

/// An axis of size one put in at `axis` leaves each element where it was, with a zero on the new
/// axis, and the piece of an element is the cotangent at that place.
pub proof fn law_unsqueeze_gradient<S: Scalars>(
    before: Seq<Node<S>>,
    after: Seq<Node<S>>,
    x: Model<S>,
    axis: isize,
    y: Model<S>,
    gy: Model<S>,
    parts: Seq<Model<S>>,
    idx: Seq<int>,
)
    requires
        x.valid(),
        x.in_graph,
        gy.valid(),
        gy.shape == y.shape,
        unsqueeze_tracked::<S>(before, after, x, axis, Ok(y)),
        after.len() > 0,
        after.last().vjp(gy, Ok(parts)),
        in_bounds(x.shape, idx),
    ensures
        after.len() == before.len() + 1,
        after.last().sources() == seq![x],
        parts.len() == 1,
        parts[0].shape == x.shape,
        shows(y, widened_at(idx, axis), x, idx),
        shows(parts[0], idx, gy, widened_at(idx, axis)),
{
    let res: Outcome<S> = Ok(y);
    let rp: Result<Seq<Model<S>>, Error> = Ok(parts);
    let v = choose|v: Outcome<S>| #[trigger]
        unsqueeze_out::<S>(x, axis as int, v) && tracked_out::<S>(
            before,
            after,
            x.in_graph,
            v,
            seq![x],
            RuleModel::Unsqueeze { at: axis },
            res,
        );
    assert(alike::<S>(y, v->Ok_0));
    let n = x.shape.len();
    let ax = axis_at(axis as int, n as int + 1);
    let to = idx.insert(ax, 0);
    let u = unsqueezed(x, ax);
    assert forall|q: int| 0 <= q < n + 1 implies 0 <= #[trigger] to[q] < u.shape[q] by {
        if q < ax {
            assert(0 <= idx[q] < x.shape[q]);
        } else if q > ax {
            assert(0 <= idx[q - 1] < x.shape[q - 1]);
        }
    }
    assert(in_bounds(u.shape, to));
    assert(to == widened_at(idx, axis));
    law_unsqueeze_reads(x, ax, to);
    assert(to.remove(ax) =~= idx);
    assert(y.slot(to) == u.slot(to));
    reveal(unsqueeze_parts);
    let o = choose|o: Outcome<S>| #[trigger]
        squeeze_out::<S>(gy, Some(axis), o) && passes(o, rp, gives(rp, seq![o->Ok_0]));
    assert(parts == seq![o->Ok_0]);
    let axes = other_axes(n + 1, ax);
    assert(parts[0] == with_axes(gy, axes));
    assert(parts[0].shape =~= x.shape);
    assert forall|q: int|
        0 <= q < gy.shape.len() && !axes.contains(q) implies #[trigger] gy.shape[q] == 1 by {
        if q < ax {
            assert(axes[q] == q);
        } else if q > ax {
            assert(axes[q - 1] == q);
        }
    }
    law_axes_read(gy, axes, idx);
    lemma_spread(idx, axes, n + 1);
    let whole = spread(idx, axes, n + 1);
    assert(whole =~= to) by {
        assert forall|q: int| 0 <= q < n + 1 implies whole[q] == to[q] by {
            if q < ax {
                assert(whole[axes[q]] == idx[q]);
            } else if q > ax {
                assert(whole[axes[q - 1]] == idx[q - 1]);
            } else {
                assert(!axes.contains(q));
            }
        }
    }
}

/// A reshape keeps the elements in their order, and so does the piece, which has the shape of the
/// argument.
pub proof fn law_reshape_gradient<S: Scalars>(
    before: Seq<Node<S>>,
    after: Seq<Node<S>>,
    x: Model<S>,
    shape: Seq<isize>,
    y: Model<S>,
    gy: Model<S>,
    parts: Seq<Model<S>>,
)
    requires
        x.in_graph,
        askable(x.shape),
        reshape_tracked::<S>(before, after, x, shape, Ok(y)),
        after.len() > 0,
        after.last().vjp(gy, Ok(parts)),
    ensures
        after.len() == before.len() + 1,
        after.last().sources() == seq![x],
        y.elems() == x.elems(),
        parts.len() == 1,
        parts[0].shape == x.shape,
        parts[0].elems() == gy.elems(),
{
    let res: Outcome<S> = Ok(y);
    let rp: Result<Seq<Model<S>>, Error> = Ok(parts);
    let v = choose|v: Outcome<S>| #[trigger]
        reshape_out::<S>(x, shape, v) && tracked_out::<S>(
            before,
            after,
            x.in_graph,
            v,
            seq![x],
            RuleModel::Reshape { former: signed(x.shape) },
            res,
        );
    assert(alike::<S>(y, v->Ok_0));
    assert(y.elems() == v->Ok_0.elems());
    reveal(reshape_parts);
    let o = choose|o: Outcome<S>| #[trigger]
        reshape_out::<S>(gy, signed(x.shape), o) && passes(o, rp, gives(rp, seq![o->Ok_0]));
    assert(parts == seq![o->Ok_0]);
    let asked = reshaped(gy.shape, signed(x.shape));
    assert forall|i: int| 0 <= i < x.shape.len() implies asked[i] == x.shape[i] by {
        assert(x.shape[i] <= isize::MAX);
    }
    assert(asked =~= x.shape);
}

} // verus!
