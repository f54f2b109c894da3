//! The gradient of a concatenation: each part gets the stretch of the cotangent where it stands.
use vstd::prelude::*;
use crate::ad_axes::{any_in_graph, cat_tracked, joint_axis};
use crate::error::Error;
use crate::guarded::cut_out;
use crate::index::in_bounds;
use crate::joining::{cat_out, joins, lemma_total_prefix, sizes, total};
use crate::nodes::{tracked_out, Node, RuleModel};
use crate::norm_law::alike;
use crate::routes::{band, cat_parts};
use crate::scalar::Scalars;
use crate::shape::axis_at;
use crate::tape::Backward;
use crate::tensor::{passes, Model, Outcome};
use crate::turn_law::shows;
use crate::views::{
    law_slice_reads, range_at, slice_len, slice_start, slice_starts, slice_step, sliced,
};

verus! {

/// The piece shows at a position what the cotangent shows `start` places further along the axis.
spec fn stands_at<S: Scalars>(
    piece: Model<S>,
    gy: Model<S>,
    ax: int,
    start: int,
    size: usize,
) -> bool {
    &&& piece.shape == gy.shape.update(ax, size)
    &&& forall|idx: Seq<int>| #[trigger]
        in_bounds(piece.shape, idx) ==> shows(piece, idx, gy, idx.update(ax, idx[ax] + start))
}

/// A cut of `size` places from `start` on.
proof fn lemma_cut<S: Scalars>(gy: Model<S>, ax: int, start: int, size: usize, t: Model<S>)
    requires
        gy.valid(),
        0 <= ax < gy.shape.len(),
        0 <= start,
        start + size <= gy.shape[ax],
        start + size <= isize::MAX,
        cut_out::<S>("cat"@, gy, band(gy.shape.len(), ax, start, start + size), Ok(t)),
    ensures
        stands_at::<S>(t, gy, ax, start, size),
{
    let ranges = band(gy.shape.len(), ax, start, start + size);
    let n = gy.shape.len();
    let w = sliced(gy, ranges);
    assert forall|k: int| 0 <= k < n implies #[trigger] t.shape[k] == gy.shape.update(ax, size)[k]
        by {
        let rg = range_at(ranges, k);
        assert(rg == ranges[k]);
        assert(slice_step(rg) == 1);
        assert(slice_start(gy.shape[k] as int, rg) == if k == ax {
            start
        } else {
            0
        });
        let len = slice_len(gy.shape[k] as int, rg);
        assert(len == gy.shape.update(ax, size)[k]);
    }
    assert(t.shape =~= gy.shape.update(ax, size));
    assert forall|idx: Seq<int>| #[trigger] in_bounds(t.shape, idx) implies shows(
        t,
        idx,
        gy,
        idx.update(ax, idx[ax] + start),
    ) by {
        assert(in_bounds(w.shape, idx));
        law_slice_reads(gy, ranges, idx);
        let starts = slice_starts(gy.shape, ranges);
        let whole = Seq::new(n, |k: int| starts[k] + idx[k] * slice_step(range_at(ranges, k)));
        assert(whole =~= idx.update(ax, idx[ax] + start)) by {
            assert forall|k: int| 0 <= k < n implies whole[k] == idx.update(
                ax,
                idx[ax] + start,
            )[k] by {
                let rg = range_at(ranges, k);
                assert(rg == ranges[k]);
                assert(slice_step(rg) == 1);
                assert(starts[k] == slice_start(gy.shape[k] as int, rg));
            }
        }
        assert(t.slot(idx) == w.slot(idx));
    }
}

/// The pieces from the `i`-th on.
proof fn lemma_cuts<S: Scalars>(
    gy: Model<S>,
    axis: usize,
    dims: Seq<usize>,
    i: int,
    done: Seq<Model<S>>,
    parts: Seq<Model<S>>,
)
    requires
        gy.valid(),
        axis < gy.shape.len(),
        total(dims) == gy.shape[axis as int],
        0 <= i <= dims.len(),
        done.len() == i,
        forall|k: int|
            0 <= k < i ==> stands_at::<S>(
                #[trigger] done[k],
                gy,
                axis as int,
                total(dims.take(k)),
                dims[k],
            ),
        cat_parts::<S>(gy, axis, dims, i, total(dims.take(i)), done, Ok(parts)),
    ensures
        parts.len() == dims.len(),
        forall|k: int|
            0 <= k < parts.len() ==> stands_at::<S>(
                #[trigger] parts[k],
                gy,
                axis as int,
                total(dims.take(k)),
                dims[k],
            ),
    decreases dims.len() - i,
{
    if i < dims.len() {
        let start = total(dims.take(i));
        let rp: Result<Seq<Model<S>>, Error> = Ok(parts);
        let o = choose|o: Outcome<S>| #[trigger]
            cut_out::<S>(
                "cat"@,
                gy,
                band(gy.shape.len(), axis as int, start, start + dims[i]),
                o,
            ) && passes(
                o,
                rp,
                cat_parts::<S>(gy, axis, dims, i + 1, start + dims[i], done.push(o->Ok_0), rp),
            );
        let next = dims.take(i + 1);
        assert(next.drop_last() =~= dims.take(i));
        assert(total(next) == start + dims[i]);
        lemma_total_prefix(dims, i);
        lemma_total_prefix(dims, i + 1);
        lemma_cut::<S>(gy, axis as int, start, dims[i], o->Ok_0);
        lemma_cuts::<S>(gy, axis, dims, i + 1, done.push(o->Ok_0), parts);
    }
}

/// The gradient of a concatenation: part `p` gets, at each position, the cotangent at the position
/// that lies further along the axis by the sizes of the parts before it.
pub proof fn law_cat_gradient<S: Scalars>(
    before: Seq<Node<S>>,
    after: Seq<Node<S>>,
    ms: Seq<Model<S>>,
    axis: isize,
    y: Model<S>,
    gy: Model<S>,
    parts: Seq<Model<S>>,
    ax: int,
    p: int,
    idx: Seq<int>,
)
    requires
        any_in_graph::<S>(ms),
        gy.valid(),
        gy.shape == y.shape,
        total(sizes(ms, ax)) <= usize::MAX,
        0 <= p < ms.len(),
        ax == axis || ax == axis + ms[0].shape.len(),
        0 <= ax < ms[0].shape.len() <= isize::MAX,
        cat_tracked::<S>(before, after, ms, axis, Ok(y)),
        after.len() > 0,
        after.last().vjp(gy, Ok(parts)),
        in_bounds(ms[p].shape, idx),
    ensures
        after.len() == before.len() + 1,
        after.last().sources() == ms,
        parts.len() == ms.len(),
        parts[p].shape == ms[p].shape,
        shows(parts[p], idx, gy, idx.update(ax, idx[ax] + total(sizes(ms, ax).take(p)))),
{
    let res: Outcome<S> = Ok(y);
    assert(axis_at(axis as int, ms[0].shape.len() as int) == ax);
    let at = joint_axis::<S>(ms, axis as int) as usize;
    let dims = sizes(ms, ax);
    let v = choose|v: Outcome<S>| #[trigger]
        cat_out::<S>(ms, axis as int, v) && tracked_out::<S>(
            before,
            after,
            any_in_graph::<S>(ms),
            v,
            ms,
            RuleModel::Cat { axis: at, sizes: sizes(ms, joint_axis::<S>(ms, axis as int)) },
            res,
        );
    assert(alike::<S>(y, v->Ok_0));
    lemma_total_prefix(dims, 0);
    assert(dims.take(0) =~= Seq::<usize>::empty());
    lemma_cuts::<S>(gy, at, dims, 0, Seq::empty(), parts);
    assert(joins(ms, ax, p));
    assert(gy.shape.update(ax, dims[p]) =~= ms[p].shape);
    assert(stands_at::<S>(parts[p], gy, ax, total(dims.take(p)), dims[p]));
}

} // verus!
