//! Tracked operations that join, cut and reduce along an axis.
use vstd::prelude::*;
use crate::ad::{goes_on, unsqueeze, unsqueeze_tracked};
use crate::dtype::Dtype;
use crate::error::{Error, ErrorKind};
use crate::joining::{borrowed, cat_out, cat_ready, cat_sized, joins, models, sizes};
use crate::nodes::{attach, kept, tracked_out, Graph, Node, Rule, RuleModel};
use crate::reduce::amax_out;
use crate::rules::one_part;
use crate::scalar::Scalars;
use crate::shape::{axis_at, axis_ok, normalize_axis};
use crate::tape::{views, within};
use crate::tensor::{copied, outcome, Model, Outcome, Tensor};
use crate::views::{slice_fits, slice_out, Range3};

verus! {

/// What `amax` comes to.
pub open spec fn amax_tracked<S: Scalars>(
    before: Seq<Node<S>>,
    after: Seq<Node<S>>,
    x: Model<S>,
    axis: isize,
    keepdims: bool,
    r: Outcome<S>,
) -> bool {
    exists|y: Outcome<S>| #[trigger]
        amax_out::<S>(x, axis, keepdims, y) && tracked_out::<S>(
            before,
            after,
            x.in_graph,
            y,
            seq![x],
            RuleModel::Amax {
                x: x.detached(),
                axis: axis_at(axis as int, x.shape.len() as int) as usize,
                keep: keepdims,
            },
            r,
        )
}

/// Tracked max reduction over `axis` (ties route to the first max).
pub fn amax<S: Scalars>(
    graph: &mut Graph<S>,
    x: &Tensor<S>,
    axis: isize,
    keepdims: bool,
) -> (r: Result<Tensor<S>, Error>)
    requires
        old(graph).wf(),
        old(graph).owns(x@),
    ensures
        kept::<S>(*old(graph), *final(graph), outcome(r)),
        amax_tracked::<S>(
            old(graph).nodes(),
            final(graph).nodes(),
            x@,
            axis,
            keepdims,
            outcome(r),
        ),
{
    let y: Tensor<S> = match crate::reduce::amax(x, axis, keepdims) {
        Ok(t) => t,
        Err(e) => {
            return Err(e);
        },
    };
    if !x.requires_grad() {
        return Ok(y);
    }
    let ax: usize = match normalize_axis(axis, x.rank(), "amax") {
        Ok(a) => a,
        Err(e) => {
            return Err(e);
        },
    };
    let parents: Vec<Tensor<S>> = one_part(x.clone());
    let rule: Rule<S> = Rule::Amax { x: x.detach(), axis: ax, keep: keepdims };
    Ok(attach(graph, y, parents, rule))
}

/// What `slice_tracked` comes to.
pub open spec fn slice_recorded<S: Scalars>(
    before: Seq<Node<S>>,
    after: Seq<Node<S>>,
    x: Model<S>,
    ranges: Seq<Range3>,
    r: Outcome<S>,
) -> bool {
    if x.dtype() != Dtype::F32 {
        after == before && r is Err && r->Err_0.says(
            ErrorKind::Dtype,
            "slice_tracked"@,
            "f32 only"@,
        )
    } else {
        exists|y: Outcome<S>| #[trigger]
            slice_out::<S>(x, ranges, y) && tracked_out::<S>(
                before,
                after,
                x.in_graph,
                y,
                seq![x],
                RuleModel::Slice { shape: x.shape, ranges },
                r,
            )
    }
}

/// Slice that takes part in differentiation (a raw [`Tensor::slice`] is a detached view), of 32-bit
/// data.
pub fn slice_tracked<S: Scalars>(
    graph: &mut Graph<S>,
    x: &Tensor<S>,
    ranges: &[Range3],
) -> (r: Result<Tensor<S>, Error>)
    requires
        old(graph).wf(),
        old(graph).owns(x@),
        x@.dtype() == Dtype::F32 && ranges@.len() <= x@.shape.len() ==> slice_fits(x@, ranges@),
    ensures
        kept::<S>(*old(graph), *final(graph), outcome(r)),
        slice_recorded::<S>(
            old(graph).nodes(),
            final(graph).nodes(),
            x@,
            ranges@,
            outcome(r),
        ),
{
    if x.dtype() != Dtype::F32 {
        return Err(Error::dtype("slice_tracked", "f32 only".to_owned()));
    }
    let y: Tensor<S> = match x.slice(ranges) {
        Ok(t) => t,
        Err(e) => {
            return Err(e);
        },
    };
    if !x.requires_grad() {
        return Ok(y);
    }
    let parents: Vec<Tensor<S>> = one_part(x.clone());
    let rule: Rule<S> = Rule::Slice { shape: copied(x.shape()), ranges: copied(ranges) };
    Ok(attach(graph, y, parents, rule))
}

/// One of the tensors is in the graph.
pub open spec fn any_in_graph<S: Scalars>(ms: Seq<Model<S>>) -> bool {
    exists|i: int| 0 <= i < ms.len() && (#[trigger] ms[i]).in_graph
}

/// Whether one of the tensors is in the graph.
pub fn any_grad<S: Scalars>(xs: &[&Tensor<S>]) -> (r: bool)
    ensures
        r == any_in_graph::<S>(models(xs@)),
{
    let mut i: usize = 0;
    while i < xs.len()
        invariant
            i <= xs@.len(),
            forall|j: int| 0 <= j < i ==> !(#[trigger] models(xs@)[j]).in_graph,
        decreases xs@.len() - i,
    {
        assert(models(xs@)[i as int] == xs@[i as int]@);
        if xs[i].requires_grad() {
            return true;
        }
        i = i + 1;
    }
    false
}

/// The tensors of a list.
fn cloned_all<S: Scalars>(xs: &[&Tensor<S>]) -> (r: Vec<Tensor<S>>)
    ensures
        views(r@) == models(xs@),
{
    let mut v: Vec<Tensor<S>> = Vec::new();
    let mut i: usize = 0;
    while i < xs.len()
        invariant
            i <= xs@.len(),
            v@.len() == i,
            forall|j: int| 0 <= j < i ==> (#[trigger] v@[j])@ == xs@[j]@,
        decreases xs@.len() - i,
    {
        v.push(xs[i].clone());
        i = i + 1;
    }
    assert(views(v@) =~= models(xs@));
    v
}

/// The sizes along an axis.
fn sizes_of<S: Scalars>(xs: &[&Tensor<S>], ax: usize) -> (r: Vec<usize>)
    requires
        forall|j: int| 0 <= j < xs@.len() ==> ax < (#[trigger] xs@[j])@.shape.len(),
    ensures
        r@ == sizes(models(xs@), ax as int),
{
    let mut v: Vec<usize> = Vec::new();
    let mut i: usize = 0;
    while i < xs.len()
        invariant
            i <= xs@.len(),
            forall|j: int| 0 <= j < xs@.len() ==> ax < (#[trigger] xs@[j])@.shape.len(),
            v@.len() == i,
            forall|j: int| 0 <= j < i ==> #[trigger] v@[j] == xs@[j]@.shape[ax as int],
        decreases xs@.len() - i,
    {
        let s: &[usize] = xs[i].shape();
        assert(ax < xs@[i as int]@.shape.len());
        v.push(s[ax]);
        i = i + 1;
    }
    assert(v@ =~= sizes(models(xs@), ax as int));
    v
}

/// The axis of a concatenation.
pub open spec fn joint_axis<S: Scalars>(ms: Seq<Model<S>>, axis: int) -> int {
    axis_at(axis, ms[0].shape.len() as int)
}

/// What `cat` comes to.
pub open spec fn cat_tracked<S: Scalars>(
    before: Seq<Node<S>>,
    after: Seq<Node<S>>,
    ms: Seq<Model<S>>,
    axis: isize,
    r: Outcome<S>,
) -> bool {
    exists|y: Outcome<S>| #[trigger]
        cat_out::<S>(ms, axis as int, y) && tracked_out::<S>(
            before,
            after,
            any_in_graph::<S>(ms),
            y,
            ms,
            RuleModel::Cat {
                axis: joint_axis::<S>(ms, axis as int) as usize,
                sizes: sizes(ms, joint_axis::<S>(ms, axis as int)),
            },
            r,
        )
}

/// Tracked concatenation along `axis`.
pub fn cat<S: Scalars>(graph: &mut Graph<S>, tensors: &[&Tensor<S>], axis: isize) -> (r: Result<
    Tensor<S>,
    Error,
>)
    requires
        old(graph).wf(),
        old(graph).owns_all(models(tensors@)),
        cat_sized(models(tensors@), axis as int),
    ensures
        kept::<S>(*old(graph), *final(graph), outcome(r)),
        cat_tracked::<S>(
            old(graph).nodes(),
            final(graph).nodes(),
            models(tensors@),
            axis,
            outcome(r),
        ),
{
    let ghost ms = models(tensors@);
    let y: Tensor<S> = match crate::joining::cat(tensors, axis) {
        Ok(t) => t,
        Err(e) => {
            return Err(e);
        },
    };
    if !any_grad(tensors) {
        return Ok(y);
    }
    assert(ms[0] == tensors@[0]@);
    let ax: usize = match normalize_axis(axis, tensors[0].rank(), "cat") {
        Ok(a) => a,
        Err(e) => {
            return Err(e);
        },
    };
    proof {
        assert forall|j: int| 0 <= j < tensors@.len() implies ax < (
        #[trigger] tensors@[j])@.shape.len() by {
            assert(joins(ms, ax as int, j));
            assert(ms[j] == tensors@[j]@);
        }
    }
    let sizes: Vec<usize> = sizes_of(tensors, ax);
    let parents: Vec<Tensor<S>> = cloned_all(tensors);
    Ok(attach(graph, y, parents, Rule::Cat { axis: ax, sizes }))
}

/// What a stack comes to from its `i`-th tensor on: each in turn gets the new axis, and all are
/// concatenated.
pub open spec fn stack_from<S: Scalars>(
    before: Seq<Node<S>>,
    after: Seq<Node<S>>,
    ms: Seq<Model<S>>,
    i: int,
    axis: isize,
    done: Seq<Model<S>>,
    r: Outcome<S>,
) -> bool
    decreases ms.len() - i,
{
    if i >= ms.len() {
        cat_tracked::<S>(before, after, done, axis, r)
    } else {
        exists|mid: Seq<Node<S>>, o: Outcome<S>| #[trigger]
            unsqueeze_tracked::<S>(before, mid, ms[i], axis, o) && goes_on(
                o,
                mid,
                r,
                after,
                stack_from::<S>(mid, after, ms, i + 1, axis, done.push(o->Ok_0), r),
            )
    }
}

/// The tensor has size one along the axis.
pub open spec fn thin<S: Scalars>(m: Model<S>, axis: int) -> bool {
    let rank = m.shape.len() as int;
    axis_ok(axis, rank) && m.shape[axis_at(axis, rank)] == 1
}

fn stack_rest<S: Scalars>(
    graph: &mut Graph<S>,
    tensors: &[&Tensor<S>],
    i: usize,
    axis: isize,
    done: Vec<Tensor<S>>,
) -> (r: Result<Tensor<S>, Error>)
    requires
        old(graph).wf(),
        old(graph).owns_all(models(tensors@)),
        old(graph).owns_all(views(done@)),
        i <= tensors@.len(),
        done@.len() == i,
        forall|j: int| 0 <= j < i ==> thin::<S>((#[trigger] done@[j])@, axis as int),
    ensures
        kept::<S>(*old(graph), *final(graph), outcome(r)),
        stack_from::<S>(
            old(graph).nodes(),
            final(graph).nodes(),
            models(tensors@),
            i as int,
            axis,
            views(done@),
            outcome(r),
        ),
    decreases tensors@.len() - i,
{
    let ghost ms = models(tensors@);
    if i >= tensors.len() {
        let refs: Vec<&Tensor<S>> = borrowed(&done);
        proof {
            let ds = models(refs@);
            assert(ds =~= views(done@));
            if cat_ready(ds, axis as int) {
                let ax = axis_at(axis as int, ds[0].shape.len() as int);
                let dims = sizes(ds, ax);
                assert forall|j: int| 0 <= j < dims.len() implies #[trigger] dims[j] == 1 by {
                    assert(joins(ds, ax, j));
                    assert(thin::<S>(done@[j]@, axis as int));
                    assert(ds[j] == done@[j]@);
                }
                crate::joining::lemma_total_ones(dims);
            }
        }
        return cat(graph, refs.as_slice(), axis);
    }
    assert(ms[i as int] == tensors@[i as int]@);
    match unsqueeze(graph, tensors[i], axis) {
        Ok(t) => {
            let ghost m = t@;
            let ghost before = views(done@);
            proof {
                let rank = (ms[i as int].shape.len() + 1) as int;
                let ax = axis_at(axis as int, rank);
                assert(m.shape.len() == rank);
                assert(m.shape[ax] == 1);
                assert(thin::<S>(m, axis as int));
            }
            let mut more: Vec<Tensor<S>> = done;
            more.push(t);
            proof {
                assert(views(more@) =~= before.push(m));
                assert forall|k: int| 0 <= k < ms.len() implies within(
                    #[trigger] ms[k],
                    graph.nodes().len() as int,
                    graph.slots().len() as int,
                ) by {
                    assert(within(
                        ms[k],
                        old(graph).nodes().len() as int,
                        old(graph).slots().len() as int,
                    ));
                }
                assert forall|k: int| 0 <= k < views(more@).len() implies within(
                    #[trigger] views(more@)[k],
                    graph.nodes().len() as int,
                    graph.slots().len() as int,
                ) by {
                    if k < i {
                        assert(within(
                            before[k],
                            old(graph).nodes().len() as int,
                            old(graph).slots().len() as int,
                        ));
                    }
                }
            }
            stack_rest(graph, tensors, i + 1, axis, more)
        },
        Err(e) => Err(e),
    }
}

/// What `stack` comes to.
pub open spec fn stack_tracked<S: Scalars>(
    before: Seq<Node<S>>,
    after: Seq<Node<S>>,
    ms: Seq<Model<S>>,
    axis: isize,
    r: Outcome<S>,
) -> bool {
    stack_from::<S>(before, after, ms, 0, axis, Seq::empty(), r)
}

/// Tracked stack along a new axis.
pub fn stack<S: Scalars>(graph: &mut Graph<S>, tensors: &[&Tensor<S>], axis: isize) -> (r: Result<
    Tensor<S>,
    Error,
>)
    requires
        old(graph).wf(),
        old(graph).owns_all(models(tensors@)),
    ensures
        kept::<S>(*old(graph), *final(graph), outcome(r)),
        stack_tracked::<S>(
            old(graph).nodes(),
            final(graph).nodes(),
            models(tensors@),
            axis,
            outcome(r),
        ),
{
    let done: Vec<Tensor<S>> = Vec::new();
    assert(views(done@) =~= Seq::<Model<S>>::empty());
    stack_rest(graph, tensors, 0, axis, done)
}

} // verus!
