//! Reverse-mode differentiation over a recorded graph.
//!
//! A tape holds the nodes that tracked operations record and one gradient slot for each leaf. A
//! tensor names its node and its slot by number. The reverse pass walks the graph as a DAG: the
//! cotangents that reach a node are summed, and its rule runs once.
use vstd::prelude::*;
use crate::cpu::add_out;
use crate::dtype::Dtype;
use crate::error::{Error, ErrorKind};
use crate::index::fits;
use crate::joining::models;
use crate::loss::count_of;
use crate::scalar::Scalars;
use crate::tensor::{numel_error, ones_out, passes, zeros_out, Model, Outcome, Tensor, TensorModel};

verus! {

/// What the tensors of a list hold.
pub open spec fn views<S: Scalars>(ts: Seq<Tensor<S>>) -> Seq<Model<S>> {
    Seq::new(ts.len(), |i: int| ts[i]@)
}

/// A list of tensors, or an error.
pub open spec fn parts_outcome<S: Scalars>(r: Result<Vec<Tensor<S>>, Error>) -> Result<
    Seq<Model<S>>,
    Error,
> {
    match r {
        Ok(v) => Ok(views(v@)),
        Err(e) => Err(e),
    }
}

/// First-order node of the graph. Parents are the tensors that receive gradient pieces.
pub trait Backward<S: Scalars> {
    /// The operation's name.
    spec fn title(&self) -> Seq<char>;

    /// What the parents hold.
    spec fn sources(&self) -> Seq<Model<S>>;

    /// What `backward` comes to on cotangent `gy`.
    spec fn vjp(&self, gy: Model<S>, r: Result<Seq<Model<S>>, Error>) -> bool;

    /// Stable name of the operation.
    fn name(&self) -> (r: &'static str)
        ensures
            r@ == self.title(),
    ;

    /// Tensors that produced this node and receive gradient pieces.
    fn parents(&self) -> (r: &[Tensor<S>])
        ensures
            views(r@) == self.sources(),
    ;

    /// One gradient piece for each parent, for upstream cotangent `gy`.
    fn backward(&self, gy: &Tensor<S>) -> (r: Result<Vec<Tensor<S>>, Error>)
        ensures
            self.vjp(gy@, parts_outcome(r)),
    ;
}

/// Identity of a graph node: its recorded node, or its leaf slot.
#[derive(Clone, Copy, PartialEq, Eq, Structural)]
pub enum Key {
    Node(usize),
    Leaf(usize),
}

/// The identity of a tensor in the graph.
pub open spec fn key_of<F, D>(t: TensorModel<F, D>) -> Option<Key> {
    match t.grad_fn {
        Some(n) => Some(Key::Node(n)),
        None => match t.leaf {
            Some(l) => Some(Key::Leaf(l)),
            None => None,
        },
    }
}

/// Identity of a graph node: its node if it has one, else its leaf slot.
pub fn node_key<S: Scalars>(t: &Tensor<S>) -> (r: Option<Key>)
    ensures
        r == key_of(t@),
{
    match t.grad_fn() {
        Some(n) => Some(Key::Node(n)),
        None => match t.leaf() {
            Some(l) => Some(Key::Leaf(l)),
            None => None,
        },
    }
}

/// Which nodes and leaves have been met.
#[verifier::ext_equal]
pub ghost struct Seen {
    pub nodes: Seq<bool>,
    pub leaves: Seq<bool>,
}

impl Seen {
    /// `k` has been met.
    pub open spec fn has(self, k: Key) -> bool {
        match k {
            Key::Node(n) => self.nodes[n as int],
            Key::Leaf(l) => self.leaves[l as int],
        }
    }

    /// With `k` met.
    pub open spec fn with(self, k: Key) -> Seen {
        match k {
            Key::Node(n) => Seen { nodes: self.nodes.update(n as int, true), ..self },
            Key::Leaf(l) => Seen { leaves: self.leaves.update(l as int, true), ..self },
        }
    }
}

/// Nothing met yet.
pub open spec fn none_seen(nodes: nat, leaves: nat) -> Seen {
    Seen { nodes: Seq::new(nodes, |i: int| false), leaves: Seq::new(leaves, |i: int| false) }
}

/// The tensors met on a walk, in the order in which they are entered and in the order in which they
/// are left, and all that has been met after it.
pub ghost struct Walk<F, D> {
    pub pre: Seq<TensorModel<F, D>>,
    pub post: Seq<TensorModel<F, D>>,
    pub seen: Seen,
}

/// A bound on the nodes below a tensor.
pub open spec fn height<F, D>(t: TensorModel<F, D>) -> int {
    match t.grad_fn {
        Some(n) => n + 1,
        None => 0,
    }
}

/// Depth-first walk from `t`: what is met already is passed over; the parents are walked in order.
pub open spec fn visit<S: Scalars, B: Backward<S>>(
    nodes: Seq<B>,
    t: Model<S>,
    seen: Seen,
) -> Walk<S::F, S::D>
    decreases height(t), 0int, 0int,
{
    match key_of(t) {
        None => Walk { pre: Seq::empty(), post: Seq::empty(), seen },
        Some(k) => if seen.has(k) {
            Walk { pre: Seq::empty(), post: Seq::empty(), seen }
        } else {
            let w = match t.grad_fn {
                Some(n) => visit_all::<S, B>(
                    nodes,
                    nodes[n as int].sources(),
                    n as int,
                    seen.with(k),
                ),
                None => Walk { pre: Seq::empty(), post: Seq::empty(), seen: seen.with(k) },
            };
            Walk { pre: seq![t] + w.pre, post: w.post.push(t), seen: w.seen }
        },
    }
}

/// Depth-first walk from each of `ts` in turn. None of them lies above `bound`.
pub open spec fn visit_all<S: Scalars, B: Backward<S>>(
    nodes: Seq<B>,
    ts: Seq<Model<S>>,
    bound: int,
    seen: Seen,
) -> Walk<S::F, S::D>
    decreases bound, 1int, ts.len(),
{
    if ts.len() == 0 || height(ts[0]) > bound {
        Walk { pre: Seq::empty(), post: Seq::empty(), seen }
    } else {
        let a = visit::<S, B>(nodes, ts[0], seen);
        let b = visit_all::<S, B>(nodes, ts.skip(1), bound, a.seen);
        Walk { pre: a.pre + b.pre, post: a.post + b.post, seen: b.seen }
    }
}

/// A tensor belongs to a tape of so many nodes and slots.
pub open spec fn within<F, D>(t: TensorModel<F, D>, nodes: int, slots: int) -> bool {
    &&& t.grad_fn matches Some(n) ==> n < nodes
    &&& t.leaf matches Some(l) ==> l < slots
}

/// All tensors of a list belong to a tape.
pub open spec fn all_within<F, D>(ts: Seq<TensorModel<F, D>>, nodes: int, slots: int) -> bool {
    forall|i: int| 0 <= i < ts.len() ==> within(#[trigger] ts[i], nodes, slots)
}

/// Every node's parents were recorded before it.
pub open spec fn ordered<S: Scalars, B: Backward<S>>(nodes: Seq<B>, slots: int) -> bool {
    forall|n: int|
        0 <= n < nodes.len() ==> all_within((#[trigger] nodes[n]).sources(), n, slots)
}

/// What is left of a walk: the tensors still on the stack, the last one first. One that is marked
/// has been entered, and is left when its turn comes.
pub open spec fn drain<S: Scalars, B: Backward<S>>(
    nodes: Seq<B>,
    stack: Seq<(Model<S>, bool)>,
    seen: Seen,
) -> Walk<S::F, S::D>
    decreases stack.len(),
{
    if stack.len() == 0 {
        Walk { pre: Seq::empty(), post: Seq::empty(), seen }
    } else {
        let (t, entered) = stack.last();
        if entered {
            let b = drain::<S, B>(nodes, stack.drop_last(), seen);
            Walk { pre: b.pre, post: seq![t] + b.post, seen: b.seen }
        } else {
            let a = visit::<S, B>(nodes, t, seen);
            let b = drain::<S, B>(nodes, stack.drop_last(), a.seen);
            Walk { pre: a.pre + b.pre, post: a.post + b.post, seen: b.seen }
        }
    }
}

/// Tensors to be entered, the first on top.
pub open spec fn queued<F, D>(ts: Seq<TensorModel<F, D>>) -> Seq<(TensorModel<F, D>, bool)> {
    Seq::new(ts.len(), |i: int| (ts[ts.len() - 1 - i], false))
}

/// Walking what is queued is walking it in turn.
proof fn lemma_drain_queue<S: Scalars, B: Backward<S>>(
    nodes: Seq<B>,
    stack: Seq<(Model<S>, bool)>,
    ts: Seq<Model<S>>,
    bound: int,
    seen: Seen,
)
    requires
        forall|i: int| 0 <= i < ts.len() ==> height(#[trigger] ts[i]) <= bound,
    ensures
        ({
            let a = visit_all::<S, B>(nodes, ts, bound, seen);
            let b = drain::<S, B>(nodes, stack, a.seen);
            let d = drain::<S, B>(nodes, stack + queued(ts), seen);
            &&& d.pre == a.pre + b.pre
            &&& d.post == a.post + b.post
            &&& d.seen == b.seen
        }),
    decreases ts.len(),
{
    let whole = stack + queued(ts);
    if ts.len() == 0 {
        assert(whole =~= stack);
        let a = visit_all::<S, B>(nodes, ts, bound, seen);
        let b = drain::<S, B>(nodes, stack, a.seen);
        assert(a.pre + b.pre =~= b.pre);
        assert(a.post + b.post =~= b.post);
    } else {
        let rest = ts.skip(1);
        assert(whole.last() == (ts[0], false));
        assert(whole.drop_last() =~= stack + queued(rest));
        let v = visit::<S, B>(nodes, ts[0], seen);
        assert forall|i: int| 0 <= i < rest.len() implies height(#[trigger] rest[i]) <= bound by {
            assert(rest[i] == ts[i + 1]);
        }
        lemma_drain_queue::<S, B>(nodes, stack, rest, bound, v.seen);
        let a2 = visit_all::<S, B>(nodes, rest, bound, v.seen);
        let b = drain::<S, B>(nodes, stack, a2.seen);
        assert(v.pre + (a2.pre + b.pre) =~= (v.pre + a2.pre) + b.pre);
        assert(v.post + (a2.post + b.post) =~= (v.post + a2.post) + b.post);
    }
}

/// Number of marks.
spec fn marks(s: Seq<bool>) -> nat
    decreases s.len(),
{
    if s.len() == 0 {
        0
    } else {
        marks(s.drop_last()) + if s.last() {
            1nat
        } else {
            0nat
        }
    }
}

/// There are no more marks than places, and a new mark counts one.
proof fn lemma_marks(s: Seq<bool>, i: int)
    ensures
        marks(s) <= s.len(),
        0 <= i < s.len() && !s[i] ==> marks(s.update(i, true)) == marks(s) + 1,
    decreases s.len(),
{
    if s.len() > 0 {
        lemma_marks(s.drop_last(), i);
        if 0 <= i < s.len() {
            if i == s.len() - 1 {
                assert(s.update(i, true).drop_last() =~= s.drop_last());
            } else {
                assert(s.update(i, true).drop_last() =~= s.drop_last().update(i, true));
            }
        }
    }
}

/// A recorded graph and the gradients of its leaves.
pub struct Tape<S: Scalars, B: Backward<S>> {
    nodes: Vec<B>,
    slots: Vec<Option<Tensor<S>>>,
}

/// What a slot holds.
pub open spec fn slot_view<S: Scalars>(s: Option<Tensor<S>>) -> Option<Model<S>> {
    match s {
        Some(t) => Some(t@),
        None => None,
    }
}

/// What the slots hold.
pub open spec fn slot_views<S: Scalars>(s: Seq<Option<Tensor<S>>>) -> Seq<Option<Model<S>>> {
    Seq::new(s.len(), |i: int| slot_view(s[i]))
}

impl<S: Scalars, B: Backward<S>> Tape<S, B> {
    /// The recorded nodes.
    pub closed spec fn nodes(self) -> Seq<B> {
        self.nodes@
    }

    /// What the slots hold.
    pub closed spec fn slots(self) -> Seq<Option<Model<S>>> {
        slot_views(self.slots@)
    }

    /// Parents come before their nodes, and there are machine numbers for all.
    pub open spec fn wf(self) -> bool {
        &&& ordered::<S, B>(self.nodes(), self.slots().len() as int)
        &&& self.nodes().len() <= usize::MAX
        &&& self.slots().len() <= usize::MAX
    }

    /// A tensor belongs to the tape.
    pub open spec fn owns(self, t: Model<S>) -> bool {
        within(t, self.nodes().len() as int, self.slots().len() as int)
    }

    /// All tensors of a list belong to the tape.
    pub open spec fn owns_all(self, ts: Seq<Model<S>>) -> bool {
        all_within(ts, self.nodes().len() as int, self.slots().len() as int)
    }

    /// What the walk from `t` meets.
    pub open spec fn walk_of(self, t: Model<S>) -> Walk<S::F, S::D> {
        visit::<S, B>(self.nodes(), t, none_seen(self.nodes().len(), self.slots().len()))
    }

    /// A tape with nothing on it.
    pub fn new() -> (r: Self)
        ensures
            r.wf(),
            r.nodes() == Seq::<B>::empty(),
            r.slots() == Seq::<Option<Model<S>>>::empty(),
    {
        let r = Tape { nodes: Vec::new(), slots: Vec::new() };
        assert(r.slots() =~= Seq::<Option<Model<S>>>::empty());
        r
    }

    /// Records a node and gives its number.
    pub fn record(&mut self, node: B) -> (r: usize)
        requires
            old(self).wf(),
            old(self).owns_all(node.sources()),
        ensures
            final(self).wf(),
            r == old(self).nodes().len(),
            final(self).nodes() == old(self).nodes().push(node),
            final(self).slots() == old(self).slots(),
    {
        let n: usize = self.nodes.len();
        self.nodes.push(node);
        assert(self.nodes.len() == self.nodes@.len());
        proof {
            assert forall|k: int| 0 <= k < self.nodes@.len() implies all_within(
                (#[trigger] self.nodes@[k]).sources(),
                k,
                self.slots@.len() as int,
            ) by {
                if k < n {
                    assert(self.nodes@[k] == old(self).nodes()[k]);
                }
            }
        }
        n
    }

    /// Marks a float tensor as requiring gradients; it gets a slot of its own unless it has one.
    pub fn with_requires_grad(&mut self, x: Tensor<S>) -> (r: Tensor<S>)
        requires
            old(self).wf(),
            old(self).owns(x@),
        ensures
            final(self).wf(),
            final(self).owns(r@),
            final(self).nodes() == old(self).nodes(),
            if x@.dtype().floating() && x@.leaf is None {
                final(self).slots() == old(self).slots().push(None)
            } else {
                final(self).slots() == old(self).slots()
            },
            r@ == if x@.dtype().floating() {
                (TensorModel {
                    in_graph: true,
                    leaf: if x@.leaf is None {
                        Some(old(self).slots().len() as usize)
                    } else {
                        x@.leaf
                    },
                    ..x@
                })
            } else {
                x@
            },
    {
        let fresh: bool = x.dtype().is_float() && x.leaf().is_none();
        let slot: usize = self.slots.len();
        if fresh {
            self.slots.push(None);
            assert(self.slots.len() == self.slots@.len());
            proof {
                assert(self.slots() =~= old(self).slots().push(None));
                assert forall|k: int| 0 <= k < self.nodes@.len() implies all_within(
                    (#[trigger] self.nodes@[k]).sources(),
                    k,
                    self.slots@.len() as int,
                ) by {
                    let ss = old(self).nodes()[k].sources();
                    assert forall|i: int| 0 <= i < ss.len() implies within(
                        #[trigger] ss[i],
                        k,
                        self.slots@.len() as int,
                    ) by {
                        assert(within(ss[i], k, old(self).slots().len() as int));
                    }
                }
            }
        }
        x.into_leaf(slot)
    }

    /// The gradient stored for a leaf.
    pub fn stored(&self, x: &Tensor<S>) -> (r: Option<Tensor<S>>)
        requires
            self.owns(x@),
        ensures
            slot_view(r) == match x@.leaf {
                Some(l) => self.slots()[l as int],
                None => None,
            },
    {
        match x.leaf() {
            Some(l) => match &self.slots[l] {
                Some(t) => Some(t.clone()),
                None => None,
            },
            None => None,
        }
    }
}

/// What the entries of a stack hold.
spec fn stack_views<S: Scalars>(s: Seq<(Tensor<S>, bool)>) -> Seq<(Model<S>, bool)> {
    Seq::new(s.len(), |i: int| (s[i].0@, s[i].1))
}

/// Every tensor on the stack belongs to the tape.
spec fn stack_within<S: Scalars>(s: Seq<(Tensor<S>, bool)>, nodes: int, slots: int) -> bool {
    forall|i: int| 0 <= i < s.len() ==> within((#[trigger] s[i]).0@, nodes, slots)
}

/// The walk so far, and the rest of it, make the whole.
spec fn halfway<S: Scalars, B: Backward<S>>(
    nodes: Seq<B>,
    pre: Seq<Model<S>>,
    post: Seq<Model<S>>,
    stack: Seq<(Model<S>, bool)>,
    seen: Seen,
    whole: Walk<S::F, S::D>,
) -> bool {
    let d = drain::<S, B>(nodes, stack, seen);
    &&& pre + d.pre == whole.pre
    &&& post + d.post == whole.post
}

/// Entering a tensor that has not been met.
proof fn lemma_enter<S: Scalars, B: Backward<S>>(
    nodes: Seq<B>,
    slots: int,
    pre: Seq<Model<S>>,
    post: Seq<Model<S>>,
    rest: Seq<(Model<S>, bool)>,
    t: Model<S>,
    parents: Seq<Model<S>>,
    seen: Seen,
    whole: Walk<S::F, S::D>,
)
    requires
        ordered::<S, B>(nodes, slots),
        within(t, nodes.len() as int, slots),
        key_of(t) is Some,
        !seen.has(key_of(t)->0),
        parents == match t.grad_fn {
            Some(n) => nodes[n as int].sources(),
            None => Seq::empty(),
        },
        halfway::<S, B>(nodes, pre, post, rest.push((t, false)), seen, whole),
    ensures
        halfway::<S, B>(
            nodes,
            pre.push(t),
            post,
            rest.push((t, true)) + queued(parents),
            seen.with(key_of(t)->0),
            whole,
        ),
{
    let k = key_of(t)->0;
    let stack = rest.push((t, false));
    assert(stack.drop_last() =~= rest);
    let entered = rest.push((t, true));
    assert(entered.drop_last() =~= rest);
    let v = visit::<S, B>(nodes, t, seen);
    let b = drain::<S, B>(nodes, rest, v.seen);
    let bound = match t.grad_fn {
        Some(n) => n as int,
        None => 0,
    };
    let w = visit_all::<S, B>(nodes, parents, bound, seen.with(k));
    assert(t.grad_fn is None ==> parents.len() == 0);
    assert(v.pre == seq![t] + w.pre);
    assert(v.post == w.post.push(t));
    assert(v.seen == w.seen);
    assert forall|i: int| 0 <= i < parents.len() implies height(#[trigger] parents[i]) <= bound by {
        let n = t.grad_fn->0;
        assert(all_within(nodes[n as int].sources(), n as int, slots));
        assert(within(parents[i], n as int, slots));
    }
    lemma_drain_queue::<S, B>(nodes, entered, parents, bound, seen.with(k));
    let d = drain::<S, B>(nodes, entered + queued(parents), seen.with(k));
    let e = drain::<S, B>(nodes, entered, w.seen);
    assert(e.pre == b.pre);
    assert(e.post == seq![t] + b.post);
    assert(pre.push(t) + d.pre =~= pre + (v.pre + b.pre));
    assert(post + d.post =~= post + (v.post + b.post));
}

impl<S: Scalars, B: Backward<S>> Tape<S, B> {
    /// The parents of a tensor, marked to be entered, the first on top.
    fn push_parents(&self, t: &Tensor<S>, stack: &mut Vec<(Tensor<S>, bool)>)
        requires
            self.wf(),
            self.owns(t@),
            stack_within(
                old(stack)@,
                self.nodes().len() as int,
                self.slots().len() as int,
            ),
        ensures
            stack_within(
                final(stack)@,
                self.nodes().len() as int,
                self.slots().len() as int,
            ),
            stack_views(final(stack)@) == stack_views(old(stack)@) + queued(
                match t@.grad_fn {
                    Some(n) => self.nodes()[n as int].sources(),
                    None => Seq::empty(),
                },
            ),
    {
        match t.grad_fn() {
            None => {
                assert(stack_views(stack@) =~= stack_views(old(stack)@) + queued(
                    Seq::<Model<S>>::empty(),
                ));
            },
            Some(n) => {
                let parents: &[Tensor<S>] = self.nodes[n].parents();
                let ghost ps = views(parents@);
                let mut i: usize = parents.len();
                let ghost nn = self.nodes().len() as int;
                let ghost ns = self.slots().len() as int;
                proof {
                    assert(all_within(self.nodes()[n as int].sources(), n as int, ns));
                    assert(ps.skip(i as int) =~= Seq::<Model<S>>::empty());
                    assert(stack_views(stack@) =~= stack_views(old(stack)@) + queued(
                        ps.skip(i as int),
                    ));
                }
                while i > 0
                    invariant
                        i <= parents@.len(),
                        ps == views(parents@),
                        all_within(ps, n as int, ns),
                        n < nn,
                        stack_within(stack@, nn, ns),
                        stack_views(stack@) == stack_views(old(stack)@) + queued(ps.skip(i as int)),
                    decreases i,
                {
                    let ghost before = stack@;
                    i = i - 1;
                    let p: Tensor<S> = parents[i].clone();
                    assert(within(ps[i as int], n as int, ns));
                    stack.push((p, false));
                    proof {
                        let q = ps.skip(i as int);
                        assert(ps.skip(i + 1) =~= q.skip(1));
                        assert(q[0] == ps[i as int]);
                        assert(queued(q) =~= queued(ps.skip(i + 1)).push((ps[i as int], false)));
                        assert(stack_views(stack@) =~= stack_views(before).push(
                            (ps[i as int], false),
                        ));
                        assert(stack_views(stack@) =~= stack_views(old(stack)@) + queued(q));
                    }
                }
                assert(ps.skip(0) =~= ps);
            },
        }
    }

    /// Walks the graph from `t`, depth first and without recursion. Gives the tensors in the order in
    /// which they are entered and in the order in which they are left.
    fn walk(&self, t: &Tensor<S>) -> (r: (Vec<Tensor<S>>, Vec<Tensor<S>>))
        requires
            self.wf(),
            self.owns(t@),
        ensures
            views(r.0@) == self.walk_of(t@).pre,
            views(r.1@) == self.walk_of(t@).post,
    {
        let mut pre: Vec<Tensor<S>> = Vec::new();
        let mut post: Vec<Tensor<S>> = Vec::new();
        let mut seen_nodes: Vec<bool> = crate::tensor::repeated(false, self.nodes.len());
        let mut seen_leaves: Vec<bool> = crate::tensor::repeated(false, self.slots.len());
        let mut stack: Vec<(Tensor<S>, bool)> = Vec::new();
        stack.push((t.clone(), false));
        let ghost nodes = self.nodes();
        let ghost nn = self.nodes().len() as int;
        let ghost ns = self.slots().len() as int;
        let ghost whole = self.walk_of(t@);
        let ghost mut seen = none_seen(nodes.len(), self.slots().len());
        proof {
            assert(seen_nodes@ =~= seen.nodes);
            assert(seen_leaves@ =~= seen.leaves);
            let st = stack_views(stack@);
            assert(st.drop_last() =~= Seq::empty());
            let d = drain::<S, B>(nodes, st, seen);
            let v = visit::<S, B>(nodes, t@, seen);
            let none = drain::<S, B>(nodes, st.drop_last(), v.seen);
            assert(d.pre =~= whole.pre);
            assert(d.post =~= whole.post);
            assert(views(pre@) + d.pre =~= whole.pre);
            assert(views(post@) + d.post =~= whole.post);
        }
        while stack.len() > 0
            invariant
                self.wf(),
                nodes == self.nodes(),
                nn == self.nodes().len(),
                ns == self.slots().len(),
                seen.nodes == seen_nodes@,
                seen.leaves == seen_leaves@,
                seen_nodes@.len() == nn,
                seen_leaves@.len() == ns,
                stack_within(stack@, nn, ns),
                halfway::<S, B>(
                    nodes,
                    views(pre@),
                    views(post@),
                    stack_views(stack@),
                    seen,
                    whole,
                ),
            decreases
                    nn - marks(seen_nodes@) + ns - marks(seen_leaves@),
                    stack@.len(),
        {
            let ghost before = stack@;
            let ghost old_pre = views(pre@);
            let ghost old_post = views(post@);
            proof {
                lemma_marks(seen_nodes@, 0);
                lemma_marks(seen_leaves@, 0);
                assert(within(before[before.len() - 1].0@, nn, ns));
            }
            match stack.pop() {
                None => {},
                Some((u, entered)) => {
                    let ghost rest = stack_views(stack@);
                    proof {
                        assert(stack_views(before) =~= rest.push((u@, entered)));
                        assert(rest.push((u@, entered)).drop_last() =~= rest);
                        assert forall|i: int| 0 <= i < stack@.len() implies within(
                            (#[trigger] stack@[i]).0@,
                            nn,
                            ns,
                        ) by {
                            assert(stack@[i] == before[i]);
                        }
                    }
                    if entered {
                        post.push(u);
                        proof {
                            assert(views(post@) =~= old_post.push(u@));
                            let d = drain::<S, B>(nodes, rest, seen);
                            assert(old_post + (seq![u@] + d.post) =~= old_post.push(u@) + d.post);
                        }
                    } else {
                        match node_key(&u) {
                            None => {
                                proof {
                                    let d = drain::<S, B>(nodes, rest, seen);
                                    assert(Seq::<Model<S>>::empty() + d.pre =~= d.pre);
                                    assert(Seq::<Model<S>>::empty() + d.post =~= d.post);
                                }
                            },
                            Some(k) => {
                                let known: bool = match k {
                                    Key::Node(n) => seen_nodes[n],
                                    Key::Leaf(l) => seen_leaves[l],
                                };
                                assert(known == seen.has(k));
                                if known {
                                    proof {
                                        let d = drain::<S, B>(nodes, rest, seen);
                                        assert(Seq::<Model<S>>::empty() + d.pre =~= d.pre);
                                        assert(Seq::<Model<S>>::empty() + d.post =~= d.post);
                                    }
                                } else {
                                    proof {
                                        match k {
                                            Key::Node(n) => {
                                                lemma_marks(seen_nodes@, n as int);
                                                lemma_marks(
                                                    seen_nodes@.update(n as int, true),
                                                    0,
                                                );
                                            },
                                            Key::Leaf(l) => {
                                                lemma_marks(seen_leaves@, l as int);
                                                lemma_marks(
                                                    seen_leaves@.update(l as int, true),
                                                    0,
                                                );
                                            },
                                        }
                                        lemma_enter::<S, B>(
                                            nodes,
                                            ns,
                                            old_pre,
                                            old_post,
                                            rest,
                                            u@,
                                            match u@.grad_fn {
                                                Some(n) => nodes[n as int].sources(),
                                                None => Seq::empty(),
                                            },
                                            seen,
                                            whole,
                                        );
                                    }
                                    match k {
                                        Key::Node(n) => {
                                            seen_nodes.set(n, true);
                                        },
                                        Key::Leaf(l) => {
                                            seen_leaves.set(l, true);
                                        },
                                    }
                                    proof {
                                        seen = seen.with(k);
                                    }
                                    pre.push(u.clone());
                                    assert(views(pre@) =~= old_pre.push(u@));
                                    stack.push((u.clone(), true));
                                    assert(stack_views(stack@) =~= rest.push((u@, true)));
                                    self.push_parents(&u, &mut stack);
                                }
                            },
                        }
                    }
                },
            }
        }
        proof {
            let d = drain::<S, B>(nodes, stack_views(stack@), seen);
            assert(views(pre@) + d.pre =~= views(pre@));
            assert(views(post@) + d.post =~= views(post@));
        }
        (pre, post)
    }
}

/// State of a reverse pass: the cotangents that wait at nodes and leaves, the slots, and the error
/// that ended the pass, if any.
#[verifier::ext_equal]
pub ghost struct Sweep<S: Scalars> {
    pub node_grads: Seq<Option<Model<S>>>,
    pub leaf_grads: Seq<Option<Model<S>>>,
    pub slots: Seq<Option<Model<S>>>,
    pub fault: Option<Error>,
}

impl<S: Scalars> Sweep<S> {
    /// What waits at `k`.
    pub open spec fn at(self, k: Key) -> Option<Model<S>> {
        match k {
            Key::Node(n) => self.node_grads[n as int],
            Key::Leaf(l) => self.leaf_grads[l as int],
        }
    }

    /// With `v` waiting at `k`.
    pub open spec fn put(self, k: Key, v: Option<Model<S>>) -> Sweep<S> {
        match k {
            Key::Node(n) => Sweep { node_grads: self.node_grads.update(n as int, v), ..self },
            Key::Leaf(l) => Sweep { leaf_grads: self.leaf_grads.update(l as int, v), ..self },
        }
    }

    /// With slot `l` holding `v`.
    pub open spec fn keep(self, l: usize, v: Option<Model<S>>) -> Sweep<S> {
        Sweep { slots: self.slots.update(l as int, v), ..self }
    }

    /// Ended by `e`.
    pub open spec fn failed(self, e: Error) -> Sweep<S> {
        Sweep { fault: Some(e), ..self }
    }
}

/// A leaf's slot takes `gy`: added to what it holds. Where that cannot be added the slot is left
/// empty and the pass ends.
pub open spec fn stores<S: Scalars>(t: Model<S>, gy: Model<S>, a: Sweep<S>, b: Sweep<S>) -> bool {
    match t.leaf {
        None => b == a,
        Some(l) => if a.slots[l as int] is None {
            b == a.keep(l, Some(gy))
        } else {
            adds_to_slot::<S>(a.slots[l as int]->0, gy, l, a, b)
        },
    }
}

/// Slot `l` takes the sum of `prev` and `gy`.
pub open spec fn adds_to_slot<S: Scalars>(
    prev: Model<S>,
    gy: Model<S>,
    l: usize,
    a: Sweep<S>,
    b: Sweep<S>,
) -> bool {
    exists|o: Outcome<S>| #[trigger]
        add_out::<S>(prev, gy, o) && b == if o is Ok {
            a.keep(l, Some(o->Ok_0))
        } else {
            a.keep(l, None).failed(o->Err_0)
        }
}

/// A parent receives its piece: added to what waits for it.
pub open spec fn hands<S: Scalars>(p: Model<S>, part: Model<S>, a: Sweep<S>, b: Sweep<S>) -> bool {
    if a.fault is Some || key_of(p) is None {
        b == a
    } else if a.at(key_of(p)->0) is None {
        b == a.put(key_of(p)->0, Some(part))
    } else {
        adds_to_waiting::<S>(a.at(key_of(p)->0)->0, part, key_of(p)->0, a, b)
    }
}

/// The sum of `prev` and `part` waits at `k`.
pub open spec fn adds_to_waiting<S: Scalars>(
    prev: Model<S>,
    part: Model<S>,
    k: Key,
    a: Sweep<S>,
    b: Sweep<S>,
) -> bool {
    exists|o: Outcome<S>| #[trigger]
        add_out::<S>(prev, part, o) && b == if o is Ok {
            a.put(k, Some(o->Ok_0))
        } else {
            a.put(k, None).failed(o->Err_0)
        }
}

/// Each parent in turn receives its piece.
pub open spec fn hands_all<S: Scalars>(
    ps: Seq<Model<S>>,
    parts: Seq<Model<S>>,
    a: Sweep<S>,
    b: Sweep<S>,
) -> bool {
    exists|st: Seq<Sweep<S>>| #[trigger] hands_run::<S>(ps, parts, a, b, st)
}

/// The states between.
pub open spec fn hands_run<S: Scalars>(
    ps: Seq<Model<S>>,
    parts: Seq<Model<S>>,
    a: Sweep<S>,
    b: Sweep<S>,
    st: Seq<Sweep<S>>,
) -> bool {
    &&& st.len() == ps.len() + 1
    &&& st[0] == a
    &&& st[ps.len() as int] == b
    &&& forall|i: int|
        0 <= i < ps.len() ==> hands::<S>(ps[i], parts[i], st[i], #[trigger] st[i + 1])
}

/// The rule of node `n` runs once, on `gy`, and its pieces go to the parents.
pub open spec fn spreads<S: Scalars, B: Backward<S>>(
    node: B,
    gy: Model<S>,
    a: Sweep<S>,
    b: Sweep<S>,
) -> bool {
    exists|o: Result<Seq<Model<S>>, Error>| #[trigger]
        node.vjp(gy, o) && shares::<S, B>(node, o, a, b)
}

/// The pieces `o` of a rule go to the parents of its node; an error, or another number of pieces
/// than of parents, ends the pass.
pub open spec fn shares<S: Scalars, B: Backward<S>>(
    node: B,
    o: Result<Seq<Model<S>>, Error>,
    a: Sweep<S>,
    b: Sweep<S>,
) -> bool {
    if o is Err {
        b == a.failed(o->Err_0)
    } else if o->Ok_0.len() != node.sources().len() {
        &&& b.fault is Some && b == a.failed(b.fault->0)
        &&& b.fault->0.says(ErrorKind::Domain, node.title(), "backward arity mismatch"@)
    } else {
        hands_all::<S>(node.sources(), o->Ok_0, a, b)
    }
}

/// The first half of the turn of `t`: the cotangent `gy` has been taken away and has gone into the
/// slot, if `t` is a leaf, and the rule of its node is due.
pub open spec fn half_turn<S: Scalars>(
    t: Model<S>,
    gy: Model<S>,
    a: Sweep<S>,
    m: Sweep<S>,
) -> bool {
    &&& a.fault is None && m.fault is None
    &&& key_of(t) is Some && t.grad_fn is Some
    &&& a.at(key_of(t)->0) == Some(gy)
    &&& stores::<S>(t, gy, a.put(key_of(t)->0, None), m)
}

/// What the turn of `t` does: the cotangent that waits for it goes into its slot, if it is a leaf,
/// and through its rule, if it has a node.
pub open spec fn turn<S: Scalars, B: Backward<S>>(
    nodes: Seq<B>,
    t: Model<S>,
    a: Sweep<S>,
    b: Sweep<S>,
) -> bool {
    if a.fault is Some || key_of(t) is None || a.at(key_of(t)->0) is None {
        b == a
    } else {
        turns::<S, B>(nodes, t, a.at(key_of(t)->0)->0, a.put(key_of(t)->0, None), b)
    }
}

/// The turn of `t`, with the cotangent `gy` taken away.
pub open spec fn turns<S: Scalars, B: Backward<S>>(
    nodes: Seq<B>,
    t: Model<S>,
    gy: Model<S>,
    a: Sweep<S>,
    b: Sweep<S>,
) -> bool {
    exists|m: Sweep<S>| #[trigger]
        stores::<S>(t, gy, a, m) && if m.fault is Some || t.grad_fn is None {
            b == m
        } else {
            spreads::<S, B>(nodes[t.grad_fn->0 as int], gy, m, b)
        }
}

/// All turns, from the last of `post` to the first.
pub open spec fn sweeps<S: Scalars, B: Backward<S>>(
    nodes: Seq<B>,
    post: Seq<Model<S>>,
    a: Sweep<S>,
    b: Sweep<S>,
) -> bool {
    exists|st: Seq<Sweep<S>>| #[trigger] sweeps_run::<S, B>(nodes, post, a, b, st)
}

/// The states between the turns.
pub open spec fn sweeps_run<S: Scalars, B: Backward<S>>(
    nodes: Seq<B>,
    post: Seq<Model<S>>,
    a: Sweep<S>,
    b: Sweep<S>,
    st: Seq<Sweep<S>>,
) -> bool {
    &&& st.len() == post.len() + 1
    &&& st[0] == a
    &&& st[post.len() as int] == b
    &&& forall|i: int|
        0 <= i < post.len() ==> turn::<S, B>(
            nodes,
            post[post.len() - 1 - i],
            st[i],
            #[trigger] st[i + 1],
        )
}

/// Nothing waits, and the slots are as given.
pub open spec fn idle<S: Scalars>(nodes: nat, slots: Seq<Option<Model<S>>>) -> Sweep<S> {
    Sweep {
        node_grads: Seq::new(nodes, |i: int| None::<Model<S>>),
        leaf_grads: Seq::new(slots.len(), |i: int| None::<Model<S>>),
        slots,
        fault: None,
    }
}

/// What the reverse pass from `output` with cotangent `seed` comes to, over the walk `w`: the slots
/// after it, and the error that ended it, if any.
pub open spec fn accumulates<S: Scalars, B: Backward<S>>(
    nodes: Seq<B>,
    w: Walk<S::F, S::D>,
    output: Model<S>,
    seed: Model<S>,
    before: Seq<Option<Model<S>>>,
    after: Seq<Option<Model<S>>>,
    r: Result<(), Error>,
) -> bool {
    if key_of(output) is None {
        r is Ok && after == before
    } else {
        exists|end: Sweep<S>| #[trigger]
            sweeps::<S, B>(
                nodes,
                w.post,
                idle::<S>(nodes.len(), before).put(key_of(output)->0, Some(seed)),
                end,
            ) && after == end.slots && match r {
                Ok(_) => end.fault is None,
                Err(e) => end.fault == Some(e),
            }
    }
}

/// The cotangents that wait.
struct Waiting<S: Scalars> {
    nodes: Vec<Option<Tensor<S>>>,
    leaves: Vec<Option<Tensor<S>>>,
    fault: Option<Error>,
}

impl<S: Scalars> Waiting<S> {
    spec fn state(self, slots: Seq<Option<Model<S>>>) -> Sweep<S> {
        Sweep {
            node_grads: slot_views(self.nodes@),
            leaf_grads: slot_views(self.leaves@),
            slots,
            fault: self.fault,
        }
    }

    /// There is a place for `k`.
    spec fn holds(self, k: Key) -> bool {
        match k {
            Key::Node(n) => n < self.nodes@.len(),
            Key::Leaf(l) => l < self.leaves@.len(),
        }
    }

    fn get(&self, k: Key) -> (r: Option<Tensor<S>>)
        requires
            self.holds(k),
        ensures
            forall|slots: Seq<Option<Model<S>>>|
                slot_view(r) == #[trigger] self.state(slots).at(k),
    {
        let place: &Option<Tensor<S>> = match k {
            Key::Node(n) => &self.nodes[n],
            Key::Leaf(l) => &self.leaves[l],
        };
        match place {
            Some(t) => Some(t.clone()),
            None => None,
        }
    }

    fn set(&mut self, k: Key, v: Option<Tensor<S>>)
        requires
            old(self).holds(k),
        ensures
            final(self).nodes@.len() == old(self).nodes@.len(),
            final(self).leaves@.len() == old(self).leaves@.len(),
            final(self).fault == old(self).fault,
            forall|slots: Seq<Option<Model<S>>>|
                final(self).state(slots) == #[trigger] old(self).state(slots).put(
                    k,
                    slot_view(v),
                ),
    {
        match k {
            Key::Node(n) => {
                self.nodes.set(n, v);
            },
            Key::Leaf(l) => {
                self.leaves.set(l, v);
            },
        }
        proof {
            assert forall|slots: Seq<Option<Model<S>>>| self.state(slots) == #[trigger] old(
                self,
            ).state(slots).put(k, slot_view(v)) by {
                match k {
                    Key::Node(n) => {
                        assert(slot_views(self.nodes@) =~= slot_views(old(self).nodes@).update(
                            n as int,
                            slot_view(v),
                        ));
                    },
                    Key::Leaf(l) => {
                        assert(slot_views(self.leaves@) =~= slot_views(old(self).leaves@).update(
                            l as int,
                            slot_view(v),
                        ));
                    },
                }
            }
        }
    }

    /// A parent receives its piece.
    fn hand(&mut self, p: &Tensor<S>, part: &Tensor<S>, Ghost(slots): Ghost<Seq<Option<Model<S>>>>)
        requires
            key_of(p@) is Some ==> old(self).holds(key_of(p@)->0),
        ensures
            final(self).nodes@.len() == old(self).nodes@.len(),
            final(self).leaves@.len() == old(self).leaves@.len(),
            hands::<S>(p@, part@, old(self).state(slots), final(self).state(slots)),
    {
        if self.fault.is_some() {
            return;
        }
        let k: Key = match node_key(p) {
            Some(k) => k,
            None => {
                return;
            },
        };
        match self.get(k) {
            None => {
                let piece: Tensor<S> = part.clone();
                self.set(k, Some(piece));
            },
            Some(prev) => match crate::cpu::add(&prev, part) {
                Ok(total) => {
                    self.set(k, Some(total));
                },
                Err(e) => {
                    self.set(k, None);
                    self.fault = Some(e);
                },
            },
        }
    }

    /// The parents receive their pieces in turn.
    fn hand_all(
        &mut self,
        ps: &[Tensor<S>],
        parts: &Vec<Tensor<S>>,
        Ghost(slots): Ghost<Seq<Option<Model<S>>>>,
    )
        requires
            ps@.len() == parts@.len(),
            forall|i: int|
                0 <= i < ps@.len() && key_of((#[trigger] ps@[i])@) is Some ==> old(self).holds(
                    key_of(ps@[i]@)->0,
                ),
        ensures
            final(self).nodes@.len() == old(self).nodes@.len(),
            final(self).leaves@.len() == old(self).leaves@.len(),
            hands_all::<S>(
                views(ps@),
                views(parts@),
                old(self).state(slots),
                final(self).state(slots),
            ),
    {
        let ghost mut st: Seq<Sweep<S>> = seq![self.state(slots)];
        let mut i: usize = 0;
        while i < ps.len()
            invariant
                i <= ps@.len() == parts@.len(),
                forall|j: int|
                    0 <= j < ps@.len() && key_of((#[trigger] ps@[j])@) is Some ==> self.holds(
                        key_of(ps@[j]@)->0,
                    ),
                self.nodes@.len() == old(self).nodes@.len(),
                self.leaves@.len() == old(self).leaves@.len(),
                st.len() == i + 1,
                st[0] == old(self).state(slots),
                st[i as int] == self.state(slots),
                forall|j: int|
                    0 <= j < i ==> hands::<S>(
                        views(ps@)[j],
                        views(parts@)[j],
                        st[j],
                        #[trigger] st[j + 1],
                    ),
            decreases ps@.len() - i,
        {
            let ghost before = st;
            self.hand(&ps[i], &parts[i], Ghost(slots));
            proof {
                st = st.push(self.state(slots));
                assert forall|j: int| 0 <= j < i + 1 implies hands::<S>(
                    views(ps@)[j],
                    views(parts@)[j],
                    st[j],
                    #[trigger] st[j + 1],
                ) by {
                    if j < i {
                        assert(st[j + 1] == before[j + 1]);
                    }
                }
            }
            i = i + 1;
        }
        assert(hands_run::<S>(
            views(ps@),
            views(parts@),
            old(self).state(slots),
            self.state(slots),
            st,
        ));
    }
}

impl<S: Scalars, B: Backward<S>> Tape<S, B> {
    /// A leaf's slot takes `gy`.
    fn store(&mut self, t: &Tensor<S>, gy: &Tensor<S>, w: &mut Waiting<S>)
        requires
            old(self).owns(t@),
            old(w).fault is None,
        ensures
            final(self).nodes() == old(self).nodes(),
            final(self).slots().len() == old(self).slots().len(),
            final(w).nodes@ == old(w).nodes@,
            final(w).leaves@ == old(w).leaves@,
            stores::<S>(
                t@,
                gy@,
                old(w).state(old(self).slots()),
                final(w).state(final(self).slots()),
            ),
    {
        let l: usize = match t.leaf() {
            Some(l) => l,
            None => {
                return;
            },
        };
        let prev: Option<Tensor<S>> = self.stored(t);
        let ghost a = w.state(self.slots());
        match prev {
            None => {
                self.slots.set(l, Some(gy.clone()));
                assert(self.slots() =~= old(self).slots().update(l as int, Some(gy@)));
            },
            Some(p) => match crate::cpu::add(&p, gy) {
                Ok(total) => {
                    self.slots.set(l, Some(total));
                    assert(self.slots() =~= old(self).slots().update(l as int, Some(total@)));
                },
                Err(e) => {
                    self.slots.set(l, None);
                    w.fault = Some(e);
                    assert(self.slots() =~= old(self).slots().update(l as int, None));
                },
            },
        }
    }

    /// The turn of `t`, up to where the rule of a node is due: the node and its cotangent.
    fn open_turn(&mut self, t: &Tensor<S>, w: &mut Waiting<S>) -> (r: Option<(usize, Tensor<S>)>)
        requires
            old(self).wf(),
            old(self).owns(t@),
            old(w).nodes@.len() == old(self).nodes().len(),
            old(w).leaves@.len() == old(self).slots().len(),
        ensures
            final(self).wf(),
            final(self).nodes() == old(self).nodes(),
            final(self).slots().len() == old(self).slots().len(),
            final(w).nodes@.len() == old(w).nodes@.len(),
            final(w).leaves@.len() == old(w).leaves@.len(),
            match r {
                None => turn::<S, B>(
                    old(self).nodes(),
                    t@,
                    old(w).state(old(self).slots()),
                    final(w).state(final(self).slots()),
                ),
                Some(due) => t@.grad_fn == Some(due.0) && half_turn::<S>(
                    t@,
                    due.1@,
                    old(w).state(old(self).slots()),
                    final(w).state(final(self).slots()),
                ),
            },
    {
        if w.fault.is_some() {
            return None;
        }
        let k: Key = match node_key(t) {
            Some(k) => k,
            None => {
                return None;
            },
        };
        let ghost before = w.state(self.slots());
        let gy: Tensor<S> = match w.get(k) {
            Some(g) => g,
            None => {
                return None;
            },
        };
        assert(before.at(k) == Some(gy@));
        w.set(k, None);
        let ghost a = w.state(self.slots());
        self.store(t, &gy, w);
        let ghost m = w.state(self.slots());
        assert(stores::<S>(t@, gy@, a, m));
        if w.fault.is_some() {
            return None;
        }
        match t.grad_fn() {
            Some(n) => Some((n, gy)),
            None => None,
        }
    }

    /// Hands out the pieces of the rule of node `n`.
    fn share(&self, n: usize, parts: Result<Vec<Tensor<S>>, Error>, w: &mut Waiting<S>)
        requires
            self.wf(),
            n < self.nodes().len(),
            old(w).fault is None,
            old(w).nodes@.len() == self.nodes().len(),
            old(w).leaves@.len() == self.slots().len(),
        ensures
            final(w).nodes@.len() == old(w).nodes@.len(),
            final(w).leaves@.len() == old(w).leaves@.len(),
            shares::<S, B>(
                self.nodes()[n as int],
                parts_outcome(parts),
                old(w).state(self.slots()),
                final(w).state(self.slots()),
            ),
    {
        let ghost node = self.nodes()[n as int];
        match parts {
            Err(e) => {
                w.fault = Some(e);
            },
            Ok(parts) => {
                let parents: &[Tensor<S>] = self.nodes[n].parents();
                assert(views(parts@).len() == parts@.len());
                assert(views(parents@).len() == parents@.len());
                if parts.len() != parents.len() {
                    let name: &'static str = self.nodes[n].name();
                    w.fault = Some(
                        Error::new(
                            ErrorKind::Domain,
                            name,
                            "backward arity mismatch".to_owned(),
                        ),
                    );
                } else {
                    proof {
                        let ns = self.slots().len() as int;
                        assert(all_within(node.sources(), n as int, ns));
                        assert forall|i: int|
                            0 <= i < parents@.len() && key_of(
                                (#[trigger] parents@[i])@,
                            ) is Some implies w.holds(key_of(parents@[i]@)->0) by {
                            assert(within(views(parents@)[i], n as int, ns));
                        }
                    }
                    w.hand_all(parents, &parts, Ghost(self.slots()));
                }
            },
        }
    }

    /// The turn of `t`.
    fn take_turn(&mut self, t: &Tensor<S>, w: &mut Waiting<S>)
        requires
            old(self).wf(),
            old(self).owns(t@),
            old(w).nodes@.len() == old(self).nodes().len(),
            old(w).leaves@.len() == old(self).slots().len(),
        ensures
            final(self).wf(),
            final(self).nodes() == old(self).nodes(),
            final(self).slots().len() == old(self).slots().len(),
            final(w).nodes@.len() == old(w).nodes@.len(),
            final(w).leaves@.len() == old(w).leaves@.len(),
            turn::<S, B>(
                old(self).nodes(),
                t@,
                old(w).state(old(self).slots()),
                final(w).state(final(self).slots()),
            ),
    {
        match self.open_turn(t, w) {
            None => {},
            Some((n, gy)) => {
                let parts: Result<Vec<Tensor<S>>, Error> = self.nodes[n].backward(&gy);
                let ghost o = parts_outcome(parts);
                assert(self.nodes()[n as int].vjp(gy@, o));
                self.share(n, parts, w);
            },
        }
    }

    /// Reverse pass over the graph as a DAG: the cotangents that reach a node are summed first, and
    /// its rule runs a single time.
    fn accumulate(&mut self, output: &Tensor<S>, seed: &Tensor<S>) -> (r: Result<(), Error>)
        requires
            old(self).wf(),
            old(self).owns(output@),
        ensures
            final(self).wf(),
            final(self).nodes() == old(self).nodes(),
            final(self).slots().len() == old(self).slots().len(),
            accumulates::<S, B>(
                old(self).nodes(),
                old(self).walk_of(output@),
                output@,
                seed@,
                old(self).slots(),
                final(self).slots(),
                r,
            ),
    {
        let root: Key = match node_key(output) {
            Some(k) => k,
            None => {
                return Ok(());
            },
        };
        let (_, post): (Vec<Tensor<S>>, Vec<Tensor<S>>) = self.walk(output);
        let mut w: Waiting<S> = Waiting {
            nodes: empty_slots(self.nodes.len()),
            leaves: empty_slots(self.slots.len()),
            fault: None,
        };
        proof {
            assert(w.state(self.slots()) =~= idle::<S>(self.nodes().len(), self.slots()));
        }
        w.set(root, Some(seed.clone()));
        let ghost nodes = self.nodes();
        let ghost start = w.state(self.slots());
        let ghost ps = views(post@);
        let ghost mut st: Seq<Sweep<S>> = seq![start];
        proof {
            lemma_walk_within::<S, B>(
                nodes,
                self.slots().len() as int,
                output@,
                none_seen(nodes.len(), self.slots().len()),
            );
        }
        let n: usize = post.len();
        let mut i: usize = 0;
        while i < n
            invariant
                i <= n == post@.len(),
                self.wf(),
                nodes == self.nodes(),
                self.nodes() == old(self).nodes(),
                self.slots().len() == old(self).slots().len(),
                w.nodes@.len() == self.nodes().len(),
                w.leaves@.len() == self.slots().len(),
                ps == views(post@),
                all_within(ps, self.nodes().len() as int, self.slots().len() as int),
                st.len() == i + 1,
                st[0] == start,
                st[i as int] == w.state(self.slots()),
                forall|j: int|
                    0 <= j < i ==> turn::<S, B>(
                        nodes,
                        ps[ps.len() - 1 - j],
                        st[j],
                        #[trigger] st[j + 1],
                    ),
            decreases n - i,
        {
            let ghost before = st;
            assert(within(ps[n - 1 - i], nodes.len() as int, self.slots().len() as int));
            self.take_turn(&post[n - 1 - i], &mut w);
            proof {
                st = st.push(w.state(self.slots()));
                assert forall|j: int| 0 <= j < i + 1 implies turn::<S, B>(
                    nodes,
                    ps[ps.len() - 1 - j],
                    st[j],
                    #[trigger] st[j + 1],
                ) by {
                    if j < i {
                        assert(st[j + 1] == before[j + 1]);
                    }
                }
            }
            i = i + 1;
        }
        let ghost end = w.state(self.slots());
        assert(sweeps_run::<S, B>(nodes, ps, start, end, st));
        assert(sweeps::<S, B>(nodes, ps, start, end));
        match w.fault {
            Some(e) => Err(e),
            None => Ok(()),
        }
    }
}

/// Slots with nothing in them.
fn empty_slots<S: Scalars>(n: usize) -> (r: Vec<Option<Tensor<S>>>)
    ensures
        slot_views(r@) == Seq::new(n as nat, |i: int| None::<Model<S>>),
        r@.len() == n,
{
    let mut r: Vec<Option<Tensor<S>>> = Vec::new();
    let mut i: usize = 0;
    while i < n
        invariant
            i <= n,
            r@.len() == i,
            forall|j: int| 0 <= j < i ==> (#[trigger] r@[j]) is None,
        decreases n - i,
    {
        r.push(None);
        i = i + 1;
    }
    assert(slot_views(r@) =~= Seq::new(n as nat, |i: int| None::<Model<S>>));
    r
}

/// A walk meets only tensors of the tape.
proof fn lemma_walk_within<S: Scalars, B: Backward<S>>(
    nodes: Seq<B>,
    slots: int,
    t: Model<S>,
    seen: Seen,
)
    requires
        ordered::<S, B>(nodes, slots),
        within(t, nodes.len() as int, slots),
    ensures
        all_within(visit::<S, B>(nodes, t, seen).pre, nodes.len() as int, slots),
        all_within(visit::<S, B>(nodes, t, seen).post, nodes.len() as int, slots),
    decreases height(t), 0int, 0int,
{
    if key_of(t) is Some && !seen.has(key_of(t)->0) && t.grad_fn is Some {
        let n = t.grad_fn->0;
        assert(all_within(nodes[n as int].sources(), n as int, slots));
        lemma_walk_all_within::<S, B>(
            nodes,
            slots,
            nodes[n as int].sources(),
            n as int,
            seen.with(key_of(t)->0),
        );
    }
}

/// So does a walk from several tensors.
proof fn lemma_walk_all_within<S: Scalars, B: Backward<S>>(
    nodes: Seq<B>,
    slots: int,
    ts: Seq<Model<S>>,
    bound: int,
    seen: Seen,
)
    requires
        ordered::<S, B>(nodes, slots),
        all_within(ts, bound, slots),
        bound <= nodes.len(),
    ensures
        all_within(visit_all::<S, B>(nodes, ts, bound, seen).pre, nodes.len() as int, slots),
        all_within(visit_all::<S, B>(nodes, ts, bound, seen).post, nodes.len() as int, slots),
    decreases bound, 1int, ts.len(),
{
    if ts.len() > 0 && height(ts[0]) <= bound {
        assert(within(ts[0], bound, slots));
        lemma_walk_within::<S, B>(nodes, slots, ts[0], seen);
        let a = visit::<S, B>(nodes, ts[0], seen);
        let rest = ts.skip(1);
        assert forall|i: int| 0 <= i < rest.len() implies within(
            #[trigger] rest[i],
            bound,
            slots,
        ) by {
            assert(rest[i] == ts[i + 1]);
        }
        lemma_walk_all_within::<S, B>(nodes, slots, rest, bound, a.seen);
        let b = visit_all::<S, B>(nodes, rest, bound, a.seen);
        let pre = a.pre + b.pre;
        let post = a.post + b.post;
        assert forall|i: int| 0 <= i < pre.len() implies within(
            #[trigger] pre[i],
            nodes.len() as int,
            slots,
        ) by {
            if i < a.pre.len() {
                assert(pre[i] == a.pre[i]);
            } else {
                assert(pre[i] == b.pre[i - a.pre.len()]);
            }
        }
        assert forall|i: int| 0 <= i < post.len() implies within(
            #[trigger] post[i],
            nodes.len() as int,
            slots,
        ) by {
            if i < a.post.len() {
                assert(post[i] == a.post[i]);
            } else {
                assert(post[i] == b.post[i - a.post.len()]);
            }
        }
    }
}

/// One of the tensors is leaf `l`.
pub open spec fn has_leaf<F, D>(ts: Seq<TensorModel<F, D>>, l: int) -> bool {
    exists|i: int| 0 <= i < ts.len() && leaf_is(#[trigger] ts[i], l)
}

/// The tensor is leaf `l`.
pub open spec fn leaf_is<F, D>(t: TensorModel<F, D>, l: int) -> bool {
    t.leaf matches Some(k) && k == l
}

/// The tensors that are leaves, each leaf once, in the order in which they come.
pub open spec fn first_leaves<F, D>(ts: Seq<TensorModel<F, D>>) -> Seq<TensorModel<F, D>>
    decreases ts.len(),
{
    if ts.len() == 0 {
        Seq::empty()
    } else {
        let front = first_leaves(ts.drop_last());
        if ts.last().leaf is Some && !has_leaf(front, ts.last().leaf->0 as int) {
            front.push(ts.last())
        } else {
            front
        }
    }
}

/// No leaf is lost.
proof fn lemma_first_leaves<F, D>(ts: Seq<TensorModel<F, D>>, l: int)
    ensures
        has_leaf(first_leaves(ts), l) == has_leaf(ts, l),
    decreases ts.len(),
{
    if ts.len() > 0 {
        let front = ts.drop_last();
        let t = ts.last();
        lemma_first_leaves(front, l);
        assert(has_leaf(ts, l) == (has_leaf(front, l) || leaf_is(t, l))) by {
            if has_leaf(front, l) {
                let i = choose|i: int| 0 <= i < front.len() && leaf_is(#[trigger] front[i], l);
                assert(leaf_is(ts[i], l));
            }
            if leaf_is(t, l) {
                assert(leaf_is(ts[ts.len() - 1], l));
            }
            if has_leaf(ts, l) && !leaf_is(t, l) {
                let i = choose|i: int| 0 <= i < ts.len() && leaf_is(#[trigger] ts[i], l);
                assert(leaf_is(front[i], l));
            }
        }
        let kept = first_leaves(front);
        if t.leaf is Some && !has_leaf(kept, t.leaf->0 as int) {
            let more = kept.push(t);
            assert(has_leaf(more, l) == (has_leaf(kept, l) || leaf_is(t, l))) by {
                if has_leaf(kept, l) {
                    let i = choose|i: int| 0 <= i < kept.len() && leaf_is(#[trigger] kept[i], l);
                    assert(leaf_is(more[i], l));
                }
                if leaf_is(t, l) {
                    assert(leaf_is(more[more.len() - 1], l));
                }
                if has_leaf(more, l) && !leaf_is(t, l) {
                    let i = choose|i: int| 0 <= i < more.len() && leaf_is(#[trigger] more[i], l);
                    assert(leaf_is(kept[i], l));
                }
            }
        }
    }
}

/// The slots with those of the given leaves emptied.
pub open spec fn cleared<S: Scalars>(
    slots: Seq<Option<Model<S>>>,
    ts: Seq<Model<S>>,
) -> Seq<Option<Model<S>>> {
    Seq::new(
        slots.len(),
        |l: int|
            if has_leaf(ts, l) {
                None
            } else {
                slots[l]
            },
    )
}

/// The leaves that have a gradient, with it.
pub open spec fn leaf_pairs<S: Scalars>(
    leaves: Seq<Model<S>>,
    slots: Seq<Option<Model<S>>>,
) -> Seq<(Model<S>, Model<S>)>
    decreases leaves.len(),
{
    if leaves.len() == 0 {
        Seq::empty()
    } else {
        let front = leaf_pairs::<S>(leaves.drop_last(), slots);
        let t = leaves.last();
        if t.leaf is Some && slots[t.leaf->0 as int] is Some {
            front.push((t, slots[t.leaf->0 as int]->0))
        } else {
            front
        }
    }
}

/// Pairs of tensors, or an error.
pub open spec fn pairs_outcome<S: Scalars>(r: Result<Vec<(Tensor<S>, Tensor<S>)>, Error>) -> Result<
    Seq<(Model<S>, Model<S>)>,
    Error,
> {
    match r {
        Ok(v) => Ok(pair_views(v@)),
        Err(e) => Err(e),
    }
}

/// What pairs of tensors hold.
pub open spec fn pair_views<S: Scalars>(v: Seq<(Tensor<S>, Tensor<S>)>) -> Seq<
    (Model<S>, Model<S>),
> {
    Seq::new(v.len(), |i: int| (v[i].0@, v[i].1@))
}

/// Every tensor is a leaf.
pub open spec fn all_leaves<F, D>(ts: Seq<TensorModel<F, D>>) -> bool {
    forall|i: int| 0 <= i < ts.len() ==> (#[trigger] ts[i]).leaf is Some
}

/// `g` is what the slot of `x` holds, or zeros like `x` where it is empty.
pub open spec fn gradient_of<S: Scalars>(
    x: Model<S>,
    slots: Seq<Option<Model<S>>>,
    g: Model<S>,
) -> bool {
    match slots[x.leaf->0 as int] {
        Some(t) => g == t,
        None => zeros_out::<S>(x.shape, x.dtype(), Ok(g)),
    }
}

/// There are no zeros like `x`, whose slot is empty.
pub open spec fn no_zeros<S: Scalars>(x: Model<S>, slots: Seq<Option<Model<S>>>) -> bool {
    slots[x.leaf->0 as int] is None && !fits(x.shape)
}

/// The gradients of the inputs after a pass.
pub open spec fn collects<S: Scalars>(
    inputs: Seq<Model<S>>,
    slots: Seq<Option<Model<S>>>,
    r: Result<Seq<Model<S>>, Error>,
) -> bool {
    match r {
        Ok(gs) => gs.len() == inputs.len() && all_collected::<S>(inputs, slots, gs),
        Err(e) => some_missing::<S>(inputs, slots) && numel_error(e),
    }
}

/// Each gradient is that of its input.
pub open spec fn all_collected<S: Scalars>(
    inputs: Seq<Model<S>>,
    slots: Seq<Option<Model<S>>>,
    gs: Seq<Model<S>>,
) -> bool {
    forall|i: int| 0 <= i < gs.len() ==> gradient_of::<S>(inputs[i], slots, #[trigger] gs[i])
}

/// Some input has no gradient and is too large for zeros.
pub open spec fn some_missing<S: Scalars>(
    inputs: Seq<Model<S>>,
    slots: Seq<Option<Model<S>>>,
) -> bool {
    exists|i: int| 0 <= i < inputs.len() && no_zeros::<S>(#[trigger] inputs[i], slots)
}

/// What `grad` comes to, on a tape of the given nodes: the result, and the slots after it.
pub open spec fn grad_out<S: Scalars, B: Backward<S>>(
    nodes: Seq<B>,
    w: Walk<S::F, S::D>,
    output: Model<S>,
    inputs: Seq<Model<S>>,
    before: Seq<Option<Model<S>>>,
    after: Seq<Option<Model<S>>>,
    r: Result<Seq<Model<S>>, Error>,
) -> bool {
    if count_of(output.shape) != 1 {
        &&& after == before && r is Err
        &&& r->Err_0.says(ErrorKind::Shape, "grad"@, "output must be a scalar (numel==1)"@)
    } else if !output.dtype().floating() {
        after == before && r is Err && r->Err_0.says(ErrorKind::Dtype, "grad"@, "float output"@)
    } else if !all_leaves(inputs) {
        &&& after == before && r is Err
        &&& r->Err_0.says(ErrorKind::Domain, "grad"@, "inputs must be require_grad leaves"@)
    } else {
        fresh_pass::<S, B>(nodes, w, output, inputs, before, after, r)
    }
}

/// A pass from ones over slots that were emptied first: those of every leaf that the walk meets and
/// of every input.
pub open spec fn fresh_pass<S: Scalars, B: Backward<S>>(
    nodes: Seq<B>,
    w: Walk<S::F, S::D>,
    output: Model<S>,
    inputs: Seq<Model<S>>,
    before: Seq<Option<Model<S>>>,
    after: Seq<Option<Model<S>>>,
    r: Result<Seq<Model<S>>, Error>,
) -> bool {
    exists|seed: Outcome<S>, a: Result<(), Error>|
        {
            &&& #[trigger] ones_out::<S>(output.shape, output.dtype(), seed)
            &&& seed is Ok
            &&& #[trigger] accumulates::<S, B>(
                nodes,
                w,
                output,
                seed->Ok_0,
                cleared::<S>(before, w.pre + inputs),
                after,
                a,
            )
            &&& passes(a, r, collects::<S>(inputs, after, r))
        }
}

/// What `backward` comes to, on a tape of the given nodes: the result, and the slots after it.
pub open spec fn backward_out<S: Scalars, B: Backward<S>>(
    nodes: Seq<B>,
    w: Walk<S::F, S::D>,
    output: Model<S>,
    before: Seq<Option<Model<S>>>,
    after: Seq<Option<Model<S>>>,
    r: Result<Seq<(Model<S>, Model<S>)>, Error>,
) -> bool {
    if count_of(output.shape) != 1 {
        &&& after == before && r is Err
        &&& r->Err_0.says(ErrorKind::Shape, "backward"@, "output must be a scalar"@)
    } else {
        adding_pass::<S, B>(nodes, w, output, before, after, r)
    }
}

/// A pass from ones over the slots as they are.
pub open spec fn adding_pass<S: Scalars, B: Backward<S>>(
    nodes: Seq<B>,
    w: Walk<S::F, S::D>,
    output: Model<S>,
    before: Seq<Option<Model<S>>>,
    after: Seq<Option<Model<S>>>,
    r: Result<Seq<(Model<S>, Model<S>)>, Error>,
) -> bool {
    exists|seed: Outcome<S>, a: Result<(), Error>|
        {
            &&& #[trigger] ones_out::<S>(output.shape, output.dtype(), seed)
            &&& seed is Ok
            &&& #[trigger] accumulates::<S, B>(
                nodes,
                w,
                output,
                seed->Ok_0,
                before,
                after,
                a,
            )
            &&& passes(
                a,
                r,
                crate::tensor::gives(r, leaf_pairs::<S>(first_leaves(w.pre), after)),
            )
        }
}

impl<S: Scalars, B: Backward<S>> Tape<S, B> {
    /// Each leaf that the walk from `t` meets, once.
    fn collect_leaves(&self, t: &Tensor<S>) -> (r: Vec<Tensor<S>>)
        requires
            self.wf(),
            self.owns(t@),
        ensures
            views(r@) == first_leaves(self.walk_of(t@).pre),
            self.owns_all(self.walk_of(t@).pre),
            self.owns_all(views(r@)),
    {
        let (pre, _): (Vec<Tensor<S>>, Vec<Tensor<S>>) = self.walk(t);
        let ghost ps = views(pre@);
        let ghost nn = self.nodes().len() as int;
        let ghost ns = self.slots().len() as int;
        proof {
            lemma_walk_within::<S, B>(
                self.nodes(),
                ns,
                t@,
                none_seen(self.nodes().len(), self.slots().len()),
            );
        }
        let mut seen: Vec<bool> = crate::tensor::repeated(false, self.slots.len());
        let mut out: Vec<Tensor<S>> = Vec::new();
        let mut i: usize = 0;
        proof {
            assert(ps.take(0) =~= Seq::<Model<S>>::empty());
            assert(views(out@) =~= Seq::<Model<S>>::empty());
        }
        while i < pre.len()
            invariant
                i <= pre@.len(),
                ps == views(pre@),
                all_within(ps, nn, ns),
                all_within(views(out@), nn, ns),
                seen@.len() == ns,
                views(out@) == first_leaves(ps.take(i as int)),
                forall|l: int| 0 <= l < ns ==> #[trigger] seen@[l] == has_leaf(views(out@), l),
            decreases pre@.len() - i,
        {
            let ghost before = views(out@);
            proof {
                assert(ps.take(i + 1).drop_last() =~= ps.take(i as int));
                assert(ps.take(i + 1).last() == ps[i as int]);
                assert(within(ps[i as int], nn, ns));
            }
            match pre[i].leaf() {
                Some(l) => {
                    if !seen[l] {
                        seen.set(l, true);
                        out.push(pre[i].clone());
                        proof {
                            let more = views(out@);
                            assert(more =~= before.push(ps[i as int]));
                            assert forall|q: int| 0 <= q < ns implies #[trigger] seen@[q]
                                == has_leaf(more, q) by {
                                if has_leaf(before, q) {
                                    let j = choose|j: int|
                                        0 <= j < before.len() && leaf_is(#[trigger] before[j], q);
                                    assert(leaf_is(more[j], q));
                                }
                                if q == l {
                                    assert(leaf_is(more[more.len() - 1], q));
                                }
                                if has_leaf(more, q) && q != l {
                                    let j = choose|j: int|
                                        0 <= j < more.len() && leaf_is(#[trigger] more[j], q);
                                    assert(leaf_is(before[j], q));
                                }
                            }
                            assert forall|j: int| 0 <= j < more.len() implies within(
                                #[trigger] more[j],
                                nn,
                                ns,
                            ) by {
                                if j < before.len() {
                                    assert(more[j] == before[j]);
                                }
                            }
                        }
                    }
                },
                None => {},
            }
            i = i + 1;
        }
        assert(ps.take(i as int) =~= ps);
        out
    }

    /// Empties the slot of a leaf.
    fn clear(&mut self, t: &Tensor<S>, Ghost(ts): Ghost<Seq<Model<S>>>, Ghost(base): Ghost<
        Seq<Option<Model<S>>>,
    >)
        requires
            old(self).wf(),
            old(self).owns(t@),
            old(self).slots() == cleared::<S>(base, ts),
        ensures
            final(self).wf(),
            final(self).nodes() == old(self).nodes(),
            final(self).slots() == cleared::<S>(base, ts.push(t@)),
    {
        let ghost more = ts.push(t@);
        proof {
            assert forall|l: int| has_leaf(more, l) == (has_leaf(ts, l) || leaf_is(t@, l)) by {
                if has_leaf(ts, l) {
                    let j = choose|j: int| 0 <= j < ts.len() && leaf_is(#[trigger] ts[j], l);
                    assert(leaf_is(more[j], l));
                }
                if leaf_is(t@, l) {
                    assert(leaf_is(more[more.len() - 1], l));
                }
                if has_leaf(more, l) && !leaf_is(t@, l) {
                    let j = choose|j: int| 0 <= j < more.len() && leaf_is(#[trigger] more[j], l);
                    assert(leaf_is(ts[j], l));
                }
            }
        }
        match t.leaf() {
            Some(l) => {
                self.slots.set(l, None);
            },
            None => {},
        }
        proof {
            let c = cleared::<S>(base, more);
            assert forall|q: int| 0 <= q < c.len() implies #[trigger] self.slots()[q] == c[q] by {
                assert(old(self).slots()[q] == cleared::<S>(base, ts)[q]);
                assert(has_leaf(more, q) == (has_leaf(ts, q) || leaf_is(t@, q)));
            }
            assert(self.slots() =~= c);
        }
    }

    /// The gradients of the inputs.
    fn collect(&self, inputs: &[&Tensor<S>]) -> (r: Result<Vec<Tensor<S>>, Error>)
        requires
            self.owns_all(models(inputs@)),
            all_leaves(models(inputs@)),
        ensures
            collects::<S>(models(inputs@), self.slots(), parts_outcome(r)),
    {
        let ghost ms = models(inputs@);
        let mut out: Vec<Tensor<S>> = Vec::new();
        let mut i: usize = 0;
        while i < inputs.len()
            invariant
                i <= inputs@.len(),
                ms == models(inputs@),
                self.owns_all(ms),
                all_leaves(ms),
                out@.len() == i,
                forall|j: int|
                    0 <= j < i ==> gradient_of::<S>(ms[j], self.slots(), (#[trigger] out@[j])@),
            decreases inputs@.len() - i,
        {
            assert(ms[i as int] == inputs@[i as int]@);
            assert(within(
                ms[i as int],
                self.nodes().len() as int,
                self.slots().len() as int,
            ));
            assert(ms[i as int].leaf is Some);
            match self.stored(inputs[i]) {
                Some(t) => {
                    out.push(t);
                },
                None => match Tensor::zeros(inputs[i].shape(), inputs[i].dtype()) {
                    Ok(t) => {
                        out.push(t);
                    },
                    Err(e) => {
                        assert(no_zeros::<S>(ms[i as int], self.slots()));
                        return Err(e);
                    },
                },
            }
            i = i + 1;
        }
        proof {
            lemma_collected::<S>(out@, ms, self.slots());
        }
        Ok(out)
    }
}

/// Gradients of tensors are gradients of what they hold.
proof fn lemma_collected<S: Scalars>(
    out: Seq<Tensor<S>>,
    ms: Seq<Model<S>>,
    slots: Seq<Option<Model<S>>>,
)
    requires
        forall|j: int| 0 <= j < out.len() ==> gradient_of::<S>(ms[j], slots, (#[trigger] out[j])@),
    ensures
        all_collected::<S>(ms, slots, views(out)),
{
    assert forall|j: int| 0 <= j < views(out).len() implies gradient_of::<S>(
        ms[j],
        slots,
        #[trigger] views(out)[j],
    ) by {
        assert(views(out)[j] == out[j]@);
    }
}

/// Whether all tensors are leaves.
fn are_leaves<S: Scalars>(inputs: &[&Tensor<S>]) -> (r: bool)
    ensures
        r == all_leaves(models(inputs@)),
{
    let ghost ms = models(inputs@);
    let mut i: usize = 0;
    while i < inputs.len()
        invariant
            i <= inputs@.len(),
            ms == models(inputs@),
            forall|j: int| 0 <= j < i ==> (#[trigger] ms[j]).leaf is Some,
        decreases inputs@.len() - i,
    {
        assert(ms[i as int] == inputs@[i as int]@);
        if inputs[i].leaf().is_none() {
            return false;
        }
        i = i + 1;
    }
    true
}

/// Why `grad` refuses its arguments.
pub open spec fn grad_refused<S: Scalars>(
    output: Model<S>,
    inputs: Seq<Model<S>>,
    e: Error,
) -> bool {
    if count_of(output.shape) != 1 {
        e.says(ErrorKind::Shape, "grad"@, "output must be a scalar (numel==1)"@)
    } else if !output.dtype().floating() {
        e.says(ErrorKind::Dtype, "grad"@, "float output"@)
    } else {
        !all_leaves(inputs) && e.says(
            ErrorKind::Domain,
            "grad"@,
            "inputs must be require_grad leaves"@,
        )
    }
}

/// Checks the arguments of `grad`, empties the slots and gives the seed.
fn ready<S: Scalars, B: Backward<S>>(
    tape: &mut Tape<S, B>,
    output: &Tensor<S>,
    inputs: &[&Tensor<S>],
) -> (r: Result<Tensor<S>, Error>)
    requires
        old(tape).wf(),
        old(tape).owns(output@),
        old(tape).owns_all(models(inputs@)),
    ensures
        final(tape).wf(),
        final(tape).nodes() == old(tape).nodes(),
        final(tape).slots().len() == old(tape).slots().len(),
        match r {
            Ok(seed) => {
                &&& count_of(output@.shape) == 1 && output@.dtype().floating()
                &&& all_leaves(models(inputs@))
                &&& ones_out::<S>(output@.shape, output@.dtype(), Ok(seed@))
                &&& final(tape).slots() == cleared::<S>(
                    old(tape).slots(),
                    old(tape).walk_of(output@).pre + models(inputs@),
                )
            },
            Err(e) => grad_refused::<S>(output@, models(inputs@), e) && final(tape).slots() == old(
                tape,
            ).slots(),
        },
{
    if output.numel() != 1 {
        return Err(Error::shape("grad", "output must be a scalar (numel==1)".to_owned()));
    }
    if !output.dtype().is_float() {
        return Err(Error::dtype("grad", "float output".to_owned()));
    }
    if !are_leaves(inputs) {
        return Err(
            Error::new(
                ErrorKind::Domain,
                "grad",
                "inputs must be require_grad leaves".to_owned(),
            ),
        );
    }
    let seed: Tensor<S> = match Tensor::ones(output.shape(), output.dtype()) {
        Ok(t) => t,
        Err(e) => {
            return Err(e);
        },
    };
    let ghost base = tape.slots();
    let ghost nodes = tape.nodes();
    let ghost w = tape.walk_of(output@);
    let ghost ms = models(inputs@);
    let leaves: Vec<Tensor<S>> = tape.collect_leaves(output);
    let ghost found = views(leaves@);
    proof {
        assert(found.take(0) =~= Seq::<Model<S>>::empty());
        assert(tape.slots() =~= cleared::<S>(base, found.take(0)));
    }
    let mut i: usize = 0;
    while i < leaves.len()
        invariant
            i <= leaves@.len(),
            tape.wf(),
            tape.nodes() == nodes,
            tape.slots().len() == base.len(),
            found == views(leaves@),
            all_within(found, nodes.len() as int, base.len() as int),
            tape.slots() == cleared::<S>(base, found.take(i as int)),
        decreases leaves@.len() - i,
    {
        assert(within(found[i as int], nodes.len() as int, base.len() as int));
        tape.clear(&leaves[i], Ghost(found.take(i as int)), Ghost(base));
        assert(found.take(i as int).push(found[i as int]) =~= found.take(i + 1));
        i = i + 1;
    }
    assert(found.take(i as int) =~= found);
    let mut j: usize = 0;
    assert(found + ms.take(0) =~= found);
    while j < inputs.len()
        invariant
            j <= inputs@.len(),
            tape.wf(),
            tape.nodes() == nodes,
            tape.slots().len() == base.len(),
            ms == models(inputs@),
            all_within(ms, nodes.len() as int, base.len() as int),
            tape.slots() == cleared::<S>(base, found + ms.take(j as int)),
        decreases inputs@.len() - j,
    {
        assert(within(ms[j as int], nodes.len() as int, base.len() as int));
        assert(ms[j as int] == inputs@[j as int]@);
        tape.clear(inputs[j], Ghost(found + ms.take(j as int)), Ghost(base));
        assert((found + ms.take(j as int)).push(ms[j as int]) =~= found + ms.take(j + 1));
        j = j + 1;
    }
    proof {
        assert(ms.take(j as int) =~= ms);
        assert forall|l: int| has_leaf(found + ms, l) == has_leaf(w.pre + ms, l) by {
            lemma_first_leaves(w.pre, l);
            lemma_has_leaf_concat(found, ms, l);
            lemma_has_leaf_concat(w.pre, ms, l);
        }
        assert(tape.slots() =~= cleared::<S>(base, w.pre + ms));
    }
    Ok(seed)
}

/// Functional gradients of the scalar `output` with respect to `inputs`.
///
/// Every call is fresh: before the reverse pass the stored gradients of every leaf that `output`
/// depends on, and of every input, are cleared. An input on which `output` does not depend gets
/// zeros. The gradients stay stored after the call.
pub fn grad<S: Scalars, B: Backward<S>>(
    tape: &mut Tape<S, B>,
    output: &Tensor<S>,
    inputs: &[&Tensor<S>],
) -> (r: Result<Vec<Tensor<S>>, Error>)
    requires
        old(tape).wf(),
        old(tape).owns(output@),
        old(tape).owns_all(models(inputs@)),
    ensures
        final(tape).wf(),
        final(tape).nodes() == old(tape).nodes(),
        final(tape).slots().len() == old(tape).slots().len(),
        grad_out::<S, B>(
            old(tape).nodes(),
            old(tape).walk_of(output@),
            output@,
            models(inputs@),
            old(tape).slots(),
            final(tape).slots(),
            parts_outcome(r),
        ),
{
    let ghost base = tape.slots();
    let ghost nodes = tape.nodes();
    let ghost w = tape.walk_of(output@);
    let ghost ms = models(inputs@);
    let seed: Tensor<S> = match ready(tape, output, inputs) {
        Ok(t) => t,
        Err(e) => {
            return Err(e);
        },
    };
    let a: Result<(), Error> = tape.accumulate(output, &seed);
    proof {
        let o: Outcome<S> = Ok(seed@);
        assert(ones_out::<S>(output@.shape, output@.dtype(), o));
        assert(accumulates::<S, B>(
            nodes,
            w,
            output@,
            o->Ok_0,
            cleared::<S>(base, w.pre + ms),
            tape.slots(),
            a,
        ));
    }
    match a {
        Ok(_) => tape.collect(inputs),
        Err(e) => Err(e),
    }
}

/// A leaf of two lists is a leaf of one of them.
proof fn lemma_has_leaf_concat<F, D>(
    a: Seq<TensorModel<F, D>>,
    b: Seq<TensorModel<F, D>>,
    l: int,
)
    ensures
        has_leaf(a + b, l) == (has_leaf(a, l) || has_leaf(b, l)),
{
    let c = a + b;
    if has_leaf(a, l) {
        let i = choose|i: int| 0 <= i < a.len() && leaf_is(#[trigger] a[i], l);
        assert(leaf_is(c[i], l));
    }
    if has_leaf(b, l) {
        let i = choose|i: int| 0 <= i < b.len() && leaf_is(#[trigger] b[i], l);
        assert(leaf_is(c[a.len() + i], l));
    }
    if has_leaf(c, l) {
        let i = choose|i: int| 0 <= i < c.len() && leaf_is(#[trigger] c[i], l);
        if i < a.len() {
            assert(leaf_is(a[i], l));
        } else {
            assert(leaf_is(b[i - a.len()], l));
        }
    }
}

impl<S: Scalars, B: Backward<S>> Tape<S, B> {
    /// The leaves that the walk from `output` meets, each with its gradient.
    fn pairs(&self, output: &Tensor<S>) -> (r: Vec<(Tensor<S>, Tensor<S>)>)
        requires
            self.wf(),
            self.owns(output@),
        ensures
            pair_views(r@) == leaf_pairs::<S>(
                first_leaves(self.walk_of(output@).pre),
                self.slots(),
            ),
    {
        let leaves: Vec<Tensor<S>> = self.collect_leaves(output);
        let ghost found = views(leaves@);
        let mut pairs: Vec<(Tensor<S>, Tensor<S>)> = Vec::new();
        let mut i: usize = 0;
        proof {
            assert(found.take(0) =~= Seq::<Model<S>>::empty());
            assert(pair_views(pairs@) =~= Seq::<(Model<S>, Model<S>)>::empty());
        }
        while i < leaves.len()
            invariant
                i <= leaves@.len(),
                found == views(leaves@),
                self.owns_all(found),
                pair_views(pairs@) == leaf_pairs::<S>(found.take(i as int), self.slots()),
            decreases leaves@.len() - i,
        {
            let ghost before = pair_views(pairs@);
            proof {
                assert(found.take(i + 1).drop_last() =~= found.take(i as int));
                assert(found.take(i + 1).last() == found[i as int]);
                assert(within(
                    found[i as int],
                    self.nodes().len() as int,
                    self.slots().len() as int,
                ));
            }
            match self.stored(&leaves[i]) {
                Some(g) => {
                    pairs.push((leaves[i].clone(), g));
                    assert(pair_views(pairs@) =~= before.push((found[i as int], g@)));
                },
                None => {},
            }
            i = i + 1;
        }
        assert(found.take(i as int) =~= found);
        pairs
    }
}

/// Runs an accumulating reverse pass and gives the leaves that `output` depends on, each with its
/// gradient.
///
/// Unlike `grad`, each call adds into the gradients already stored; `zero_grad` resets them.
pub fn backward<S: Scalars, B: Backward<S>>(
    tape: &mut Tape<S, B>,
    output: &Tensor<S>,
) -> (r: Result<
    Vec<(Tensor<S>, Tensor<S>)>,
    Error,
>)
    requires
        old(tape).wf(),
        old(tape).owns(output@),
    ensures
        final(tape).wf(),
        final(tape).nodes() == old(tape).nodes(),
        final(tape).slots().len() == old(tape).slots().len(),
        backward_out::<S, B>(
            old(tape).nodes(),
            old(tape).walk_of(output@),
            output@,
            old(tape).slots(),
            final(tape).slots(),
            pairs_outcome(r),
        ),
{
    if output.numel() != 1 {
        return Err(Error::shape("backward", "output must be a scalar".to_owned()));
    }
    let seed: Tensor<S> = match Tensor::ones(output.shape(), output.dtype()) {
        Ok(t) => t,
        Err(e) => {
            return Err(e);
        },
    };
    let ghost base = tape.slots();
    let ghost nodes = tape.nodes();
    let ghost w = tape.walk_of(output@);
    let a: Result<(), Error> = tape.accumulate(output, &seed);
    proof {
        let o: Outcome<S> = Ok(seed@);
        assert(ones_out::<S>(output@.shape, output@.dtype(), o));
        assert(accumulates::<S, B>(nodes, w, output@, o->Ok_0, base, tape.slots(), a));
    }
    match a {
        Ok(_) => {},
        Err(e) => {
            return Err(e);
        },
    }
    Ok(tape.pairs(output))
}

/// Where a reverse pass starts.
pub ghost struct Origin<S: Scalars> {
    pub output: Model<S>,
    pub seed: Model<S>,
    pub slots: Seq<Option<Model<S>>>,
}

impl<S: Scalars> Origin<S> {
    /// The state before the first turn.
    pub open spec fn state(self, nodes: nat) -> Sweep<S> {
        match key_of(self.output) {
            Some(k) => idle::<S>(nodes, self.slots).put(k, Some(self.seed)),
            None => idle::<S>(nodes, self.slots),
        }
    }
}

/// A reverse pass that stops wherever the rule of a node is due, so that whoever runs it can have
/// the rule's work done elsewhere.
pub struct Pass<S: Scalars> {
    post: Vec<Tensor<S>>,
    done: usize,
    waiting: Waiting<S>,
    due: Option<(usize, Tensor<S>)>,
    origin: Ghost<Origin<S>>,
    past: Ghost<Seq<Sweep<S>>>,
    faithful: Ghost<bool>,
}

impl<S: Scalars> Pass<S> {
    /// Where it started.
    pub closed spec fn origin(self) -> Origin<S> {
        self.origin@
    }

    /// Every answer so far was one that the rule of its node can give.
    pub closed spec fn faithful(self) -> bool {
        self.faithful@
    }

    /// The node whose rule is due, and its cotangent.
    pub closed spec fn due(self) -> Option<(usize, Model<S>)> {
        match self.due {
            Some(d) => Some((d.0, d.1@)),
            None => None,
        }
    }

    /// All turns are done.
    pub closed spec fn over(self) -> bool {
        self.due is None && self.done == self.post@.len()
    }

    /// It is a pass over these nodes, and the slots are as its turns left them.
    pub closed spec fn runs<B: Backward<S>>(
        self,
        nodes: Seq<B>,
        slots: Seq<Option<Model<S>>>,
    ) -> bool {
        let ps = views(self.post@);
        let now = self.waiting.state(slots);
        &&& ps == visit::<S, B>(
            nodes,
            self.origin@.output,
            none_seen(nodes.len(), slots.len()),
        ).post
        &&& all_within(ps, nodes.len() as int, slots.len() as int)
        &&& self.origin@.slots.len() == slots.len()
        &&& self.waiting.nodes@.len() == nodes.len()
        &&& self.waiting.leaves@.len() == slots.len()
        &&& self.done <= ps.len()
        &&& self.past@.len() == self.done + 1
        &&& self.past@[0] == self.origin@.state(nodes.len())
        &&& match self.due {
            None => self.past@[self.done as int] == now,
            Some(d) => {
                &&& self.done < ps.len()
                &&& ps[ps.len() - 1 - self.done].grad_fn == Some(d.0)
                &&& half_turn::<S>(
                    ps[ps.len() - 1 - self.done],
                    d.1@,
                    self.past@[self.done as int],
                    now,
                )
            },
        }
        &&& self.faithful@ ==> forall|j: int|
            0 <= j < self.done ==> turn::<S, B>(
                nodes,
                ps[ps.len() - 1 - j],
                self.past@[j],
                #[trigger] self.past@[j + 1],
            )
    }
}

/// `o` is what the rule that is due can give.
pub open spec fn answers<S: Scalars, B: Backward<S>>(
    nodes: Seq<B>,
    due: Option<(usize, Model<S>)>,
    o: Result<Seq<Model<S>>, Error>,
) -> bool {
    match due {
        Some((n, gy)) => nodes[n as int].vjp(gy, o),
        None => false,
    }
}

impl<S: Scalars, B: Backward<S>> Tape<S, B> {
    /// Node `n`.
    pub fn node(&self, n: usize) -> (r: &B)
        requires
            n < self.nodes().len(),
        ensures
            *r == self.nodes()[n as int],
    {
        &self.nodes[n]
    }

    /// A pass from `output` with cotangent `seed`, before its first turn.
    fn start(&self, output: &Tensor<S>, seed: &Tensor<S>) -> (r: Pass<S>)
        requires
            self.wf(),
            self.owns(output@),
        ensures
            r.runs::<B>(self.nodes(), self.slots()),
            r.faithful(),
            r.due() is None,
            r.origin() == (Origin::<S> { output: output@, seed: seed@, slots: self.slots() }),
    {
        let (_, post): (Vec<Tensor<S>>, Vec<Tensor<S>>) = self.walk(output);
        let mut w: Waiting<S> = Waiting {
            nodes: empty_slots(self.nodes.len()),
            leaves: empty_slots(self.slots.len()),
            fault: None,
        };
        let ghost origin = Origin::<S> { output: output@, seed: seed@, slots: self.slots() };
        proof {
            assert(w.state(self.slots()) =~= idle::<S>(self.nodes().len(), self.slots()));
            lemma_walk_within::<S, B>(
                self.nodes(),
                self.slots().len() as int,
                output@,
                none_seen(self.nodes().len(), self.slots().len()),
            );
        }
        match node_key(output) {
            Some(k) => {
                w.set(k, Some(seed.clone()));
            },
            None => {},
        }
        let ghost first = seq![w.state(self.slots())];
        Pass {
            post,
            done: 0,
            waiting: w,
            due: None,
            origin: Ghost(origin),
            past: Ghost(first),
            faithful: Ghost(true),
        }
    }

    /// Runs a pass to where the rule of a node is due, and gives the node and its cotangent; or to
    /// its end.
    pub fn advance(&mut self, pass: &mut Pass<S>) -> (r: Option<(usize, Tensor<S>)>)
        requires
            old(self).wf(),
            old(pass).runs::<B>(old(self).nodes(), old(self).slots()),
            old(pass).due() is None,
        ensures
            final(self).wf(),
            final(self).nodes() == old(self).nodes(),
            final(self).slots().len() == old(self).slots().len(),
            final(pass).runs::<B>(final(self).nodes(), final(self).slots()),
            final(pass).origin() == old(pass).origin(),
            final(pass).faithful() == old(pass).faithful(),
            match r {
                None => final(pass).over(),
                Some(d) => d.0 < final(self).nodes().len() && final(pass).due() == Some(
                    (d.0, d.1@),
                ),
            },
    {
        let n: usize = pass.post.len();
        while pass.done < n
            invariant
                n == pass.post@.len(),
                self.wf(),
                self.nodes() == old(self).nodes(),
                self.slots().len() == old(self).slots().len(),
                pass.runs::<B>(self.nodes(), self.slots()),
                pass.due is None,
                pass.origin() == old(pass).origin(),
                pass.faithful() == old(pass).faithful(),
            decreases n - pass.done,
        {
            let ghost ps = views(pass.post@);
            let ghost was = pass.past@;
            let i: usize = pass.done;
            let t: Tensor<S> = pass.post[n - 1 - i].clone();
            assert(t@ == ps[n - 1 - i]);
            assert(within(ps[n - 1 - i], self.nodes().len() as int, self.slots().len() as int));
            match self.open_turn(&t, &mut pass.waiting) {
                None => {
                    let ghost more = was.push(pass.waiting.state(self.slots()));
                    pass.past = Ghost(more);
                    pass.done = i + 1;
                    proof {
                        if pass.faithful@ {
                            assert forall|j: int| 0 <= j < i + 1 implies turn::<S, B>(
                                self.nodes(),
                                ps[ps.len() - 1 - j],
                                pass.past@[j],
                                #[trigger] pass.past@[j + 1],
                            ) by {
                                if j < i {
                                    assert(pass.past@[j + 1] == was[j + 1]);
                                }
                            }
                        }
                    }
                },
                Some((k, gy)) => {
                    pass.due = Some((k, gy.clone()));
                    return Some((k, gy));
                },
            }
        }
        None
    }

    /// Goes on with a pass whose rule is due: its pieces go to the parents.
    pub fn resume(&self, pass: &mut Pass<S>, parts: Result<Vec<Tensor<S>>, Error>)
        requires
            self.wf(),
            old(pass).runs::<B>(self.nodes(), self.slots()),
            old(pass).due() is Some,
        ensures
            final(pass).runs::<B>(self.nodes(), self.slots()),
            final(pass).origin() == old(pass).origin(),
            final(pass).due() is None,
            final(pass).faithful() == (old(pass).faithful() && answers::<S, B>(
                self.nodes(),
                old(pass).due(),
                parts_outcome(parts),
            )),
    {
        let (n, gy): (usize, Tensor<S>) = match &pass.due {
            Some(d) => (d.0, d.1.clone()),
            None => {
                return;
            },
        };
        let count: usize = pass.post.len();
        let ghost ps = views(pass.post@);
        let ghost was = pass.past@;
        let ghost i = pass.done as int;
        assert(i < count);
        let ghost t = ps[ps.len() - 1 - i];
        assert(within(t, self.nodes().len() as int, self.slots().len() as int));
        let ghost o = parts_outcome(parts);
        let ghost right = self.nodes()[n as int].vjp(gy@, o);
        self.share(n, parts, &mut pass.waiting);
        let ghost now = pass.waiting.state(self.slots());
        let ghost more = was.push(now);
        pass.past = Ghost(more);
        pass.done = pass.done + 1;
        pass.due = None;
        let ghost still = pass.faithful@ && right;
        pass.faithful = Ghost(still);
        proof {
            if pass.faithful@ {
                assert forall|j: int| 0 <= j < i + 1 implies turn::<S, B>(
                    self.nodes(),
                    ps[ps.len() - 1 - j],
                    pass.past@[j],
                    #[trigger] pass.past@[j + 1],
                ) by {
                    if j < i {
                        assert(pass.past@[j + 1] == was[j + 1]);
                    } else {
                        assert(spreads::<S, B>(
                            self.nodes()[n as int],
                            gy@,
                            old(pass).waiting.state(self.slots()),
                            now,
                        ));
                    }
                }
            }
        }
    }

    /// What a pass that is over came to.
    fn settle(&self, pass: Pass<S>) -> (r: Result<(), Error>)
        requires
            pass.runs::<B>(self.nodes(), self.slots()),
            pass.over(),
        ensures
            pass.faithful() ==> accumulates::<S, B>(
                self.nodes(),
                self.walk_of(pass.origin().output),
                pass.origin().output,
                pass.origin().seed,
                pass.origin().slots,
                self.slots(),
                r,
            ),
    {
        proof {
            let ps = views(pass.post@);
            let end = pass.waiting.state(self.slots());
            let start = pass.origin@.state(self.nodes().len());
            if pass.faithful@ {
                assert(sweeps_run::<S, B>(self.nodes(), ps, start, end, pass.past@));
                assert(sweeps::<S, B>(self.nodes(), ps, start, end));
                if key_of(pass.origin@.output) is None {
                    assert(ps.len() == 0);
                    assert(end == start);
                }
            }
        }
        match pass.waiting.fault {
            Some(e) => Err(e),
            None => Ok(()),
        }
    }
}

/// The start of `grad`, to be run in steps: the pass, or why the arguments are refused.
pub fn begin_grad<S: Scalars, B: Backward<S>>(
    tape: &mut Tape<S, B>,
    output: &Tensor<S>,
    inputs: &[&Tensor<S>],
) -> (r: Result<Pass<S>, Error>)
    requires
        old(tape).wf(),
        old(tape).owns(output@),
        old(tape).owns_all(models(inputs@)),
    ensures
        final(tape).wf(),
        final(tape).nodes() == old(tape).nodes(),
        final(tape).slots().len() == old(tape).slots().len(),
        match r {
            Ok(pass) => {
                &&& pass.runs::<B>(final(tape).nodes(), final(tape).slots())
                &&& pass.faithful() && pass.due() is None
                &&& grad_begun::<S, B>(
                    old(tape).nodes(),
                    output@,
                    models(inputs@),
                    old(tape).slots(),
                    pass.origin(),
                )
            },
            Err(e) => grad_refused::<S>(output@, models(inputs@), e) && final(tape).slots() == old(
                tape,
            ).slots(),
        },
{
    match ready(tape, output, inputs) {
        Ok(seed) => Ok(tape.start(output, &seed)),
        Err(e) => Err(e),
    }
}

/// `grad` accepts these arguments, and its pass starts from ones over slots that were emptied first.
pub open spec fn grad_begun<S: Scalars, B: Backward<S>>(
    nodes: Seq<B>,
    output: Model<S>,
    inputs: Seq<Model<S>>,
    before: Seq<Option<Model<S>>>,
    origin: Origin<S>,
) -> bool {
    let w = visit::<S, B>(nodes, output, none_seen(nodes.len(), before.len()));
    &&& count_of(output.shape) == 1 && output.dtype().floating() && all_leaves(inputs)
    &&& origin.output == output
    &&& ones_out::<S>(output.shape, output.dtype(), Ok(origin.seed))
    &&& origin.slots == cleared::<S>(before, w.pre + inputs)
}

/// The end of `grad` that was run in steps. Where every answer was one that the rule of its node can
/// give, this is what `grad` comes to.
pub fn end_grad<S: Scalars, B: Backward<S>>(
    tape: &Tape<S, B>,
    pass: Pass<S>,
    inputs: &[&Tensor<S>],
) -> (r: Result<Vec<Tensor<S>>, Error>)
    requires
        tape.wf(),
        pass.runs::<B>(tape.nodes(), tape.slots()),
        pass.over(),
        tape.owns_all(models(inputs@)),
        all_leaves(models(inputs@)),
    ensures
        pass.faithful() ==> forall|before: Seq<Option<Model<S>>>|
            before.len() == tape.slots().len() && #[trigger] grad_begun::<S, B>(
                tape.nodes(),
                pass.origin().output,
                models(inputs@),
                before,
                pass.origin(),
            ) ==> grad_out::<S, B>(
                tape.nodes(),
                tape.walk_of(pass.origin().output),
                pass.origin().output,
                models(inputs@),
                before,
                tape.slots(),
                parts_outcome(r),
            ),
{
    let ghost origin = pass.origin();
    let ghost faithful = pass.faithful();
    let ghost w = tape.walk_of(origin.output);
    let ghost ms = models(inputs@);
    let a: Result<(), Error> = tape.settle(pass);
    let r: Result<Vec<Tensor<S>>, Error> = match a {
        Ok(_) => tape.collect(inputs),
        Err(e) => Err(e),
    };
    proof {
        if faithful {
            assert forall|before: Seq<Option<Model<S>>>|
                before.len() == tape.slots().len() && #[trigger] grad_begun::<S, B>(
                    tape.nodes(),
                    origin.output,
                    ms,
                    before,
                    origin,
                ) implies grad_out::<S, B>(
                tape.nodes(),
                w,
                origin.output,
                ms,
                before,
                tape.slots(),
                parts_outcome(r),
            ) by {
                let o: Outcome<S> = Ok(origin.seed);
                assert(ones_out::<S>(origin.output.shape, origin.output.dtype(), o));
                assert(accumulates::<S, B>(
                    tape.nodes(),
                    w,
                    origin.output,
                    o->Ok_0,
                    cleared::<S>(before, w.pre + ms),
                    tape.slots(),
                    a,
                ));
            }
        }
    }
    r
}

/// The start of `backward`, to be run in steps: the pass, or why the output is refused.
pub fn begin_backward<S: Scalars, B: Backward<S>>(
    tape: &Tape<S, B>,
    output: &Tensor<S>,
) -> (r: Result<Pass<S>, Error>)
    requires
        tape.wf(),
        tape.owns(output@),
    ensures
        match r {
            Ok(pass) => {
                &&& pass.runs::<B>(tape.nodes(), tape.slots())
                &&& pass.faithful() && pass.due() is None
                &&& backward_begun::<S>(output@, tape.slots(), pass.origin())
            },
            Err(e) => count_of(output@.shape) != 1 && e.says(
                ErrorKind::Shape,
                "backward"@,
                "output must be a scalar"@,
            ),
        },
{
    if output.numel() != 1 {
        return Err(Error::shape("backward", "output must be a scalar".to_owned()));
    }
    match Tensor::ones(output.shape(), output.dtype()) {
        Ok(seed) => Ok(tape.start(output, &seed)),
        Err(e) => Err(e),
    }
}

/// `backward` accepts this output, and its pass starts from ones over the slots as they are.
pub open spec fn backward_begun<S: Scalars>(
    output: Model<S>,
    before: Seq<Option<Model<S>>>,
    origin: Origin<S>,
) -> bool {
    &&& count_of(output.shape) == 1
    &&& origin.output == output
    &&& ones_out::<S>(output.shape, output.dtype(), Ok(origin.seed))
    &&& origin.slots == before
}

/// The end of `backward` that was run in steps. Where every answer was one that the rule of its node
/// can give, this is what `backward` comes to.
pub fn end_backward<S: Scalars, B: Backward<S>>(
    tape: &Tape<S, B>,
    pass: Pass<S>,
    output: &Tensor<S>,
) -> (r: Result<Vec<(Tensor<S>, Tensor<S>)>, Error>)
    requires
        tape.wf(),
        tape.owns(output@),
        pass.runs::<B>(tape.nodes(), tape.slots()),
        pass.over(),
    ensures
        pass.faithful() && backward_begun::<S>(output@, pass.origin().slots, pass.origin())
            ==> backward_out::<S, B>(
            tape.nodes(),
            tape.walk_of(output@),
            output@,
            pass.origin().slots,
            tape.slots(),
            pairs_outcome(r),
        ),
{
    let ghost origin = pass.origin();
    let ghost faithful = pass.faithful();
    let a: Result<(), Error> = tape.settle(pass);
    proof {
        if faithful && backward_begun::<S>(output@, origin.slots, origin) {
            let o: Outcome<S> = Ok(origin.seed);
            assert(ones_out::<S>(output@.shape, output@.dtype(), o));
            assert(accumulates::<S, B>(
                tape.nodes(),
                tape.walk_of(output@),
                output@,
                o->Ok_0,
                origin.slots,
                tape.slots(),
                a,
            ));
        }
    }
    match a {
        Ok(_) => Ok(tape.pairs(output)),
        Err(e) => Err(e),
    }
}

/// Clears the stored gradients of the given leaves.
pub fn zero_grad<S: Scalars, B: Backward<S>>(tape: &mut Tape<S, B>, inputs: &[&Tensor<S>])
    requires
        old(tape).wf(),
        old(tape).owns_all(models(inputs@)),
    ensures
        final(tape).wf(),
        final(tape).nodes() == old(tape).nodes(),
        final(tape).slots() == cleared::<S>(old(tape).slots(), models(inputs@)),
{
    let ghost base = tape.slots();
    let ghost nodes = tape.nodes();
    let ghost ms = models(inputs@);
    let mut j: usize = 0;
    proof {
        assert(ms.take(0) =~= Seq::<Model<S>>::empty());
        assert(tape.slots() =~= cleared::<S>(base, ms.take(0)));
    }
    while j < inputs.len()
        invariant
            j <= inputs@.len(),
            tape.wf(),
            tape.nodes() == nodes,
            tape.slots().len() == base.len(),
            ms == models(inputs@),
            all_within(ms, nodes.len() as int, base.len() as int),
            tape.slots() == cleared::<S>(base, ms.take(j as int)),
        decreases inputs@.len() - j,
    {
        assert(within(ms[j as int], nodes.len() as int, base.len() as int));
        assert(ms[j as int] == inputs@[j as int]@);
        tape.clear(inputs[j], Ghost(ms.take(j as int)), Ghost(base));
        assert(ms.take(j as int).push(ms[j as int]) =~= ms.take(j + 1));
        j = j + 1;
    }
    assert(ms.take(j as int) =~= ms);
}

} // verus!
