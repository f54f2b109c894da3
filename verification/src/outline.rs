//! Shapes along a reverse pass: every gradient has the shape of what it is the gradient of.
use vstd::prelude::*;
use crate::cpu::add_out;
use crate::dag::{lemma_has_leaf_concat, lemma_no_fault, lemma_visit};
use crate::error::{Error, ErrorKind};
use crate::repeat::lemma_hands_no_fault;
use crate::scalar::Scalars;
use crate::shape::joined;
use crate::tape::{
    accumulates, all_within, cleared, collects, grad_out, gradient_of, hands, hands_all, hands_run,
    has_leaf, height, idle, key_of, leaf_is, none_seen, ordered, spreads, stores, sweeps,
    sweeps_run, turn, visit, visit_all, within, Backward, Key, Seen, Sweep,
};
use crate::tensor::{ones_out, passes, Model, Outcome};

verus! {

/// The shape of what each node produced and of each leaf.
pub ghost struct Outline {
    pub nodes: Seq<Seq<usize>>,
    pub leaves: Seq<Seq<usize>>,
}

impl Outline {
    /// The shape that goes with an identity.
    pub open spec fn at(self, k: Key) -> Seq<usize> {
        match k {
            Key::Node(n) => self.nodes[n as int],
            Key::Leaf(l) => self.leaves[l as int],
        }
    }

    /// A tensor has the shape of its node and of its leaf.
    pub open spec fn holds<S: Scalars>(self, t: Model<S>) -> bool {
        &&& t.grad_fn matches Some(n) ==> t.shape == self.nodes[n as int]
        &&& t.leaf matches Some(l) ==> t.shape == self.leaves[l as int]
    }

    /// So have all of a list.
    pub open spec fn holds_all<S: Scalars>(self, ts: Seq<Model<S>>) -> bool {
        forall|i: int| 0 <= i < ts.len() ==> self.holds::<S>(#[trigger] ts[i])
    }

    /// With one node more, which produced this shape.
    pub open spec fn grown(self, shape: Seq<usize>) -> Outline {
        Outline { nodes: self.nodes.push(shape), leaves: self.leaves }
    }

    /// What waits has the shape of what it waits for, and so has what the slots of `ts` hold.
    pub open spec fn covers<S: Scalars>(self, a: Sweep<S>, ts: Seq<Model<S>>) -> bool {
        &&& forall|k: Key|
            self.has(k) && (#[trigger] a.at(k)) is Some ==> a.at(k)->0.shape == self.at(k)
        &&& forall|l: int|
            0 <= l < a.slots.len() && has_leaf(ts, l) && (#[trigger] a.slots[l]) is Some
                ==> a.slots[l]->0.shape == self.leaves[l]
        &&& a.node_grads.len() == self.nodes.len()
        &&& a.leaf_grads.len() == self.leaves.len()
        &&& a.slots.len() == self.leaves.len()
    }

    /// There is a node or leaf of this identity.
    pub open spec fn has(self, k: Key) -> bool {
        match k {
            Key::Node(n) => n < self.nodes.len(),
            Key::Leaf(l) => l < self.leaves.len(),
        }
    }
}

/// The pieces of a cotangent of shape `out` have the shapes of the node's parents.
pub open spec fn node_fits<S: Scalars, B: Backward<S>>(node: B, out: Seq<usize>) -> bool {
    forall|gy: Model<S>, o: Result<Seq<Model<S>>, Error>, i: int|
        #![trigger node.vjp(gy, o), o->Ok_0[i]]
        gy.shape == out && node.vjp(gy, o) && o is Ok && 0 <= i < o->Ok_0.len() && i
            < node.sources().len() ==> o->Ok_0[i].shape == node.sources()[i].shape
}

/// Every tensor that the nodes hold has the shape of its node and of its leaf, and the pieces of
/// every node have the shapes of its parents.
pub open spec fn nodes_fit<S: Scalars, B: Backward<S>>(nodes: Seq<B>, shapes: Outline) -> bool {
    forall|n: int|
        0 <= n < nodes.len() ==> shapes.holds_all::<S>((#[trigger] nodes[n]).sources())
            && node_fits::<S, B>(nodes[n], shapes.nodes[n])
}

/// A sum of two tensors of one shape has that shape.
pub proof fn law_sum_keeps_shape<S: Scalars>(a: Model<S>, b: Model<S>, t: Model<S>)
    requires
        a.shape == b.shape,
        add_out::<S>(a, b, Ok(t)),
    ensures
        t.shape == a.shape,
{
    assert(joined(a.shape, a.shape) =~= a.shape);
}

/// A walk meets only tensors that have the shape of their node and of their leaf.
proof fn lemma_walk_holds<S: Scalars, B: Backward<S>>(
    nodes: Seq<B>,
    slots: int,
    shapes: Outline,
    t: Model<S>,
    seen: Seen,
)
    requires
        ordered::<S, B>(nodes, slots),
        nodes_fit::<S, B>(nodes, shapes),
        within(t, nodes.len() as int, slots),
        shapes.holds::<S>(t),
    ensures
        shapes.holds_all::<S>(visit::<S, B>(nodes, t, seen).post),
    decreases height(t), 0int, 0int,
{
    if key_of(t) is Some && !seen.has(key_of(t)->0) && t.grad_fn is Some {
        let n = t.grad_fn->0;
        assert(all_within(nodes[n as int].sources(), n as int, slots));
        lemma_walk_all_holds::<S, B>(
            nodes,
            slots,
            shapes,
            nodes[n as int].sources(),
            n as int,
            seen.with(key_of(t)->0),
        );
    }
}

proof fn lemma_walk_all_holds<S: Scalars, B: Backward<S>>(
    nodes: Seq<B>,
    slots: int,
    shapes: Outline,
    ts: Seq<Model<S>>,
    bound: int,
    seen: Seen,
)
    requires
        ordered::<S, B>(nodes, slots),
        nodes_fit::<S, B>(nodes, shapes),
        all_within(ts, bound, slots),
        bound <= nodes.len(),
        shapes.holds_all::<S>(ts),
    ensures
        shapes.holds_all::<S>(visit_all::<S, B>(nodes, ts, bound, seen).post),
    decreases bound, 1int, ts.len(),
{
    if ts.len() > 0 && height(ts[0]) <= bound {
        assert(within(ts[0], bound, slots));
        lemma_walk_holds::<S, B>(nodes, slots, shapes, ts[0], seen);
        let a = visit::<S, B>(nodes, ts[0], seen);
        let rest = ts.skip(1);
        assert forall|i: int| 0 <= i < rest.len() implies within(
            #[trigger] rest[i],
            bound,
            slots,
        ) && shapes.holds::<S>(rest[i]) by {
            assert(rest[i] == ts[i + 1]);
        }
        lemma_walk_all_holds::<S, B>(nodes, slots, shapes, rest, bound, a.seen);
        let b = visit_all::<S, B>(nodes, rest, bound, a.seen);
        let post = a.post + b.post;
        assert forall|i: int| 0 <= i < post.len() implies shapes.holds::<S>(#[trigger] post[i]) by {
            if i < a.post.len() {
                assert(post[i] == a.post[i]);
            } else {
                assert(post[i] == b.post[i - a.post.len()]);
            }
        }
    }
}

/// Handing out one piece of its parent's shape.
proof fn lemma_hands_covers<S: Scalars>(
    shapes: Outline,
    ts: Seq<Model<S>>,
    p: Model<S>,
    part: Model<S>,
    a: Sweep<S>,
    b: Sweep<S>,
)
    requires
        hands::<S>(p, part, a, b),
        b.fault is None,
        shapes.holds::<S>(p),
        within(p, shapes.nodes.len() as int, shapes.leaves.len() as int),
        part.shape == p.shape,
        shapes.covers::<S>(a, ts),
    ensures
        shapes.covers::<S>(b, ts),
{
    if key_of(p) is Some {
        let k = key_of(p)->0;
        assert(shapes.has(k));
        assert(shapes.at(k) == p.shape);
        if a.at(k) is Some {
            let prev = a.at(k)->0;
            let o = choose|o: Outcome<S>| #[trigger]
                add_out::<S>(prev, part, o) && b == if o is Ok {
                    a.put(k, Some(o->Ok_0))
                } else {
                    a.put(k, None).failed(o->Err_0)
                };
            law_sum_keeps_shape::<S>(prev, part, o->Ok_0);
            lemma_put_covers::<S>(shapes, ts, a, k, Some(o->Ok_0));
        } else {
            lemma_put_covers::<S>(shapes, ts, a, k, Some(part));
        }
    }
}

proof fn lemma_put_covers<S: Scalars>(
    shapes: Outline,
    ts: Seq<Model<S>>,
    a: Sweep<S>,
    k: Key,
    v: Option<Model<S>>,
)
    requires
        shapes.covers::<S>(a, ts),
        shapes.has(k),
        v is Some ==> v->0.shape == shapes.at(k),
    ensures
        shapes.covers::<S>(a.put(k, v), ts),
{
    let b = a.put(k, v);
    assert forall|j: Key| shapes.has(j) && (#[trigger] b.at(j)) is Some implies b.at(j)->0.shape
        == shapes.at(j) by {
        if j != k {
            assert(b.at(j) == a.at(j));
        }
    }
    assert forall|l: int|
        0 <= l < b.slots.len() && has_leaf(ts, l) && (#[trigger] b.slots[l]) is Some implies
        b.slots[l]->0.shape == shapes.leaves[l] by {
        assert(a.slots[l] is Some);
    }
}

proof fn lemma_run_covers<S: Scalars>(
    shapes: Outline,
    ts: Seq<Model<S>>,
    ps: Seq<Model<S>>,
    parts: Seq<Model<S>>,
    a: Sweep<S>,
    b: Sweep<S>,
    st: Seq<Sweep<S>>,
    n: int,
)
    requires
        hands_run::<S>(ps, parts, a, b, st),
        b.fault is None,
        shapes.holds_all::<S>(ps),
        all_within(ps, shapes.nodes.len() as int, shapes.leaves.len() as int),
        forall|i: int| 0 <= i < ps.len() ==> (#[trigger] parts[i]).shape == ps[i].shape,
        shapes.covers::<S>(a, ts),
        0 <= n <= ps.len(),
    ensures
        shapes.covers::<S>(st[n], ts),
    decreases n,
{
    if n > 0 {
        lemma_run_covers::<S>(shapes, ts, ps, parts, a, b, st, n - 1);
        lemma_hands_no_fault::<S>(ps, parts, a, b, st, n);
        assert(hands::<S>(ps[n - 1], parts[n - 1], st[n - 1], st[n - 1 + 1]));
        assert(shapes.holds::<S>(ps[n - 1]));
        assert(within(ps[n - 1], shapes.nodes.len() as int, shapes.leaves.len() as int));
        lemma_hands_covers::<S>(shapes, ts, ps[n - 1], parts[n - 1], st[n - 1], st[n]);
    }
}

proof fn lemma_turn_covers<S: Scalars, B: Backward<S>>(
    nodes: Seq<B>,
    shapes: Outline,
    ts: Seq<Model<S>>,
    t: Model<S>,
    a: Sweep<S>,
    b: Sweep<S>,
)
    requires
        nodes_fit::<S, B>(nodes, shapes),
        ordered::<S, B>(nodes, shapes.leaves.len() as int),
        nodes.len() == shapes.nodes.len(),
        turn::<S, B>(nodes, t, a, b),
        b.fault is None,
        shapes.holds::<S>(t),
        within(t, shapes.nodes.len() as int, shapes.leaves.len() as int),
        t.leaf matches Some(l) ==> has_leaf(ts, l as int),
        shapes.covers::<S>(a, ts),
    ensures
        shapes.covers::<S>(b, ts),
{
    if !(a.fault is Some || key_of(t) is None || a.at(key_of(t)->0) is None) {
        let k = key_of(t)->0;
        let gy = a.at(k)->0;
        let c = a.put(k, None);
        assert(shapes.has(k));
        lemma_put_covers::<S>(shapes, ts, a, k, None);
        assert(gy.shape == t.shape);
        let m = choose|m: Sweep<S>| #[trigger]
            stores::<S>(t, gy, c, m) && if m.fault is Some || t.grad_fn is None {
                b == m
            } else {
                spreads::<S, B>(nodes[t.grad_fn->0 as int], gy, m, b)
            };
        assert(m.fault is None);
        assert(shapes.covers::<S>(m, ts)) by {
            if t.leaf is Some {
                let l = t.leaf->0;
                let prev = c.slots[l as int];
                if prev is Some {
                    let o = choose|o: Outcome<S>| #[trigger]
                        add_out::<S>(prev->0, gy, o) && m == if o is Ok {
                            c.keep(l, Some(o->Ok_0))
                        } else {
                            c.keep(l, None).failed(o->Err_0)
                        };
                    law_sum_keeps_shape::<S>(prev->0, gy, o->Ok_0);
                }
                assert forall|j: Key| shapes.has(j) && (#[trigger] m.at(j)) is Some implies m.at(
                    j,
                )->0.shape == shapes.at(j) by {
                    assert(m.at(j) == c.at(j));
                }
                assert forall|i: int|
                    0 <= i < m.slots.len() && has_leaf(ts, i) && (
                    #[trigger] m.slots[i]) is Some implies m.slots[i]->0.shape
                    == shapes.leaves[i] by {
                    if i != l {
                        assert(m.slots[i] == c.slots[i]);
                    }
                }
            }
        }
        if t.grad_fn is Some {
            let n = t.grad_fn->0 as int;
            let node = nodes[n];
            let ps = node.sources();
            let o = choose|o: Result<Seq<Model<S>>, Error>| #[trigger]
                node.vjp(gy, o) && if o is Err {
                    b == m.failed(o->Err_0)
                } else if o->Ok_0.len() != ps.len() {
                    &&& b.fault is Some && b == m.failed(b.fault->0)
                    &&& b.fault->0.says(
                        ErrorKind::Domain,
                        node.title(),
                        "backward arity mismatch"@,
                    )
                } else {
                    hands_all::<S>(ps, o->Ok_0, m, b)
                };
            let parts = o->Ok_0;
            let st = choose|st: Seq<Sweep<S>>| #[trigger] hands_run::<S>(ps, parts, m, b, st);
            assert(shapes.holds_all::<S>(ps) && node_fits::<S, B>(node, shapes.nodes[n]));
            assert(all_within(ps, n, shapes.leaves.len() as int));
            assert forall|i: int| 0 <= i < ps.len() implies (#[trigger] parts[i]).shape
                == ps[i].shape by {
                assert(o->Ok_0[i] == parts[i]);
            }
            assert forall|i: int| 0 <= i < ps.len() implies within(
                #[trigger] ps[i],
                shapes.nodes.len() as int,
                shapes.leaves.len() as int,
            ) by {
                assert(within(ps[i], n, shapes.leaves.len() as int));
            }
            lemma_run_covers::<S>(shapes, ts, ps, parts, m, b, st, ps.len() as int);
        }
    }
}

proof fn lemma_sweep_covers<S: Scalars, B: Backward<S>>(
    nodes: Seq<B>,
    shapes: Outline,
    ts: Seq<Model<S>>,
    post: Seq<Model<S>>,
    a: Sweep<S>,
    b: Sweep<S>,
    st: Seq<Sweep<S>>,
    n: int,
)
    requires
        nodes_fit::<S, B>(nodes, shapes),
        ordered::<S, B>(nodes, shapes.leaves.len() as int),
        nodes.len() == shapes.nodes.len(),
        sweeps_run::<S, B>(nodes, post, a, b, st),
        b.fault is None,
        shapes.holds_all::<S>(post),
        all_within(post, shapes.nodes.len() as int, shapes.leaves.len() as int),
        forall|l: int| #[trigger] has_leaf(post, l) ==> has_leaf(ts, l),
        shapes.covers::<S>(a, ts),
        0 <= n <= post.len(),
    ensures
        shapes.covers::<S>(st[n], ts),
    decreases n,
{
    if n > 0 {
        lemma_sweep_covers::<S, B>(nodes, shapes, ts, post, a, b, st, n - 1);
        lemma_no_fault::<S, B>(nodes, post, a, b, st, n);
        let j = post.len() - 1 - (n - 1);
        let t = post[j];
        assert(turn::<S, B>(nodes, t, st[n - 1], st[n - 1 + 1]));
        assert(shapes.holds::<S>(t));
        assert(within(t, shapes.nodes.len() as int, shapes.leaves.len() as int));
        if t.leaf is Some {
            assert(leaf_is(post[j], t.leaf->0 as int));
            assert(has_leaf(post, t.leaf->0 as int));
        }
        lemma_turn_covers::<S, B>(nodes, shapes, ts, t, st[n - 1], st[n]);
    }
}

/// Gradient `i` of `grad` has the shape of input `i`, over any graph whose tensors have the shapes
/// of their nodes and leaves and whose nodes hand out pieces of their parents' shapes.
pub proof fn law_gradients_have_input_shapes<S: Scalars, B: Backward<S>>(
    nodes: Seq<B>,
    shapes: Outline,
    output: Model<S>,
    inputs: Seq<Model<S>>,
    before: Seq<Option<Model<S>>>,
    after: Seq<Option<Model<S>>>,
    gs: Seq<Model<S>>,
)
    requires
        nodes_fit::<S, B>(nodes, shapes),
        shapes.holds::<S>(output),
        shapes.holds_all::<S>(inputs),
        shapes.nodes.len() == nodes.len(),
        shapes.leaves.len() == before.len(),
        ordered::<S, B>(nodes, before.len() as int),
        within(output, nodes.len() as int, before.len() as int),
        all_within(inputs, nodes.len() as int, before.len() as int),
        before.len() <= usize::MAX,
        grad_out::<S, B>(
            nodes,
            visit::<S, B>(nodes, output, none_seen(nodes.len(), before.len())),
            output,
            inputs,
            before,
            after,
            Ok(gs),
        ),
    ensures
        gs.len() == inputs.len(),
        forall|i: int| 0 <= i < gs.len() ==> (#[trigger] gs[i]).shape == inputs[i].shape,
{
    let seen = none_seen(nodes.len(), before.len());
    let w = visit::<S, B>(nodes, output, seen);
    let ts = w.pre + inputs;
    let base = cleared::<S>(before, ts);
    let (seed, a) = choose|seed: Outcome<S>, a: Result<(), Error>|
        {
            &&& #[trigger] ones_out::<S>(output.shape, output.dtype(), seed)
            &&& seed is Ok
            &&& #[trigger] accumulates::<S, B>(nodes, w, output, seed->Ok_0, base, after, a)
            &&& passes(
                a,
                Ok::<Seq<Model<S>>, Error>(gs),
                collects::<S>(inputs, after, Ok::<Seq<Model<S>>, Error>(gs)),
            )
        };
    let rest = idle::<S>(nodes.len(), base);
    assert(shapes.covers::<S>(rest, ts)) by {
        assert forall|k: Key| shapes.has(k) implies (#[trigger] rest.at(k)) is None by {}
    }
    assert(after.len() == before.len() && forall|l: int|
        0 <= l < after.len() && has_leaf(ts, l) && (#[trigger] after[l]) is Some
            ==> after[l]->0.shape == shapes.leaves[l]) by {
        if key_of(output) is Some {
            let k = key_of(output)->0;
            let start = rest.put(k, Some(seed->Ok_0));
            assert(shapes.has(k));
            lemma_put_covers::<S>(shapes, ts, rest, k, Some(seed->Ok_0));
            let end = choose|end: Sweep<S>| #[trigger]
                sweeps::<S, B>(nodes, w.post, start, end) && after == end.slots && match a {
                    Ok(_) => end.fault is None,
                    Err(e) => end.fault == Some(e),
                };
            let st = choose|st: Seq<Sweep<S>>| #[trigger]
                sweeps_run::<S, B>(nodes, w.post, start, end, st);
            lemma_visit::<S, B>(nodes, before.len() as int, output, seen);
            lemma_walk_holds::<S, B>(nodes, before.len() as int, shapes, output, seen);
            assert forall|l: int| #[trigger] has_leaf(w.post, l) implies has_leaf(ts, l) by {
                assert(has_leaf(w.pre, l));
                lemma_has_leaf_concat(w.pre, inputs, l);
            }
            lemma_sweep_covers::<S, B>(
                nodes,
                shapes,
                ts,
                w.post,
                start,
                end,
                st,
                w.post.len() as int,
            );
        }
    }
    assert forall|i: int| 0 <= i < gs.len() implies (#[trigger] gs[i]).shape == inputs[i].shape by {
        let x = inputs[i];
        assert(gradient_of::<S>(x, after, gs[i]));
        assert(shapes.holds::<S>(x));
        assert(within(x, nodes.len() as int, before.len() as int));
        let l = x.leaf->0 as int;
        assert(leaf_is(ts[w.pre.len() + i], l));
        assert(has_leaf(ts, l));
        assert(after[l] is Some ==> after[l]->0.shape == shapes.leaves[l]);
    }
}

} // verus!
