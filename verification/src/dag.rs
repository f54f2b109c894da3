//! What holds of every walk and every reverse pass over a recorded graph.
use vstd::prelude::*;
use crate::cpu::add_out;
use crate::error::Error;
use crate::scalar::Scalars;
use crate::tape::{
    accumulates, all_within, cleared, collects, fresh_pass, grad_out, gradient_of, hands,
    hands_all, hands_run, has_leaf, height, idle, key_of, leaf_is, none_seen, ordered, spreads,
    stores, sweeps, sweeps_run, turn, turns, visit, visit_all, within, Backward, Key, Seen, Sweep,
    Walk,
};
use crate::tensor::{ones_out, zeros_out, Model, Outcome, TensorModel};

verus! {

/// One of the tensors is `k`.
pub open spec fn has_key<F, D>(ts: Seq<TensorModel<F, D>>, k: Key) -> bool {
    exists|i: int| 0 <= i < ts.len() && key_of(#[trigger] ts[i]) == Some(k)
}

/// There is such a node or leaf.
pub open spec fn key_in(k: Key, nodes: int, slots: int) -> bool {
    match k {
        Key::Node(n) => n < nodes,
        Key::Leaf(l) => l < slots,
    }
}

/// Every tensor of the list is met once.
pub open spec fn keys_differ<F, D>(ts: Seq<TensorModel<F, D>>) -> bool {
    forall|i: int, j: int|
        0 <= i < j < ts.len() ==> key_of(#[trigger] ts[i]) != key_of(#[trigger] ts[j])
}

/// What the node of `t` takes its pieces to.
pub open spec fn parents_of<S: Scalars, B: Backward<S>>(nodes: Seq<B>, t: Model<S>) -> Seq<
    Model<S>,
> {
    match t.grad_fn {
        Some(n) => nodes[n as int].sources(),
        None => Seq::empty(),
    }
}

/// The parents of every tensor of the list were met before it, in the list or before the list.
pub open spec fn parents_first<S: Scalars, B: Backward<S>>(
    nodes: Seq<B>,
    ts: Seq<Model<S>>,
    seen: Seen,
) -> bool {
    forall|i: int, q: int|
        0 <= i < ts.len() && 0 <= q < parents_of::<S, B>(nodes, ts[i]).len() ==> met_before::<S>(
            ts,
            seen,
            i,
            #[trigger] parents_of::<S, B>(nodes, ts[i])[q],
        )
}

/// `p` has no identity, was met before, or comes before place `i`.
pub open spec fn met_before<S: Scalars>(
    ts: Seq<Model<S>>,
    seen: Seen,
    i: int,
    p: Model<S>,
) -> bool {
    key_of(p) is Some ==> seen.has(key_of(p)->0) || has_key(ts.take(i), key_of(p)->0)
}

/// Marks for every node and leaf.
pub open spec fn marks_all(seen: Seen, nodes: int, slots: int) -> bool {
    seen.nodes.len() == nodes && seen.leaves.len() == slots
}

/// What holds of a walk that met `seen` before.
pub open spec fn walk_holds<S: Scalars, B: Backward<S>>(
    nodes: Seq<B>,
    slots: int,
    seen: Seen,
    w: Walk<S::F, S::D>,
    bound: int,
) -> bool {
    &&& marks_all(w.seen, nodes.len() as int, slots)
    &&& all_within(w.post, nodes.len() as int, slots)
    &&& forall|k: Key|
        key_in(k, nodes.len() as int, slots) ==> (#[trigger] w.seen.has(k) <==> seen.has(k)
            || has_key(w.post, k))
    &&& forall|i: int|
        0 <= i < w.post.len() ==> key_of(#[trigger] w.post[i]) is Some && !seen.has(
            key_of(w.post[i])->0,
        ) && height(w.post[i]) <= bound
    &&& keys_differ(w.post)
    &&& parents_first::<S, B>(nodes, w.post, seen)
    &&& forall|l: int| has_leaf(w.pre, l) == #[trigger] has_leaf(w.post, l)
}

/// A list and one more.
proof fn lemma_has_key_push<F, D>(ts: Seq<TensorModel<F, D>>, t: TensorModel<F, D>, k: Key)
    ensures
        has_key(ts.push(t), k) == (has_key(ts, k) || key_of(t) == Some(k)),
{
    let more = ts.push(t);
    if has_key(ts, k) {
        let i = choose|i: int| 0 <= i < ts.len() && key_of(#[trigger] ts[i]) == Some(k);
        assert(key_of(more[i]) == Some(k));
    }
    if key_of(t) == Some(k) {
        assert(key_of(more[more.len() - 1]) == Some(k));
    }
    if has_key(more, k) && key_of(t) != Some(k) {
        let i = choose|i: int| 0 <= i < more.len() && key_of(#[trigger] more[i]) == Some(k);
        assert(key_of(ts[i]) == Some(k));
    }
}

/// Two lists.
proof fn lemma_has_key_concat<F, D>(
    a: Seq<TensorModel<F, D>>,
    b: Seq<TensorModel<F, D>>,
    k: Key,
)
    ensures
        has_key(a + b, k) == (has_key(a, k) || has_key(b, k)),
{
    let c = a + b;
    if has_key(a, k) {
        let i = choose|i: int| 0 <= i < a.len() && key_of(#[trigger] a[i]) == Some(k);
        assert(key_of(c[i]) == Some(k));
    }
    if has_key(b, k) {
        let i = choose|i: int| 0 <= i < b.len() && key_of(#[trigger] b[i]) == Some(k);
        assert(key_of(c[a.len() + i]) == Some(k));
    }
    if has_key(c, k) {
        let i = choose|i: int| 0 <= i < c.len() && key_of(#[trigger] c[i]) == Some(k);
        if i < a.len() {
            assert(key_of(a[i]) == Some(k));
        } else {
            assert(key_of(b[i - a.len()]) == Some(k));
        }
    }
}

/// Leaves of two lists.
pub(crate) proof fn lemma_has_leaf_concat<F, D>(
    a: Seq<TensorModel<F, D>>,
    b: Seq<TensorModel<F, D>>,
    l: int,
)
    ensures
        has_leaf(a + b, l) == (has_leaf(a, l) || has_leaf(b, l)),
{
    let c = a + b;
    if has_leaf(a, l) {
        let i = choose|i: int| 0 <= i < a.len() && leaf_is(#[trigger] a[i], l);
        assert(leaf_is(c[i], l));
    }
    if has_leaf(b, l) {
        let i = choose|i: int| 0 <= i < b.len() && leaf_is(#[trigger] b[i], l);
        assert(leaf_is(c[a.len() + i], l));
    }
    if has_leaf(c, l) {
        let i = choose|i: int| 0 <= i < c.len() && leaf_is(#[trigger] c[i], l);
        if i < a.len() {
            assert(leaf_is(a[i], l));
        } else {
            assert(leaf_is(b[i - a.len()], l));
        }
    }
}

/// A walk from one tensor.
pub(crate) proof fn lemma_visit<S: Scalars, B: Backward<S>>(
    nodes: Seq<B>,
    slots: int,
    t: Model<S>,
    seen: Seen,
)
    requires
        ordered::<S, B>(nodes, slots),
        within(t, nodes.len() as int, slots),
        marks_all(seen, nodes.len() as int, slots),
        slots <= usize::MAX,
    ensures
        walk_holds::<S, B>(nodes, slots, seen, visit::<S, B>(nodes, t, seen), height(t)),
        key_of(t) is Some ==> visit::<S, B>(nodes, t, seen).seen.has(key_of(t)->0),
        key_of(t) is Some && !seen.has(key_of(t)->0) ==> visit::<S, B>(
            nodes,
            t,
            seen,
        ).post.len() > 0 && visit::<S, B>(nodes, t, seen).post.last() == t,
    decreases height(t), 0int, 0int,
{
    let w = visit::<S, B>(nodes, t, seen);
    let nn = nodes.len() as int;
    if key_of(t) is None || seen.has(key_of(t)->0) {
        assert forall|k: Key| key_in(k, nn, slots) implies (#[trigger] w.seen.has(k) <==> seen.has(k)
            || has_key(w.post, k)) by {}
    } else {
        let k0 = key_of(t)->0;
        let s1 = seen.with(k0);
        let ps = parents_of::<S, B>(nodes, t);
        let v = match t.grad_fn {
            Some(n) => visit_all::<S, B>(nodes, ps, n as int, s1),
            None => Walk { pre: Seq::empty(), post: Seq::empty(), seen: s1 },
        };
        let bound = match t.grad_fn {
            Some(n) => n as int,
            None => -1,
        };
        assert(key_in(k0, nn, slots));
        if t.grad_fn is Some {
            assert(all_within(nodes[t.grad_fn->0 as int].sources(), bound, slots));
            lemma_visit_all::<S, B>(nodes, slots, ps, bound, s1);
        }
        assert(walk_holds::<S, B>(nodes, slots, s1, v, bound));
        assert(w.post == v.post.push(t));
        assert(w.pre == seq![t] + v.pre);
        assert forall|k: Key| key_in(k, nn, slots) implies (#[trigger] w.seen.has(k) <==> seen.has(k)
            || has_key(w.post, k)) by {
            lemma_has_key_push(v.post, t, k);
            assert(s1.has(k) == (seen.has(k) || k == k0));
            assert(v.seen.has(k) <==> s1.has(k) || has_key(v.post, k));
        }
        assert forall|i: int| 0 <= i < w.post.len() implies key_of(#[trigger] w.post[i]) is Some
            && !seen.has(key_of(w.post[i])->0) && height(w.post[i]) <= height(t) by {
            if i < v.post.len() {
                assert(w.post[i] == v.post[i]);
                let k = key_of(v.post[i])->0;
                assert(within(v.post[i], nn, slots));
                assert(s1.has(k) == (seen.has(k) || k == k0));
            }
        }
        assert forall|i: int, j: int| 0 <= i < j < w.post.len() implies key_of(
            #[trigger] w.post[i],
        ) != key_of(#[trigger] w.post[j]) by {
            assert(w.post[i] == v.post[i]);
            if j < v.post.len() {
                assert(w.post[j] == v.post[j]);
            } else {
                assert(!s1.has(key_of(v.post[i])->0));
            }
        }
        assert forall|i: int, q: int|
            0 <= i < w.post.len() && 0 <= q < parents_of::<S, B>(nodes, w.post[i]).len() implies
            met_before::<S>(
            w.post,
            seen,
            i,
            #[trigger] parents_of::<S, B>(nodes, w.post[i])[q],
        ) by {
            let u = w.post[i];
            let p = parents_of::<S, B>(nodes, u)[q];
            let n = u.grad_fn->0 as int;
            assert(all_within(nodes[n].sources(), n, slots));
            assert(within(p, n, slots));
            if key_of(p) is Some {
                let kp = key_of(p)->0;
                if i < v.post.len() {
                    assert(u == v.post[i]);
                    assert(met_before::<S>(
                        v.post,
                        s1,
                        i,
                        parents_of::<S, B>(nodes, v.post[i])[q],
                    ));
                    assert(w.post.take(i) =~= v.post.take(i));
                    assert(height(u) <= bound);
                    assert(kp != k0);
                    assert(s1.has(kp) == seen.has(kp));
                } else {
                    assert(u == t);
                    assert(w.post.take(i) =~= v.post);
                    assert(kp != k0);
                    assert(v.seen.has(kp));
                    assert(s1.has(kp) == seen.has(kp));
                }
            }
        }
        assert forall|l: int| has_leaf(w.pre, l) == #[trigger] has_leaf(w.post, l) by {
            lemma_has_leaf_concat(seq![t], v.pre, l);
            lemma_has_leaf_concat(v.post, seq![t], l);
            assert(v.post + seq![t] =~= w.post);
            assert(has_leaf(v.pre, l) == has_leaf(v.post, l));
        }
        assert forall|i: int| 0 <= i < w.post.len() implies within(
            #[trigger] w.post[i],
            nn,
            slots,
        ) by {
            if i < v.post.len() {
                assert(w.post[i] == v.post[i]);
            }
        }
    }
}

/// A walk from several tensors.
proof fn lemma_visit_all<S: Scalars, B: Backward<S>>(
    nodes: Seq<B>,
    slots: int,
    ts: Seq<Model<S>>,
    bound: int,
    seen: Seen,
)
    requires
        ordered::<S, B>(nodes, slots),
        all_within(ts, bound, slots),
        0 <= bound <= nodes.len(),
        marks_all(seen, nodes.len() as int, slots),
        slots <= usize::MAX,
    ensures
        walk_holds::<S, B>(nodes, slots, seen, visit_all::<S, B>(nodes, ts, bound, seen), bound),
        forall|i: int|
            0 <= i < ts.len() && key_of(#[trigger] ts[i]) is Some ==> visit_all::<S, B>(
                nodes,
                ts,
                bound,
                seen,
            ).seen.has(key_of(ts[i])->0),
    decreases bound, 1int, ts.len(),
{
    let w = visit_all::<S, B>(nodes, ts, bound, seen);
    let nn = nodes.len() as int;
    if ts.len() == 0 {
        assert forall|k: Key| key_in(k, nn, slots) implies (#[trigger] w.seen.has(k) <==> seen.has(k)
            || has_key(w.post, k)) by {}
    } else {
        assert(within(ts[0], bound, slots));
        let a = visit::<S, B>(nodes, ts[0], seen);
        lemma_visit::<S, B>(nodes, slots, ts[0], seen);
        let rest = ts.skip(1);
        assert forall|i: int| 0 <= i < rest.len() implies within(
            #[trigger] rest[i],
            bound,
            slots,
        ) by {
            assert(rest[i] == ts[i + 1]);
        }
        lemma_visit_all::<S, B>(nodes, slots, rest, bound, a.seen);
        let b = visit_all::<S, B>(nodes, rest, bound, a.seen);
        assert(w.post == a.post + b.post);
        let na = a.post.len() as int;
        assert forall|k: Key| key_in(k, nn, slots) implies (#[trigger] w.seen.has(k) <==> seen.has(k)
            || has_key(w.post, k)) by {
            lemma_has_key_concat(a.post, b.post, k);
            assert(a.seen.has(k) <==> seen.has(k) || has_key(a.post, k));
        }
        assert forall|i: int| 0 <= i < w.post.len() implies key_of(#[trigger] w.post[i]) is Some
            && !seen.has(key_of(w.post[i])->0) && height(w.post[i]) <= bound by {
            if i < na {
                assert(w.post[i] == a.post[i]);
            } else {
                assert(w.post[i] == b.post[i - na]);
                let k = key_of(b.post[i - na])->0;
                assert(within(b.post[i - na], nn, slots));
                assert(a.seen.has(k) <==> seen.has(k) || has_key(a.post, k));
            }
        }
        assert forall|i: int, j: int| 0 <= i < j < w.post.len() implies key_of(
            #[trigger] w.post[i],
        ) != key_of(#[trigger] w.post[j]) by {
            if j < na {
                assert(w.post[i] == a.post[i] && w.post[j] == a.post[j]);
            } else if i >= na {
                assert(w.post[i] == b.post[i - na] && w.post[j] == b.post[j - na]);
            } else {
                assert(w.post[i] == a.post[i] && w.post[j] == b.post[j - na]);
                let k = key_of(a.post[i])->0;
                assert(within(a.post[i], nn, slots));
                assert(has_key(a.post, k));
                assert(a.seen.has(k));
            }
        }
        assert forall|i: int, q: int|
            0 <= i < w.post.len() && 0 <= q < parents_of::<S, B>(nodes, w.post[i]).len() implies
            met_before::<S>(
            w.post,
            seen,
            i,
            #[trigger] parents_of::<S, B>(nodes, w.post[i])[q],
        ) by {
            let u = w.post[i];
            let p = parents_of::<S, B>(nodes, u)[q];
            if i < na {
                assert(u == a.post[i]);
                assert(met_before::<S>(
                    a.post,
                    seen,
                    i,
                    parents_of::<S, B>(nodes, a.post[i])[q],
                ));
                assert(w.post.take(i) =~= a.post.take(i));
            } else {
                assert(u == b.post[i - na]);
                assert(met_before::<S>(
                    b.post,
                    a.seen,
                    i - na,
                    parents_of::<S, B>(nodes, b.post[i - na])[q],
                ));
                if key_of(p) is Some {
                    let kp = key_of(p)->0;
                    let n = u.grad_fn->0 as int;
                    assert(within(u, nn, slots));
                    assert(all_within(nodes[n].sources(), n, slots));
                    assert(within(p, n, slots));
                    assert(w.post.take(i) =~= a.post + b.post.take(i - na));
                    lemma_has_key_concat(a.post, b.post.take(i - na), kp);
                    assert(a.seen.has(kp) <==> seen.has(kp) || has_key(a.post, kp));
                }
            }
        }
        assert forall|l: int| has_leaf(w.pre, l) == #[trigger] has_leaf(w.post, l) by {
            lemma_has_leaf_concat(a.pre, b.pre, l);
            lemma_has_leaf_concat(a.post, b.post, l);
            assert(has_leaf(a.pre, l) == has_leaf(a.post, l));
            assert(has_leaf(b.pre, l) == has_leaf(b.post, l));
        }
        assert forall|i: int| 0 <= i < w.post.len() implies within(
            #[trigger] w.post[i],
            nn,
            slots,
        ) by {
            if i < na {
                assert(w.post[i] == a.post[i]);
            } else {
                assert(w.post[i] == b.post[i - na]);
            }
        }
        assert forall|i: int|
            0 <= i < ts.len() && key_of(#[trigger] ts[i]) is Some implies w.seen.has(
            key_of(ts[i])->0,
        ) by {
            if i == 0 {
                let k = key_of(ts[0])->0;
                assert(key_in(k, nn, slots));
                assert(a.seen.has(k));
                assert(b.seen.has(k) <==> a.seen.has(k) || has_key(b.post, k));
            } else {
                assert(ts[i] == rest[i - 1]);
            }
        }
    }
}

/// In a reverse pass every node and every leaf has one turn: no two tensors of the order in which
/// a walk leaves them are the same node or leaf. So the rule of a node shared by several consumers
/// runs once.
pub proof fn law_each_node_once<S: Scalars, B: Backward<S>>(
    nodes: Seq<B>,
    slots: int,
    output: Model<S>,
)
    requires
        ordered::<S, B>(nodes, slots),
        within(output, nodes.len() as int, slots),
        0 <= slots <= usize::MAX,
    ensures
        keys_differ(visit::<S, B>(nodes, output, none_seen(nodes.len(), slots as nat)).post),
{
    lemma_visit::<S, B>(nodes, slots, output, none_seen(nodes.len(), slots as nat));
}

/// The output comes last in the order in which a walk leaves the tensors, and every tensor comes
/// after all its parents. So in a reverse pass, which goes from the last to the first, all
/// consumers of a tensor have handed it their pieces before its own turn, and everything that the
/// output depends on has a turn.
pub proof fn law_consumers_first<S: Scalars, B: Backward<S>>(
    nodes: Seq<B>,
    slots: int,
    output: Model<S>,
    i: int,
    q: int,
)
    requires
        ordered::<S, B>(nodes, slots),
        within(output, nodes.len() as int, slots),
        0 <= slots <= usize::MAX,
        key_of(output) is Some,
    ensures
        ({
            let post = visit::<S, B>(nodes, output, none_seen(nodes.len(), slots as nat)).post;
            &&& post.len() > 0 && post.last() == output
            &&& 0 <= i < post.len() && 0 <= q < parents_of::<S, B>(nodes, post[i]).len()
                ==> ({
                let p = parents_of::<S, B>(nodes, post[i])[q];
                key_of(p) is Some ==> has_key(post.take(i), key_of(p)->0)
            })
        }),
{
    let seen = none_seen(nodes.len(), slots as nat);
    lemma_visit::<S, B>(nodes, slots, output, seen);
    let post = visit::<S, B>(nodes, output, seen).post;
    assert(key_in(key_of(output)->0, nodes.len() as int, slots));
    assert(!seen.has(key_of(output)->0));
    if 0 <= i < post.len() && 0 <= q < parents_of::<S, B>(nodes, post[i]).len() {
        let p = parents_of::<S, B>(nodes, post[i])[q];
        assert(met_before::<S>(post, seen, i, p));
        if key_of(p) is Some {
            let n = post[i].grad_fn->0 as int;
            assert(within(post[i], nodes.len() as int, slots));
            assert(all_within(nodes[n].sources(), n, slots));
            assert(within(p, n, slots));
            assert(!seen.has(key_of(p)->0));
        }
    }
}

/// Handing out pieces leaves the slots alone.
proof fn lemma_hands_slots<S: Scalars>(
    ps: Seq<Model<S>>,
    parts: Seq<Model<S>>,
    a: Sweep<S>,
    b: Sweep<S>,
)
    requires
        hands_all::<S>(ps, parts, a, b),
    ensures
        b.slots == a.slots,
{
    let st = choose|st: Seq<Sweep<S>>| #[trigger] hands_run::<S>(ps, parts, a, b, st);
    lemma_hands_prefix::<S>(ps, parts, a, b, st, ps.len() as int);
}

proof fn lemma_hands_prefix<S: Scalars>(
    ps: Seq<Model<S>>,
    parts: Seq<Model<S>>,
    a: Sweep<S>,
    b: Sweep<S>,
    st: Seq<Sweep<S>>,
    n: int,
)
    requires
        hands_run::<S>(ps, parts, a, b, st),
        0 <= n <= ps.len(),
    ensures
        st[n].slots == a.slots,
    decreases n,
{
    if n > 0 {
        lemma_hands_prefix::<S>(ps, parts, a, b, st, n - 1);
        assert(hands::<S>(ps[n - 1], parts[n - 1], st[n - 1], st[n - 1 + 1]));
    }
}

/// A turn touches no slot but its own leaf's.
proof fn lemma_turn_slot<S: Scalars, B: Backward<S>>(
    nodes: Seq<B>,
    t: Model<S>,
    a: Sweep<S>,
    b: Sweep<S>,
    l: int,
)
    requires
        turn::<S, B>(nodes, t, a, b),
        t.leaf matches Some(own) ==> own < a.slots.len(),
        !leaf_is(t, l),
    ensures
        b.slots.len() == a.slots.len(),
        0 <= l < a.slots.len() ==> b.slots[l] == a.slots[l],
{
    if !(a.fault is Some || key_of(t) is None || a.at(key_of(t)->0) is None) {
        let gy = a.at(key_of(t)->0)->0;
        let c = a.put(key_of(t)->0, None);
        let m = choose|m: Sweep<S>| #[trigger]
            stores::<S>(t, gy, c, m) && if m.fault is Some || t.grad_fn is None {
                b == m
            } else {
                spreads::<S, B>(nodes[t.grad_fn->0 as int], gy, m, b)
            };
        if !(m.fault is Some || t.grad_fn is None) {
            let node = nodes[t.grad_fn->0 as int];
            let o = choose|o: Result<Seq<Model<S>>, Error>| #[trigger]
                node.vjp(gy, o) && if o is Err {
                    b == m.failed(o->Err_0)
                } else if o->Ok_0.len() != node.sources().len() {
                    &&& b.fault is Some && b == m.failed(b.fault->0)
                    &&& b.fault->0.says(
                        crate::error::ErrorKind::Domain,
                        node.title(),
                        "backward arity mismatch"@,
                    )
                } else {
                    hands_all::<S>(node.sources(), o->Ok_0, m, b)
                };
            if o is Ok && o->Ok_0.len() == node.sources().len() {
                lemma_hands_slots::<S>(node.sources(), o->Ok_0, m, b);
            }
        }
    }
}

/// A pass touches no slot but those of the leaves that have a turn.
proof fn lemma_sweep_slot<S: Scalars, B: Backward<S>>(
    nodes: Seq<B>,
    post: Seq<Model<S>>,
    a: Sweep<S>,
    b: Sweep<S>,
    st: Seq<Sweep<S>>,
    l: int,
    n: int,
)
    requires
        sweeps_run::<S, B>(nodes, post, a, b, st),
        all_within(post, nodes.len() as int, a.slots.len() as int),
        !has_leaf(post, l),
        0 <= n <= post.len(),
    ensures
        st[n].slots.len() == a.slots.len(),
        0 <= l < a.slots.len() ==> st[n].slots[l] == a.slots[l],
    decreases n,
{
    if n > 0 {
        lemma_sweep_slot::<S, B>(nodes, post, a, b, st, l, n - 1);
        let t = post[post.len() - 1 - (n - 1)];
        assert(turn::<S, B>(nodes, t, st[n - 1], st[n - 1 + 1]));
        assert(within(t, nodes.len() as int, a.slots.len() as int));
        assert(!leaf_is(t, l));
        lemma_turn_slot::<S, B>(nodes, t, st[n - 1], st[n], l);
    }
}

/// An input on which the output does not depend gets zeros, whatever its slot held, and its slot is
/// empty afterwards.
pub proof fn law_disconnected_input<S: Scalars, B: Backward<S>>(
    nodes: Seq<B>,
    output: Model<S>,
    inputs: Seq<Model<S>>,
    before: Seq<Option<Model<S>>>,
    after: Seq<Option<Model<S>>>,
    r: Result<Seq<Model<S>>, Error>,
    i: int,
)
    requires
        ordered::<S, B>(nodes, before.len() as int),
        within(output, nodes.len() as int, before.len() as int),
        all_within(inputs, nodes.len() as int, before.len() as int),
        before.len() <= usize::MAX,
        grad_out::<S, B>(
            nodes,
            visit::<S, B>(nodes, output, none_seen(nodes.len(), before.len())),
            output,
            inputs,
            before,
            after,
            r,
        ),
        r is Ok,
        0 <= i < inputs.len(),
        !has_leaf(
            visit::<S, B>(nodes, output, none_seen(nodes.len(), before.len())).pre,
            inputs[i].leaf->0 as int,
        ),
    ensures
        after[inputs[i].leaf->0 as int] is None,
        zeros_out::<S>(inputs[i].shape, inputs[i].dtype(), Ok(r->Ok_0[i])),
{
    let seen = none_seen(nodes.len(), before.len());
    let w = visit::<S, B>(nodes, output, seen);
    let l = inputs[i].leaf->0 as int;
    lemma_visit::<S, B>(nodes, before.len() as int, output, seen);
    assert(has_leaf(w.pre, l) == has_leaf(w.post, l));
    assert(inputs[i].leaf is Some);
    assert(within(inputs[i], nodes.len() as int, before.len() as int));
    let (seed, a) = choose|seed: Outcome<S>, a: Result<(), Error>|
        {
            &&& #[trigger] ones_out::<S>(output.shape, output.dtype(), seed)
            &&& seed is Ok
            &&& #[trigger] accumulates::<S, B>(
                nodes,
                w,
                output,
                seed->Ok_0,
                cleared::<S>(before, w.pre + inputs),
                after,
                a,
            )
            &&& crate::tensor::passes(a, r, collects::<S>(inputs, after, r))
        };
    let base = cleared::<S>(before, w.pre + inputs);
    assert(has_leaf(w.pre + inputs, l)) by {
        let both = w.pre + inputs;
        assert(leaf_is(both[w.pre.len() + i], l));
    }
    assert(base[l] is None);
    if key_of(output) is Some {
        let start = idle::<S>(nodes.len(), base).put(key_of(output)->0, Some(seed->Ok_0));
        let end = choose|end: Sweep<S>| #[trigger]
            sweeps::<S, B>(nodes, w.post, start, end) && after == end.slots && match a {
                Ok(_) => end.fault is None,
                Err(e) => end.fault == Some(e),
            };
        let st = choose|st: Seq<Sweep<S>>| #[trigger]
            sweeps_run::<S, B>(nodes, w.post, start, end, st);
        lemma_sweep_slot::<S, B>(nodes, w.post, start, end, st, l, w.post.len() as int);
    }
    assert(gradient_of::<S>(inputs[i], after, r->Ok_0[i]));
}

/// A state with other slots, but for those of the given leaves.
pub open spec fn overlaid<S: Scalars>(
    s: Sweep<S>,
    ts: Seq<Model<S>>,
    other: Seq<Option<Model<S>>>,
) -> Sweep<S> {
    Sweep { slots: overlaid_slots::<S>(s.slots, ts, other), ..s }
}

/// Other slots, but for those of the given leaves.
pub open spec fn overlaid_slots<S: Scalars>(
    slots: Seq<Option<Model<S>>>,
    ts: Seq<Model<S>>,
    other: Seq<Option<Model<S>>>,
) -> Seq<Option<Model<S>>> {
    Seq::new(
        slots.len(),
        |l: int|
            if has_leaf(ts, l) {
                slots[l]
            } else {
                other[l]
            },
    )
}

/// Pieces are handed out in the same way whatever the slots hold.
proof fn lemma_hands_overlaid<S: Scalars>(
    ps: Seq<Model<S>>,
    parts: Seq<Model<S>>,
    a: Sweep<S>,
    b: Sweep<S>,
    ts: Seq<Model<S>>,
    other: Seq<Option<Model<S>>>,
)
    requires
        hands_all::<S>(ps, parts, a, b),
    ensures
        hands_all::<S>(ps, parts, overlaid(a, ts, other), overlaid(b, ts, other)),
{
    let st = choose|st: Seq<Sweep<S>>| #[trigger] hands_run::<S>(ps, parts, a, b, st);
    let st2 = Seq::new(st.len(), |i: int| overlaid(st[i], ts, other));
    assert forall|i: int| 0 <= i < ps.len() implies hands::<S>(
        ps[i],
        parts[i],
        st2[i],
        #[trigger] st2[i + 1],
    ) by {
        let x = st[i];
        let y = st[i + 1];
        let x2 = overlaid(x, ts, other);
        let y2 = overlaid(y, ts, other);
        assert(hands::<S>(ps[i], parts[i], x, y));
        if !(x.fault is Some || key_of(ps[i]) is None) {
            let k = key_of(ps[i])->0;
            assert(x2.at(k) == x.at(k));
            if x.at(k) is None {
                assert(y2 == x2.put(k, Some(parts[i])));
            } else {
                let prev = x.at(k)->0;
                let o = choose|o: Outcome<S>| #[trigger]
                    add_out::<S>(prev, parts[i], o) && y == if o is Ok {
                        x.put(k, Some(o->Ok_0))
                    } else {
                        x.put(k, None).failed(o->Err_0)
                    };
                assert(y2 == if o is Ok {
                    x2.put(k, Some(o->Ok_0))
                } else {
                    x2.put(k, None).failed(o->Err_0)
                });
                assert(add_out::<S>(prev, parts[i], o));
            }
        }
    }
    assert(hands_run::<S>(ps, parts, overlaid(a, ts, other), overlaid(b, ts, other), st2));
}

/// A turn goes the same way whatever the other slots hold.
proof fn lemma_turn_overlaid<S: Scalars, B: Backward<S>>(
    nodes: Seq<B>,
    t: Model<S>,
    a: Sweep<S>,
    b: Sweep<S>,
    ts: Seq<Model<S>>,
    other: Seq<Option<Model<S>>>,
)
    requires
        turn::<S, B>(nodes, t, a, b),
        t.leaf matches Some(l) ==> l < a.slots.len() && has_leaf(ts, l as int),
    ensures
        turn::<S, B>(nodes, t, overlaid(a, ts, other), overlaid(b, ts, other)),
{
    let a2 = overlaid(a, ts, other);
    let b2 = overlaid(b, ts, other);
    if !(a.fault is Some || key_of(t) is None || a.at(key_of(t)->0) is None) {
        let k = key_of(t)->0;
        let gy = a.at(k)->0;
        let c = a.put(k, None);
        let c2 = a2.put(k, None);
        assert(c2 == overlaid(c, ts, other));
        assert(a2.at(k) == a.at(k));
        let m = choose|m: Sweep<S>| #[trigger]
            stores::<S>(t, gy, c, m) && if m.fault is Some || t.grad_fn is None {
                b == m
            } else {
                spreads::<S, B>(nodes[t.grad_fn->0 as int], gy, m, b)
            };
        let m2 = overlaid(m, ts, other);
        assert(stores::<S>(t, gy, c2, m2)) by {
            if t.leaf is Some {
                let l = t.leaf->0;
                assert(c2.slots[l as int] == c.slots[l as int]);
                if c.slots[l as int] is None {
                    assert(m2.slots =~= c2.keep(l, Some(gy)).slots);
                } else {
                    let prev = c.slots[l as int]->0;
                    let o = choose|o: Outcome<S>| #[trigger]
                        add_out::<S>(prev, gy, o) && m == if o is Ok {
                            c.keep(l, Some(o->Ok_0))
                        } else {
                            c.keep(l, None).failed(o->Err_0)
                        };
                    assert(add_out::<S>(prev, gy, o));
                    if o is Ok {
                        assert(m2.slots =~= c2.keep(l, Some(o->Ok_0)).slots);
                    } else {
                        assert(m2.slots =~= c2.keep(l, None).slots);
                    }
                }
            }
        }
        if !(m.fault is Some || t.grad_fn is None) {
            let node = nodes[t.grad_fn->0 as int];
            let o = choose|o: Result<Seq<Model<S>>, Error>| #[trigger]
                node.vjp(gy, o) && if o is Err {
                    b == m.failed(o->Err_0)
                } else if o->Ok_0.len() != node.sources().len() {
                    &&& b.fault is Some && b == m.failed(b.fault->0)
                    &&& b.fault->0.says(
                        crate::error::ErrorKind::Domain,
                        node.title(),
                        "backward arity mismatch"@,
                    )
                } else {
                    hands_all::<S>(node.sources(), o->Ok_0, m, b)
                };
            assert(node.vjp(gy, o));
            if o is Ok && o->Ok_0.len() == node.sources().len() {
                lemma_hands_overlaid::<S>(node.sources(), o->Ok_0, m, b, ts, other);
            }
            assert(spreads::<S, B>(node, gy, m2, b2));
        }
        assert(turns::<S, B>(nodes, t, gy, c2, b2));
    }
}

/// `grad` does not depend on what the slots held: whatever comes of it with slots `before` can come
/// of it with slots `other`, with the same gradients stored for every leaf that the output depends
/// on and for every input.
pub proof fn law_grad_is_fresh<S: Scalars, B: Backward<S>>(
    nodes: Seq<B>,
    output: Model<S>,
    inputs: Seq<Model<S>>,
    before: Seq<Option<Model<S>>>,
    after: Seq<Option<Model<S>>>,
    r: Result<Seq<Model<S>>, Error>,
    other: Seq<Option<Model<S>>>,
) -> (after2: Seq<Option<Model<S>>>)
    requires
        ordered::<S, B>(nodes, before.len() as int),
        within(output, nodes.len() as int, before.len() as int),
        all_within(inputs, nodes.len() as int, before.len() as int),
        before.len() <= usize::MAX,
        other.len() == before.len(),
        grad_out::<S, B>(
            nodes,
            visit::<S, B>(nodes, output, none_seen(nodes.len(), before.len())),
            output,
            inputs,
            before,
            after,
            r,
        ),
    ensures
        grad_out::<S, B>(
            nodes,
            visit::<S, B>(nodes, output, none_seen(nodes.len(), before.len())),
            output,
            inputs,
            other,
            after2,
            r,
        ),
        crate::loss::count_of(output.shape) == 1 && output.dtype().floating()
            && crate::tape::all_leaves(inputs) ==> forall|l: int|
            0 <= l < before.len() && has_leaf(
                visit::<S, B>(nodes, output, none_seen(nodes.len(), before.len())).pre + inputs,
                l,
            ) ==> #[trigger] after2[l] == after[l],
{
    let seen = none_seen(nodes.len(), before.len());
    let w = visit::<S, B>(nodes, output, seen);
    let ts = w.pre + inputs;
    if crate::loss::count_of(output.shape) != 1 || !output.dtype().floating()
        || !crate::tape::all_leaves(inputs) {
        other
    } else {
        lemma_visit::<S, B>(nodes, before.len() as int, output, seen);
        let (seed, a) = choose|seed: Outcome<S>, a: Result<(), Error>|
            {
                &&& #[trigger] ones_out::<S>(output.shape, output.dtype(), seed)
                &&& seed is Ok
                &&& #[trigger] accumulates::<S, B>(
                    nodes,
                    w,
                    output,
                    seed->Ok_0,
                    cleared::<S>(before, ts),
                    after,
                    a,
                )
                &&& crate::tensor::passes(a, r, collects::<S>(inputs, after, r))
            };
        let base = cleared::<S>(before, ts);
        let base2 = cleared::<S>(other, ts);
        let after2 = overlaid_slots::<S>(after, ts, other);
        assert(base2 =~= overlaid_slots::<S>(base, ts, other));
        if key_of(output) is None {
            assert(after2 =~= base2);
            assert(accumulates::<S, B>(nodes, w, output, seed->Ok_0, base2, after2, a));
        } else {
            let k = key_of(output)->0;
            let start = idle::<S>(nodes.len(), base).put(k, Some(seed->Ok_0));
            let start2 = idle::<S>(nodes.len(), base2).put(k, Some(seed->Ok_0));
            assert(start2 =~= overlaid(start, ts, other));
            let end = choose|end: Sweep<S>| #[trigger]
                sweeps::<S, B>(nodes, w.post, start, end) && after == end.slots && match a {
                    Ok(_) => end.fault is None,
                    Err(e) => end.fault == Some(e),
                };
            let st = choose|st: Seq<Sweep<S>>| #[trigger]
                sweeps_run::<S, B>(nodes, w.post, start, end, st);
            let st2 = Seq::new(st.len(), |i: int| overlaid(st[i], ts, other));
            let end2 = overlaid(end, ts, other);
            assert forall|i: int| 0 <= i < w.post.len() implies turn::<S, B>(
                nodes,
                w.post[w.post.len() - 1 - i],
                st2[i],
                #[trigger] st2[i + 1],
            ) by {
                let t = w.post[w.post.len() - 1 - i];
                assert(turn::<S, B>(nodes, t, st[i], st[i + 1]));
                lemma_sweep_len::<S, B>(nodes, w.post, start, end, st, i);
                assert(within(t, nodes.len() as int, before.len() as int));
                if t.leaf is Some {
                    let l = t.leaf->0 as int;
                    assert(leaf_is(t, l));
                    assert(has_leaf(w.post, l));
                    assert(has_leaf(w.pre, l));
                    lemma_has_leaf_concat(w.pre, inputs, l);
                }
                lemma_turn_overlaid::<S, B>(nodes, t, st[i], st[i + 1], ts, other);
            }
            assert(sweeps_run::<S, B>(nodes, w.post, start2, end2, st2));
            assert(sweeps::<S, B>(nodes, w.post, start2, end2));
            lemma_sweep_len::<S, B>(nodes, w.post, start, end, st, w.post.len() as int);
            assert(accumulates::<S, B>(nodes, w, output, seed->Ok_0, base2, after2, a));
        }
        assert(ones_out::<S>(output.shape, output.dtype(), seed));
        assert(after2.len() == after.len());
        assert forall|i: int| 0 <= i < inputs.len() implies after2[(
        #[trigger] inputs[i]).leaf->0 as int] == after[inputs[i].leaf->0 as int] by {
            assert(inputs[i].leaf is Some);
            let l = inputs[i].leaf->0 as int;
            assert(leaf_is(ts[w.pre.len() + i], l));
            assert(within(inputs[i], nodes.len() as int, before.len() as int));
            assert(has_leaf(ts, l));
            if key_of(output) is None {
                assert(after.len() == before.len());
            }
        }
        if a is Ok {
            assert(collects::<S>(inputs, after2, r)) by {
                match r {
                    Ok(gs) => {
                        assert forall|i: int| 0 <= i < gs.len() implies gradient_of::<S>(
                            inputs[i],
                            after2,
                            #[trigger] gs[i],
                        ) by {
                            assert(gradient_of::<S>(inputs[i], after, gs[i]));
                        }
                    },
                    Err(e) => {
                        let i = choose|i: int|
                            0 <= i < inputs.len() && crate::tape::no_zeros::<S>(
                                #[trigger] inputs[i],
                                after,
                            );
                        assert(crate::tape::no_zeros::<S>(inputs[i], after2));
                    },
                }
            }
        }
        assert(fresh_pass::<S, B>(nodes, w, output, inputs, other, after2, r));
        after2
    }
}

/// A pass keeps the number of slots.
proof fn lemma_sweep_len<S: Scalars, B: Backward<S>>(
    nodes: Seq<B>,
    post: Seq<Model<S>>,
    a: Sweep<S>,
    b: Sweep<S>,
    st: Seq<Sweep<S>>,
    n: int,
)
    requires
        sweeps_run::<S, B>(nodes, post, a, b, st),
        all_within(post, nodes.len() as int, a.slots.len() as int),
        0 <= n <= post.len(),
    ensures
        st[n].slots.len() == a.slots.len(),
    decreases n,
{
    if n > 0 {
        lemma_sweep_len::<S, B>(nodes, post, a, b, st, n - 1);
        let t = post[post.len() - 1 - (n - 1)];
        assert(turn::<S, B>(nodes, t, st[n - 1], st[n - 1 + 1]));
        assert(within(t, nodes.len() as int, a.slots.len() as int));
        lemma_turn_slot::<S, B>(nodes, t, st[n - 1], st[n], -1);
    }
}

/// What a slot holds after an accumulating pass, given what it held before and the gradient that
/// the pass alone would store.
pub open spec fn slot_adds<S: Scalars>(
    before: Option<Model<S>>,
    fresh: Option<Model<S>>,
    after: Option<Model<S>>,
) -> bool {
    match fresh {
        None => after == before,
        Some(g) => match before {
            None => after == Some(g),
            Some(prev) => after is Some && add_out::<S>(prev, g, Ok(after->0)),
        },
    }
}

/// Leaves that are inner nodes at the same time do not occur.
pub open spec fn plain_leaves<S: Scalars>(ts: Seq<Model<S>>) -> bool {
    forall|i: int| 0 <= i < ts.len() && (#[trigger] ts[i]).leaf is Some ==> ts[i].grad_fn is None
}

/// A pass that ended without an error had none on its way.
pub(crate) proof fn lemma_no_fault<S: Scalars, B: Backward<S>>(
    nodes: Seq<B>,
    post: Seq<Model<S>>,
    a: Sweep<S>,
    b: Sweep<S>,
    st: Seq<Sweep<S>>,
    n: int,
)
    requires
        sweeps_run::<S, B>(nodes, post, a, b, st),
        b.fault is None,
        0 <= n <= post.len(),
    ensures
        st[n].fault is None,
    decreases post.len() - n,
{
    if n < post.len() {
        lemma_no_fault::<S, B>(nodes, post, a, b, st, n + 1);
        let t = post[post.len() - 1 - n];
        assert(turn::<S, B>(nodes, t, st[n], st[n + 1]));
    }
}

/// The turn that goes as `a` to `b` does, from a state in which the slot of `t` is empty.
proof fn lemma_turn_fresh<S: Scalars, B: Backward<S>>(
    nodes: Seq<B>,
    t: Model<S>,
    a: Sweep<S>,
    b: Sweep<S>,
    slots: Seq<Option<Model<S>>>,
) -> (next: Seq<Option<Model<S>>>)
    requires
        turn::<S, B>(nodes, t, a, b),
        b.fault is None,
        slots.len() == a.slots.len(),
        t.leaf matches Some(l) ==> l < slots.len() && slots[l as int] is None,
    ensures
        turn::<S, B>(nodes, t, (Sweep { slots, ..a }), (Sweep { slots: next, ..b })),
        next.len() == slots.len(),
        b.slots.len() == a.slots.len(),
        forall|l: int|
            0 <= l < slots.len() && !leaf_is(t, l) ==> #[trigger] next[l] == slots[l],
        forall|l: int|
            0 <= l < slots.len() && !leaf_is(t, l) ==> #[trigger] b.slots[l] == a.slots[l],
        t.leaf matches Some(l) ==> slot_adds::<S>(
            a.slots[l as int],
            next[l as int],
            b.slots[l as int],
        ),
{
    let a2 = Sweep { slots, ..a };
    if a.fault is Some || key_of(t) is None || a.at(key_of(t)->0) is None {
        if key_of(t) is Some {
            assert(a2.at(key_of(t)->0) == a.at(key_of(t)->0));
        }
        slots
    } else {
        let k = key_of(t)->0;
        let gy = a.at(k)->0;
        let c = a.put(k, None);
        let c2 = a2.put(k, None);
        assert(a2.at(k) == a.at(k));
        assert(turns::<S, B>(nodes, t, gy, c, b));
        let m = choose|m: Sweep<S>| #[trigger]
            stores::<S>(t, gy, c, m) && if m.fault is Some || t.grad_fn is None {
                b == m
            } else {
                spreads::<S, B>(nodes[t.grad_fn->0 as int], gy, m, b)
            };
        let next = match t.leaf {
            Some(l) => slots.update(l as int, Some(gy)),
            None => slots,
        };
        assert(m.fault is None) by {
            if m.fault is Some {
                assert(b == m);
            }
        }
        let m2 = Sweep { slots: next, ..m };
        let b2 = Sweep { slots: next, ..b };
        assert(stores::<S>(t, gy, c2, m2));
        if t.grad_fn is Some {
            let node = nodes[t.grad_fn->0 as int];
            let o = choose|o: Result<Seq<Model<S>>, Error>| #[trigger]
                node.vjp(gy, o) && if o is Err {
                    b == m.failed(o->Err_0)
                } else if o->Ok_0.len() != node.sources().len() {
                    &&& b.fault is Some && b == m.failed(b.fault->0)
                    &&& b.fault->0.says(
                        crate::error::ErrorKind::Domain,
                        node.title(),
                        "backward arity mismatch"@,
                    )
                } else {
                    hands_all::<S>(node.sources(), o->Ok_0, m, b)
                };
            lemma_hands_slots::<S>(node.sources(), o->Ok_0, m, b);
            lemma_hands_overlaid::<S>(node.sources(), o->Ok_0, m, b, Seq::empty(), next);
            assert(overlaid(m, Seq::empty(), next) =~= m2);
            assert(overlaid(b, Seq::empty(), next) =~= b2);
            assert(node.vjp(gy, o));
            assert(spreads::<S, B>(node, gy, m2, b2));
        }
        assert(turns::<S, B>(nodes, t, gy, c2, b2));
        next
    }
}

/// The first `n` turns of a pass, from empty slots.
proof fn lemma_run_fresh<S: Scalars, B: Backward<S>>(
    nodes: Seq<B>,
    post: Seq<Model<S>>,
    a: Sweep<S>,
    b: Sweep<S>,
    st: Seq<Sweep<S>>,
    n: int,
) -> (fresh: Seq<Seq<Option<Model<S>>>>)
    requires
        sweeps_run::<S, B>(nodes, post, a, b, st),
        b.fault is None,
        all_within(post, nodes.len() as int, a.slots.len() as int),
        keys_differ(post),
        plain_leaves::<S>(post),
        0 <= n <= post.len(),
    ensures
        fresh.len() == n + 1,
        fresh[0] == Seq::new(a.slots.len(), |l: int| None::<Model<S>>),
        fresh[n].len() == a.slots.len(),
        st[n].slots.len() == a.slots.len(),
        forall|i: int|
            0 <= i < n ==> turn::<S, B>(
                nodes,
                post[post.len() - 1 - i],
                (Sweep { slots: fresh[i], ..st[i] }),
                (Sweep { slots: #[trigger] fresh[i + 1], ..st[i + 1] }),
            ),
        forall|l: int|
            0 <= l < a.slots.len() ==> slot_adds::<S>(
                a.slots[l],
                #[trigger] fresh[n][l],
                st[n].slots[l],
            ),
        forall|l: int|
            0 <= l < a.slots.len() && (forall|j: int|
                post.len() - n <= j < post.len() ==> !leaf_is(#[trigger] post[j], l)) ==> (
            #[trigger] fresh[n][l]) is None && st[n].slots[l] == a.slots[l],
    decreases n,
{
    if n == 0 {
        seq![Seq::new(a.slots.len(), |l: int| None::<Model<S>>)]
    } else {
        let prior = lemma_run_fresh::<S, B>(nodes, post, a, b, st, n - 1);
        let t = post[post.len() - n];
        let from = st[n - 1];
        let to = st[n - 1 + 1];
        assert(turn::<S, B>(nodes, post[post.len() - 1 - (n - 1)], from, to));
        lemma_no_fault::<S, B>(nodes, post, a, b, st, n);
        assert(within(t, nodes.len() as int, a.slots.len() as int));
        if t.leaf is Some {
            let l = t.leaf->0 as int;
            assert forall|j: int| post.len() - (n - 1) <= j < post.len() implies !leaf_is(
                #[trigger] post[j],
                l,
            ) by {
                assert(key_of(t) != key_of(post[j]));
            }
            assert(prior[n - 1][l] is None);
        }
        let next = lemma_turn_fresh::<S, B>(nodes, t, from, to, prior[n - 1]);
        let fresh = prior.push(next);
        assert forall|i: int| 0 <= i < n implies turn::<S, B>(
            nodes,
            post[post.len() - 1 - i],
            (Sweep { slots: fresh[i], ..st[i] }),
            (Sweep { slots: #[trigger] fresh[i + 1], ..st[i + 1] }),
        ) by {
            if i < n - 1 {
                assert(fresh[i + 1] == prior[i + 1]);
            }
        }
        assert forall|l: int| 0 <= l < a.slots.len() implies slot_adds::<S>(
            a.slots[l],
            #[trigger] fresh[n][l],
            st[n].slots[l],
        ) by {
            assert(slot_adds::<S>(a.slots[l], prior[n - 1][l], from.slots[l]));
            if !leaf_is(t, l) {
                assert(next[l] == prior[n - 1][l]);
                assert(to.slots[l] == from.slots[l]);
            } else {
                assert(prior[n - 1][l] is None);
            }
        }
        assert forall|l: int|
            0 <= l < a.slots.len() && (forall|j: int|
                post.len() - n <= j < post.len() ==> !leaf_is(#[trigger] post[j], l)) implies (
        #[trigger] fresh[n][l]) is None && st[n].slots[l] == a.slots[l] by {
            assert(!leaf_is(post[post.len() - n], l));
            assert(prior[n - 1][l] is None);
            assert(next[l] == prior[n - 1][l]);
            assert(to.slots[l] == from.slots[l]);
        }
        fresh
    }
}

/// An accumulating pass adds to every slot what the same pass alone would store in it, and leaves
/// the slots of other leaves alone. A gradient passed over twice is so the sum of the two.
pub proof fn law_backward_adds<S: Scalars, B: Backward<S>>(
    nodes: Seq<B>,
    output: Model<S>,
    seed: Model<S>,
    before: Seq<Option<Model<S>>>,
    after: Seq<Option<Model<S>>>,
) -> (fresh: Seq<Option<Model<S>>>)
    requires
        ordered::<S, B>(nodes, before.len() as int),
        within(output, nodes.len() as int, before.len() as int),
        before.len() <= usize::MAX,
        plain_leaves::<S>(
            visit::<S, B>(nodes, output, none_seen(nodes.len(), before.len())).post,
        ),
        accumulates::<S, B>(
            nodes,
            visit::<S, B>(nodes, output, none_seen(nodes.len(), before.len())),
            output,
            seed,
            before,
            after,
            Ok(()),
        ),
    ensures
        accumulates::<S, B>(
            nodes,
            visit::<S, B>(nodes, output, none_seen(nodes.len(), before.len())),
            output,
            seed,
            Seq::new(before.len(), |l: int| None::<Model<S>>),
            fresh,
            Ok(()),
        ),
        after.len() == before.len(),
        forall|l: int|
            0 <= l < before.len() ==> slot_adds::<S>(before[l], #[trigger] fresh[l], after[l]),
        forall|l: int|
            0 <= l < before.len() && !has_leaf(
                visit::<S, B>(nodes, output, none_seen(nodes.len(), before.len())).post,
                l,
            ) ==> #[trigger] after[l] == before[l],
{
    let seen = none_seen(nodes.len(), before.len());
    let w = visit::<S, B>(nodes, output, seen);
    let empty = Seq::new(before.len(), |l: int| None::<Model<S>>);
    if key_of(output) is None {
        assert forall|l: int| 0 <= l < before.len() implies slot_adds::<S>(
            before[l],
            #[trigger] empty[l],
            after[l],
        ) by {}
        empty
    } else {
        let k = key_of(output)->0;
        lemma_visit::<S, B>(nodes, before.len() as int, output, seen);
        let start = idle::<S>(nodes.len(), before).put(k, Some(seed));
        let end = choose|end: Sweep<S>| #[trigger]
            sweeps::<S, B>(nodes, w.post, start, end) && after == end.slots && end.fault is None;
        let st = choose|st: Seq<Sweep<S>>| #[trigger]
            sweeps_run::<S, B>(nodes, w.post, start, end, st);
        let n = w.post.len() as int;
        let run = lemma_run_fresh::<S, B>(nodes, w.post, start, end, st, n);
        let st2 = Seq::new(st.len(), |i: int| Sweep { slots: run[i], ..st[i] });
        let start2 = idle::<S>(nodes.len(), empty).put(k, Some(seed));
        let end2 = Sweep { slots: run[n], ..end };
        assert(st2[0] =~= start2);
        assert forall|i: int| 0 <= i < w.post.len() implies turn::<S, B>(
            nodes,
            w.post[w.post.len() - 1 - i],
            st2[i],
            #[trigger] st2[i + 1],
        ) by {
        }
        assert(sweeps_run::<S, B>(nodes, w.post, start2, end2, st2));
        assert(sweeps::<S, B>(nodes, w.post, start2, end2));
        assert forall|l: int| 0 <= l < before.len() && !has_leaf(w.post, l) implies
            #[trigger] after[l] == before[l] by {
            assert(run[n][l] is None);
        }
        run[n]
    }
}

} // verus!
