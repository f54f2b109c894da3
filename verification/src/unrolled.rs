//! Walks and reverse passes written out node by node.
use vstd::prelude::*;
use crate::cpu::add_out;
use crate::error::Error;
use crate::scalar::Scalars;
use crate::tape::{
    hands, hands_all, hands_run, height, key_of, spreads, stores, sweeps, sweeps_run, turn, turns,
    visit, visit_all, Backward, Key, Seen, Sweep,
};
use crate::tensor::{Model, Outcome};

verus! {

/// `k` is a number of a tape of so many nodes and slots.
pub open spec fn numbered(k: Key, nodes: nat, slots: nat) -> bool {
    match k {
        Key::Node(n) => n < nodes,
        Key::Leaf(l) => l < slots,
    }
}

/// Just these keys have been met.
pub open spec fn seen_of(nodes: nat, slots: nat, ks: Set<Key>) -> Seen {
    Seen {
        nodes: Seq::new(nodes, |i: int| ks.contains(Key::Node(i as usize))),
        leaves: Seq::new(slots, |i: int| ks.contains(Key::Leaf(i as usize))),
    }
}

/// The walk from `t`, where `ks` have been met, leaves `post` in order, and `after` have been met.
#[verifier::opaque]
pub open spec fn walks<S: Scalars, B: Backward<S>>(
    nodes: Seq<B>,
    slots: nat,
    t: Model<S>,
    ks: Set<Key>,
    post: Seq<Model<S>>,
    after: Set<Key>,
) -> bool {
    let w = visit::<S, B>(nodes, t, seen_of(nodes.len(), slots, ks));
    w.post == post && w.seen == seen_of(nodes.len(), slots, after)
}

proof fn lemma_seen_with(nodes: nat, slots: nat, ks: Set<Key>, k: Key)
    requires
        numbered(k, nodes, slots),
        nodes <= usize::MAX,
        slots <= usize::MAX,
    ensures
        seen_of(nodes, slots, ks).with(k) == seen_of(nodes, slots, ks.insert(k)),
        seen_of(nodes, slots, ks).has(k) == ks.contains(k),
{
    let a = seen_of(nodes, slots, ks).with(k);
    let b = seen_of(nodes, slots, ks.insert(k));
    assert(a.nodes =~= b.nodes);
    assert(a.leaves =~= b.leaves);
}

/// What is outside the graph, or met already, is passed over.
pub(crate) proof fn lemma_walk_past<S: Scalars, B: Backward<S>>(
    nodes: Seq<B>,
    slots: nat,
    t: Model<S>,
    ks: Set<Key>,
)
    requires
        key_of(t) is Some ==> ks.contains(key_of(t)->0) && numbered(
            key_of(t)->0,
            nodes.len(),
            slots,
        ),
        nodes.len() <= usize::MAX,
        slots <= usize::MAX,
    ensures
        walks::<S, B>(nodes, slots, t, ks, Seq::<Model<S>>::empty(), ks),
{
    reveal(walks);
    if key_of(t) is Some {
        lemma_seen_with(nodes.len(), slots, ks, key_of(t)->0);
    }
}

/// A leaf.
pub(crate) proof fn lemma_walk_leaf<S: Scalars, B: Backward<S>>(
    nodes: Seq<B>,
    slots: nat,
    t: Model<S>,
    l: usize,
    ks: Set<Key>,
)
    requires
        t.grad_fn is None && t.leaf == Some(l),
        l < slots,
        !ks.contains(Key::Leaf(l)),
        nodes.len() <= usize::MAX,
        slots <= usize::MAX,
    ensures
        walks::<S, B>(nodes, slots, t, ks, seq![t], ks.insert(Key::Leaf(l))),
{
    reveal(walks);
    lemma_seen_with(nodes.len(), slots, ks, Key::Leaf(l));
    assert(Seq::<Model<S>>::empty().push(t) =~= seq![t]);
}

/// A node with one parent.
pub(crate) proof fn lemma_walk_one<S: Scalars, B: Backward<S>>(
    nodes: Seq<B>,
    slots: nat,
    t: Model<S>,
    n: usize,
    p: Model<S>,
    ks: Set<Key>,
    post: Seq<Model<S>>,
    after: Set<Key>,
)
    requires
        t.grad_fn == Some(n),
        n < nodes.len(),
        nodes[n as int].sources() == seq![p],
        height(p) <= n,
        !ks.contains(Key::Node(n)),
        walks::<S, B>(nodes, slots, p, ks.insert(Key::Node(n)), post, after),
        nodes.len() <= usize::MAX,
        slots <= usize::MAX,
    ensures
        walks::<S, B>(nodes, slots, t, ks, post.push(t), after),
{
    reveal(walks);
    lemma_seen_with(nodes.len(), slots, ks, Key::Node(n));
    let seen = seen_of(nodes.len(), slots, ks.insert(Key::Node(n)));
    let ts = seq![p];
    reveal_with_fuel(visit_all, 3);
    assert(ts.skip(1) =~= Seq::<Model<S>>::empty());
    let w = visit_all::<S, B>(nodes, ts, n as int, seen);
    assert(w.post =~= post);
}

/// A node with two parents.
pub(crate) proof fn lemma_walk_two<S: Scalars, B: Backward<S>>(
    nodes: Seq<B>,
    slots: nat,
    t: Model<S>,
    n: usize,
    p: Model<S>,
    q: Model<S>,
    ks: Set<Key>,
    first: Seq<Model<S>>,
    mid: Set<Key>,
    second: Seq<Model<S>>,
    after: Set<Key>,
)
    requires
        t.grad_fn == Some(n),
        n < nodes.len(),
        nodes[n as int].sources() == seq![p, q],
        height(p) <= n,
        height(q) <= n,
        !ks.contains(Key::Node(n)),
        walks::<S, B>(nodes, slots, p, ks.insert(Key::Node(n)), first, mid),
        walks::<S, B>(nodes, slots, q, mid, second, after),
        nodes.len() <= usize::MAX,
        slots <= usize::MAX,
    ensures
        walks::<S, B>(nodes, slots, t, ks, (first + second).push(t), after),
{
    reveal(walks);
    lemma_seen_with(nodes.len(), slots, ks, Key::Node(n));
    let seen = seen_of(nodes.len(), slots, ks.insert(Key::Node(n)));
    let ts = seq![p, q];
    let rest = seq![q];
    reveal_with_fuel(visit_all, 4);
    assert(ts.skip(1) =~= rest);
    assert(rest.skip(1) =~= Seq::<Model<S>>::empty());
    let w = visit_all::<S, B>(nodes, ts, n as int, seen);
    assert(w.post =~= first + second);
}

/// The state in which just these cotangents wait, and just these gradients have come into the slots.
pub open spec fn waiting<S: Scalars>(
    nodes: nat,
    slots: Seq<Option<Model<S>>>,
    ws: Map<Key, Model<S>>,
    done: Map<usize, Model<S>>,
) -> Sweep<S> {
    Sweep {
        node_grads: Seq::new(
            nodes,
            |i: int|
                if ws.dom().contains(Key::Node(i as usize)) {
                    Some(ws[Key::Node(i as usize)])
                } else {
                    None
                },
        ),
        leaf_grads: Seq::new(
            slots.len(),
            |i: int|
                if ws.dom().contains(Key::Leaf(i as usize)) {
                    Some(ws[Key::Leaf(i as usize)])
                } else {
                    None
                },
        ),
        slots: Seq::new(
            slots.len(),
            |i: int|
                if done.dom().contains(i as usize) {
                    Some(done[i as usize])
                } else {
                    slots[i]
                },
        ),
        fault: None,
    }
}

pub(crate) proof fn lemma_waiting_put<S: Scalars>(
    nodes: nat,
    slots: Seq<Option<Model<S>>>,
    ws: Map<Key, Model<S>>,
    done: Map<usize, Model<S>>,
    k: Key,
    v: Model<S>,
)
    requires
        numbered(k, nodes, slots.len()),
        nodes <= usize::MAX,
        slots.len() <= usize::MAX,
    ensures
        waiting::<S>(nodes, slots, ws, done).put(k, Some(v)) == waiting::<S>(
            nodes,
            slots,
            ws.insert(k, v),
            done,
        ),
        waiting::<S>(nodes, slots, ws, done).put(k, None) == waiting::<S>(
            nodes,
            slots,
            ws.remove(k),
            done,
        ),
        waiting::<S>(nodes, slots, ws, done).at(k) == if ws.dom().contains(k) {
            Some(ws[k])
        } else {
            None
        },
{
    let a = waiting::<S>(nodes, slots, ws, done);
    let b = waiting::<S>(nodes, slots, ws.insert(k, v), done);
    let c = waiting::<S>(nodes, slots, ws.remove(k), done);
    assert(a.put(k, Some(v)).node_grads =~= b.node_grads);
    assert(a.put(k, Some(v)).leaf_grads =~= b.leaf_grads);
    assert(a.put(k, None).node_grads =~= c.node_grads);
    assert(a.put(k, None).leaf_grads =~= c.leaf_grads);
}

/// What waits once `part` has been handed to `p`, where it makes `sum` of what waits there.
pub open spec fn handed<S: Scalars>(
    ws: Map<Key, Model<S>>,
    p: Model<S>,
    sum: Model<S>,
) -> Map<Key, Model<S>> {
    if key_of(p) is None {
        ws
    } else {
        ws.insert(key_of(p)->0, sum)
    }
}

/// `part` makes `sum` of what waits for `p`.
pub open spec fn joins<S: Scalars>(
    ws: Map<Key, Model<S>>,
    p: Model<S>,
    part: Model<S>,
    sum: Model<S>,
) -> bool {
    key_of(p) is Some ==> if ws.dom().contains(key_of(p)->0) {
        add_out::<S>(ws[key_of(p)->0], part, Ok(sum))
    } else {
        sum == part
    }
}

proof fn lemma_hands<S: Scalars>(
    nodes: nat,
    slots: Seq<Option<Model<S>>>,
    ws: Map<Key, Model<S>>,
    done: Map<usize, Model<S>>,
    p: Model<S>,
    part: Model<S>,
    sum: Model<S>,
)
    requires
        key_of(p) is Some ==> numbered(key_of(p)->0, nodes, slots.len()),
        joins::<S>(ws, p, part, sum),
        nodes <= usize::MAX,
        slots.len() <= usize::MAX,
    ensures
        hands::<S>(
            p,
            part,
            waiting::<S>(nodes, slots, ws, done),
            waiting::<S>(nodes, slots, handed::<S>(ws, p, sum), done),
        ),
{
    if key_of(p) is Some {
        let k = key_of(p)->0;
        lemma_waiting_put::<S>(nodes, slots, ws, done, k, sum);
        if ws.dom().contains(k) {
            let o: Outcome<S> = Ok(sum);
            assert(add_out::<S>(ws[k], part, o));
        }
    }
}

/// What a pass over `post` comes to, in terms of what waits and what the slots hold.
#[verifier::opaque]
pub open spec fn passes_over<S: Scalars, B: Backward<S>>(
    nodes: Seq<B>,
    slots: Seq<Option<Model<S>>>,
    post: Seq<Model<S>>,
    ws: Map<Key, Model<S>>,
    done: Map<usize, Model<S>>,
    then_ws: Map<Key, Model<S>>,
    then_done: Map<usize, Model<S>>,
) -> bool {
    sweeps::<S, B>(
        nodes,
        post,
        waiting::<S>(nodes.len(), slots, ws, done),
        waiting::<S>(nodes.len(), slots, then_ws, then_done),
    )
}

/// No turn at all.
pub(crate) proof fn lemma_pass_none<S: Scalars, B: Backward<S>>(
    nodes: Seq<B>,
    slots: Seq<Option<Model<S>>>,
    ws: Map<Key, Model<S>>,
    done: Map<usize, Model<S>>,
)
    ensures
        passes_over::<S, B>(nodes, slots, Seq::empty(), ws, done, ws, done),
{
    reveal(passes_over);
    let a = waiting::<S>(nodes.len(), slots, ws, done);
    let st = seq![a];
    assert(sweeps_run::<S, B>(nodes, Seq::empty(), a, a, st));
}

/// One turn more at the end: the tensor before all others.
proof fn lemma_pass_more<S: Scalars, B: Backward<S>>(
    nodes: Seq<B>,
    post: Seq<Model<S>>,
    t: Model<S>,
    a: Sweep<S>,
    b: Sweep<S>,
    c: Sweep<S>,
)
    requires
        sweeps::<S, B>(nodes, post, a, b),
        turn::<S, B>(nodes, t, b, c),
    ensures
        sweeps::<S, B>(nodes, seq![t] + post, a, c),
{
    let st = choose|st: Seq<Sweep<S>>| #[trigger] sweeps_run::<S, B>(nodes, post, a, b, st);
    let su = st.push(c);
    let more = seq![t] + post;
    assert forall|i: int| 0 <= i < more.len() implies turn::<S, B>(
        nodes,
        more[more.len() - 1 - i],
        su[i],
        #[trigger] su[i + 1],
    ) by {
        if i < post.len() {
            assert(more[more.len() - 1 - i] == post[post.len() - 1 - i]);
            assert(su[i + 1] == st[i + 1]);
        }
    }
    assert(sweeps_run::<S, B>(nodes, more, a, c, su));
}

/// The turn of a leaf whose slot is empty.
pub(crate) proof fn lemma_pass_leaf<S: Scalars, B: Backward<S>>(
    nodes: Seq<B>,
    slots: Seq<Option<Model<S>>>,
    post: Seq<Model<S>>,
    t: Model<S>,
    l: usize,
    first_ws: Map<Key, Model<S>>,
    first_done: Map<usize, Model<S>>,
    ws: Map<Key, Model<S>>,
    done: Map<usize, Model<S>>,
)
    requires
        passes_over::<S, B>(nodes, slots, post, first_ws, first_done, ws, done),
        t.grad_fn is None && t.leaf == Some(l),
        l < slots.len(),
        slots[l as int] is None,
        !done.dom().contains(l),
        ws.dom().contains(Key::Leaf(l)),
        nodes.len() <= usize::MAX,
        slots.len() <= usize::MAX,
    ensures
        passes_over::<S, B>(
            nodes,
            slots,
            seq![t] + post,
            first_ws,
            first_done,
            ws.remove(Key::Leaf(l)),
            done.insert(l, ws[Key::Leaf(l)]),
        ),
{
    reveal(passes_over);
    let gy = ws[Key::Leaf(l)];
    let a = waiting::<S>(nodes.len(), slots, first_ws, first_done);
    let b = waiting::<S>(nodes.len(), slots, ws, done);
    lemma_waiting_put::<S>(nodes.len(), slots, ws, done, Key::Leaf(l), gy);
    let m = waiting::<S>(nodes.len(), slots, ws.remove(Key::Leaf(l)), done);
    let c = waiting::<S>(nodes.len(), slots, ws.remove(Key::Leaf(l)), done.insert(l, gy));
    assert(m.keep(l, Some(gy)).slots =~= c.slots);
    assert(stores::<S>(t, gy, m, c));
    assert(turns::<S, B>(nodes, t, gy, m, c));
    lemma_pass_more::<S, B>(nodes, post, t, a, b, c);
}

/// The turn of a node with one parent.
pub(crate) proof fn lemma_pass_one<S: Scalars, B: Backward<S>>(
    nodes: Seq<B>,
    slots: Seq<Option<Model<S>>>,
    post: Seq<Model<S>>,
    t: Model<S>,
    n: usize,
    p: Model<S>,
    part: Model<S>,
    sum: Model<S>,
    first_ws: Map<Key, Model<S>>,
    first_done: Map<usize, Model<S>>,
    ws: Map<Key, Model<S>>,
    done: Map<usize, Model<S>>,
)
    requires
        passes_over::<S, B>(nodes, slots, post, first_ws, first_done, ws, done),
        t.grad_fn == Some(n) && t.leaf is None,
        n < nodes.len(),
        nodes[n as int].sources() == seq![p],
        ws.dom().contains(Key::Node(n)),
        nodes[n as int].vjp(ws[Key::Node(n)], Ok(seq![part])),
        key_of(p) is Some ==> numbered(key_of(p)->0, nodes.len(), slots.len()),
        joins::<S>(ws.remove(Key::Node(n)), p, part, sum),
        nodes.len() <= usize::MAX,
        slots.len() <= usize::MAX,
    ensures
        passes_over::<S, B>(
            nodes,
            slots,
            seq![t] + post,
            first_ws,
            first_done,
            handed::<S>(ws.remove(Key::Node(n)), p, sum),
            done,
        ),
{
    reveal(passes_over);
    let k = Key::Node(n);
    let gy = ws[k];
    let a = waiting::<S>(nodes.len(), slots, first_ws, first_done);
    let b = waiting::<S>(nodes.len(), slots, ws, done);
    lemma_waiting_put::<S>(nodes.len(), slots, ws, done, k, gy);
    let m = waiting::<S>(nodes.len(), slots, ws.remove(k), done);
    lemma_hands::<S>(nodes.len(), slots, ws.remove(k), done, p, part, sum);
    let c = waiting::<S>(nodes.len(), slots, handed::<S>(ws.remove(k), p, sum), done);
    let st = seq![m, c];
    assert(hands_run::<S>(seq![p], seq![part], m, c, st));
    let o: Result<Seq<Model<S>>, Error> = Ok(seq![part]);
    assert(nodes[n as int].vjp(gy, o));
    assert(hands_all::<S>(nodes[n as int].sources(), o->Ok_0, m, c));
    assert(spreads::<S, B>(nodes[n as int], gy, m, c));
    assert(stores::<S>(t, gy, m, m));
    assert(turns::<S, B>(nodes, t, gy, m, c));
    lemma_pass_more::<S, B>(nodes, post, t, a, b, c);
}

/// The turn of a node with two parents.
pub(crate) proof fn lemma_pass_two<S: Scalars, B: Backward<S>>(
    nodes: Seq<B>,
    slots: Seq<Option<Model<S>>>,
    post: Seq<Model<S>>,
    t: Model<S>,
    n: usize,
    p: Model<S>,
    part: Model<S>,
    sum: Model<S>,
    q: Model<S>,
    other: Model<S>,
    other_sum: Model<S>,
    first_ws: Map<Key, Model<S>>,
    first_done: Map<usize, Model<S>>,
    ws: Map<Key, Model<S>>,
    done: Map<usize, Model<S>>,
)
    requires
        passes_over::<S, B>(nodes, slots, post, first_ws, first_done, ws, done),
        t.grad_fn == Some(n) && t.leaf is None,
        n < nodes.len(),
        nodes[n as int].sources() == seq![p, q],
        ws.dom().contains(Key::Node(n)),
        nodes[n as int].vjp(ws[Key::Node(n)], Ok(seq![part, other])),
        key_of(p) is Some ==> numbered(key_of(p)->0, nodes.len(), slots.len()),
        key_of(q) is Some ==> numbered(key_of(q)->0, nodes.len(), slots.len()),
        joins::<S>(ws.remove(Key::Node(n)), p, part, sum),
        joins::<S>(handed::<S>(ws.remove(Key::Node(n)), p, sum), q, other, other_sum),
        nodes.len() <= usize::MAX,
        slots.len() <= usize::MAX,
    ensures
        passes_over::<S, B>(
            nodes,
            slots,
            seq![t] + post,
            first_ws,
            first_done,
            handed::<S>(handed::<S>(ws.remove(Key::Node(n)), p, sum), q, other_sum),
            done,
        ),
{
    reveal(passes_over);
    let k = Key::Node(n);
    let gy = ws[k];
    let a = waiting::<S>(nodes.len(), slots, first_ws, first_done);
    let b = waiting::<S>(nodes.len(), slots, ws, done);
    lemma_waiting_put::<S>(nodes.len(), slots, ws, done, k, gy);
    let m = waiting::<S>(nodes.len(), slots, ws.remove(k), done);
    lemma_hands::<S>(nodes.len(), slots, ws.remove(k), done, p, part, sum);
    let one = handed::<S>(ws.remove(k), p, sum);
    let h = waiting::<S>(nodes.len(), slots, one, done);
    lemma_hands::<S>(nodes.len(), slots, one, done, q, other, other_sum);
    let c = waiting::<S>(nodes.len(), slots, handed::<S>(one, q, other_sum), done);
    let st = seq![m, h, c];
    assert(hands_run::<S>(seq![p, q], seq![part, other], m, c, st)) by {
        assert(st[1] == h && st[2] == c);
    }
    let o: Result<Seq<Model<S>>, Error> = Ok(seq![part, other]);
    assert(nodes[n as int].vjp(gy, o));
    assert(hands_all::<S>(nodes[n as int].sources(), o->Ok_0, m, c));
    assert(spreads::<S, B>(nodes[n as int], gy, m, c));
    assert(stores::<S>(t, gy, m, m));
    assert(turns::<S, B>(nodes, t, gy, m, c));
    lemma_pass_more::<S, B>(nodes, post, t, a, b, c);
}

} // verus!
