//! What repeating a reverse pass gives: the same gradients, where the arithmetic decides them.
use vstd::prelude::*;
use crate::cpu::add_out;
use crate::dag::{law_grad_is_fresh, lemma_no_fault, lemma_visit};
use crate::dtype::Dtype;
use crate::error::{Error, ErrorKind};
use crate::scalar::Scalars;
use crate::tape::{
    accumulates, all_within, cleared, collects, grad_out, gradient_of, hands, hands_all, hands_run,
    idle, key_of, no_zeros, none_seen, ordered, spreads, stores, sweeps, sweeps_run, turn, turns,
    visit, within, Backward, Sweep,
};
use crate::tensor::{ones_out, passes, zeros_out, Model, Outcome};

verus! {

/// A sum that comes out has no other outcome.
pub open spec fn sums_decided<S: Scalars>() -> bool {
    forall|a: Model<S>, b: Model<S>, o: Outcome<S>, p: Outcome<S>|
        #![trigger add_out::<S>(a, b, o), add_out::<S>(a, b, p)]
        add_out::<S>(a, b, o) && add_out::<S>(a, b, p) && o is Ok ==> p == o
}

/// Tensors of ones and of zeros that come out have no other outcome.
pub open spec fn fills_decided<S: Scalars>() -> bool {
    &&& forall|shape: Seq<usize>, dtype: Dtype, o: Outcome<S>, p: Outcome<S>|
        #![trigger ones_out::<S>(shape, dtype, o), ones_out::<S>(shape, dtype, p)]
        ones_out::<S>(shape, dtype, o) && ones_out::<S>(shape, dtype, p) && o is Ok ==> p == o
    &&& forall|shape: Seq<usize>, dtype: Dtype, o: Outcome<S>, p: Outcome<S>|
        #![trigger zeros_out::<S>(shape, dtype, o), zeros_out::<S>(shape, dtype, p)]
        zeros_out::<S>(shape, dtype, o) && zeros_out::<S>(shape, dtype, p) && o is Ok ==> p == o
}

/// The pieces of `node` that come out have no other outcome.
pub open spec fn node_decided<S: Scalars, B: Backward<S>>(node: B) -> bool {
    forall|gy: Model<S>, o: Result<Seq<Model<S>>, Error>, p: Result<Seq<Model<S>>, Error>|
        #![trigger node.vjp(gy, o), node.vjp(gy, p)]
        node.vjp(gy, o) && node.vjp(gy, p) && o is Ok ==> p == o
}

/// Whatever a reverse pass over `nodes` computes, it computes in one way.
pub open spec fn decided<S: Scalars, B: Backward<S>>(nodes: Seq<B>) -> bool {
    &&& sums_decided::<S>()
    &&& fills_decided::<S>()
    &&& forall|n: int| 0 <= n < nodes.len() ==> node_decided::<S, B>(#[trigger] nodes[n])
}

/// No fault after handing out the first `n` pieces, where none is left at the end.
pub(crate) proof fn lemma_hands_no_fault<S: Scalars>(
    ps: Seq<Model<S>>,
    parts: Seq<Model<S>>,
    a: Sweep<S>,
    b: Sweep<S>,
    st: Seq<Sweep<S>>,
    n: int,
)
    requires
        hands_run::<S>(ps, parts, a, b, st),
        b.fault is None,
        0 <= n <= ps.len(),
    ensures
        st[n].fault is None,
    decreases ps.len() - n,
{
    if n < ps.len() {
        lemma_hands_no_fault::<S>(ps, parts, a, b, st, n + 1);
        assert(hands::<S>(ps[n], parts[n], st[n], st[n + 1]));
    }
}

/// Two ways of handing out the same pieces agree after the first `n`.
proof fn lemma_hands_agree<S: Scalars>(
    ps: Seq<Model<S>>,
    parts: Seq<Model<S>>,
    a: Sweep<S>,
    b: Sweep<S>,
    c: Sweep<S>,
    st: Seq<Sweep<S>>,
    su: Seq<Sweep<S>>,
    n: int,
)
    requires
        sums_decided::<S>(),
        hands_run::<S>(ps, parts, a, b, st),
        hands_run::<S>(ps, parts, a, c, su),
        b.fault is None,
        0 <= n <= ps.len(),
    ensures
        su[n] == st[n],
    decreases n,
{
    if n > 0 {
        lemma_hands_agree::<S>(ps, parts, a, b, c, st, su, n - 1);
        lemma_hands_no_fault::<S>(ps, parts, a, b, st, n);
        assert(hands::<S>(ps[n - 1], parts[n - 1], st[n - 1], st[n - 1 + 1]));
        assert(hands::<S>(ps[n - 1], parts[n - 1], su[n - 1], su[n - 1 + 1]));
    }
}

proof fn lemma_stores_agree<S: Scalars>(
    t: Model<S>,
    gy: Model<S>,
    a: Sweep<S>,
    b: Sweep<S>,
    c: Sweep<S>,
)
    requires
        sums_decided::<S>(),
        stores::<S>(t, gy, a, b),
        stores::<S>(t, gy, a, c),
        a.fault is None,
        b.fault is None,
    ensures
        c == b,
{
}

proof fn lemma_spreads_agree<S: Scalars, B: Backward<S>>(
    node: B,
    gy: Model<S>,
    a: Sweep<S>,
    b: Sweep<S>,
    c: Sweep<S>,
)
    requires
        sums_decided::<S>(),
        node_decided::<S, B>(node),
        spreads::<S, B>(node, gy, a, b),
        spreads::<S, B>(node, gy, a, c),
        b.fault is None,
    ensures
        c == b,
{
    let o = choose|o: Result<Seq<Model<S>>, Error>| #[trigger]
        node.vjp(gy, o) && if o is Err {
            b == a.failed(o->Err_0)
        } else if o->Ok_0.len() != node.sources().len() {
            &&& b.fault is Some && b == a.failed(b.fault->0)
            &&& b.fault->0.says(
                ErrorKind::Domain,
                node.title(),
                "backward arity mismatch"@,
            )
        } else {
            hands_all::<S>(node.sources(), o->Ok_0, a, b)
        };
    let p = choose|p: Result<Seq<Model<S>>, Error>| #[trigger]
        node.vjp(gy, p) && if p is Err {
            c == a.failed(p->Err_0)
        } else if p->Ok_0.len() != node.sources().len() {
            &&& c.fault is Some && c == a.failed(c.fault->0)
            &&& c.fault->0.says(
                ErrorKind::Domain,
                node.title(),
                "backward arity mismatch"@,
            )
        } else {
            hands_all::<S>(node.sources(), p->Ok_0, a, c)
        };
    assert(o is Ok);
    assert(p == o);
    let ps = node.sources();
    let parts = o->Ok_0;
    let st = choose|st: Seq<Sweep<S>>| #[trigger] hands_run::<S>(ps, parts, a, b, st);
    let su = choose|su: Seq<Sweep<S>>| #[trigger] hands_run::<S>(ps, parts, a, c, su);
    lemma_hands_agree::<S>(ps, parts, a, b, c, st, su, ps.len() as int);
}

proof fn lemma_turn_agree<S: Scalars, B: Backward<S>>(
    nodes: Seq<B>,
    t: Model<S>,
    a: Sweep<S>,
    b: Sweep<S>,
    c: Sweep<S>,
)
    requires
        decided::<S, B>(nodes),
        t.grad_fn matches Some(n) ==> n < nodes.len(),
        turn::<S, B>(nodes, t, a, b),
        turn::<S, B>(nodes, t, a, c),
        b.fault is None,
    ensures
        c == b,
{
    if !(a.fault is Some || key_of(t) is None || a.at(key_of(t)->0) is None) {
        let k = key_of(t)->0;
        let gy = a.at(k)->0;
        let d = a.put(k, None);
        let m = choose|m: Sweep<S>| #[trigger]
            stores::<S>(t, gy, d, m) && if m.fault is Some || t.grad_fn is None {
                b == m
            } else {
                spreads::<S, B>(nodes[t.grad_fn->0 as int], gy, m, b)
            };
        let q = choose|q: Sweep<S>| #[trigger]
            stores::<S>(t, gy, d, q) && if q.fault is Some || t.grad_fn is None {
                c == q
            } else {
                spreads::<S, B>(nodes[t.grad_fn->0 as int], gy, q, c)
            };
        assert(turns::<S, B>(nodes, t, gy, d, b));
        assert(turns::<S, B>(nodes, t, gy, d, c));
        lemma_stores_agree::<S>(t, gy, d, m, q);
        if t.grad_fn is Some {
            let node = nodes[t.grad_fn->0 as int];
            assert(node_decided::<S, B>(node));
            lemma_spreads_agree::<S, B>(node, gy, m, b, c);
        }
    }
}

/// Two sweeps over the same list agree after the first `n` turns.
proof fn lemma_sweeps_agree<S: Scalars, B: Backward<S>>(
    nodes: Seq<B>,
    post: Seq<Model<S>>,
    slots: int,
    a: Sweep<S>,
    b: Sweep<S>,
    c: Sweep<S>,
    st: Seq<Sweep<S>>,
    su: Seq<Sweep<S>>,
    n: int,
)
    requires
        decided::<S, B>(nodes),
        all_within(post, nodes.len() as int, slots),
        sweeps_run::<S, B>(nodes, post, a, b, st),
        sweeps_run::<S, B>(nodes, post, a, c, su),
        b.fault is None,
        0 <= n <= post.len(),
    ensures
        su[n] == st[n],
    decreases n,
{
    if n > 0 {
        lemma_sweeps_agree::<S, B>(nodes, post, slots, a, b, c, st, su, n - 1);
        lemma_no_fault::<S, B>(nodes, post, a, b, st, n);
        let t = post[post.len() - 1 - (n - 1)];
        assert(turn::<S, B>(nodes, t, st[n - 1], st[n - 1 + 1]));
        assert(turn::<S, B>(nodes, t, su[n - 1], su[n - 1 + 1]));
        assert(within(t, nodes.len() as int, slots));
        lemma_turn_agree::<S, B>(nodes, t, st[n - 1], st[n], su[n]);
    }
}

/// Repeating `grad` repeats its gradients: two calls for the same output and inputs give equal
/// values, whatever the gradient slots held before either, where the arithmetic gives each
/// operation one result.
pub proof fn law_grad_repeats<S: Scalars, B: Backward<S>>(
    nodes: Seq<B>,
    output: Model<S>,
    inputs: Seq<Model<S>>,
    before: Seq<Option<Model<S>>>,
    after: Seq<Option<Model<S>>>,
    gs: Seq<Model<S>>,
    other: Seq<Option<Model<S>>>,
    other_after: Seq<Option<Model<S>>>,
    r: Result<Seq<Model<S>>, Error>,
)
    requires
        decided::<S, B>(nodes),
        ordered::<S, B>(nodes, before.len() as int),
        within(output, nodes.len() as int, before.len() as int),
        all_within(inputs, nodes.len() as int, before.len() as int),
        before.len() <= usize::MAX,
        other.len() == before.len(),
        grad_out::<S, B>(
            nodes,
            visit::<S, B>(nodes, output, none_seen(nodes.len(), before.len())),
            output,
            inputs,
            before,
            after,
            Ok(gs),
        ),
        grad_out::<S, B>(
            nodes,
            visit::<S, B>(nodes, output, none_seen(nodes.len(), before.len())),
            output,
            inputs,
            other,
            other_after,
            r,
        ),
    ensures
        r == Ok::<Seq<Model<S>>, Error>(gs),
{
    let w = visit::<S, B>(nodes, output, none_seen(nodes.len(), before.len()));
    let moved = law_grad_is_fresh::<S, B>(nodes, output, inputs, before, after, Ok(gs), other);
    let base = cleared::<S>(other, w.pre + inputs);
    let (s1, a1) = choose|seed: Outcome<S>, a: Result<(), Error>|
        {
            &&& #[trigger] ones_out::<S>(output.shape, output.dtype(), seed)
            &&& seed is Ok
            &&& #[trigger] accumulates::<S, B>(nodes, w, output, seed->Ok_0, base, moved, a)
            &&& passes(
                a,
                Ok::<Seq<Model<S>>, Error>(gs),
                collects::<S>(inputs, moved, Ok::<Seq<Model<S>>, Error>(gs)),
            )
        };
    let (s2, a2) = choose|seed: Outcome<S>, a: Result<(), Error>|
        {
            &&& #[trigger] ones_out::<S>(output.shape, output.dtype(), seed)
            &&& seed is Ok
            &&& #[trigger] accumulates::<S, B>(nodes, w, output, seed->Ok_0, base, other_after, a)
            &&& passes(a, r, collects::<S>(inputs, other_after, r))
        };
    assert(s1 == s2);
    assert(a1 is Ok);
    if key_of(output) is Some {
        let start = idle::<S>(nodes.len(), base).put(key_of(output)->0, Some(s1->Ok_0));
        let e1 = choose|end: Sweep<S>| #[trigger]
            sweeps::<S, B>(nodes, w.post, start, end) && moved == end.slots && match a1 {
                Ok(_) => end.fault is None,
                Err(e) => end.fault == Some(e),
            };
        let e2 = choose|end: Sweep<S>| #[trigger]
            sweeps::<S, B>(nodes, w.post, start, end) && other_after == end.slots && match a2 {
                Ok(_) => end.fault is None,
                Err(e) => end.fault == Some(e),
            };
        let st = choose|st: Seq<Sweep<S>>| #[trigger]
            sweeps_run::<S, B>(nodes, w.post, start, e1, st);
        let su = choose|su: Seq<Sweep<S>>| #[trigger]
            sweeps_run::<S, B>(nodes, w.post, start, e2, su);
        lemma_visit::<S, B>(
            nodes,
            before.len() as int,
            output,
            none_seen(nodes.len(), before.len()),
        );
        lemma_sweeps_agree::<S, B>(
            nodes,
            w.post,
            before.len() as int,
            start,
            e1,
            e2,
            st,
            su,
            w.post.len() as int,
        );
    }
    assert(other_after == moved);
    assert(a2 is Ok);
    match r {
        Ok(hs) => {
            assert forall|i: int| 0 <= i < gs.len() implies hs[i] == gs[i] by {
                assert(gradient_of::<S>(inputs[i], moved, gs[i]));
                assert(gradient_of::<S>(inputs[i], moved, hs[i]));
                let x = inputs[i];
                if moved[x.leaf->0 as int] is None {
                    assert(zeros_out::<S>(x.shape, x.dtype(), Ok(gs[i])));
                    assert(zeros_out::<S>(x.shape, x.dtype(), Ok(hs[i])));
                }
            }
            assert(hs =~= gs);
        },
        Err(e) => {
            let i = choose|i: int|
                0 <= i < inputs.len() && no_zeros::<S>(#[trigger] inputs[i], moved);
            assert(gradient_of::<S>(inputs[i], moved, gs[i]));
            assert(zeros_out::<S>(inputs[i].shape, inputs[i].dtype(), Ok(gs[i])));
            assert(false);
        },
    }
}

} // verus!
