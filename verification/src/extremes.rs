//! Elementwise maximum and minimum of two tensors.
use vstd::prelude::*;

use crate::cpu::{arith_error, arith_value};
use crate::dtype::Dtype;
use crate::elementwise::{binary_f32, binary_float, lemma_binary_weaken};
use crate::error::Error;
use crate::nodes::{attach, kept, produced, recorded, Graph, Node, Rule, RuleModel};
use crate::rules::two_parts;
use crate::scalar::{is_one, is_ratio, is_zero, Arith, Scalars};
use crate::tensor::{copied, gives, outcome, Model, Outcome, Tensor};

verus! {

/// `r` is the greater of the two: `x` where it is above `y`, and `y` elsewhere. What is not the same
/// as itself comes out, on whichever side it stands.
pub open spec fn greater_of<T, A: Arith<T>>(x: T, y: T, r: T) -> bool {
    exists|up: bool, own: bool| #[trigger]
        call_ensures(A::above, (x, y), up) && #[trigger] call_ensures(A::same, (x, x), own) && r
            == if up || !own {
            x
        } else {
            y
        }
}

/// `r` is the lesser of the two: `x` where `y` is above it, and `y` elsewhere. What is not the same
/// as itself comes out, on whichever side it stands.
pub open spec fn lesser_of<T, A: Arith<T>>(x: T, y: T, r: T) -> bool {
    exists|down: bool, own: bool| #[trigger]
        call_ensures(A::above, (y, x), down) && #[trigger] call_ensures(A::same, (x, x), own) && r
            == if down || !own {
            x
        } else {
            y
        }
}

/// `d` is the share of `x` in a choice that prefers the greater: one where `x` is above `y`, zero
/// where `y` is above `x`, and a half where neither is above the other.
pub open spec fn share_of<T, A: Arith<T>>(x: T, y: T, d: T) -> bool {
    exists|up: bool, down: bool| #[trigger]
        call_ensures(A::above, (x, y), up) && #[trigger] call_ensures(A::above, (y, x), down) && if
        up {
            is_one::<T, A>(d)
        } else if down {
            is_zero::<T, A>(d)
        } else {
            is_ratio::<T, A>(1, 2, d)
        }
}

/// The greater of two numbers.
pub open spec fn greater_rel<T, A: Arith<T>>() -> spec_fn(T, T, T) -> bool {
    |x: T, y: T, r: T| greater_of::<T, A>(x, y, r)
}

/// The lesser of two numbers.
pub open spec fn lesser_rel<T, A: Arith<T>>() -> spec_fn(T, T, T) -> bool {
    |x: T, y: T, r: T| lesser_of::<T, A>(x, y, r)
}

/// The share of the first of two numbers.
pub open spec fn share_rel<T, A: Arith<T>>() -> spec_fn(T, T, T) -> bool {
    |x: T, y: T, d: T| share_of::<T, A>(x, y, d)
}

fn greater_number<T: Copy, A: Arith<T>>(x: T, y: T) -> (r: T)
    ensures
        greater_of::<T, A>(x, y, r),
{
    let up: bool = A::above(x, y);
    let own: bool = A::same(x, x);
    assert(call_ensures(A::above, (x, y), up) && call_ensures(A::same, (x, x), own));
    if up || !own {
        x
    } else {
        y
    }
}

fn lesser_number<T: Copy, A: Arith<T>>(x: T, y: T) -> (r: T)
    ensures
        lesser_of::<T, A>(x, y, r),
{
    let down: bool = A::above(y, x);
    let own: bool = A::same(x, x);
    assert(call_ensures(A::above, (y, x), down) && call_ensures(A::same, (x, x), own));
    if down || !own {
        x
    } else {
        y
    }
}

fn share_number<T: Copy, A: Arith<T>>(x: T, y: T) -> (d: T)
    ensures
        share_of::<T, A>(x, y, d),
{
    let up: bool = A::above(x, y);
    let down: bool = A::above(y, x);
    assert(call_ensures(A::above, (x, y), up) && call_ensures(A::above, (y, x), down));
    if up {
        A::one()
    } else if down {
        A::zero()
    } else {
        A::ratio(1, 2)
    }
}

/// What an elementwise choice between two tensors comes to. Operands that do not fit are refused as
/// those of a sum are.
pub open spec fn choice_out<S: Scalars>(
    a: Model<S>,
    b: Model<S>,
    rel32: spec_fn(S::F, S::F, S::F) -> bool,
    rel64: spec_fn(S::D, S::D, S::D) -> bool,
    r: Outcome<S>,
) -> bool {
    match r {
        Ok(t) => arith_value::<S>(a, b, rel32, rel64, t),
        Err(e) => arith_error(e, "add"@, a, b),
    }
}

/// Combines two tensors elementwise, with broadcasting.
fn combine<
    S: Scalars,
    F: Fn(S::F, S::F) -> S::F + Sync + Send,
    G: Fn(S::D, S::D) -> S::D + Sync + Send,
>(
    a: &Tensor<S>,
    b: &Tensor<S>,
    f: F,
    g: G,
    Ghost(rel32): Ghost<spec_fn(S::F, S::F, S::F) -> bool>,
    Ghost(rel64): Ghost<spec_fn(S::D, S::D, S::D) -> bool>,
) -> (r: Result<Tensor<S>, Error>)
    requires
        forall|x: S::F, y: S::F| #[trigger] call_requires(f, (x, y)),
        forall|x: S::D, y: S::D| #[trigger] call_requires(g, (x, y)),
        forall|x: S::F, y: S::F, z: S::F| #[trigger] call_ensures(f, (x, y), z) ==> rel32(x, y, z),
        forall|x: S::D, y: S::D, z: S::D| #[trigger] call_ensures(g, (x, y), z) ==> rel64(x, y, z),
    ensures
        choice_out::<S>(a@, b@, rel32, rel64, outcome(r)),
{
    if a.dtype() == Dtype::F32 && b.dtype() == Dtype::F32 {
        let r: Result<Tensor<S>, Error> = binary_f32("add", a, b, f);
        proof {
            if r is Ok {
                lemma_binary_weaken::<S>(
                    a@,
                    b@,
                    |x: S::F, y: S::F, z: S::F| call_ensures(f, (x, y), z),
                    |x: S::D, y: S::D, z: S::D| false,
                    rel32,
                    rel64,
                    r->Ok_0@,
                );
            }
        }
        return r;
    }
    let r: Result<Tensor<S>, Error> = binary_float("add", a, b, f, g);
    proof {
        if r is Ok {
            lemma_binary_weaken::<S>(
                a@,
                b@,
                |x: S::F, y: S::F, z: S::F| call_ensures(f, (x, y), z),
                |x: S::D, y: S::D, z: S::D| call_ensures(g, (x, y), z),
                rel32,
                rel64,
                r->Ok_0@,
            );
        }
    }
    r
}

/// What the elementwise maximum comes to, without the graph.
pub open spec fn maximum_out<S: Scalars>(a: Model<S>, b: Model<S>, r: Outcome<S>) -> bool {
    choice_out::<S>(a, b, greater_rel::<S::F, S>(), greater_rel::<S::D, S>(), r)
}

/// What the elementwise minimum comes to, without the graph.
pub open spec fn minimum_out<S: Scalars>(a: Model<S>, b: Model<S>, r: Outcome<S>) -> bool {
    choice_out::<S>(a, b, lesser_rel::<S::F, S>(), lesser_rel::<S::D, S>(), r)
}

/// What the shares of `x` in a choice between `x` and `y` come to.
pub open spec fn shares_out<S: Scalars>(x: Model<S>, y: Model<S>, r: Outcome<S>) -> bool {
    choice_out::<S>(x, y, share_rel::<S::F, S>(), share_rel::<S::D, S>(), r)
}

fn maximum_values<S: Scalars>(a: &Tensor<S>, b: &Tensor<S>) -> (r: Result<Tensor<S>, Error>)
    ensures
        maximum_out::<S>(a@, b@, outcome(r)),
{
    let f = |x: S::F, y: S::F| -> (z: S::F)
        ensures
            greater_of::<S::F, S>(x, y, z)
    { greater_number::<S::F, S>(x, y) };
    let g = |x: S::D, y: S::D| -> (z: S::D)
        ensures
            greater_of::<S::D, S>(x, y, z)
    { greater_number::<S::D, S>(x, y) };
    combine(
        a,
        b,
        f,
        g,
        Ghost(greater_rel::<S::F, S>()),
        Ghost(greater_rel::<S::D, S>()),
    )
}

fn minimum_values<S: Scalars>(a: &Tensor<S>, b: &Tensor<S>) -> (r: Result<Tensor<S>, Error>)
    ensures
        minimum_out::<S>(a@, b@, outcome(r)),
{
    let f = |x: S::F, y: S::F| -> (z: S::F)
        ensures
            lesser_of::<S::F, S>(x, y, z)
    { lesser_number::<S::F, S>(x, y) };
    let g = |x: S::D, y: S::D| -> (z: S::D)
        ensures
            lesser_of::<S::D, S>(x, y, z)
    { lesser_number::<S::D, S>(x, y) };
    combine(
        a,
        b,
        f,
        g,
        Ghost(lesser_rel::<S::F, S>()),
        Ghost(lesser_rel::<S::D, S>()),
    )
}

fn shares<S: Scalars>(x: &Tensor<S>, y: &Tensor<S>) -> (r: Result<Tensor<S>, Error>)
    ensures
        shares_out::<S>(x@, y@, outcome(r)),
{
    let f = |u: S::F, v: S::F| -> (d: S::F)
        ensures
            share_of::<S::F, S>(u, v, d)
    { share_number::<S::F, S>(u, v) };
    let g = |u: S::D, v: S::D| -> (d: S::D)
        ensures
            share_of::<S::D, S>(u, v, d)
    { share_number::<S::D, S>(u, v) };
    combine(x, y, f, g, Ghost(share_rel::<S::F, S>()), Ghost(share_rel::<S::D, S>()))
}

/// What the choice `y` between `a` and `b` comes to: as it is outside the graph, and recorded with the
/// shares of either operand in it.
pub open spec fn choice_tracked<S: Scalars>(
    before: Seq<Node<S>>,
    after: Seq<Node<S>>,
    op: Seq<char>,
    a: Model<S>,
    b: Model<S>,
    greater: bool,
    y: Outcome<S>,
    r: Outcome<S>,
) -> bool {
    if !(a.in_graph || b.in_graph) || y is Err {
        after == before && r == y
    } else {
        exists|o: Outcome<S>| #[trigger]
            shares_out::<S>(a, b, o) && match o {
                Err(e) => after == before && r == Outcome::<S>::Err(e),
                Ok(up) => choice_recorded::<S>(before, after, op, a, b, greater, y->Ok_0, up, r),
            }
    }
}

/// The choice recorded, once the shares `up` of `a` in a choice of the greater are there.
pub open spec fn choice_recorded<S: Scalars>(
    before: Seq<Node<S>>,
    after: Seq<Node<S>>,
    op: Seq<char>,
    a: Model<S>,
    b: Model<S>,
    greater: bool,
    y: Model<S>,
    up: Model<S>,
    r: Outcome<S>,
) -> bool {
    exists|o: Outcome<S>| #[trigger]
        shares_out::<S>(b, a, o) && match o {
            Err(e) => after == before && r == Outcome::<S>::Err(e),
            Ok(down) => recorded::<S>(
                before,
                after,
                seq![a, b],
                choice_rule::<S>(op, a, b, greater, up, down),
            ) && gives(r, produced::<S>(y, before.len() as int)),
        }
}

/// The reverse rule of a choice: a maximum goes by the shares in a choice of the greater, a minimum
/// by those of the other operand.
pub open spec fn choice_rule<S: Scalars>(
    op: Seq<char>,
    a: Model<S>,
    b: Model<S>,
    greater: bool,
    up: Model<S>,
    down: Model<S>,
) -> RuleModel<S> {
    RuleModel::Pair {
        name: op,
        da: if greater {
            up
        } else {
            down
        },
        db: if greater {
            down
        } else {
            up
        },
        a_shape: a.shape,
        b_shape: b.shape,
    }
}

fn record_choice<S: Scalars>(
    graph: &mut Graph<S>,
    op: &'static str,
    a: &Tensor<S>,
    b: &Tensor<S>,
    greater: bool,
    y: Result<Tensor<S>, Error>,
) -> (r: Result<Tensor<S>, Error>)
    requires
        old(graph).wf(),
        old(graph).owns(a@),
        old(graph).owns(b@),
        y is Ok ==> old(graph).owns(y->Ok_0@),
    ensures
        kept::<S>(*old(graph), *final(graph), outcome(r)),
        choice_tracked::<S>(
            old(graph).nodes(),
            final(graph).nodes(),
            op@,
            a@,
            b@,
            greater,
            outcome(y),
            outcome(r),
        ),
{
    let y: Tensor<S> = match y {
        Ok(t) => t,
        Err(e) => {
            return Err(e);
        },
    };
    if !(a.requires_grad() || b.requires_grad()) {
        return Ok(y);
    }
    let up: Tensor<S> = match shares(a, b) {
        Ok(t) => t,
        Err(e) => {
            return Err(e);
        },
    };
    let down: Tensor<S> = match shares(b, a) {
        Ok(t) => t,
        Err(e) => {
            let r: Result<Tensor<S>, Error> = Err(e);
            assert(choice_recorded::<S>(
                old(graph).nodes(),
                graph.nodes(),
                op@,
                a@,
                b@,
                greater,
                y@,
                up@,
                outcome(r),
            ));
            return r;
        },
    };
    let ghost (u, d, value) = (up@, down@, y@);
    let (da, db): (Tensor<S>, Tensor<S>) = if greater {
        (up, down)
    } else {
        (down, up)
    };
    let parents: Vec<Tensor<S>> = two_parts(a.clone(), b.clone());
    let rule: Rule<S> = Rule::Pair {
        name: op,
        da,
        db,
        a_shape: copied(a.shape()),
        b_shape: copied(b.shape()),
    };
    let r: Result<Tensor<S>, Error> = Ok(attach(graph, y, parents, rule));
    assert(choice_recorded::<S>(
        old(graph).nodes(),
        graph.nodes(),
        op@,
        a@,
        b@,
        greater,
        value,
        u,
        outcome(r),
    ));
    r
}

/// What `maximum` comes to.
pub open spec fn maximum_tracked<S: Scalars>(
    before: Seq<Node<S>>,
    after: Seq<Node<S>>,
    a: Model<S>,
    b: Model<S>,
    r: Outcome<S>,
) -> bool {
    exists|y: Outcome<S>| #[trigger]
        maximum_out::<S>(a, b, y) && choice_tracked::<S>(
            before,
            after,
            "maximum"@,
            a,
            b,
            true,
            y,
            r,
        )
}

/// Elementwise maximum `max(a, b)`, differentiable through both. Where the two are level, either gets
/// half of the cotangent.
pub fn maximum<S: Scalars>(
    graph: &mut Graph<S>,
    a: &Tensor<S>,
    b: &Tensor<S>,
) -> (r: Result<Tensor<S>, Error>)
    requires
        old(graph).wf(),
        old(graph).owns(a@),
        old(graph).owns(b@),
    ensures
        kept::<S>(*old(graph), *final(graph), outcome(r)),
        maximum_tracked::<S>(
            old(graph).nodes(),
            final(graph).nodes(),
            a@,
            b@,
            outcome(r),
        ),
{
    let y: Result<Tensor<S>, Error> = maximum_values(a, b);
    record_choice(graph, "maximum", a, b, true, y)
}

/// What `minimum` comes to.
pub open spec fn minimum_tracked<S: Scalars>(
    before: Seq<Node<S>>,
    after: Seq<Node<S>>,
    a: Model<S>,
    b: Model<S>,
    r: Outcome<S>,
) -> bool {
    exists|y: Outcome<S>| #[trigger]
        minimum_out::<S>(a, b, y) && choice_tracked::<S>(
            before,
            after,
            "minimum"@,
            a,
            b,
            false,
            y,
            r,
        )
}

/// Elementwise minimum `min(a, b)`, differentiable through both. Where the two are level, either gets
/// half of the cotangent.
pub fn minimum<S: Scalars>(
    graph: &mut Graph<S>,
    a: &Tensor<S>,
    b: &Tensor<S>,
) -> (r: Result<Tensor<S>, Error>)
    requires
        old(graph).wf(),
        old(graph).owns(a@),
        old(graph).owns(b@),
    ensures
        kept::<S>(*old(graph), *final(graph), outcome(r)),
        minimum_tracked::<S>(
            old(graph).nodes(),
            final(graph).nodes(),
            a@,
            b@,
            outcome(r),
        ),
{
    let y: Result<Tensor<S>, Error> = minimum_values(a, b);
    record_choice(graph, "minimum", a, b, false, y)
}

} // verus!
