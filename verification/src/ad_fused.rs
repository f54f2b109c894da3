//! Fused operations, each one node of the graph.
use vstd::prelude::*;
use crate::error::Error;
use crate::fused::{block_forward, fused_block_fwd_out, AuxModel, FusedAux, Weights, WeightsModel};
use crate::lookup::embedding_out;
use crate::loss::masked_ce_out;
use crate::nodes::{attach, kept, tracked_out, Graph, Node, Rule, RuleModel};
use crate::rules::one_part;
use crate::scalar::Scalars;
use crate::tape::views;
use crate::tensor::{outcome, Model, Outcome, Tensor};

verus! {

/// The first of two results, or the error.
pub open spec fn first_of<A, B>(o: Result<(A, B), Error>) -> Result<A, Error> {
    match o {
        Ok(p) => Ok(p.0),
        Err(e) => Err(e),
    }
}

/// What `embedding_fused` comes to.
pub open spec fn embedding_fused_tracked<S: Scalars>(
    before: Seq<Node<S>>,
    after: Seq<Node<S>>,
    table: Model<S>,
    idx: Model<S>,
    r: Outcome<S>,
) -> bool {
    exists|y: Outcome<S>| #[trigger]
        embedding_out::<S>(table, idx, y) && tracked_out::<S>(
            before,
            after,
            table.in_graph,
            y,
            seq![table],
            RuleModel::Embedding { table: table.detached(), idx: idx.detached() },
            r,
        )
}

/// Fused embedding lookup: one node instead of a gather for each entry.
pub fn embedding_fused<S: Scalars>(
    graph: &mut Graph<S>,
    table: &Tensor<S>,
    idx: &Tensor<S>,
) -> (r: Result<Tensor<S>, Error>)
    requires
        old(graph).wf(),
        old(graph).owns(table@),
        old(graph).owns(idx@),
        table@.shape.len() == 2,
    ensures
        kept::<S>(*old(graph), *final(graph), outcome(r)),
        embedding_fused_tracked::<S>(
            old(graph).nodes(),
            final(graph).nodes(),
            table@,
            idx@,
            outcome(r),
        ),
{
    let y: Tensor<S> = match crate::lookup::embedding(table, idx) {
        Ok(t) => t,
        Err(e) => {
            return Err(e);
        },
    };
    if !table.requires_grad() {
        return Ok(y);
    }
    let parents: Vec<Tensor<S>> = one_part(table.clone());
    let rule: Rule<S> = Rule::Embedding { table: table.detach(), idx: idx.detach() };
    Ok(attach(graph, y, parents, rule))
}

/// What `masked_ce` comes to: the loss, recorded with the probabilities.
pub open spec fn masked_ce_tracked<S: Scalars>(
    before: Seq<Node<S>>,
    after: Seq<Node<S>>,
    logits: Model<S>,
    targets: Model<S>,
    mask: Model<S>,
    r: Outcome<S>,
) -> bool {
    exists|o: Result<(Model<S>, Model<S>), Error>| #[trigger]
        masked_ce_out::<S>(logits, targets, mask, o) && tracked_out::<S>(
            before,
            after,
            logits.in_graph,
            first_of(o),
            seq![logits],
            RuleModel::MaskedCe {
                probs: o->Ok_0.1,
                targets: targets.detached(),
                mask: mask.detached(),
            },
            r,
        )
}

/// Masked cross-entropy as a single node. `logits` is `[N, V]`, `targets` `[N]` of classes, and `mask`
/// `[N]` of signed row weights; the loss is over the sum of their magnitudes. Zero rows contribute
/// nothing, and negative rows reverse the gradient.
pub fn masked_ce<S: Scalars>(
    graph: &mut Graph<S>,
    logits: &Tensor<S>,
    targets: &Tensor<S>,
    mask: &Tensor<S>,
) -> (r: Result<Tensor<S>, Error>)
    requires
        old(graph).wf(),
        old(graph).owns(logits@),
        old(graph).owns(targets@),
        old(graph).owns(mask@),
        logits@.shape.len() >= 2,
    ensures
        kept::<S>(*old(graph), *final(graph), outcome(r)),
        masked_ce_tracked::<S>(
            old(graph).nodes(),
            final(graph).nodes(),
            logits@,
            targets@,
            mask@,
            outcome(r),
        ),
{
    let (y, probs): (Tensor<S>, Tensor<S>) = match crate::loss::masked_ce(logits, targets, mask) {
        Ok(p) => p,
        Err(e) => {
            return Err(e);
        },
    };
    if !logits.requires_grad() {
        return Ok(y);
    }
    let parents: Vec<Tensor<S>> = one_part(logits.clone());
    let rule: Rule<S> = Rule::MaskedCe { probs, targets: targets.detach(), mask: mask.detach() };
    Ok(attach(graph, y, parents, rule))
}

/// Something of the block is in the graph.
pub open spec fn block_in_graph<S: Scalars>(x: Model<S>, w: WeightsModel<S>) -> bool {
    x.in_graph || w.wa.in_graph || w.wb.in_graph || w.wo.in_graph || w.wf1.in_graph
        || w.wf2.in_graph || w.g1.in_graph || w.g2.in_graph || w.g3.in_graph || w.g4.in_graph
}

/// All that a block takes, in order.
pub open spec fn block_sources<S: Scalars>(x: Model<S>, w: WeightsModel<S>) -> Seq<Model<S>> {
    seq![x, w.wa, w.wb, w.wo, w.wf1, w.wf2, w.g1, w.g2, w.g3, w.g4]
}

/// The rule of a block.
pub open spec fn block_rule<S: Scalars>(
    aux: AuxModel<S>,
    w: WeightsModel<S>,
    eps: S::F,
) -> RuleModel<S> {
    RuleModel::Block {
        aux,
        wa: w.wa.detached(),
        wb: w.wb.detached(),
        wo: w.wo.detached(),
        wf1: w.wf1.detached(),
        wf2: w.wf2.detached(),
        g1: w.g1.detached(),
        g2: w.g2.detached(),
        g3: w.g3.detached(),
        g4: w.g4.detached(),
        eps,
    }
}

/// What `fused_block` comes to.
pub open spec fn fused_block_tracked<S: Scalars>(
    before: Seq<Node<S>>,
    after: Seq<Node<S>>,
    x: Model<S>,
    w: WeightsModel<S>,
    eps: S::F,
    r: Outcome<S>,
) -> bool {
    exists|o: Result<(Model<S>, AuxModel<S>), Error>| #[trigger]
        fused_block_fwd_out::<S>(x, w, eps, o) && tracked_out::<S>(
            before,
            after,
            block_in_graph::<S>(x, w),
            first_of(o),
            block_sources::<S>(x, w),
            block_rule::<S>(o->Ok_0.1, w, eps),
            r,
        )
}

fn block_parents<S: Scalars>(x: &Tensor<S>, w: &Weights<S>) -> (r: Vec<Tensor<S>>)
    ensures
        views(r@) == block_sources::<S>(x@, w@),
{
    let mut v: Vec<Tensor<S>> = Vec::new();
    v.push(x.clone());
    v.push(w.wa.clone());
    v.push(w.wb.clone());
    v.push(w.wo.clone());
    v.push(w.wf1.clone());
    v.push(w.wf2.clone());
    v.push(w.g1.clone());
    v.push(w.g2.clone());
    v.push(w.g3.clone());
    v.push(w.g4.clone());
    assert(views(v@) =~= block_sources::<S>(x@, w@));
    v
}

fn block_requires_grad<S: Scalars>(x: &Tensor<S>, w: &Weights<S>) -> (r: bool)
    ensures
        r == block_in_graph::<S>(x@, w@),
{
    x.requires_grad() || w.wa.requires_grad() || w.wb.requires_grad() || w.wo.requires_grad()
        || w.wf1.requires_grad() || w.wf2.requires_grad() || w.g1.requires_grad()
        || w.g2.requires_grad() || w.g3.requires_grad() || w.g4.requires_grad()
}

fn block_rule_of<S: Scalars>(aux: FusedAux<S>, w: &Weights<S>, eps: S::F) -> (r: Rule<S>)
    ensures
        r@ == block_rule::<S>(aux@, w@, eps),
{
    Rule::Block {
        aux,
        wa: w.wa.detach(),
        wb: w.wb.detach(),
        wo: w.wo.detach(),
        wf1: w.wf1.detach(),
        wf2: w.wf2.detach(),
        g1: w.g1.detach(),
        g2: w.g2.detach(),
        g3: w.g3.detach(),
        g4: w.g4.detach(),
        eps,
    }
}

/// The fused block with its weights as one, as one node.
fn block<S: Scalars>(
    graph: &mut Graph<S>,
    x: &Tensor<S>,
    w: &Weights<S>,
    eps: S::F,
) -> (r: Result<Tensor<S>, Error>)
    requires
        old(graph).wf(),
        old(graph).owns_all(block_sources::<S>(x@, w@)),
    ensures
        kept::<S>(*old(graph), *final(graph), outcome(r)),
        fused_block_tracked::<S>(
            old(graph).nodes(),
            final(graph).nodes(),
            x@,
            w@,
            eps,
            outcome(r),
        ),
{
    let (y, aux): (Tensor<S>, FusedAux<S>) = match block_forward(x, w, eps) {
        Ok(p) => p,
        Err(e) => {
            return Err(e);
        },
    };
    if !block_requires_grad(x, w) {
        return Ok(y);
    }
    let parents: Vec<Tensor<S>> = block_parents(x, w);
    let rule: Rule<S> = block_rule_of(aux, w, eps);
    Ok(attach(graph, y, parents, rule))
}

/// The fused layer block as one node. `wa` is `[D + 1, D]` whose last row is a bias, `wb`
/// and `wo` are `[D, D]`, `wf1` `[D, 2D]`, `wf2` `[2D, D]`, the gains `[D]`.
pub fn fused_block<S: Scalars>(
    graph: &mut Graph<S>,
    x: &Tensor<S>,
    wa: &Tensor<S>,
    wb: &Tensor<S>,
    wo: &Tensor<S>,
    wf1: &Tensor<S>,
    wf2: &Tensor<S>,
    g1: &Tensor<S>,
    g2: &Tensor<S>,
    g3: &Tensor<S>,
    g4: &Tensor<S>,
    eps: S::F,
) -> (r: Result<Tensor<S>, Error>)
    requires
        old(graph).wf(),
        old(graph).owns(x@),
        old(graph).owns(wa@),
        old(graph).owns(wb@),
        old(graph).owns(wo@),
        old(graph).owns(wf1@),
        old(graph).owns(wf2@),
        old(graph).owns(g1@),
        old(graph).owns(g2@),
        old(graph).owns(g3@),
        old(graph).owns(g4@),
    ensures
        kept::<S>(*old(graph), *final(graph), outcome(r)),
        fused_block_tracked::<S>(
            old(graph).nodes(),
            final(graph).nodes(),
            x@,
            (WeightsModel {
                wa: wa@,
                wb: wb@,
                wo: wo@,
                wf1: wf1@,
                wf2: wf2@,
                g1: g1@,
                g2: g2@,
                g3: g3@,
                g4: g4@,
            }),
            eps,
            outcome(r),
        ),
{
    block(graph, x, &Weights { wa, wb, wo, wf1, wf2, g1, g2, g3, g4 }, eps)
}

} // verus!
