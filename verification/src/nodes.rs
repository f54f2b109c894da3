//! Nodes of the recorded graph.
use vstd::prelude::*;
use crate::dtype::Dtype;
use crate::error::Error;
use crate::fused::{AuxModel, FusedAux, Weights, WeightsModel};
use crate::routes::{
    amax_parts, amax_vjp, cat_parts, cat_vjp, lookup_parts, lookup_vjp, nll_parts, nll_vjp,
    slice_parts, slice_vjp,
};
use crate::rules::{
    add_parts, add_vjp, block_parts, block_vjp, pair_parts, pair_vjp, embedding_parts,
    embedding_vjp, gather_parts, gather_vjp, local_parts, local_vjp, log_softmax_parts,
    log_softmax_vjp, masked_parts, masked_vjp, matmul_parts, matmul_vjp, mean_parts, mean_vjp,
    mul_parts, mul_vjp, one_part, relu_parts, relu_vjp, reshape_parts, reshape_vjp, rms_parts,
    rms_vjp, scan_parts, scan_vjp, softmax_parts, softmax_vjp, stop_parts, stop_vjp, sub_parts,
    sub_vjp, sum_parts, sum_vjp, take_parts, take_vjp, tanh_parts, tanh_vjp, transpose_parts,
    transpose_vjp, unsqueeze_parts, unsqueeze_vjp,
};
use crate::scalar::Scalars;
use crate::tape::{parts_outcome, views, Backward, Tape};
use crate::tensor::{gives, Model, Outcome, Tensor, TensorModel};
use crate::views::Range3;

verus! {

/// The operation of a node, with what its rule of differentiation needs.
pub enum Rule<S: Scalars> {
    /// `a + b`, with the operands' shapes.
    Add {
        a_shape: Vec<usize>,
        b_shape: Vec<usize>,
    },
    /// `a - b`, with the operands' shapes.
    Sub {
        a_shape: Vec<usize>,
        b_shape: Vec<usize>,
    },
    /// `a * b`, with the operands.
    Mul {
        a: Tensor<S>,
        b: Tensor<S>,
    },
    /// An operation on two tensors, with its name, the local derivatives and the operands' shapes.
    Pair {
        name: &'static str,
        da: Tensor<S>,
        db: Tensor<S>,
        a_shape: Vec<usize>,
        b_shape: Vec<usize>,
    },
    /// `a @ b`, with the operands.
    Matmul {
        a: Tensor<S>,
        b: Tensor<S>,
    },
    /// ReLU, with its argument.
    Relu {
        x: Tensor<S>,
    },
    /// Hyperbolic tangent, with its value.
    Tanh {
        y: Tensor<S>,
    },
    /// A sum, with the shape that was summed and the marked axes.
    Sum {
        shape: Vec<usize>,
        marks: Vec<bool>,
        keep: bool,
    },
    /// A mean over `n` elements, with the shape that was averaged and the marked axes.
    Mean {
        shape: Vec<usize>,
        marks: Vec<bool>,
        keep: bool,
        n: S::D,
    },
    /// A stopped gradient.
    Stop,
    /// The identity.
    Same,
    /// An elementwise operation of the given name, with its local derivative.
    Local {
        name: &'static str,
        gx: Tensor<S>,
    },
    /// A new axis of size one.
    Unsqueeze {
        at: isize,
    },
    /// A concatenation, with the sizes along the axis.
    Cat {
        axis: usize,
        sizes: Vec<usize>,
    },
    /// A gather, with its index and the shape that was gathered from.
    Gather {
        at: isize,
        index: Tensor<S>,
        shape: Vec<usize>,
    },
    /// A maximum along an axis, with its argument.
    Amax {
        x: Tensor<S>,
        axis: usize,
        keep: bool,
    },
    /// A take, with its index and the shape that was taken from.
    Take {
        index: Tensor<S>,
        shape: Vec<usize>,
    },
    /// A slice, with the shape that was sliced.
    Slice {
        shape: Vec<usize>,
        ranges: Vec<Range3>,
    },
    /// A transpose.
    Transpose,
    /// A reshape, with the former shape.
    Reshape {
        former: Vec<isize>,
    },
    /// A gated scan, with its gates and states.
    Scan {
        a: Tensor<S>,
        h: Tensor<S>,
    },
    /// An RMS normalization, with its argument.
    Rms {
        x: Tensor<S>,
        eps: S::F,
    },
    /// A fused lookup, with the table and the entries.
    Embedding {
        table: Tensor<S>,
        idx: Tensor<S>,
    },
    /// A masked loss, with the probabilities, classes and weights.
    MaskedCe {
        probs: Tensor<S>,
        targets: Tensor<S>,
        mask: Tensor<S>,
    },
    /// A fused block, with what it kept and its weights.
    Block {
        aux: FusedAux<S>,
        wa: Tensor<S>,
        wb: Tensor<S>,
        wo: Tensor<S>,
        wf1: Tensor<S>,
        wf2: Tensor<S>,
        g1: Tensor<S>,
        g2: Tensor<S>,
        g3: Tensor<S>,
        g4: Tensor<S>,
        eps: S::F,
    },
    /// A softmax, with its value.
    Softmax {
        y: Tensor<S>,
        axis: usize,
    },
    /// A log-softmax, with its value.
    LogSoftmax {
        y: Tensor<S>,
        axis: usize,
    },
    /// A negative log-likelihood of `classes` classes, with the classes that were asked for.
    Nll {
        targets: Tensor<S>,
        batch: usize,
        classes: usize,
        dtype: Dtype,
    },
    /// A row lookup, with the entries and the shape of the table.
    Lookup {
        indices: Tensor<S>,
        rows: Vec<usize>,
    },
}

/// What a rule holds.
pub ghost enum RuleModel<S: Scalars> {
    /// `a + b`, with the operands' shapes.
    Add {
        a_shape: Seq<usize>,
        b_shape: Seq<usize>,
    },
    /// `a - b`, with the operands' shapes.
    Sub {
        a_shape: Seq<usize>,
        b_shape: Seq<usize>,
    },
    /// `a * b`, with the operands.
    Mul {
        a: Model<S>,
        b: Model<S>,
    },
    /// An operation on two tensors, with its name, the local derivatives and the operands' shapes.
    Pair {
        name: Seq<char>,
        da: Model<S>,
        db: Model<S>,
        a_shape: Seq<usize>,
        b_shape: Seq<usize>,
    },
    /// `a @ b`, with the operands.
    Matmul {
        a: Model<S>,
        b: Model<S>,
    },
    /// ReLU, with its argument.
    Relu {
        x: Model<S>,
    },
    /// Hyperbolic tangent, with its value.
    Tanh {
        y: Model<S>,
    },
    /// A sum, with the shape that was summed and the marked axes.
    Sum {
        shape: Seq<usize>,
        marks: Seq<bool>,
        keep: bool,
    },
    /// A mean over `n` elements, with the shape that was averaged and the marked axes.
    Mean {
        shape: Seq<usize>,
        marks: Seq<bool>,
        keep: bool,
        n: S::D,
    },
    /// A stopped gradient.
    Stop,
    /// The identity.
    Same,
    /// An elementwise operation of the given name, with its local derivative.
    Local {
        name: Seq<char>,
        gx: Model<S>,
    },
    /// A new axis of size one.
    Unsqueeze {
        at: isize,
    },
    /// A concatenation, with the sizes along the axis.
    Cat {
        axis: usize,
        sizes: Seq<usize>,
    },
    /// A gather, with its index and the shape that was gathered from.
    Gather {
        at: isize,
        index: Model<S>,
        shape: Seq<usize>,
    },
    /// A maximum along an axis, with its argument.
    Amax {
        x: Model<S>,
        axis: usize,
        keep: bool,
    },
    /// A take, with its index and the shape that was taken from.
    Take {
        index: Model<S>,
        shape: Seq<usize>,
    },
    /// A slice, with the shape that was sliced.
    Slice {
        shape: Seq<usize>,
        ranges: Seq<Range3>,
    },
    /// A transpose.
    Transpose,
    /// A reshape, with the former shape.
    Reshape {
        former: Seq<isize>,
    },
    /// A gated scan, with its gates and states.
    Scan {
        a: Model<S>,
        h: Model<S>,
    },
    /// An RMS normalization, with its argument.
    Rms {
        x: Model<S>,
        eps: S::F,
    },
    /// A fused lookup, with the table and the entries.
    Embedding {
        table: Model<S>,
        idx: Model<S>,
    },
    /// A masked loss, with the probabilities, classes and weights.
    MaskedCe {
        probs: Model<S>,
        targets: Model<S>,
        mask: Model<S>,
    },
    /// A fused block, with what it kept and its weights.
    Block {
        aux: AuxModel<S>,
        wa: Model<S>,
        wb: Model<S>,
        wo: Model<S>,
        wf1: Model<S>,
        wf2: Model<S>,
        g1: Model<S>,
        g2: Model<S>,
        g3: Model<S>,
        g4: Model<S>,
        eps: S::F,
    },
    /// A softmax, with its value.
    Softmax {
        y: Model<S>,
        axis: usize,
    },
    /// A log-softmax, with its value.
    LogSoftmax {
        y: Model<S>,
        axis: usize,
    },
    /// A negative log-likelihood of `classes` classes, with the classes that were asked for.
    Nll {
        targets: Model<S>,
        batch: usize,
        classes: usize,
        dtype: Dtype,
    },
    /// A row lookup, with the entries and the shape of the table.
    Lookup {
        indices: Model<S>,
        rows: Seq<usize>,
    },
}

impl<S: Scalars> View for Rule<S> {
    type V = RuleModel<S>;

    open spec fn view(&self) -> RuleModel<S> {
        match self {
            Rule::Add { a_shape, b_shape } => RuleModel::Add {
                a_shape: a_shape@,
                b_shape: b_shape@,
            },
            Rule::Sub { a_shape, b_shape } => RuleModel::Sub {
                a_shape: a_shape@,
                b_shape: b_shape@,
            },
            Rule::Mul { a, b } => RuleModel::Mul { a: a@, b: b@ },
            Rule::Pair { name, da, db, a_shape, b_shape } => RuleModel::Pair {
                name: name@,
                da: da@,
                db: db@,
                a_shape: a_shape@,
                b_shape: b_shape@,
            },
            Rule::Matmul { a, b } => RuleModel::Matmul { a: a@, b: b@ },
            Rule::Relu { x } => RuleModel::Relu { x: x@ },
            Rule::Tanh { y } => RuleModel::Tanh { y: y@ },
            Rule::Sum { shape, marks, keep } => RuleModel::Sum {
                shape: shape@,
                marks: marks@,
                keep: *keep,
            },
            Rule::Mean { shape, marks, keep, n } => RuleModel::Mean {
                shape: shape@,
                marks: marks@,
                keep: *keep,
                n: *n,
            },
            Rule::Stop => RuleModel::Stop,
            Rule::Same => RuleModel::Same,
            Rule::Local { name, gx } => RuleModel::Local { name: name@, gx: gx@ },
            Rule::Unsqueeze { at } => RuleModel::Unsqueeze { at: *at },
            Rule::Cat { axis, sizes } => RuleModel::Cat { axis: *axis, sizes: sizes@ },
            Rule::Gather { at, index, shape } => RuleModel::Gather {
                at: *at,
                index: index@,
                shape: shape@,
            },
            Rule::Amax { x, axis, keep } => RuleModel::Amax { x: x@, axis: *axis, keep: *keep },
            Rule::Take { index, shape } => RuleModel::Take { index: index@, shape: shape@ },
            Rule::Slice { shape, ranges } => RuleModel::Slice { shape: shape@, ranges: ranges@ },
            Rule::Transpose => RuleModel::Transpose,
            Rule::Reshape { former } => RuleModel::Reshape { former: former@ },
            Rule::Scan { a, h } => RuleModel::Scan { a: a@, h: h@ },
            Rule::Rms { x, eps } => RuleModel::Rms { x: x@, eps: *eps },
            Rule::Embedding { table, idx } => RuleModel::Embedding { table: table@, idx: idx@ },
            Rule::MaskedCe { probs, targets, mask } => RuleModel::MaskedCe {
                probs: probs@,
                targets: targets@,
                mask: mask@,
            },
            Rule::Block { aux, wa, wb, wo, wf1, wf2, g1, g2, g3, g4, eps } => RuleModel::Block {
                aux: aux@,
                wa: wa@,
                wb: wb@,
                wo: wo@,
                wf1: wf1@,
                wf2: wf2@,
                g1: g1@,
                g2: g2@,
                g3: g3@,
                g4: g4@,
                eps: *eps,
            },
            Rule::Softmax { y, axis } => RuleModel::Softmax { y: y@, axis: *axis },
            Rule::LogSoftmax { y, axis } => RuleModel::LogSoftmax { y: y@, axis: *axis },
            Rule::Nll { targets, batch, classes, dtype } => RuleModel::Nll {
                targets: targets@,
                batch: *batch,
                classes: *classes,
                dtype: *dtype,
            },
            Rule::Lookup { indices, rows } => RuleModel::Lookup { indices: indices@, rows: rows@ },
        }
    }
}

/// The name of the operation.
pub open spec fn rule_title<S: Scalars>(rule: RuleModel<S>) -> Seq<char> {
    match rule {
        RuleModel::Add { .. } => "add"@,
        RuleModel::Sub { .. } => "sub"@,
        RuleModel::Mul { .. } => "mul"@,
        RuleModel::Pair { name, .. } => name,
        RuleModel::Matmul { .. } => "matmul"@,
        RuleModel::Relu { .. } => "relu"@,
        RuleModel::Tanh { .. } => "tanh"@,
        RuleModel::Sum { .. } => "sum"@,
        RuleModel::Mean { .. } => "mean"@,
        RuleModel::Stop => "stop_gradient"@,
        RuleModel::Same => "identity"@,
        RuleModel::Local { name, .. } => name,
        RuleModel::Unsqueeze { .. } => "unsqueeze"@,
        RuleModel::Cat { .. } => "cat"@,
        RuleModel::Gather { .. } => "gather"@,
        RuleModel::Amax { .. } => "amax"@,
        RuleModel::Take { .. } => "take"@,
        RuleModel::Slice { .. } => "slice"@,
        RuleModel::Transpose => "transpose"@,
        RuleModel::Reshape { .. } => "reshape"@,
        RuleModel::Scan { .. } => "gated_scan"@,
        RuleModel::Rms { .. } => "rms_norm"@,
        RuleModel::Embedding { .. } => "embedding_fused"@,
        RuleModel::MaskedCe { .. } => "masked_ce"@,
        RuleModel::Block { .. } => "fused_block"@,
        RuleModel::Softmax { .. } => "softmax"@,
        RuleModel::LogSoftmax { .. } => "log_softmax"@,
        RuleModel::Nll { .. } => "nll_loss"@,
        RuleModel::Lookup { .. } => "embedding"@,
    }
}

/// What the rule makes of the cotangent `gy`.
pub open spec fn rule_parts<S: Scalars>(
    rule: RuleModel<S>,
    gy: Model<S>,
    r: Result<Seq<Model<S>>, Error>,
) -> bool {
    match rule {
        RuleModel::Add { a_shape, b_shape } => add_parts::<S>(a_shape, b_shape, gy, r),
        RuleModel::Sub { a_shape, b_shape } => sub_parts::<S>(a_shape, b_shape, gy, r),
        RuleModel::Mul { a, b } => mul_parts::<S>(a, b, gy, r),
        RuleModel::Pair { da, db, a_shape, b_shape, .. } => pair_parts::<S>(
            da,
            db,
            a_shape,
            b_shape,
            gy,
            r,
        ),
        RuleModel::Matmul { a, b } => matmul_parts::<S>(a, b, gy, r),
        RuleModel::Relu { x } => relu_parts::<S>(x, gy, r),
        RuleModel::Tanh { y } => tanh_parts::<S>(y, gy, r),
        RuleModel::Sum { shape, marks, keep } => sum_parts::<S>(shape, marks, keep, gy, r),
        RuleModel::Mean { shape, marks, keep, n } => mean_parts::<S>(shape, marks, keep, n, gy, r),
        RuleModel::Stop => stop_parts::<S>(gy, r),
        RuleModel::Same => gives(r, seq![gy]),
        RuleModel::Local { gx, .. } => local_parts::<S>(gx, gy, r),
        RuleModel::Unsqueeze { at } => unsqueeze_parts::<S>(at, gy, r),
        RuleModel::Cat { axis, sizes } => cat_parts::<S>(gy, axis, sizes, 0, 0, Seq::empty(), r),
        RuleModel::Gather { at, index, shape } => gather_parts::<S>(at, index, shape, gy, r),
        RuleModel::Amax { x, axis, keep } => amax_parts::<S>(x, axis, keep, gy, r),
        RuleModel::Take { index, shape } => take_parts::<S>(index, shape, gy, r),
        RuleModel::Slice { shape, ranges } => slice_parts::<S>(shape, ranges, gy, r),
        RuleModel::Transpose => transpose_parts::<S>(gy, r),
        RuleModel::Reshape { former } => reshape_parts::<S>(former, gy, r),
        RuleModel::Scan { a, h } => scan_parts::<S>(a, h, gy, r),
        RuleModel::Rms { x, eps } => rms_parts::<S>(x, eps, gy, r),
        RuleModel::Embedding { table, idx } => embedding_parts::<S>(table, idx, gy, r),
        RuleModel::MaskedCe { probs, targets, mask } => masked_parts::<S>(
            probs,
            targets,
            mask,
            gy,
            r,
        ),
        RuleModel::Block { aux, wa, wb, wo, wf1, wf2, g1, g2, g3, g4, eps } => block_parts::<S>(
            aux,
            WeightsModel { wa, wb, wo, wf1, wf2, g1, g2, g3, g4 },
            eps,
            gy,
            r,
        ),
        RuleModel::Softmax { y, axis } => softmax_parts::<S>(y, axis, gy, r),
        RuleModel::LogSoftmax { y, axis } => log_softmax_parts::<S>(y, axis, gy, r),
        RuleModel::Nll { targets, batch, classes, dtype } => nll_parts::<S>(
            targets,
            batch,
            classes,
            dtype,
            gy,
            r,
        ),
        RuleModel::Lookup { indices, rows } => lookup_parts::<S>(indices, rows, gy, r),
    }
}

impl<S: Scalars> Rule<S> {
    /// Name of the operation.
    pub fn name(&self) -> (r: &'static str)
        ensures
            r@ == rule_title(self@),
    {
        match self {
            Rule::Add { .. } => "add",
            Rule::Sub { .. } => "sub",
            Rule::Mul { .. } => "mul",
            Rule::Pair { name, .. } => name,
            Rule::Matmul { .. } => "matmul",
            Rule::Relu { .. } => "relu",
            Rule::Tanh { .. } => "tanh",
            Rule::Sum { .. } => "sum",
            Rule::Mean { .. } => "mean",
            Rule::Stop => "stop_gradient",
            Rule::Same => "identity",
            Rule::Local { name, .. } => name,
            Rule::Unsqueeze { .. } => "unsqueeze",
            Rule::Cat { .. } => "cat",
            Rule::Gather { .. } => "gather",
            Rule::Amax { .. } => "amax",
            Rule::Take { .. } => "take",
            Rule::Slice { .. } => "slice",
            Rule::Transpose => "transpose",
            Rule::Reshape { .. } => "reshape",
            Rule::Scan { .. } => "gated_scan",
            Rule::Rms { .. } => "rms_norm",
            Rule::Embedding { .. } => "embedding_fused",
            Rule::MaskedCe { .. } => "masked_ce",
            Rule::Block { .. } => "fused_block",
            Rule::Softmax { .. } => "softmax",
            Rule::LogSoftmax { .. } => "log_softmax",
            Rule::Nll { .. } => "nll_loss",
            Rule::Lookup { .. } => "embedding",
        }
    }

    /// Applies the rule to a cotangent.
    pub fn apply(&self, gy: &Tensor<S>) -> (r: Result<Vec<Tensor<S>>, Error>)
        ensures
            rule_parts::<S>(self@, gy@, parts_outcome(r)),
    {
        match self {
            Rule::Add { a_shape, b_shape } => add_vjp(a_shape.as_slice(), b_shape.as_slice(), gy),
            Rule::Sub { a_shape, b_shape } => sub_vjp(a_shape.as_slice(), b_shape.as_slice(), gy),
            Rule::Mul { a, b } => mul_vjp(a, b, gy),
            Rule::Pair { da, db, a_shape, b_shape, .. } => pair_vjp(
                da,
                db,
                a_shape.as_slice(),
                b_shape.as_slice(),
                gy,
            ),
            Rule::Matmul { a, b } => matmul_vjp(a, b, gy),
            Rule::Relu { x } => relu_vjp(x, gy),
            Rule::Tanh { y } => tanh_vjp(y, gy),
            Rule::Sum { shape, marks, keep } => sum_vjp(
                shape.as_slice(),
                marks.as_slice(),
                *keep,
                gy,
            ),
            Rule::Mean { shape, marks, keep, n } => mean_vjp(
                shape.as_slice(),
                marks.as_slice(),
                *keep,
                *n,
                gy,
            ),
            Rule::Stop => stop_vjp(gy),
            Rule::Same => Ok(one_part(gy.clone())),
            Rule::Local { gx, .. } => local_vjp(gx, gy),
            Rule::Unsqueeze { at } => unsqueeze_vjp(*at, gy),
            Rule::Cat { axis, sizes } => {
                let none: Vec<Tensor<S>> = Vec::new();
                assert(views(none@) =~= Seq::<Model<S>>::empty());
                cat_vjp(gy, *axis, sizes.as_slice(), 0, 0, none)
            },
            Rule::Gather { at, index, shape } => gather_vjp(*at, index, shape.as_slice(), gy),
            Rule::Amax { x, axis, keep } => amax_vjp(x, *axis, *keep, gy),
            Rule::Take { index, shape } => take_vjp(index, shape.as_slice(), gy),
            Rule::Slice { shape, ranges } => slice_vjp(shape.as_slice(), ranges.as_slice(), gy),
            Rule::Transpose => transpose_vjp(gy),
            Rule::Reshape { former } => reshape_vjp(former.as_slice(), gy),
            Rule::Scan { a, h } => scan_vjp(a, h, gy),
            Rule::Rms { x, eps } => rms_vjp(x, *eps, gy),
            Rule::Embedding { table, idx } => embedding_vjp(table, idx, gy),
            Rule::MaskedCe { probs, targets, mask } => masked_vjp(probs, targets, mask, gy),
            Rule::Block { aux, wa, wb, wo, wf1, wf2, g1, g2, g3, g4, eps } => block_vjp(
                aux,
                &Weights { wa, wb, wo, wf1, wf2, g1, g2, g3, g4 },
                *eps,
                gy,
            ),
            Rule::Softmax { y, axis } => softmax_vjp(y, *axis, gy),
            Rule::LogSoftmax { y, axis } => log_softmax_vjp(y, *axis, gy),
            Rule::Nll { targets, batch, classes, dtype } => nll_vjp(
                targets,
                *batch,
                *classes,
                *dtype,
                gy,
            ),
            Rule::Lookup { indices, rows } => lookup_vjp(indices, rows.as_slice(), gy),
        }
    }
}

/// A node: the tensors that receive the pieces of its cotangent, and its rule.
pub struct Node<S: Scalars> {
    pub parents: Vec<Tensor<S>>,
    pub rule: Rule<S>,
}

impl<S: Scalars> Backward<S> for Node<S> {
    open spec fn title(&self) -> Seq<char> {
        rule_title(self.rule@)
    }

    open spec fn sources(&self) -> Seq<Model<S>> {
        views(self.parents@)
    }

    open spec fn vjp(&self, gy: Model<S>, r: Result<Seq<Model<S>>, Error>) -> bool {
        rule_parts::<S>(self.rule@, gy, r)
    }

    fn name(&self) -> (r: &'static str) {
        self.rule.name()
    }

    fn parents(&self) -> (r: &[Tensor<S>]) {
        self.parents.as_slice()
    }

    fn backward(&self, gy: &Tensor<S>) -> (r: Result<Vec<Tensor<S>>, Error>) {
        self.rule.apply(gy)
    }
}

/// The graph that tracked operations record.
pub type Graph<S> = Tape<S, Node<S>>;

/// One node more, with these parents and this rule.
pub open spec fn recorded<S: Scalars>(
    before: Seq<Node<S>>,
    after: Seq<Node<S>>,
    parents: Seq<Model<S>>,
    rule: RuleModel<S>,
) -> bool {
    &&& after.len() == before.len() + 1
    &&& after.drop_last() == before
    &&& after.last().sources() == parents
    &&& after.last().rule@ == rule
}

/// The value as the product of node `n`.
pub open spec fn produced<S: Scalars>(y: Model<S>, n: int) -> Model<S> {
    TensorModel { in_graph: true, leaf: None, grad_fn: Some(n as usize), ..y }
}

/// What a tracked operation comes to, whose value is `y`. An error passes on. Where `on`, the
/// operation is recorded and the value is its product; else nothing is recorded.
pub open spec fn tracked_out<S: Scalars>(
    before: Seq<Node<S>>,
    after: Seq<Node<S>>,
    on: bool,
    y: Outcome<S>,
    parents: Seq<Model<S>>,
    rule: RuleModel<S>,
    r: Outcome<S>,
) -> bool {
    match y {
        Err(e) => after == before && r == Outcome::<S>::Err(e),
        Ok(m) => if on {
            recorded::<S>(before, after, parents, rule) && gives(
                r,
                produced::<S>(m, before.len() as int),
            )
        } else {
            after == before && gives(r, m)
        },
    }
}

/// What every tracked operation keeps of its graph.
pub open spec fn kept<S: Scalars>(before: Graph<S>, after: Graph<S>, r: Outcome<S>) -> bool {
    &&& after.wf()
    &&& after.slots() == before.slots()
    &&& before.nodes().len() <= after.nodes().len()
    &&& r is Ok ==> after.owns(r->Ok_0)
}

/// Records the operation that produced `y`.
pub fn attach<S: Scalars>(
    graph: &mut Graph<S>,
    y: Tensor<S>,
    parents: Vec<Tensor<S>>,
    rule: Rule<S>,
) -> (r: Tensor<S>)
    requires
        old(graph).wf(),
        old(graph).owns_all(views(parents@)),
    ensures
        final(graph).wf(),
        final(graph).slots() == old(graph).slots(),
        final(graph).owns(r@),
        recorded::<S>(old(graph).nodes(), final(graph).nodes(), views(parents@), rule@),
        r@ == produced::<S>(y@, old(graph).nodes().len() as int),
{
    let node: Node<S> = Node { parents, rule };
    let n: usize = graph.record(node);
    proof {
        assert(graph.nodes().drop_last() =~= old(graph).nodes());
    }
    let mut t: Tensor<S> = y;
    t.set_grad_fn(n);
    t
}

} // verus!
