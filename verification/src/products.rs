//! The matrix products that the reverse rule of a product asks for, apart from where they are
//! computed.
use vstd::prelude::*;
use crate::error::Error;
use crate::matmul::{matmul, matmul_out};
use crate::nodes::{Node, Rule, RuleModel};
use crate::rules::{
    matmul_first, matmul_left, matmul_parts, matmul_right, matmul_turned, two_parts, unbroadcast,
};
use crate::scalar::Scalars;
use crate::tape::{parts_outcome, Backward};
use crate::tensor::{outcome, passes, Model, Outcome, Tensor};
use crate::views::transpose_out;

verus! {

/// The operands of a matrix product.
pub struct Product<S: Scalars> {
    pub left: Tensor<S>,
    pub right: Tensor<S>,
}

/// The operands of a matrix product, or why there is none.
pub type Asked<S> = Result<Product<S>, Error>;

/// What the operands hold.
pub open spec fn asked_view<S: Scalars>(p: Asked<S>) -> Result<(Model<S>, Model<S>), Error> {
    match p {
        Ok(q) => Ok((q.left@, q.right@)),
        Err(e) => Err(e),
    }
}

/// The two products of the reverse rule of `a @ b`.
pub struct Products<S: Scalars> {
    /// `gy @ b^T`, for `a`.
    pub of_left: Asked<S>,
    /// `a^T @ gy`, for `b`.
    pub of_right: Asked<S>,
}

/// `gy @ b^T` is asked for.
pub open spec fn left_asked<S: Scalars>(
    b: Model<S>,
    gy: Model<S>,
    p: Result<(Model<S>, Model<S>), Error>,
) -> bool {
    exists|o: Outcome<S>| #[trigger]
        transpose_out::<S>(b, o) && p == match o {
            Ok(bt) => Ok((gy, bt)),
            Err(e) => Err::<(Model<S>, Model<S>), Error>(e),
        }
}

/// `a^T @ gy` is asked for.
pub open spec fn right_asked<S: Scalars>(
    a: Model<S>,
    gy: Model<S>,
    p: Result<(Model<S>, Model<S>), Error>,
) -> bool {
    exists|o: Outcome<S>| #[trigger]
        transpose_out::<S>(a, o) && p == match o {
            Ok(at) => Ok((at, gy)),
            Err(e) => Err::<(Model<S>, Model<S>), Error>(e),
        }
}

/// `r` answers what is asked for: the product, or the error where there is none to compute.
pub open spec fn answered<S: Scalars>(
    p: Result<(Model<S>, Model<S>), Error>,
    r: Outcome<S>,
) -> bool {
    match p {
        Ok(q) => matmul_out::<S>(q.0, q.1, r),
        Err(e) => r == Outcome::<S>::Err(e),
    }
}

/// What the two answers come to: the first error, or both products brought to the operands' shapes.
pub open spec fn slopes_finished<S: Scalars>(
    a: Model<S>,
    b: Model<S>,
    pa: Outcome<S>,
    pb: Outcome<S>,
    r: Result<Seq<Model<S>>, Error>,
) -> bool {
    passes(pa, r, passes(pb, r, matmul_first::<S>(a, b, pa->Ok_0, pb->Ok_0, r)))
}

/// Hands out the two products of the reverse rule of `a @ b` for cotangent `gy`.
pub fn slope_products<S: Scalars>(a: &Tensor<S>, b: &Tensor<S>, gy: &Tensor<S>) -> (r: Products<S>)
    ensures
        left_asked::<S>(b@, gy@, asked_view(r.of_left)),
        right_asked::<S>(a@, gy@, asked_view(r.of_right)),
{
    let of_left: Asked<S> = match b.transpose() {
        Ok(bt) => Ok(Product { left: gy.clone(), right: bt }),
        Err(e) => Err(e),
    };
    let of_right: Asked<S> = match a.transpose() {
        Ok(at) => Ok(Product { left: at, right: gy.clone() }),
        Err(e) => Err(e),
    };
    Products { of_left, of_right }
}

/// Answers on the CPU.
pub fn answer_here<S: Scalars>(p: Asked<S>) -> (r: Result<Tensor<S>, Error>)
    ensures
        answered::<S>(asked_view(p), outcome(r)),
{
    match p {
        Ok(q) => matmul(&q.left, &q.right),
        Err(e) => Err(e),
    }
}

/// Takes the answers to the two products of the reverse rule of `a @ b` and gives its pieces.
pub fn finish_slopes<S: Scalars>(
    a: &Tensor<S>,
    b: &Tensor<S>,
    of_left: Result<Tensor<S>, Error>,
    of_right: Result<Tensor<S>, Error>,
) -> (r: Result<Vec<Tensor<S>>, Error>)
    ensures
        slopes_finished::<S>(a@, b@, outcome(of_left), outcome(of_right), parts_outcome(r)),
{
    let pa: Tensor<S> = match of_left {
        Ok(t) => t,
        Err(e) => {
            return Err(e);
        },
    };
    let pb: Tensor<S> = match of_right {
        Ok(t) => t,
        Err(e) => {
            return Err(e);
        },
    };
    let ga: Tensor<S> = match unbroadcast(&pa, a.shape()) {
        Ok(t) => t,
        Err(e) => {
            return Err(e);
        },
    };
    let gb: Tensor<S> = match unbroadcast(&pb, b.shape()) {
        Ok(t) => t,
        Err(e) => {
            return Err(e);
        },
    };
    Ok(two_parts(ga, gb))
}

/// Wherever the two products are computed, finishing their answers is the reverse rule of `a @ b`.
pub proof fn law_products_make_slopes<S: Scalars>(
    a: Model<S>,
    b: Model<S>,
    gy: Model<S>,
    of_left: Result<(Model<S>, Model<S>), Error>,
    of_right: Result<(Model<S>, Model<S>), Error>,
    pa: Outcome<S>,
    pb: Outcome<S>,
    r: Result<Seq<Model<S>>, Error>,
)
    requires
        left_asked::<S>(b, gy, of_left),
        right_asked::<S>(a, gy, of_right),
        answered::<S>(of_left, pa),
        answered::<S>(of_right, pb),
        slopes_finished::<S>(a, b, pa, pb, r),
    ensures
        matmul_parts::<S>(a, b, gy, r),
{
    reveal(matmul_parts);
    let bo = choose|o: Outcome<S>| #[trigger]
        transpose_out::<S>(b, o) && of_left == match o {
            Ok(bt) => Ok((gy, bt)),
            Err(e) => Err::<(Model<S>, Model<S>), Error>(e),
        };
    let ao = choose|o: Outcome<S>| #[trigger]
        transpose_out::<S>(a, o) && of_right == match o {
            Ok(at) => Ok((at, gy)),
            Err(e) => Err::<(Model<S>, Model<S>), Error>(e),
        };
    if bo is Ok && pa is Ok {
        if ao is Ok {
            assert(matmul_right::<S>(a, b, gy, pa->Ok_0, ao->Ok_0, r));
        }
        assert(matmul_turned::<S>(a, b, gy, pa->Ok_0, r));
    }
    if bo is Ok {
        assert(matmul_left::<S>(a, b, gy, bo->Ok_0, r));
    }
}

/// Hands out the two products of a node's rule for cotangent `gy`, where it is the rule of a matrix
/// product.
pub fn node_products<S: Scalars>(node: &Node<S>, gy: &Tensor<S>) -> (r: Option<Products<S>>)
    ensures
        match node.rule@ {
            RuleModel::Matmul { a, b } => {
                &&& r is Some
                &&& left_asked::<S>(b, gy@, asked_view(r->0.of_left))
                &&& right_asked::<S>(a, gy@, asked_view(r->0.of_right))
            },
            _ => r is None,
        },
{
    match &node.rule {
        Rule::Matmul { a, b } => Some(slope_products(a, b, gy)),
        _ => None,
    }
}

/// Takes the answers to the two products of a node's rule and gives its pieces.
pub fn finish_node<S: Scalars>(
    node: &Node<S>,
    of_left: Result<Tensor<S>, Error>,
    of_right: Result<Tensor<S>, Error>,
) -> (r: Result<Vec<Tensor<S>>, Error>)
    requires
        node.rule@ is Matmul,
    ensures
        match node.rule@ {
            RuleModel::Matmul { a, b } => slopes_finished::<S>(
                a,
                b,
                outcome(of_left),
                outcome(of_right),
                parts_outcome(r),
            ),
            _ => false,
        },
{
    match &node.rule {
        Rule::Matmul { a, b } => finish_slopes(a, b, of_left, of_right),
        _ => Ok(Vec::new()),
    }
}

/// Wherever the two products of a node's rule are computed, finishing their answers gives what the
/// rule gives.
pub proof fn law_products_answer_node<S: Scalars>(
    node: Node<S>,
    a: Model<S>,
    b: Model<S>,
    gy: Model<S>,
    of_left: Result<(Model<S>, Model<S>), Error>,
    of_right: Result<(Model<S>, Model<S>), Error>,
    pa: Outcome<S>,
    pb: Outcome<S>,
    r: Result<Seq<Model<S>>, Error>,
)
    requires
        node.rule@ == (RuleModel::<S>::Matmul { a, b }),
        left_asked::<S>(b, gy, of_left),
        right_asked::<S>(a, gy, of_right),
        answered::<S>(of_left, pa),
        answered::<S>(of_right, pb),
        slopes_finished::<S>(a, b, pa, pb, r),
    ensures
        node.vjp(gy, r),
{
    law_products_make_slopes::<S>(a, b, gy, of_left, of_right, pa, pb, r);
}

} // verus!
