//! Kernels that work row by row along the last axis.
use vstd::prelude::*;
use crate::dtype::Dtype;
use crate::elementwise::concat_rows;
use crate::error::{Error, ErrorKind};
use crate::index::{fits, volume};
use crate::par::par_fill;
use crate::reduce::{add_up, keeping_greater, sums};
use crate::scalar::{
    every, folds, is_difference, is_one, is_product, is_quotient, is_sum, lemma_folds_start,
    lemma_folds_step, Arith, Scalars,
};
use crate::tensor::{numel_error, outcome, Model, Outcome, Tensor, TensorModel};
use crate::unary::{exp_of, log_of, sqrt_of};

verus! {

/// Row `r` of rows of `inner` elements.
pub open spec fn row<T>(xs: Seq<T>, inner: int, r: int) -> Seq<T> {
    xs.subrange(r * inner, r * inner + inner)
}

/// Row by row, `rel` relates a row's number, the row and the row that comes out.
pub open spec fn by_rows<T>(
    rel: spec_fn(int, Seq<T>, Seq<T>) -> bool,
    rows: int,
    inner: int,
    xs: Seq<T>,
    out: Seq<T>,
) -> bool {
    &&& out.len() == xs.len()
    &&& forall|r: int|
        0 <= r < rows ==> rel(r, row(xs, inner, r), #[trigger] row(out, inner, r))
}

/// `f` made `dst` of row `r`, which is `src`.
pub open spec fn row_called<T, F: Fn(usize, &[T]) -> Vec<T>>(
    f: F,
    r: int,
    src: Seq<T>,
    dst: Seq<T>,
) -> bool {
    exists|s: &[T], o: Vec<T>|
        s@ == src && o@ == dst && #[trigger] call_ensures(f, (r as usize, s), o)
}

/// Applies `f` to row `r`.
fn call_row<T: Copy, F: Fn(usize, &[T]) -> Vec<T>>(
    v: &[T],
    rows: usize,
    inner: usize,
    r: usize,
    f: &F,
) -> (o: Vec<T>)
    requires
        r < rows,
        v@.len() == rows * inner,
        forall|r: usize, s: &[T]|
            r < rows && s@.len() == inner ==> #[trigger] call_requires(*f, (r, s)),
    ensures
        row_called(*f, r as int, row(v@, inner as int, r as int), o@),
{
    assert(v.len() == v@.len());
    assert(r * inner + inner <= rows * inner && 0 <= r * inner) by (nonlinear_arith)
        requires
            0 <= r < rows,
            inner >= 0,
    ;
    let lo: usize = r * inner;
    let s: &[T] = vstd::slice::slice_subrange(v, lo, lo + inner);
    let o: Vec<T> = f(r, s);
    assert(call_ensures(*f, ((r as int) as usize, s), o));
    o
}

/// Applies `f` to every row, in parallel where there are many.
pub fn map_rows<T: Copy + Send + Sync, F: Fn(usize, &[T]) -> Vec<T> + Sync + Send>(
    v: &[T],
    rows: usize,
    inner: usize,
    f: F,
) -> (out: Vec<T>)
    requires
        v@.len() == rows * inner,
        forall|r: usize, s: &[T]|
            r < rows && s@.len() == inner ==> #[trigger] call_requires(f, (r, s)),
        forall|r: usize, s: &[T], o: Vec<T>|
            s@.len() == inner && #[trigger] call_ensures(f, (r, s), o) ==> o@.len() == inner,
    ensures
        by_rows(
            |r: int, s: Seq<T>, d: Seq<T>| row_called(f, r, s, d),
            rows as int,
            inner as int,
            v@,
            out@,
        ),
{
    let g = &f;
    let one = |r: usize| -> (o: Vec<T>)
        requires
            r < rows,
            v@.len() == rows * inner,
            forall|r: usize, s: &[T]|
                r < rows && s@.len() == inner ==> #[trigger] call_requires(*g, (r, s))
        ensures
            row_called(*g, r as int, row(v@, inner as int, r as int), o@)
    {
        call_row(v, rows, inner, r, g)
    };
    let parts: Vec<Vec<T>> = par_fill(rows, one);
    proof {
        assert forall|k: int| 0 <= k < parts@.len() implies (#[trigger] parts@[k])@.len() == inner by {
            assert(call_ensures(one, (k as usize,), parts@[k]));
            assert(k * inner + inner <= rows * inner && 0 <= k * inner) by (nonlinear_arith)
                requires
                    0 <= k < rows,
                    inner >= 0,
            ;
            let (s, o) = choose|s: &[T], o: Vec<T>|
                s@ == row(v@, inner as int, k) && o@ == parts@[k]@ && #[trigger] call_ensures(
                    *g,
                    (k as usize, s),
                    o,
                );
            assert(s@.len() == inner);
        }
    }
    let out: Vec<T> = concat_rows(&parts, inner);
    proof {
        let rel = |r: int, s: Seq<T>, d: Seq<T>| row_called(f, r, s, d);
        assert forall|r: int| 0 <= r < rows implies rel(
            r,
            row(v@, inner as int, r),
            #[trigger] row(out@, inner as int, r),
        ) by {
            assert(call_ensures(one, (r as usize,), parts@[r]));
            assert(r * inner + inner <= rows * inner && 0 <= r * inner) by (nonlinear_arith)
                requires
                    0 <= r < rows,
                    inner >= 0,
            ;
            assert forall|j: int| 0 <= j < inner implies row(out@, inner as int, r)[j]
                == #[trigger] parts@[r]@[j] by {
                assert(out@[r * inner + j] == parts@[r]@[j]);
            }
            assert(row(out@, inner as int, r) =~= parts@[r]@);
        }
    }
    out
}

/// A weaker relation of rows.
pub proof fn lemma_rows_weaken<T>(
    rel: spec_fn(int, Seq<T>, Seq<T>) -> bool,
    rel2: spec_fn(int, Seq<T>, Seq<T>) -> bool,
    rows: int,
    inner: int,
    xs: Seq<T>,
    out: Seq<T>,
)
    requires
        by_rows(rel, rows, inner, xs, out),
        forall|r: int, s: Seq<T>, d: Seq<T>|
            0 <= r < rows && #[trigger] rel(r, s, d) ==> rel2(r, s, d),
    ensures
        by_rows(rel2, rows, inner, xs, out),
{
    assert forall|r: int| 0 <= r < rows implies rel2(
        r,
        row(xs, inner, r),
        #[trigger] row(out, inner, r),
    ) by {
        assert(rel(r, row(xs, inner, r), row(out, inner, r)));
    }
}

/// `m` is the greatest element of a row.
pub open spec fn row_peak<T, A: Arith<T>>(s: Seq<T>, m: T) -> bool {
    exists|low: T| #[trigger]
        call_ensures(A::lowest, (), low) && folds(
            keeping_greater::<T, A>(),
            s,
            every(),
            s.len() as int,
            low,
            m,
        )
}

/// `d` is a row less `m`.
pub open spec fn row_less<T, A: Arith<T>>(s: Seq<T>, m: T, d: Seq<T>) -> bool {
    &&& d.len() == s.len()
    &&& forall|i: int| 0 <= i < d.len() ==> is_difference::<T, A>(s[i], m, #[trigger] d[i])
}

/// `e` is a row's exponentials.
pub open spec fn row_exp<T, A: Arith<T>>(d: Seq<T>, e: Seq<T>) -> bool {
    &&& e.len() == d.len()
    &&& forall|i: int| 0 <= i < e.len() ==> exp_of::<T, A>(d[i], #[trigger] e[i])
}

/// `y` is a row times `c`.
pub open spec fn row_times<T, A: Arith<T>>(e: Seq<T>, c: T, y: Seq<T>) -> bool {
    &&& y.len() == e.len()
    &&& forall|i: int| 0 <= i < y.len() ==> is_product::<T, A>(e[i], c, #[trigger] y[i])
}

/// `y` is a row divided by `c`.
pub open spec fn row_over<T, A: Arith<T>>(e: Seq<T>, c: T, y: Seq<T>) -> bool {
    &&& y.len() == e.len()
    &&& forall|i: int| 0 <= i < y.len() ==> is_quotient::<T, A>(e[i], c, #[trigger] y[i])
}

/// The row less its greatest element, its exponentials, and their sum.
pub ghost struct RowSteps<T> {
    pub peak: T,
    pub shifted: Seq<T>,
    pub grown: Seq<T>,
    pub total: T,
}

/// The steps that softmax and log-softmax share.
pub open spec fn row_steps<T, A: Arith<T>>(s: Seq<T>, w: RowSteps<T>) -> bool {
    &&& row_peak::<T, A>(s, w.peak)
    &&& row_less::<T, A>(s, w.peak, w.shifted)
    &&& row_exp::<T, A>(w.shifted, w.grown)
    &&& sums::<T, A>(w.grown, w.total)
}

/// `m` is `1 / total`.
pub open spec fn inverse_of<T, A: Arith<T>>(total: T, m: T) -> bool {
    exists|one: T| #[trigger] is_one::<T, A>(one) && is_quotient::<T, A>(one, total, m)
}

/// Softmax of a row: its exponentials, scaled to sum to one.
pub open spec fn softmax_row<T, A: Arith<T>>(s: Seq<T>, y: Seq<T>) -> bool {
    exists|w: RowSteps<T>, m: T| #[trigger]
        row_steps::<T, A>(s, w) && #[trigger] inverse_of::<T, A>(w.total, m) && row_times::<T, A>(
            w.grown,
            m,
            y,
        )
}

/// Log-softmax of a row: the row less its greatest element and the logarithm of the sum.
pub open spec fn log_softmax_row<T, A: Arith<T>>(s: Seq<T>, y: Seq<T>) -> bool {
    exists|w: RowSteps<T>, m: T| #[trigger]
        row_steps::<T, A>(s, w) && #[trigger] log_of::<T, A>(w.total, m) && row_less::<T, A>(
            w.shifted,
            m,
            y,
        )
}

/// Probabilities of a row: its exponentials, each divided by their sum.
pub open spec fn probability_row<T, A: Arith<T>>(s: Seq<T>, y: Seq<T>) -> bool {
    exists|w: RowSteps<T>| #[trigger]
        row_steps::<T, A>(s, w) && row_over::<T, A>(w.grown, w.total, y)
}

fn peak_of<T: Copy, A: Arith<T>>(s: &[T]) -> (m: T)
    ensures
        row_peak::<T, A>(s@, m),
{
    let low: T = A::lowest();
    let ghost step = keeping_greater::<T, A>();
    let mut m: T = low;
    let mut i: usize = 0;
    proof {
        lemma_folds_start(step, s@, every(), low);
    }
    while i < s.len()
        invariant
            i <= s@.len(),
            step == keeping_greater::<T, A>(),
            folds(step, s@, every(), i as int, low, m),
        decreases s@.len() - i,
    {
        let next: T = A::greater(m, s[i]);
        proof {
            lemma_folds_step(step, s@, every(), i as int, low, m, next);
        }
        m = next;
        i = i + 1;
    }
    m
}

fn less_of<T: Copy, A: Arith<T>>(s: &[T], m: T) -> (d: Vec<T>)
    ensures
        row_less::<T, A>(s@, m, d@),
{
    let mut d: Vec<T> = Vec::new();
    let mut i: usize = 0;
    while i < s.len()
        invariant
            i <= s@.len(),
            d@.len() == i,
            forall|j: int| 0 <= j < i ==> is_difference::<T, A>(s@[j], m, #[trigger] d@[j]),
        decreases s@.len() - i,
    {
        d.push(A::minus(s[i], m));
        i = i + 1;
    }
    d
}

fn exp_row_of<T: Copy, A: Arith<T>>(s: &[T]) -> (d: Vec<T>)
    ensures
        row_exp::<T, A>(s@, d@),
{
    let mut d: Vec<T> = Vec::new();
    let mut i: usize = 0;
    while i < s.len()
        invariant
            i <= s@.len(),
            d@.len() == i,
            forall|j: int| 0 <= j < i ==> exp_of::<T, A>(s@[j], #[trigger] d@[j]),
        decreases s@.len() - i,
    {
        d.push(A::exponential(s[i]));
        i = i + 1;
    }
    d
}

/// Each element times `c`.
pub fn times_of<T: Copy, A: Arith<T>>(s: &[T], c: T) -> (d: Vec<T>)
    ensures
        row_times::<T, A>(s@, c, d@),
{
    let mut d: Vec<T> = Vec::new();
    let mut i: usize = 0;
    while i < s.len()
        invariant
            i <= s@.len(),
            d@.len() == i,
            forall|j: int| 0 <= j < i ==> is_product::<T, A>(s@[j], c, #[trigger] d@[j]),
        decreases s@.len() - i,
    {
        d.push(A::times(s[i], c));
        i = i + 1;
    }
    d
}

fn over_of<T: Copy, A: Arith<T>>(s: &[T], c: T) -> (d: Vec<T>)
    ensures
        row_over::<T, A>(s@, c, d@),
{
    let mut d: Vec<T> = Vec::new();
    let mut i: usize = 0;
    while i < s.len()
        invariant
            i <= s@.len(),
            d@.len() == i,
            forall|j: int| 0 <= j < i ==> is_quotient::<T, A>(s@[j], c, #[trigger] d@[j]),
        decreases s@.len() - i,
    {
        d.push(A::over(s[i], c));
        i = i + 1;
    }
    d
}

/// The row less its greatest element, the exponentials, and their sum.
fn shared_steps<T: Copy, A: Arith<T>>(s: &[T]) -> (r: (Vec<T>, Vec<T>, T))
    ensures
        exists|w: RowSteps<T>| #[trigger]
            row_steps::<T, A>(s@, w) && w.shifted == r.0@ && w.grown == r.1@ && w.total == r.2,
{
    let m: T = peak_of::<T, A>(s);
    let shifted: Vec<T> = less_of::<T, A>(s, m);
    let grown: Vec<T> = exp_row_of::<T, A>(shifted.as_slice());
    let total: T = add_up::<T, A>(grown.as_slice(), 0, grown.len());
    proof {
        assert(grown@.subrange(0, grown@.len() as int) =~= grown@);
        let w = RowSteps { peak: m, shifted: shifted@, grown: grown@, total };
        assert(row_steps::<T, A>(s@, w));
    }
    (shifted, grown, total)
}

fn softmax_of<T: Copy, A: Arith<T>>(s: &[T]) -> (y: Vec<T>)
    ensures
        softmax_row::<T, A>(s@, y@),
        y@.len() == s@.len(),
{
    let (shifted, grown, total): (Vec<T>, Vec<T>, T) = shared_steps::<T, A>(s);
    let one: T = A::one();
    assert(is_one::<T, A>(one));
    let m: T = A::over(one, total);
    assert(inverse_of::<T, A>(total, m));
    times_of::<T, A>(grown.as_slice(), m)
}

fn log_softmax_of<T: Copy, A: Arith<T>>(s: &[T]) -> (y: Vec<T>)
    ensures
        log_softmax_row::<T, A>(s@, y@),
        y@.len() == s@.len(),
{
    let (shifted, grown, total): (Vec<T>, Vec<T>, T) = shared_steps::<T, A>(s);
    let m: T = A::logarithm(total);
    assert(log_of::<T, A>(total, m));
    less_of::<T, A>(shifted.as_slice(), m)
}

/// The probabilities of a row.
pub fn probabilities_of<T: Copy, A: Arith<T>>(s: &[T]) -> (y: Vec<T>)
    ensures
        probability_row::<T, A>(s@, y@),
        y@.len() == s@.len(),
{
    let (shifted, grown, total): (Vec<T>, Vec<T>, T) = shared_steps::<T, A>(s);
    over_of::<T, A>(grown.as_slice(), total)
}

/// What a kernel makes of the rows of a 32-bit tensor.
pub open spec fn row_value<S: Scalars>(
    x: Model<S>,
    rel: spec_fn(int, Seq<S::F>, Seq<S::F>) -> bool,
    r: Model<S>,
) -> bool {
    &&& x.data is F32 && r.data is F32
    &&& fits(x.shape) && r.plain(x.shape) && r.valid() && r.elems() == r.data
    &&& by_rows(
        rel,
        volume(x.shape.drop_last()) as int,
        x.shape.last() as int,
        x.f32s(),
        r.data->F32_0,
    )
}

/// A row kernel is refused: the data is not 32-bit, or too many elements.
pub open spec fn row_error<F, D>(e: Error, x: TensorModel<F, D>) -> bool {
    if x.dtype() != Dtype::F32 {
        e.says(ErrorKind::Dtype, "to_vec"@, "expected f32"@)
    } else {
        !fits(x.shape) && numel_error(e)
    }
}

/// Product of all sizes but the last.
pub fn lead_count(shape: &[usize]) -> (r: usize)
    requires
        shape@.len() > 0,
        fits(shape@),
    ensures
        r == volume(shape@.drop_last()),
        r * shape@.last() == volume(shape@),
{
    let mut r: usize = 1;
    let mut k: usize = 0;
    assert(shape@.take(0) =~= Seq::empty());
    while k < shape.len() - 1
        invariant
            k <= shape@.len() - 1,
            fits(shape@),
            r == volume(shape@.take(k as int)),
        decreases shape@.len() - k,
    {
        proof {
            assert(shape@.take(k + 1).drop_last() =~= shape@.take(k as int));
            assert(volume(shape@.take(k + 1)) <= usize::MAX);
        }
        r = r * shape[k];
        k = k + 1;
    }
    assert(shape@.take(k as int) =~= shape@.drop_last());
    r
}

/// Applies a row kernel to a 32-bit tensor.
pub fn row_op<S: Scalars, F: Fn(usize, &[S::F]) -> Vec<S::F> + Sync + Send>(
    x: &Tensor<S>,
    f: F,
) -> (r: Result<Tensor<S>, Error>)
    requires
        x@.shape.len() > 0,
        forall|r: usize, s: &[S::F]|
            r < volume(x@.shape.drop_last()) && s@.len() == x@.shape.last()
                ==> #[trigger] call_requires(f, (r, s)),
        forall|r: usize, s: &[S::F], o: Vec<S::F>|
            s@.len() == x@.shape.last() && #[trigger] call_ensures(f, (r, s), o) ==> o@.len()
                == s@.len(),
    ensures
        r matches Ok(t) ==> row_value::<S>(
            x@,
            |r: int, s: Seq<S::F>, d: Seq<S::F>| row_called(f, r, s, d),
            t@,
        ),
        r matches Err(e) ==> row_error(e, x@),
{
    if x.dtype() != Dtype::F32 {
        return Err(Error::dtype("to_vec", "expected f32".to_owned()));
    }
    match crate::shape::numel(x.shape()) {
        Ok(_) => {},
        Err(e) => {
            return Err(e);
        },
    }
    let rank: usize = x.rank();
    let inner: usize = x.shape()[rank - 1];
    let rows: usize = lead_count(x.shape());
    match x.as_slice_f32() {
        Ok(v) => {
            let out: Vec<S::F> = map_rows(v, rows, inner, f);
            Tensor::from_vec_f32(out, x.shape())
        },
        Err(_) => match x.to_vec_f32() {
            Ok(v) => {
                let out: Vec<S::F> = map_rows(v.as_slice(), rows, inner, f);
                Tensor::from_vec_f32(out, x.shape())
            },
            Err(e) => Err(e),
        },
    }
}

/// A weaker relation of the rows of a tensor.
pub proof fn lemma_row_value_weaken<S: Scalars>(
    x: Model<S>,
    rel: spec_fn(int, Seq<S::F>, Seq<S::F>) -> bool,
    rel2: spec_fn(int, Seq<S::F>, Seq<S::F>) -> bool,
    r: Model<S>,
)
    requires
        row_value::<S>(x, rel, r),
        forall|k: int, s: Seq<S::F>, d: Seq<S::F>|
            0 <= k < volume(x.shape.drop_last()) && #[trigger] rel(k, s, d) ==> rel2(k, s, d),
    ensures
        row_value::<S>(x, rel2, r),
{
    lemma_rows_weaken(
        rel,
        rel2,
        volume(x.shape.drop_last()) as int,
        x.shape.last() as int,
        x.f32s(),
        r.data->F32_0,
    );
}

/// Softmax, as a relation of rows.
pub open spec fn softmax_rel<T, A: Arith<T>>() -> spec_fn(int, Seq<T>, Seq<T>) -> bool {
    |r: int, s: Seq<T>, y: Seq<T>| softmax_row::<T, A>(s, y)
}

/// Log-softmax, as a relation of rows.
pub open spec fn log_softmax_rel<T, A: Arith<T>>() -> spec_fn(int, Seq<T>, Seq<T>) -> bool {
    |r: int, s: Seq<T>, y: Seq<T>| log_softmax_row::<T, A>(s, y)
}

/// What `softmax_last` comes to.
pub open spec fn softmax_last_out<S: Scalars>(x: Model<S>, r: Outcome<S>) -> bool {
    match r {
        Ok(t) => x.shape.len() > 0 && row_value::<S>(x, softmax_rel::<S::F, S>(), t),
        Err(e) => if x.shape.len() == 0 {
            e.says(ErrorKind::Shape, "softmax"@, "rank-0"@)
        } else {
            row_error(e, x)
        },
    }
}

/// Numerically stable softmax over the last axis, 32-bit only.
pub fn softmax_last<S: Scalars>(x: &Tensor<S>) -> (r: Result<Tensor<S>, Error>)
    ensures
        softmax_last_out::<S>(x@, outcome(r)),
{
    if x.rank() == 0 {
        return Err(Error::shape("softmax", "rank-0".to_owned()));
    }
    let f = |r: usize, s: &[S::F]| -> (o: Vec<S::F>)
        ensures
            softmax_row::<S::F, S>(s@, o@),
            o@.len() == s@.len()
    { softmax_of::<S::F, S>(s) };
    let r: Result<Tensor<S>, Error> = row_op(x, f);
    proof {
        if r is Ok {
            lemma_row_value_weaken::<S>(
                x@,
                |r: int, s: Seq<S::F>, d: Seq<S::F>| row_called(f, r, s, d),
                softmax_rel::<S::F, S>(),
                r->Ok_0@,
            );
        }
    }
    r
}

/// What `log_softmax_last` comes to.
pub open spec fn log_softmax_last_out<S: Scalars>(x: Model<S>, r: Outcome<S>) -> bool {
    match r {
        Ok(t) => x.shape.len() > 0 && row_value::<S>(x, log_softmax_rel::<S::F, S>(), t),
        Err(e) => if x.shape.len() == 0 {
            e.says(ErrorKind::Shape, "log_softmax"@, "rank-0"@)
        } else {
            row_error(e, x)
        },
    }
}

/// Numerically stable log-softmax over the last axis, 32-bit only.
pub fn log_softmax_last<S: Scalars>(x: &Tensor<S>) -> (r: Result<Tensor<S>, Error>)
    ensures
        log_softmax_last_out::<S>(x@, outcome(r)),
{
    if x.rank() == 0 {
        return Err(Error::shape("log_softmax", "rank-0".to_owned()));
    }
    let f = |r: usize, s: &[S::F]| -> (o: Vec<S::F>)
        ensures
            log_softmax_row::<S::F, S>(s@, o@),
            o@.len() == s@.len()
    { log_softmax_of::<S::F, S>(s) };
    let r: Result<Tensor<S>, Error> = row_op(x, f);
    proof {
        if r is Ok {
            lemma_row_value_weaken::<S>(
                x@,
                |r: int, s: Seq<S::F>, d: Seq<S::F>| row_called(f, r, s, d),
                log_softmax_rel::<S::F, S>(),
                r->Ok_0@,
            );
        }
    }
    r
}

/// Squares of a row.
pub open spec fn row_squares<T, A: Arith<T>>(s: Seq<T>, q: Seq<T>) -> bool {
    row_products::<T, A>(s, s, q)
}

/// Products of two rows.
pub open spec fn row_products<T, A: Arith<T>>(s: Seq<T>, g: Seq<T>, q: Seq<T>) -> bool {
    &&& q.len() == s.len()
    &&& forall|i: int| 0 <= i < q.len() ==> is_product::<T, A>(s[i], g[i], #[trigger] q[i])
}

/// What RMS normalization computes of a row: the mean square and its inverse root.
pub ghost struct RmsSteps<T> {
    pub squares: Seq<T>,
    pub total: T,
    pub count: T,
    pub mean: T,
    pub lifted: T,
    pub root: T,
    pub inverse: T,
}

/// `w.inverse` is `1 / sqrt(mean(s * s) + eps)`.
pub open spec fn rms_steps<T, A: Arith<T>>(eps: T, s: Seq<T>, w: RmsSteps<T>) -> bool {
    &&& row_squares::<T, A>(s, w.squares)
    &&& sums::<T, A>(w.squares, w.total)
    &&& call_ensures(A::count, (s.len() as usize,), w.count)
    &&& is_quotient::<T, A>(w.total, w.count, w.mean)
    &&& is_sum::<T, A>(w.mean, eps, w.lifted)
    &&& sqrt_of::<T, A>(w.lifted, w.root)
    &&& inverse_of::<T, A>(w.root, w.inverse)
}

/// RMS normalization of a row: `s / sqrt(mean(s * s) + eps)`.
pub open spec fn rms_row<T, A: Arith<T>>(eps: T, s: Seq<T>, y: Seq<T>) -> bool {
    exists|w: RmsSteps<T>| #[trigger]
        rms_steps::<T, A>(eps, s, w) && row_times::<T, A>(s, w.inverse, y)
}

/// RMS normalization, as a relation of rows.
pub open spec fn rms_rel<T, A: Arith<T>>(eps: T) -> spec_fn(int, Seq<T>, Seq<T>) -> bool {
    |r: int, s: Seq<T>, y: Seq<T>| rms_row::<T, A>(eps, s, y)
}

/// Products of two rows.
fn products_of<T: Copy, A: Arith<T>>(s: &[T], g: &[T]) -> (q: Vec<T>)
    requires
        s@.len() == g@.len(),
    ensures
        row_products::<T, A>(s@, g@, q@),
{
    let mut q: Vec<T> = Vec::new();
    let mut i: usize = 0;
    while i < s.len()
        invariant
            i <= s@.len() == g@.len(),
            q@.len() == i,
            forall|j: int| 0 <= j < i ==> is_product::<T, A>(s@[j], g@[j], #[trigger] q@[j]),
        decreases s@.len() - i,
    {
        q.push(A::times(s[i], g[i]));
        i = i + 1;
    }
    q
}

/// `1 / sqrt(mean(s * s) + eps)`, and the number of elements.
fn inverse_rms<T: Copy, A: Arith<T>>(eps: T, s: &[T]) -> (r: (T, T))
    ensures
        exists|w: RmsSteps<T>| #[trigger]
            rms_steps::<T, A>(eps, s@, w) && w.inverse == r.0 && w.count == r.1,
{
    let squares: Vec<T> = products_of::<T, A>(s, s);
    let total: T = add_up::<T, A>(squares.as_slice(), 0, squares.len());
    let count: T = A::count(s.len());
    let mean: T = A::over(total, count);
    let lifted: T = A::plus(mean, eps);
    let root: T = A::root(lifted);
    let one: T = A::one();
    assert(is_one::<T, A>(one));
    let inverse: T = A::over(one, root);
    proof {
        assert(squares@.subrange(0, squares@.len() as int) =~= squares@);
        let w = RmsSteps { squares: squares@, total, count, mean, lifted, root, inverse };
        assert(rms_steps::<T, A>(eps, s@, w));
    }
    (inverse, count)
}

fn rms_of<T: Copy, A: Arith<T>>(eps: T, s: &[T]) -> (y: Vec<T>)
    ensures
        rms_row::<T, A>(eps, s@, y@),
        y@.len() == s@.len(),
{
    let (inverse, _): (T, T) = inverse_rms::<T, A>(eps, s);
    times_of::<T, A>(s, inverse)
}

/// What `rms_norm` comes to.
pub open spec fn rms_norm_out<S: Scalars>(x: Model<S>, eps: S::F, r: Outcome<S>) -> bool {
    match r {
        Ok(t) => x.shape.len() > 0 && row_value::<S>(x, rms_rel::<S::F, S>(eps), t),
        Err(e) => if x.shape.len() == 0 {
            e.says(ErrorKind::Shape, "rms_norm"@, "rank >= 1"@)
        } else {
            row_error(e, x)
        },
    }
}

/// RMS normalization over the last axis: `x / sqrt(mean(x * x) + eps)`.
pub fn rms_norm<S: Scalars>(x: &Tensor<S>, eps: S::F) -> (r: Result<Tensor<S>, Error>)
    ensures
        rms_norm_out::<S>(x@, eps, outcome(r)),
{
    if x.rank() == 0 {
        return Err(Error::shape("rms_norm", "rank >= 1".to_owned()));
    }
    let f = |r: usize, s: &[S::F]| -> (o: Vec<S::F>)
        ensures
            rms_row::<S::F, S>(eps, s@, o@),
            o@.len() == s@.len()
    { rms_of::<S::F, S>(eps, s) };
    let r: Result<Tensor<S>, Error> = row_op(x, f);
    proof {
        if r is Ok {
            lemma_row_value_weaken::<S>(
                x@,
                |r: int, s: Seq<S::F>, d: Seq<S::F>| row_called(f, r, s, d),
                rms_rel::<S::F, S>(eps),
                r->Ok_0@,
            );
        }
    }
    r
}

/// What the derivative of RMS normalization adds: `dot * inverse^3 / n`.
pub ghost struct RmsBackSteps<T> {
    pub products: Seq<T>,
    pub dot: T,
    pub first: T,
    pub second: T,
    pub third: T,
    pub share: T,
}

/// `w.share` is `sum(s * g) * inverse * inverse * inverse / n`.
pub open spec fn rms_back_steps<T, A: Arith<T>>(
    s: Seq<T>,
    g: Seq<T>,
    inverse: T,
    count: T,
    w: RmsBackSteps<T>,
) -> bool {
    &&& row_products::<T, A>(s, g, w.products)
    &&& sums::<T, A>(w.products, w.dot)
    &&& is_product::<T, A>(w.dot, inverse, w.first)
    &&& is_product::<T, A>(w.first, inverse, w.second)
    &&& is_product::<T, A>(w.second, inverse, w.third)
    &&& is_quotient::<T, A>(w.third, count, w.share)
}

/// `y` is `g * inverse - s * share`.
pub open spec fn scaled_difference<T, A: Arith<T>>(g: T, inverse: T, s: T, share: T, y: T) -> bool {
    exists|a: T, b: T| #[trigger]
        is_product::<T, A>(g, inverse, a) && #[trigger] is_product::<T, A>(s, share, b)
            && is_difference::<T, A>(a, b, y)
}

/// The cotangent of a row `s` under RMS normalization, of the row's cotangent `g`.
pub open spec fn rms_back_row<T, A: Arith<T>>(eps: T, s: Seq<T>, g: Seq<T>, y: Seq<T>) -> bool {
    exists|w: RmsSteps<T>, b: RmsBackSteps<T>|
        {
            &&& #[trigger] rms_steps::<T, A>(eps, s, w)
            &&& #[trigger] rms_back_steps::<T, A>(s, g, w.inverse, w.count, b)
            &&& y.len() == s.len()
            &&& row_scaled_differences::<T, A>(g, w.inverse, s, b.share, y)
        }
}

/// Each `y` is `g * inverse - s * share`.
pub open spec fn row_scaled_differences<T, A: Arith<T>>(
    g: Seq<T>,
    inverse: T,
    s: Seq<T>,
    share: T,
    y: Seq<T>,
) -> bool {
    forall|k: int|
        0 <= k < y.len() ==> scaled_difference::<T, A>(g[k], inverse, s[k], share, #[trigger] y[k])
}

/// The cotangent of RMS normalization, as a relation of rows; row `r` of `gs` is the cotangent.
pub open spec fn rms_back_rel<T, A: Arith<T>>(eps: T, gs: Seq<T>, inner: int) -> spec_fn(
    int,
    Seq<T>,
    Seq<T>,
) -> bool {
    |r: int, s: Seq<T>, y: Seq<T>| rms_back_row::<T, A>(eps, s, row(gs, inner, r), y)
}

fn rms_back_of<T: Copy, A: Arith<T>>(eps: T, s: &[T], g: &[T]) -> (y: Vec<T>)
    requires
        s@.len() == g@.len(),
    ensures
        rms_back_row::<T, A>(eps, s@, g@, y@),
        y@.len() == s@.len(),
{
    let (inverse, count): (T, T) = inverse_rms::<T, A>(eps, s);
    let products: Vec<T> = products_of::<T, A>(s, g);
    let dot: T = add_up::<T, A>(products.as_slice(), 0, products.len());
    let first: T = A::times(dot, inverse);
    let second: T = A::times(first, inverse);
    let third: T = A::times(second, inverse);
    let share: T = A::over(third, count);
    let mut y: Vec<T> = Vec::new();
    let mut k: usize = 0;
    while k < s.len()
        invariant
            k <= s@.len() == g@.len(),
            y@.len() == k,
            forall|j: int|
                0 <= j < k ==> scaled_difference::<T, A>(
                    g@[j],
                    inverse,
                    s@[j],
                    share,
                    #[trigger] y@[j],
                ),
        decreases s@.len() - k,
    {
        let a: T = A::times(g[k], inverse);
        let b: T = A::times(s[k], share);
        let d: T = A::minus(a, b);
        assert(is_product::<T, A>(g@[k as int], inverse, a));
        assert(is_product::<T, A>(s@[k as int], share, b));
        assert(scaled_difference::<T, A>(g@[k as int], inverse, s@[k as int], share, d));
        y.push(d);
        k = k + 1;
    }
    proof {
        assert(products@.subrange(0, products@.len() as int) =~= products@);
        let b = RmsBackSteps { products: products@, dot, first, second, third, share };
        assert(rms_back_steps::<T, A>(s@, g@, inverse, count, b));
    }
    y
}

/// What `rms_norm_backward` comes to.
pub open spec fn rms_norm_backward_out<S: Scalars>(
    x: Model<S>,
    gy: Model<S>,
    eps: S::F,
    r: Outcome<S>,
) -> bool {
    match r {
        Ok(t) => gy.dtype() == Dtype::F32 && row_value::<S>(
            x,
            rms_back_rel::<S::F, S>(eps, gy.f32s(), x.shape.last() as int),
            t,
        ),
        Err(e) => if x.dtype() == Dtype::F32 && gy.dtype() != Dtype::F32 {
            e.says(ErrorKind::Dtype, "to_vec"@, "expected f32"@)
        } else {
            row_error(e, x)
        },
    }
}

/// The cotangent of `x` under RMS normalization, given the cotangent `gy` of the result.
pub fn rms_norm_backward<S: Scalars>(x: &Tensor<S>, gy: &Tensor<S>, eps: S::F) -> (r: Result<
    Tensor<S>,
    Error,
>)
    requires
        x@.shape.len() > 0,
        gy@.data is F32 && fits(x@.shape) ==> volume(gy@.shape) >= volume(x@.shape),
    ensures
        rms_norm_backward_out::<S>(x@, gy@, eps, outcome(r)),
{
    if x.dtype() != Dtype::F32 {
        return Err(Error::dtype("to_vec", "expected f32".to_owned()));
    }
    let g: Vec<S::F> = match gy.to_vec_f32() {
        Ok(v) => v,
        Err(e) => {
            return Err(e);
        },
    };
    match crate::shape::numel(x.shape()) {
        Ok(_) => {},
        Err(e) => {
            return Err(e);
        },
    }
    let rank: usize = x.rank();
    let inner: usize = x.shape()[rank - 1];
    let rows: usize = lead_count(x.shape());
    let gs: &[S::F] = g.as_slice();
    let f = |r: usize, s: &[S::F]| -> (o: Vec<S::F>)
        requires
            r < rows,
            s@.len() == inner,
            gs@.len() >= rows * inner
        ensures
            rms_back_row::<S::F, S>(eps, s@, row(gs@, inner as int, r as int), o@),
            o@.len() == s@.len()
    {
        assert(r * inner + inner <= rows * inner && 0 <= r * inner) by (nonlinear_arith)
            requires
                0 <= r < rows,
                inner >= 0,
        ;
        let lo: usize = r * inner;
        rms_back_of::<S::F, S>(eps, s, vstd::slice::slice_subrange(gs, lo, lo + inner))
    };
    let r: Result<Tensor<S>, Error> = row_op(x, f);
    proof {
        if r is Ok {
            let rel = |r: int, s: Seq<S::F>, d: Seq<S::F>| row_called(f, r, s, d);
            let rel2 = rms_back_rel::<S::F, S>(eps, gy@.f32s(), x@.shape.last() as int);
            assert forall|k: int, s: Seq<S::F>, d: Seq<S::F>|
                0 <= k < volume(x@.shape.drop_last()) && #[trigger] rel(k, s, d) implies rel2(
                k,
                s,
                d,
            ) by {
                assert(((k as usize) as int) == k);
            }
            lemma_row_value_weaken::<S>(x@, rel, rel2, r->Ok_0@);
        }
    }
    r
}

} // verus!
