//! Concatenation and stacking.
use vstd::prelude::*;
use crate::dtype::Dtype;
use crate::error::{Error, ErrorKind};
use crate::index::{fits, lemma_volume_at, lemma_volume_prefix, volume};
use crate::scalar::Scalars;
use crate::shape::{axis_at, axis_error, axis_ok, has_zero, normalize_axis, numel};
use crate::storage::Data;
use crate::tensor::{copied, numel_error, Tensor, TensorModel, Model, Outcome, outcome};
use crate::views::{unsqueeze_error, unsqueezed};

verus! {

/// What the tensors of a list hold.
pub open spec fn models<S: Scalars>(ts: Seq<&Tensor<S>>) -> Seq<TensorModel<S::F, S::D>> {
    Seq::new(ts.len(), |i: int| ts[i]@)
}

/// Sum of sizes.
pub open spec fn total(dims: Seq<usize>) -> int
    decreases dims.len(),
{
    if dims.len() == 0 {
        0
    } else {
        total(dims.drop_last()) + dims.last()
    }
}

/// The part that holds coordinate `c` when parts of the given sizes stand one after another.
pub open spec fn holder(dims: Seq<usize>, c: int) -> int
    decreases dims.len(),
{
    if dims.len() == 0 {
        0
    } else if c >= total(dims.drop_last()) {
        dims.len() - 1
    } else {
        holder(dims.drop_last(), c)
    }
}

/// `out` is the parts side by side along an axis. Each part is `outer` blocks of `dims[p]` rows of
/// `inner` elements, and `out` is `outer` blocks of all the rows, the parts' in order.
pub open spec fn side_by_side<T>(
    parts: Seq<Seq<T>>,
    dims: Seq<usize>,
    outer: int,
    inner: int,
    out: Seq<T>,
) -> bool {
    &&& out.len() == outer * (total(dims) * inner)
    &&& forall|o: int, c: int, j: int|
        0 <= o < outer && 0 <= c < total(dims) && 0 <= j < inner ==> #[trigger] out[block_at(
            dims,
            inner,
            o,
            c,
            j,
        )] == parts[holder(dims, c)][(o * dims[holder(dims, c)] + (c - total(
            dims.take(holder(dims, c)),
        ))) * inner + j]
}

/// Place of element `j` of row `c` of block `o`.
pub open spec fn block_at(dims: Seq<usize>, inner: int, o: int, c: int, j: int) -> int {
    (o * total(dims) + c) * inner + j
}

/// Sizes along an axis.
pub open spec fn sizes<F, D>(ms: Seq<TensorModel<F, D>>, ax: int) -> Seq<usize> {
    Seq::new(ms.len(), |i: int| ms[i].shape[ax])
}

/// Shape of a concatenation.
pub open spec fn cat_shape<F, D>(ms: Seq<TensorModel<F, D>>, ax: int) -> Seq<usize> {
    ms[0].shape.update(ax, total(sizes(ms, ax)) as usize)
}

/// Tensor `i` can join the first along `ax`.
pub open spec fn joins<F, D>(ms: Seq<TensorModel<F, D>>, ax: int, i: int) -> bool {
    &&& ms[i].dtype() == ms[0].dtype()
    &&& ms[i].shape.len() == ms[0].shape.len()
    &&& same_but(ms[i].shape, ms[0].shape, ax)
}

/// The sizes agree on every axis but `ax`.
pub open spec fn same_but(a: Seq<usize>, b: Seq<usize>, ax: int) -> bool {
    forall|k: int| 0 <= k < a.len() && k != ax ==> #[trigger] a[k] == b[k]
}

/// All tensors can join.
pub open spec fn all_join<F, D>(ms: Seq<TensorModel<F, D>>, ax: int) -> bool {
    forall|i: int| 0 <= i < ms.len() ==> #[trigger] joins(ms, ax, i)
}

/// Tensor `i` is the first that cannot join, and the error says why.
pub open spec fn join_fault<F, D>(
    e: Error,
    ms: Seq<TensorModel<F, D>>,
    ax: int,
    i: int,
) -> bool {
    &&& 0 <= i < ms.len()
    &&& !joins(ms, ax, i)
    &&& forall|j: int| 0 <= j < i ==> #[trigger] joins(ms, ax, j)
    &&& if ms[i].dtype() != ms[0].dtype() {
        e.says(ErrorKind::Dtype, "cat"@, "mixed dtypes"@)
    } else if ms[i].shape.len() != ms[0].shape.len() {
        e.says(ErrorKind::Shape, "cat"@, "mixed ranks"@)
    } else {
        e.says(ErrorKind::Shape, "cat"@, "non-cat dims must match"@)
    }
}

/// A concatenation is refused.
pub open spec fn cat_error<F, D>(e: Error, ms: Seq<TensorModel<F, D>>, axis: int) -> bool {
    if ms.len() == 0 {
        e.says(ErrorKind::Shape, "cat"@, "need at least one tensor"@)
    } else {
        let rank = ms[0].shape.len() as int;
        let ax = axis_at(axis, rank);
        if !axis_ok(axis, rank) {
            axis_error(e, axis, rank, "cat"@)
        } else if !all_join(ms, ax) {
            has_join_fault(e, ms, ax)
        } else if !ms[0].dtype().floating() {
            e.says(ErrorKind::Dtype, "cat"@, "v1 float cat"@)
        } else {
            !fits(cat_shape(ms, ax)) && numel_error(e)
        }
    }
}

/// Some tensor is the first that cannot join.
pub open spec fn has_join_fault<F, D>(e: Error, ms: Seq<TensorModel<F, D>>, ax: int) -> bool {
    exists|i: int| #[trigger] join_fault(e, ms, ax, i)
}

/// The 32-bit elements of each tensor.
pub open spec fn all_f32s<F, D>(ms: Seq<TensorModel<F, D>>) -> Seq<Seq<F>> {
    Seq::new(ms.len(), |i: int| ms[i].f32s())
}

/// The 64-bit elements of each tensor.
pub open spec fn all_f64s<F, D>(ms: Seq<TensorModel<F, D>>) -> Seq<Seq<D>> {
    Seq::new(ms.len(), |i: int| ms[i].f64s())
}

/// What a concatenation returns.
pub open spec fn cat_value<S: Scalars>(
    ms: Seq<TensorModel<S::F, S::D>>,
    ax: int,
    r: TensorModel<S::F, S::D>,
) -> bool {
    let shape = cat_shape(ms, ax);
    let outer = volume(shape.take(ax)) as int;
    let inner = volume(shape.skip(ax + 1)) as int;
    &&& fits(shape) && r.plain(shape) && r.valid() && r.elems() == r.data
    &&& match r.data {
        Data::F32(w) => ms[0].dtype() == Dtype::F32 && (volume(shape) > 0 ==> side_by_side(
            all_f32s(ms),
            sizes(ms, ax),
            outer,
            inner,
            w,
        )),
        Data::F64(w) => ms[0].dtype() == Dtype::F64 && (volume(shape) > 0 ==> side_by_side(
            all_f64s(ms),
            sizes(ms, ax),
            outer,
            inner,
            w,
        )),
        Data::I64(_) => false,
    }
}

/// The types, axis and shapes are those that a concatenation asks for.
pub open spec fn cat_ready<F, D>(ms: Seq<TensorModel<F, D>>, axis: int) -> bool {
    &&& ms.len() > 0
    &&& axis_ok(axis, ms[0].shape.len() as int)
    &&& all_join(ms, axis_at(axis, ms[0].shape.len() as int))
}

/// Sums of sizes only grow.
pub(crate) proof fn lemma_total_prefix(dims: Seq<usize>, p: int)
    requires
        0 <= p <= dims.len(),
    ensures
        0 <= total(dims.take(p)) <= total(dims),
    decreases dims.len() - p,
{
    lemma_total_nonneg(dims.take(p));
    if p == dims.len() {
        assert(dims.take(p) =~= dims);
    } else {
        lemma_total_prefix(dims, p + 1);
        assert(dims.take(p + 1).drop_last() =~= dims.take(p));
    }
}

proof fn lemma_total_nonneg(dims: Seq<usize>)
    ensures
        total(dims) >= 0,
    decreases dims.len(),
{
    if dims.len() > 0 {
        lemma_total_nonneg(dims.drop_last());
    }
}

/// Row `l` of part `p` is the row that part `p` holds.
proof fn lemma_holder(dims: Seq<usize>, p: int, l: int)
    requires
        0 <= p < dims.len(),
        0 <= l < dims[p],
    ensures
        holder(dims, total(dims.take(p)) + l) == p,
    decreases dims.len(),
{
    let c = total(dims.take(p)) + l;
    if p == dims.len() - 1 {
        assert(dims.take(p) =~= dims.drop_last());
    } else {
        assert(dims.drop_last().take(p) =~= dims.take(p));
        lemma_holder(dims.drop_last(), p, l);
        lemma_total_prefix(dims.drop_last(), p + 1);
        assert(dims.drop_last().take(p + 1).drop_last() =~= dims.take(p));
    }
}

/// Every row belongs to a part.
proof fn lemma_held(dims: Seq<usize>, c: int)
    requires
        0 <= c < total(dims),
    ensures
        0 <= holder(dims, c) < dims.len(),
        total(dims.take(holder(dims, c))) <= c < total(dims.take(holder(dims, c)))
            + dims[holder(dims, c)],
    decreases dims.len(),
{
    if c >= total(dims.drop_last()) {
        assert(dims.take(dims.len() - 1) =~= dims.drop_last());
    } else {
        lemma_held(dims.drop_last(), c);
        let p = holder(dims.drop_last(), c);
        assert(dims.drop_last().take(p) =~= dims.take(p));
    }
}

/// Appends a span of `v`.
fn append_span<T: Copy>(out: &mut Vec<T>, v: &[T], lo: usize, hi: usize)
    requires
        lo <= hi <= v@.len(),
    ensures
        final(out)@ == old(out)@ + v@.subrange(lo as int, hi as int),
{
    let mut i: usize = lo;
    while i < hi
        invariant
            lo <= i <= hi <= v@.len(),
            out@ =~= old(out)@ + v@.subrange(lo as int, i as int),
        decreases hi - i,
    {
        out.push(v[i]);
        i = i + 1;
    }
}

/// The blocks before `o`, and the rows of block `o` before `rows`, stand where they belong.
spec fn filled<T>(
    parts: Seq<Seq<T>>,
    dims: Seq<usize>,
    inner: int,
    out: Seq<T>,
    o: int,
    rows: int,
) -> bool {
    forall|b: int, c: int, j: int|
        0 <= c < total(dims) && 0 <= j < inner && (0 <= b < o || (b == o && c < rows))
            ==> #[trigger] out[block_at(dims, inner, b, c, j)] == parts[holder(dims, c)][(b
            * dims[holder(dims, c)] + (c - total(dims.take(holder(dims, c))))) * inner + j]
}

/// One more part in a block.
proof fn lemma_filled<T>(
    parts: Seq<Seq<T>>,
    dims: Seq<usize>,
    inner: int,
    before: Seq<T>,
    out: Seq<T>,
    o: int,
    p: int,
)
    requires
        0 <= o,
        0 <= p < dims.len() == parts.len(),
        inner > 0,
        parts[p].len() >= (o + 1) * (dims[p] * inner),
        before.len() == o * (total(dims) * inner) + total(dims.take(p)) * inner,
        out == before + parts[p].subrange(
            o * (dims[p] * inner),
            o * (dims[p] * inner) + dims[p] * inner,
        ),
        filled(parts, dims, inner, before, o, total(dims.take(p))),
    ensures
        filled(parts, dims, inner, out, o, total(dims.take(p + 1))),
        out.len() == o * (total(dims) * inner) + total(dims.take(p + 1)) * inner,
{
    let lead = total(dims.take(p));
    let all = total(dims);
    let d = dims[p] as int;
    assert(dims.take(p + 1).drop_last() =~= dims.take(p));
    assert(total(dims.take(p + 1)) == lead + d);
    lemma_total_prefix(dims, p);
    assert((lead + d) * inner == lead * inner + d * inner) by (nonlinear_arith);
    assert(d * inner >= 0 && o * (d * inner) >= 0) by (nonlinear_arith)
        requires
            d >= 0,
            inner >= 0,
            o >= 0,
    ;
    assert((o + 1) * (d * inner) == o * (d * inner) + d * inner) by (nonlinear_arith);
    assert forall|b: int, c: int, j: int|
        0 <= c < total(dims) && 0 <= j < inner && (0 <= b < o || (b == o && c < lead
            + d)) implies #[trigger] out[block_at(dims, inner, b, c, j)] == parts[holder(dims, c)][(b
        * dims[holder(dims, c)] + (c - total(dims.take(holder(dims, c))))) * inner + j] by {
        let at = block_at(dims, inner, b, c, j);
        assert(at == b * (all * inner) + c * inner + j) by (nonlinear_arith)
            requires
                at == (b * all + c) * inner + j,
        ;
        if b < o || c < lead {
            if b < o {
                assert(b * (all * inner) + c * inner + j < o * (all * inner)) by (nonlinear_arith)
                    requires
                        0 <= b < o,
                        0 <= c < all,
                        0 <= j < inner,
                ;
                assert(lead * inner >= 0) by (nonlinear_arith)
                    requires
                        lead >= 0,
                        inner >= 0,
                ;
            } else {
                assert(c * inner + j < lead * inner) by (nonlinear_arith)
                    requires
                        0 <= c < lead,
                        0 <= j < inner,
                ;
            }
            assert(b * (all * inner) + c * inner >= 0) by (nonlinear_arith)
                requires
                    b >= 0,
                    all >= 0,
                    c >= 0,
                    inner >= 0,
            ;
            assert(before[at] == out[at]);
        } else {
            let l = c - lead;
            lemma_holder(dims, p, l);
            assert(at == before.len() + (l * inner + j)) by (nonlinear_arith)
                requires
                    at == o * (all * inner) + c * inner + j,
                    c == lead + l,
                    before.len() == o * (all * inner) + lead * inner,
            ;
            assert(0 <= l * inner + j < d * inner) by (nonlinear_arith)
                requires
                    0 <= l < d,
                    0 <= j < inner,
            ;
            assert((o * d + l) * inner + j == o * (d * inner) + (l * inner + j))
                by (nonlinear_arith);
        }
    }
}

/// Puts the parts side by side.
fn join_blocks<T: Copy>(parts: &Vec<Vec<T>>, dims: &Vec<usize>, outer: usize, inner: usize) -> (out:
    Vec<T>)
    requires
        dims@.len() == parts@.len(),
        inner > 0,
        forall|p: int|
            0 <= p < parts@.len() ==> (#[trigger] parts@[p])@.len() == outer * (dims@[p] * inner),
    ensures
        side_by_side(
            Seq::new(parts@.len(), |p: int| parts@[p]@),
            dims@,
            outer as int,
            inner as int,
            out@,
        ),
{
    let ghost all = Seq::new(parts@.len(), |p: int| parts@[p]@);
    let mut out: Vec<T> = Vec::new();
    let mut o: usize = 0;
    while o < outer
        invariant
            o <= outer,
            dims@.len() == parts@.len(),
            inner > 0,
            forall|p: int|
                0 <= p < parts@.len() ==> (#[trigger] parts@[p])@.len() == outer * (dims@[p]
                    * inner),
            all == Seq::new(parts@.len(), |p: int| parts@[p]@),
            out@.len() == o * (total(dims@) * inner),
            filled(all, dims@, inner as int, out@, o as int, 0),
        decreases outer - o,
    {
        let mut p: usize = 0;
        proof {
            assert(dims@.take(0) =~= Seq::empty());
            assert(total(dims@.take(0)) == 0);
        }
        while p < parts.len()
            invariant
                p <= parts@.len(),
                o < outer,
                dims@.len() == parts@.len(),
                inner > 0,
                forall|p: int|
                    0 <= p < parts@.len() ==> (#[trigger] parts@[p])@.len() == outer * (dims@[p]
                        * inner),
                all == Seq::new(parts@.len(), |p: int| parts@[p]@),
                out@.len() == o * (total(dims@) * inner) + total(dims@.take(p as int)) * inner,
                filled(all, dims@, inner as int, out@, o as int, total(dims@.take(p as int))),
            decreases parts@.len() - p,
        {
            let ghost d = dims@[p as int] as int;
            let len: usize = parts[p].len();
            assert(o * (d * inner) + d * inner <= len && d * inner <= len) by (nonlinear_arith)
                requires
                    0 <= o < outer,
                    d >= 0,
                    inner >= 0,
                    len == outer * (d * inner),
            ;
            assert(0 <= d * inner && 0 <= o * (d * inner)) by (nonlinear_arith)
                requires
                    o >= 0,
                    d >= 0,
                    inner >= 0,
            ;
            assert((o + 1) * (d * inner) == o * (d * inner) + d * inner) by (nonlinear_arith);
            let span: usize = dims[p] * inner;
            let lo: usize = o * span;
            let ghost before = out@;
            append_span(&mut out, parts[p].as_slice(), lo, lo + span);
            proof {
                lemma_filled(all, dims@, inner as int, before, out@, o as int, p as int);
            }
            p = p + 1;
        }
        proof {
            assert(dims@.take(p as int) =~= dims@);
            let t = total(dims@);
            assert((o + 1) * (t * inner) == o * (t * inner) + t * inner) by (nonlinear_arith);
        }
        o = o + 1;
    }
    out
}

/// Whether sizes agree on every axis but `ax`.
fn agree_but(a: &[usize], b: &[usize], ax: usize) -> (r: bool)
    requires
        a@.len() == b@.len(),
    ensures
        r == same_but(a@, b@, ax as int),
{
    let mut k: usize = 0;
    while k < a.len()
        invariant
            k <= a@.len() == b@.len(),
            forall|j: int| 0 <= j < k && j != ax ==> #[trigger] a@[j] == b@[j],
        decreases a@.len() - k,
    {
        if k != ax && a[k] != b[k] {
            return false;
        }
        k = k + 1;
    }
    true
}

/// Checks that all tensors can join along `ax`.
fn check_joins<S: Scalars>(tensors: &[&Tensor<S>], ax: usize) -> (r: Result<(), Error>)
    requires
        tensors@.len() > 0,
    ensures
        r is Ok ==> all_join(models(tensors@), ax as int),
        r matches Err(e) ==> !all_join(models(tensors@), ax as int) && has_join_fault(
            e,
            models(tensors@),
            ax as int,
        ),
{
    let ghost ms = models(tensors@);
    let dtype: Dtype = tensors[0].dtype();
    let rank: usize = tensors[0].rank();
    let mut i: usize = 0;
    while i < tensors.len()
        invariant
            i <= tensors@.len(),
            tensors@.len() > 0,
            ms == models(tensors@),
            dtype == ms[0].dtype(),
            rank == ms[0].shape.len(),
            forall|j: int| 0 <= j < i ==> #[trigger] joins(ms, ax as int, j),
        decreases tensors@.len() - i,
    {
        assert(ms[i as int] == tensors@[i as int]@);
        assert(ms[0] == tensors@[0]@);
        if tensors[i].dtype() != dtype {
            let e: Error = Error::dtype("cat", "mixed dtypes".to_owned());
            assert(join_fault(e, ms, ax as int, i as int));
            return Err(e);
        }
        if tensors[i].rank() != rank {
            let e: Error = Error::shape("cat", "mixed ranks".to_owned());
            assert(join_fault(e, ms, ax as int, i as int));
            return Err(e);
        }
        if !agree_but(tensors[i].shape(), tensors[0].shape(), ax) {
            let e: Error = Error::shape("cat", "non-cat dims must match".to_owned());
            assert(join_fault(e, ms, ax as int, i as int));
            return Err(e);
        }
        i = i + 1;
    }
    Ok(())
}

/// Whether all tensors can join along `ax`.
pub fn can_join<S: Scalars>(tensors: &[&Tensor<S>], ax: usize) -> (r: bool)
    requires
        tensors@.len() > 0,
    ensures
        r == all_join(models(tensors@), ax as int),
{
    match check_joins(tensors, ax) {
        Ok(_) => true,
        Err(_) => false,
    }
}

/// The sizes along `ax`, and their sum.
fn sizes_along<S: Scalars>(tensors: &[&Tensor<S>], ax: usize) -> (r: (Vec<usize>, usize))
    requires
        forall|i: int| 0 <= i < tensors@.len() ==> ax < (#[trigger] tensors@[i])@.shape.len(),
        total(sizes(models(tensors@), ax as int)) <= usize::MAX,
    ensures
        r.0@ == sizes(models(tensors@), ax as int),
        r.1 == total(sizes(models(tensors@), ax as int)),
{
    let ghost dims = sizes(models(tensors@), ax as int);
    let mut v: Vec<usize> = Vec::new();
    let mut sum: usize = 0;
    let mut i: usize = 0;
    while i < tensors.len()
        invariant
            i <= tensors@.len(),
            forall|i: int| 0 <= i < tensors@.len() ==> ax < (#[trigger] tensors@[i])@.shape.len(),
            dims == sizes(models(tensors@), ax as int),
            total(dims) <= usize::MAX,
            v@ =~= dims.take(i as int),
            sum == total(dims.take(i as int)),
        decreases tensors@.len() - i,
    {
        let d: usize = tensors[i].shape()[ax];
        proof {
            assert(d == dims[i as int]);
            assert(dims.take(i + 1).drop_last() =~= dims.take(i as int));
            lemma_total_prefix(dims, i + 1);
        }
        v.push(d);
        sum = sum + d;
        i = i + 1;
    }
    assert(dims.take(i as int) =~= dims);
    (v, sum)
}

/// Product of sizes that are not zero and do not overflow.
fn product_of(shape: &[usize], lo: usize, hi: usize) -> (r: usize)
    requires
        lo <= hi <= shape@.len(),
        0 < volume(shape@) <= usize::MAX,
    ensures
        r == volume(shape@.subrange(lo as int, hi as int)),
        r > 0,
{
    let mut r: usize = 1;
    let mut k: usize = lo;
    assert(shape@.subrange(lo as int, lo as int) =~= Seq::empty());
    while k < hi
        invariant
            lo <= k <= hi <= shape@.len(),
            0 < volume(shape@) <= usize::MAX,
            r == volume(shape@.subrange(lo as int, k as int)),
            r > 0,
        decreases hi - k,
    {
        proof {
            let w = shape@.subrange(lo as int, k + 1);
            assert(w.drop_last() =~= shape@.subrange(lo as int, k as int));
            lemma_part_volume(shape@, lo as int, k + 1);
            assert(volume(w) == r * shape@[k as int]);
        }
        r = r * shape[k];
        k = k + 1;
    }
    r
}

/// A run of axes spans no more elements than all of them.
proof fn lemma_part_volume(shape: Seq<usize>, lo: int, hi: int)
    requires
        0 <= lo <= hi <= shape.len(),
        volume(shape) > 0,
    ensures
        0 < volume(shape.subrange(lo, hi)) <= volume(shape),
{
    lemma_volume_prefix(shape, hi);
    let front = shape.take(hi);
    assert(front =~= shape.take(lo) + shape.subrange(lo, hi));
    crate::index::lemma_volume_concat(shape.take(lo), shape.subrange(lo, hi));
    let a = volume(shape.take(lo));
    let b = volume(shape.subrange(lo, hi));
    assert(b > 0 && b <= a * b) by (nonlinear_arith)
        requires
            a * b > 0,
            a >= 0,
            b >= 0,
    ;
}

/// Elements of a tensor that agrees with the joint shape but for `ax`.
proof fn lemma_part_len(shape: Seq<usize>, ax: int, part: Seq<usize>)
    requires
        0 <= ax < shape.len() == part.len(),
        same_but(part, shape, ax),
    ensures
        volume(part) == volume(shape.take(ax)) * (part[ax] * volume(shape.skip(ax + 1))),
{
    lemma_volume_at(part, ax);
    assert(part.take(ax) =~= shape.take(ax));
    assert(part.skip(ax + 1) =~= shape.skip(ax + 1));
}

/// The size along the axis of a concatenation is a number.
pub open spec fn cat_sized<F, D>(ms: Seq<TensorModel<F, D>>, axis: int) -> bool {
    cat_ready(ms, axis) ==> total(
        sizes(ms, axis_at(axis, ms[0].shape.len() as int)),
    ) <= usize::MAX
}

/// What `cat` comes to.
pub open spec fn cat_out<S: Scalars>(ms: Seq<Model<S>>, axis: int, r: Outcome<S>) -> bool {
    match r {
        Ok(t) => cat_ready(ms, axis) && cat_value::<S>(
            ms,
            axis_at(axis, ms[0].shape.len() as int),
            t,
        ),
        Err(e) => cat_error(e, ms, axis),
    }
}

/// Concatenates tensors along `axis`. They share a type, a rank and every size but that of `axis`.
pub fn cat<S: Scalars>(tensors: &[&Tensor<S>], axis: isize) -> (r: Result<Tensor<S>, Error>)
    requires
        cat_sized(models(tensors@), axis as int),
    ensures
        cat_out::<S>(models(tensors@), axis as int, outcome(r)),
{
    if tensors.len() == 0 {
        return Err(Error::shape("cat", "need at least one tensor".to_owned()));
    }
    let ghost ms = models(tensors@);
    assert(ms[0] == tensors@[0]@);
    let rank: usize = tensors[0].rank();
    let ax: usize = match normalize_axis(axis, rank, "cat") {
        Ok(a) => a,
        Err(e) => {
            return Err(e);
        },
    };
    match check_joins(tensors, ax) {
        Ok(_) => {},
        Err(e) => {
            return Err(e);
        },
    }
    proof {
        assert forall|i: int| 0 <= i < tensors@.len() implies ax < (
        #[trigger] tensors@[i])@.shape.len() by {
            assert(joins(ms, ax as int, i));
            assert(ms[i] == tensors@[i]@);
        }
    }
    let (dims, sum): (Vec<usize>, usize) = sizes_along(tensors, ax);
    let mut shape: Vec<usize> = copied(tensors[0].shape());
    shape.set(ax, sum);
    if !tensors[0].dtype().is_float() {
        return Err(Error::dtype("cat", "v1 float cat".to_owned()));
    }
    match numel(shape.as_slice()) {
        Ok(_) => {},
        Err(e) => {
            return Err(e);
        },
    }
    let single: bool = tensors[0].dtype() == Dtype::F32;
    if has_zero(shape.as_slice()) {
        return Tensor::zeros(shape.as_slice(), tensors[0].dtype());
    }
    let outer: usize = product_of(shape.as_slice(), 0, ax);
    let inner: usize = product_of(shape.as_slice(), ax + 1, rank);
    let mut parts32: Vec<Vec<S::F>> = Vec::new();
    let mut parts64: Vec<Vec<S::D>> = Vec::new();
    proof {
        assert(shape@.subrange(0, ax as int) =~= shape@.take(ax as int));
        assert(shape@.subrange(ax + 1, rank as int) =~= shape@.skip(ax + 1));
    }
    let mut i: usize = 0;
    while i < tensors.len()
        invariant
            i <= tensors@.len(),
            ms == models(tensors@),
            ax < rank == shape@.len() == ms[0].shape.len(),
            shape@ == cat_shape(ms, ax as int),
            all_join(ms, ax as int),
            ms[0].dtype().floating(),
            single == (ms[0].dtype() == Dtype::F32),
            dims@ == sizes(ms, ax as int),
            outer == volume(shape@.take(ax as int)),
            inner == volume(shape@.skip(ax + 1)),
            single ==> parts32@.len() == i,
            !single ==> parts64@.len() == i,
            single ==> forall|p: int|
                0 <= p < i ==> (#[trigger] parts32@[p])@ == ms[p].f32s() && parts32@[p]@.len()
                    == outer * (dims@[p] * inner),
            !single ==> forall|p: int|
                0 <= p < i ==> (#[trigger] parts64@[p])@ == ms[p].f64s() && parts64@[p]@.len()
                    == outer * (dims@[p] * inner),
        decreases tensors@.len() - i,
    {
        proof {
            assert(joins(ms, ax as int, i as int));
            assert(ms[i as int] == tensors@[i as int]@);
            lemma_part_len(shape@, ax as int, ms[i as int].shape);
        }
        match tensors[i].to_vec_f32() {
            Ok(v) => {
                parts32.push(v);
            },
            Err(_) => {
                match tensors[i].to_vec_f64() {
                    Ok(v) => {
                        parts64.push(v);
                    },
                    Err(e) => {
                        return Err(e);
                    },
                }
            },
        }
        i = i + 1;
    }
    proof {
        lemma_volume_at(shape@, ax as int);
    }
    if single {
        let out: Vec<S::F> = join_blocks(&parts32, &dims, outer, inner);
        assert(Seq::new(parts32@.len(), |p: int| parts32@[p]@) =~= all_f32s(ms));
        Tensor::from_vec_f32(out, shape.as_slice())
    } else {
        let out: Vec<S::D> = join_blocks(&parts64, &dims, outer, inner);
        assert(Seq::new(parts64@.len(), |p: int| parts64@[p]@) =~= all_f64s(ms));
        Tensor::from_vec_f64(out, shape.as_slice())
    }
}

/// The tensors with a new axis.
pub open spec fn all_unsqueezed<F, D>(
    ms: Seq<TensorModel<F, D>>,
    axis: int,
) -> Seq<TensorModel<F, D>> {
    Seq::new(
        ms.len(),
        |i: int| unsqueezed(ms[i], axis_at(axis, (ms[i].shape.len() + 1) as int)),
    )
}

/// Every tensor can take the new axis.
pub open spec fn all_unsqueeze<F, D>(ms: Seq<TensorModel<F, D>>, axis: int) -> bool {
    forall|i: int|
        0 <= i < ms.len() ==> axis_ok(axis, ((#[trigger] ms[i]).shape.len() + 1) as int)
}

/// Tensor `i` is the first that cannot take the new axis.
pub open spec fn unsqueeze_fault<F, D>(
    e: Error,
    ms: Seq<TensorModel<F, D>>,
    axis: int,
    i: int,
) -> bool {
    &&& 0 <= i < ms.len()
    &&& !axis_ok(axis, (ms[i].shape.len() + 1) as int)
    &&& forall|j: int|
        0 <= j < i ==> axis_ok(axis, ((#[trigger] ms[j]).shape.len() + 1) as int)
    &&& unsqueeze_error(e, axis, ms[i].shape.len())
}

/// A stack is refused.
pub open spec fn stack_error<F, D>(e: Error, ms: Seq<TensorModel<F, D>>, axis: int) -> bool {
    if all_unsqueeze(ms, axis) {
        cat_error(e, all_unsqueezed(ms, axis), axis)
    } else {
        exists|i: int| #[trigger] unsqueeze_fault(e, ms, axis, i)
    }
}

/// The tensors, each by reference.
pub fn borrowed<S: Scalars>(v: &Vec<Tensor<S>>) -> (r: Vec<&Tensor<S>>)
    ensures
        r@.len() == v@.len(),
        forall|i: int| 0 <= i < v@.len() ==> *(#[trigger] r@[i]) == v@[i],
{
    let mut r: Vec<&Tensor<S>> = Vec::new();
    let mut i: usize = 0;
    while i < v.len()
        invariant
            i <= v@.len(),
            r@.len() == i,
            forall|j: int| 0 <= j < i ==> *(#[trigger] r@[j]) == v@[j],
        decreases v@.len() - i,
    {
        r.push(&v[i]);
        i = i + 1;
    }
    r
}

/// What `stack` comes to.
pub open spec fn stack_out<S: Scalars>(ms: Seq<Model<S>>, axis: int, r: Outcome<S>) -> bool {
    match r {
        Ok(t) => {
            &&& ms.len() > 0 && all_unsqueeze(ms, axis)
            &&& cat_ready(all_unsqueezed(ms, axis), axis)
            &&& cat_value::<S>(
                all_unsqueezed(ms, axis),
                axis_at(axis, (ms[0].shape.len() + 1) as int),
                t,
            )
        },
        Err(e) => stack_error(e, ms, axis),
    }
}

/// Stacks tensors along a new axis: each gets the axis with size one, and they are concatenated.
pub fn stack<S: Scalars>(tensors: &[&Tensor<S>], axis: isize) -> (r: Result<Tensor<S>, Error>)
    ensures
        stack_out::<S>(models(tensors@), axis as int, outcome(r)),
{
    let ghost ms = models(tensors@);
    let mut u: Vec<Tensor<S>> = Vec::new();
    let mut i: usize = 0;
    while i < tensors.len()
        invariant
            i <= tensors@.len(),
            ms == models(tensors@),
            u@.len() == i,
            forall|j: int|
                0 <= j < i ==> axis_ok(axis as int, ((#[trigger] ms[j]).shape.len() + 1) as int),
            forall|j: int|
                0 <= j < i ==> (#[trigger] u@[j])@ == unsqueezed(
                    ms[j],
                    axis_at(axis as int, (ms[j].shape.len() + 1) as int),
                ),
        decreases tensors@.len() - i,
    {
        assert(ms[i as int] == tensors@[i as int]@);
        match tensors[i].unsqueeze(axis) {
            Ok(t) => {
                u.push(t);
            },
            Err(e) => {
                assert(unsqueeze_fault(e, ms, axis as int, i as int));
                return Err(e);
            },
        }
        i = i + 1;
    }
    let refs: Vec<&Tensor<S>> = borrowed(&u);
    proof {
        assert(models(refs@) =~= all_unsqueezed(ms, axis as int));
        if cat_ready(models(refs@), axis as int) {
            let rank = refs@[0]@.shape.len();
            let ax = axis_at(axis as int, rank as int);
            let dims = sizes(models(refs@), ax);
            assert forall|j: int| 0 <= j < dims.len() implies #[trigger] dims[j] == 1 by {
                assert(joins(models(refs@), ax, j));
                assert(models(refs@)[j] == unsqueezed(
                    ms[j],
                    axis_at(axis as int, (ms[j].shape.len() + 1) as int),
                ));
                assert(models(refs@)[j].shape.len() == ms[j].shape.len() + 1);
            }
            lemma_total_ones(dims);
            assert(refs@.len() == tensors@.len());
        }
        if ms.len() > 0 {
            assert(ms[0] == tensors@[0]@);
            assert(models(refs@)[0].shape.len() == ms[0].shape.len() + 1);
        }
    }
    cat(refs.as_slice(), axis)
}

/// As many rows of one as there are parts.
pub proof fn lemma_total_ones(dims: Seq<usize>)
    requires
        forall|j: int| 0 <= j < dims.len() ==> #[trigger] dims[j] == 1,
    ensures
        total(dims) == dims.len(),
    decreases dims.len(),
{
    if dims.len() > 0 {
        lemma_total_ones(dims.drop_last());
    }
}

/// In a concatenation every row stands in exactly one part: the one whose span of rows holds it.
pub proof fn law_cat_covers(dims: Seq<usize>, c: int)
    requires
        0 <= c < total(dims),
    ensures
        0 <= holder(dims, c) < dims.len(),
        0 <= c - total(dims.take(holder(dims, c))) < dims[holder(dims, c)],
        forall|p: int|
            0 <= p < dims.len() && total(#[trigger] dims.take(p)) <= c < total(dims.take(p))
                + dims[p] ==> p == holder(dims, c),
{
    lemma_held(dims, c);
    assert forall|p: int|
        0 <= p < dims.len() && total(#[trigger] dims.take(p)) <= c < total(dims.take(p))
            + dims[p] implies p == holder(dims, c) by {
        lemma_holder(dims, p, c - total(dims.take(p)));
    }
}

} // verus!
