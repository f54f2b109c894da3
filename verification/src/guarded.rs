//! Operations that meet any tensor: where an operand is too small or too large for the operation,
//! they refuse it.
use vstd::prelude::*;
use crate::dtype::Dtype;
use crate::error::{Error, ErrorKind};
use crate::index::{dot, fits, in_bounds, ints, lemma_ravel, ravel, unravel, volume};
use crate::indexing::{
    pick, pick_ok, picked, scatter_add, scatter_add_out, scatter_inside, scatter_ready,
    scatter_target,
};
use crate::joining::{cat, cat_out, cat_ready, cat_sized, models, sizes, total};
use crate::lookup::{embedding_backward, embedding_backward_out};
use crate::rows::{rms_norm_backward, rms_norm_backward_out};
use crate::scalar::Scalars;
use crate::scan::{gated_scan_backward, gated_scan_backward_out, scan_ready};
use crate::shape::{advance, axis_at, broadcast_shapes, compatible, has_zero, zero_index};
use crate::slopes::pair_outcome;
use crate::tensor::{outcome, Model, Outcome, Tensor, TensorModel};
use crate::views::{
    broadcast_to_out, range_at, slice_fits, slice_out, slice_starts, slice_step, steps_ok, Range3,
};

verus! {

/// An operand is of no use to the operation.
pub open spec fn misfit(e: Error, op: Seq<char>) -> bool {
    e.says(ErrorKind::Domain, op, "operand does not fit"@)
}

/// The error of an operand of no use.
pub fn misfit_error(op: &'static str) -> (e: Error)
    ensures
        misfit(e, op@),
{
    Error::new(ErrorKind::Domain, op, "operand does not fit".to_owned())
}

/// A view of shape `from` can be stretched to `target` without reading outside.
pub open spec fn stretches(from: Seq<usize>, target: Seq<usize>) -> bool {
    compatible(from, target) ==> from.len() <= target.len() && (volume(from) == 0 ==> volume(target)
        == 0)
}

/// What `stretch` comes to.
pub open spec fn stretch_out<S: Scalars>(
    op: Seq<char>,
    m: Model<S>,
    target: Seq<usize>,
    r: Outcome<S>,
) -> bool {
    if stretches(m.shape, target) {
        broadcast_to_out::<S>(m, target, r)
    } else {
        r is Err && misfit(r->Err_0, op)
    }
}

/// Broadcasts to `target`.
pub fn stretch<S: Scalars>(op: &'static str, x: &Tensor<S>, target: &[usize]) -> (r: Result<
    Tensor<S>,
    Error,
>)
    ensures
        stretch_out::<S>(op@, x@, target@, outcome(r)),
{
    match broadcast_shapes(x.shape(), target) {
        Ok(_) => {
            if x.rank() > target.len() || (has_zero(x.shape()) && !has_zero(target)) {
                return Err(misfit_error(op));
            }
        },
        Err(_) => {},
    }
    x.broadcast_to(target)
}

/// What `cut` comes to.
pub open spec fn cut_out<S: Scalars>(
    op: Seq<char>,
    m: Model<S>,
    ranges: Seq<Range3>,
    r: Outcome<S>,
) -> bool {
    if ranges.len() <= m.shape.len() && !slice_fits(m, ranges) {
        r is Err && misfit(r->Err_0, op)
    } else {
        slice_out::<S>(m, ranges, r)
    }
}

/// Whether a slice stays within machine numbers.
fn slice_in_reach<S: Scalars>(x: &Tensor<S>, ranges: &[Range3]) -> (r: bool)
    ensures
        r == slice_fits(x@, ranges@),
{
    let ghost m = x@;
    let ghost starts = slice_starts(m.shape, ranges@);
    let shape: &[usize] = x.shape();
    let strides: &[isize] = x.strides();
    let mut at: i128 = x.storage_offset() as i128;
    let mut k: usize = 0;
    assert(starts.take(0) =~= Seq::empty());
    while k < shape.len()
        invariant
            k <= shape@.len() == strides@.len(),
            m == x@,
            shape@ == m.shape,
            strides@ == m.strides,
            starts == slice_starts(m.shape, ranges@),
            steps_ok(ranges@, k as int),
            at == m.offset + dot(starts.take(k as int), m.strides.take(k as int)),
            isize::MIN <= at <= usize::MAX,
            forall|j: int|
                0 <= j < k && steps_ok(ranges@, j + 1) ==> {
                    &&& isize::MIN <= m.strides[j] * slice_step(#[trigger] range_at(ranges@, j))
                        <= isize::MAX
                    &&& isize::MIN <= m.offset + dot(starts.take(j + 1), m.strides.take(j + 1))
                        <= usize::MAX
                },
        decreases shape@.len() - k,
    {
        let rg: Range3 = if k < ranges.len() {
            ranges[k]
        } else {
            (None, None, None)
        };
        assert(rg == range_at(ranges@, k as int));
        let zero: bool = match rg.2 {
            Some(step) => step == 0,
            None => false,
        };
        if zero {
            proof {
                assert forall|j: int|
                    0 <= j < m.shape.len() && steps_ok(ranges@, j + 1) implies isize::MIN
                    <= m.strides[j] * slice_step(#[trigger] range_at(ranges@, j)) <= isize::MAX
                    && isize::MIN <= m.offset + dot(starts.take(j + 1), m.strides.take(j + 1))
                    <= usize::MAX by {
                    if j >= k {
                        assert(slice_step(range_at(ranges@, k as int)) != 0);
                    }
                }
            }
            return true;
        }
        let (start, _, step): (i128, i128, i128) = crate::views::slice_axis(shape[k], rg);
        proof {
            crate::views::lemma_slice_reach(shape@[k as int], rg, strides@[k as int]);
            let a = starts.take(k + 1);
            let b = m.strides.take(k + 1);
            assert(a.drop_last() =~= starts.take(k as int));
            assert(b.drop_last() =~= m.strides.take(k as int));
            assert(dot(a, b) == dot(starts.take(k as int), m.strides.take(k as int)) + start
                * strides@[k as int]);
            assert(steps_ok(ranges@, k + 1));
        }
        let long: i128 = strides[k] as i128 * step;
        let next: i128 = at + start * strides[k] as i128;
        if long < isize::MIN as i128 || long > isize::MAX as i128 || next < isize::MIN as i128
            || next > usize::MAX as i128 {
            assert(range_at(ranges@, k as int) == rg);
            return false;
        }
        at = next;
        k = k + 1;
    }
    true
}

/// Slices.
pub fn cut<S: Scalars>(op: &'static str, x: &Tensor<S>, ranges: &[Range3]) -> (r: Result<
    Tensor<S>,
    Error,
>)
    ensures
        cut_out::<S>(op@, x@, ranges@, outcome(r)),
{
    if ranges.len() <= x.rank() && !slice_in_reach(x, ranges) {
        return Err(misfit_error(op));
    }
    x.slice(ranges)
}

/// Every entry that names a position adds inside the target.
pub open spec fn scatter_fine<F, D>(
    dst: TensorModel<F, D>,
    axis: int,
    index: TensorModel<F, D>,
    src: TensorModel<F, D>,
) -> bool {
    scatter_ready(dst, axis, index, src) && (dst.dtype() == Dtype::F64 || src.shape.len()
        == dst.shape.len()) ==> scatter_inside(
        dst.shape,
        axis_at(axis, dst.shape.len() as int),
        src.shape,
        index.i64s(),
    )
}

/// What `scatter` comes to.
pub open spec fn scatter_out<S: Scalars>(
    op: Seq<char>,
    dst: Model<S>,
    axis: int,
    index: Model<S>,
    src: Model<S>,
    r: Outcome<S>,
) -> bool {
    if scatter_fine(dst, axis, index, src) {
        scatter_add_out::<S>(dst, axis, index, src, r)
    } else {
        r is Err && misfit(r->Err_0, op)
    }
}

/// Row-major rank of a position, where it lies below `limit`.
fn rank_below(shape: &[usize], idx: &[usize], limit: usize) -> (r: Option<usize>)
    requires
        shape@.len() == idx@.len(),
        limit == volume(shape@),
    ensures
        r matches Some(o) ==> o == ravel(shape@, ints(idx@)) && o < limit,
        r is None ==> ravel(shape@, ints(idx@)) >= limit,
{
    let mut r: u128 = 0;
    let mut k: usize = 0;
    let mut over: bool = false;
    if limit == 0 {
        proof {
            crate::indexing::lemma_ravel_nonneg(shape@, ints(idx@));
        }
        return None;
    }
    while k < shape.len()
        invariant
            k <= shape@.len() == idx@.len(),
            limit == volume(shape@),
            limit > 0,
            r == ravel(shape@.take(k as int), ints(idx@).take(k as int)),
            r < limit,
        decreases shape@.len() - k,
    {
        let ghost before = r;
        proof {
            let a = shape@.take(k + 1);
            let b = ints(idx@).take(k + 1);
            assert(a.drop_last() =~= shape@.take(k as int));
            assert(b.drop_last() =~= ints(idx@).take(k as int));
            let d = shape@[k as int] as int;
            assert(0 <= r * d && r * d + idx@[k as int] <= u128::MAX) by (nonlinear_arith)
                requires
                    0 <= r < limit,
                    limit <= usize::MAX,
                    0 <= d <= usize::MAX,
                    0 <= idx@[k as int] <= usize::MAX,
                    usize::MAX <= 0xffff_ffff_ffff_ffff,
            ;
        }
        r = r * shape[k] as u128 + idx[k] as u128;
        if r >= limit as u128 {
            proof {
                crate::indexing::lemma_ravel_prefix(shape@, idx@, k + 1);
            }
            return None;
        }
        k = k + 1;
    }
    assert(shape@.take(k as int) =~= shape@);
    assert(ints(idx@).take(k as int) =~= ints(idx@));
    Some(r as usize)
}

/// Whether every entry that names a position adds inside the target.
fn targets_inside(shape: &[usize], ax: usize, src_shape: &[usize], index: &[i64]) -> (r: bool)
    requires
        ax < shape@.len(),
        fits(shape@),
        index@.len() == volume(src_shape@),
    ensures
        r == scatter_inside(shape@, ax as int, src_shape@, index@),
{
    let limit: usize = match crate::shape::numel(shape) {
        Ok(n) => n,
        Err(_) => 0,
    };
    if has_zero(src_shape) {
        return true;
    }
    let mut idx: Vec<usize> = zero_index(src_shape.len());
    proof {
        crate::index::lemma_origin(src_shape@, Seq::new(src_shape@.len(), |k: int| 0isize));
    }
    let mut i: usize = 0;
    let n: usize = index.len();
    while i < n
        invariant
            i <= n == index@.len() == volume(src_shape@),
            ax < shape@.len(),
            limit == volume(shape@),
            i < n ==> in_bounds(src_shape@, ints(idx@)) && ravel(src_shape@, ints(idx@)) == i,
            forall|j: int|
                0 <= j < i && pick_ok(#[trigger] index@[j], shape@[ax as int]) ==> shape@.len()
                    <= src_shape@.len() && scatter_target(
                    shape@,
                    ax as int,
                    src_shape@,
                    index@,
                    j,
                ) < volume(shape@),
        decreases n - i,
    {
        proof {
            lemma_ravel(src_shape@, ints(idx@));
        }
        match pick(index[i], shape[ax]) {
            Some(at) => {
                if shape.len() > src_shape.len() {
                    assert(pick_ok(index@[i as int], shape@[ax as int]));
                    return false;
                }
                let target: Vec<usize> = crate::indexing::target_index(
                    idx.as_slice(),
                    ax,
                    at,
                    shape.len(),
                );
                proof {
                    let whole = unravel(src_shape@, i as int).update(
                        ax as int,
                        picked(index@[i as int], shape@[ax as int]),
                    ).take(shape@.len() as int);
                    assert(ints(target@) =~= whole);
                }
                match rank_below(shape, target.as_slice(), limit) {
                    Some(_) => {},
                    None => {
                        assert(pick_ok(index@[i as int], shape@[ax as int]));
                        return false;
                    },
                }
            },
            None => {},
        }
        let _ = advance(src_shape, &mut idx);
        i = i + 1;
    }
    true
}

/// Adds the elements of `src` to a copy of `dst` at the positions that `index` names.
pub fn scatter<S: Scalars>(
    op: &'static str,
    dst: &Tensor<S>,
    axis: isize,
    index: &Tensor<S>,
    src: &Tensor<S>,
) -> (r: Result<Tensor<S>, Error>)
    ensures
        scatter_out::<S>(op@, dst@, axis as int, index@, src@, outcome(r)),
{
    let ready: bool = index.dtype() == Dtype::I64 && dst.dtype() == src.dtype()
        && dst.dtype().is_float() && crate::indexing::same_shape(index.shape(), src.shape());
    if ready && (dst.dtype() == Dtype::F64 || src.rank() == dst.rank()) {
        match (
            crate::shape::normalize_axis(axis, dst.rank(), "scatter_add"),
            crate::shape::numel(dst.shape()),
            index.to_vec_i64(),
        ) {
            (Ok(ax), Ok(_), Ok(named)) => {
                if !targets_inside(dst.shape(), ax, src.shape(), named.as_slice()) {
                    return Err(misfit_error(op));
                }
            },
            _ => {},
        }
    }
    scatter_add(dst, axis, index, src)
}

/// The cotangent reaches every element of the input.
pub open spec fn rms_back_fine<F, D>(x: TensorModel<F, D>, gy: TensorModel<F, D>) -> bool {
    &&& x.shape.len() > 0
    &&& gy.data is F32 && fits(x.shape) ==> volume(gy.shape) >= volume(x.shape)
}

/// What `rms_back` comes to.
pub open spec fn rms_back_out<S: Scalars>(
    op: Seq<char>,
    x: Model<S>,
    gy: Model<S>,
    eps: S::F,
    r: Outcome<S>,
) -> bool {
    if rms_back_fine(x, gy) {
        rms_norm_backward_out::<S>(x, gy, eps, r)
    } else {
        r is Err && misfit(r->Err_0, op)
    }
}

/// Whether one tensor holds at least as many elements as a countable shape.
pub fn holds_at_least<S: Scalars>(gy: &Tensor<S>, n: u128) -> (r: bool)
    requires
        n <= usize::MAX + 1,
    ensures
        r == (volume(gy@.shape) >= n),
{
    let mut at: u128 = 1;
    let shape: &[usize] = gy.shape();
    if has_zero(shape) {
        return n == 0;
    }
    let mut k: usize = 0;
    assert(shape@.take(0) =~= Seq::empty());
    while k < shape.len()
        invariant
            k <= shape@.len(),
            shape@ == gy@.shape,
            volume(shape@) > 0,
            at == volume(shape@.take(k as int)),
            n <= usize::MAX + 1,
            at < n || k == 0,
            at <= usize::MAX || k == 0,
            k == 0 ==> at == 1,
        decreases shape@.len() - k,
    {
        proof {
            assert(shape@.take(k + 1).drop_last() =~= shape@.take(k as int));
            let d = shape@[k as int] as int;
            assert(at * d <= u128::MAX && 0 <= at * d) by (nonlinear_arith)
                requires
                    0 <= at <= usize::MAX,
                    0 <= d <= usize::MAX,
                    usize::MAX <= 0xffff_ffff_ffff_ffff,
            ;
        }
        at = at * shape[k] as u128;
        assert(at == volume(shape@.take(k + 1)));
        if at >= n {
            proof {
                crate::index::lemma_volume_prefix(shape@, k + 1);
            }
            return true;
        }
        k = k + 1;
    }
    assert(shape@.take(k as int) =~= shape@);
    at >= n
}

/// The cotangent of RMS normalization.
pub fn rms_back<S: Scalars>(
    op: &'static str,
    x: &Tensor<S>,
    gy: &Tensor<S>,
    eps: S::F,
) -> (r: Result<
    Tensor<S>,
    Error,
>)
    ensures
        rms_back_out::<S>(op@, x@, gy@, eps, outcome(r)),
{
    if x.rank() == 0 {
        return Err(misfit_error(op));
    }
    match crate::shape::numel(x.shape()) {
        Ok(n) => {
            if gy.dtype() == Dtype::F32 && !holds_at_least(gy, n as u128) {
                return Err(misfit_error(op));
            }
        },
        Err(_) => {},
    }
    rms_norm_backward(x, gy, eps)
}

/// The cotangent reaches every state.
pub open spec fn scan_back_fine<F, D>(
    a: TensorModel<F, D>,
    h: TensorModel<F, D>,
    gh: TensorModel<F, D>,
) -> bool {
    scan_ready(a, h) && gh.data is F32 && fits(a.shape) ==> volume(gh.shape) >= volume(a.shape)
}

/// What `scan_back` comes to.
pub open spec fn scan_back_out<S: Scalars>(
    op: Seq<char>,
    a: Model<S>,
    h: Model<S>,
    gh: Model<S>,
    r: Result<(Model<S>, Model<S>), Error>,
) -> bool {
    if scan_back_fine(a, h, gh) {
        gated_scan_backward_out::<S>(a, h, gh, r)
    } else {
        r is Err && misfit(r->Err_0, op)
    }
}

/// The cotangents of gates and inputs of the recurrence.
pub fn scan_back<S: Scalars>(op: &'static str, a: &Tensor<S>, h: &Tensor<S>, gh: &Tensor<S>) -> (r:
    Result<(Tensor<S>, Tensor<S>), Error>)
    ensures
        scan_back_out::<S>(op@, a@, h@, gh@, pair_outcome(r)),
{
    let ready: bool = a.dtype() == Dtype::F32 && h.dtype() == Dtype::F32 && a.rank() == 3
        && h.rank() == 3 && crate::indexing::same_shape(a.shape(), h.shape());
    if ready && gh.dtype() == Dtype::F32 {
        match crate::shape::numel(a.shape()) {
            Ok(n) => {
                if !holds_at_least(gh, n as u128) {
                    return Err(misfit_error(op));
                }
            },
            Err(_) => {},
        }
    }
    gated_scan_backward(a, h, gh)
}

/// The table is a matrix and the cotangent reaches every row that was looked up.
pub open spec fn lookup_back_fine<F, D>(
    table: TensorModel<F, D>,
    idx: TensorModel<F, D>,
    gy: TensorModel<F, D>,
) -> bool {
    &&& table.shape.len() == 2
    &&& idx.data is I64 && gy.data is F32 && fits(table.shape) ==> volume(gy.shape) >= volume(
        idx.shape,
    ) * table.shape[1]
}

/// What `lookup_back` comes to.
pub open spec fn lookup_back_out<S: Scalars>(
    op: Seq<char>,
    table: Model<S>,
    idx: Model<S>,
    gy: Model<S>,
    r: Outcome<S>,
) -> bool {
    if lookup_back_fine(table, idx, gy) {
        embedding_backward_out::<S>(table, idx, gy, r)
    } else {
        r is Err && misfit(r->Err_0, op)
    }
}

/// The cotangent of a table under a lookup.
pub fn lookup_back<S: Scalars>(
    op: &'static str,
    table: &Tensor<S>,
    idx: &Tensor<S>,
    gy: &Tensor<S>,
) -> (r: Result<Tensor<S>, Error>)
    ensures
        lookup_back_out::<S>(op@, table@, idx@, gy@, outcome(r)),
{
    if table.rank() != 2 {
        return Err(misfit_error(op));
    }
    let inner: usize = table.shape()[1];
    match (idx.to_vec_i64(), gy.to_vec_f32(), crate::shape::numel(table.shape())) {
        (Ok(iv), Ok(gv), Ok(_)) => {
            let n: usize = iv.len();
            assert(n * inner <= u128::MAX) by (nonlinear_arith)
                requires
                    n <= usize::MAX,
                    inner <= usize::MAX,
                    usize::MAX <= 0xffff_ffff_ffff_ffff,
            ;
            if (gv.len() as u128) < n as u128 * inner as u128 {
                return Err(misfit_error(op));
            }
        },
        _ => {},
    }
    embedding_backward(table, idx, gy)
}

/// What `join` comes to.
pub open spec fn join_out<S: Scalars>(
    op: Seq<char>,
    ms: Seq<Model<S>>,
    axis: int,
    r: Outcome<S>,
) -> bool {
    if cat_sized(ms, axis) {
        cat_out::<S>(ms, axis, r)
    } else {
        r is Err && misfit(r->Err_0, op)
    }
}

/// Concatenates two tensors.
pub fn join<S: Scalars>(op: &'static str, a: &Tensor<S>, b: &Tensor<S>, axis: isize) -> (r: Result<
    Tensor<S>,
    Error,
>)
    ensures
        join_out::<S>(op@, seq![a@, b@], axis as int, outcome(r)),
{
    let mut refs: Vec<&Tensor<S>> = Vec::new();
    refs.push(a);
    refs.push(b);
    assert(models(refs@) =~= seq![a@, b@]);
    let rank: usize = a.rank();
    if b.rank() == rank {
        match crate::shape::normalize_axis(axis, rank, "cat") {
            Ok(ax) => {
                let x: usize = a.shape()[ax];
                let y: usize = b.shape()[ax];
                proof {
                    let dims = sizes(seq![a@, b@], ax as int);
                    assert(dims =~= seq![x, y]);
                    assert(dims.drop_last() =~= seq![x]);
                    assert(seq![x].drop_last() =~= Seq::<usize>::empty());
                    assert(total(Seq::<usize>::empty()) == 0);
                    assert(total(seq![x]) == x);
                    assert(total(dims) == x + y);
                }
                if x as u128 + y as u128 > usize::MAX as u128 {
                    let joins: bool = crate::joining::can_join(refs.as_slice(), ax);
                    if joins {
                        return Err(misfit_error(op));
                    }
                }
            },
            Err(_) => {},
        }
    }
    proof {
        if cat_ready(models(refs@), axis as int) {
            assert(crate::joining::joins(models(refs@), axis_at(axis as int, rank as int), 1));
        }
    }
    cat(refs.as_slice(), axis)
}

} // verus!
