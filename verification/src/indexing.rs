//! Reading and adding at positions that an integer tensor names.
use vstd::prelude::*;
use crate::dtype::Dtype;
use crate::error::{Error, ErrorKind};
use crate::index::{
    dot, fits, in_bounds, ints, lemma_ravel, lemma_unravel, lemma_volume_zero, packed, ravel,
    unravel, volume,
};
use crate::scalar::{adding, folds, lemma_folds_start, lemma_folds_step, Arith, Scalars};
use crate::shape::{
    advance, axis_at, axis_error, axis_ok, for_each_index, has_zero, normalize_axis, numel,
    zero_index,
};
use crate::storage::Data;
use crate::tensor::{lemma_reaches, numel_error, Tensor, TensorModel, Model, Outcome, outcome};

verus! {

/// The position on an axis of size `d` that `g` names; a negative one counts from the end.
pub open spec fn picked(g: i64, d: usize) -> int {
    if g < 0 {
        g + (d as i64)
    } else {
        g as int
    }
}

/// `g` names a position on an axis of size `d`.
pub open spec fn pick_ok(g: i64, d: usize) -> bool {
    0 <= picked(g, d) < (d as i64)
}

/// Every entry names a position.
pub open spec fn picks_ok(index: Seq<i64>, d: usize) -> bool {
    forall|i: int| 0 <= i < index.len() ==> pick_ok(#[trigger] index[i], d)
}

/// A named position lies on the axis.
pub proof fn lemma_picked(g: i64, d: usize)
    requires
        pick_ok(g, d),
    ensures
        0 <= picked(g, d) < d,
{
    let w = d as u64;
    assert(w > 0x7fff_ffff_ffff_ffffu64 ==> (w as i64) < 0) by (bit_vector);
    assert(d as i64 == w as i64) by (bit_vector)
        requires
            w == d as u64,
    ;
}

/// The position that `g` names, where it names one.
pub fn pick(g: i64, d: usize) -> (r: Option<usize>)
    ensures
        r matches Some(p) ==> pick_ok(g, d) && p == picked(g, d),
        r is None ==> !pick_ok(g, d),
{
    let dim: i64 = d as i64;
    let mut at: i128 = g as i128;
    if g < 0 {
        at = at + dim as i128;
    }
    if at < 0 || at >= dim as i128 {
        None
    } else {
        proof {
            lemma_picked(g, d);
        }
        Some(at as usize)
    }
}

/// Whether every entry names a position on an axis of size `d`.
fn all_picked(index: &[i64], d: usize) -> (r: bool)
    ensures
        r == picks_ok(index@, d),
{
    let mut i: usize = 0;
    while i < index.len()
        invariant
            i <= index@.len(),
            forall|j: int| 0 <= j < i ==> pick_ok(#[trigger] index@[j], d),
        decreases index@.len() - i,
    {
        match pick(index[i], d) {
            Some(_) => {},
            None => {
                assert(!pick_ok(index@[i as int], d));
                return false;
            },
        }
        i = i + 1;
    }
    true
}

/// An index of shape `index` fits a tensor of shape `shape`: axis by axis they agree, but for
/// axes of size one and the axis `ax` itself.
pub open spec fn gather_fits(shape: Seq<usize>, ax: int, index: Seq<usize>) -> bool {
    forall|k: int|
        0 <= k < shape.len() && k != ax ==> {
            ||| #[trigger] index[k] == shape[k]
            ||| index[k] == 1
            ||| shape[k] == 1
        }
}

/// The position that a gather reads for output position `idx`, whose index entry is `g`.
pub open spec fn gather_source(shape: Seq<usize>, ax: int, idx: Seq<int>, g: i64) -> Seq<int> {
    Seq::new(
        shape.len(),
        |k: int|
            if shape[k] == 1 {
                0
            } else if k == ax {
                picked(g, shape[ax])
            } else {
                idx[k]
            },
    )
}

/// `out` holds, for each entry of the index, the element of `xs` that it names along `ax`.
pub open spec fn gathers<T>(
    shape: Seq<usize>,
    ax: int,
    xs: Seq<T>,
    index_shape: Seq<usize>,
    index: Seq<i64>,
    out: Seq<T>,
) -> bool {
    &&& out.len() == volume(index_shape)
    &&& forall|i: int|
        0 <= i < out.len() ==> #[trigger] out[i] == xs[ravel(
            shape,
            gather_source(shape, ax, unravel(index_shape, i), index[i]),
        )]
}

/// A gather reads inside the tensor.
proof fn lemma_gather_source(
    shape: Seq<usize>,
    ax: int,
    index_shape: Seq<usize>,
    idx: Seq<int>,
    g: i64,
)
    requires
        0 <= ax < shape.len() == index_shape.len(),
        gather_fits(shape, ax, index_shape),
        forall|k: int| 0 <= k < shape.len() && k != ax ==> #[trigger] shape[k] > 0,
        in_bounds(index_shape, idx),
        pick_ok(g, shape[ax]),
    ensures
        in_bounds(shape, gather_source(shape, ax, idx, g)),
{
    lemma_picked(g, shape[ax]);
    let src = gather_source(shape, ax, idx, g);
    assert forall|k: int| 0 <= k < shape.len() implies 0 <= #[trigger] src[k] < shape[k] by {
        assert(0 <= idx[k] < index_shape[k]);
        if k != ax && shape[k] != 1 {
            assert(index_shape[k] == shape[k] || index_shape[k] == 1);
        }
    }
}

/// The index and the reach that a gather asks for.
pub open spec fn gather_ready<F, D>(
    x: TensorModel<F, D>,
    axis: int,
    index: TensorModel<F, D>,
) -> bool {
    let rank = x.shape.len() as int;
    &&& index.dtype() == Dtype::I64
    &&& axis_ok(axis, rank)
    &&& index.shape.len() == rank
    &&& gather_fits(x.shape, axis_at(axis, rank), index.shape)
}

/// A gather is refused: a wrong index type, a bad axis, an index of another rank or of a shape
/// that does not fit, integer data, too many outputs, or an entry that names no position.
pub open spec fn gather_error<F, D>(
    e: Error,
    x: TensorModel<F, D>,
    axis: int,
    index: TensorModel<F, D>,
) -> bool {
    let rank = x.shape.len() as int;
    if index.dtype() != Dtype::I64 {
        e.says(ErrorKind::Dtype, "gather"@, "index must be i64"@)
    } else if !axis_ok(axis, rank) {
        axis_error(e, axis, rank, "gather"@)
    } else if index.shape.len() != rank {
        e.says(ErrorKind::Shape, "gather"@, "index rank must equal input rank"@)
    } else if !gather_fits(x.shape, axis_at(axis, rank), index.shape) {
        e.says(ErrorKind::Shape, "gather"@, "index not broadcast-compatible"@)
    } else if !x.dtype().floating() {
        e.says(ErrorKind::Dtype, "gather"@, "v1 gather float data"@)
    } else if !fits(index.shape) {
        numel_error(e)
    } else {
        &&& !picks_ok(index.i64s(), x.shape[axis_at(axis, rank)])
        &&& e.says(ErrorKind::Index, "gather"@, "index out of bounds"@)
    }
}

/// What a gather returns.
pub open spec fn gather_value<S: Scalars>(
    x: TensorModel<S::F, S::D>,
    ax: int,
    index: TensorModel<S::F, S::D>,
    r: TensorModel<S::F, S::D>,
) -> bool {
    &&& fits(index.shape) && picks_ok(index.i64s(), x.shape[ax])
    &&& r.plain(index.shape) && r.valid() && r.elems() == r.data
    &&& match (x.elems(), r.data) {
        (Data::F32(v), Data::F32(w)) => gathers(x.shape, ax, v, index.shape, index.i64s(), w),
        (Data::F64(v), Data::F64(w)) => gathers(x.shape, ax, v, index.shape, index.i64s(), w),
        _ => false,
    }
}

/// Whether an index of shape `index` fits along all axes but `ax`.
fn shapes_fit(shape: &[usize], ax: usize, index: &[usize]) -> (r: bool)
    requires
        shape@.len() == index@.len(),
    ensures
        r == gather_fits(shape@, ax as int, index@),
{
    let mut k: usize = 0;
    while k < shape.len()
        invariant
            k <= shape@.len() == index@.len(),
            forall|j: int|
                0 <= j < k && j != ax ==> {
                    ||| #[trigger] index@[j] == shape@[j]
                    ||| index@[j] == 1
                    ||| shape@[j] == 1
                },
        decreases shape@.len() - k,
    {
        if k != ax && index[k] != shape[k] && index[k] != 1 && shape[k] != 1 {
            return false;
        }
        k = k + 1;
    }
    true
}

/// The position that a gather reads.
fn source_index(shape: &[usize], ax: usize, idx: &[usize], at: usize) -> (r: Vec<usize>)
    requires
        ax < shape@.len() == idx@.len(),
    ensures
        r@.len() == shape@.len(),
        forall|k: int|
            0 <= k < r@.len() ==> #[trigger] r@[k] == if shape@[k] == 1 {
                0
            } else if k == ax {
                at
            } else {
                idx@[k]
            },
{
    let mut src: Vec<usize> = Vec::new();
    let mut k: usize = 0;
    while k < shape.len()
        invariant
            k <= shape@.len() == idx@.len(),
            src@.len() == k,
            forall|j: int|
                0 <= j < k ==> #[trigger] src@[j] == if shape@[j] == 1 {
                    0
                } else if j == ax {
                    at
                } else {
                    idx@[j]
                },
        decreases shape@.len() - k,
    {
        if shape[k] == 1 {
            src.push(0);
        } else if k == ax {
            src.push(at);
        } else {
            src.push(idx[k]);
        }
        k = k + 1;
    }
    src
}

/// Row-major rank of a position.
pub fn rank_of(shape: &[usize], idx: &[usize]) -> (r: usize)
    requires
        shape@.len() == idx@.len(),
        volume(shape@) > 0,
        ravel(shape@, ints(idx@)) <= usize::MAX,
    ensures
        r == ravel(shape@, ints(idx@)),
{
    let mut r: usize = 0;
    let mut k: usize = 0;
    while k < shape.len()
        invariant
            k <= shape@.len() == idx@.len(),
            volume(shape@) > 0,
            ravel(shape@, ints(idx@)) <= usize::MAX,
            r == ravel(shape@.take(k as int), ints(idx@).take(k as int)),
        decreases shape@.len() - k,
    {
        proof {
            let a = shape@.take(k + 1);
            let b = ints(idx@).take(k + 1);
            assert(a.drop_last() =~= shape@.take(k as int));
            assert(b.drop_last() =~= ints(idx@).take(k as int));
            assert(ravel(a, b) == r * shape@[k as int] + idx@[k as int]);
            lemma_ravel_prefix(shape@, idx@, k + 1);
            assert(0 <= r * shape@[k as int]) by (nonlinear_arith)
                requires
                    r >= 0,
                    shape@[k as int] >= 0,
            ;
        }
        r = r * shape[k] + idx[k];
        k = k + 1;
    }
    assert(shape@.take(k as int) =~= shape@);
    assert(ints(idx@).take(k as int) =~= ints(idx@));
    r
}

/// A prefix of a position ranks no higher than the position.
pub proof fn lemma_ravel_prefix(shape: Seq<usize>, idx: Seq<usize>, k: int)
    requires
        shape.len() == idx.len(),
        volume(shape) > 0,
        0 <= k <= shape.len(),
    ensures
        0 <= ravel(shape.take(k), ints(idx).take(k)) <= ravel(shape, ints(idx)),
    decreases shape.len() - k,
{
    lemma_ravel_nonneg(shape.take(k), ints(idx).take(k));
    if k == shape.len() {
        assert(shape.take(k) =~= shape);
        assert(ints(idx).take(k) =~= ints(idx));
    } else {
        lemma_ravel_prefix(shape, idx, k + 1);
        let a = shape.take(k + 1);
        let b = ints(idx).take(k + 1);
        assert(a.drop_last() =~= shape.take(k));
        assert(b.drop_last() =~= ints(idx).take(k));
        let p = ravel(shape.take(k), ints(idx).take(k));
        lemma_volume_zero(shape);
        assert(shape[k] >= 1);
        assert(p * shape[k] >= p) by (nonlinear_arith)
            requires
                p >= 0,
                shape[k] >= 1,
        ;
    }
}

/// Ranks of positions without negative coordinates are not negative.
pub proof fn lemma_ravel_nonneg(shape: Seq<usize>, idx: Seq<int>)
    requires
        shape.len() == idx.len(),
        forall|k: int| 0 <= k < idx.len() ==> #[trigger] idx[k] >= 0,
    ensures
        ravel(shape, idx) >= 0,
    decreases shape.len(),
{
    if shape.len() > 0 {
        lemma_ravel_nonneg(shape.drop_last(), idx.drop_last());
        let p = ravel(shape.drop_last(), idx.drop_last());
        assert(p * shape.last() >= 0) by (nonlinear_arith)
            requires
                p >= 0,
                shape.last() >= 0,
        ;
    }
}

/// Slot of a position in a strided buffer.
fn slot_of(offset: usize, strides: &[isize], idx: &[usize]) -> (r: usize)
    requires
        strides@.len() == idx@.len(),
        forall|k: int|
            0 <= k <= idx@.len() ==> i128::MIN <= offset + #[trigger] dot(
                ints(idx@).take(k),
                strides@.take(k),
            ) <= i128::MAX,
        0 <= offset + dot(ints(idx@), strides@) <= usize::MAX,
    ensures
        r == offset + dot(ints(idx@), strides@),
{
    let r: usize = crate::shape::offset_of(idx, offset, strides);
    assert(strides@.take(idx@.len() as int) =~= strides@);
    r
}

/// One element of a gather.
fn gather_cell<T: Copy>(
    data: &[T],
    offset: usize,
    shape: &[usize],
    strides: &[isize],
    ax: usize,
    index: &[i64],
    index_shape: &[usize],
    idx: &[usize],
) -> (r: T)
    requires
        strides@.len() == shape@.len(),
        forall|q: Seq<int>| #[trigger]
            in_bounds(shape@, q) ==> 0 <= offset + dot(q, strides@) < data@.len(),
        ax < shape@.len() == index_shape@.len(),
        gather_fits(shape@, ax as int, index_shape@),
        forall|k: int| 0 <= k < shape@.len() && k != ax ==> #[trigger] shape@[k] > 0,
        index@.len() == volume(index_shape@),
        picks_ok(index@, shape@[ax as int]),
        in_bounds(index_shape@, ints(idx@)),
    ensures
        r == packed(data@, offset as int, shape@, strides@)[ravel(
            shape@,
            gather_source(
                shape@,
                ax as int,
                ints(idx@),
                index@[ravel(index_shape@, ints(idx@))],
            ),
        )],
{
    proof {
        lemma_ravel(index_shape@, ints(idx@));
    }
    assert(index.len() == index@.len());
    let i: usize = rank_of(index_shape, idx);
    let g: i64 = index[i];
    match pick(g, shape[ax]) {
        Some(at) => {
            let src: Vec<usize> = source_index(shape, ax, idx, at);
            assert(data.len() == data@.len());
            proof {
                let s = gather_source(shape@, ax as int, ints(idx@), g);
                assert(ints(src@) =~= s);
                lemma_gather_source(shape@, ax as int, index_shape@, ints(idx@), g);
                let m: TensorModel<T, T> = TensorModel {
                    data: Data::F32(data@),
                    offset: offset as int,
                    shape: shape@,
                    strides: strides@,
                    device: crate::device::Device::Cpu,
                    in_graph: false,
                    leaf: None,
                    grad_fn: None,
                    placement: "cpu"@,
                };
                assert forall|q: Seq<int>| #[trigger] in_bounds(m.shape, q) implies 0 <= m.slot(
                    q,
                ) < m.data.len() by {
                    assert(in_bounds(shape@, q));
                }
                lemma_reaches(m, s);
                lemma_ravel(shape@, s);
            }
            let o: usize = slot_of(offset, strides, src.as_slice());
            data[o]
        },
        None => {
            assert(false);
            data[0]
        },
    }
}

/// The elements of a gather.
fn gather_values<T: Copy>(
    data: &[T],
    offset: usize,
    shape: &[usize],
    strides: &[isize],
    ax: usize,
    index: &[i64],
    index_shape: &[usize],
) -> (out: Vec<T>)
    requires
        strides@.len() == shape@.len(),
        forall|q: Seq<int>| #[trigger]
            in_bounds(shape@, q) ==> 0 <= offset + dot(q, strides@) < data@.len(),
        ax < shape@.len() == index_shape@.len(),
        gather_fits(shape@, ax as int, index_shape@),
        volume(index_shape@) > 0 ==> forall|k: int|
            0 <= k < shape@.len() && k != ax ==> #[trigger] shape@[k] > 0,
        index@.len() == volume(index_shape@),
        picks_ok(index@, shape@[ax as int]),
    ensures
        gathers(
            shape@,
            ax as int,
            packed(data@, offset as int, shape@, strides@),
            index_shape@,
            index@,
            out@,
        ),
{
    if has_zero(index_shape) {
        return Vec::new();
    }
    let cell = |idx: &[usize]| -> (r: T)
        requires
            in_bounds(index_shape@, ints(idx@)),
        ensures
            r == packed(data@, offset as int, shape@, strides@)[ravel(
                shape@,
                gather_source(
                    shape@,
                    ax as int,
                    ints(idx@),
                    index@[ravel(index_shape@, ints(idx@))],
                ),
            )]
        { gather_cell(data, offset, shape, strides, ax, index, index_shape, idx) };
    let out: Vec<T> = for_each_index(index_shape, cell);
    proof {
        assert forall|i: int| 0 <= i < out@.len() implies #[trigger] out@[i] == packed(
            data@,
            offset as int,
            shape@,
            strides@,
        )[ravel(
            shape@,
            gather_source(shape@, ax as int, unravel(index_shape@, i), index@[i]),
        )] by {
            let idx = unravel(index_shape@, i);
            lemma_unravel(index_shape@, i);
            assert(crate::shape::called_at(cell, idx, out@[i]));
        }
    }
    out
}

/// Where entries are gathered, the other axes have elements to gather.
pub open spec fn gather_within<F, D>(
    x: TensorModel<F, D>,
    axis: int,
    index: TensorModel<F, D>,
) -> bool {
    gather_ready(x, axis, index) && volume(index.shape) > 0 ==> forall|k: int|
        0 <= k < x.shape.len() && k != axis_at(axis, x.shape.len() as int)
            ==> #[trigger] x.shape[k] > 0
}

/// What `gather` comes to.
pub open spec fn gather_out<S: Scalars>(
    x: Model<S>,
    axis: int,
    index: Model<S>,
    r: Outcome<S>,
) -> bool {
    match r {
        Ok(t) => gather_ready(x, axis, index) && gather_value::<S>(
            x,
            axis_at(axis, x.shape.len() as int),
            index,
            t,
        ),
        Err(e) => gather_error(e, x, axis, index),
    }
}

/// The elements of `x` along `axis` that the integer tensor `index` names. The result has the
/// shape of the index. A negative entry counts from the end; one that names no position is an
/// error.
pub fn gather<S: Scalars>(x: &Tensor<S>, axis: isize, index: &Tensor<S>) -> (r: Result<
    Tensor<S>,
    Error,
>)
    requires
        gather_within(x@, axis as int, index@),
    ensures
        gather_out::<S>(x@, axis as int, index@, outcome(r)),
{
    match index.dtype() {
        Dtype::I64 => {},
        _ => {
            return Err(Error::dtype("gather", "index must be i64".to_owned()));
        },
    }
    let ax: usize = match normalize_axis(axis, x.rank(), "gather") {
        Ok(a) => a,
        Err(e) => {
            return Err(e);
        },
    };
    if index.rank() != x.rank() {
        return Err(Error::shape("gather", "index rank must equal input rank".to_owned()));
    }
    if !shapes_fit(x.shape(), ax, index.shape()) {
        return Err(Error::shape("gather", "index not broadcast-compatible".to_owned()));
    }
    if !x.dtype().is_float() {
        return Err(Error::dtype("gather", "v1 gather float data".to_owned()));
    }
    match numel(index.shape()) {
        Ok(_) => {},
        Err(e) => {
            return Err(e);
        },
    }
    let named: Vec<i64> = match index.to_vec_i64() {
        Ok(v) => v,
        Err(e) => {
            return Err(e);
        },
    };
    if !all_picked(named.as_slice(), x.shape()[ax]) {
        return Err(Error::index("gather", "index out of bounds".to_owned()));
    }
    let ghost m = x@;
    proof {
        assert forall|q: Seq<int>| #[trigger] in_bounds(m.shape, q) implies 0 <= m.offset + dot(
            q,
            m.strides,
        ) < m.data.len() by {
            assert(0 <= m.slot(q) < m.data.len());
        }
    }
    match x.storage_f32() {
        Ok(data) => {
            let out: Vec<S::F> = gather_values(
                data,
                x.storage_offset(),
                x.shape(),
                x.strides(),
                ax,
                named.as_slice(),
                index.shape(),
            );
            return Tensor::from_vec_f32(out, index.shape());
        },
        Err(_) => {},
    }
    match x.storage_f64() {
        Ok(data) => {
            let out: Vec<S::D> = gather_values(
                data,
                x.storage_offset(),
                x.shape(),
                x.strides(),
                ax,
                named.as_slice(),
                index.shape(),
            );
            Tensor::from_vec_f64(out, index.shape())
        },
        Err(e) => Err(e),
    }
}

/// The element that entry `i` of a scatter adds to.
pub open spec fn scatter_target(
    shape: Seq<usize>,
    ax: int,
    src_shape: Seq<usize>,
    index: Seq<i64>,
    i: int,
) -> int {
    ravel(
        shape,
        unravel(src_shape, i).update(ax, picked(index[i], shape[ax])).take(shape.len() as int),
    )
}

/// The entries that a scatter adds to element `o`.
pub open spec fn scatter_hits(
    shape: Seq<usize>,
    ax: int,
    src_shape: Seq<usize>,
    index: Seq<i64>,
    o: int,
) -> spec_fn(int) -> bool {
    |i: int|
        pick_ok(index[i], shape[ax]) && scatter_target(shape, ax, src_shape, index, i) == o
}

/// `out` is `dst` with each source element added to the element that its index entry names, in
/// order; entries that name the same element sum.
pub open spec fn scatters<T, A: Arith<T>>(
    shape: Seq<usize>,
    ax: int,
    dst: Seq<T>,
    src_shape: Seq<usize>,
    index: Seq<i64>,
    src: Seq<T>,
    out: Seq<T>,
) -> bool {
    &&& out.len() == dst.len()
    &&& forall|o: int|
        0 <= o < out.len() ==> folds(
            adding::<T, A>(),
            src,
            scatter_hits(shape, ax, src_shape, index, o),
            src.len() as int,
            dst[o],
            #[trigger] out[o],
        )
}

/// Every entry that names a position adds inside the target.
pub open spec fn scatter_inside(
    shape: Seq<usize>,
    ax: int,
    src_shape: Seq<usize>,
    index: Seq<i64>,
) -> bool {
    forall|i: int|
        0 <= i < index.len() && pick_ok(#[trigger] index[i], shape[ax]) ==> shape.len()
            <= src_shape.len() && scatter_target(shape, ax, src_shape, index, i) < volume(shape)
}

/// The coordinates that an entry adds at.
pub fn target_index(idx: &[usize], ax: usize, at: usize, rank: usize) -> (r: Vec<usize>)
    requires
        ax < rank <= idx@.len(),
    ensures
        r@ == idx@.update(ax as int, at).take(rank as int),
{
    let mut r: Vec<usize> = Vec::new();
    let mut k: usize = 0;
    while k < rank
        invariant
            k <= rank <= idx@.len(),
            ax < rank,
            r@ =~= idx@.update(ax as int, at).take(k as int),
        decreases rank - k,
    {
        if k == ax {
            r.push(at);
        } else {
            r.push(idx[k]);
        }
        k = k + 1;
    }
    r
}

/// Adds each source element to the element that its index entry names.
fn scatter_values<T: Copy, A: Arith<T>>(
    dst: Vec<T>,
    shape: &[usize],
    ax: usize,
    src_shape: &[usize],
    index: &[i64],
    src: &[T],
) -> (out: Vec<T>)
    requires
        ax < shape@.len(),
        dst@.len() == volume(shape@),
        index@.len() == volume(src_shape@),
        src@.len() == volume(src_shape@),
        scatter_inside(shape@, ax as int, src_shape@, index@),
    ensures
        scatters::<T, A>(shape@, ax as int, dst@, src_shape@, index@, src@, out@),
{
    let mut buf: Vec<T> = dst;
    let ghost step = adding::<T, A>();
    proof {
        assert forall|o: int| 0 <= o < buf@.len() implies folds(
            step,
            src@,
            scatter_hits(shape@, ax as int, src_shape@, index@, o),
            0,
            dst@[o],
            #[trigger] buf@[o],
        ) by {
            lemma_folds_start(
                step,
                src@,
                scatter_hits(shape@, ax as int, src_shape@, index@, o),
                dst@[o],
            );
        }
    }
    if has_zero(src_shape) {
        return buf;
    }
    let mut idx: Vec<usize> = zero_index(src_shape.len());
    proof {
        crate::index::lemma_origin(src_shape@, Seq::new(src_shape@.len(), |k: int| 0isize));
    }
    let mut i: usize = 0;
    let n: usize = src.len();
    while i < n
        invariant
            i <= n == src@.len(),
            step == adding::<T, A>(),
            ax < shape@.len(),
            buf@.len() == dst@.len() == volume(shape@),
            index@.len() == volume(src_shape@),
            src@.len() == volume(src_shape@),
            scatter_inside(shape@, ax as int, src_shape@, index@),
            i < n ==> in_bounds(src_shape@, ints(idx@)) && ravel(src_shape@, ints(idx@)) == i,
            forall|o: int|
                0 <= o < buf@.len() ==> folds(
                    step,
                    src@,
                    scatter_hits(shape@, ax as int, src_shape@, index@, o),
                    i as int,
                    dst@[o],
                    #[trigger] buf@[o],
                ),
        decreases n - i,
    {
        proof {
            lemma_ravel(src_shape@, ints(idx@));
        }
        let ghost before = buf@;
        match pick(index[i], shape[ax]) {
            Some(at) => {
                let target: Vec<usize> = target_index(idx.as_slice(), ax, at, shape.len());
                assert(buf.len() == buf@.len());
                proof {
                    let whole = unravel(src_shape@, i as int).update(
                        ax as int,
                        picked(index@[i as int], shape@[ax as int]),
                    ).take(shape@.len() as int);
                    assert(ints(target@) =~= whole);
                    lemma_ravel_nonneg(shape@, whole);
                }
                let o: usize = rank_of(shape, target.as_slice());
                let total: T = A::plus(buf[o], src[i]);
                buf.set(o, total);
            },
            None => {},
        }
        proof {
            assert forall|o: int| 0 <= o < buf@.len() implies folds(
                step,
                src@,
                scatter_hits(shape@, ax as int, src_shape@, index@, o),
                i + 1,
                dst@[o],
                #[trigger] buf@[o],
            ) by {
                lemma_folds_step(
                    step,
                    src@,
                    scatter_hits(shape@, ax as int, src_shape@, index@, o),
                    i as int,
                    dst@[o],
                    before[o],
                    buf@[o],
                );
            }
        }
        let _ = advance(src_shape, &mut idx);
        i = i + 1;
    }
    buf
}

/// Whether two shapes are the same.
pub fn same_shape(a: &[usize], b: &[usize]) -> (r: bool)
    ensures
        r == (a@ == b@),
{
    if a.len() != b.len() {
        return false;
    }
    let mut k: usize = 0;
    while k < a.len()
        invariant
            k <= a@.len() == b@.len(),
            a@.take(k as int) =~= b@.take(k as int),
        decreases a@.len() - k,
    {
        if a[k] != b[k] {
            assert(a@[k as int] != b@[k as int]);
            return false;
        }
        assert(a@.take(k + 1) =~= a@.take(k as int).push(a@[k as int]));
        assert(b@.take(k + 1) =~= b@.take(k as int).push(b@[k as int]));
        k = k + 1;
    }
    assert(a@.take(k as int) =~= a@);
    assert(b@.take(k as int) =~= b@);
    true
}

/// Types, axis and shapes are those that a scatter asks for.
pub open spec fn scatter_ready<F, D>(
    dst: TensorModel<F, D>,
    axis: int,
    index: TensorModel<F, D>,
    src: TensorModel<F, D>,
) -> bool {
    &&& index.dtype() == Dtype::I64
    &&& dst.dtype() == src.dtype() && dst.dtype().floating()
    &&& axis_ok(axis, dst.shape.len() as int)
    &&& index.shape == src.shape
    &&& fits(dst.shape)
}

/// A scatter is refused.
pub open spec fn scatter_error<F, D>(
    e: Error,
    dst: TensorModel<F, D>,
    axis: int,
    index: TensorModel<F, D>,
    src: TensorModel<F, D>,
) -> bool {
    let rank = dst.shape.len() as int;
    if index.dtype() != Dtype::I64 {
        e.says(ErrorKind::Dtype, "scatter_add"@, "index must be i64"@)
    } else if dst.dtype() != src.dtype() {
        e.says(ErrorKind::Dtype, "scatter_add"@, "dst/src dtype"@)
    } else if !axis_ok(axis, rank) {
        axis_error(e, axis, rank, "scatter_add"@)
    } else if index.shape != src.shape {
        e.says(ErrorKind::Shape, "scatter_add"@, "index and src shapes must match"@)
    } else if !fits(dst.shape) {
        numel_error(e)
    } else if !dst.dtype().floating() {
        e.says(ErrorKind::Dtype, "scatter_add"@, "float dst"@)
    } else {
        &&& dst.dtype() == Dtype::F32
        &&& !picks_ok(index.i64s(), dst.shape[axis_at(axis, rank)])
        &&& e.says(ErrorKind::Index, "scatter_add"@, "index out of bounds"@)
    }
}

/// What a scatter returns. Entries that name no position are errors in 32-bit data and passed
/// over in 64-bit data; 32-bit data of another rank than the source is left as it is.
pub open spec fn scatter_value<S: Scalars>(
    dst: TensorModel<S::F, S::D>,
    ax: int,
    index: TensorModel<S::F, S::D>,
    src: TensorModel<S::F, S::D>,
    r: TensorModel<S::F, S::D>,
) -> bool {
    &&& r.plain(dst.shape) && r.valid() && r.elems() == r.data
    &&& match (dst.elems(), src.elems(), r.data) {
        (Data::F32(d), Data::F32(v), Data::F32(w)) => picks_ok(index.i64s(), dst.shape[ax]) && if
            src.shape.len() == dst.shape.len() {
            scatters::<S::F, S>(dst.shape, ax, d, src.shape, index.i64s(), v, w)
        } else {
            w == d
        },
        (Data::F64(d), Data::F64(v), Data::F64(w)) => scatters::<S::D, S>(
            dst.shape,
            ax,
            d,
            src.shape,
            index.i64s(),
            v,
            w,
        ),
        _ => false,
    }
}

/// What `scatter_add` comes to.
pub open spec fn scatter_add_out<S: Scalars>(
    dst: Model<S>,
    axis: int,
    index: Model<S>,
    src: Model<S>,
    r: Outcome<S>,
) -> bool {
    match r {
        Ok(t) => scatter_ready(dst, axis, index, src) && scatter_value::<S>(
            dst,
            axis_at(axis, dst.shape.len() as int),
            index,
            src,
            t,
        ),
        Err(e) => scatter_error(e, dst, axis, index, src),
    }
}

/// Adds the elements of `src` to a copy of `dst`, each at the position along `axis` that `index`
/// names. Duplicate entries sum.
pub fn scatter_add<S: Scalars>(
    dst: &Tensor<S>,
    axis: isize,
    index: &Tensor<S>,
    src: &Tensor<S>,
) -> (r: Result<Tensor<S>, Error>)
    requires
        scatter_ready(dst@, axis as int, index@, src@) && (dst@.dtype() == Dtype::F64
            || src@.shape.len() == dst@.shape.len()) ==> scatter_inside(
            dst@.shape,
            axis_at(axis as int, dst@.shape.len() as int),
            src@.shape,
            index@.i64s(),
        ),
    ensures
        scatter_add_out::<S>(dst@, axis as int, index@, src@, outcome(r)),
{
    let named: Vec<i64> = match index.to_vec_i64() {
        Ok(v) => v,
        Err(_) => {
            return Err(Error::dtype("scatter_add", "index must be i64".to_owned()));
        },
    };
    if dst.dtype() != src.dtype() {
        return Err(Error::dtype("scatter_add", "dst/src dtype".to_owned()));
    }
    let ax: usize = match normalize_axis(axis, dst.rank(), "scatter_add") {
        Ok(a) => a,
        Err(e) => {
            return Err(e);
        },
    };
    if !same_shape(index.shape(), src.shape()) {
        return Err(Error::shape("scatter_add", "index and src shapes must match".to_owned()));
    }
    let out: Tensor<S> = match dst.copy() {
        Ok(t) => t,
        Err(e) => {
            return Err(e);
        },
    };
    if !dst.dtype().is_float() {
        return Err(Error::dtype("scatter_add", "float dst".to_owned()));
    }
    match (out.to_vec_f32(), src.to_vec_f32()) {
        (Ok(buf), Ok(values)) => {
            if !all_picked(named.as_slice(), dst.shape()[ax]) {
                return Err(Error::index("scatter_add", "index out of bounds".to_owned()));
            }
            if src.rank() != dst.rank() {
                return Ok(out);
            }
            let sums: Vec<S::F> = scatter_values::<S::F, S>(
                buf,
                dst.shape(),
                ax,
                src.shape(),
                named.as_slice(),
                values.as_slice(),
            );
            return Tensor::from_vec_f32(sums, dst.shape());
        },
        _ => {},
    }
    match (out.to_vec_f64(), src.to_vec_f64()) {
        (Ok(buf), Ok(values)) => {
            let sums: Vec<S::D> = scatter_values::<S::D, S>(
                buf,
                dst.shape(),
                ax,
                src.shape(),
                named.as_slice(),
                values.as_slice(),
            );
            Tensor::from_vec_f64(sums, dst.shape())
        },
        (_, Err(e)) => Err(e),
        (Err(e), _) => Err(e),
    }
}

/// `out` holds from each row of `xs` the element that the row's index entry names.
pub open spec fn takes<T>(xs: Seq<T>, columns: usize, index: Seq<i64>, out: Seq<T>) -> bool {
    &&& out.len() == index.len()
    &&& forall|i: int|
        0 <= i < out.len() ==> #[trigger] out[i] == xs[i * columns + picked(index[i], columns)]
}

/// Ranks, types and shapes are those that a take asks for.
pub open spec fn take_ready<F, D>(
    x: TensorModel<F, D>,
    axis: int,
    index: TensorModel<F, D>,
) -> bool {
    &&& index.shape.len() == 1 && index.dtype() == Dtype::I64
    &&& x.shape.len() == 2 && axis_ok(axis, 2) && axis_at(axis, 2) == 1
    &&& index.shape[0] == x.shape[0]
}

/// A take is refused.
pub open spec fn take_error<F, D>(
    e: Error,
    x: TensorModel<F, D>,
    axis: int,
    index: TensorModel<F, D>,
) -> bool {
    let rank = x.shape.len() as int;
    if index.shape.len() != 1 {
        e.says(ErrorKind::Shape, "take"@, "index must be rank 1"@)
    } else if index.dtype() != Dtype::I64 {
        e.says(ErrorKind::Dtype, "take"@, "i64 index"@)
    } else if !axis_ok(axis, rank) {
        axis_error(e, axis, rank, "take"@)
    } else if rank != 2 || axis_at(axis, rank) != 1 {
        e.says(ErrorKind::Shape, "take"@, "v1 take supports rank-2 axis=1 only"@)
    } else if index.shape[0] != x.shape[0] {
        e.says(ErrorKind::Shape, "take"@, "index length must equal batch"@)
    } else if !x.dtype().floating() {
        e.says(ErrorKind::Dtype, "take"@, "float data"@)
    } else {
        &&& !picks_ok(index.i64s(), x.shape[1])
        &&& e.says(ErrorKind::Index, "take"@, "oob"@)
    }
}

/// What a take returns.
pub open spec fn take_value<S: Scalars>(
    x: TensorModel<S::F, S::D>,
    index: TensorModel<S::F, S::D>,
    r: TensorModel<S::F, S::D>,
) -> bool {
    &&& picks_ok(index.i64s(), x.shape[1])
    &&& r.plain(seq![x.shape[0]]) && r.valid() && r.elems() == r.data
    &&& match (x.elems(), r.data) {
        (Data::F32(v), Data::F32(w)) => takes(v, x.shape[1], index.i64s(), w),
        (Data::F64(v), Data::F64(w)) => takes(v, x.shape[1], index.i64s(), w),
        _ => false,
    }
}

/// The element of each row that its index entry names.
fn take_values<T: Copy>(
    data: &[T],
    offset: usize,
    shape: &[usize],
    strides: &[isize],
    index: &[i64],
) -> (out: Vec<T>)
    requires
        shape@.len() == 2 && strides@.len() == 2,
        forall|q: Seq<int>| #[trigger]
            in_bounds(shape@, q) ==> 0 <= offset + dot(q, strides@) < data@.len(),
        index@.len() == shape@[0],
        picks_ok(index@, shape@[1]),
    ensures
        takes(packed(data@, offset as int, shape@, strides@), shape@[1], index@, out@),
{
    let mut out: Vec<T> = Vec::new();
    let mut i: usize = 0;
    while i < index.len()
        invariant
            i <= index@.len(),
            shape@.len() == 2 && strides@.len() == 2,
            forall|q: Seq<int>| #[trigger]
                in_bounds(shape@, q) ==> 0 <= offset + dot(q, strides@) < data@.len(),
            index@.len() == shape@[0],
            picks_ok(index@, shape@[1]),
            out@.len() == i,
            forall|j: int|
                0 <= j < i ==> #[trigger] out@[j] == packed(
                    data@,
                    offset as int,
                    shape@,
                    strides@,
                )[j * shape@[1] + picked(index@[j], shape@[1])],
        decreases index@.len() - i,
    {
        match pick(index[i], shape[1]) {
            Some(at) => {
                let mut idx: Vec<usize> = Vec::new();
                idx.push(i);
                idx.push(at);
                assert(data.len() == data@.len());
                proof {
                    let q = ints(idx@);
                    assert(q =~= seq![i as int, at as int]);
                    lemma_picked(index@[i as int], shape@[1]);
                    assert(in_bounds(shape@, q));
                    let m: TensorModel<T, T> = TensorModel {
                        data: Data::F32(data@),
                        offset: offset as int,
                        shape: shape@,
                        strides: strides@,
                        device: crate::device::Device::Cpu,
                        in_graph: false,
                        leaf: None,
                        grad_fn: None,
                        placement: "cpu"@,
                    };
                    assert forall|p: Seq<int>| #[trigger] in_bounds(m.shape, p) implies 0 <= m.slot(
                        p,
                    ) < m.data.len() by {
                        assert(in_bounds(shape@, p));
                    }
                    lemma_reaches(m, q);
                    lemma_ravel(shape@, q);
                    lemma_matrix_rank(shape@, i as int, at as int);
                }
                let o: usize = slot_of(offset, strides, idx.as_slice());
                out.push(data[o]);
            },
            None => {
                assert(!pick_ok(index@[i as int], shape@[1]));
            },
        }
        i = i + 1;
    }
    out
}

/// Row-major rank of a position in a matrix.
pub proof fn lemma_matrix_rank(shape: Seq<usize>, i: int, j: int)
    requires
        shape.len() == 2,
    ensures
        ravel(shape, seq![i, j]) == i * shape[1] + j,
{
    let idx = seq![i, j];
    assert(shape.drop_last().drop_last().len() == 0);
    assert(shape.drop_last().last() == shape[0]);
    assert(idx.drop_last().last() == i);
    assert(ravel(shape.drop_last().drop_last(), idx.drop_last().drop_last()) == 0);
    assert(ravel(shape.drop_last(), idx.drop_last()) == 0 * shape[0] + i);
    assert(shape.last() == shape[1]);
}

/// What `take` comes to.
pub open spec fn take_out<S: Scalars>(
    x: Model<S>,
    axis: int,
    index: Model<S>,
    r: Outcome<S>,
) -> bool {
    match r {
        Ok(t) => take_ready(x, axis, index) && take_value::<S>(
            x,
            index,
            t,
        ),
        Err(e) => take_error(e, x, axis, index),
    }
}

/// From each row of the matrix `x`, the element that the rank-1 integer tensor `index` names.
pub fn take<S: Scalars>(x: &Tensor<S>, axis: isize, index: &Tensor<S>) -> (r: Result<
    Tensor<S>,
    Error,
>)
    ensures
        take_out::<S>(x@, axis as int, index@, outcome(r)),
{
    if index.rank() != 1 {
        return Err(Error::shape("take", "index must be rank 1".to_owned()));
    }
    let named: Vec<i64> = match index.to_vec_i64() {
        Ok(v) => v,
        Err(_) => {
            return Err(Error::dtype("take", "i64 index".to_owned()));
        },
    };
    let ax: usize = match normalize_axis(axis, x.rank(), "take") {
        Ok(a) => a,
        Err(e) => {
            return Err(e);
        },
    };
    if x.rank() != 2 || ax != 1 {
        return Err(Error::shape("take", "v1 take supports rank-2 axis=1 only".to_owned()));
    }
    proof {
        crate::construct::lemma_line(index@.shape[0]);
        assert(index@.shape =~= seq![index@.shape[0]]);
    }
    if index.numel() != x.shape()[0] {
        return Err(Error::shape("take", "index length must equal batch".to_owned()));
    }
    if !x.dtype().is_float() {
        return Err(Error::dtype("take", "float data".to_owned()));
    }
    if !all_picked(named.as_slice(), x.shape()[1]) {
        return Err(Error::index("take", "oob".to_owned()));
    }
    let ghost m = x@;
    proof {
        assert forall|q: Seq<int>| #[trigger] in_bounds(m.shape, q) implies 0 <= m.offset + dot(
            q,
            m.strides,
        ) < m.data.len() by {
            assert(0 <= m.slot(q) < m.data.len());
        }
    }
    match x.storage_f32() {
        Ok(data) => {
            let out: Vec<S::F> = take_values(
                data,
                x.storage_offset(),
                x.shape(),
                x.strides(),
                named.as_slice(),
            );
            return Tensor::from_vec_f32(out, index.shape());
        },
        Err(_) => {},
    }
    match x.storage_f64() {
        Ok(data) => {
            let out: Vec<S::D> = take_values(
                data,
                x.storage_offset(),
                x.shape(),
                x.strides(),
                named.as_slice(),
            );
            Tensor::from_vec_f64(out, index.shape())
        },
        Err(e) => Err(e),
    }
}

} // verus!
