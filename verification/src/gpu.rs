//! Which products go to a GPU, what is handed to each device, and what is made of the answers.
use vstd::prelude::*;
use crate::device::Device;
use crate::dtype::Dtype;
use crate::error::{Error, ErrorKind};
use crate::guarded::{cut, cut_out, join, join_out, stretch, stretch_out};
use crate::elementwise::source_rank;
use crate::index::{fits, ravel, unravel, volume};
use crate::matmul::{
    batch_axes, columns_of, left_matrix, multiplies, result_shape, right_matrix, rows_of,
    sums_products, Stack,
};
use crate::rules::from_f32s_out;
use crate::scalar::{Arith, Scalars};
use crate::shape::{broadcast_shapes, compatible, joined, numel};
use crate::tensor::{copied, gives, numel_error, outcome, passes, Model, Outcome, Tensor};
use crate::text::{decimal, with_two_numbers};
use crate::views::{narrowed, unsqueeze_out, Range3};

verus! {

/// Normalized dimensions of a product: those of the CPU product, with vectors promoted to matrices.
pub struct MatmulDims {
    /// Output rows after promotion.
    pub m: usize,
    /// Output columns after promotion.
    pub n: usize,
    /// Inner dimension.
    pub k: usize,
    /// Broadcast batch shape (empty for matrices).
    pub batch: Vec<usize>,
    /// The left operand was a vector, promoted to `[1, k]`.
    pub left: bool,
    /// The right operand was a vector, promoted to `[k, 1]`.
    pub right: bool,
}

/// What the dimensions are.
pub ghost struct DimsModel {
    pub m: usize,
    pub n: usize,
    pub k: usize,
    pub batch: Seq<usize>,
    pub left: bool,
    pub right: bool,
}

impl View for MatmulDims {
    type V = DimsModel;

    open spec fn view(&self) -> DimsModel {
        DimsModel {
            m: self.m,
            n: self.n,
            k: self.k,
            batch: self.batch@,
            left: self.left,
            right: self.right,
        }
    }
}

/// The dimensions of the product of two shapes, where there is such a product and it is not empty.
pub open spec fn dims_of_shapes(a: Seq<usize>, b: Seq<usize>) -> Option<DimsModel> {
    let l = left_matrix(a);
    let r = right_matrix(b);
    let batch = joined(batch_axes(l), batch_axes(r));
    if a.len() == 0 || b.len() == 0 {
        None
    } else if rows_of(r) != columns_of(l) {
        None
    } else if rows_of(l) == 0 || columns_of(r) == 0 || columns_of(l) == 0 {
        None
    } else if !compatible(batch_axes(l), batch_axes(r)) || !fits(batch) || volume(batch) == 0 {
        None
    } else {
        Some(
            DimsModel {
                m: rows_of(l),
                n: columns_of(r),
                k: columns_of(l),
                batch,
                left: a.len() == 1,
                right: b.len() == 1,
            },
        )
    }
}

/// The dimensions of a product of 32-bit tensors.
pub open spec fn dims_of<S: Scalars>(a: Model<S>, b: Model<S>) -> Option<DimsModel> {
    if a.dtype() != Dtype::F32 || b.dtype() != Dtype::F32 {
        None
    } else {
        dims_of_shapes(a.shape, b.shape)
    }
}

/// What optional dimensions are.
pub open spec fn dims_view(r: Option<MatmulDims>) -> Option<DimsModel> {
    match r {
        Some(d) => Some(d@),
        None => None,
    }
}

/// The shape of the left operand as a matrix.
fn promoted(shape: &[usize], left: bool) -> (r: Vec<usize>)
    requires
        shape@.len() > 0,
    ensures
        r@ == if left {
            left_matrix(shape@)
        } else {
            right_matrix(shape@)
        },
        r@.len() >= 2,
{
    if shape.len() != 1 {
        return copied(shape);
    }
    let mut v: Vec<usize> = Vec::new();
    if left {
        v.push(1);
        v.push(shape[0]);
        assert(v@ =~= left_matrix(shape@));
    } else {
        v.push(shape[0]);
        v.push(1);
        assert(v@ =~= right_matrix(shape@));
    }
    v
}

/// The dimensions of a product that a GPU can take.
pub fn matmul_dims<S: Scalars>(a: &Tensor<S>, b: &Tensor<S>) -> (r: Option<MatmulDims>)
    ensures
        dims_view(r) == dims_of::<S>(a@, b@),
{
    if a.dtype() != Dtype::F32 || b.dtype() != Dtype::F32 {
        return None;
    }
    if a.rank() == 0 || b.rank() == 0 {
        return None;
    }
    let l: Vec<usize> = promoted(a.shape(), true);
    let r: Vec<usize> = promoted(b.shape(), false);
    let m: usize = l[l.len() - 2];
    let k: usize = l[l.len() - 1];
    if r[r.len() - 2] != k {
        return None;
    }
    let n: usize = r[r.len() - 1];
    if m == 0 || n == 0 || k == 0 {
        return None;
    }
    let lb: &[usize] = vstd::slice::slice_subrange(l.as_slice(), 0, l.len() - 2);
    let rb: &[usize] = vstd::slice::slice_subrange(r.as_slice(), 0, r.len() - 2);
    proof {
        assert(lb@ =~= batch_axes(l@));
        assert(rb@ =~= batch_axes(r@));
    }
    let batch: Vec<usize> = match broadcast_shapes(lb, rb) {
        Ok(v) => v,
        Err(_) => {
            return None;
        },
    };
    match numel(batch.as_slice()) {
        Ok(c) => if c == 0 {
            return None;
        },
        Err(_) => {
            return None;
        },
    }
    Some(MatmulDims { m, n, k, batch, left: a.rank() == 1, right: b.rank() == 1 })
}

/// Shape normalization, as the splitter of work uses it.
pub fn matmul_shape<S: Scalars>(a: &Tensor<S>, b: &Tensor<S>) -> (r: Option<MatmulDims>)
    ensures
        dims_view(r) == dims_of::<S>(a@, b@),
{
    matmul_dims(a, b)
}

/// The multiplications of one product of the batch.
pub open spec fn work_of(d: DimsModel) -> int {
    d.m * d.n * d.k
}

/// The product is worth a trip to a GPU: each matrix product takes at least `2^20` multiplications,
/// all of them at least `2^28`, and one dimension is at least 512.
pub open spec fn worth_offloading(d: DimsModel) -> bool {
    &&& work_of(d) >= 0x10_0000
    &&& work_of(d) * volume(d.batch) >= 0x1000_0000
    &&& d.m >= 512 || d.n >= 512 || d.k >= 512
}

/// `a * b`, held at the greatest number.
fn times_held(a: u64, b: u64) -> (r: u64)
    ensures
        r == if a * b > u64::MAX {
            u64::MAX as int
        } else {
            a * b
        },
{
    proof {
        assert(0 <= a * b <= u128::MAX) by (nonlinear_arith)
            requires
                0 <= a <= u64::MAX,
                0 <= b <= u64::MAX,
        ;
    }
    let p: u128 = a as u128 * b as u128;
    if p > u64::MAX as u128 {
        u64::MAX
    } else {
        p as u64
    }
}

/// Holding a product on the way does not change which limits below it are reached.
proof fn lemma_held(p: int, h: int, q: int, r: int, limit: int)
    requires
        0 <= p,
        q >= 1,
        0 <= limit <= u64::MAX,
        h == if p > u64::MAX {
            u64::MAX as int
        } else {
            p
        },
        r == if h * q > u64::MAX {
            u64::MAX as int
        } else {
            h * q
        },
    ensures
        (r >= limit) == (p * q >= limit),
        r == if p * q > u64::MAX {
            u64::MAX as int
        } else {
            p * q
        },
{
    if p > u64::MAX {
        assert(h * q >= h && p * q >= p) by (nonlinear_arith)
            requires
                0 <= h,
                0 <= p,
                q >= 1,
        ;
    }
}

/// Whether dimensions are worth a trip to a GPU.
fn worth<S: Scalars>(d: &MatmulDims) -> (r: bool)
    requires
        d.k >= 1,
        fits(d.batch@),
        volume(d.batch@) >= 1,
    ensures
        r == worth_offloading(d@),
{
    let plane: u64 = times_held(d.m as u64, d.n as u64);
    let single: u64 = times_held(plane, d.k as u64);
    let count: u64 = match numel(d.batch.as_slice()) {
        Ok(c) => c as u64,
        Err(_) => 1,
    };
    let total: u64 = times_held(single, count);
    proof {
        let p = d.m * d.n;
        assert(0 <= p && 0 <= p * d.k) by (nonlinear_arith)
            requires
                p == d.m * d.n,
                0 <= d.m,
                0 <= d.n,
                1 <= d.k,
        ;
        lemma_held(p, plane as int, d.k as int, single as int, 0x10_0000);
        lemma_held(p * d.k, single as int, count as int, total as int, 0x1000_0000);
    }
    single >= 0x10_0000 && total >= 0x1000_0000 && (d.m >= 512 || d.n >= 512 || d.k >= 512)
}

/// The product has dimensions that are worth a trip to a GPU.
pub open spec fn offloads<S: Scalars>(a: Model<S>, b: Model<S>) -> bool {
    dims_of::<S>(a, b) matches Some(d) && worth_offloading(d)
}

/// Whether a product is worth a trip to a GPU.
pub fn should_offload_matmul<S: Scalars>(a: &Tensor<S>, b: &Tensor<S>) -> (r: bool)
    ensures
        r == offloads::<S>(a@, b@),
{
    match matmul_dims(a, b) {
        Some(d) => worth::<S>(&d),
        None => false,
    }
}

/// A batch of matrices of the given size.
pub open spec fn batch_of(batch: Seq<usize>, rows: usize, columns: usize) -> Seq<usize> {
    batch.push(rows).push(columns)
}

/// The number of elements of a batch of matrices.
pub(crate) proof fn lemma_batch_volume(batch: Seq<usize>, rows: usize, columns: usize)
    ensures
        volume(batch_of(batch, rows, columns)) == volume(batch) * (rows * columns),
{
    let whole = batch_of(batch, rows, columns);
    assert(whole.drop_last() =~= batch.push(rows));
    assert(batch.push(rows).drop_last() =~= batch);
    assert(volume(batch.push(rows)) == volume(batch) * rows);
    assert(volume(whole) == volume(batch.push(rows)) * columns);
    assert((volume(batch) * rows) * columns == volume(batch) * (rows * columns))
        by (nonlinear_arith);
}

/// The shape of a batch of matrices.
pub fn batch_shape(batch: &[usize], rows: usize, columns: usize) -> (r: Vec<usize>)
    ensures
        r@ == batch_of(batch@, rows, columns),
{
    let mut v: Vec<usize> = copied(batch);
    v.push(rows);
    v.push(columns);
    v
}

/// What the elements of a tensor come to, stretched to a shape and packed.
pub open spec fn spread_out<S: Scalars>(
    m: Model<S>,
    target: Seq<usize>,
    r: Result<Seq<S::F>, Error>,
) -> bool {
    exists|o: Outcome<S>| #[trigger]
        stretch_out::<S>("gpu.matmul"@, m, target, o) && passes(o, r, packed_out::<S>(o->Ok_0, r))
}

/// What packing comes to.
pub open spec fn packed_out<S: Scalars>(m: Model<S>, r: Result<Seq<S::F>, Error>) -> bool {
    if !m.contiguous() && !fits(m.shape) {
        r is Err && numel_error(r->Err_0)
    } else if m.dtype() != Dtype::F32 {
        r is Err && r->Err_0.says(ErrorKind::Dtype, "to_vec"@, "expected f32"@)
    } else {
        gives(r, m.f32s())
    }
}

/// A list, or an error.
pub open spec fn list_outcome<T>(r: Result<Vec<T>, Error>) -> Result<Seq<T>, Error> {
    match r {
        Ok(v) => Ok(v@),
        Err(e) => Err(e),
    }
}

fn spread<S: Scalars>(x: &Tensor<S>, target: &[usize]) -> (r: Result<Vec<S::F>, Error>)
    ensures
        spread_out::<S>(x@, target@, list_outcome(r)),
        r matches Ok(v) ==> v@.len() == volume(target@),
{
    let t: Tensor<S> = match stretch("gpu.matmul", x, target) {
        Ok(t) => t,
        Err(e) => {
            return Err(e);
        },
    };
    match t.to_contiguous() {
        Ok(c) => c.to_vec_f32(),
        Err(e) => Err(e),
    }
}

/// What an operand comes to as a matrix: a vector gets an axis of size one at `at`.
pub open spec fn promoted_out<S: Scalars>(m: Model<S>, at: isize, r: Outcome<S>) -> bool {
    if m.shape.len() == 1 {
        unsqueeze_out::<S>(m, at as int, r)
    } else {
        gives(r, m)
    }
}

fn promote<S: Scalars>(x: &Tensor<S>, at: isize) -> (r: Result<Tensor<S>, Error>)
    ensures
        promoted_out::<S>(x@, at, outcome(r)),
{
    if x.rank() == 1 {
        x.unsqueeze(at)
    } else {
        Ok(x.clone())
    }
}

/// The elements of both operands, in full.
pub struct Operands<F> {
    pub a: Vec<F>,
    pub b: Vec<F>,
}

/// What the operands hold.
pub open spec fn operands_outcome<F>(r: Result<Operands<F>, Error>) -> Result<
    (Seq<F>, Seq<F>),
    Error,
> {
    match r {
        Ok(p) => Ok((p.a@, p.b@)),
        Err(e) => Err(e),
    }
}

/// What `materialize` comes to: both operands as matrices, stretched to the whole batch.
pub open spec fn materialize_out<S: Scalars>(
    a: Model<S>,
    b: Model<S>,
    d: DimsModel,
    r: Result<(Seq<S::F>, Seq<S::F>), Error>,
) -> bool {
    exists|o: Outcome<S>| #[trigger]
        promoted_out::<S>(a, 0, o) && passes(o, r, materialize_right::<S>(o->Ok_0, b, d, r))
}

/// With the left operand as a matrix.
pub open spec fn materialize_right<S: Scalars>(
    a: Model<S>,
    b: Model<S>,
    d: DimsModel,
    r: Result<(Seq<S::F>, Seq<S::F>), Error>,
) -> bool {
    exists|o: Outcome<S>| #[trigger]
        promoted_out::<S>(b, 1, o) && passes(o, r, materialize_first::<S>(a, o->Ok_0, d, r))
}

/// With both operands as matrices.
pub open spec fn materialize_first<S: Scalars>(
    a: Model<S>,
    b: Model<S>,
    d: DimsModel,
    r: Result<(Seq<S::F>, Seq<S::F>), Error>,
) -> bool {
    exists|o: Result<Seq<S::F>, Error>| #[trigger]
        spread_out::<S>(a, batch_of(d.batch, d.m, d.k), o) && passes(
            o,
            r,
            materialize_second::<S>(o->Ok_0, b, d, r),
        )
}

/// With the left operand's elements.
pub open spec fn materialize_second<S: Scalars>(
    av: Seq<S::F>,
    b: Model<S>,
    d: DimsModel,
    r: Result<(Seq<S::F>, Seq<S::F>), Error>,
) -> bool {
    exists|o: Result<Seq<S::F>, Error>| #[trigger]
        spread_out::<S>(b, batch_of(d.batch, d.k, d.n), o) && passes(
            o,
            r,
            gives(r, (av, o->Ok_0)),
        )
}

/// Materializes both operands, broadcast to the full batch.
pub fn materialize<S: Scalars>(a: &Tensor<S>, b: &Tensor<S>, d: &MatmulDims) -> (r: Result<
    Operands<S::F>,
    Error,
>)
    ensures
        materialize_out::<S>(a@, b@, d@, operands_outcome(r)),
        r matches Ok(p) ==> p.a@.len() == volume(batch_of(d@.batch, d@.m, d@.k)) && p.b@.len()
            == volume(batch_of(d@.batch, d@.k, d@.n)),
{
    let ab: Tensor<S> = match promote(a, 0) {
        Ok(t) => t,
        Err(e) => {
            return Err(e);
        },
    };
    let bb: Tensor<S> = match promote(b, 1) {
        Ok(t) => t,
        Err(e) => {
            return Err(e);
        },
    };
    let ashape: Vec<usize> = batch_shape(d.batch.as_slice(), d.m, d.k);
    let bshape: Vec<usize> = batch_shape(d.batch.as_slice(), d.k, d.n);
    proof {
        assert(ashape@ == batch_of(d@.batch, d@.m, d@.k));
        assert(bshape@ == batch_of(d@.batch, d@.k, d@.n));
    }
    let av: Vec<S::F> = match spread(&ab, ashape.as_slice()) {
        Ok(v) => v,
        Err(e) => {
            return Err(e);
        },
    };
    match spread(&bb, bshape.as_slice()) {
        Ok(v) => Ok(Operands { a: av, b: v }),
        Err(e) => Err(e),
    }
}

/// Why a product is not taken by a GPU.
pub open spec fn refusal<S: Scalars>(
    e: Error,
    op: Seq<char>,
    a: Model<S>,
    b: Model<S>,
) -> bool {
    if dims_of::<S>(a, b) is None {
        gpu_error(e, op, a.dtype(), "unsupported shape/dtype"@)
    } else if !offloads::<S>(a, b) {
        gpu_error(e, op, a.dtype(), "below crossover; use CPU"@)
    } else {
        gpu_error(e, op, Dtype::F32, "no Metal device"@)
    }
}

/// An operation that the GPU does not support.
pub open spec fn gpu_error(e: Error, op: Seq<char>, dtype: Dtype, hint: Seq<char>) -> bool {
    e.says(
        ErrorKind::Unsupported,
        op,
        "dtype="@ + dtype.variant() + " device="@ + Device::Gpu.variant() + ": "@ + hint,
    )
}

/// A product for the GPUs: its dimensions and the elements of both operands.
pub struct GpuWork<F> {
    pub dims: MatmulDims,
    pub operands: Operands<F>,
}

/// What a product for `devices` devices comes to: the dimensions and elements, or why it is refused.
pub open spec fn gpu_work_out<S: Scalars>(
    op: Seq<char>,
    a: Model<S>,
    b: Model<S>,
    devices: usize,
    r: Result<GpuWork<S::F>, Error>,
) -> bool {
    if !offloads::<S>(a, b) || devices == 0 {
        r is Err && refusal::<S>(r->Err_0, op, a, b)
    } else {
        exists|o: Result<(Seq<S::F>, Seq<S::F>), Error>| #[trigger]
            materialize_out::<S>(a, b, dims_of::<S>(a, b)->0, o) && match r {
                Ok(w) => w.dims@ == dims_of::<S>(a, b)->0 && gives(
                    o,
                    (w.operands.a@, w.operands.b@),
                ),
                Err(e) => o == Result::<(Seq<S::F>, Seq<S::F>), Error>::Err(e),
            }
    }
}

/// Prepares a product for `devices` devices.
pub fn gpu_work<S: Scalars>(
    op: &'static str,
    a: &Tensor<S>,
    b: &Tensor<S>,
    devices: usize,
) -> (r: Result<GpuWork<S::F>, Error>)
    ensures
        gpu_work_out::<S>(op@, a@, b@, devices, r),
        r matches Ok(w) ==> spans_fit(w.dims@) && operands_fit(
            w.dims@,
            w.operands.a@,
            w.operands.b@,
        ),
{
    let dims: MatmulDims = match matmul_dims(a, b) {
        Some(d) => d,
        None => {
            return Err(
                Error::unsupported(
                    op,
                    a.dtype(),
                    Device::Gpu,
                    "unsupported shape/dtype".to_owned(),
                ),
            );
        },
    };
    if !worth::<S>(&dims) {
        return Err(
            Error::unsupported(op, a.dtype(), Device::Gpu, "below crossover; use CPU".to_owned()),
        );
    }
    if devices == 0 {
        return Err(
            Error::unsupported(op, Dtype::F32, Device::Gpu, "no Metal device".to_owned()),
        );
    }
    match materialize(a, b, &dims) {
        Ok(operands) => {
            proof {
                lemma_batch_volume(dims@.batch, dims@.m, dims@.k);
                lemma_batch_volume(dims@.batch, dims@.k, dims@.n);
                assert(operands.a.len() == operands.a@.len());
                assert(operands.b.len() == operands.b@.len());
            }
            Ok(GpuWork { dims, operands })
        },
        Err(e) => Err(e),
    }
}

/// Where part `i` of `total`, cut into `parts`, starts.
pub open spec fn part_start(total: int, parts: int, i: int) -> int {
    i * total / parts
}

/// The parts follow each other from nothing to the whole, and none is empty where there is enough for
/// all.
pub proof fn law_parts_tile(total: int, parts: int, i: int)
    requires
        0 <= total,
        0 < parts,
        0 <= i < parts,
    ensures
        part_start(total, parts, 0) == 0,
        part_start(total, parts, parts) == total,
        0 <= part_start(total, parts, i) <= part_start(total, parts, i + 1) <= total,
        parts <= total ==> part_start(total, parts, i) < part_start(total, parts, i + 1),
{
    assert(0 * total / parts == 0) by (nonlinear_arith)
        requires
            parts > 0,
    ;
    assert(parts * total / parts == total) by (nonlinear_arith)
        requires
            parts > 0,
    ;
    let x = i * total;
    let y = (i + 1) * total;
    let z = parts * total;
    assert(y == x + total && 0 <= x && y <= z) by (nonlinear_arith)
        requires
            x == i * total,
            y == (i + 1) * total,
            z == parts * total,
            0 <= i < parts,
            0 <= total,
    ;
    assert(0 <= x / parts <= y / parts <= z / parts) by (nonlinear_arith)
        requires
            0 <= x <= y <= z,
            parts > 0,
    ;
    if parts <= total {
        assert(x / parts < (x + total) / parts) by (nonlinear_arith)
            requires
                0 <= x,
                0 < parts <= total,
        ;
    }
}

/// Where part `i` of `total`, cut into `parts`, starts.
pub fn start_of(total: usize, parts: usize, i: usize) -> (r: usize)
    requires
        0 < parts,
        i <= parts,
    ensures
        r == part_start(total as int, parts as int, i as int),
        r <= total,
{
    proof {
        if i < parts {
            law_parts_tile(total as int, parts as int, i as int);
        } else {
            law_parts_tile(total as int, parts as int, 0);
        }
        assert(0 <= i * total <= u128::MAX) by (nonlinear_arith)
            requires
                0 <= i <= usize::MAX,
                0 <= total <= usize::MAX,
                usize::MAX <= 0xffff_ffff_ffff_ffff,
        ;
    }
    (i as u128 * total as u128 / parts as u128) as usize
}

/// The work of one device: the spans of both operands that it gets, and the dimensions of its
/// product.
pub struct Job {
    pub a_from: usize,
    pub a_to: usize,
    pub b_from: usize,
    pub b_to: usize,
    pub m: usize,
    pub n: usize,
    pub k: usize,
    pub batch: Vec<usize>,
}

/// There are machine numbers for every span of the operands.
pub open spec fn spans_fit(d: DimsModel) -> bool {
    &&& fits(d.batch) && volume(d.batch) >= 1
    &&& volume(d.batch) * (d.m * d.k) <= usize::MAX
    &&& volume(d.batch) * (d.k * d.n) <= usize::MAX
    &&& d.m >= 1 && d.n >= 1 && d.k >= 1
}

/// How many devices get work: no more than there are batch elements or, in a single product, rows.
pub open spec fn job_count(d: DimsModel, devices: usize) -> int {
    let limit = if d.batch.len() > 0 {
        volume(d.batch) as int
    } else {
        d.m as int
    };
    if devices <= limit {
        devices as int
    } else {
        limit
    }
}

/// The work of device `i`: a span of the batch or, in a single product, of the rows.
pub open spec fn job_at(d: DimsModel, devices: usize, i: int, j: Job) -> bool {
    let parts = job_count(d, devices);
    if d.batch.len() > 0 {
        let from = part_start(volume(d.batch) as int, parts, i);
        let to = part_start(volume(d.batch) as int, parts, i + 1);
        &&& j.a_from == from * (d.m * d.k) && j.a_to == to * (d.m * d.k)
        &&& j.b_from == from * (d.k * d.n) && j.b_to == to * (d.k * d.n)
        &&& j.m == d.m && j.n == d.n && j.k == d.k
        &&& j.batch@ == seq![(to - from) as usize]
    } else {
        let from = part_start(d.m as int, parts, i);
        let to = part_start(d.m as int, parts, i + 1);
        &&& j.a_from == from * d.k && j.a_to == to * d.k
        &&& j.b_from == 0 && j.b_to == d.k * d.n
        &&& j.m == to - from && j.n == d.n && j.k == d.k
        &&& j.batch@.len() == 0
    }
}

/// Spans below the whole are machine numbers.
proof fn lemma_span(x: int, total: int, size: int)
    requires
        0 <= x <= total,
        0 <= size,
        total * size <= usize::MAX,
    ensures
        0 <= x * size <= usize::MAX,
{
    assert(0 <= x * size <= total * size) by (nonlinear_arith)
        requires
            0 <= x <= total,
            0 <= size,
    ;
}

fn batch_job(d: &MatmulDims, total: usize, from: usize, to: usize) -> (j: Job)
    requires
        spans_fit(d@),
        total == volume(d.batch@),
        from <= to <= total,
    ensures
        j.a_from == from * (d.m * d.k) && j.a_to == to * (d.m * d.k),
        j.b_from == from * (d.k * d.n) && j.b_to == to * (d.k * d.n),
        j.m == d.m && j.n == d.n && j.k == d.k,
        j.batch@ == seq![(to - from) as usize],
{
    proof {
        assert(0 <= d.m * d.k && 0 <= d.k * d.n) by (nonlinear_arith)
            requires
                0 <= d.m,
                0 <= d.n,
                0 <= d.k,
        ;
        lemma_span(1, total as int, d.m * d.k);
        lemma_span(1, total as int, d.k * d.n);
        lemma_span(from as int, total as int, d.m * d.k);
        lemma_span(to as int, total as int, d.m * d.k);
        lemma_span(from as int, total as int, d.k * d.n);
        lemma_span(to as int, total as int, d.k * d.n);
    }
    let asize: usize = d.m * d.k;
    let bsize: usize = d.k * d.n;
    let mut batch: Vec<usize> = Vec::new();
    batch.push(to - from);
    assert(batch@ =~= seq![(to - from) as usize]);
    Job {
        a_from: from * asize,
        a_to: to * asize,
        b_from: from * bsize,
        b_to: to * bsize,
        m: d.m,
        n: d.n,
        k: d.k,
        batch,
    }
}

fn row_job(d: &MatmulDims, from: usize, to: usize) -> (j: Job)
    requires
        spans_fit(d@),
        d.batch@.len() == 0,
        from <= to <= d.m,
    ensures
        j.a_from == from * d.k && j.a_to == to * d.k,
        j.b_from == 0 && j.b_to == d.k * d.n,
        j.m == to - from && j.n == d.n && j.k == d.k,
        j.batch@.len() == 0,
{
    proof {
        assert(d.m * d.k <= usize::MAX && 0 <= d.k * d.n <= usize::MAX) by (nonlinear_arith)
            requires
                volume(d.batch@) * (d.m * d.k) <= usize::MAX,
                volume(d.batch@) * (d.k * d.n) <= usize::MAX,
                volume(d.batch@) >= 1,
                0 <= d.m,
                0 <= d.n,
                0 <= d.k,
        ;
        lemma_span(from as int, d.m as int, d.k as int);
        lemma_span(to as int, d.m as int, d.k as int);
    }
    Job {
        a_from: from * d.k,
        a_to: to * d.k,
        b_from: 0,
        b_to: d.k * d.n,
        m: to - from,
        n: d.n,
        k: d.k,
        batch: Vec::new(),
    }
}

/// Cuts a product into work for `devices` devices: along the batch, or a single product along its
/// rows.
pub fn plan(d: &MatmulDims, devices: usize) -> (r: Vec<Job>)
    requires
        spans_fit(d@),
    ensures
        r@.len() == job_count(d@, devices),
        forall|i: int| 0 <= i < r@.len() ==> job_at(d@, devices, i, #[trigger] r@[i]),
{
    let batched: bool = d.batch.len() > 0;
    let count: usize = match numel(d.batch.as_slice()) {
        Ok(c) => c,
        Err(_) => 0,
    };
    let total: usize = if batched {
        count
    } else {
        d.m
    };
    let parts: usize = if devices <= total {
        devices
    } else {
        total
    };
    let mut r: Vec<Job> = Vec::new();
    let mut i: usize = 0;
    while i < parts
        invariant
            i <= parts,
            parts == job_count(d@, devices),
            spans_fit(d@),
            count == volume(d.batch@),
            batched == (d.batch@.len() > 0),
            total == if batched {
                count
            } else {
                d.m
            },
            r@.len() == i,
            forall|j: int| 0 <= j < i ==> job_at(d@, devices, j, #[trigger] r@[j]),
        decreases parts - i,
    {
        let from: usize = start_of(total, parts, i);
        let to: usize = start_of(total, parts, i + 1);
        proof {
            law_parts_tile(total as int, parts as int, i as int);
        }
        let job: Job = if batched {
            batch_job(d, total, from, to)
        } else {
            row_job(d, from, to)
        };
        assert(job_at(d@, devices, i as int, job));
        r.push(job);
        i = i + 1;
    }
    r
}

/// The shape of the result: that of the CPU product, where an axis that promotion put in is taken
/// out again.
pub open spec fn final_shape(d: DimsModel) -> Seq<usize> {
    let rows = if d.left {
        d.batch
    } else {
        d.batch.push(d.m)
    };
    if d.right {
        rows
    } else {
        rows.push(d.n)
    }
}

/// The shape of the result is that of the CPU product.
pub proof fn law_same_shape_as_cpu<S: Scalars>(a: Model<S>, b: Model<S>)
    requires
        dims_of::<S>(a, b) is Some,
    ensures
        final_shape(dims_of::<S>(a, b)->0) == result_shape(a.shape, b.shape),
{
}

/// A single product of matrices.
pub open spec fn plain_stack(m: int, n: int, k: int) -> Stack {
    Stack { m, n, k, a_batch: Seq::empty(), b_batch: Seq::empty() }
}

/// The one matrix of a single product.
proof fn lemma_plain_source()
    ensures
        source_rank(Seq::empty(), joined(Seq::empty(), Seq::empty()), 0) == 0,
{
    assert(joined(Seq::empty(), Seq::empty()) =~= Seq::<usize>::empty());
}

/// The pairs of a single product.
proof fn lemma_plain_pairs<T>(m: int, n: int, k: int, a: Seq<T>, b: Seq<T>, q: int)
    requires
        0 < n,
        0 <= k,
        0 <= q < m * n,
    ensures
        plain_stack(m, n, k).pairs(a, b, q) == Seq::new(
            k as nat,
            |p: int| (a[(q / n) * k + p], b[q % n + p * n]),
        ),
{
    lemma_plain_source();
    let w = m * n;
    assert(q / w == 0 && q % w == q) by (nonlinear_arith)
        requires
            0 <= q < w,
    ;
    assert(0 * (m * k) == 0 && 0 * (k * n) == 0) by (nonlinear_arith);
    assert(plain_stack(m, n, k).pairs(a, b, q) =~= Seq::new(
        k as nat,
        |p: int| (a[(q / n) * k + p], b[q % n + p * n]),
    ));
}

/// A single product may be computed in two spans of rows: the products of the spans, one after the
/// other, are the product.
pub proof fn law_rows_split<T, A: Arith<T>>(
    m1: int,
    m2: int,
    n: int,
    k: int,
    a: Seq<T>,
    b: Seq<T>,
    c1: Seq<T>,
    c2: Seq<T>,
)
    requires
        0 <= m1 && 0 <= m2 && 0 < n && 0 <= k,
        a.len() == (m1 + m2) * k,
        c1.len() == m1 * n,
        c2.len() == m2 * n,
        multiplies::<T, A>(plain_stack(m1, n, k), a.take(m1 * k), b, c1),
        multiplies::<T, A>(plain_stack(m2, n, k), a.skip(m1 * k), b, c2),
    ensures
        multiplies::<T, A>(plain_stack(m1 + m2, n, k), a, b, c1 + c2),
{
    let c = c1 + c2;
    let whole = plain_stack(m1 + m2, n, k);
    assert((m1 + m2) * n == m1 * n + m2 * n && (m1 + m2) * k == m1 * k + m2 * k && 0 <= m1 * k
        && 0 <= m2 * k) by (nonlinear_arith)
        requires
            0 <= m1,
            0 <= m2,
            0 <= k,
    ;
    assert forall|q: int| 0 <= q < c.len() implies sums_products::<T, A>(
        whole.pairs(a, b, q),
        #[trigger] c[q],
    ) by {
        lemma_plain_pairs(m1 + m2, n, k, a, b, q);
        if q < m1 * n {
            lemma_plain_pairs(m1, n, k, a.take(m1 * k), b, q);
            assert forall|p: int| 0 <= p < k implies plain_stack(m1, n, k).pairs(
                a.take(m1 * k),
                b,
                q,
            )[p] == whole.pairs(a, b, q)[p] by {
                assert(0 <= (q / n) * k + p < m1 * k) by (nonlinear_arith)
                    requires
                        0 <= q < m1 * n,
                        0 < n,
                        0 <= p < k,
                ;
            }
            assert(plain_stack(m1, n, k).pairs(a.take(m1 * k), b, q) =~= whole.pairs(a, b, q));
            assert(c[q] == c1[q]);
        } else {
            let z = q - m1 * n;
            let tail = a.skip(m1 * k);
            lemma_plain_pairs(m2, n, k, tail, b, z);
            assert(q / n == m1 + z / n && q % n == z % n) by (nonlinear_arith)
                requires
                    q == m1 * n + z,
                    0 < n,
                    0 <= z,
            ;
            assert forall|p: int| 0 <= p < k implies plain_stack(m2, n, k).pairs(tail, b, z)[p]
                == whole.pairs(a, b, q)[p] by {
                assert(0 <= (z / n) * k + p < m2 * k && (m1 + z / n) * k == m1 * k + (z / n) * k)
                    by (nonlinear_arith)
                    requires
                        0 <= z < m2 * n,
                        0 < n,
                        0 <= p < k,
                ;
            }
            assert(plain_stack(m2, n, k).pairs(tail, b, z) =~= whole.pairs(a, b, q));
            assert(c[q] == c2[z]);
        }
    }
}

/// A product for every element of a batch.
pub open spec fn batch_stack(count: usize, m: int, n: int, k: int) -> Stack {
    Stack { m, n, k, a_batch: seq![count], b_batch: seq![count] }
}

/// Every element of a batch has its own matrices.
proof fn lemma_batch_source(count: usize, at: int)
    requires
        0 <= at < count,
    ensures
        source_rank(seq![count], joined(seq![count], seq![count]), at) == at,
{
    let s = seq![count];
    assert(joined(s, s) =~= s);
    assert(s.drop_last() =~= Seq::<usize>::empty());
    assert(at / (count as int) == 0 && at % (count as int) == at) by (nonlinear_arith)
        requires
            0 <= at < count,
    ;
    assert(unravel(s, at) =~= seq![at]) by {
        assert(unravel(s.drop_last(), at / (count as int)) =~= Seq::<int>::empty());
        assert(unravel(s, at) == unravel(s.drop_last(), at / (count as int)).push(
            at % (count as int),
        ));
    }
    let idx = narrowed(s, unravel(s, at));
    assert(idx =~= seq![at]);
    assert(idx.drop_last() =~= Seq::<int>::empty());
    assert(ravel(s.drop_last(), idx.drop_last()) == 0);
    assert(0 * (count as int) == 0) by (nonlinear_arith);
}

/// The pairs of an element of a batch.
proof fn lemma_batch_pairs<T>(
    count: usize,
    m: int,
    n: int,
    k: int,
    a: Seq<T>,
    b: Seq<T>,
    q: int,
)
    requires
        0 < m,
        0 < n,
        0 <= k,
        0 <= q < count * (m * n),
    ensures
        ({
            let at = q / (m * n);
            let z = q % (m * n);
            batch_stack(count, m, n, k).pairs(a, b, q) == Seq::new(
                k as nat,
                |p: int|
                    (
                        a[at * (m * k) + (z / n) * k + p],
                        b[at * (k * n) + z % n + p * n],
                    ),
            )
        }),
{
    let at = q / (m * n);
    let z = q % (m * n);
    let w = m * n;
    assert(0 < w) by (nonlinear_arith)
        requires
            0 < m,
            0 < n,
            w == m * n,
    ;
    assert(0 <= q / w < count) by (nonlinear_arith)
        requires
            0 <= q < count * w,
            0 < w,
    ;
    lemma_batch_source(count, at);
    assert(batch_stack(count, m, n, k).pairs(a, b, q) =~= Seq::new(
        k as nat,
        |p: int| (a[at * (m * k) + (z / n) * k + p], b[at * (k * n) + z % n + p * n]),
    ));
}

/// A place in one part of a batch, counted from the start of the whole.
proof fn lemma_batch_shift(from: int, m: int, n: int, k: int, q: int)
    requires
        0 < m,
        0 < n,
        0 <= k,
        0 <= from,
        0 <= q,
    ensures
        ({
            let w = m * n;
            let whole = from * w + q;
            &&& whole / w == from + q / w
            &&& whole % w == q % w
            &&& (from + q / w) * (m * k) == from * (m * k) + (q / w) * (m * k)
            &&& (from + q / w) * (k * n) == from * (k * n) + (q / w) * (k * n)
        }),
{
    let w = m * n;
    assert(0 < w) by (nonlinear_arith)
        requires
            0 < m,
            0 < n,
            w == m * n,
    ;
    let whole = from * w + q;
    assert(whole / w == from + q / w && whole % w == q % w) by (nonlinear_arith)
        requires
            whole == from * w + q,
            0 < w,
            0 <= q,
    ;
    let at = q / w;
    let x = m * k;
    let y = k * n;
    assert((from + at) * x == from * x + at * x && (from + at) * y == from * y + at * y)
        by (nonlinear_arith);
}

/// Bounds of the places that an element of a batch reads.
proof fn lemma_batch_reach(count: int, m: int, n: int, k: int, q: int, p: int)
    requires
        0 < m,
        0 < n,
        0 <= p < k,
        0 <= q < count * (m * n),
    ensures
        ({
            let at = q / (m * n);
            let z = q % (m * n);
            &&& 0 <= at * (m * k) + (z / n) * k + p < count * (m * k)
            &&& 0 <= at * (k * n) + z % n + p * n < count * (k * n)
        }),
{
    let w = m * n;
    assert(0 < w) by (nonlinear_arith)
        requires
            0 < m,
            0 < n,
            w == m * n,
    ;
    let at = q / w;
    let z = q % w;
    assert(0 <= at < count && 0 <= z < w) by (nonlinear_arith)
        requires
            0 <= q < count * w,
            0 < w,
            at == q / w,
            z == q % w,
    ;
    let i = z / n;
    let j = z % n;
    assert(0 <= i < m && 0 <= j < n) by (nonlinear_arith)
        requires
            0 <= z < m * n,
            0 < n,
            i == z / n,
            j == z % n,
    ;
    let x = m * k;
    let y = k * n;
    assert(0 <= i * k + p < x) by (nonlinear_arith)
        requires
            0 <= i < m,
            0 <= p < k,
            x == m * k,
    ;
    assert(0 <= j + p * n < y) by (nonlinear_arith)
        requires
            0 <= j < n,
            0 <= p < k,
            y == k * n,
    ;
    assert(0 <= at * x && at * x + x <= count * x && 0 <= at * y && at * y + y <= count * y)
        by (nonlinear_arith)
        requires
            0 <= at < count,
            0 <= x,
            0 <= y,
    ;
}

/// The products of a batch may be computed in two spans of the batch: the answers for the spans, one
/// after the other, are the answer for the batch.
pub proof fn law_batch_splits<T, A: Arith<T>>(
    n1: usize,
    n2: usize,
    m: int,
    n: int,
    k: int,
    a: Seq<T>,
    b: Seq<T>,
    c1: Seq<T>,
    c2: Seq<T>,
)
    requires
        0 < m && 0 < n && 0 <= k,
        n1 + n2 <= usize::MAX,
        a.len() == (n1 + n2) * (m * k),
        b.len() == (n1 + n2) * (k * n),
        c1.len() == n1 * (m * n),
        c2.len() == n2 * (m * n),
        multiplies::<T, A>(
            batch_stack(n1, m, n, k),
            a.take(n1 * (m * k)),
            b.take(n1 * (k * n)),
            c1,
        ),
        multiplies::<T, A>(
            batch_stack(n2, m, n, k),
            a.skip(n1 * (m * k)),
            b.skip(n1 * (k * n)),
            c2,
        ),
    ensures
        multiplies::<T, A>(batch_stack((n1 + n2) as usize, m, n, k), a, b, c1 + c2),
{
    let c = c1 + c2;
    let count = (n1 + n2) as usize;
    let whole = batch_stack(count, m, n, k);
    let w = m * n;
    let x = m * k;
    let y = k * n;
    assert(count * w == n1 * w + n2 * w && count * x == n1 * x + n2 * x && count * y == n1 * y + n2
        * y && 0 <= n1 * x && 0 <= n1 * y && 0 <= n2 * x && 0 <= n2 * y) by (nonlinear_arith)
        requires
            count == n1 + n2,
            0 <= n1,
            0 <= n2,
            x == m * k,
            y == k * n,
            0 < m,
            0 < n,
            0 <= k,
    ;
    let a1 = a.take(n1 * x);
    let b1 = b.take(n1 * y);
    let a2 = a.skip(n1 * x);
    let b2 = b.skip(n1 * y);
    assert forall|q: int| 0 <= q < c.len() implies sums_products::<T, A>(
        whole.pairs(a, b, q),
        #[trigger] c[q],
    ) by {
        lemma_batch_pairs(count, m, n, k, a, b, q);
        if q < n1 * w {
            lemma_batch_pairs(n1, m, n, k, a1, b1, q);
            assert forall|p: int| 0 <= p < k implies batch_stack(n1, m, n, k).pairs(a1, b1, q)[p]
                == whole.pairs(a, b, q)[p] by {
                lemma_batch_reach(n1 as int, m, n, k, q, p);
            }
            assert(batch_stack(n1, m, n, k).pairs(a1, b1, q) =~= whole.pairs(a, b, q));
            assert(c[q] == c1[q]);
        } else {
            let z = q - n1 * w;
            lemma_batch_pairs(n2, m, n, k, a2, b2, z);
            lemma_batch_shift(n1 as int, m, n, k, z);
            assert forall|p: int| 0 <= p < k implies batch_stack(n2, m, n, k).pairs(a2, b2, z)[p]
                == whole.pairs(a, b, q)[p] by {
                lemma_batch_reach(n2 as int, m, n, k, z, p);
            }
            assert(batch_stack(n2, m, n, k).pairs(a2, b2, z) =~= whole.pairs(a, b, q));
            assert(c[q] == c2[z]);
        }
    }
}

/// What the answer of a device comes to.
pub open spec fn finish_out<S: Scalars>(d: DimsModel, cv: Seq<S::F>, r: Outcome<S>) -> bool {
    let shape = final_shape(d);
    if fits(shape) && cv.len() != volume(shape) {
        r is Err && r->Err_0.says(
            ErrorKind::Shape,
            "gpu.matmul"@,
            "GPU produced "@ + decimal(cv.len()) + " elements, expected "@ + decimal(volume(shape)),
        )
    } else {
        from_f32s_out::<S>(cv, shape, r)
    }
}

/// Makes a tensor of the answer of a device.
pub fn finish<S: Scalars>(d: &MatmulDims, cv: Vec<S::F>) -> (r: Result<Tensor<S>, Error>)
    ensures
        finish_out::<S>(d@, cv@, outcome(r)),
{
    let mut shape: Vec<usize> = copied(d.batch.as_slice());
    if !d.left {
        shape.push(d.m);
    }
    if !d.right {
        shape.push(d.n);
    }
    assert(shape@ =~= final_shape(d@));
    let want: usize = match numel(shape.as_slice()) {
        Ok(n) => n,
        Err(e) => {
            return Err(e);
        },
    };
    if cv.len() != want {
        let mut text: String = with_two_numbers(
            "GPU produced ",
            cv.len(),
            " elements, expected ",
            want,
        );
        return Err(Error::shape("gpu.matmul", text));
    }
    Tensor::from_slice_f32(cv.as_slice(), shape.as_slice())
}

/// What the answers of several devices come to, from the `i`-th on: the first error, or the tensor of
/// all of them in order.
pub open spec fn gathered_out<S: Scalars>(
    d: DimsModel,
    answers: Seq<Result<Vec<S::F>, Error>>,
    i: int,
    done: Seq<S::F>,
    r: Outcome<S>,
) -> bool
    decreases answers.len() - i,
{
    if i >= answers.len() {
        finish_out::<S>(d, done, r)
    } else {
        match answers[i] {
            Ok(v) => gathered_out::<S>(d, answers, i + 1, done + v@, r),
            Err(e) => r == Outcome::<S>::Err(e),
        }
    }
}

/// Puts the answers of several devices together.
pub fn gather_answers<S: Scalars>(d: &MatmulDims, answers: Vec<Result<Vec<S::F>, Error>>) -> (r:
    Result<Tensor<S>, Error>)
    ensures
        gathered_out::<S>(d@, answers@, 0, Seq::empty(), outcome(r)),
{
    let ghost given = answers@;
    let mut rest: Vec<Result<Vec<S::F>, Error>> = answers;
    let mut all: Vec<S::F> = Vec::new();
    let mut i: usize = 0;
    let mut failed: bool = false;
    assert(all@ =~= Seq::<S::F>::empty());
    while i < rest.len() && !failed
        invariant
            rest@ == given,
            i <= given.len(),
            failed ==> i < given.len() && given[i as int] is Err,
            forall|r: Outcome<S>|
                gathered_out::<S>(d@, given, i as int, all@, r) ==> #[trigger] gathered_out::<S>(
                    d@,
                    given,
                    0,
                    Seq::empty(),
                    r,
                ),
        decreases given.len() - i + (if failed {
            0int
        } else {
            1int
        }),
    {
        let ghost before = all@;
        match &rest[i] {
            Ok(v) => {
                let mut part: Vec<S::F> = copied(v.as_slice());
                all.append(&mut part);
                proof {
                    assert(all@ =~= before + v@);
                    assert forall|r: Outcome<S>|
                        gathered_out::<S>(d@, given, i + 1, all@, r) implies
                        #[trigger] gathered_out::<S>(d@, given, 0, Seq::empty(), r) by {
                        assert(gathered_out::<S>(d@, given, i as int, before, r));
                    }
                }
                i = i + 1;
            },
            Err(_) => {
                failed = true;
            },
        }
    }
    if failed {
        match rest.remove(i) {
            Err(e) => {
                let r: Result<Tensor<S>, Error> = Err(e);
                assert(gathered_out::<S>(d@, given, i as int, all@, outcome(r)));
                return r;
            },
            Ok(_) => {},
        }
    }
    let ghost list = all@;
    let r: Result<Tensor<S>, Error> = finish(d, all);
    assert(gathered_out::<S>(d@, given, i as int, list, outcome(r)));
    r
}

/// The part of the first axis from `start` to `end`, of three axes.
pub open spec fn slab(start: int, end: int) -> Seq<Range3> {
    seq![
        (Some(start as isize), Some(end as isize), Some(1isize)),
        (None, None, None),
        (None, None, None),
    ]
}

/// The rows from `start` to `end`.
pub open spec fn rows_between(start: int, end: int) -> Seq<Range3> {
    seq![(Some(start as isize), Some(end as isize), Some(1isize)), (None, None, None)]
}

/// What a span of a batch comes to; a batch of one serves every span.
pub open spec fn batch_slice_out<S: Scalars>(
    t: Model<S>,
    start: usize,
    end: usize,
    total: usize,
    r: Outcome<S>,
) -> bool {
    if t.shape.len() != 3 {
        r is Err && r->Err_0.says(ErrorKind::Shape, "matmul_cpu_gpu"@, "expected rank-3 batch"@)
    } else if t.shape[0] == total {
        cut_out::<S>("matmul_cpu_gpu"@, t, slab(start as int, end as int), r)
    } else if t.shape[0] == 1 {
        gives(r, t)
    } else {
        r is Err && r->Err_0.says(
            ErrorKind::Shape,
            "matmul_cpu_gpu"@,
            "batch broadcast is not cleanly sliceable"@,
        )
    }
}

/// A span of a batch.
pub fn batch_slice<S: Scalars>(t: &Tensor<S>, start: usize, end: usize, total: usize) -> (r: Result<
    Tensor<S>,
    Error,
>)
    ensures
        batch_slice_out::<S>(t@, start, end, total, outcome(r)),
{
    if t.rank() != 3 {
        return Err(Error::shape("matmul_cpu_gpu", "expected rank-3 batch".to_owned()));
    }
    if t.shape()[0] == total {
        let mut ranges: Vec<Range3> = Vec::new();
        ranges.push((Some(start as isize), Some(end as isize), Some(1)));
        ranges.push((None, None, None));
        ranges.push((None, None, None));
        assert(ranges@ =~= slab(start as int, end as int));
        return cut("matmul_cpu_gpu", t, ranges.as_slice());
    }
    if t.shape()[0] == 1 {
        return Ok(t.clone());
    }
    Err(Error::shape("matmul_cpu_gpu", "batch broadcast is not cleanly sliceable".to_owned()))
}

fn row_slice<S: Scalars>(t: &Tensor<S>, start: usize, end: usize) -> (r: Result<Tensor<S>, Error>)
    ensures
        cut_out::<S>("matmul_cpu_gpu"@, t@, rows_between(start as int, end as int), outcome(r)),
{
    let mut ranges: Vec<Range3> = Vec::new();
    ranges.push((Some(start as isize), Some(end as isize), Some(1)));
    ranges.push((None, None, None));
    assert(ranges@ =~= rows_between(start as int, end as int));
    cut("matmul_cpu_gpu", t, ranges.as_slice())
}

/// The product that a job asks for.
pub open spec fn job_stack(j: Job) -> Stack {
    if j.batch@.len() > 0 {
        batch_stack(j.batch@[0], j.m as int, j.n as int, j.k as int)
    } else {
        plain_stack(j.m as int, j.n as int, j.k as int)
    }
}

/// How many matrices a job asks for.
pub open spec fn job_matrices(j: Job) -> int {
    if j.batch@.len() > 0 {
        j.batch@[0] as int
    } else {
        1
    }
}

/// `c` answers the job `j` on the operands `a` and `b`: it holds the product of the job's spans.
pub open spec fn answers_job<T, A: Arith<T>>(j: Job, a: Seq<T>, b: Seq<T>, c: Seq<T>) -> bool {
    &&& c.len() == job_matrices(j) * (j.m * j.n)
    &&& multiplies::<T, A>(
        job_stack(j),
        a.subrange(j.a_from as int, j.a_to as int),
        b.subrange(j.b_from as int, j.b_to as int),
        c,
    )
}

/// The whole product, its batch in one row.
pub open spec fn whole_stack(d: DimsModel) -> Stack {
    if d.batch.len() > 0 {
        batch_stack(volume(d.batch) as usize, d.m as int, d.n as int, d.k as int)
    } else {
        plain_stack(d.m as int, d.n as int, d.k as int)
    }
}

/// The first `i` answers, one after the other.
pub open spec fn joined_answers<T>(answers: Seq<Seq<T>>, i: int) -> Seq<T>
    decreases i,
{
    if i <= 0 {
        Seq::empty()
    } else {
        joined_answers(answers, i - 1) + answers[i - 1]
    }
}

/// The operands hold the matrices of the whole batch.
pub open spec fn operands_fit<T>(d: DimsModel, a: Seq<T>, b: Seq<T>) -> bool {
    &&& a.len() == volume(d.batch) * (d.m * d.k)
    &&& b.len() == volume(d.batch) * (d.k * d.n)
}

/// Every job of the plan for `devices` devices has its answer.
pub open spec fn all_answered<T, A: Arith<T>>(
    d: DimsModel,
    devices: usize,
    a: Seq<T>,
    b: Seq<T>,
    jobs: Seq<Job>,
    answers: Seq<Seq<T>>,
) -> bool {
    &&& jobs.len() == job_count(d, devices)
    &&& answers.len() == jobs.len()
    &&& forall|i: int| 0 <= i < jobs.len() ==> job_at(d, devices, i, #[trigger] jobs[i])
    &&& forall|i: int|
        0 <= i < jobs.len() ==> answers_job::<T, A>(#[trigger] jobs[i], a, b, answers[i])
}

/// The answers to the first jobs over spans of the batch are the product of what they span.
proof fn lemma_batch_answers<T, A: Arith<T>>(
    d: DimsModel,
    devices: usize,
    a: Seq<T>,
    b: Seq<T>,
    jobs: Seq<Job>,
    answers: Seq<Seq<T>>,
    i: int,
)
    requires
        spans_fit(d),
        devices >= 1,
        d.batch.len() > 0,
        operands_fit(d, a, b),
        all_answered::<T, A>(d, devices, a, b, jobs, answers),
        0 <= i <= jobs.len(),
    ensures
        ({
            let at = part_start(volume(d.batch) as int, job_count(d, devices), i);
            let c = joined_answers(answers, i);
            &&& 0 <= at <= volume(d.batch)
            &&& c.len() == at * (d.m * d.n)
            &&& multiplies::<T, A>(
                batch_stack(at as usize, d.m as int, d.n as int, d.k as int),
                a.take(at * (d.m * d.k)),
                b.take(at * (d.k * d.n)),
                c,
            )
        }),
    decreases i,
{
    let total = volume(d.batch) as int;
    let parts = job_count(d, devices);
    law_parts_tile(total, parts, if i < parts {
        i
    } else {
        i - 1
    });
    let w = d.m * d.n;
    let x = d.m * d.k;
    let y = d.k * d.n;
    assert(1 <= x && total <= total * x) by (nonlinear_arith)
        requires
            x == d.m * d.k,
            1 <= d.m,
            1 <= d.k,
            0 <= total,
    ;
    if i == 0 {
        assert(0 * w == 0) by (nonlinear_arith);
    } else {
        lemma_batch_answers::<T, A>(d, devices, a, b, jobs, answers, i - 1);
        law_parts_tile(total, parts, i - 1);
        let from = part_start(total, parts, i - 1);
        let to = part_start(total, parts, i);
        let j = jobs[i - 1];
        assert(job_at(d, devices, i - 1, j));
        assert(answers_job::<T, A>(j, a, b, answers[i - 1]));
        let n2 = to - from;
        assert(0 <= from * x <= to * x <= total * x && 0 <= from * y <= to * y <= total * y && to * w
            == from * w + n2 * w && to * x == from * x + n2 * x && to * y == from * y + n2 * y)
            by (nonlinear_arith)
            requires
                0 <= from <= to <= total,
                n2 == to - from,
                x >= 0,
                y >= 0,
        ;
        let ta = a.take(to * x);
        let tb = b.take(to * y);
        assert(ta.take(from * x) =~= a.take(from * x));
        assert(tb.take(from * y) =~= b.take(from * y));
        assert(ta.skip(from * x) =~= a.subrange(j.a_from as int, j.a_to as int));
        assert(tb.skip(from * y) =~= b.subrange(j.b_from as int, j.b_to as int));
        law_batch_splits::<T, A>(
            from as usize,
            n2 as usize,
            d.m as int,
            d.n as int,
            d.k as int,
            ta,
            tb,
            joined_answers(answers, i - 1),
            answers[i - 1],
        );
    }
}

/// The answers to the first jobs over spans of rows are the product of what they span.
proof fn lemma_row_answers<T, A: Arith<T>>(
    d: DimsModel,
    devices: usize,
    a: Seq<T>,
    b: Seq<T>,
    jobs: Seq<Job>,
    answers: Seq<Seq<T>>,
    i: int,
)
    requires
        spans_fit(d),
        devices >= 1,
        d.batch.len() == 0,
        operands_fit(d, a, b),
        all_answered::<T, A>(d, devices, a, b, jobs, answers),
        0 <= i <= jobs.len(),
    ensures
        ({
            let at = part_start(d.m as int, job_count(d, devices), i);
            let c = joined_answers(answers, i);
            &&& 0 <= at <= d.m
            &&& c.len() == at * d.n
            &&& multiplies::<T, A>(
                plain_stack(at, d.n as int, d.k as int),
                a.take(at * d.k),
                b,
                c,
            )
        }),
    decreases i,
{
    let total = d.m as int;
    let parts = job_count(d, devices);
    law_parts_tile(total, parts, if i < parts {
        i
    } else {
        i - 1
    });
    let n = d.n as int;
    let k = d.k as int;
    if i == 0 {
        assert(0 * n == 0) by (nonlinear_arith);
    } else {
        lemma_row_answers::<T, A>(d, devices, a, b, jobs, answers, i - 1);
        law_parts_tile(total, parts, i - 1);
        let from = part_start(total, parts, i - 1);
        let to = part_start(total, parts, i);
        let j = jobs[i - 1];
        assert(job_at(d, devices, i - 1, j));
        assert(answers_job::<T, A>(j, a, b, answers[i - 1]));
        let m2 = to - from;
        assert(0 <= from * k <= to * k <= total * k && to * n == from * n + m2 * n && (from + m2) * k
            == to * k && 1 * (m2 * n) == m2 * n && 1 * (total * k) == total * k && 1 * (k * n) == k
            * n) by (nonlinear_arith)
            requires
                0 <= from <= to <= total,
                m2 == to - from,
                k >= 0,
        ;
        let ta = a.take(to * k);
        assert(ta.take(from * k) =~= a.take(from * k));
        assert(ta.skip(from * k) =~= a.subrange(j.a_from as int, j.a_to as int));
        assert(b.subrange(0, k * n) =~= b);
        law_rows_split::<T, A>(
            from,
            m2,
            n,
            k,
            ta,
            b,
            joined_answers(answers, i - 1),
            answers[i - 1],
        );
    }
}

/// Whatever the number of devices, the answers to the jobs of the plan, one after the other, are the
/// whole product: no part is lost, repeated or out of order.
pub proof fn law_plan_computes_the_product<T, A: Arith<T>>(
    d: DimsModel,
    devices: usize,
    a: Seq<T>,
    b: Seq<T>,
    jobs: Seq<Job>,
    answers: Seq<Seq<T>>,
)
    requires
        spans_fit(d),
        devices >= 1,
        operands_fit(d, a, b),
        all_answered::<T, A>(d, devices, a, b, jobs, answers),
    ensures
        joined_answers(answers, answers.len() as int).len() == volume(d.batch) * (d.m * d.n),
        multiplies::<T, A>(whole_stack(d), a, b, joined_answers(answers, answers.len() as int)),
{
    let parts = job_count(d, devices);
    let m = d.m as int;
    let n = d.n as int;
    let k = d.k as int;
    assert(1 * (m * k) == m * k && 1 * (k * n) == k * n && 1 * (m * n) == m * n)
        by (nonlinear_arith);
    if d.batch.len() > 0 {
        lemma_batch_answers::<T, A>(d, devices, a, b, jobs, answers, parts);
        law_parts_tile(volume(d.batch) as int, parts, parts - 1);
        assert(a.take(a.len() as int) =~= a);
        assert(b.take(b.len() as int) =~= b);
    } else {
        lemma_row_answers::<T, A>(d, devices, a, b, jobs, answers, parts);
        law_parts_tile(m, parts, parts - 1);
        assert(a.take(a.len() as int) =~= a);
    }
}

/// What the devices answered, where all did.
pub open spec fn answer_lists<T>(answers: Seq<Result<Vec<T>, Error>>) -> Seq<Seq<T>> {
    Seq::new(answers.len(), |i: int| answers[i]->Ok_0@)
}

/// Answers without an error are joined.
proof fn lemma_gathered_join<S: Scalars>(
    d: DimsModel,
    answers: Seq<Result<Vec<S::F>, Error>>,
    i: int,
    r: Outcome<S>,
)
    requires
        0 <= i <= answers.len(),
        forall|j: int| 0 <= j < answers.len() ==> #[trigger] answers[j] is Ok,
        gathered_out::<S>(d, answers, i, joined_answers(answer_lists(answers), i), r),
    ensures
        finish_out::<S>(d, joined_answers(answer_lists(answers), answers.len() as int), r),
    decreases answers.len() - i,
{
    if i < answers.len() {
        assert(answers[i] is Ok);
        lemma_gathered_join::<S>(d, answers, i + 1, r);
    }
}

/// The result has as many elements as the product has.
pub(crate) proof fn lemma_final_volume<S: Scalars>(a: Model<S>, b: Model<S>)
    requires
        dims_of::<S>(a, b) is Some,
    ensures
        ({
            let d = dims_of::<S>(a, b)->0;
            volume(final_shape(d)) == volume(d.batch) * (d.m * d.n)
        }),
{
    let d = dims_of::<S>(a, b)->0;
    let rows = if d.left {
        d.batch
    } else {
        d.batch.push(d.m)
    };
    assert(d.left ==> d.m == 1);
    assert(d.right ==> d.n == 1);
    assert(d.batch.push(d.m).drop_last() =~= d.batch);
    assert(rows.push(d.n).drop_last() =~= rows);
    let v = volume(d.batch) as int;
    let m = d.m as int;
    let n = d.n as int;
    assert(volume(rows) == v * m) by {
        assert(v * 1 == v) by (nonlinear_arith);
        assert(volume(d.batch.push(d.m)) == volume(d.batch) * d.m);
    }
    assert(volume(rows.push(d.n)) == volume(rows) * d.n);
    assert((v * m) * n == v * (m * n) && (v * m) * 1 == v * m) by (nonlinear_arith);
}

/// The devices were given the work of the product of `a` and `b`, all of them answered, and `r` is
/// what the answers come to.
pub open spec fn computed_on<S: Scalars>(
    op: Seq<char>,
    a: Model<S>,
    b: Model<S>,
    devices: usize,
    w: GpuWork<S::F>,
    jobs: Seq<Job>,
    answers: Seq<Result<Vec<S::F>, Error>>,
    r: Outcome<S>,
) -> bool {
    &&& offloads::<S>(a, b) && devices >= 1
    &&& gpu_work_out::<S>(op, a, b, devices, Ok(w))
    &&& spans_fit(w.dims@) && operands_fit(w.dims@, w.operands.a@, w.operands.b@)
    &&& forall|j: int| 0 <= j < answers.len() ==> #[trigger] answers[j] is Ok
    &&& all_answered::<S::F, S>(
        w.dims@,
        devices,
        w.operands.a@,
        w.operands.b@,
        jobs,
        answer_lists(answers),
    )
    &&& gathered_out::<S>(w.dims@, answers, 0, Seq::empty(), r)
}

/// A product on any number of devices is the whole product, in the shape of the CPU product.
pub proof fn law_devices_compute_the_product<S: Scalars>(
    op: Seq<char>,
    a: Model<S>,
    b: Model<S>,
    devices: usize,
    w: GpuWork<S::F>,
    jobs: Seq<Job>,
    answers: Seq<Result<Vec<S::F>, Error>>,
    r: Outcome<S>,
)
    requires
        computed_on::<S>(op, a, b, devices, w, jobs, answers, r),
        fits(result_shape(a.shape, b.shape)),
    ensures
        r is Ok,
        r->Ok_0.plain(result_shape(a.shape, b.shape)) && r->Ok_0.valid(),
        r->Ok_0.elems() == r->Ok_0.data && r->Ok_0.data is F32,
        r->Ok_0.data->F32_0.len() == volume(result_shape(a.shape, b.shape)),
        multiplies::<S::F, S>(
            whole_stack(w.dims@),
            w.operands.a@,
            w.operands.b@,
            r->Ok_0.data->F32_0,
        ),
{
    let d = w.dims@;
    law_same_shape_as_cpu::<S>(a, b);
    lemma_final_volume::<S>(a, b);
    law_plan_computes_the_product::<S::F, S>(
        d,
        devices,
        w.operands.a@,
        w.operands.b@,
        jobs,
        answer_lists(answers),
    );
    assert(joined_answers(answer_lists(answers), 0) =~= Seq::<S::F>::empty());
    lemma_gathered_join::<S>(d, answers, 0, r);
    assert(answer_lists(answers).len() == answers.len());
}

/// Every inner product has one result.
pub open spec fn one_sum<T, A: Arith<T>>() -> bool {
    forall|pairs: Seq<(T, T)>, x: T, y: T|
        #![trigger sums_products::<T, A>(pairs, x), sums_products::<T, A>(pairs, y)]
        sums_products::<T, A>(pairs, x) && sums_products::<T, A>(pairs, y) ==> x == y
}

/// The number of devices does not matter: where every inner product has one result, a product on
/// `n1` devices is the product on `n2` devices, element by element.
pub proof fn law_devices_agree<S: Scalars>(
    op: Seq<char>,
    a: Model<S>,
    b: Model<S>,
    w: GpuWork<S::F>,
    n1: usize,
    jobs1: Seq<Job>,
    answers1: Seq<Result<Vec<S::F>, Error>>,
    r1: Outcome<S>,
    n2: usize,
    jobs2: Seq<Job>,
    answers2: Seq<Result<Vec<S::F>, Error>>,
    r2: Outcome<S>,
)
    requires
        computed_on::<S>(op, a, b, n1, w, jobs1, answers1, r1),
        computed_on::<S>(op, a, b, n2, w, jobs2, answers2, r2),
        fits(result_shape(a.shape, b.shape)),
        one_sum::<S::F, S>(),
    ensures
        r1 is Ok && r2 is Ok,
        r1->Ok_0.shape == r2->Ok_0.shape,
        r1->Ok_0.elems() == r2->Ok_0.elems(),
{
    law_devices_compute_the_product::<S>(op, a, b, n1, w, jobs1, answers1, r1);
    law_devices_compute_the_product::<S>(op, a, b, n2, w, jobs2, answers2, r2);
    let x = r1->Ok_0.data->F32_0;
    let y = r2->Ok_0.data->F32_0;
    let s = whole_stack(w.dims@);
    assert forall|q: int| 0 <= q < x.len() implies x[q] == y[q] by {
        assert(sums_products::<S::F, S>(s.pairs(w.operands.a@, w.operands.b@, q), x[q]));
        assert(sums_products::<S::F, S>(s.pairs(w.operands.a@, w.operands.b@, q), y[q]));
    }
    assert(x =~= y);
    assert(joined_answers(answer_lists(answers1), 0) =~= Seq::<S::F>::empty());
    assert(joined_answers(answer_lists(answers2), 0) =~= Seq::<S::F>::empty());
    lemma_gathered_join::<S>(w.dims@, answers1, 0, r1);
    lemma_gathered_join::<S>(w.dims@, answers2, 0, r2);
}

/// What is split between the CPU and the GPUs: the rows of a single product, or the batch. Vectors and
/// broadcast batches are not split.
pub open spec fn shared_count<S: Scalars>(a: Model<S>, b: Model<S>) -> Option<usize> {
    match dims_of::<S>(a, b) {
        None => None,
        Some(d) => if d.left || d.right {
            None
        } else if a.shape.len() == 2 && b.shape.len() == 2 {
            Some(d.m)
        } else if a.shape.len() == 3 && b.shape.len() == 2 && volume(d.batch) == a.shape[0] {
            Some(a.shape[0])
        } else if a.shape.len() == 3 && b.shape.len() == 3 && volume(d.batch) == a.shape[0] && (
        b.shape[0] == a.shape[0] || b.shape[0] == 1) {
            Some(a.shape[0])
        } else {
            None
        },
    }
}

/// The CPU's share: one part of as many as there are GPUs and one more. There is no split where that
/// is nothing.
pub open spec fn cpu_share<S: Scalars>(a: Model<S>, b: Model<S>, gpus: usize) -> Option<usize> {
    match shared_count::<S>(a, b) {
        None => None,
        Some(total) => {
            let end = total as int / (gpus + 1);
            if gpus == 0 || total < 2 || end == 0 || end == total {
                None
            } else {
                Some(end as usize)
            }
        },
    }
}

/// What a count of work that is shared comes to.
fn count_shared<S: Scalars>(a: &Tensor<S>, b: &Tensor<S>) -> (r: Option<usize>)
    ensures
        r == shared_count::<S>(a@, b@),
{
    let d: MatmulDims = match matmul_dims(a, b) {
        Some(d) => d,
        None => {
            return None;
        },
    };
    if d.left || d.right {
        return None;
    }
    let batch: usize = match numel(d.batch.as_slice()) {
        Ok(c) => c,
        Err(_) => {
            return None;
        },
    };
    if a.rank() == 2 && b.rank() == 2 {
        return Some(d.m);
    }
    if a.rank() == 3 && b.rank() == 2 && batch == a.shape()[0] {
        return Some(batch);
    }
    if a.rank() == 3 && b.rank() == 3 && batch == a.shape()[0] && (b.shape()[0] == batch
        || b.shape()[0] == 1) {
        return Some(batch);
    }
    None
}

/// The operands of both halves of a split product.
pub struct Halves<S: Scalars> {
    pub cpu_a: Tensor<S>,
    pub cpu_b: Tensor<S>,
    pub gpu_a: Tensor<S>,
    pub gpu_b: Tensor<S>,
}

/// The left operand's half from `from` to `to`.
pub open spec fn left_half_out<S: Scalars>(
    a: Model<S>,
    from: usize,
    to: usize,
    total: usize,
    r: Outcome<S>,
) -> bool {
    if a.shape.len() == 2 {
        cut_out::<S>("matmul_cpu_gpu"@, a, rows_between(from as int, to as int), r)
    } else {
        batch_slice_out::<S>(a, from, to, total, r)
    }
}

/// The right operand's half: all of a matrix, and of a batch the same span.
pub open spec fn right_half_out<S: Scalars>(
    b: Model<S>,
    from: usize,
    to: usize,
    total: usize,
    r: Outcome<S>,
) -> bool {
    if b.shape.len() == 2 {
        gives(r, b)
    } else {
        batch_slice_out::<S>(b, from, to, total, r)
    }
}

fn left_half<S: Scalars>(a: &Tensor<S>, from: usize, to: usize, total: usize) -> (r: Result<
    Tensor<S>,
    Error,
>)
    ensures
        left_half_out::<S>(a@, from, to, total, outcome(r)),
{
    if a.rank() == 2 {
        row_slice(a, from, to)
    } else {
        batch_slice(a, from, to, total)
    }
}

fn right_half<S: Scalars>(b: &Tensor<S>, from: usize, to: usize, total: usize) -> (r: Result<
    Tensor<S>,
    Error,
>)
    ensures
        right_half_out::<S>(b@, from, to, total, outcome(r)),
{
    if b.rank() == 2 {
        Ok(b.clone())
    } else {
        batch_slice(b, from, to, total)
    }
}

/// Whether such a half can be had, and what it is.
pub open spec fn halves_of<S: Scalars>(
    a: Model<S>,
    b: Model<S>,
    end: usize,
    total: usize,
    r: Option<Halves<S>>,
) -> bool {
    match r {
        Some(h) => {
            &&& left_half_out::<S>(a, 0, end, total, Ok(h.cpu_a@))
            &&& left_half_out::<S>(a, end, total, total, Ok(h.gpu_a@))
            &&& right_half_out::<S>(b, 0, end, total, Ok(h.cpu_b@))
            &&& right_half_out::<S>(b, end, total, total, Ok(h.gpu_b@))
        },
        None => exists|e: Error| #[trigger] half_fails::<S>(a, b, end, total, e),
    }
}

/// One of the halves cannot be had.
pub open spec fn half_fails<S: Scalars>(
    a: Model<S>,
    b: Model<S>,
    end: usize,
    total: usize,
    e: Error,
) -> bool {
    ||| left_half_out::<S>(a, 0, end, total, Err(e))
    ||| left_half_out::<S>(a, end, total, total, Err(e))
    ||| right_half_out::<S>(b, 0, end, total, Err(e))
    ||| right_half_out::<S>(b, end, total, total, Err(e))
}

/// What the split of a product between the CPU and the GPUs comes to.
pub open spec fn split_out<S: Scalars>(
    a: Model<S>,
    b: Model<S>,
    gpus: usize,
    r: Option<Halves<S>>,
) -> bool {
    match cpu_share::<S>(a, b, gpus) {
        None => r is None,
        Some(end) => halves_of::<S>(a, b, end, shared_count::<S>(a, b)->0, r),
    }
}

/// Splits a large product between the CPU and the GPUs, where it splits cleanly.
pub fn matmul_cpu_gpu<S: Scalars>(a: &Tensor<S>, b: &Tensor<S>, gpus: usize) -> (r: Option<
    Halves<S>,
>)
    ensures
        split_out::<S>(a@, b@, gpus, r),
{
    if gpus == 0 {
        return None;
    }
    let total: usize = match count_shared(a, b) {
        Some(t) => t,
        None => {
            return None;
        },
    };
    if total < 2 {
        return None;
    }
    let parts: u128 = gpus as u128 + 1;
    let end: usize = (total as u128 / parts) as usize;
    if end == 0 || end == total {
        return None;
    }
    let cpu_a: Tensor<S> = match left_half(a, 0, end, total) {
        Ok(t) => t,
        Err(e) => {
            assert(half_fails::<S>(a@, b@, end, total, e));
            return None;
        },
    };
    let gpu_a: Tensor<S> = match left_half(a, end, total, total) {
        Ok(t) => t,
        Err(e) => {
            assert(half_fails::<S>(a@, b@, end, total, e));
            return None;
        },
    };
    let cpu_b: Tensor<S> = match right_half(b, 0, end, total) {
        Ok(t) => t,
        Err(e) => {
            assert(half_fails::<S>(a@, b@, end, total, e));
            return None;
        },
    };
    let gpu_b: Tensor<S> = match right_half(b, end, total, total) {
        Ok(t) => t,
        Err(e) => {
            assert(half_fails::<S>(a@, b@, end, total, e));
            return None;
        },
    };
    Some(Halves { cpu_a, cpu_b, gpu_a, gpu_b })
}

/// What two halves of a product come to: the first error, or both one after the other.
pub open spec fn halves_joined_out<S: Scalars>(
    cpu: Outcome<S>,
    gpu: Outcome<S>,
    r: Outcome<S>,
) -> bool {
    match cpu {
        Err(e) => r == Outcome::<S>::Err(e),
        Ok(c) => match gpu {
            Err(e) => r == Outcome::<S>::Err(e),
            Ok(g) => join_out::<S>("matmul_cpu_gpu"@, seq![c, g], 0, r),
        },
    }
}

/// Puts the halves of a split product together.
pub fn join_halves<S: Scalars>(
    cpu: Result<Tensor<S>, Error>,
    gpu: Result<Tensor<S>, Error>,
) -> (r: Result<Tensor<S>, Error>)
    ensures
        halves_joined_out::<S>(outcome(cpu), outcome(gpu), outcome(r)),
{
    match cpu {
        Ok(c) => match gpu {
            Ok(g) => join("matmul_cpu_gpu", &c, &g, 0),
            Err(e) => Err(e),
        },
        Err(e) => Err(e),
    }
}

/// What has been tried of a product, and failed.
pub enum Tried {
    Nothing,
    Shared,
    Devices,
}

/// Where a product is computed.
pub enum Route<S: Scalars> {
    /// Part of it on the CPU, the rest on all devices.
    Share(Halves<S>),
    /// On all devices.
    Many,
    /// On the best device.
    One,
    /// On the CPU.
    Here,
}

/// The route that leaves the CPU out.
pub open spec fn device_route<S: Scalars>(gpus: usize) -> Route<S> {
    if gpus > 1 {
        Route::Many
    } else {
        Route::One
    }
}

/// Where a product is computed after `tried`: a large one is shared between the CPU and the devices
/// where it splits cleanly, then left to the devices, and the CPU takes what is small or has failed.
pub open spec fn route_out<S: Scalars>(
    a: Model<S>,
    b: Model<S>,
    gpus: usize,
    tried: Tried,
    r: Route<S>,
) -> bool {
    if !offloads::<S>(a, b) || tried is Devices {
        r is Here
    } else if tried is Shared {
        r == device_route::<S>(gpus)
    } else {
        exists|o: Option<Halves<S>>| #[trigger]
            split_out::<S>(a, b, gpus, o) && r == match o {
                Some(h) => Route::Share(h),
                None => device_route::<S>(gpus),
            }
    }
}

/// Where a product is computed next, with `gpus` devices.
pub fn route<S: Scalars>(a: &Tensor<S>, b: &Tensor<S>, gpus: usize, tried: Tried) -> (r: Route<S>)
    ensures
        route_out::<S>(a@, b@, gpus, tried, r),
{
    if !should_offload_matmul(a, b) {
        return Route::Here;
    }
    match tried {
        Tried::Devices => {
            return Route::Here;
        },
        Tried::Shared => {},
        Tried::Nothing => match matmul_cpu_gpu(a, b, gpus) {
            Some(h) => {
                return Route::Share(h);
            },
            None => {},
        },
    }
    if gpus > 1 {
        Route::Many
    } else {
        Route::One
    }
}

} // verus!
