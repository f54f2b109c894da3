//! Views of a tensor, and what they read.
use vstd::prelude::*;

use crate::device::Device;
use crate::dtype::Dtype;
use crate::error::{Error, ErrorKind};
use crate::index::{
    chosen, distinct_axes, dot, fits, in_bounds, lemma_distinct_axes_cover, lemma_dot_concat,
    lemma_dot_padded, lemma_dot_spread, lemma_origin, lemma_ravel, lemma_spread, origin, spread,
    volume,
};
use crate::scalar::Scalars;
use crate::shape::{
    aligned, axis_at, axis_error, axis_ok, broadcast_error, broadcast_strides, compatible,
    law_reshape_keeps_volume, lemma_row_strides, normalize_axis, numel, reshape_error, reshape_ok,
    reshaped, resolve_reshape, row_major_strides, row_strides, stretched, zero_index,
};
use crate::text::{decimal, push_decimal, push_signed, signed_decimal};
use crate::storage::Data;
use crate::tensor::{
    lemma_contiguous_slots, lemma_reaches, numel_error, Tensor, TensorModel, Model, Outcome,
    outcome,
};

verus! {

/// Why a view of a tensor that is not contiguous was refused.
pub open spec fn view_layout_error(e: Error) -> bool {
    e.says(ErrorKind::Shape, "view"@, "view requires a contiguous tensor"@)
}

/// The value of a reshape: the same elements in the same order under another shape.
pub open spec fn reshape_of<F, D>(
    m: TensorModel<F, D>,
    new: Seq<isize>,
    r: TensorModel<F, D>,
) -> bool {
    let shape = reshaped(m.shape, new);
    &&& r.elems() == m.elems()
    &&& if m.contiguous() {
        r == m.with_layout(m.offset, shape, row_strides(shape))
    } else {
        r == (TensorModel {
            data: m.elems(),
            offset: 0,
            shape,
            strides: row_strides(shape),
            device: Device::Cpu,
            in_graph: false,
            leaf: None,
            grad_fn: None,
            placement: "cpu"@,
        })
    }
}

/// A contiguous view under another shape of the same volume shows the same elements.
proof fn lemma_reshape<F, D>(m: TensorModel<F, D>, new: Seq<isize>)
    requires
        m.valid(),
        m.contiguous(),
        reshape_ok(m.shape, new),
    ensures
        ({
            let shape = reshaped(m.shape, new);
            let r = m.with_layout(m.offset, shape, row_strides(shape));
            r.valid() && r.elems() == m.elems()
        }),
{
    let shape = reshaped(m.shape, new);
    let r = m.with_layout(m.offset, shape, row_strides(shape));
    law_reshape_keeps_volume(m.shape, new);
    assert(m.shape.take(m.shape.len() as int) =~= m.shape);
    lemma_contiguous_slots(m);
    assert forall|idx: Seq<int>| #[trigger] in_bounds(r.shape, idx) implies 0 <= r.slot(idx)
        < r.data.len() by {
        lemma_ravel(shape, idx);
        lemma_row_strides(shape, idx);
    }
    lemma_contiguous_slots(r);
    match m.data {
        Data::F32(v) => {
            assert(r.f32s() =~= m.f32s());
        },
        Data::F64(v) => {
            assert(r.f64s() =~= m.f64s());
        },
        Data::I64(v) => {
            assert(r.i64s() =~= m.i64s());
        },
    }
}

impl<S: Scalars> Tensor<S> {
    /// The elements as one slice of the buffer, where they lie in row-major order from its start.
    pub fn as_slice_f32(&self) -> (r: Result<&[S::F], Error>)
        ensures
            r matches Ok(v) ==> self@.data is F32 && self@.contiguous() && fits(self@.shape) && v@
                == self@.f32s(),
            r matches Err(e) ==> if !(self@.data is F32) {
                e.says(ErrorKind::Dtype, "storage"@, "expected f32"@)
            } else if !self@.contiguous() {
                e.says(ErrorKind::Shape, "as_slice"@, "as_slice requires a contiguous tensor"@)
            } else {
                !fits(self@.shape) && numel_error(e)
            },
            self@.valid(),
    {
        let all: &[S::F] = match self.storage_f32() {
            Ok(v) => v,
            Err(e) => {
                return Err(e);
            },
        };
        if !self.is_contiguous() {
            return Err(Error::shape("as_slice", "as_slice requires a contiguous tensor".to_owned()));
        }
        let n: usize = match numel(self.shape()) {
            Ok(n) => n,
            Err(e) => {
                return Err(e);
            },
        };
        proof {
            assert(self@.shape.take(self@.shape.len() as int) =~= self@.shape);
            lemma_contiguous_slots(self@);
            assert(all@.subrange(0, n as int) =~= self@.f32s());
        }
        Ok(vstd::slice::slice_subrange(all, 0, n))
    }

    /// Extract the single element. Errors if `numel != 1`.
    pub fn item_f32(&self) -> (r: Result<S::F, Error>)
        ensures
            r matches Ok(v) ==> fits(self@.shape) && volume(self@.shape) == 1 && match self@.elems() {
                Data::F32(x) => v == x[0],
                Data::F64(x) => call_ensures(S::narrow, (x[0],), v),
                Data::I64(x) => call_ensures(S::integer_f32, (x[0],), v),
            },
            r matches Err(e) ==> !(fits(self@.shape) && volume(self@.shape) == 1) && e.says(
                ErrorKind::Shape,
                "item"@,
                "numel must be 1"@,
            ),
    {
        if self.numel() != 1 {
            return Err(Error::shape("item", "numel must be 1".to_owned()));
        }
        let first: Vec<usize> = zero_index(self.rank());
        let s: &[usize] = self.shape();
        proof {
            lemma_origin(self@.shape, self@.strides);
            lemma_reaches(self@, origin(self@.shape.len()));
        }
        match self.dtype() {
            Dtype::F32 => self.read_f32_at(first.as_slice()),
            Dtype::F64 => match self.read_f64_at(first.as_slice()) {
                Ok(x) => Ok(S::narrow(x)),
                Err(e) => Err(e),
            },
            Dtype::I64 => match self.read_i64_at(first.as_slice()) {
                Ok(x) => Ok(S::integer_f32(x)),
                Err(e) => Err(e),
            },
        }
    }

    /// The elements on a buffer of their own.
    fn repack(&self) -> (r: Result<Self, Error>)
        ensures
            r matches Ok(t) ==> fits(self@.shape) && t@.plain(self@.shape) && t@.data
                == self@.elems() && t@.elems() == self@.elems() && t@.valid(),
            r matches Err(e) ==> !fits(self@.shape) && numel_error(e),
    {
        match self.dtype() {
            Dtype::F32 => match self.to_vec_f32() {
                Ok(v) => Self::from_vec_f32(v, self.shape()),
                Err(e) => Err(e),
            },
            Dtype::F64 => match self.to_vec_f64() {
                Ok(v) => Self::from_vec_f64(v, self.shape()),
                Err(e) => Err(e),
            },
            Dtype::I64 => match self.to_vec_i64() {
                Ok(v) => Self::from_vec_i64(v, self.shape()),
                Err(e) => Err(e),
            },
        }
    }

    /// Materialize a contiguous copy if needed.
    pub fn to_contiguous(&self) -> (r: Result<Self, Error>)
        ensures
            r matches Ok(t) ==> t@.elems() == self@.elems() && t@.valid() && t@.contiguous() && if
                self@.contiguous() {
                t@ == self@
            } else {
                fits(self@.shape) && t@.plain(self@.shape) && t@.data == self@.elems()
            },
            r matches Err(e) ==> !self@.contiguous() && !fits(self@.shape) && numel_error(e),
    {
        if self.is_contiguous() {
            return Ok(self.clone());
        }
        self.repack()
    }

    /// Deep copy of the values; the result is outside the graph.
    pub fn copy(&self) -> (r: Result<Self, Error>)
        ensures
            r matches Ok(t) ==> fits(self@.shape) && t@.plain(self@.shape) && t@.data
                == self@.elems() && t@.elems() == self@.elems() && t@.valid(),
            r matches Err(e) ==> !fits(self@.shape) && numel_error(e),
    {
        self.repack()
    }

    /// Move/copy to `device`. There is no GPU storage.
    pub fn to(&self, device: Device) -> (r: Result<Self, Error>)
        ensures
            r matches Ok(t) ==> (device == self@.device || device != Device::Gpu) && t@ == self@,
            r matches Err(e) ==> device == Device::Gpu && self@.device != Device::Gpu && e.says(
                ErrorKind::Unsupported,
                "to"@,
                "dtype="@ + self@.dtype().variant() + " device="@ + device.variant() + ": "@
                    + "gpu feature off by default; CPU-first v1"@,
            ),
    {
        if device == self.device() {
            return Ok(self.clone());
        }
        if device == Device::Gpu {
            return Err(
                Error::unsupported(
                    "to",
                    self.dtype(),
                    device,
                    "gpu feature off by default; CPU-first v1".to_owned(),
                ),
            );
        }
        Ok(self.clone())
    }

    /// View-only reshape; errors if not contiguous.
    pub fn view_as(&self, new_shape: &[isize]) -> (r: Result<Self, Error>)
        ensures
            r matches Ok(t) ==> self@.contiguous() && reshape_ok(self@.shape, new_shape@)
                && reshape_of(self@, new_shape@, t@) && t@.valid(),
            r matches Err(e) ==> if !self@.contiguous() {
                view_layout_error(e)
            } else {
                !reshape_ok(self@.shape, new_shape@) && reshape_error(
                    e,
                    self@.shape,
                    new_shape@,
                    "view"@,
                )
            },
    {
        if !self.is_contiguous() {
            return Err(Error::shape("view", "view requires a contiguous tensor".to_owned()));
        }
        let shape: Vec<usize> = match resolve_reshape(self.shape(), new_shape, "view") {
            Ok(s) => s,
            Err(e) => {
                return Err(e);
            },
        };
        let strides: Vec<isize> = row_major_strides(shape.as_slice());
        proof {
            lemma_reshape(self@, new_shape@);
        }
        Ok(self.relayout(self.storage_offset(), shape, strides))
    }

    /// Reshape, copying if a view is impossible. One `-1` allowed.
    pub fn reshape(&self, new_shape: &[isize]) -> (r: Result<Self, Error>)
        ensures
            reshape_out::<S>(self@, new_shape@, outcome(r)),
    {
        if self.is_contiguous() {
            self.view_as(new_shape)
        } else {
            match self.to_contiguous() {
                Ok(t) => t.view_as(new_shape),
                Err(e) => Err(e),
            }
        }
    }

    /// Reshape to rank-1.
    pub fn flatten(&self) -> (r: Result<Self, Error>)
        ensures
            r matches Ok(t) ==> fits(self@.shape) && reshape_of(self@, seq![-1isize], t@)
                && t@.shape == seq![volume(self@.shape) as usize] && t@.valid(),
            r matches Err(e) ==> !fits(self@.shape) && numel_error(e),
    {
        let request: [isize; 1] = [-1];
        let s: &[usize] = self.shape();
        proof {
            assert(request@ =~= seq![-1isize]);
            lemma_flatten(self@.shape);
        }
        self.reshape(&request)
    }
}

proof fn lemma_flatten(shape: Seq<usize>)
    ensures
        reshape_ok(shape, seq![-1isize]) == fits(shape),
        fits(shape) ==> reshaped(shape, seq![-1isize]) == seq![volume(shape) as usize],
{
    let new = seq![-1isize];
    assert(new.drop_last() =~= Seq::<isize>::empty());
    assert(crate::shape::spelled(Seq::<isize>::empty()) == 1);
    assert(crate::shape::spelled(new) == 1);
    assert(new[0] == -1);
    assert(crate::shape::infers(new));
    assert(crate::shape::reshape_entry_ok(new, 0));
    assert(crate::shape::reshape_entries_ok(new));
    assert(shape.take(shape.len() as int) =~= shape);
    if fits(shape) {
        assert(reshaped(shape, new) =~= seq![volume(shape) as usize]);
    }
}

/// Entry `i` of a permutation names an axis that no earlier entry names.
pub open spec fn permute_entry_ok(axes: Seq<isize>, rank: int, i: int) -> bool {
    &&& axis_ok(axes[i] as int, rank)
    &&& forall|j: int|
        0 <= j < i ==> axis_at(#[trigger] axes[j] as int, rank) != axis_at(axes[i] as int, rank)
}

/// Every axis is named once.
pub open spec fn permute_ok(axes: Seq<isize>, rank: int) -> bool {
    &&& axes.len() == rank
    &&& forall|i: int| 0 <= i < rank ==> #[trigger] permute_entry_ok(axes, rank, i)
}

/// The axes that the entries name.
pub open spec fn resolved_axes(axes: Seq<isize>, rank: int) -> Seq<int> {
    Seq::new(axes.len(), |i: int| axis_at(axes[i] as int, rank))
}

/// Why a permutation was refused.
pub open spec fn permute_error(e: Error, axes: Seq<isize>, rank: int) -> bool {
    if axes.len() != rank {
        e.says(ErrorKind::Shape, "permute"@, "axes rank mismatch"@)
    } else {
        exists|i: int|
            {
                &&& 0 <= i < rank
                &&& !(#[trigger] permute_entry_ok(axes, rank, i))
                &&& forall|j: int| 0 <= j < i ==> #[trigger] permute_entry_ok(axes, rank, j)
                &&& if axis_ok(axes[i] as int, rank) {
                    e.says(ErrorKind::Shape, "permute"@, "duplicate axis"@)
                } else {
                    axis_error(e, axes[i] as int, rank, "permute"@)
                }
            }
    }
}

/// The same view with only some of its axes, in another order.
pub open spec fn with_axes<F, D>(m: TensorModel<F, D>, axes: Seq<int>) -> TensorModel<F, D> {
    m.with_layout(m.offset, chosen(m.shape, axes), chosen(m.strides, axes))
}

/// A view through some of the axes, the others of size one, reads what the whole view reads with
/// zero on the axes that are left out.
pub proof fn law_axes_read<F, D>(m: TensorModel<F, D>, axes: Seq<int>, idx: Seq<int>)
    requires
        m.valid(),
        distinct_axes(axes, m.shape.len()),
        forall|q: int|
            0 <= q < m.shape.len() && !axes.contains(q) ==> #[trigger] m.shape[q] == 1,
        in_bounds(with_axes(m, axes).shape, idx),
    ensures
        in_bounds(m.shape, spread(idx, axes, m.shape.len())),
        with_axes(m, axes).slot(idx) == m.slot(spread(idx, axes, m.shape.len())),
{
    let n = m.shape.len();
    let whole = spread(idx, axes, n);
    lemma_spread(idx, axes, n);
    assert forall|q: int| 0 <= q < n implies 0 <= #[trigger] whole[q] < m.shape[q] by {
        if axes.contains(q) {
            let i = choose|i: int| 0 <= i < axes.len() && axes[i] == q;
            assert(whole[axes[i]] == idx[i]);
            assert(0 <= idx[i] < with_axes(m, axes).shape[i]);
        } else {
            assert(m.shape[q] == 1);
        }
    }
    lemma_dot_spread(idx, axes, m.strides);
}

/// Such a view stays inside the buffer.
pub(crate) proof fn lemma_axes_valid<F, D>(m: TensorModel<F, D>, axes: Seq<int>)
    requires
        m.valid(),
        distinct_axes(axes, m.shape.len()),
        forall|q: int|
            0 <= q < m.shape.len() && !axes.contains(q) ==> #[trigger] m.shape[q] == 1,
    ensures
        with_axes(m, axes).valid(),
{
    let r = with_axes(m, axes);
    assert forall|idx: Seq<int>| #[trigger] in_bounds(r.shape, idx) implies 0 <= r.slot(idx)
        < r.data.len() by {
        law_axes_read(m, axes, idx);
    }
}

/// A permuted view reads at `idx` what the view reads with coordinate `idx[i]` on the axis that
/// entry `i` names.
pub proof fn law_permute_reads<F, D>(m: TensorModel<F, D>, axes: Seq<isize>, idx: Seq<int>)
    requires
        m.valid(),
        permute_ok(axes, m.shape.len() as int),
        in_bounds(with_axes(m, resolved_axes(axes, m.shape.len() as int)).shape, idx),
    ensures
        ({
            let p = resolved_axes(axes, m.shape.len() as int);
            let whole = spread(idx, p, m.shape.len());
            &&& in_bounds(m.shape, whole)
            &&& forall|i: int| 0 <= i < p.len() ==> #[trigger] whole[p[i]] == idx[i]
            &&& with_axes(m, p).slot(idx) == m.slot(whole)
        }),
{
    let rank = m.shape.len() as int;
    let p = resolved_axes(axes, rank);
    lemma_permutation(axes, rank);
    lemma_distinct_axes_cover(p, m.shape.len());
    law_axes_read(m, p, idx);
    lemma_spread(idx, p, m.shape.len());
}

proof fn lemma_permutation(axes: Seq<isize>, rank: int)
    requires
        rank >= 0,
        permute_ok(axes, rank),
    ensures
        distinct_axes(resolved_axes(axes, rank), rank as nat),
{
    let p = resolved_axes(axes, rank);
    assert forall|i: int| 0 <= i < p.len() implies 0 <= #[trigger] p[i] < rank by {
        assert(permute_entry_ok(axes, rank, i));
    }
    assert forall|i: int, j: int| 0 <= i < j < p.len() implies p[i] != p[j] by {
        assert(permute_entry_ok(axes, rank, j));
        assert(axis_at(axes[i] as int, rank) != axis_at(axes[j] as int, rank));
    }
}

impl<S: Scalars> Tensor<S> {
    /// Permute axes (view, in the graph as it is).
    pub fn permute(&self, axes: &[isize]) -> (r: Result<Self, Error>)
        ensures
            r matches Ok(t) ==> permute_ok(axes@, self@.shape.len() as int) && t@ == with_axes(
                self@,
                resolved_axes(axes@, self@.shape.len() as int),
            ) && t@.valid(),
            r matches Err(e) ==> !permute_ok(axes@, self@.shape.len() as int) && permute_error(
                e,
                axes@,
                self@.shape.len() as int,
            ),
    {
        let rank: usize = self.rank();
        if axes.len() != rank {
            return Err(Error::shape("permute", "axes rank mismatch".to_owned()));
        }
        let shape: &[usize] = self.shape();
        let strides: &[isize] = self.strides();
        let mut seen: Vec<bool> = Vec::new();
        let mut z: usize = 0;
        while z < rank
            invariant
                z <= rank,
                seen@.len() == z,
                forall|q: int| 0 <= q < z ==> !#[trigger] seen@[q],
            decreases rank - z,
        {
            seen.push(false);
            z = z + 1;
        }
        let mut new_shape: Vec<usize> = Vec::new();
        let mut new_strides: Vec<isize> = Vec::new();
        let ghost p = resolved_axes(axes@, rank as int);
        let mut i: usize = 0;
        while i < rank
            invariant
                i <= rank,
                rank == self@.shape.len(),
                rank == axes@.len(),
                rank == strides@.len(),
                shape@ == self@.shape,
                strides@ == self@.strides,
                p == resolved_axes(axes@, rank as int),
                seen@.len() == rank,
                new_shape@.len() == i,
                new_strides@.len() == i,
                forall|j: int| 0 <= j < i ==> #[trigger] permute_entry_ok(axes@, rank as int, j),
                forall|q: int|
                    0 <= q < rank ==> (#[trigger] seen@[q] <==> exists|j: int|
                        0 <= j < i && axis_at(#[trigger] axes@[j] as int, rank as int) == q),
                forall|j: int| 0 <= j < i ==> #[trigger] new_shape@[j] == self@.shape[p[j]],
                forall|j: int| 0 <= j < i ==> #[trigger] new_strides@[j] == self@.strides[p[j]],
            decreases rank - i,
        {
            let ax: usize = match normalize_axis(axes[i], rank, "permute") {
                Ok(a) => a,
                Err(e) => {
                    proof {
                        assert(!permute_entry_ok(axes@, rank as int, i as int));
                    }
                    return Err(e);
                },
            };
            if seen[ax] {
                proof {
                    let j = choose|j: int|
                        0 <= j < i && axis_at(#[trigger] axes@[j] as int, rank as int) == ax;
                    assert(axis_at(axes@[j] as int, rank as int) == axis_at(
                        axes@[i as int] as int,
                        rank as int,
                    ));
                    assert(!permute_entry_ok(axes@, rank as int, i as int));
                }
                return Err(Error::shape("permute", "duplicate axis".to_owned()));
            }
            proof {
                assert forall|j: int| 0 <= j < i implies axis_at(
                    #[trigger] axes@[j] as int,
                    rank as int,
                ) != axis_at(axes@[i as int] as int, rank as int) by {
                    if axis_at(axes@[j] as int, rank as int) == ax {
                        assert(seen@[ax as int]);
                    }
                }
                assert(permute_entry_ok(axes@, rank as int, i as int));
            }
            let ghost before = seen@;
            seen.set(ax, true);
            new_shape.push(shape[ax]);
            new_strides.push(strides[ax]);
            proof {
                assert forall|q: int| 0 <= q < rank implies (#[trigger] seen@[q] <==> exists|j: int|
                    0 <= j < i + 1 && axis_at(#[trigger] axes@[j] as int, rank as int) == q) by {
                    if q == ax {
                        assert(axis_at(axes@[i as int] as int, rank as int) == q);
                    } else if before[q] {
                        let j = choose|j: int|
                            0 <= j < i && axis_at(#[trigger] axes@[j] as int, rank as int) == q;
                        assert(axis_at(axes@[j] as int, rank as int) == q);
                    }
                }
            }
            i = i + 1;
        }
        proof {
            lemma_permutation(axes@, rank as int);
            lemma_distinct_axes_cover(p, rank as nat);
            lemma_axes_valid(self@, p);
            assert(new_shape@ =~= chosen(self@.shape, p));
            assert(new_strides@ =~= chosen(self@.strides, p));
        }
        Ok(self.relayout(self.storage_offset(), new_shape, new_strides))
    }
}

/// What a slice asks of one axis: start, end and step, each with a default.
pub type Range3 = (Option<isize>, Option<isize>, Option<isize>);

/// The range of axis `k`; axes that are not named are taken whole.
pub open spec fn range_at(ranges: Seq<Range3>, k: int) -> Range3 {
    if k < ranges.len() {
        ranges[k]
    } else {
        (None, None, None)
    }
}

/// The step of a range.
pub open spec fn slice_step(rg: Range3) -> int {
    match rg.2 {
        Some(step) => step as int,
        None => 1,
    }
}

/// `x` held between `low` and `high`.
pub open spec fn held(x: int, low: int, high: int) -> int {
    if x < low {
        low
    } else if x > high {
        high
    } else {
        x
    }
}

/// The first coordinate that a range takes. A negative one counts from the end.
pub open spec fn slice_start(dim: int, rg: Range3) -> int {
    let forward = slice_step(rg) > 0;
    let asked = match rg.0 {
        Some(start) => start as int,
        None => if forward {
            0
        } else {
            dim - 1
        },
    };
    let from_end = if asked < 0 {
        asked + dim
    } else {
        asked
    };
    if forward {
        held(from_end, 0, dim)
    } else {
        held(from_end, -1, dim - 1)
    }
}

/// The coordinate before which a range ends. A negative one that was asked for counts from the
/// end.
pub open spec fn slice_end(dim: int, rg: Range3) -> int {
    let forward = slice_step(rg) > 0;
    let from_end = match rg.1 {
        Some(end) => if end < 0 {
            end + dim
        } else {
            end as int
        },
        None => if forward {
            dim
        } else {
            -1
        },
    };
    if forward {
        held(from_end, 0, dim)
    } else {
        held(from_end, -1, dim - 1)
    }
}

/// How many coordinates a range takes.
pub open spec fn slice_len(dim: int, rg: Range3) -> int {
    let step = slice_step(rg);
    let s = slice_start(dim, rg);
    let e = slice_end(dim, rg);
    if step > 0 {
        if s >= e {
            0
        } else {
            (e - s + step - 1) / step
        }
    } else {
        if s <= e {
            0
        } else {
            (s - e - step - 1) / (-step)
        }
    }
}

/// The coordinates that a slice starts at.
pub open spec fn slice_starts(shape: Seq<usize>, ranges: Seq<Range3>) -> Seq<int> {
    Seq::new(shape.len(), |k: int| slice_start(shape[k] as int, range_at(ranges, k)))
}

/// The dimensions of a slice.
pub open spec fn slice_shape(shape: Seq<usize>, ranges: Seq<Range3>) -> Seq<usize> {
    Seq::new(shape.len(), |k: int| slice_len(shape[k] as int, range_at(ranges, k)) as usize)
}

/// The strides of a slice.
pub open spec fn slice_strides(strides: Seq<isize>, ranges: Seq<Range3>) -> Seq<isize> {
    Seq::new(strides.len(), |k: int| (strides[k] * slice_step(range_at(ranges, k))) as isize)
}

/// No step is zero on the first `n` axes.
pub open spec fn steps_ok(ranges: Seq<Range3>, n: int) -> bool {
    forall|k: int| 0 <= k < n ==> slice_step(#[trigger] range_at(ranges, k)) != 0
}

/// The strides and the slot of the origin that a slice passes through are numbers that a tensor
/// can hold.
pub open spec fn slice_fits<F, D>(m: TensorModel<F, D>, ranges: Seq<Range3>) -> bool {
    let starts = slice_starts(m.shape, ranges);
    forall|k: int|
        0 <= k < m.shape.len() && steps_ok(ranges, k + 1) ==> {
            &&& isize::MIN <= m.strides[k] * slice_step(#[trigger] range_at(ranges, k))
                <= isize::MAX
            &&& isize::MIN <= m.offset + dot(starts.take(k + 1), m.strides.take(k + 1))
                <= usize::MAX
        }
}

/// The view that a slice gives.
pub open spec fn sliced<F, D>(m: TensorModel<F, D>, ranges: Seq<Range3>) -> TensorModel<F, D> {
    m.with_layout(
        m.offset + dot(slice_starts(m.shape, ranges), m.strides),
        slice_shape(m.shape, ranges),
        slice_strides(m.strides, ranges),
    )
}

/// Why a slice was refused.
pub open spec fn slice_refused<F, D>(
    e: Error,
    m: TensorModel<F, D>,
    ranges: Seq<Range3>,
) -> bool {
    if ranges.len() > m.shape.len() {
        e.says(ErrorKind::Shape, "slice"@, "too many ranges"@)
    } else if !steps_ok(ranges, m.shape.len() as int) {
        e.says(ErrorKind::Index, "slice"@, "step must not be 0"@)
    } else {
        &&& sliced(m, ranges).offset < 0
        &&& e.says(ErrorKind::Index, "slice"@, "negative storage offset"@)
    }
}

proof fn lemma_slice_coordinate(dim: int, rg: Range3, i: int)
    requires
        dim >= 0,
        slice_step(rg) != 0,
        0 <= i < slice_len(dim, rg),
    ensures
        0 <= slice_start(dim, rg) + i * slice_step(rg) < dim,
{
    let step = slice_step(rg);
    let s = slice_start(dim, rg);
    let e = slice_end(dim, rg);
    if step > 0 {
        assert(0 <= i * step < e - s) by (nonlinear_arith)
            requires
                0 <= i < (e - s + step - 1) / step,
                step > 0,
        ;
    } else {
        let t = -step;
        assert(0 <= i * t < s - e) by (nonlinear_arith)
            requires
                0 <= i < (s - e + t - 1) / t,
                t > 0,
        ;
        assert(i * step == -(i * t)) by (nonlinear_arith)
            requires
                t == -step,
        ;
    }
}

proof fn lemma_slice_len(dim: int, rg: Range3)
    requires
        dim >= 0,
        slice_step(rg) != 0,
    ensures
        0 <= slice_len(dim, rg) <= dim,
{
    let step = slice_step(rg);
    let s = slice_start(dim, rg);
    let e = slice_end(dim, rg);
    if step > 0 {
        if s < e {
            assert(0 <= (e - s + step - 1) / step <= e - s) by (nonlinear_arith)
                requires
                    step > 0,
                    e - s > 0,
            ;
        }
    } else {
        let t = -step;
        if s > e {
            assert(0 <= (s - e + t - 1) / t <= s - e) by (nonlinear_arith)
                requires
                    t > 0,
                    s - e > 0,
            ;
        }
    }
}

/// A slice reads, at coordinate `i` of an axis, what the view reads `i` steps from the start.
pub proof fn law_slice_reads<F, D>(m: TensorModel<F, D>, ranges: Seq<Range3>, idx: Seq<int>)
    requires
        m.valid(),
        steps_ok(ranges, m.shape.len() as int),
        slice_fits(m, ranges),
        in_bounds(sliced(m, ranges).shape, idx),
    ensures
        ({
            let whole = Seq::new(
                m.shape.len(),
                |k: int|
                    slice_starts(m.shape, ranges)[k] + idx[k] * slice_step(range_at(ranges, k)),
            );
            &&& in_bounds(m.shape, whole)
            &&& sliced(m, ranges).slot(idx) == m.slot(whole)
        }),
{
    let n = m.shape.len();
    let starts = slice_starts(m.shape, ranges);
    let steps = slice_strides(m.strides, ranges);
    let whole = Seq::new(n, |k: int| starts[k] + idx[k] * slice_step(range_at(ranges, k)));
    assert forall|k: int| 0 <= k < n implies 0 <= #[trigger] whole[k] < m.shape[k] by {
        let rg = range_at(ranges, k);
        assert(slice_step(rg) != 0);
        lemma_slice_len(m.shape[k] as int, rg);
        assert(0 <= idx[k] < slice_shape(m.shape, ranges)[k]);
        lemma_slice_coordinate(m.shape[k] as int, rg, idx[k]);
    }
    assert forall|k: int| 0 <= k < n implies #[trigger] whole[k] * m.strides[k] == starts[k]
        * m.strides[k] + idx[k] * steps[k] by {
        let rg = range_at(ranges, k);
        assert(steps_ok(ranges, k + 1));
        let a = starts[k];
        let i = idx[k];
        let t = slice_step(rg);
        let s = m.strides[k] as int;
        assert(steps[k] == s * t);
        assert((a + i * t) * s == a * s + i * (s * t)) by (nonlinear_arith);
    }
    crate::index::lemma_dot_affine(starts, m.strides, idx, steps, whole);
}

pub fn slice_axis(dim: usize, rg: Range3) -> (r: (i128, i128, i128))
    requires
        slice_step(rg) != 0,
    ensures
        r.0 == slice_start(dim as int, rg),
        r.1 == slice_len(dim as int, rg),
        r.2 == slice_step(rg),
{
    let d: i128 = dim as i128;
    let step: i128 = match rg.2 {
        Some(step) => step as i128,
        None => 1,
    };
    let mut s: i128 = match rg.0 {
        Some(start) => start as i128,
        None => if step > 0 {
            0
        } else {
            d - 1
        },
    };
    if s < 0 {
        s = s + d;
    }
    let e: i128 = match rg.1 {
        Some(end) => if end < 0 {
            end as i128 + d
        } else {
            end as i128
        },
        None => if step > 0 {
            d
        } else {
            -1
        },
    };
    if step > 0 {
        let from: i128 = hold(s, 0, d);
        let to: i128 = hold(e, 0, d);
        let len: i128 = if from >= to {
            0
        } else {
            (to - from + step - 1) / step
        };
        (from, len, step)
    } else {
        let from: i128 = hold(s, -1, d - 1);
        let to: i128 = hold(e, -1, d - 1);
        let len: i128 = if from <= to {
            0
        } else {
            (from - to + (-step) - 1) / (-step)
        };
        (from, len, step)
    }
}

fn hold(x: i128, low: i128, high: i128) -> (r: i128)
    ensures
        r == held(x as int, low as int, high as int),
{
    if x < low {
        low
    } else if x > high {
        high
    } else {
        x
    }
}

impl<S: Scalars> Tensor<S> {
    /// Basic slice. Each triple is `(start, end, step)`; `None` means default. Negative step allowed.
    /// The view is outside the graph; for differentiation use [`crate::ad_axes::slice_tracked`].
    pub fn slice(&self, ranges: &[Range3]) -> (r: Result<Self, Error>)
        requires
            ranges@.len() <= self@.shape.len() ==> slice_fits(self@, ranges@),
        ensures
            slice_out::<S>(self@, ranges@, outcome(r)),
    {
        let rank: usize = self.rank();
        if ranges.len() > rank {
            return Err(Error::shape("slice", "too many ranges".to_owned()));
        }
        let old_shape: &[usize] = self.shape();
        let old_strides: &[isize] = self.strides();
        let mut shape: Vec<usize> = Vec::new();
        let mut strides: Vec<isize> = Vec::new();
        let mut offset: i128 = self.storage_offset() as i128;
        let ghost starts = slice_starts(self@.shape, ranges@);
        let mut ax: usize = 0;
        proof {
            assert(starts.take(0).len() == 0);
        }
        while ax < rank
            invariant
                ax <= rank,
                rank == self@.shape.len(),
                rank == self@.strides.len(),
                ranges@.len() <= rank,
                slice_fits(self@, ranges@),
                old_shape@ == self@.shape,
                old_strides@ == self@.strides,
                starts == slice_starts(self@.shape, ranges@),
                steps_ok(ranges@, ax as int),
                offset == self@.offset + dot(
                    starts.take(ax as int),
                    self@.strides.take(ax as int),
                ),
                ax == 0 ==> 0 <= offset <= usize::MAX,
                isize::MIN <= offset <= usize::MAX,
                shape@.len() == ax,
                strides@.len() == ax,
                forall|j: int|
                    0 <= j < ax ==> #[trigger] shape@[j] == slice_shape(self@.shape, ranges@)[j],
                forall|j: int|
                    0 <= j < ax ==> #[trigger] strides@[j] == slice_strides(
                        self@.strides,
                        ranges@,
                    )[j],
            decreases rank - ax,
        {
            let rg: Range3 = if ax < ranges.len() {
                ranges[ax]
            } else {
                (None, None, None)
            };
            assert(rg == range_at(ranges@, ax as int));
            if matches!(rg.2, Some(0)) {
                proof {
                    assert(slice_step(range_at(ranges@, ax as int)) == 0);
                }
                return Err(Error::index("slice", "step must not be 0".to_owned()));
            }
            let dim: usize = old_shape[ax];
            let stride: isize = old_strides[ax];
            let part: (i128, i128, i128) = slice_axis(dim, rg);
            proof {
                assert(steps_ok(ranges@, ax + 1));
                lemma_slice_len(dim as int, rg);
                lemma_start_range(dim, rg);
                assert(starts.take(ax + 1).drop_last() =~= starts.take(ax as int));
                assert(self@.strides.take(ax + 1).drop_last() =~= self@.strides.take(ax as int));
                assert(dot(starts.take(ax + 1), self@.strides.take(ax + 1)) == dot(
                    starts.take(ax as int),
                    self@.strides.take(ax as int),
                ) + part.0 * stride);
                lemma_slice_products(part.0 as int, part.2 as int, stride);
            }
            offset = offset + part.0 * (stride as i128);
            shape.push(part.1 as usize);
            strides.push((stride as i128 * part.2) as isize);
            ax = ax + 1;
        }
        proof {
            assert(starts.take(ax as int) =~= starts);
            assert(self@.strides.take(ax as int) =~= self@.strides);
            assert(shape@ =~= slice_shape(self@.shape, ranges@));
            assert(strides@ =~= slice_strides(self@.strides, ranges@));
        }
        if offset < 0 {
            return Err(Error::index("slice", "negative storage offset".to_owned()));
        }
        proof {
            let m = sliced(self@, ranges@);
            assert forall|idx: Seq<int>| #[trigger] in_bounds(m.shape, idx) implies 0 <= m.slot(idx)
                < m.data.len() by {
                law_slice_reads(self@, ranges@, idx);
            }
        }
        Ok(self.relayout(offset as usize, shape, strides).detach())
    }
}

proof fn lemma_start_range(dim: usize, rg: Range3)
    ensures
        -1 <= slice_start(dim as int, rg) <= dim,
{
}

/// A slice of one axis moves by amounts that fit.
pub proof fn lemma_slice_reach(dim: usize, rg: Range3, stride: isize)
    ensures
        -1 <= slice_start(dim as int, rg) <= dim,
        isize::MIN <= slice_step(rg) <= isize::MAX,
        i128::MIN <= stride * slice_step(rg) <= i128::MAX,
        i128::MIN <= slice_start(dim as int, rg) * stride + isize::MIN,
        slice_start(dim as int, rg) * stride + usize::MAX <= i128::MAX,
{
    lemma_start_range(dim, rg);
    lemma_slice_products(slice_start(dim as int, rg), slice_step(rg), stride);
    let start = slice_start(dim as int, rg);
    assert(-0xffff_ffff_ffff_ffff * 0x8000_0000_0000_0000 <= start * stride) by (nonlinear_arith)
        requires
            -1 <= start <= 0xffff_ffff_ffff_ffff,
            -0x8000_0000_0000_0000 <= stride <= 0x7fff_ffff_ffff_ffff,
    ;
    assert(start * stride <= 0xffff_ffff_ffff_ffff * 0x7fff_ffff_ffff_ffff) by (nonlinear_arith)
        requires
            -1 <= start <= 0xffff_ffff_ffff_ffff,
            -0x8000_0000_0000_0000 <= stride <= 0x7fff_ffff_ffff_ffff,
    ;
}

proof fn lemma_slice_products(start: int, step: int, stride: isize)
    requires
        -1 <= start <= usize::MAX,
        isize::MIN <= step <= isize::MAX,
    ensures
        i128::MIN <= start * stride <= i128::MAX,
        i128::MIN <= stride * step <= i128::MAX,
{
    assert(-0x8000_0000_0000_0000_0000_0000_0000_0000int <= start * stride
        <= 0x7fff_ffff_ffff_ffff_ffff_ffff_ffff_ffffint) by (nonlinear_arith)
        requires
            -1 <= start <= 0xffff_ffff_ffff_ffffint,
            -0x8000_0000_0000_0000int <= stride <= 0x7fff_ffff_ffff_ffffint,
    ;
    assert(-0x8000_0000_0000_0000_0000_0000_0000_0000int <= stride * step
        <= 0x7fff_ffff_ffff_ffff_ffff_ffff_ffff_ffffint) by (nonlinear_arith)
        requires
            -0x8000_0000_0000_0000int <= step <= 0x7fff_ffff_ffff_ffffint,
            -0x8000_0000_0000_0000int <= stride <= 0x7fff_ffff_ffff_ffffint,
    ;
}

/// The axes in order, the last two swapped.
pub open spec fn swapped_axes(rank: nat) -> Seq<int> {
    Seq::new(
        rank,
        |i: int|
            if i == rank - 1 {
                rank - 2
            } else if i == rank - 2 {
                rank - 1
            } else {
                i
            },
    )
}

/// The view with `index` fixed on axis `ax`, which is left out.
pub open spec fn selected<F, D>(m: TensorModel<F, D>, ax: int, index: int) -> TensorModel<F, D> {
    m.with_layout(m.offset + index * m.strides[ax], m.shape.remove(ax), m.strides.remove(ax))
}

/// Why a selection was refused.
pub open spec fn select_error<F, D>(
    e: Error,
    m: TensorModel<F, D>,
    axis: int,
    index: int,
) -> bool {
    let rank = m.shape.len() as int;
    if !axis_ok(axis, rank) {
        axis_error(e, axis, rank, "select"@)
    } else {
        let ax = axis_at(axis, rank);
        let dim = m.shape[ax] as int;
        if !axis_ok(index, dim) {
            e.says(
                ErrorKind::Index,
                "select"@,
                "index "@ + signed_decimal(index) + " out of "@ + decimal(dim as nat),
            )
        } else {
            &&& selected(m, ax, axis_at(index, dim)).offset < 0
            &&& e.says(ErrorKind::Index, "slice"@, "negative storage offset"@)
        }
    }
}

/// A selection reads what the view reads with the index put in.
pub proof fn law_select_reads<F, D>(m: TensorModel<F, D>, ax: int, index: int, idx: Seq<int>)
    requires
        m.valid(),
        0 <= ax < m.shape.len(),
        0 <= index < m.shape[ax],
        in_bounds(selected(m, ax, index).shape, idx),
    ensures
        in_bounds(m.shape, idx.insert(ax, index)),
        selected(m, ax, index).slot(idx) == m.slot(idx.insert(ax, index)),
{
    let whole = idx.insert(ax, index);
    let rest = m.shape.remove(ax);
    assert forall|k: int| 0 <= k < m.shape.len() implies 0 <= #[trigger] whole[k] < m.shape[k] by {
        if k < ax {
            assert(whole[k] == idx[k] && rest[k] == m.shape[k]);
        } else if k > ax {
            assert(whole[k] == idx[k - 1] && rest[k - 1] == m.shape[k]);
        }
    }
    lemma_dot_insert(idx, m.strides.remove(ax), ax, index, m.strides[ax]);
    assert(m.strides.remove(ax).insert(ax, m.strides[ax]) =~= m.strides);
}

/// One axis more adds its own displacement.
proof fn lemma_dot_insert(idx: Seq<int>, strides: Seq<isize>, ax: int, i: int, s: isize)
    requires
        idx.len() == strides.len(),
        0 <= ax <= idx.len(),
    ensures
        dot(idx.insert(ax, i), strides.insert(ax, s)) == dot(idx, strides) + i * s,
{
    let a = idx.take(ax);
    let b = idx.skip(ax);
    let sa = strides.take(ax);
    let sb = strides.skip(ax);
    assert(a + b =~= idx);
    assert(sa + sb =~= strides);
    assert(idx.insert(ax, i) =~= a.push(i) + b);
    assert(strides.insert(ax, s) =~= sa.push(s) + sb);
    lemma_dot_concat(a, sa, b, sb);
    lemma_dot_concat(a.push(i), sa.push(s), b, sb);
    crate::index::lemma_dot_push(a, sa, i, s);
}

/// The view with a size-one axis put in at `ax`.
pub open spec fn unsqueezed<F, D>(m: TensorModel<F, D>, ax: int) -> TensorModel<F, D> {
    m.with_layout(m.offset, m.shape.insert(ax, 1), m.strides.insert(ax, 0))
}

/// A size-one axis changes nothing of what is read.
pub proof fn law_unsqueeze_reads<F, D>(m: TensorModel<F, D>, ax: int, idx: Seq<int>)
    requires
        m.valid(),
        0 <= ax <= m.shape.len(),
        in_bounds(unsqueezed(m, ax).shape, idx),
    ensures
        in_bounds(m.shape, idx.remove(ax)),
        unsqueezed(m, ax).slot(idx) == m.slot(idx.remove(ax)),
{
    let rest = idx.remove(ax);
    let wide = m.shape.insert(ax, 1);
    assert forall|k: int| 0 <= k < m.shape.len() implies 0 <= #[trigger] rest[k] < m.shape[k] by {
        if k < ax {
            assert(rest[k] == idx[k] && wide[k] == m.shape[k]);
            assert(0 <= idx[k] < wide[k]);
        } else {
            assert(rest[k] == idx[k + 1] && wide[k + 1] == m.shape[k]);
            assert(0 <= idx[k + 1] < wide[k + 1]);
        }
    }
    lemma_dot_insert(rest, m.strides, ax, idx[ax], 0);
    assert(rest.insert(ax, idx[ax]) =~= idx);
    let i = idx[ax];
    assert(i * 0 == 0) by (nonlinear_arith);
}

/// The axes of size other than one, in order.
pub open spec fn long_axes(shape: Seq<usize>) -> Seq<int>
    decreases shape.len(),
{
    if shape.len() == 0 {
        Seq::empty()
    } else if shape.last() == 1 {
        long_axes(shape.drop_last())
    } else {
        long_axes(shape.drop_last()).push(shape.len() - 1)
    }
}

/// Every axis but one, in order.
pub open spec fn other_axes(rank: nat, ax: int) -> Seq<int> {
    Seq::new(
        (rank - 1) as nat,
        |i: int|
            if i < ax {
                i
            } else {
                i + 1
            },
    )
}

/// The axes that a squeeze keeps.
pub open spec fn squeezed_axes(shape: Seq<usize>, axis: Option<isize>) -> Seq<int> {
    match axis {
        Some(a) => other_axes(shape.len(), axis_at(a as int, shape.len() as int)),
        None => long_axes(shape),
    }
}

/// A squeeze that is granted.
pub open spec fn squeeze_ok(shape: Seq<usize>, axis: Option<isize>) -> bool {
    axis matches Some(a) ==> axis_ok(a as int, shape.len() as int) && shape[axis_at(
        a as int,
        shape.len() as int,
    )] == 1
}

/// Why a squeeze was refused.
pub open spec fn squeeze_error(e: Error, shape: Seq<usize>, axis: Option<isize>) -> bool {
    let rank = shape.len() as int;
    axis matches Some(a) && if axis_ok(a as int, rank) {
        e.says(ErrorKind::Shape, "squeeze"@, "axis size is not 1"@)
    } else {
        axis_error(e, a as int, rank, "squeeze"@)
    }
}

proof fn lemma_long_axes(shape: Seq<usize>)
    ensures
        distinct_axes(long_axes(shape), shape.len()),
        forall|i: int, j: int|
            0 <= i < j < long_axes(shape).len() ==> long_axes(shape)[i] < long_axes(shape)[j],
        forall|q: int|
            0 <= q < shape.len() && !long_axes(shape).contains(q) ==> #[trigger] shape[q] == 1,
    decreases shape.len(),
{
    if shape.len() > 0 {
        let front = shape.drop_last();
        lemma_long_axes(front);
        let inner = long_axes(front);
        let all = long_axes(shape);
        assert forall|q: int| 0 <= q < shape.len() && !all.contains(q) implies #[trigger] shape[q]
            == 1 by {
            if q < front.len() {
                if inner.contains(q) {
                    let j = choose|j: int| 0 <= j < inner.len() && inner[j] == q;
                    assert(all[j] == q);
                }
                assert(front[q] == 1);
            } else if shape.last() != 1 {
                assert(all[all.len() - 1] == q);
            }
        }
        assert forall|i: int| 0 <= i < all.len() implies 0 <= #[trigger] all[i] < shape.len() by {
            if i < inner.len() {
                assert(all[i] == inner[i]);
            }
        }
    }
}

proof fn lemma_other_axes(shape: Seq<usize>, ax: int)
    requires
        0 <= ax < shape.len(),
    ensures
        distinct_axes(other_axes(shape.len(), ax), shape.len()),
        forall|q: int|
            0 <= q < shape.len() && q != ax ==> #[trigger] other_axes(shape.len(), ax).contains(q),
{
    let axes = other_axes(shape.len(), ax);
    assert forall|q: int| 0 <= q < shape.len() && q != ax implies #[trigger] axes.contains(q) by {
        if q < ax {
            assert(axes[q] == q);
        } else {
            assert(axes[q - 1] == q);
        }
    }
}

/// The view repeated along the axes of `target`.
pub open spec fn broadcasted<F, D>(
    m: TensorModel<F, D>,
    target: Seq<usize>,
) -> TensorModel<F, D> {
    m.with_layout(m.offset, target, stretched(m.shape, m.strides, target))
}

/// The position of the view that a position of the broadcast shows.
pub open spec fn narrowed(shape: Seq<usize>, idx: Seq<int>) -> Seq<int> {
    Seq::new(
        shape.len(),
        |k: int|
            if shape[k] == 1 {
                0
            } else {
                idx[k + idx.len() - shape.len()]
            },
    )
}

/// A broadcast reads, on the axes that it repeats, what the view reads at zero.
pub proof fn law_broadcast_reads<F, D>(m: TensorModel<F, D>, target: Seq<usize>, idx: Seq<int>)
    requires
        m.valid(),
        m.shape.len() <= target.len(),
        compatible(m.shape, target),
        volume(m.shape) == 0 ==> volume(target) == 0,
        in_bounds(target, idx),
    ensures
        in_bounds(m.shape, narrowed(m.shape, idx)),
        broadcasted(m, target).slot(idx) == m.slot(narrowed(m.shape, idx)),
{
    let small = narrowed(m.shape, idx);
    let pad = target.len() - m.shape.len();
    let st = stretched(m.shape, m.strides, target);
    lemma_ravel(target, idx);
    crate::index::lemma_volume_zero(m.shape);
    assert(crate::shape::joint_rank(m.shape, target) == target.len());
    assert forall|k: int| 0 <= k < m.shape.len() implies 0 <= #[trigger] small[k] < m.shape[k] by {
        assert(aligned(m.shape, target.len() as int, k + pad) == m.shape[k]);
        assert(aligned(target, target.len() as int, k + pad) == target[k + pad]);
        assert(0 <= idx[k + pad] < target[k + pad]);
        assert(m.shape[k] != 0);
    }
    assert forall|i: int| 0 <= i < pad implies #[trigger] idx[i] * st[i] == 0 by {
        let x = idx[i];
        assert(x * 0 == 0) by (nonlinear_arith);
    }
    assert forall|i: int| pad <= i < idx.len() implies #[trigger] idx[i] * st[i] == small[i - pad]
        * m.strides[i - pad] by {
        assert(aligned(m.shape, target.len() as int, i) == m.shape[i - pad]);
        if m.shape[i - pad] == 1 {
            let x = idx[i];
            let y = m.strides[i - pad] as int;
            assert(x * 0 == 0 && 0 * y == 0) by (nonlinear_arith);
        }
    }
    lemma_dot_padded(idx, st, small, m.strides, pad);
}

impl<S: Scalars> Tensor<S> {
    /// Swap the last two axes (view, outside the graph; for differentiation use
    /// [`crate::ad::transpose`]).
    pub fn transpose(&self) -> (r: Result<Self, Error>)
        ensures
            transpose_out::<S>(self@, outcome(r)),
    {
        let rank: usize = self.rank();
        if rank < 2 {
            return Err(Error::shape("transpose", "rank must be >= 2".to_owned()));
        }
        let mut shape: Vec<usize> = crate::tensor::copied(self.shape());
        let mut strides: Vec<isize> = crate::tensor::copied(self.strides());
        let (d, e): (usize, usize) = (shape[rank - 1], shape[rank - 2]);
        let (s, t): (isize, isize) = (strides[rank - 1], strides[rank - 2]);
        shape.set(rank - 1, e);
        shape.set(rank - 2, d);
        strides.set(rank - 1, t);
        strides.set(rank - 2, s);
        proof {
            let p = swapped_axes(rank as nat);
            assert(shape@ =~= chosen(self@.shape, p));
            assert(strides@ =~= chosen(self@.strides, p));
            lemma_distinct_axes_cover(p, rank as nat);
            lemma_axes_valid(self@, p);
        }
        Ok(self.relayout(self.storage_offset(), shape, strides).detach())
    }

    /// Integer index on one axis (drops that axis). Out of bounds is an error. The view is outside
    /// the graph.
    pub fn select(&self, axis: isize, index: isize) -> (r: Result<Self, Error>)
        requires
            axis_ok(axis as int, self@.shape.len() as int) ==> ({
                let ax = axis_at(axis as int, self@.shape.len() as int);
                let dim = self@.shape[ax] as int;
                axis_ok(index as int, dim) ==> selected(
                    self@,
                    ax,
                    axis_at(index as int, dim),
                ).offset <= usize::MAX
            }),
        ensures
            r matches Ok(t) ==> {
                let ax = axis_at(axis as int, self@.shape.len() as int);
                let i = axis_at(index as int, self@.shape[ax] as int);
                &&& axis_ok(axis as int, self@.shape.len() as int)
                &&& axis_ok(index as int, self@.shape[ax] as int)
                &&& selected(self@, ax, i).offset >= 0
                &&& t@ == selected(self@, ax, i).detached() && t@.valid()
            },
            r matches Err(e) ==> select_error(e, self@, axis as int, index as int),
    {
        let rank: usize = self.rank();
        let ax: usize = match normalize_axis(axis, rank, "select") {
            Ok(a) => a,
            Err(e) => {
                return Err(e);
            },
        };
        let mut shape: Vec<usize> = crate::tensor::copied(self.shape());
        let mut strides: Vec<isize> = crate::tensor::copied(self.strides());
        let dim: usize = shape[ax];
        let i: i128 = if index < 0 {
            index as i128 + dim as i128
        } else {
            index as i128
        };
        if i < 0 || i >= dim as i128 {
            let mut message: String = "index ".to_owned();
            push_signed(&mut message, index);
            message.append(" out of ");
            push_decimal(&mut message, dim as u128);
            return Err(Error::index("select", message));
        }
        let stride: isize = strides[ax];
        proof {
            lemma_slice_products(i as int, 1, stride);
        }
        let step: i128 = i * (stride as i128);
        let base: usize = self.storage_offset();
        proof {
            lemma_select_range(i as int, stride);
        }
        let offset: i128 = base as i128 + step;
        if offset < 0 {
            return Err(Error::index("slice", "negative storage offset".to_owned()));
        }
        shape.remove(ax);
        strides.remove(ax);
        proof {
            let m = selected(self@, ax as int, i as int);
            assert(shape@ =~= m.shape);
            assert(strides@ =~= m.strides);
            assert forall|idx: Seq<int>| #[trigger] in_bounds(m.shape, idx) implies 0 <= m.slot(idx)
                < m.data.len() by {
                law_select_reads(self@, ax as int, i as int, idx);
            }
        }
        Ok(self.relayout(offset as usize, shape, strides).detach())
    }

    /// Expand to `target` with zero strides on size-1 axes.
    pub fn broadcast_to(&self, target: &[usize]) -> (r: Result<Self, Error>)
        requires
            compatible(self@.shape, target@) ==> self@.shape.len() <= target@.len(),
            compatible(self@.shape, target@) && volume(self@.shape) == 0 ==> volume(target@) == 0,
        ensures
            broadcast_to_out::<S>(self@, target@, outcome(r)),
    {
        let strides: Vec<isize> = match broadcast_strides(self.shape(), self.strides(), target) {
            Ok(s) => s,
            Err(e) => {
                return Err(e);
            },
        };
        proof {
            let m = broadcasted(self@, target@);
            assert forall|idx: Seq<int>| #[trigger] in_bounds(m.shape, idx) implies 0 <= m.slot(idx)
                < m.data.len() by {
                law_broadcast_reads(self@, target@, idx);
            }
        }
        Ok(self.relayout(self.storage_offset(), crate::tensor::copied(target), strides))
    }

    /// Whether some axis longer than one has stride zero.
    pub fn has_zero_stride(&self) -> (r: bool)
        ensures
            r == exists|k: int|
                0 <= k < self@.shape.len() && #[trigger] self@.shape[k] > 1 && self@.strides[k]
                    == 0,
    {
        let shape: &[usize] = self.shape();
        let strides: &[isize] = self.strides();
        let mut k: usize = 0;
        while k < shape.len()
            invariant
                k <= shape@.len(),
                shape@ == self@.shape,
                strides@ == self@.strides,
                shape@.len() == strides@.len(),
                forall|j: int| 0 <= j < k ==> !(#[trigger] shape@[j] > 1 && strides@[j] == 0),
            decreases shape@.len() - k,
        {
            if shape[k] > 1 && strides[k] == 0 {
                assert(self@.shape[k as int] > 1);
                return true;
            }
            k = k + 1;
        }
        false
    }

    /// Insert a size-1 axis.
    pub fn unsqueeze(&self, axis: isize) -> (r: Result<Self, Error>)
        ensures
            unsqueeze_out::<S>(self@, axis as int, outcome(r)),
    {
        let rank: usize = self.rank();
        let a: i128 = if axis < 0 {
            axis as i128 + rank as i128 + 1
        } else {
            axis as i128
        };
        if a < 0 || a > rank as i128 {
            let mut message: String = "axis ".to_owned();
            push_signed(&mut message, axis);
            message.append(" out of 0..=");
            push_decimal(&mut message, rank as u128);
            return Err(Error::shape("unsqueeze", message));
        }
        let ax: usize = a as usize;
        let mut shape: Vec<usize> = crate::tensor::copied(self.shape());
        let mut strides: Vec<isize> = crate::tensor::copied(self.strides());
        shape.insert(ax, 1);
        strides.insert(ax, 0);
        proof {
            let m = unsqueezed(self@, ax as int);
            assert forall|idx: Seq<int>| #[trigger] in_bounds(m.shape, idx) implies 0 <= m.slot(idx)
                < m.data.len() by {
                law_unsqueeze_reads(self@, ax as int, idx);
            }
        }
        Ok(self.relayout(self.storage_offset(), shape, strides))
    }

    /// Remove size-1 axes (`None` = all of them).
    pub fn squeeze(&self, axis: Option<isize>) -> (r: Result<Self, Error>)
        ensures
            squeeze_out::<S>(self@, axis, outcome(r)),
    {
        let rank: usize = self.rank();
        let old_shape: &[usize] = self.shape();
        let old_strides: &[isize] = self.strides();
        let mut shape: Vec<usize> = Vec::new();
        let mut strides: Vec<isize> = Vec::new();
        match axis {
            Some(ax) => {
                let a: usize = match normalize_axis(ax, rank, "squeeze") {
                    Ok(a) => a,
                    Err(e) => {
                        return Err(e);
                    },
                };
                if old_shape[a] != 1 {
                    return Err(Error::shape("squeeze", "axis size is not 1".to_owned()));
                }
                shape = crate::tensor::copied(old_shape);
                strides = crate::tensor::copied(old_strides);
                shape.remove(a);
                strides.remove(a);
                proof {
                    let p = other_axes(rank as nat, a as int);
                    lemma_other_axes(self@.shape, a as int);
                    assert(shape@ =~= chosen(self@.shape, p));
                    assert(strides@ =~= chosen(self@.strides, p));
                }
            },
            None => {
                let mut i: usize = 0;
                proof {
                    assert(self@.shape.take(0).len() == 0);
                }
                while i < rank
                    invariant
                        i <= rank,
                        rank == self@.shape.len(),
                        rank == self@.strides.len(),
                        old_shape@ == self@.shape,
                        old_strides@ == self@.strides,
                        shape@ == chosen(self@.shape, long_axes(self@.shape.take(i as int))),
                        strides@ == chosen(self@.strides, long_axes(self@.shape.take(i as int))),
                    decreases rank - i,
                {
                    proof {
                        assert(self@.shape.take(i + 1).drop_last() =~= self@.shape.take(i as int));
                    }
                    if old_shape[i] != 1 {
                        shape.push(old_shape[i]);
                        strides.push(old_strides[i]);
                    }
                    i = i + 1;
                    proof {
                        let p = long_axes(self@.shape.take(i as int));
                        assert(shape@ =~= chosen(self@.shape, p));
                        assert(strides@ =~= chosen(self@.strides, p));
                    }
                }
                proof {
                    assert(self@.shape.take(rank as int) =~= self@.shape);
                    lemma_long_axes(self@.shape);
                }
            },
        }
        proof {
            lemma_axes_valid(self@, squeezed_axes(self@.shape, axis));
        }
        Ok(self.relayout(self.storage_offset(), shape, strides))
    }
}

/// Why a new axis was refused.
pub open spec fn unsqueeze_error(e: Error, axis: int, rank: nat) -> bool {
    e.says(
        ErrorKind::Shape,
        "unsqueeze"@,
        "axis "@ + signed_decimal(axis) + " out of 0..="@ + decimal(rank),
    )
}

proof fn lemma_select_range(i: int, stride: isize)
    requires
        0 <= i <= usize::MAX,
    ensures
        i128::MIN <= i * stride,
        i * stride + usize::MAX <= i128::MAX,
{
    assert(-0x8000_0000_0000_0000_0000_0000_0000_0000int <= i * stride && i * stride
        + 0xffff_ffff_ffff_ffffint <= 0x7fff_ffff_ffff_ffff_ffff_ffff_ffff_ffffint)
        by (nonlinear_arith)
        requires
            0 <= i <= 0xffff_ffff_ffff_ffffint,
            -0x8000_0000_0000_0000int <= stride <= 0x7fff_ffff_ffff_ffffint,
    ;
}

/// Every item of `y` is the conversion of the item of `x` in its place.
pub open spec fn casts<S: Scalars>(x: Data<S::F, S::D>, y: Data<S::F, S::D>) -> bool {
    match (x, y) {
        (Data::F32(a), Data::F64(b)) => a.len() == b.len() && forall|i: int|
            0 <= i < a.len() ==> call_ensures(S::widen, (a[i],), #[trigger] b[i]),
        (Data::F64(a), Data::F32(b)) => a.len() == b.len() && forall|i: int|
            0 <= i < a.len() ==> call_ensures(S::narrow, (a[i],), #[trigger] b[i]),
        (Data::F32(a), Data::I64(b)) => a.len() == b.len() && forall|i: int|
            0 <= i < a.len() ==> call_ensures(S::truncate_f32, (a[i],), #[trigger] b[i]),
        (Data::I64(a), Data::F32(b)) => a.len() == b.len() && forall|i: int|
            0 <= i < a.len() ==> call_ensures(S::integer_f32, (a[i],), #[trigger] b[i]),
        (Data::F64(a), Data::I64(b)) => a.len() == b.len() && forall|i: int|
            0 <= i < a.len() ==> call_ensures(S::truncate_f64, (a[i],), #[trigger] b[i]),
        (Data::I64(a), Data::F64(b)) => a.len() == b.len() && forall|i: int|
            0 <= i < a.len() ==> call_ensures(S::integer_f64, (a[i],), #[trigger] b[i]),
        _ => x == y,
    }
}

impl<S: Scalars> Tensor<S> {
    /// Convert dtype (new storage unless identical).
    pub fn cast(&self, dtype: Dtype) -> (r: Result<Self, Error>)
        ensures
            r matches Ok(t) ==> t@.dtype() == dtype && t@.valid() && if self@.dtype() == dtype {
                t@ == self@
            } else {
                &&& fits(self@.shape) && t@.plain(self@.shape)
                &&& t@.elems() == t@.data && casts::<S>(self@.elems(), t@.data)
            },
            r matches Err(e) ==> self@.dtype() != dtype && !fits(self@.shape) && numel_error(e),
    {
        if self.dtype() == dtype {
            return Ok(self.clone());
        }
        match (self.dtype(), dtype) {
            (Dtype::F32, Dtype::F64) => {
                let v: Vec<S::F> = match self.to_vec_f32() {
                    Ok(v) => v,
                    Err(e) => {
                        return Err(e);
                    },
                };
                let convert = |i: usize| -> (y: S::D)
                    requires
                        i < v@.len()
                    ensures
                        call_ensures(S::widen, (v@[i as int],), y)
                {
                    S::widen(v[i])
                };
                let w: Vec<S::D> = crate::par::par_fill(v.len(), convert);
                Tensor::from_vec_f64(w, self.shape())
            },
            (Dtype::F64, Dtype::F32) => {
                let v: Vec<S::D> = match self.to_vec_f64() {
                    Ok(v) => v,
                    Err(e) => {
                        return Err(e);
                    },
                };
                let convert = |i: usize| -> (y: S::F)
                    requires
                        i < v@.len()
                    ensures
                        call_ensures(S::narrow, (v@[i as int],), y)
                {
                    S::narrow(v[i])
                };
                let w: Vec<S::F> = crate::par::par_fill(v.len(), convert);
                Tensor::from_vec_f32(w, self.shape())
            },
            (Dtype::F32, Dtype::I64) => {
                let v: Vec<S::F> = match self.to_vec_f32() {
                    Ok(v) => v,
                    Err(e) => {
                        return Err(e);
                    },
                };
                let convert = |i: usize| -> (y: i64)
                    requires
                        i < v@.len()
                    ensures
                        call_ensures(S::truncate_f32, (v@[i as int],), y)
                {
                    S::truncate_f32(v[i])
                };
                let w: Vec<i64> = crate::par::par_fill(v.len(), convert);
                Tensor::from_vec_i64(w, self.shape())
            },
            (Dtype::I64, Dtype::F32) => {
                let v: Vec<i64> = match self.to_vec_i64() {
                    Ok(v) => v,
                    Err(e) => {
                        return Err(e);
                    },
                };
                let convert = |i: usize| -> (y: S::F)
                    requires
                        i < v@.len()
                    ensures
                        call_ensures(S::integer_f32, (v@[i as int],), y)
                {
                    S::integer_f32(v[i])
                };
                let w: Vec<S::F> = crate::par::par_fill(v.len(), convert);
                Tensor::from_vec_f32(w, self.shape())
            },
            (Dtype::F64, Dtype::I64) => {
                let v: Vec<S::D> = match self.to_vec_f64() {
                    Ok(v) => v,
                    Err(e) => {
                        return Err(e);
                    },
                };
                let convert = |i: usize| -> (y: i64)
                    requires
                        i < v@.len()
                    ensures
                        call_ensures(S::truncate_f64, (v@[i as int],), y)
                {
                    S::truncate_f64(v[i])
                };
                let w: Vec<i64> = crate::par::par_fill(v.len(), convert);
                Tensor::from_vec_i64(w, self.shape())
            },
            (Dtype::I64, Dtype::F64) => {
                let v: Vec<i64> = match self.to_vec_i64() {
                    Ok(v) => v,
                    Err(e) => {
                        return Err(e);
                    },
                };
                let convert = |i: usize| -> (y: S::D)
                    requires
                        i < v@.len()
                    ensures
                        call_ensures(S::integer_f64, (v@[i as int],), y)
                {
                    S::integer_f64(v[i])
                };
                let w: Vec<S::D> = crate::par::par_fill(v.len(), convert);
                Tensor::from_vec_f64(w, self.shape())
            },
            _ => Ok(self.clone()),
        }
    }
}

/// What `transpose` comes to.
pub open spec fn transpose_out<S: Scalars>(m: Model<S>, r: Outcome<S>) -> bool {
    match r {
        Ok(t) => m.shape.len() >= 2 && t == with_axes(
                m,
                swapped_axes(m.shape.len()),
            ).detached() && t.valid(),
        Err(e) => m.shape.len() < 2 && e.says(
                ErrorKind::Shape,
                "transpose"@,
                "rank must be >= 2"@,
            ),
    }
}

/// What `unsqueeze` comes to.
pub open spec fn unsqueeze_out<S: Scalars>(m: Model<S>, axis: int, r: Outcome<S>) -> bool {
    match r {
        Ok(t) => axis_ok(axis, (m.shape.len() + 1) as int) && t == unsqueezed(
                m,
                axis_at(axis, (m.shape.len() + 1) as int),
            ) && t.valid(),
        Err(e) => !axis_ok(axis, (m.shape.len() + 1) as int) && unsqueeze_error(
                e,
                axis,
                m.shape.len(),
            ),
    }
}

/// What `squeeze` comes to.
pub open spec fn squeeze_out<S: Scalars>(m: Model<S>, axis: Option<isize>, r: Outcome<S>) -> bool {
    match r {
        Ok(t) => squeeze_ok(m.shape, axis) && t == with_axes(
                m,
                squeezed_axes(m.shape, axis),
            ) && t.valid(),
        Err(e) => !squeeze_ok(m.shape, axis) && squeeze_error(
                e,
                m.shape,
                axis,
            ),
    }
}

/// What `reshape` comes to.
pub open spec fn reshape_out<S: Scalars>(
    m: Model<S>,
    new_shape: Seq<isize>,
    r: Outcome<S>,
) -> bool {
    match r {
        Ok(t) => reshape_ok(m.shape, new_shape) && reshape_of(
                m,
                new_shape,
                t,
            ) && t.valid(),
        Err(e) => !reshape_ok(m.shape, new_shape) && reshape_error(
                e,
                m.shape,
                new_shape,
                "view"@,
            ),
    }
}

/// What `broadcast_to` comes to.
pub open spec fn broadcast_to_out<S: Scalars>(
    m: Model<S>,
    target: Seq<usize>,
    r: Outcome<S>,
) -> bool {
    match r {
        Ok(t) => compatible(m.shape, target) && t == broadcasted(
                m,
                target,
            ) && t.valid(),
        Err(e) => !compatible(m.shape, target) && broadcast_error(
                e,
                m.shape,
                target,
            ),
    }
}

/// What `slice` comes to.
pub open spec fn slice_out<S: Scalars>(m: Model<S>, ranges: Seq<Range3>, r: Outcome<S>) -> bool {
    match r {
        Ok(t) => {
                &&& ranges.len() <= m.shape.len()
                &&& steps_ok(ranges, m.shape.len() as int)
                &&& sliced(m, ranges).offset >= 0
                &&& t == sliced(m, ranges).detached() && t.valid()
            },
        Err(e) => slice_refused(e, m, ranges),
    }
}

} // verus!
