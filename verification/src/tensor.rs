//! Runtime-rank tensors: strided views of shared storage.
use vstd::prelude::*;

use std::sync::Arc;

use crate::device::Device;
use crate::dtype::Dtype;
use crate::error::{Error, ErrorKind};
use crate::index::{
    dot, fits, in_bounds, ints, lemma_dot_concat, lemma_origin_dot, lemma_ravel, lemma_unravel,
    lemma_volume_zero, origin, packed, unravel, volume,
};
use crate::scalar::{is_one, is_zero, Arith, Scalars};
use crate::shape::{
    for_each_offset, is_contiguous, lemma_row_strides, numel, offset_of, row_major_strides,
    row_strides, slot_at,
};
use crate::storage::{Data, Storage, StorageData};
use crate::text::{decimal, with_two_numbers};

verus! {

/// What a tensor is: a strided view of a buffer, with its place in the reverse graph. The element
/// type is that of the buffer, which every tensor's own `dtype` names.
#[verifier::ext_equal]
pub ghost struct TensorModel<F, D> {
    /// Contents of the whole buffer.
    pub data: Data<F, D>,
    /// Slot of the origin.
    pub offset: int,
    /// Dimension sizes.
    pub shape: Seq<usize>,
    /// Element strides.
    pub strides: Seq<isize>,
    /// Storage device.
    pub device: Device,
    /// Whether this value is in the reverse graph.
    pub in_graph: bool,
    /// The gradient slot of a leaf.
    pub leaf: Option<usize>,
    /// The graph node that produced this value.
    pub grad_fn: Option<usize>,
    /// Where the last kernel ran.
    pub placement: Seq<char>,
}

impl<F, D> TensorModel<F, D> {
    /// Element type.
    pub open spec fn dtype(self) -> Dtype {
        self.data.dtype()
    }

    /// Slot of a position.
    pub open spec fn slot(self, idx: Seq<int>) -> int {
        self.offset + dot(idx, self.strides)
    }

    /// Every position of the view lies in the buffer.
    pub open spec fn valid(self) -> bool {
        &&& self.strides.len() == self.shape.len()
        &&& forall|idx: Seq<int>| #[trigger]
            in_bounds(self.shape, idx) ==> 0 <= self.slot(idx) < self.data.len()
    }

    /// The 32-bit floats that the view shows, in row-major order.
    pub open spec fn f32s(self) -> Seq<F> {
        packed(self.data->F32_0, self.offset, self.shape, self.strides)
    }

    /// The 64-bit floats that the view shows, in row-major order.
    pub open spec fn f64s(self) -> Seq<D> {
        packed(self.data->F64_0, self.offset, self.shape, self.strides)
    }

    /// The integers that the view shows, in row-major order.
    pub open spec fn i64s(self) -> Seq<i64> {
        packed(self.data->I64_0, self.offset, self.shape, self.strides)
    }

    /// The elements that the view shows, in row-major order.
    pub open spec fn elems(self) -> Data<F, D> {
        match self.data {
            Data::F32(_) => Data::F32(self.f32s()),
            Data::F64(_) => Data::F64(self.f64s()),
            Data::I64(_) => Data::I64(self.i64s()),
        }
    }

    /// Row-major, from the first slot of the buffer on.
    pub open spec fn contiguous(self) -> bool {
        self.offset == 0 && self.strides == row_strides(self.shape)
    }

    /// The same value seen through another layout.
    pub open spec fn with_layout(
        self,
        offset: int,
        shape: Seq<usize>,
        strides: Seq<isize>,
    ) -> TensorModel<F, D> {
        TensorModel { offset, shape, strides, ..self }
    }

    /// The same view, outside the reverse graph.
    pub open spec fn detached(self) -> TensorModel<F, D> {
        TensorModel { in_graph: false, leaf: None, grad_fn: None, ..self }
    }

    /// Outside the reverse graph.
    pub open spec fn free(self) -> bool {
        !self.in_graph && self.leaf is None && self.grad_fn is None
    }

    /// A new tensor of this shape on a buffer of its own, outside the reverse graph.
    pub open spec fn plain(self, shape: Seq<usize>) -> bool {
        &&& self.shape == shape
        &&& self.contiguous()
        &&& self.data.len() == volume(shape)
        &&& self.device == Device::Cpu
        &&& self.free()
        &&& self.placement == "cpu"@
    }

    /// Where `idx` leads when it need not lie in the box.
    pub open spec fn reaches(self, idx: Seq<int>) -> bool {
        &&& idx.len() == self.shape.len()
        &&& forall|k: int|
            0 <= k <= idx.len() ==> i128::MIN <= self.offset + #[trigger] dot(
                idx.take(k),
                self.strides.take(k),
            ) <= i128::MAX
        &&& 0 <= self.slot(idx) < self.data.len()
    }
}

/// Every position of the box is reached, with every partial slot inside the buffer.
pub proof fn lemma_reaches<F, D>(m: TensorModel<F, D>, idx: Seq<int>)
    requires
        m.valid(),
        m.data.len() <= usize::MAX,
        in_bounds(m.shape, idx),
    ensures
        m.reaches(idx),
{
    lemma_volume_zero(m.shape);
    lemma_ravel(m.shape, idx);
    assert forall|k: int| 0 <= k <= idx.len() implies i128::MIN <= m.offset + #[trigger] dot(
        idx.take(k),
        m.strides.take(k),
    ) <= i128::MAX by {
        let rest = origin((idx.len() - k) as nat);
        let head = idx.take(k);
        let whole = head + rest;
        assert forall|j: int| 0 <= j < m.shape.len() implies 0 <= #[trigger] whole[j]
            < m.shape[j] by {
            assert(0 <= idx[j] < m.shape[j]);
        }
        assert(in_bounds(m.shape, whole));
        lemma_dot_concat(head, m.strides.take(k), rest, m.strides.skip(k));
        lemma_origin_dot(m.strides.skip(k));
        assert(m.strides.take(k) + m.strides.skip(k) =~= m.strides);
        assert(0 <= m.slot(whole) < m.data.len());
    }
}

/// A row-major view from the first slot on shows the buffer's first elements as they lie.
pub proof fn lemma_contiguous_slots<F, D>(m: TensorModel<F, D>)
    requires
        m.valid(),
        m.contiguous(),
        volume(m.shape) <= usize::MAX,
    ensures
        forall|i: int|
            0 <= i < volume(m.shape) ==> m.offset + dot(
                #[trigger] unravel(m.shape, i),
                m.strides,
            ) == i,
        volume(m.shape) <= m.data.len(),
{
    assert forall|i: int| 0 <= i < volume(m.shape) implies m.offset + dot(
        #[trigger] unravel(m.shape, i),
        m.strides,
    ) == i by {
        lemma_unravel(m.shape, i);
        lemma_row_strides(m.shape, unravel(m.shape, i));
    }
    if volume(m.shape) > 0 {
        let last = volume(m.shape) - 1;
        lemma_unravel(m.shape, last);
        assert(m.slot(unravel(m.shape, last)) == last);
    }
}

/// A row-major view of a whole buffer shows the buffer.
pub proof fn lemma_plain_elems<F, D>(m: TensorModel<F, D>)
    requires
        m.contiguous(),
        m.data.len() == volume(m.shape),
        volume(m.shape) <= usize::MAX,
    ensures
        m.valid(),
        m.elems() == m.data,
{
    assert forall|idx: Seq<int>| #[trigger] in_bounds(m.shape, idx) implies 0 <= m.slot(idx)
        < m.data.len() by {
        lemma_ravel(m.shape, idx);
        lemma_row_strides(m.shape, idx);
    }
    lemma_contiguous_slots(m);
    match m.data {
        Data::F32(v) => {
            assert(m.f32s() =~= v);
        },
        Data::F64(v) => {
            assert(m.f64s() =~= v);
        },
        Data::I64(v) => {
            assert(m.i64s() =~= v);
        },
    }
}

/// A copy of a slice.
pub fn copied<T: Copy>(v: &[T]) -> (r: Vec<T>)
    ensures
        r@ == v@,
{
    let mut out: Vec<T> = Vec::with_capacity(v.len());
    let mut i: usize = 0;
    while i < v.len()
        invariant
            i <= v@.len(),
            out@ == v@.take(i as int),
        decreases v@.len() - i,
    {
        out.push(v[i]);
        i = i + 1;
    }
    proof {
        assert(v@.take(i as int) =~= v@);
    }
    out
}

/// `n` copies of one value.
pub fn repeated<T: Copy>(value: T, n: usize) -> (r: Vec<T>)
    ensures
        r@ == Seq::new(n as nat, |i: int| value),
{
    let mut out: Vec<T> = Vec::with_capacity(n);
    let mut i: usize = 0;
    while i < n
        invariant
            i <= n,
            out@ == Seq::new(i as nat, |i: int| value),
        decreases n - i,
    {
        out.push(value);
        i = i + 1;
        proof {
            assert(out@ =~= Seq::new(i as nat, |i: int| value));
        }
    }
    out
}

/// The elements that a strided view shows, in row-major order.
pub fn pack<T: Copy>(data: &[T], offset: usize, shape: &[usize], strides: &[isize]) -> (r: Vec<T>)
    requires
        strides@.len() == shape@.len(),
        forall|idx: Seq<int>| #[trigger]
            in_bounds(shape@, idx) ==> 0 <= offset + dot(idx, strides@) < data@.len(),
    ensures
        r@ == packed(data@, offset as int, shape@, strides@),
{
    let n: usize = data.len();
    proof {
        assert(data@.len() == n);
        assert(strides@.take(shape@.len() as int) =~= strides@);
        assert forall|i: int| 0 <= i < volume(shape@) implies slot_at(
            offset as int,
            shape@,
            strides@,
            i,
        ) == offset + dot(#[trigger] unravel(shape@, i), strides@) && slot_at(
            offset as int,
            shape@,
            strides@,
            i,
        ) < data@.len() by {
            lemma_unravel(shape@, i);
        }
    }
    let read = |o: usize| -> (y: T)
        requires
            o < data@.len()
        ensures
            y == data@[o as int]
    {
        data[o]
    };
    proof {
        assert forall|i: int| 0 <= i < volume(shape@) implies call_requires(
            read,
            (#[trigger] slot_at(offset as int, shape@, strides@, i),),
        ) by {
            let u = unravel(shape@, i);
        }
    }
    let out: Vec<T> = for_each_offset(offset, shape, strides, read);
    proof {
        assert forall|i: int| 0 <= i < out@.len() implies out@[i] == packed(
            data@,
            offset as int,
            shape@,
            strides@,
        )[i] by {
            let u = unravel(shape@, i);
            assert(call_ensures(read, (slot_at(offset as int, shape@, strides@, i),), out@[i]));
        }
        assert(out@ =~= packed(data@, offset as int, shape@, strides@));
    }
    out
}

/// Number of handles on a shared buffer.
///
/// Stands for `Arc::strong_count`, which counts the handles that are alive at the moment of the
/// call, the one that is asked among them. How many others there are is not stated.
#[verifier::external_body]
fn handles<S: Scalars>(storage: &Arc<Storage<S>>) -> (r: usize)
    ensures
        r >= 1,
{
    Arc::strong_count(storage)
}

/// Whether two handles are of one buffer.
///
/// Stands for `Arc::ptr_eq`, which compares the addresses. Two handles of one buffer show the
/// same contents; that handles of equal buffers are told apart is not stated.
#[verifier::external_body]
fn one_buffer<S: Scalars>(a: &Arc<Storage<S>>, b: &Arc<Storage<S>>) -> (r: bool)
    ensures
        r ==> *a == *b,
{
    Arc::ptr_eq(a, b)
}

/// Runtime-rank tensor. `Clone` is a cheap handle (refcount), not a copy of the elements.
///
/// Use [`Tensor::copy`] for a deep copy.
pub struct Tensor<S: Scalars> {
    storage: Arc<Storage<S>>,
    offset: usize,
    shape: Vec<usize>,
    strides: Vec<isize>,
    dtype: Dtype,
    device: Device,
    requires_grad: bool,
    leaf: Option<usize>,
    grad_fn: Option<usize>,
    placement: &'static str,
}

impl<S: Scalars> View for Tensor<S> {
    type V = TensorModel<S::F, S::D>;

    closed spec fn view(&self) -> TensorModel<S::F, S::D> {
        TensorModel {
            data: self.storage@,
            offset: self.offset as int,
            shape: self.shape@,
            strides: self.strides@,
            device: self.device,
            in_graph: self.requires_grad,
            leaf: self.leaf,
            grad_fn: self.grad_fn,
            placement: self.placement@,
        }
    }
}

impl<S: Scalars> Clone for Tensor<S> {
    fn clone(&self) -> (r: Self)
        ensures
            r@ == self@,
            self@.valid(),
    {
        proof {
            use_type_invariant(self);
        }
        Tensor {
            storage: self.storage.clone(),
            offset: self.offset,
            shape: copied(self.shape.as_slice()),
            strides: copied(self.strides.as_slice()),
            dtype: self.dtype,
            device: self.device,
            requires_grad: self.requires_grad,
            leaf: self.leaf,
            grad_fn: self.grad_fn,
            placement: self.placement,
        }
    }
}

impl<S: Scalars> Tensor<S> {
    #[verifier::type_invariant]
    spec fn inv(self) -> bool {
        &&& self.dtype == self.storage@.dtype()
        &&& self@.valid()
        &&& self.storage@.len() <= usize::MAX
    }

    /// A tensor on a buffer that holds exactly its elements.
    pub fn from_storage(
        storage: Storage<S>,
        shape: Vec<usize>,
        dtype: Dtype,
        device: Device,
    ) -> (r: Result<Self, Error>)
        ensures
            r matches Ok(t) ==> {
                &&& fits(shape@) && storage@.len() == volume(shape@)
                &&& storage@.dtype() == dtype && device == Device::Cpu
                &&& t@.plain(shape@) && t@.data == storage@ && t@.valid() && t@.elems()
                    == storage@
            },
            r matches Err(e) ==> storage_error(e, storage@, shape@, dtype, device),
    {
        let n: usize = match numel(shape.as_slice()) {
            Ok(n) => n,
            Err(e) => {
                return Err(e);
            },
        };
        if storage.len() != n {
            return Err(
                Error::shape(
                    "from_storage",
                    with_two_numbers("storage len ", storage.len(), " != numel ", n),
                ),
            );
        }
        if storage.dtype() != dtype {
            return Err(Error::dtype("from_storage", "storage/dtype mismatch".to_owned()));
        }
        if device != Device::Cpu {
            return Err(
                Error::unsupported(
                    "from_storage",
                    dtype,
                    device,
                    "v1 default build is CPU-only; enable feature gpu for the stub".to_owned(),
                ),
            );
        }
        let strides: Vec<isize> = row_major_strides(shape.as_slice());
        proof {
            assert(shape@.take(shape@.len() as int) =~= shape@);
            lemma_plain_elems(
                TensorModel {
                    data: storage@,
                    offset: 0,
                    shape: shape@,
                    strides: strides@,
                    device,
                    in_graph: false,
                    leaf: None,
                    grad_fn: None,
                    placement: "cpu"@,
                },
            );
        }
        Ok(
            Tensor {
                storage: Arc::new(storage),
                offset: 0,
                shape,
                strides,
                dtype,
                device,
                requires_grad: false,
                leaf: None,
                grad_fn: None,
                placement: "cpu",
            },
        )
    }
}

/// What a tensor over `S` holds.
pub type Model<S> = TensorModel<<S as Scalars>::F, <S as Scalars>::D>;

/// What an operation comes to: a tensor's model, or an error.
pub type Outcome<S> = Result<Model<S>, Error>;

/// What a result comes to.
pub open spec fn outcome<S: Scalars>(r: Result<Tensor<S>, Error>) -> Outcome<S> {
    match r {
        Ok(t) => Ok(t@),
        Err(e) => Err(e),
    }
}

/// The error that `o` is passes on.
pub open spec fn stops<A, B>(o: Result<A, Error>, r: Result<B, Error>) -> bool {
    o is Err && r is Err && r->Err_0 == o->Err_0
}

/// Either the error that `o` is passes on, or `next` holds.
pub open spec fn passes<A, B>(o: Result<A, Error>, r: Result<B, Error>, next: bool) -> bool {
    stops(o, r) || (o is Ok && next)
}

/// `r` is `v`.
pub open spec fn gives<B>(r: Result<B, Error>, v: B) -> bool {
    r is Ok && r->Ok_0 == v
}

/// What `Tensor::zeros` comes to.
pub open spec fn zeros_out<S: Scalars>(shape: Seq<usize>, dtype: Dtype, r: Outcome<S>) -> bool {
    match r {
        Ok(t) => {
            &&& fits(shape) && t.plain(shape) && t.dtype() == dtype
            &&& t.valid() && t.elems() == t.data && all_zero::<S>(t.data)
        },
        Err(e) => !fits(shape) && numel_error(e),
    }
}

/// What `Tensor::ones` comes to.
pub open spec fn ones_out<S: Scalars>(shape: Seq<usize>, dtype: Dtype, r: Outcome<S>) -> bool {
    match r {
        Ok(t) => {
            &&& fits(shape) && t.plain(shape) && t.dtype() == dtype
            &&& t.valid() && t.elems() == t.data && all_one::<S>(t.data)
        },
        Err(e) => !fits(shape) && numel_error(e),
    }
}

/// Error of a shape whose volume does not fit.
pub open spec fn numel_error(e: Error) -> bool {
    e.says(ErrorKind::Shape, "numel"@, "shape volume overflow"@)
}

/// Why [`Tensor::from_storage`] refused.
pub open spec fn storage_error<F, D>(
    e: Error,
    data: Data<F, D>,
    shape: Seq<usize>,
    dtype: Dtype,
    device: Device,
) -> bool {
    if !fits(shape) {
        numel_error(e)
    } else if data.len() != volume(shape) {
        e.says(
            ErrorKind::Shape,
            "from_storage"@,
            "storage len "@ + decimal(data.len()) + " != numel "@ + decimal(volume(shape)),
        )
    } else if data.dtype() != dtype {
        e.says(ErrorKind::Dtype, "from_storage"@, "storage/dtype mismatch"@)
    } else {
        &&& device != Device::Cpu
        &&& e.says(
            ErrorKind::Unsupported,
            "from_storage"@,
            "dtype="@ + dtype.variant() + " device="@ + device.variant() + ": "@
                + "v1 default build is CPU-only; enable feature gpu for the stub"@,
        )
    }
}

impl<S: Scalars> Tensor<S> {
    /// Copy `data` (row-major) into a new CPU `f32` tensor.
    pub fn from_slice_f32(data: &[S::F], shape: &[usize]) -> (r: Result<Self, Error>)
        ensures
            r matches Ok(t) ==> {
                &&& fits(shape@) && data@.len() == volume(shape@)
                &&& t@.plain(shape@) && t@.data == Data::<S::F, S::D>::F32(data@)
                &&& t@.valid() && t@.elems() == t@.data
            },
            r matches Err(e) ==> slice_error(e, data@.len(), shape@),
    {
        let n: usize = match numel(shape) {
            Ok(n) => n,
            Err(e) => {
                return Err(e);
            },
        };
        if data.len() != n {
            return Err(
                Error::shape("from_slice", with_two_numbers("len ", data.len(), " != numel ", n)),
            );
        }
        let storage: Storage<S> = Storage { data: StorageData::F32(copied(data)) };
        Self::from_storage(storage, copied(shape), Dtype::F32, Device::Cpu)
    }

    /// Move `data` (row-major) into a new CPU `f32` tensor.
    pub fn from_vec_f32(data: Vec<S::F>, shape: &[usize]) -> (r: Result<Self, Error>)
        ensures
            r matches Ok(t) ==> {
                &&& fits(shape@) && data@.len() == volume(shape@)
                &&& t@.plain(shape@) && t@.data == Data::<S::F, S::D>::F32(data@)
                &&& t@.valid() && t@.elems() == t@.data
            },
            r matches Err(e) ==> slice_error(e, data@.len(), shape@),
    {
        let n: usize = match numel(shape) {
            Ok(n) => n,
            Err(e) => {
                return Err(e);
            },
        };
        if data.len() != n {
            return Err(
                Error::shape("from_slice", with_two_numbers("len ", data.len(), " != numel ", n)),
            );
        }
        let storage: Storage<S> = Storage { data: StorageData::F32(data) };
        Self::from_storage(storage, copied(shape), Dtype::F32, Device::Cpu)
    }

    /// Copy `data` (row-major) into a new CPU `f64` tensor.
    pub fn from_slice_f64(data: &[S::D], shape: &[usize]) -> (r: Result<Self, Error>)
        ensures
            r matches Ok(t) ==> {
                &&& fits(shape@) && data@.len() == volume(shape@)
                &&& t@.plain(shape@) && t@.data == Data::<S::F, S::D>::F64(data@)
                &&& t@.valid() && t@.elems() == t@.data
            },
            r matches Err(e) ==> slice_error(e, data@.len(), shape@),
    {
        let n: usize = match numel(shape) {
            Ok(n) => n,
            Err(e) => {
                return Err(e);
            },
        };
        if data.len() != n {
            return Err(
                Error::shape("from_slice", with_two_numbers("len ", data.len(), " != numel ", n)),
            );
        }
        let storage: Storage<S> = Storage { data: StorageData::F64(copied(data)) };
        Self::from_storage(storage, copied(shape), Dtype::F64, Device::Cpu)
    }

    /// Move `data` (row-major) into a new CPU `f64` tensor.
    pub fn from_vec_f64(data: Vec<S::D>, shape: &[usize]) -> (r: Result<Self, Error>)
        ensures
            r matches Ok(t) ==> {
                &&& fits(shape@) && data@.len() == volume(shape@)
                &&& t@.plain(shape@) && t@.data == Data::<S::F, S::D>::F64(data@)
                &&& t@.valid() && t@.elems() == t@.data
            },
            r matches Err(e) ==> slice_error(e, data@.len(), shape@),
    {
        let n: usize = match numel(shape) {
            Ok(n) => n,
            Err(e) => {
                return Err(e);
            },
        };
        if data.len() != n {
            return Err(
                Error::shape("from_slice", with_two_numbers("len ", data.len(), " != numel ", n)),
            );
        }
        let storage: Storage<S> = Storage { data: StorageData::F64(data) };
        Self::from_storage(storage, copied(shape), Dtype::F64, Device::Cpu)
    }

    /// Copy `data` (row-major) into a new CPU `i64` tensor.
    pub fn from_slice_i64(data: &[i64], shape: &[usize]) -> (r: Result<Self, Error>)
        ensures
            r matches Ok(t) ==> {
                &&& fits(shape@) && data@.len() == volume(shape@)
                &&& t@.plain(shape@) && t@.data == Data::<S::F, S::D>::I64(data@)
                &&& t@.valid() && t@.elems() == t@.data
            },
            r matches Err(e) ==> slice_error(e, data@.len(), shape@),
    {
        let n: usize = match numel(shape) {
            Ok(n) => n,
            Err(e) => {
                return Err(e);
            },
        };
        if data.len() != n {
            return Err(
                Error::shape("from_slice", with_two_numbers("len ", data.len(), " != numel ", n)),
            );
        }
        let storage: Storage<S> = Storage { data: StorageData::I64(copied(data)) };
        Self::from_storage(storage, copied(shape), Dtype::I64, Device::Cpu)
    }

    /// Move `data` (row-major) into a new CPU `i64` tensor.
    pub fn from_vec_i64(data: Vec<i64>, shape: &[usize]) -> (r: Result<Self, Error>)
        ensures
            r matches Ok(t) ==> {
                &&& fits(shape@) && data@.len() == volume(shape@)
                &&& t@.plain(shape@) && t@.data == Data::<S::F, S::D>::I64(data@)
                &&& t@.valid() && t@.elems() == t@.data
            },
            r matches Err(e) ==> slice_error(e, data@.len(), shape@),
    {
        let n: usize = match numel(shape) {
            Ok(n) => n,
            Err(e) => {
                return Err(e);
            },
        };
        if data.len() != n {
            return Err(
                Error::shape("from_slice", with_two_numbers("len ", data.len(), " != numel ", n)),
            );
        }
        let storage: Storage<S> = Storage { data: StorageData::I64(data) };
        Self::from_storage(storage, copied(shape), Dtype::I64, Device::Cpu)
    }

    /// New CPU tensor filled with zeros.
    pub fn zeros(shape: &[usize], dtype: Dtype) -> (r: Result<Self, Error>)
        ensures
            zeros_out::<S>(shape@, dtype, outcome(r)),
    {
        let n: usize = match numel(shape) {
            Ok(n) => n,
            Err(e) => {
                return Err(e);
            },
        };
        let data: StorageData<S> = match dtype {
            Dtype::F32 => {
                let x: S::F = <S as Arith<S::F>>::zero();
                assert(is_zero::<S::F, S>(x));
                StorageData::F32(repeated(x, n))
            },
            Dtype::F64 => {
                let x: S::D = <S as Arith<S::D>>::zero();
                assert(is_zero::<S::D, S>(x));
                StorageData::F64(repeated(x, n))
            },
            Dtype::I64 => StorageData::I64(repeated(0i64, n)),
        };
        Self::from_storage(Storage { data }, copied(shape), dtype, Device::Cpu)
    }

    /// New CPU tensor filled with ones.
    pub fn ones(shape: &[usize], dtype: Dtype) -> (r: Result<Self, Error>)
        ensures
            ones_out::<S>(shape@, dtype, outcome(r)),
    {
        let n: usize = match numel(shape) {
            Ok(n) => n,
            Err(e) => {
                return Err(e);
            },
        };
        let data: StorageData<S> = match dtype {
            Dtype::F32 => {
                let x: S::F = <S as Arith<S::F>>::one();
                assert(is_one::<S::F, S>(x));
                StorageData::F32(repeated(x, n))
            },
            Dtype::F64 => {
                let x: S::D = <S as Arith<S::D>>::one();
                assert(is_one::<S::D, S>(x));
                StorageData::F64(repeated(x, n))
            },
            Dtype::I64 => StorageData::I64(repeated(1i64, n)),
        };
        Self::from_storage(Storage { data }, copied(shape), dtype, Device::Cpu)
    }

    /// New CPU `f32` tensor filled with `value`.
    pub fn full_f32(shape: &[usize], value: S::F) -> (r: Result<Self, Error>)
        ensures
            r matches Ok(t) ==> {
                &&& fits(shape@) && t@.plain(shape@)
                &&& t@.data == Data::<S::F, S::D>::F32(Seq::new(volume(shape@), |i: int| value))
                &&& t@.valid() && t@.elems() == t@.data
            },
            r matches Err(e) ==> !fits(shape@) && numel_error(e),
    {
        let n: usize = match numel(shape) {
            Ok(n) => n,
            Err(e) => {
                return Err(e);
            },
        };
        let storage: Storage<S> = Storage { data: StorageData::F32(repeated(value, n)) };
        Self::from_storage(storage, copied(shape), Dtype::F32, Device::Cpu)
    }

    /// Rank-0 `f32` tensor.
    pub fn scalar_f32(value: S::F) -> (r: Result<Self, Error>)
        ensures
            r matches Ok(t) && t@.plain(Seq::empty()) && t@.data == Data::<S::F, S::D>::F32(
                seq![value],
            ) && t@.valid() && t@.elems() == t@.data,
    {
        let data: [S::F; 1] = [value];
        let shape: [usize; 0] = [];
        proof {
            lemma_scalar_shape(shape@);
            assert(data@ =~= seq![value]);
        }
        Self::from_slice_f32(&data, &shape)
    }

    /// Rank-0 `f64` tensor.
    pub fn scalar_f64(value: S::D) -> (r: Result<Self, Error>)
        ensures
            r matches Ok(t) && t@.plain(Seq::empty()) && t@.data == Data::<S::F, S::D>::F64(
                seq![value],
            ) && t@.valid() && t@.elems() == t@.data,
    {
        let data: [S::D; 1] = [value];
        let shape: [usize; 0] = [];
        proof {
            lemma_scalar_shape(shape@);
            assert(data@ =~= seq![value]);
        }
        Self::from_slice_f64(&data, &shape)
    }

    /// Dimension sizes. Rank-0 is `[]`.
    pub fn shape(&self) -> (r: &[usize])
        ensures
            r@ == self@.shape,
            self@.valid(),
            self@.data.len() <= usize::MAX,
    {
        proof {
            use_type_invariant(self);
        }
        self.shape.as_slice()
    }

    /// `shape().len()`.
    pub fn rank(&self) -> (r: usize)
        ensures
            r == self@.shape.len(),
            self@.valid(),
    {
        proof {
            use_type_invariant(self);
        }
        self.shape.len()
    }

    /// Product of dimensions (0 if any dim is 0, or if the product is too large).
    pub fn numel(&self) -> (r: usize)
        ensures
            r == if fits(self@.shape) {
                volume(self@.shape)
            } else {
                0
            },
            self@.valid(),
    {
        proof {
            use_type_invariant(self);
        }
        match numel(self.shape.as_slice()) {
            Ok(n) => n,
            Err(_) => 0,
        }
    }

    /// Element strides (may be zero or negative for views).
    pub fn strides(&self) -> (r: &[isize])
        ensures
            r@ == self@.strides,
            self@.valid(),
    {
        proof {
            use_type_invariant(self);
        }
        self.strides.as_slice()
    }

    /// Slot of the origin in the buffer.
    pub fn storage_offset(&self) -> (r: usize)
        ensures
            r == self@.offset,
            self@.valid(),
    {
        proof {
            use_type_invariant(self);
        }
        self.offset
    }

    /// Element type.
    pub fn dtype(&self) -> (r: Dtype)
        ensures
            r == self@.dtype(),
            self@.valid(),
    {
        proof {
            use_type_invariant(self);
        }
        self.dtype
    }

    /// Storage device.
    pub fn device(&self) -> (r: Device)
        ensures
            r == self@.device,
    {
        self.device
    }

    /// Where the last kernel ran (`"cpu"` / `"gpu"`).
    pub fn placement_trace(&self) -> (r: &'static str)
        ensures
            r@ == self@.placement,
    {
        self.placement
    }

    /// Row-major contiguous with offset 0.
    pub fn is_contiguous(&self) -> (r: bool)
        ensures
            r == self@.contiguous(),
            self@.valid(),
    {
        proof {
            use_type_invariant(self);
        }
        is_contiguous(self.shape.as_slice(), self.strides.as_slice(), self.offset)
    }

    /// Whether this value is in the reverse graph.
    pub fn requires_grad(&self) -> (r: bool)
        ensures
            r == self@.in_graph,
    {
        self.requires_grad
    }

    /// Number of handles on the buffer at this moment. How many there are is not stated.
    pub fn handle_count(&self) -> (r: usize)
        ensures
            r >= 1,
    {
        handles(&self.storage)
    }

    /// Whether a tensor whose buffer has `count` handles may be written in place.
    pub fn is_unique_among(&self, count: usize) -> (r: bool)
        ensures
            r == (count == 1 && self@.grad_fn is None && !self@.in_graph),
    {
        count == 1 && self.grad_fn.is_none() && !self.requires_grad
    }

    /// Unique storage outside the graph — required for in-place ops.
    pub fn is_unique(&self) -> (r: bool)
        ensures
            r ==> self@.grad_fn is None && !self@.in_graph,
    {
        self.is_unique_among(handles(&self.storage))
    }

    /// What in-place ops ask for, given the number of handles on the buffer.
    pub fn require_unique_among(&self, op: &'static str, count: usize) -> (r: Result<(), Error>)
        ensures
            r is Ok <==> (count == 1 && self@.grad_fn is None && !self@.in_graph),
            r matches Err(e) ==> unique_error(e, op@),
    {
        if !self.is_unique_among(count) {
            return Err(
                Error::new(
                    ErrorKind::NotUnique,
                    op,
                    "in-place requires a unique untracked tensor".to_owned(),
                ),
            );
        }
        Ok(())
    }

    /// Fails unless the tensor may be written in place.
    pub fn require_unique(&self, op: &'static str) -> (r: Result<(), Error>)
        ensures
            r is Ok ==> self@.grad_fn is None && !self@.in_graph,
            r matches Err(e) ==> unique_error(e, op@),
    {
        self.require_unique_among(op, handles(&self.storage))
    }

    /// Same storage, dropped from the graph.
    pub fn detach(&self) -> (r: Self)
        ensures
            r@ == self@.detached(),
            self@.valid(),
    {
        let mut t: Self = self.clone();
        proof {
            use_type_invariant(&t);
        }
        t.requires_grad = false;
        t.leaf = None;
        t.grad_fn = None;
        t
    }

    /// Whether two tensors share one buffer.
    pub fn same_storage(&self, other: &Tensor<S>) -> (r: bool)
        ensures
            r ==> self@.data == other@.data,
    {
        one_buffer(&self.storage, &other.storage)
    }

    /// The node that produced this value.
    pub fn grad_fn(&self) -> (r: Option<usize>)
        ensures
            r == self@.grad_fn,
    {
        self.grad_fn
    }

    /// The gradient slot of a leaf.
    pub fn leaf(&self) -> (r: Option<usize>)
        ensures
            r == self@.leaf,
    {
        self.leaf
    }

    /// Makes `node` the producer of this value. It is then no leaf.
    pub fn set_grad_fn(&mut self, node: usize)
        ensures
            final(self)@ == (TensorModel {
                in_graph: true,
                grad_fn: Some(node),
                leaf: None,
                ..old(self)@
            }),
    {
        proof {
            use_type_invariant(&*self);
        }
        self.requires_grad = true;
        self.grad_fn = Some(node);
        self.leaf = None;
    }

    /// Puts a floating tensor into the graph, as the leaf of `slot` unless it is one already.
    pub fn into_leaf(self, slot: usize) -> (r: Self)
        ensures
            r@ == if self@.dtype().floating() {
                (TensorModel {
                    in_graph: true,
                    leaf: if self@.leaf is None {
                        Some(slot)
                    } else {
                        self@.leaf
                    },
                    ..self@
                })
            } else {
                self@
            },
    {
        proof {
            use_type_invariant(&self);
        }
        let mut t: Self = self;
        if t.dtype.is_float() {
            t.requires_grad = true;
            if t.leaf.is_none() {
                t.leaf = Some(slot);
            }
        }
        t
    }

    /// Writes new elements (row-major), on a buffer of its own. Shape and place in the graph stay.
    pub fn overwrite_f32(&mut self, values: &[S::F]) -> (r: Result<(), Error>)
        ensures
            match r {
                Ok(_) => {
                    &&& old(self)@.dtype() == Dtype::F32 && fits(old(self)@.shape) && values@.len()
                        == volume(old(self)@.shape)
                    &&& final(self)@ == (TensorModel {
                        data: Data::<S::F, S::D>::F32(values@),
                        offset: 0,
                        strides: row_strides(old(self)@.shape),
                        device: Device::Cpu,
                        placement: "cpu"@,
                        ..old(self)@
                    })
                    &&& final(self)@.elems() == final(self)@.data
                },
                Err(e) => final(self)@ == old(self)@ && if old(self)@.dtype() != Dtype::F32 {
                    e.says(ErrorKind::Dtype, "overwrite"@, "expected f32"@)
                } else {
                    slice_error(e, values@.len(), old(self)@.shape)
                },
            },
    {
        if self.dtype() != Dtype::F32 {
            return Err(Error::dtype("overwrite", "expected f32".to_owned()));
        }
        let mut t: Self = match Self::from_slice_f32(values, self.shape()) {
            Ok(t) => t,
            Err(e) => {
                return Err(e);
            },
        };
        proof {
            use_type_invariant(&t);
            lemma_plain_elems(t@);
        }
        t.requires_grad = self.requires_grad;
        t.leaf = self.leaf;
        t.grad_fn = self.grad_fn;
        proof {
            lemma_contiguous_slots(t@);
        }
        *self = t;
        Ok(())
    }

    /// The same value through another layout of the same buffer.
    pub fn relayout(&self, offset: usize, shape: Vec<usize>, strides: Vec<isize>) -> (r: Self)
        requires
            self@.with_layout(offset as int, shape@, strides@).valid(),
        ensures
            r@ == self@.with_layout(offset as int, shape@, strides@),
    {
        proof {
            use_type_invariant(self);
        }
        Tensor {
            storage: self.storage.clone(),
            offset,
            shape,
            strides,
            dtype: self.dtype,
            device: self.device,
            requires_grad: self.requires_grad,
            leaf: self.leaf,
            grad_fn: self.grad_fn,
            placement: self.placement,
        }
    }

    /// Pack values as row-major `f32`.
    pub fn to_vec_f32(&self) -> (r: Result<Vec<S::F>, Error>)
        ensures
            r matches Ok(v) ==> self@.dtype() == Dtype::F32 && v@ == self@.f32s(),
            r matches Err(e) ==> self@.dtype() != Dtype::F32 && e.says(
                ErrorKind::Dtype,
                "to_vec"@,
                "expected f32"@,
            ),
            self@.valid(),
    {
        proof {
            use_type_invariant(self);
        }
        match &self.storage.data {
            StorageData::F32(v) => Ok(
                pack(v.as_slice(), self.offset, self.shape.as_slice(), self.strides.as_slice()),
            ),
            _ => Err(Error::dtype("to_vec", "expected f32".to_owned())),
        }
    }

    /// The `f32` at a position.
    pub fn read_f32_at(&self, index: &[usize]) -> (r: Result<S::F, Error>)
        requires
            self@.dtype() == Dtype::F32 ==> self@.reaches(ints(index@)),
        ensures
            r matches Ok(v) ==> self@.data is F32 && v == self@.data->F32_0[self@.slot(
                ints(index@),
            )],
            r matches Err(e) ==> self@.dtype() != Dtype::F32 && e.says(
                ErrorKind::Dtype,
                "storage"@,
                "expected f32"@,
            ),
    {
        proof {
            use_type_invariant(self);
        }
        match &self.storage.data {
            StorageData::F32(v) => {
                proof {
                    assert(self@.strides.take(index@.len() as int) =~= self@.strides);
                    assert(ints(index@).take(index@.len() as int) =~= ints(index@));
                }
                let off: usize = offset_of(index, self.offset, self.strides.as_slice());
                Ok(v[off])
            },
            _ => Err(Error::dtype("storage", "expected f32".to_owned())),
        }
    }

    /// The whole `f32` buffer behind the view.
    pub fn storage_f32(&self) -> (r: Result<&[S::F], Error>)
        ensures
            r matches Ok(v) ==> self@.data == Data::<S::F, S::D>::F32(v@),
            r matches Err(e) ==> self@.dtype() != Dtype::F32 && e.says(
                ErrorKind::Dtype,
                "storage"@,
                "expected f32"@,
            ),
            self@.valid(),
    {
        proof {
            use_type_invariant(self);
        }
        self.storage.f32s()
    }

    /// Pack values as row-major `f64`.
    pub fn to_vec_f64(&self) -> (r: Result<Vec<S::D>, Error>)
        ensures
            r matches Ok(v) ==> self@.dtype() == Dtype::F64 && v@ == self@.f64s(),
            r matches Err(e) ==> self@.dtype() != Dtype::F64 && e.says(
                ErrorKind::Dtype,
                "to_vec"@,
                "expected f64"@,
            ),
            self@.valid(),
    {
        proof {
            use_type_invariant(self);
        }
        match &self.storage.data {
            StorageData::F64(v) => Ok(
                pack(v.as_slice(), self.offset, self.shape.as_slice(), self.strides.as_slice()),
            ),
            _ => Err(Error::dtype("to_vec", "expected f64".to_owned())),
        }
    }

    /// The `f64` at a position.
    pub fn read_f64_at(&self, index: &[usize]) -> (r: Result<S::D, Error>)
        requires
            self@.dtype() == Dtype::F64 ==> self@.reaches(ints(index@)),
        ensures
            r matches Ok(v) ==> self@.data is F64 && v == self@.data->F64_0[self@.slot(
                ints(index@),
            )],
            r matches Err(e) ==> self@.dtype() != Dtype::F64 && e.says(
                ErrorKind::Dtype,
                "storage"@,
                "expected f64"@,
            ),
    {
        proof {
            use_type_invariant(self);
        }
        match &self.storage.data {
            StorageData::F64(v) => {
                proof {
                    assert(self@.strides.take(index@.len() as int) =~= self@.strides);
                    assert(ints(index@).take(index@.len() as int) =~= ints(index@));
                }
                let off: usize = offset_of(index, self.offset, self.strides.as_slice());
                Ok(v[off])
            },
            _ => Err(Error::dtype("storage", "expected f64".to_owned())),
        }
    }

    /// The whole `f64` buffer behind the view.
    pub fn storage_f64(&self) -> (r: Result<&[S::D], Error>)
        ensures
            r matches Ok(v) ==> self@.data == Data::<S::F, S::D>::F64(v@),
            r matches Err(e) ==> self@.dtype() != Dtype::F64 && e.says(
                ErrorKind::Dtype,
                "storage"@,
                "expected f64"@,
            ),
            self@.valid(),
    {
        proof {
            use_type_invariant(self);
        }
        self.storage.f64s()
    }

    /// Pack values as row-major `i64`.
    pub fn to_vec_i64(&self) -> (r: Result<Vec<i64>, Error>)
        ensures
            r matches Ok(v) ==> self@.dtype() == Dtype::I64 && v@ == self@.i64s(),
            r matches Err(e) ==> self@.dtype() != Dtype::I64 && e.says(
                ErrorKind::Dtype,
                "to_vec"@,
                "expected i64"@,
            ),
            self@.valid(),
    {
        proof {
            use_type_invariant(self);
        }
        match &self.storage.data {
            StorageData::I64(v) => Ok(
                pack(v.as_slice(), self.offset, self.shape.as_slice(), self.strides.as_slice()),
            ),
            _ => Err(Error::dtype("to_vec", "expected i64".to_owned())),
        }
    }

    /// The `i64` at a position.
    pub fn read_i64_at(&self, index: &[usize]) -> (r: Result<i64, Error>)
        requires
            self@.dtype() == Dtype::I64 ==> self@.reaches(ints(index@)),
        ensures
            r matches Ok(v) ==> self@.data is I64 && v == self@.data->I64_0[self@.slot(
                ints(index@),
            )],
            r matches Err(e) ==> self@.dtype() != Dtype::I64 && e.says(
                ErrorKind::Dtype,
                "storage"@,
                "expected i64"@,
            ),
    {
        proof {
            use_type_invariant(self);
        }
        match &self.storage.data {
            StorageData::I64(v) => {
                proof {
                    assert(self@.strides.take(index@.len() as int) =~= self@.strides);
                    assert(ints(index@).take(index@.len() as int) =~= ints(index@));
                }
                let off: usize = offset_of(index, self.offset, self.strides.as_slice());
                Ok(v[off])
            },
            _ => Err(Error::dtype("storage", "expected i64".to_owned())),
        }
    }

    /// The whole `i64` buffer behind the view.
    pub fn storage_i64(&self) -> (r: Result<&[i64], Error>)
        ensures
            r matches Ok(v) ==> self@.data == Data::<S::F, S::D>::I64(v@),
            r matches Err(e) ==> self@.dtype() != Dtype::I64 && e.says(
                ErrorKind::Dtype,
                "storage"@,
                "expected i64"@,
            ),
            self@.valid(),
    {
        proof {
            use_type_invariant(self);
        }
        self.storage.i64s()
    }

}

proof fn lemma_scalar_shape(shape: Seq<usize>)
    requires
        shape.len() == 0,
    ensures
        fits(shape),
        volume(shape) == 1,
        shape == Seq::<usize>::empty(),
{
    assert(shape =~= Seq::<usize>::empty());
    assert forall|k: int| 0 <= k <= shape.len() implies volume(#[trigger] shape.take(k))
        <= usize::MAX by {
        assert(shape.take(k) =~= shape);
    }
}

/// Why a slice was not taken as a tensor of the given shape.
pub open spec fn slice_error(e: Error, len: nat, shape: Seq<usize>) -> bool {
    if !fits(shape) {
        numel_error(e)
    } else {
        &&& len != volume(shape)
        &&& e.says(
            ErrorKind::Shape,
            "from_slice"@,
            "len "@ + decimal(len) + " != numel "@ + decimal(volume(shape)),
        )
    }
}

/// The error that an in-place op on a shared tensor gives.
pub open spec fn unique_error(e: Error, op: Seq<char>) -> bool {
    e.says(ErrorKind::NotUnique, op, "in-place requires a unique untracked tensor"@)
}

/// Every element is one and the same zero.
pub open spec fn all_zero<S: Scalars>(data: Data<S::F, S::D>) -> bool {
    match data {
        Data::F32(v) => exists|z: S::F| #[trigger]
            is_zero::<S::F, S>(z) && forall|i: int| 0 <= i < v.len() ==> #[trigger] v[i] == z,
        Data::F64(v) => exists|z: S::D| #[trigger]
            is_zero::<S::D, S>(z) && forall|i: int| 0 <= i < v.len() ==> #[trigger] v[i] == z,
        Data::I64(v) => forall|i: int| 0 <= i < v.len() ==> #[trigger] v[i] == 0,
    }
}

/// Every element is one and the same one.
pub open spec fn all_one<S: Scalars>(data: Data<S::F, S::D>) -> bool {
    match data {
        Data::F32(v) => exists|u: S::F| #[trigger]
            is_one::<S::F, S>(u) && forall|i: int| 0 <= i < v.len() ==> #[trigger] v[i] == u,
        Data::F64(v) => exists|u: S::D| #[trigger]
            is_one::<S::D, S>(u) && forall|i: int| 0 <= i < v.len() ==> #[trigger] v[i] == u,
        Data::I64(v) => forall|i: int| 0 <= i < v.len() ==> #[trigger] v[i] == 1,
    }
}

} // verus!
