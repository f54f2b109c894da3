//! Typed backing buffers.
use vstd::prelude::*;

use crate::dtype::Dtype;
use crate::error::{Error, ErrorKind};
use crate::scalar::Scalars;

verus! {

/// What a buffer holds.
pub ghost enum Data<F, D> {
    F32(Seq<F>),
    F64(Seq<D>),
    I64(Seq<i64>),
}

impl<F, D> Data<F, D> {
    /// Element type.
    pub open spec fn dtype(self) -> Dtype {
        match self {
            Data::F32(_) => Dtype::F32,
            Data::F64(_) => Dtype::F64,
            Data::I64(_) => Dtype::I64,
        }
    }

    /// Number of elements.
    pub open spec fn len(self) -> nat {
        match self {
            Data::F32(v) => v.len(),
            Data::F64(v) => v.len(),
            Data::I64(v) => v.len(),
        }
    }
}

/// One typed, contiguous backing buffer.
pub enum StorageData<S: Scalars> {
    /// 32-bit float buffer.
    F32(Vec<S::F>),
    /// 64-bit float buffer.
    F64(Vec<S::D>),
    /// Integer buffer (indices).
    I64(Vec<i64>),
}

impl<S: Scalars> View for StorageData<S> {
    type V = Data<S::F, S::D>;

    open spec fn view(&self) -> Data<S::F, S::D> {
        match self {
            StorageData::F32(v) => Data::F32(v@),
            StorageData::F64(v) => Data::F64(v@),
            StorageData::I64(v) => Data::I64(v@),
        }
    }
}

/// Typed, reference-counted backing storage for [`crate::tensor::Tensor`] views.
///
/// Multiple tensors may share one `Storage`; the tensor's offset and strides
/// select the region each view observes.
pub struct Storage<S: Scalars> {
    /// The typed elements.
    pub data: StorageData<S>,
}

impl<S: Scalars> View for Storage<S> {
    type V = Data<S::F, S::D>;

    open spec fn view(&self) -> Data<S::F, S::D> {
        self.data@
    }
}

impl<S: Scalars> Storage<S> {
    /// Element type of the buffer.
    pub fn dtype(&self) -> (r: Dtype)
        ensures
            r == self@.dtype(),
    {
        match &self.data {
            StorageData::F32(_) => Dtype::F32,
            StorageData::F64(_) => Dtype::F64,
            StorageData::I64(_) => Dtype::I64,
        }
    }

    /// Number of elements in the buffer.
    pub fn len(&self) -> (r: usize)
        ensures
            r == self@.len(),
    {
        match &self.data {
            StorageData::F32(v) => v.len(),
            StorageData::F64(v) => v.len(),
            StorageData::I64(v) => v.len(),
        }
    }

    /// Whether the buffer holds zero elements.
    pub fn is_empty(&self) -> (r: bool)
        ensures
            r == (self@.len() == 0),
    {
        self.len() == 0
    }

    /// View the buffer as 32-bit floats (errors on dtype mismatch).
    pub fn f32s(&self) -> (r: Result<&[S::F], Error>)
        ensures
            r matches Ok(v) ==> self@ == Data::<S::F, S::D>::F32(v@),
            r matches Err(e) ==> self@.dtype() != Dtype::F32 && e.says(
                ErrorKind::Dtype,
                "storage"@,
                "expected f32"@,
            ),
    {
        match &self.data {
            StorageData::F32(v) => Ok(v.as_slice()),
            _ => Err(Error::dtype("storage", "expected f32".to_owned())),
        }
    }

    /// View the buffer as 64-bit floats (errors on dtype mismatch).
    pub fn f64s(&self) -> (r: Result<&[S::D], Error>)
        ensures
            r matches Ok(v) ==> self@ == Data::<S::F, S::D>::F64(v@),
            r matches Err(e) ==> self@.dtype() != Dtype::F64 && e.says(
                ErrorKind::Dtype,
                "storage"@,
                "expected f64"@,
            ),
    {
        match &self.data {
            StorageData::F64(v) => Ok(v.as_slice()),
            _ => Err(Error::dtype("storage", "expected f64".to_owned())),
        }
    }

    /// View the buffer as integers (errors on dtype mismatch).
    pub fn i64s(&self) -> (r: Result<&[i64], Error>)
        ensures
            r matches Ok(v) ==> self@ == Data::<S::F, S::D>::I64(v@),
            r matches Err(e) ==> self@.dtype() != Dtype::I64 && e.says(
                ErrorKind::Dtype,
                "storage"@,
                "expected i64"@,
            ),
    {
        match &self.data {
            StorageData::I64(v) => Ok(v.as_slice()),
            _ => Err(Error::dtype("storage", "expected i64".to_owned())),
        }
    }

    /// Mutably view the buffer as 32-bit floats (errors on dtype mismatch).
    pub fn f32s_mut(&mut self) -> (r: Result<&mut Vec<S::F>, Error>)
        ensures
            r matches Ok(v) ==> old(self)@ == Data::<S::F, S::D>::F32(v@) && final(self)@
                == Data::<S::F, S::D>::F32(final(v)@),
            r matches Err(e) ==> old(self)@.dtype() != Dtype::F32 && *final(self) == *old(self)
                && e.says(ErrorKind::Dtype, "storage"@, "expected f32"@),
    {
        match &mut self.data {
            StorageData::F32(v) => Ok(v),
            _ => Err(Error::dtype("storage", "expected f32".to_owned())),
        }
    }
}

} // verus!
