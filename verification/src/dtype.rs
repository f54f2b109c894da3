//! Element types.
use vstd::prelude::*;

verus! {

/// Element type of a [`crate::tensor::Tensor`].
#[derive(Clone, Copy, Debug, PartialEq, Eq, Hash, Structural)]
pub enum Dtype {
    /// 32-bit float (default compute type).
    F32,
    /// 64-bit float (reference / tiny checks).
    F64,
    /// 64-bit signed integer (indices).
    I64,
}

impl Dtype {
    /// Whether this is a floating type.
    pub open spec fn floating(self) -> bool {
        self == Dtype::F32 || self == Dtype::F64
    }

    /// Size of one element in bytes.
    pub fn size_of(self) -> (r: usize)
        ensures
            self == Dtype::F32 ==> r == 4,
            self == Dtype::F64 || self == Dtype::I64 ==> r == 8,
    {
        match self {
            Dtype::F32 => 4,
            Dtype::F64 => 8,
            Dtype::I64 => 8,
        }
    }

    /// Whether this is a floating type.
    pub fn is_float(self) -> (r: bool)
        ensures
            r == self.floating(),
    {
        matches!(self, Dtype::F32 | Dtype::F64)
    }

    /// Short name (`"f32"`, `"f64"`, `"i64"`).
    pub fn name(self) -> (r: &'static str)
        ensures
            self == Dtype::F32 ==> r@ == "f32"@,
            self == Dtype::F64 ==> r@ == "f64"@,
            self == Dtype::I64 ==> r@ == "i64"@,
    {
        match self {
            Dtype::F32 => "f32",
            Dtype::F64 => "f64",
            Dtype::I64 => "i64",
        }
    }

    /// Name of the variant.
    pub open spec fn variant(self) -> Seq<char> {
        match self {
            Dtype::F32 => "F32"@,
            Dtype::F64 => "F64"@,
            Dtype::I64 => "I64"@,
        }
    }

    /// Name of the variant, as error messages quote it.
    pub fn variant_name(self) -> (r: &'static str)
        ensures
            r@ == self.variant(),
    {
        match self {
            Dtype::F32 => "F32",
            Dtype::F64 => "F64",
            Dtype::I64 => "I64",
        }
    }
}

} // verus!
