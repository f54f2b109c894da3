//! Recoverable errors.
use vstd::prelude::*;

use crate::device::Device;
use crate::dtype::Dtype;

verus! {

/// Class of a recoverable library error.
#[derive(Debug, Clone, Copy, PartialEq, Eq, Structural)]
pub enum ErrorKind {
    /// Bad shape, stride, or broadcasting.
    Shape,
    /// Wrong element type for the op.
    Dtype,
    /// Wrong or unavailable device.
    Device,
    /// In-place op on a shared tensor.
    NotUnique,
    /// Overlapping views in a scatter/copy.
    Overlap,
    /// Known-but-not-implemented combination.
    Unsupported,
    /// A kernel refused to run and the caller should fall back.
    BackendPrecheck,
    /// Index out of range.
    Index,
    /// Domain error (NaN from sqrt/log of negative input, etc.).
    Domain,
}

/// Fallible op error. Its text is `"kind error in op: message"`.
#[derive(Debug, PartialEq, Eq)]
pub struct Error {
    /// Error class.
    pub kind: ErrorKind,
    /// Op that produced the error (for messages and logging).
    pub op: &'static str,
    /// Human-readable detail.
    pub message: String,
}

impl Error {
    /// The class, the op and the message of this error.
    pub open spec fn says(self, kind: ErrorKind, op: Seq<char>, message: Seq<char>) -> bool {
        &&& self.kind == kind
        &&& self.op@ == op
        &&& self.message@ == message
    }

    /// Build an error of any [`ErrorKind`].
    pub fn new(kind: ErrorKind, op: &'static str, message: String) -> (r: Self)
        ensures
            r.says(kind, op@, message@),
    {
        Self { kind, op, message }
    }

    /// Shorthand for an [`ErrorKind::Shape`] error.
    pub fn shape(op: &'static str, message: String) -> (r: Self)
        ensures
            r.says(ErrorKind::Shape, op@, message@),
    {
        Self::new(ErrorKind::Shape, op, message)
    }

    /// Shorthand for an [`ErrorKind::Dtype`] error.
    pub fn dtype(op: &'static str, message: String) -> (r: Self)
        ensures
            r.says(ErrorKind::Dtype, op@, message@),
    {
        Self::new(ErrorKind::Dtype, op, message)
    }

    /// Shorthand for an [`ErrorKind::Device`] error.
    pub fn device(op: &'static str, message: String) -> (r: Self)
        ensures
            r.says(ErrorKind::Device, op@, message@),
    {
        Self::new(ErrorKind::Device, op, message)
    }

    /// Shorthand for an [`ErrorKind::Index`] error.
    pub fn index(op: &'static str, message: String) -> (r: Self)
        ensures
            r.says(ErrorKind::Index, op@, message@),
    {
        Self::new(ErrorKind::Index, op, message)
    }

    /// Build an [`ErrorKind::Unsupported`] error with dtype/device context.
    pub fn unsupported(op: &'static str, dtype: Dtype, device: Device, hint: String) -> (r: Self)
        ensures
            r.says(
                ErrorKind::Unsupported,
                op@,
                "dtype="@ + dtype.variant() + " device="@ + device.variant() + ": "@ + hint@,
            ),
    {
        let mut message: String = "dtype=".to_owned();
        message.append(dtype.variant_name());
        message.append(" device=");
        message.append(device.variant_name());
        message.append(": ");
        message.append(hint.as_str());
        Self::new(ErrorKind::Unsupported, op, message)
    }

    /// `"kind error in op: message"`.
    pub fn describe(&self) -> (r: String)
        ensures
            r@ == kind_text(self.kind) + " error in "@ + self.op@ + ": "@ + self.message@,
    {
        let mut s: String = kind_name(self.kind).to_owned();
        s.append(" error in ");
        s.append(self.op);
        s.append(": ");
        s.append(self.message.as_str());
        s
    }
}

impl Clone for Error {
    fn clone(&self) -> (r: Self)
        ensures
            r.says(self.kind, self.op@, self.message@),
    {
        Error { kind: self.kind, op: self.op, message: self.message.clone() }
    }
}

/// The word for an error class.
pub open spec fn kind_text(kind: ErrorKind) -> Seq<char> {
    match kind {
        ErrorKind::Shape => "shape"@,
        ErrorKind::Dtype => "dtype"@,
        ErrorKind::Device => "device"@,
        ErrorKind::NotUnique => "not-unique"@,
        ErrorKind::Overlap => "overlap"@,
        ErrorKind::Unsupported => "unsupported"@,
        ErrorKind::BackendPrecheck => "backend-precheck"@,
        ErrorKind::Index => "index"@,
        ErrorKind::Domain => "domain"@,
    }
}

/// The word for an error class.
pub fn kind_name(kind: ErrorKind) -> (r: &'static str)
    ensures
        r@ == kind_text(kind),
{
    match kind {
        ErrorKind::Shape => "shape",
        ErrorKind::Dtype => "dtype",
        ErrorKind::Device => "device",
        ErrorKind::NotUnique => "not-unique",
        ErrorKind::Overlap => "overlap",
        ErrorKind::Unsupported => "unsupported",
        ErrorKind::BackendPrecheck => "backend-precheck",
        ErrorKind::Index => "index",
        ErrorKind::Domain => "domain",
    }
}

} // verus!
