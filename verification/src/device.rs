//! Places where storage lives.
use vstd::prelude::*;

verus! {

/// Where tensor storage lives.
#[derive(Clone, Copy, Debug, PartialEq, Eq, Hash, Structural)]
pub enum Device {
    /// Host / CPU buffers (the default).
    Cpu,
    /// GPU storage. Not a default placement; only large matrix products go there.
    Gpu,
}

impl Device {
    /// `"cpu"` or `"gpu"`.
    pub fn name(self) -> (r: &'static str)
        ensures
            self == Device::Cpu ==> r@ == "cpu"@,
            self == Device::Gpu ==> r@ == "gpu"@,
    {
        match self {
            Device::Cpu => "cpu",
            Device::Gpu => "gpu",
        }
    }

    /// Name of the variant.
    pub open spec fn variant(self) -> Seq<char> {
        match self {
            Device::Cpu => "Cpu"@,
            Device::Gpu => "Gpu"@,
        }
    }

    /// Name of the variant, as error messages quote it.
    pub fn variant_name(self) -> (r: &'static str)
        ensures
            r@ == self.variant(),
    {
        match self {
            Device::Cpu => "Cpu",
            Device::Gpu => "Gpu",
        }
    }
}

} // verus!
