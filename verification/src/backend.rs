//! The compute backends that routing decisions tell apart.

use vstd::prelude::*;

verus! {

/// The active compute backend.
#[derive(Debug, Clone, Copy, PartialEq, Eq, Structural)]
pub enum Backend {
    Cpu,
    Cuda,
    Rocm,
    Wgpu,
    /// A backend that no decision treats on its own.
    Other,
}

/// Where a caller wants the work done.
#[derive(Debug, Clone, Copy, PartialEq, Eq, Structural)]
pub enum Device {
    /// Wherever the shape of the work suggests.
    Auto,
    Cpu,
    Gpu,
}

impl Device {
    /// Whether the device is chosen, given what the shape suggests: a stated
    /// wish wins over it.
    pub fn prefers_device(self, suggested: bool) -> (r: bool)
        ensures
            r == match self {
                Device::Auto => suggested,
                Device::Cpu => false,
                Device::Gpu => true,
            },
    {
        match self {
            Device::Auto => suggested,
            Device::Cpu => false,
            Device::Gpu => true,
        }
    }
}

} // verus!
