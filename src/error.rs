use vstd::prelude::*;

verus! {

/// Why the accelerator path could not run.
#[derive(Clone, Copy, Debug, PartialEq, Eq)]
pub enum GpuError {
    /// A fault described by a fixed message.
    Simple(&'static str),
    /// No kernel is initialized.
    KernelUninitialized,
    /// The accelerator is disabled.
    GpuDisabled,
}

} // verus!
