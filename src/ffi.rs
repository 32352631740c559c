//! The decision taken when a foreign caller asks to start the kernel: one
//! kernel per process, bound to the foreign port that asked first.
use vstd::prelude::*;

verus! {

/// Status returned when the kernel is started.
pub const FFI_STARTED: i32 = 1;

/// Status returned when a kernel was already registered.
pub const FFI_ALREADY_LOADED: i32 = -1;

/// Registers `port` as the foreign port that receives the kernel's output,
/// replacing any earlier one. Returns `FFI_STARTED` where none was
/// registered, and the caller then starts the kernel; otherwise returns
/// `FFI_ALREADY_LOADED` and nothing must be started.
pub fn load_and_execute_ffi_static(slot: &mut Option<i64>, port: i64) -> (r: i32)
    ensures
        *final(slot) == Some(port),
        *old(slot) is None ==> r == FFI_STARTED,
        *old(slot) is Some ==> r == FFI_ALREADY_LOADED,
{
    let r = match slot {
        Some(_) => FFI_ALREADY_LOADED,
        None => FFI_STARTED,
    };
    *slot = Some(port);
    r
}

} // verus!
