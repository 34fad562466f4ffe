//! mmap API business logic.

use vstd::prelude::*;

verus! {

/// What the allocator shim offers to the code that unmaps.
pub trait MmapAPI {
    /// Call if we're not reentrant.
    fn call_if_tracking<F: FnMut()>(&self, f: F);

    /// Implement removal of tracking metadata.
    fn remove_mmap(&self, addr: usize, len: usize);

    /// Return whether C module is initialized.
    fn is_initialized(&self) -> bool;
}

/// How the caller is to unmap.
#[derive(Clone, Copy, Debug, PartialEq, Eq, Structural)]
pub enum Munmap {
    /// By a system call of its own: the shim is not ready yet, and nothing
    /// was tracked.
    Directly,
    /// By the C library's `munmap`: the tracking metadata is already gone.
    /// If the unmapping fails the removal was wrong, but that is highly
    /// unlikely, and removing first prevents a race with another thread
    /// that maps the same address.
    ThroughLibc,
}

/// How to unmap, given whether the shim is ready.
pub fn how_to_unmap(initialized: bool) -> (how: Munmap)
    ensures
        how == (if initialized {
            Munmap::ThroughLibc
        } else {
            Munmap::Directly
        }),
{
    if initialized {
        Munmap::ThroughLibc
    } else {
        Munmap::Directly
    }
}

/// Before memory is unmapped: where the shim says that it is ready, has it
/// remove the tracking metadata of the range (which it does unless it is
/// entered again from within itself). The result says how to unmap.
pub fn munmap_wrapper<A: MmapAPI>(addr: usize, len: usize, api: &A) -> (how: Munmap) {
    let initialized = api.is_initialized();
    if initialized {
        api.call_if_tracking(
            || {
                api.remove_mmap(addr, len);
            },
        );
    }
    how_to_unmap(initialized)
}

} // verus!
