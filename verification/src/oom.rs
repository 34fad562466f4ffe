//! Logic for handling out-of-memory situations.

use vstd::prelude::*;

verus! {

/// How much memory the machine has and how much of it is in use. What the
/// methods return is whatever the system says when they are asked.
pub trait MemoryInfo {
    /// Return how much memory the computer has, as bytes.
    fn total_memory(&self) -> usize;

    /// Return how much memory we have, as bytes.
    fn get_available_memory(&self) -> usize;

    /// Return how much process memory is resident, as bytes.
    fn get_resident_process_memory(&self) -> usize;

    /// Some debug info, for the caller to print.
    fn print_info(&self) -> String;
}

/// Least number of bytes that is always wanted available.
pub const MINIMAL_AVAILABLE_BYTES: usize = 100 * 1024 * 1024;

/// The number of bytes that must stay available on a machine with
/// `total_memory` bytes: 100 MiB, or 2% of the memory where that is more.
pub open spec fn spec_minimal_required(total_memory: usize) -> usize {
    if total_memory / 50 > MINIMAL_AVAILABLE_BYTES {
        (total_memory / 50) as usize
    } else {
        MINIMAL_AVAILABLE_BYTES
    }
}

/// The number of bytes that must stay available on a machine with
/// `total_memory` bytes.
pub fn minimal_required(total_memory: usize) -> (bytes: usize)
    ensures
        bytes == spec_minimal_required(total_memory),
{
    let share = total_memory / 50;
    if share > MINIMAL_AVAILABLE_BYTES {
        share
    } else {
        MINIMAL_AVAILABLE_BYTES
    }
}

/// Why memory counts as run out.
#[derive(Clone, Copy, Debug, PartialEq, Eq, Structural)]
pub enum MemoryPressure {
    /// There is enough.
    Enough,
    /// Less is available than must stay available.
    LowAvailable,
    /// The program has allocated more than is resident, and by more than is
    /// available: it is taken to be swapping heavily.
    ExcessiveSwapping,
}

/// Whether memory has run out, and why. It has where fewer bytes are
/// available than must stay so. It also has where the bytes that the
/// program allocated and that are not resident (taken to be swapped out)
/// are more than the bytes available.
pub open spec fn spec_memory_pressure(
    available_bytes: usize,
    minimal_required_available_bytes: usize,
    resident_bytes: usize,
    total_allocated_bytes: usize,
) -> MemoryPressure {
    if available_bytes < minimal_required_available_bytes {
        MemoryPressure::LowAvailable
    } else if resident_bytes < total_allocated_bytes && total_allocated_bytes - resident_bytes
        > available_bytes {
        MemoryPressure::ExcessiveSwapping
    } else {
        MemoryPressure::Enough
    }
}

/// Whether memory has run out, and why.
pub fn memory_pressure(
    available_bytes: usize,
    minimal_required_available_bytes: usize,
    resident_bytes: usize,
    total_allocated_bytes: usize,
) -> (pressure: MemoryPressure)
    ensures
        pressure == spec_memory_pressure(
            available_bytes,
            minimal_required_available_bytes,
            resident_bytes,
            total_allocated_bytes,
        ),
{
    // Check if we're in danger zone, with very low available memory:
    if available_bytes < minimal_required_available_bytes {
        return MemoryPressure::LowAvailable;
    }
    // Because we don't track all allocations, technically resident memory
    // might be larger than what we think we allocated!
    if resident_bytes < total_allocated_bytes && (total_allocated_bytes - resident_bytes)
        > available_bytes {
        return MemoryPressure::ExcessiveSwapping;
    }
    MemoryPressure::Enough
}

/// Estimate whether we're about to run out of memory.
///
/// Asking the system is expensive, so it is asked now and then only: after
/// each check that finds enough memory, not before another 1% of the bytes
/// then available have been allocated.
pub struct OutOfMemoryEstimator<M: MemoryInfo> {
    // How many bytes it takes until we check again: whenever it's reset, it
    // starts as 1% of available memory.
    check_threshold_bytes: usize,
    // Minimum number of bytes we want to be available at any time.
    minimal_required_available_bytes: usize,
    // Pluggable way to get memory usage of the system and process.
    pub memory_info: M,
}

impl<M: MemoryInfo> OutOfMemoryEstimator<M> {
    /// Bytes that may still be allocated before the system is asked again.
    pub closed spec fn check_threshold(&self) -> usize {
        self.check_threshold_bytes
    }

    /// Bytes that must stay available.
    pub closed spec fn minimal_required_available(&self) -> usize {
        self.minimal_required_available_bytes
    }

    /// An estimator that asks the system at the first allocation.
    pub fn new(memory_info: M) -> (estimator: Self)
        ensures
            estimator.check_threshold() == 0,
            exists|total_memory: usize|
                estimator.minimal_required_available() == spec_minimal_required(total_memory),
    {
        let total_memory = memory_info.total_memory();
        Self {
            check_threshold_bytes: 0,
            // Either 100MB or 2% of available memory, whatever is bigger.
            minimal_required_available_bytes: minimal_required(total_memory),
            memory_info,
        }
    }

    /// Bytes that may still be allocated before the system is asked again.
    pub fn get_check_threshold_bytes(&self) -> (bytes: usize)
        ensures
            bytes == self.check_threshold(),
    {
        self.check_threshold_bytes
    }

    /// Bytes that must stay available.
    pub fn get_minimal_required_available_bytes(&self) -> (bytes: usize)
        ensures
            bytes == self.minimal_required_available(),
    {
        self.minimal_required_available_bytes
    }

    /// Takes note of what the system said. Where memory has run out nothing
    /// changes; where there is enough, the system is not asked again before
    /// 1% of the available bytes have been allocated.
    pub fn decide(
        &mut self,
        available_bytes: usize,
        resident_bytes: usize,
        total_allocated_bytes: usize,
    ) -> (pressure: MemoryPressure)
        ensures
            pressure == spec_memory_pressure(
                available_bytes,
                old(self).minimal_required_available(),
                resident_bytes,
                total_allocated_bytes,
            ),
            final(self).minimal_required_available() == old(self).minimal_required_available(),
            final(self).check_threshold() == (if pressure == MemoryPressure::Enough {
                (available_bytes / 100) as usize
            } else {
                old(self).check_threshold()
            }),
    {
        let pressure = memory_pressure(
            available_bytes,
            self.minimal_required_available_bytes,
            resident_bytes,
            total_allocated_bytes,
        );
        match pressure {
            MemoryPressure::Enough => {
                // Still have enough, so threshold to 1% to running out
                // altogether. If we're at 101MB free, this will check
                // basically at the boundary. Anything higher and we'll check
                // even farther away, so it's still safe, and this prevents us
                // from checking too often when we're close.
                self.check_threshold_bytes = available_bytes / 100;
            },
            _ => {},
        }
        pressure
    }

    /// Asks the system, and says whether memory has run out, and why.
    pub fn check_memory(&mut self, total_allocated_bytes: usize) -> (pressure: MemoryPressure)
        ensures
            final(self).minimal_required_available() == old(self).minimal_required_available(),
            exists|available_bytes: usize, resident_bytes: usize|
                {
                    &&& pressure == #[trigger] spec_memory_pressure(
                        available_bytes,
                        old(self).minimal_required_available(),
                        resident_bytes,
                        total_allocated_bytes,
                    )
                    &&& final(self).check_threshold() == (if pressure == MemoryPressure::Enough {
                        (available_bytes / 100) as usize
                    } else {
                        old(self).check_threshold()
                    })
                },
    {
        let available_bytes = self.memory_info.get_available_memory();
        if available_bytes < self.minimal_required_available_bytes {
            return self.decide(available_bytes, 0, total_allocated_bytes);
        }
        // Check if we're excessively swapping. On macOS in particular there is
        // a strong tendency to go to swap (coupled with difficulty getting swap
        // numbers for a process). So if swap is bigger than available bytes,
        // we'll assume we're effectively OOM on theory that extensive swapping
        // is highly undesirable. We calculate relevant swap by subtracting
        // resident memory from the memory we know we've allocated.
        let rss = self.memory_info.get_resident_process_memory();
        self.decide(available_bytes, rss, total_allocated_bytes)
    }

    /// Check if we're (close to being) out of memory.
    pub fn are_we_oom(&mut self, total_allocated_bytes: usize) -> (oom: bool)
        ensures
            final(self).minimal_required_available() == old(self).minimal_required_available(),
            oom ==> final(self).check_threshold() == old(self).check_threshold(),
            exists|available_bytes: usize, resident_bytes: usize|
                {
                    &&& oom == (#[trigger] spec_memory_pressure(
                        available_bytes,
                        old(self).minimal_required_available(),
                        resident_bytes,
                        total_allocated_bytes,
                    ) != MemoryPressure::Enough)
                    &&& !oom ==> final(self).check_threshold() == available_bytes / 100
                },
    {
        match self.check_memory(total_allocated_bytes) {
            MemoryPressure::Enough => false,
            _ => true,
        }
    }

    /// Given new allocation size and total allocated bytes for the process,
    /// return whether we're out-of-memory. Only checks actual memory
    /// availability intermittently, as an optimization.
    pub fn too_big_allocation(
        &mut self,
        allocated_bytes: usize,
        total_allocated_bytes: usize,
    ) -> (oom: bool)
        ensures
            final(self).minimal_required_available() == old(self).minimal_required_available(),
            allocated_bytes <= old(self).check_threshold() ==> !oom,
            allocated_bytes <= old(self).check_threshold() ==> final(self).check_threshold() == old(
                self,
            ).check_threshold() - allocated_bytes,
            oom ==> final(self).check_threshold() == old(self).check_threshold(),
            allocated_bytes > old(self).check_threshold() ==> exists|
                available_bytes: usize,
                resident_bytes: usize,
            |
                {
                    &&& oom == (#[trigger] spec_memory_pressure(
                        available_bytes,
                        old(self).minimal_required_available(),
                        resident_bytes,
                        total_allocated_bytes,
                    ) != MemoryPressure::Enough)
                    &&& !oom ==> final(self).check_threshold() == available_bytes / 100
                },
    {
        let current_threshold = self.check_threshold_bytes;
        if allocated_bytes > current_threshold {
            // We've allocated enough that it's time to check for potential OOM
            // condition.
            self.are_we_oom(total_allocated_bytes)
        } else {
            self.check_threshold_bytes = current_threshold - allocated_bytes;
            false
        }
    }

    /// Some debug info, for the caller to print.
    pub fn print_info(&self) -> String {
        self.memory_info.print_info()
    }
}

/// Memory without end. Used to disable out-of-memory heuristic.
pub struct InfiniteMemory {}

/// What endless memory reports as its size and as available: 2^48 bytes, or
/// as much as an address can tell where that is less.
pub open spec fn spec_endless() -> usize {
    if usize::MAX >= 0x1_0000_0000_0000u64 {
        0x1_0000_0000_0000u64 as usize
    } else {
        usize::MAX
    }
}

/// What endless memory reports as its size and as available.
pub fn endless() -> (bytes: usize)
    ensures
        bytes == spec_endless(),
{
    if usize::MAX as u64 >= 0x1_0000_0000_0000 {
        0x1_0000_0000_0000u64 as usize
    } else {
        usize::MAX
    }
}

impl MemoryInfo for InfiniteMemory {
    fn total_memory(&self) -> (bytes: usize)
        ensures
            bytes == spec_endless(),
    {
        endless()
    }

    fn get_available_memory(&self) -> (bytes: usize)
        ensures
            bytes == spec_endless(),
    {
        endless()
    }

    fn get_resident_process_memory(&self) -> (bytes: usize)
        ensures
            bytes == 0,
    {
        0
    }

    fn print_info(&self) -> (info: String)
        ensures
            info@ == "=fil-profile= Out of memory detection is disabled."@,
    {
        "=fil-profile= Out of memory detection is disabled.".to_owned()
    }
}

/// What a count of bytes that was worked out with signed numbers stands for
/// as a size: itself, or, where it is negative, the huge size that the same
/// bits spell.
pub open spec fn as_size(bytes: int) -> int {
    if bytes >= 0 {
        bytes
    } else {
        bytes + 0x1_0000_0000_0000_0000
    }
}

/// The bytes that a control group leaves available: all that an address
/// can tell where the group has no limit (a limit of 0), else the limit
/// less the usage. Usage above the limit counts as no limit in effect.
pub open spec fn spec_cgroup_available_memory(limit_in_bytes: i64, usage_in_bytes: u64) -> int {
    if limit_in_bytes == 0 {
        usize::MAX as int
    } else {
        let left = as_size(limit_in_bytes - usage_in_bytes);
        if left > usize::MAX {
            usize::MAX as int
        } else {
            left
        }
    }
}

/// The bytes that a control group leaves available.
pub fn cgroup_available_memory(limit_in_bytes: i64, usage_in_bytes: u64) -> (available: usize)
    requires
        usage_in_bytes <= i64::MAX,
        limit_in_bytes - usage_in_bytes >= i64::MIN,
    ensures
        available == spec_cgroup_available_memory(limit_in_bytes, usage_in_bytes),
{
    if limit_in_bytes == 0 {
        // A limit of 0 is nonsensical. Seen on Docker with cgroups v1 with no
        // limit set, and the usage was also 0. So just assume there is no
        // limit.
        return usize::MAX;
    }
    let left: i64 = limit_in_bytes - usage_in_bytes as i64;
    let size: u128 = if left >= 0 {
        left as u128
    } else {
        (0x1_0000_0000_0000_0000i128 + left as i128) as u128
    };
    if size > usize::MAX as u128 {
        usize::MAX
    } else {
        size as usize
    }
}

/// The bytes available to the process: what the system has available, or
/// what its control group leaves it where that is less.
pub fn available_memory(system_available: u64, cgroup_available: usize) -> (available: usize)
    ensures
        available as int == (if system_available <= cgroup_available {
            system_available as int
        } else {
            cgroup_available as int
        }),
{
    if system_available <= cgroup_available as u64 {
        system_available as usize
    } else {
        cgroup_available
    }
}

} // verus!
