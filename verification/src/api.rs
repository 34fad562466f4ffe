//! What the allocator shim reports, applied to the tracker. Each function
//! here is one step: the caller holds the lock and the thread's call path,
//! hands them in, and afterwards does what the step's result asks for.

use crate::accounting::TrackerView;
use crate::allocation::{
    compressed_bytes, Allocation, CallstackId, ProcessUid, MIB, PARENT_PROCESS_NUMBER,
};
use crate::callsite::{
    CallSiteId, FunctionId, LineNumberInfo, VecFunctionLocations, UNKNOWN_FUNCTION,
};
use crate::memorytracking::{with_top_line, Callstack};
use crate::oom::{MemoryInfo, OutOfMemoryEstimator};
use crate::tracker::AllocationTracker;
use vstd::prelude::*;

verus! {

/// The tracker and what watches the memory, which one lock guards.
pub struct TrackerState<M: MemoryInfo> {
    pub oom: OutOfMemoryEstimator<M>,
    pub allocations: AllocationTracker<VecFunctionLocations>,
}

/// What became of a reported allocation.
#[derive(Clone, Copy, Debug, PartialEq, Eq, Structural)]
pub enum Recorded {
    /// It is recorded under this call path.
    Under(CallstackId),
    /// It is not recorded: a count of bytes or of call paths would leave the
    /// range of its type, or the call path remembers an id that the tracker
    /// never gave out.
    OutOfRange,
}

/// What a look at the memory found when an allocation was reported.
pub struct MemoryCheck {
    /// Whether memory has run out: the caller then gives the allocation
    /// back where it succeeded, and once it is recorded writes the
    /// out-of-memory profile to `default_path` and ends the process.
    pub out_of_memory: bool,
    /// Whether the allocation itself failed (its address is 0).
    pub failed: bool,
    /// Where the out-of-memory profile goes.
    pub default_path: String,
    /// Debugging info about the memory, to print where it has run out.
    pub memory_info: String,
}

/// The status with which the process ends once memory has run out.
pub const OUT_OF_MEMORY_EXIT_CODE: i32 = 53;

/// Whether a tracker can record `size` more bytes at `address` of the
/// parent process, as a heap allocation or as a mapping, without a count
/// leaving its range.
pub open spec fn fits(tracker: TrackerView, address: usize, size: usize, is_mmap: bool) -> bool {
    let parent = ProcessUid(PARENT_PROCESS_NUMBER);
    if is_mmap {
        address + size <= usize::MAX && tracker.current_bytes + size <= usize::MAX
    } else {
        &&& size + MIB / 2 <= usize::MAX
        &&& tracker.current_bytes - tracker.held_at(parent, address) + compressed_bytes(
            size as int,
        ) <= usize::MAX
        &&& tracker.missing_bytes + tracker.held_at(parent, address) <= usize::MAX
    }
}

/// Whether the tracker can record `size` more bytes at `address`.
pub fn check_fits(
    tracker: &AllocationTracker<VecFunctionLocations>,
    address: usize,
    size: usize,
    is_mmap: bool,
) -> (ok: bool)
    requires
        tracker.wf(),
    ensures
        ok == fits(tracker@, address, size, is_mmap),
{
    let current = tracker.get_current_allocated_bytes();
    if is_mmap {
        size <= usize::MAX - address && size <= usize::MAX - current
    } else {
        if size > usize::MAX - MIB / 2 {
            return false;
        }
        let held = tracker.get_allocation_size(ProcessUid::parent(), address);
        let missing = tracker.get_missing_allocated_bytes();
        let compressed = Allocation::new(0, size).size();
        proof {
            tracker@.lemma_held_within_current(ProcessUid(PARENT_PROCESS_NUMBER), address);
        }
        compressed <= usize::MAX - (current - held) && held <= usize::MAX - missing
    }
}

/// Whether the tracker can give the call path `calls` an id.
pub open spec fn can_intern(tracker: TrackerView, calls: Seq<CallSiteId>) -> bool {
    tracker.interned.contains(calls) || tracker.interned.len() < u32::MAX
}

/// The id under which an allocation at `line_number` of the call path is
/// recorded: the one the call path remembers for that line, if the tracker
/// has such an id; else the id of the call path with that line in its
/// innermost frame, if the tracker can give it one.
pub open spec fn id_for(tracker: TrackerView, callstack: Callstack, line_number: u32) -> Option<
    CallstackId,
> {
    match callstack.cached_for(line_number) {
        Some(known) => if known < tracker.path_totals.len() {
            Some(known)
        } else {
            None
        },
        None => {
            let calls = with_top_line(callstack@, line_number);
            if can_intern(tracker, calls) {
                Some(tracker.id_of(calls) as CallstackId)
            } else {
                None
            }
        },
    }
}

/// The tracker once the id for an allocation at `line_number` of the call
/// path is looked up: the call path is interned unless an id is remembered
/// for the line or none can be given.
pub open spec fn looked_up(
    tracker: TrackerView,
    callstack: Callstack,
    line_number: u32,
) -> TrackerView {
    let calls = with_top_line(callstack@, line_number);
    if callstack.cached_for(line_number).is_none() && can_intern(tracker, calls) {
        tracker.intern(calls)
    } else {
        tracker
    }
}

/// The id of the thread's call path for an allocation at `line_number`.
/// Where the call path remembers one for that line, that is it. Else the
/// line becomes that of the innermost frame, the tracker gives the id, and
/// the call path remembers it.
pub fn callstack_id_for(
    allocations: &mut AllocationTracker<VecFunctionLocations>,
    callstack: &mut Callstack,
    line_number: u32,
) -> (id: Option<CallstackId>)
    requires
        old(allocations).wf(),
    ensures
        final(allocations).wf(),
        final(allocations).catalog() == old(allocations).catalog(),
        final(allocations).seed() == old(allocations).seed(),
        id == id_for(old(allocations)@, *old(callstack), line_number),
        final(allocations)@ == looked_up(old(allocations)@, *old(callstack), line_number),
        id.is_some() ==> id.unwrap() < final(allocations)@.path_totals.len(),
        old(callstack).cached_for(line_number).is_some() ==> final(callstack)@ == old(callstack)@
            && final(callstack).cached() == old(callstack).cached(),
        old(callstack).cached_for(line_number).is_none() ==> final(callstack)@ == with_top_line(
            old(callstack)@,
            line_number,
        ),
        old(callstack).cached_for(line_number).is_none() ==> final(callstack).cached() == (
        match id {
            Some(id) => Some((line_number, id)),
            None => old(callstack).cached(),
        }),
{
    // If same line number as last callstack, and we have cached callstack
    // ID, reuse it:
    if let Some(known) = callstack.cached_id(line_number) {
        if (known as usize) < allocations.callstack_count() {
            return Some(known);
        } else {
            return None;
        }
    }
    // Set the new line number:
    callstack.set_top_line(line_number);
    if allocations.callstack_count() >= u32::MAX as usize && !allocations.knows_callstack(
        callstack,
    ) {
        return None;
    }
    // Calculate callstack ID, cache it, and then return it;
    let callstack_id = allocations.get_callstack_id(callstack);
    callstack.remember_id(line_number, callstack_id);
    Some(callstack_id)
}

/// What recording an allocation makes of a tracker.
pub open spec fn recorded_in(
    tracker: TrackerView,
    address: usize,
    size: usize,
    id: CallstackId,
    is_mmap: bool,
) -> TrackerView {
    let parent = ProcessUid(PARENT_PROCESS_NUMBER);
    if is_mmap {
        tracker.add_anon_mmap(parent, address, size, id)
    } else {
        tracker.add_allocation(parent, address, size, id)
    }
}

/// Looks at the memory when `size` bytes were allocated at `address`.
/// Memory has run out where the allocation failed, or where the estimator
/// says so. Then the tracker lets go of what a last profile does not need.
pub fn check_out_of_memory<M: MemoryInfo>(
    state: &mut TrackerState<M>,
    address: usize,
    size: usize,
) -> (check: MemoryCheck)
    requires
        old(state).allocations.wf(),
    ensures
        final(state).allocations.wf(),
        final(state).allocations.catalog() == old(state).allocations.catalog(),
        final(state).allocations.seed() == old(state).allocations.seed(),
        check.failed == (address == 0),
        check.failed ==> check.out_of_memory,
        check.out_of_memory ==> final(state).oom.check_threshold() == old(
            state,
        ).oom.check_threshold(),
        final(state).oom.minimal_required_available() == old(
            state,
        ).oom.minimal_required_available(),
        !check.failed && size <= old(state).oom.check_threshold() ==> {
            &&& !check.out_of_memory
            &&& final(state).oom.check_threshold() == old(state).oom.check_threshold() - size
        },
        !check.failed && size > old(state).oom.check_threshold() ==> exists|
            available_bytes: usize,
            resident_bytes: usize,
        |
            {
                &&& check.out_of_memory == (#[trigger] crate::oom::spec_memory_pressure(
                    available_bytes,
                    old(state).oom.minimal_required_available(),
                    resident_bytes,
                    old(state).allocations@.current_bytes as usize,
                ) != crate::oom::MemoryPressure::Enough)
                &&& !check.out_of_memory ==> final(state).oom.check_threshold() == available_bytes
                    / 100
            },
        final(state).allocations@ == (if check.out_of_memory {
            old(state).allocations@.oom_break_glass()
        } else {
            old(state).allocations@
        }),
        check.default_path@ == old(state).allocations@.default_path,
{
    let current_allocated_bytes = state.allocations.get_current_allocated_bytes();
    // Check if we're out of memory:
    let failed = address == 0;
    let ghost mut asked: (usize, usize) = (0, 0);
    let oom = if failed {
        true
    } else {
        let too_big = state.oom.too_big_allocation(size, current_allocated_bytes);
        proof {
            if size > old(state).oom.check_threshold() {
                let (available_bytes, resident_bytes) = choose|
                    available_bytes: usize,
                    resident_bytes: usize,
                |
                    {
                        &&& too_big == (#[trigger] crate::oom::spec_memory_pressure(
                            available_bytes,
                            old(state).oom.minimal_required_available(),
                            resident_bytes,
                            current_allocated_bytes,
                        ) != crate::oom::MemoryPressure::Enough)
                        &&& !too_big ==> state.oom.check_threshold() == available_bytes / 100
                    };
                asked = (available_bytes, resident_bytes);
            }
        }
        too_big
    };
    let ghost threshold = state.oom.check_threshold();
    // If we're out-of-memory, we're not going to exit this function or ever
    // free() anything ever again, so we should clear some memory in order to
    // reduce chances of running out as part of OOM reporting.
    let memory_info = if oom {
        state.allocations.oom_break_glass();
        state.oom.print_info()
    } else {
        String::new()
    };
    let default_path = state.allocations.default_path().clone();
    proof {
        assert(state.oom.check_threshold() == threshold);
        if !failed && size > old(state).oom.check_threshold() {
            assert(oom == (crate::oom::spec_memory_pressure(
                asked.0,
                old(state).oom.minimal_required_available(),
                asked.1,
                old(state).allocations@.current_bytes as usize,
            ) != crate::oom::MemoryPressure::Enough));
            assert(!oom ==> state.oom.check_threshold() == asked.0 / 100);
        }
    }
    MemoryCheck { out_of_memory: oom, failed, default_path, memory_info }
}

/// Records `size` bytes at `address` of the parent process under the call
/// path of the thread, as a heap allocation or as a mapping. Nothing is
/// recorded where the id of the call path cannot be had or a count would
/// leave its range.
pub fn record_allocation(
    allocations: &mut AllocationTracker<VecFunctionLocations>,
    callstack: &mut Callstack,
    address: usize,
    size: usize,
    line_number: u16,
    is_mmap: bool,
) -> (recorded: Recorded)
    requires
        old(allocations).wf(),
    ensures
        final(allocations).wf(),
        final(allocations).catalog() == old(allocations).catalog(),
        final(allocations).seed() == old(allocations).seed(),
        recorded == (match id_for(old(allocations)@, *old(callstack), line_number as u32) {
            Some(id) => if fits(
                looked_up(old(allocations)@, *old(callstack), line_number as u32),
                address,
                size,
                is_mmap,
            ) {
                Recorded::Under(id)
            } else {
                Recorded::OutOfRange
            },
            None => Recorded::OutOfRange,
        }),
        final(allocations)@ == (match recorded {
            Recorded::Under(id) => recorded_in(
                looked_up(old(allocations)@, *old(callstack), line_number as u32),
                address,
                size,
                id,
                is_mmap,
            ),
            Recorded::OutOfRange => looked_up(
                old(allocations)@,
                *old(callstack),
                line_number as u32,
            ),
        }),
{
    match callstack_id_for(allocations, callstack, line_number as u32) {
        Some(callstack_id) => {
            if !check_fits(allocations, address, size, is_mmap) {
                return Recorded::OutOfRange;
            }
            if is_mmap {
                allocations.add_anon_mmap(ProcessUid::parent(), address, size, callstack_id);
            } else {
                allocations.add_allocation(ProcessUid::parent(), address, size, callstack_id);
            }
            Recorded::Under(callstack_id)
        },
        None => Recorded::OutOfRange,
    }
}

/// Add a new allocation based off the current callstack: first a look at
/// the memory, then the record.
pub fn add_allocation<M: MemoryInfo>(
    state: &mut TrackerState<M>,
    callstack: &mut Callstack,
    address: usize,
    size: usize,
    line_number: u16,
    is_mmap: bool,
) -> (outcome: (MemoryCheck, Recorded))
    requires
        old(state).allocations.wf(),
    ensures
        final(state).allocations.wf(),
        final(state).allocations.catalog() == old(state).allocations.catalog(),
        final(state).allocations.seed() == old(state).allocations.seed(),
        outcome.0.failed == (address == 0),
        outcome.0.failed ==> outcome.0.out_of_memory,
        !outcome.0.failed && size <= old(state).oom.check_threshold() ==> !outcome.0.out_of_memory,
        outcome.0.default_path@ == old(state).allocations@.default_path,
        ({
            let checked = if outcome.0.out_of_memory {
                old(state).allocations@.oom_break_glass()
            } else {
                old(state).allocations@
            };
            let found = looked_up(checked, *old(callstack), line_number as u32);
            &&& outcome.1 == (match id_for(checked, *old(callstack), line_number as u32) {
                Some(id) => if fits(found, address, size, is_mmap) {
                    Recorded::Under(id)
                } else {
                    Recorded::OutOfRange
                },
                None => Recorded::OutOfRange,
            })
            &&& final(state).allocations@ == (match outcome.1 {
                Recorded::Under(id) => recorded_in(found, address, size, id, is_mmap),
                Recorded::OutOfRange => found,
            })
        }),
{
    let check = check_out_of_memory(state, address, size);
    let recorded = record_allocation(
        &mut state.allocations,
        callstack,
        address,
        size,
        line_number,
        is_mmap,
    );
    (check, recorded)
}

/// Free an existing allocation. Where a count would leave its range,
/// nothing is freed, and the result says so.
pub fn free_allocation<M: MemoryInfo>(state: &mut TrackerState<M>, address: usize) -> (done: bool)
    requires
        old(state).allocations.wf(),
    ensures
        final(state).allocations.wf(),
        final(state).allocations.catalog() == old(state).allocations.catalog(),
        final(state).allocations.seed() == old(state).allocations.seed(),
        done == !(old(state).allocations@.debug_mode && old(state).allocations@.failed_frees
            >= usize::MAX && !old(state).allocations@.allocations(
            ProcessUid(PARENT_PROCESS_NUMBER),
        ).contains_key(address)),
        final(state).allocations@ == (if done {
            old(state).allocations@.free_allocation(ProcessUid(PARENT_PROCESS_NUMBER), address)
        } else {
            old(state).allocations@
        }),
{
    if state.allocations.is_debug_mode() && state.allocations.get_failed_deallocations()
        == usize::MAX && !state.allocations.holds(ProcessUid::parent(), address) {
        return false;
    }
    state.allocations.free_allocation(ProcessUid::parent(), address);
    true
}

/// Get the size of an allocation, or 0 if it's not tracked.
pub fn get_allocation_size<M: MemoryInfo>(state: &TrackerState<M>, address: usize) -> (size: usize)
    requires
        state.allocations.wf(),
    ensures
        size == state.allocations@.held_at(ProcessUid(PARENT_PROCESS_NUMBER), address),
{
    state.allocations.get_allocation_size(ProcessUid::parent(), address)
}

/// Unmaps `size` bytes from `address` on in the parent process. Nothing is
/// unmapped, and the result says so, where the end of the range is past
/// the last address.
pub fn free_anon_mmap<M: MemoryInfo>(
    state: &mut TrackerState<M>,
    address: usize,
    size: usize,
) -> (done: bool)
    requires
        old(state).allocations.wf(),
    ensures
        final(state).allocations.wf(),
        final(state).allocations.catalog() == old(state).allocations.catalog(),
        final(state).allocations.seed() == old(state).allocations.seed(),
        done == (address + size <= usize::MAX),
        final(state).allocations@ == (if done {
            old(state).allocations@.free_anon_mmap(ProcessUid(PARENT_PROCESS_NUMBER), address, size)
        } else {
            old(state).allocations@
        }),
{
    if size > usize::MAX - address {
        return false;
    }
    state.allocations.free_anon_mmap(ProcessUid::parent(), address, size);
    true
}

/// Reset internal state.
pub fn reset<M: MemoryInfo>(state: &mut TrackerState<M>, default_path: String)
    requires
        old(state).allocations.wf(),
    ensures
        final(state).allocations.wf(),
        final(state).allocations.catalog() == old(state).allocations.catalog(),
        final(state).allocations.seed() == old(state).allocations.seed(),
        final(state).allocations@ == old(state).allocations@.reset(default_path@),
{
    state.allocations.reset(default_path);
}

/// Whether the catalog has an id left for one more function.
pub open spec fn has_room(functions: &VecFunctionLocations) -> bool {
    functions@.len() < usize::MAX && functions@.len() < UNKNOWN_FUNCTION
}

/// Register a new function/filename location. Where the catalog is full
/// the function gets the id that stands for an unknown one.
pub fn add_function<M: MemoryInfo>(
    state: &mut TrackerState<M>,
    filename: String,
    function_name: String,
) -> (id: FunctionId)
    ensures
        final(state).allocations@ == old(state).allocations@,
        final(state).allocations.seed() == old(state).allocations.seed(),
        old(state).allocations.wf() ==> final(state).allocations.wf(),
        has_room(old(state).allocations.catalog()) ==> {
            &&& id.0 == old(state).allocations.catalog()@.len()
            &&& final(state).allocations.catalog()@ == old(state).allocations.catalog()@.push(
                (function_name@, filename@),
            )
        },
        !has_room(old(state).allocations.catalog()) ==> {
            &&& id == FunctionId(UNKNOWN_FUNCTION)
            &&& final(state).allocations.catalog() == old(state).allocations.catalog()
        },
{
    let count = state.allocations.functions().len();
    if count < usize::MAX && (count as u64) < UNKNOWN_FUNCTION {
        state.allocations.add_function(filename, function_name)
    } else {
        FunctionId::unknown()
    }
}

/// Register a new function/filename location, if the state can be had.
/// Without it (it is locked: a profile is being written, and to wait for it
/// would never end) the function gets the id that stands for an unknown
/// one.
pub fn add_function_if_unlocked<M: MemoryInfo>(
    state: Option<&mut TrackerState<M>>,
    filename: String,
    function_name: String,
) -> (id: FunctionId)
    ensures
        match state {
            None => id == FunctionId(UNKNOWN_FUNCTION),
            Some(unlocked) => {
                &&& final(unlocked).allocations@ == unlocked.allocations@
                &&& final(unlocked).allocations.seed() == unlocked.allocations.seed()
                &&& has_room(unlocked.allocations.catalog()) ==> {
                    &&& id.0 == unlocked.allocations.catalog()@.len()
                    &&& final(unlocked).allocations.catalog()@
                        == unlocked.allocations.catalog()@.push((function_name@, filename@))
                }
                &&& !has_room(unlocked.allocations.catalog()) ==> {
                    &&& id == FunctionId(UNKNOWN_FUNCTION)
                    &&& final(unlocked).allocations.catalog() == unlocked.allocations.catalog()
                }
            },
        },
{
    match state {
        Some(state) => add_function(state, filename, function_name),
        None => {
            // This will help in SIGUSR2 handler: dumping calls into Python, we
            // can't really acquire lock since it's in the middle of dumping.
            // So just give up.
            FunctionId::unknown()
        },
    }
}

/// Add to per-thread function stack:
pub fn start_call(
    callstack: &mut Callstack,
    call_site: FunctionId,
    parent_line_number: u16,
    line_number: u16,
)
    ensures
        final(callstack)@ == with_top_line(old(callstack)@, parent_line_number as u32).push(
            CallSiteId {
                function: call_site,
                line_number: LineNumberInfo::LineNumber(line_number as u32),
            },
        ),
        final(callstack).cached().is_none(),
{
    callstack.start_call(
        parent_line_number as u32,
        CallSiteId::new(call_site, LineNumberInfo::LineNumber(line_number as u32)),
    );
}

/// Finish off (and move to reporting structure) current function in function
/// stack.
pub fn finish_call(callstack: &mut Callstack)
    ensures
        final(callstack)@ == (if old(callstack)@.len() > 0 {
            old(callstack)@.drop_last()
        } else {
            old(callstack)@
        }),
        final(callstack).cached().is_none(),
{
    callstack.finish_call();
}

} // verus!
