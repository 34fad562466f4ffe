//! The tracker: every live allocation and mapping with the call path that
//! made it, the live bytes of each call path, and the same at the peak.

use crate::accounting::{
    credited, debited, lemma_position, lemma_position_found, position, ProcessState, TrackerView,
};
use crate::allocation::{Allocation, CallstackId, ProcessUid, MIB};
use crate::callsite::FunctionLocations;
use crate::interner::CallstackInterner;
use crate::memorytracking::Callstack;
use crate::rangemap::RangeMap;
use crate::usage::{
    counts, sum, totals_clear, totals_clone, totals_get, totals_len, totals_new, totals_push_back,
    totals_set,
};
use crate::util::{map_entries, map_get, map_insert, map_remove, new_hashmap};
use std::collections::HashMap;
use vstd::prelude::*;

verus! {

/// The live records of one process.
pub struct ProcessRecords {
    process: ProcessUid,
    // malloc()/calloc():
    allocations: HashMap<usize, Allocation, ahash::RandomState>,
    // anonymous mmap(), i.e. not file backed:
    mmaps: RangeMap<CallstackId>,
}

impl ProcessRecords {
    /// The records as plain values.
    pub closed spec fn state(&self) -> ProcessState {
        ProcessState { process: self.process, allocations: self.allocations@, mmaps: self.mmaps@ }
    }

    fn new(process: ProcessUid, hash_seed: Option<u64>) -> (records: Self)
        requires
            hash_seed.is_some() ==> hash_seed.unwrap() + 3 <= u64::MAX,
        ensures
            records.state() == ProcessState::empty(process),
    {
        ProcessRecords { process, allocations: new_hashmap(hash_seed), mmaps: RangeMap::new() }
    }
}

/// Adds `bytes` to the total of `id` and to the live bytes.
fn add_usage(totals: &mut im::Vector<usize>, current: &mut usize, id: CallstackId, bytes: usize)
    requires
        id < counts(*old(totals)).len(),
        sum(counts(*old(totals))) == *old(current),
        *old(current) + bytes <= usize::MAX,
    ensures
        counts(*final(totals)) == credited(counts(*old(totals)), id, bytes as int),
        *final(current) == *old(current) + bytes,
        sum(counts(*final(totals))) == *final(current),
{
    proof {
        crate::usage::lemma_sum_bounds_each(counts(*totals), id as int);
        crate::usage::lemma_sum_update(
            counts(*totals),
            id as int,
            (counts(*totals)[id as int] + bytes) as usize,
        );
    }
    *current = *current + bytes;
    let index = id as usize;
    let so_far = totals_get(totals, index);
    totals_set(totals, index, so_far + bytes);
}

/// Takes `bytes` from the total of `id` and from the live bytes.
fn remove_usage(totals: &mut im::Vector<usize>, current: &mut usize, id: CallstackId, bytes: usize)
    requires
        id < counts(*old(totals)).len(),
        sum(counts(*old(totals))) == *old(current),
        bytes <= counts(*old(totals))[id as int],
    ensures
        counts(*final(totals)) == debited(counts(*old(totals)), id, bytes as int),
        *final(current) == *old(current) - bytes,
        sum(counts(*final(totals))) == *final(current),
{
    proof {
        crate::usage::lemma_sum_bounds_each(counts(*totals), id as int);
        crate::usage::lemma_sum_update(
            counts(*totals),
            id as int,
            (counts(*totals)[id as int] - bytes) as usize,
        );
    }
    *current = *current - bytes;
    let index = id as usize;
    let so_far = totals_get(totals, index);
    totals_set(totals, index, so_far - bytes);
}

/// The main data structure tracking everything.
pub struct AllocationTracker<FL: FunctionLocations> {
    records: Vec<ProcessRecords>,
    // Map FunctionIds to function + filename strings, so we can store the
    // former and save memory.
    pub functions: FL,
    // Map CallstackIds to Callstacks, so we can store the former and save
    // memory:
    interner: CallstackInterner,
    // Both malloc() and mmap():
    current_memory_usage: im::Vector<usize>,  // Map CallstackId -> total memory usage
    peak_memory_usage: im::Vector<usize>,  // Map CallstackId -> total memory usage
    current_allocated_bytes: usize,
    peak_allocated_bytes: usize,
    // Default directory to write out data lacking other info:
    default_path: String,
    // Allocations that somehow disappeared.
    missing_allocated_bytes: usize,
    // free()/realloc() of unknown address.
    failed_deallocations: usize,
    // Seed of the hashers of the address maps, if they are to be the same
    // from run to run.
    hash_seed: Option<u64>,
    debug_mode: bool,
}

impl<FL: FunctionLocations> View for AllocationTracker<FL> {
    type V = TrackerView;

    closed spec fn view(&self) -> TrackerView {
        TrackerView {
            processes: Seq::new(self.records@.len(), |i: int| self.records@[i].state()),
            path_totals: counts(self.current_memory_usage),
            peak_path_totals: counts(self.peak_memory_usage),
            current_bytes: self.current_allocated_bytes as int,
            peak_bytes: self.peak_allocated_bytes as int,
            missing_bytes: self.missing_allocated_bytes as int,
            failed_frees: self.failed_deallocations as int,
            interned: self.interner@,
            default_path: self.default_path@,
            debug_mode: self.debug_mode,
        }
    }
}

impl<FL: FunctionLocations> AllocationTracker<FL> {
    /// What always holds of the parts of a tracker that do not show: the
    /// seed of the hashers, if there is one, leaves room for the keys that
    /// are made of it, the call paths are hashed with those keys, and the
    /// interner's hints name call paths that have an id.
    pub closed spec fn parts_wf(&self) -> bool {
        &&& self.hash_seed.is_some() ==> self.hash_seed.unwrap() + 3 <= u64::MAX
        &&& self.hash_seed.is_some() ==> self.interner.hash_keys()
            == crate::util::keys_for_seed(self.hash_seed.unwrap())
        &&& self.interner.hints_wf()
    }

    /// The seed that the tracker was made with, if it was made with one.
    pub closed spec fn seed(&self) -> Option<u64> {
        self.hash_seed
    }

    /// The keys with which the tracker hashes call paths.
    pub closed spec fn path_keys(&self) -> ahash::RandomState {
        self.interner.hash_keys()
    }

    /// A tracker that was made with a seed hashes call paths with the keys
    /// of that seed, whatever it has seen since.
    pub proof fn lemma_seed_gives_keys(&self)
        requires
            self.wf(),
        ensures
            self.seed().is_some() ==> self.seed().unwrap() + 3 <= u64::MAX && self.path_keys()
                == crate::util::keys_for_seed(self.seed().unwrap()),
    {
    }

    /// The catalog that names the functions of the call paths.
    pub closed spec fn catalog(&self) -> &FL {
        &self.functions
    }

    /// The catalog that names the functions of the call paths.
    pub fn functions(&self) -> (functions: &FL)
        ensures
            functions == self.catalog(),
    {
        &self.functions
    }

    /// What always holds of a tracker.
    pub open spec fn wf(&self) -> bool {
        self@.wf() && self.parts_wf()
    }

    /// A tracker that has seen nothing yet. Its address maps hash with keys
    /// drawn at random, and it does not count frees of unknown addresses.
    pub fn new(default_path: String, functions: FL) -> (tracker: AllocationTracker<FL>)
        ensures
            tracker@ == TrackerView::initial(default_path@, false),
            *tracker.catalog() == functions,
            tracker.seed().is_none(),
            tracker.wf(),
            tracker@.consistent(),
    {
        Self::with_options(default_path, functions, None, false)
    }

    /// A tracker that has seen nothing yet. With a seed its address maps
    /// hash alike from run to run; in debug mode it counts the frees of
    /// addresses that hold nothing.
    pub fn with_options(
        default_path: String,
        functions: FL,
        hash_seed: Option<u64>,
        debug_mode: bool,
    ) -> (tracker: AllocationTracker<FL>)
        requires
            hash_seed.is_some() ==> hash_seed.unwrap() + 3 <= u64::MAX,
        ensures
            tracker@ == TrackerView::initial(default_path@, debug_mode),
            *tracker.catalog() == functions,
            tracker.seed() == hash_seed,
            tracker.wf(),
            tracker@.consistent(),
    {
        let mut records: Vec<ProcessRecords> = Vec::new();
        records.push(ProcessRecords::new(ProcessUid::parent(), hash_seed));
        let tracker = AllocationTracker {
            records,
            interner: CallstackInterner::with_seed(hash_seed),
            current_memory_usage: totals_new(),
            peak_memory_usage: totals_new(),
            functions,
            current_allocated_bytes: 0,
            peak_allocated_bytes: 0,
            missing_allocated_bytes: 0,
            failed_deallocations: 0,
            default_path,
            hash_seed,
            debug_mode,
        };
        proof {
            TrackerView::lemma_initial(default_path@, debug_mode);
            assert(tracker@.processes =~= TrackerView::initial(
                default_path@,
                debug_mode,
            ).processes);
            assert(tracker@ =~= TrackerView::initial(default_path@, debug_mode));
        }
        tracker
    }

    /// Live bytes.
    pub fn get_current_allocated_bytes(&self) -> (bytes: usize)
        ensures
            bytes == self@.current_bytes,
    {
        self.current_allocated_bytes
    }

    /// The highest number of live bytes that was observed.
    pub fn get_peak_allocated_bytes(&self) -> (bytes: usize)
        ensures
            bytes == self@.peak_bytes,
    {
        self.peak_allocated_bytes
    }

    /// Where the records of `process` stand, if it has any.
    fn find_process(&self, process: ProcessUid) -> (found: Option<usize>)
        requires
            self.wf(),
        ensures
            found.is_some() == position(self@.processes, process).is_some(),
            found.is_some() ==> position(self@.processes, process) == Some(found.unwrap() as int)
                && found.unwrap() < self.records.len(),
    {
        proof {
            lemma_position(self@.processes, process);
        }
        let mut idx: usize = 0;
        while idx < self.records.len()
            invariant
                idx <= self.records.len(),
                self.wf(),
                forall|j: int| 0 <= j < idx ==> (#[trigger] self@.processes[j]).process != process,
            decreases self.records.len() - idx,
        {
            if self.records[idx].process == process {
                proof {
                    assert(self@.processes[idx as int].process == process);
                    lemma_position_found(self@.processes, process, idx as int);
                }
                return Some(idx);
            }
            assert(self@.processes[idx as int].process != process);
            idx += 1;
        }
        None
    }

    /// The size of the allocation that `process` holds at `address`; 0 where
    /// it holds none.
    pub fn get_allocation_size(&self, process: ProcessUid, address: usize) -> (size: usize)
        requires
            self.wf(),
        ensures
            size == self@.held_at(process, address),
    {
        match self.find_process(process) {
            Some(i) => {
                assert(self@.processes[i as int] == self.records@[i as int].state());
                match map_get(&self.records[i].allocations, address) {
                    Some(allocation) => allocation.size(),
                    None => 0,
                }
            },
            None => 0,
        }
    }

    /// Check if a new peak has been reached:
    pub fn check_if_new_peak(&mut self)
        requires
            old(self).wf(),
        ensures
            final(self)@ == old(self)@.observe_peak(),
            final(self).catalog() == old(self).catalog(),
            final(self).seed() == old(self).seed(),
            final(self).wf(),
            old(self)@.consistent() ==> final(self)@.consistent(),
    {
        if self.current_allocated_bytes > self.peak_allocated_bytes {
            self.peak_allocated_bytes = self.current_allocated_bytes;
            self.peak_memory_usage = totals_clone(&self.current_memory_usage);
        }
        proof {
            old(self)@.lemma_observe_peak();
            assert(self@.processes =~= old(self)@.processes);
            assert(self@ =~= old(self)@.observe_peak());
        }
    }

    /// Gives `process` a place for its records, unless it has one.
    fn place(&mut self, process: ProcessUid) -> (i: usize)
        requires
            old(self).wf(),
        ensures
            final(self)@ == old(self)@.with_process(process),
            i == old(self)@.slot(process),
            i < final(self).records.len(),
            final(self).records[i as int].state() == final(self)@.processes[i as int],
            final(self).catalog() == old(self).catalog(),
            final(self).seed() == old(self).seed(),
            final(self).wf(),
            old(self)@.consistent() ==> final(self)@.consistent(),
    {
        proof {
            old(self)@.lemma_with_process(process);
        }
        match self.find_process(process) {
            Some(i) => i,
            None => {
                self.records.push(ProcessRecords::new(process, self.hash_seed));
                proof {
                    assert(self@.processes =~= old(self)@.with_process(process).processes);
                    assert(self@ =~= old(self)@.with_process(process));
                }
                self.records.len() - 1
            },
        }
    }

    /// The id of `callstack`. A call path that had none gets the next id,
    /// and a total of zero.
    pub fn get_callstack_id(&mut self, callstack: &Callstack) -> (id: CallstackId)
        requires
            old(self).wf(),
            old(self)@.interned.contains(callstack@) || old(self)@.interned.len() < u32::MAX,
        ensures
            final(self)@ == old(self)@.intern(callstack@),
            id == old(self)@.id_of(callstack@),
            id < final(self)@.path_totals.len(),
            final(self)@.interned[id as int] == callstack@,
            final(self).catalog() == old(self).catalog(),
            final(self).seed() == old(self).seed(),
            final(self).wf(),
            old(self)@.consistent() ==> final(self)@.consistent(),
    {
        proof {
            old(self)@.lemma_intern(callstack@);
        }
        let (id, is_new) = self.interner.intern(callstack);
        if is_new {
            totals_push_back(&mut self.current_memory_usage, 0);
        }
        proof {
            assert(self@.processes =~= old(self)@.processes);
            assert(self@ =~= old(self)@.intern(callstack@));
        }
        id
    }

    /// Add a new allocation based off the current callstack.
    pub fn add_allocation(
        &mut self,
        process: ProcessUid,
        address: usize,
        size: usize,
        callstack_id: CallstackId,
    )
        requires
            old(self).wf(),
            callstack_id < old(self)@.path_totals.len(),
            size + MIB / 2 <= usize::MAX,
            old(self)@.current_bytes - old(self)@.held_at(process, address)
                + crate::allocation::compressed_bytes(size as int) <= usize::MAX,
            old(self)@.missing_bytes + old(self)@.held_at(process, address) <= usize::MAX,
        ensures
            final(self)@ == old(self)@.add_allocation(process, address, size, callstack_id),
            final(self).catalog() == old(self).catalog(),
            final(self).seed() == old(self).seed(),
            final(self).wf(),
            old(self)@.consistent() ==> final(self)@.consistent(),
    {
        proof {
            old(self)@.lemma_add_allocation(process, address, size, callstack_id);
            old(self)@.lemma_with_process(process);
        }
        let alloc = Allocation::new(callstack_id, size);
        let compressed_size = alloc.size();
        let i = self.place(process);
        let ghost placed = self@;
        proof {
            placed.lemma_state_within_totals(i as int);
        }
        let previous = map_insert(&mut self.records[i].allocations, address, alloc);
        if let Some(previous) = previous {
            // The address was given out again before we saw it freed.
            self.missing_allocated_bytes += previous.size();
            // Cleanup the previous allocation, since we never saw its free():
            remove_usage(
                &mut self.current_memory_usage,
                &mut self.current_allocated_bytes,
                previous.callstack_id(),
                previous.size(),
            );
        }
        add_usage(
            &mut self.current_memory_usage,
            &mut self.current_allocated_bytes,
            callstack_id,
            compressed_size,
        );
        proof {
            let after = old(self)@.add_allocation(process, address, size, callstack_id);
            assert(self@.processes =~= after.processes);
            assert(self@ =~= after);
        }
    }

    /// Free an existing allocation, return how much was removed, if any.
    pub fn free_allocation(&mut self, process: ProcessUid, address: usize) -> (freed: Option<usize>)
        requires
            old(self).wf(),
            old(self)@.debug_mode && !old(self)@.allocations(process).contains_key(address)
                ==> old(self)@.failed_frees < usize::MAX,
        ensures
            final(self)@ == old(self)@.free_allocation(process, address),
            freed == (if old(self)@.allocations(process).contains_key(address) {
                Some(old(self)@.held_at(process, address) as usize)
            } else {
                None
            }),
            final(self).catalog() == old(self).catalog(),
            final(self).seed() == old(self).seed(),
            final(self).wf(),
            old(self)@.consistent() ==> final(self)@.consistent(),
    {
        proof {
            old(self)@.lemma_free_allocation(process, address);
            old(self)@.lemma_observe_peak();
            old(self)@.lemma_with_process(process);
            old(self)@.observe_peak().lemma_with_process(process);
        }
        // Before we reduce memory, let's check if we've previously hit a peak:
        self.check_if_new_peak();
        let i = self.place(process);
        let ghost placed = self@;
        proof {
            placed.lemma_state_within_totals(i as int);
        }
        let freed = match map_remove(&mut self.records[i].allocations, address) {
            Some(removed) => {
                remove_usage(
                    &mut self.current_memory_usage,
                    &mut self.current_allocated_bytes,
                    removed.callstack_id(),
                    removed.size(),
                );
                Some(removed.size())
            },
            None => {
                // Often this will be something allocated before tracking was
                // started, but it might also be a bug.
                if self.debug_mode {
                    self.failed_deallocations += 1;
                }
                None
            },
        };
        proof {
            let after = old(self)@.free_allocation(process, address);
            if !placed.processes[i as int].allocations.contains_key(address) {
                assert(self@.processes[i as int].allocations
                    =~= placed.processes[i as int].allocations);
                assert(self@.processes[i as int] =~= placed.processes[i as int]);
            }
            assert(self@.processes =~= after.processes);
            assert(self@ =~= after);
        }
        freed
    }

    /// Add a new anonymous mmap() based of the current callstack.
    pub fn add_anon_mmap(
        &mut self,
        process: ProcessUid,
        address: usize,
        size: usize,
        callstack_id: CallstackId,
    )
        requires
            old(self).wf(),
            callstack_id < old(self)@.path_totals.len(),
            address + size <= usize::MAX,
            old(self)@.current_bytes + size <= usize::MAX,
        ensures
            final(self)@ == old(self)@.add_anon_mmap(process, address, size, callstack_id),
            final(self).catalog() == old(self).catalog(),
            final(self).seed() == old(self).seed(),
            final(self).wf(),
            old(self)@.consistent() ==> final(self)@.consistent(),
    {
        proof {
            old(self)@.lemma_add_anon_mmap(process, address, size, callstack_id);
            old(self)@.lemma_with_process(process);
        }
        let i = self.place(process);
        let ghost placed = self@;
        assert(placed.processes[i as int].wf(placed.path_totals.len()));
        self.records[i].mmaps.add(address, size, callstack_id);
        add_usage(
            &mut self.current_memory_usage,
            &mut self.current_allocated_bytes,
            callstack_id,
            size,
        );
        proof {
            let after = old(self)@.add_anon_mmap(process, address, size, callstack_id);
            assert(self@.processes[i as int] =~= after.processes[i as int]);
            assert(self@.processes =~= after.processes);
            assert(self@ =~= after);
        }
    }

    /// Unmaps `size` bytes from `address` on: whatever `process` has mapped
    /// there is mapped no longer, and its bytes leave the totals.
    pub fn free_anon_mmap(&mut self, process: ProcessUid, address: usize, size: usize)
        requires
            old(self).wf(),
            address + size <= usize::MAX,
        ensures
            final(self)@ == old(self)@.free_anon_mmap(process, address, size),
            final(self).catalog() == old(self).catalog(),
            final(self).seed() == old(self).seed(),
            final(self).wf(),
            old(self)@.consistent() ==> final(self)@.consistent(),
    {
        proof {
            old(self)@.lemma_free_anon_mmap(process, address, size);
            old(self)@.lemma_observe_peak();
            old(self)@.lemma_with_process(process);
            old(self)@.observe_peak().lemma_with_process(process);
        }
        // Before we reduce memory, let's check if we've previously hit a peak:
        self.check_if_new_peak();
        let i = self.place(process);
        let ghost placed = self@;
        let ghost state = placed.processes[i as int];
        let ghost cut = crate::rangemap::Range { start: address, end: (address + size) as usize };
        assert(state.wf(placed.path_totals.len()));
        // Now remove, and update total memory tracking:
        let removed = self.records[i].mmaps.remove(address, size);
        proof {
            let paths = placed.path_totals.len();
            placed.lemma_state_within_totals(i as int);
            crate::rangemap::lemma_release_keeps_values(
                state.mmaps,
                cut,
                |id: CallstackId| id < paths,
            );
            assert forall|id: CallstackId| id < paths implies crate::rangemap::released_bytes(
                removed@,
                Some(id),
            ) <= #[trigger] placed.path_totals[id as int] by {
                crate::rangemap::lemma_release_conserves_bytes(state.mmaps, cut, Some(id));
                crate::allocation::lemma_alloc_bytes_bounds(state.allocations, Some(id));
                assert(state.bytes(Some(id)) <= placed.path_totals[id as int]);
            }
        }
        debit_all(&mut self.current_memory_usage, &mut self.current_allocated_bytes, &removed);
        proof {
            let after = old(self)@.free_anon_mmap(process, address, size);
            assert(self@.processes[i as int] =~= after.processes[i as int]);
            assert(self@.processes =~= after.processes);
            assert(self@.path_totals =~= after.path_totals);
            assert(self@ =~= after);
        }
    }

    /// The process just died, remove all the allocations.
    pub fn drop_process(&mut self, process: ProcessUid)
        requires
            old(self).wf(),
        ensures
            final(self)@ == old(self)@.drop_process(process),
            final(self).catalog() == old(self).catalog(),
            final(self).seed() == old(self).seed(),
            final(self).wf(),
            old(self)@.consistent() ==> final(self)@.consistent(),
    {
        proof {
            old(self)@.lemma_drop_process(process);
            old(self)@.lemma_observe_peak();
        }
        // Before we reduce memory, let's check if we've previously hit a peak:
        self.check_if_new_peak();
        let ghost seen = self@;
        let ghost paths = seen.path_totals.len();
        match self.find_process(process) {
            Some(i) => {
                let ghost state = seen.processes[i as int];
                proof {
                    seen.lemma_state_within_totals(i as int);
                    assert(state.wf(paths));
                }
                let ProcessRecords { process: _, allocations, mmaps } = self.records.remove(i);
                let pieces = debits_of(mmaps, &allocations, Ghost(paths));
                debit_all(
                    &mut self.current_memory_usage,
                    &mut self.current_allocated_bytes,
                    &pieces,
                );
                proof {
                    let after = old(self)@.drop_process(process);
                    assert(self@.processes =~= after.processes);
                    assert(self@.path_totals =~= after.path_totals);
                    assert(self@ =~= after);
                }
            },
            None => {},
        }
    }

    /// Clear memory we won't be needing anymore, since we're going to exit out.
    pub fn oom_break_glass(&mut self)
        requires
            old(self).wf(),
        ensures
            final(self)@ == old(self)@.oom_break_glass(),
            final(self).catalog() == old(self).catalog(),
            final(self).seed() == old(self).seed(),
            final(self).wf(),
    {
        proof {
            old(self)@.lemma_oom_break_glass();
        }
        clear_allocations(&mut self.records, self.hash_seed);
        totals_clear(&mut self.peak_memory_usage);
        proof {
            let after = old(self)@.oom_break_glass();
            assert forall|i: int| 0 <= i < after.processes.len() implies self@.processes[i]
                == after.processes[i] by {
                assert(self@.processes[i] =~= after.processes[i]);
            }
            assert(self@.processes =~= after.processes);
            assert(self@ =~= after);
        }
    }

    /// Reset internal state in way that doesn't invalidate e.g. thread-local
    /// caching of callstack ID.
    pub fn reset(&mut self, default_path: String)
        requires
            old(self).wf(),
        ensures
            final(self)@ == old(self)@.reset(default_path@),
            final(self).catalog() == old(self).catalog(),
            final(self).seed() == old(self).seed(),
            final(self).wf(),
            final(self)@.consistent(),
    {
        proof {
            old(self)@.lemma_reset(default_path@);
        }
        let mut records: Vec<ProcessRecords> = Vec::new();
        records.push(ProcessRecords::new(ProcessUid::parent(), self.hash_seed));
        self.records = records;
        zero_totals(&mut self.current_memory_usage);
        self.peak_memory_usage = totals_new();
        self.current_allocated_bytes = 0;
        self.peak_allocated_bytes = 0;
        self.default_path = default_path;
        proof {
            let after = old(self)@.reset(default_path@);
            assert(self@.processes =~= after.processes);
            assert(self@ =~= after);
        }
    }

    /// Live bytes of each call path, by id.
    pub fn current_memory_usage(&self) -> (totals: Vec<usize>)
        ensures
            totals@ == self@.path_totals,
    {
        totals_to_vec(&self.current_memory_usage)
    }

    /// The totals as they stood at the peak.
    pub fn peak_memory_usage(&self) -> (totals: Vec<usize>)
        ensures
            totals@ == self@.peak_path_totals,
    {
        totals_to_vec(&self.peak_memory_usage)
    }

    /// Bytes of allocations whose address was given out again before it was
    /// freed.
    pub fn get_missing_allocated_bytes(&self) -> (bytes: usize)
        ensures
            bytes == self@.missing_bytes,
    {
        self.missing_allocated_bytes
    }

    /// Frees of addresses that held no allocation, counted while debugging.
    pub fn get_failed_deallocations(&self) -> (count: usize)
        ensures
            count == self@.failed_frees,
    {
        self.failed_deallocations
    }

    /// Where profiles go when no other place is named.
    pub fn default_path(&self) -> (path: &String)
        ensures
            path@ == self@.default_path,
    {
        &self.default_path
    }

    /// Whether the state is as it is after a look at the peak, unless
    /// records were let go of: the peak is no less than the live bytes, the
    /// live bytes are those of the mappings and allocations on record, and
    /// the totals at the peak add up to the peak.
    pub fn validate(&self) -> (valid: bool)
        requires
            self.wf(),
        ensures
            valid == (self@.peak_bytes >= self@.current_bytes && self@.consistent()),
    {
        let ghost states = self@.processes;
        let ghost paths = self@.path_totals.len();
        let mut on_record: usize = 0;
        let mut idx: usize = 0;
        proof {
            assert(states.take(0) =~= Seq::<ProcessState>::empty());
        }
        while idx < self.records.len()
            invariant
                idx <= self.records.len(),
                self.wf(),
                states == self@.processes,
                paths == self@.path_totals.len(),
                on_record == crate::accounting::live_bytes(states.take(idx as int), None),
            decreases self.records.len() - idx,
        {
            let records = &self.records[idx];
            proof {
                assert(states[idx as int] == records.state());
                assert(states[idx as int].wf(paths));
                assert(states.take(idx + 1).drop_last() =~= states.take(idx as int));
                assert(states.take(idx + 1).last() == states[idx as int]);
                crate::accounting::lemma_live_bytes_prefix(states, paths, idx + 1, None);
                crate::accounting::lemma_live_bytes_prefix(states, paths, idx as int, None);
                self@.lemma_state_within_totals(idx as int);
                crate::rangemap::lemma_total_size_is_mapped_bytes(records.mmaps@);
                crate::allocation::lemma_alloc_bytes_bounds(records.allocations@, None);
                crate::rangemap::lemma_mapped_bytes_bounds(records.mmaps@, None);
            }
            let mapped = records.mmaps.size();
            let pairs = map_entries(&records.allocations);
            let mut allocated: usize = 0;
            let mut k: usize = 0;
            proof {
                assert(pairs@.take(0) =~= Seq::<(usize, Allocation)>::empty());
                crate::allocation::lemma_listed_bytes(pairs@, records.allocations@, None);
            }
            while k < pairs.len()
                invariant
                    k <= pairs.len(),
                    allocated == crate::allocation::listed_bytes(pairs@.take(k as int), None),
                    crate::allocation::listed_bytes(pairs@, None) <= usize::MAX,
                decreases pairs.len() - k,
            {
                proof {
                    assert(pairs@.take(k + 1).drop_last() =~= pairs@.take(k as int));
                    assert(pairs@.take(k + 1).last() == pairs@[k as int]);
                    crate::allocation::lemma_listed_bytes_prefix(pairs@, k + 1, None);
                }
                allocated = allocated + pairs[k].1.size();
                k += 1;
            }
            proof {
                assert(pairs@.take(k as int) =~= pairs@);
            }
            on_record = on_record + mapped + allocated;
            idx += 1;
        }
        proof {
            assert(states.take(idx as int) =~= states);
            crate::usage::lemma_sum_nonnegative(counts(self.peak_memory_usage));
            if on_record == self.current_allocated_bytes {
                self@.lemma_exact_sum_means_exact_totals();
            }
        }
        let peak_totals = crate::usage::totals_sum(&self.peak_memory_usage);
        self.peak_allocated_bytes >= self.current_allocated_bytes && on_record
            == self.current_allocated_bytes && peak_totals == self.peak_allocated_bytes
    }

    /// The call path with id `id`.
    pub fn callstack(&self, id: CallstackId) -> (callstack: &Callstack)
        requires
            id < self@.interned.len(),
        ensures
            callstack@ == self@.interned[id as int],
    {
        self.interner.callstack(id)
    }

    /// Number of call paths that have an id.
    pub fn callstack_count(&self) -> (n: usize)
        ensures
            n == self@.interned.len(),
    {
        self.interner.len()
    }

    /// Whether `callstack` has an id.
    pub fn knows_callstack(&self, callstack: &Callstack) -> (known: bool)
        requires
            self.wf(),
        ensures
            known == self@.interned.contains(callstack@),
    {
        self.interner.find(callstack).is_some()
    }

    /// The allocation that `process` holds at `address`, if it holds one.
    pub fn allocation_at(&self, process: ProcessUid, address: usize) -> (held: Option<Allocation>)
        requires
            self.wf(),
        ensures
            held == (if self@.allocations(process).contains_key(address) {
                Some(self@.allocations(process)[address])
            } else {
                None
            }),
    {
        match self.find_process(process) {
            Some(i) => {
                assert(self@.processes[i as int] == self.records@[i as int].state());
                map_get(&self.records[i].allocations, address)
            },
            None => None,
        }
    }

    /// Whether `process` holds an allocation at `address`.
    pub fn holds(&self, process: ProcessUid, address: usize) -> (held: bool)
        requires
            self.wf(),
        ensures
            held == self@.allocations(process).contains_key(address),
    {
        self.allocation_at(process, address).is_some()
    }

    /// Whether frees of unknown addresses are counted.
    pub fn is_debug_mode(&self) -> (debug_mode: bool)
        ensures
            debug_mode == self@.debug_mode,
    {
        self.debug_mode
    }

    /// Number of processes that have a place for records.
    pub fn process_count(&self) -> (n: usize)
        ensures
            n == self@.processes.len(),
    {
        self.records.len()
    }

    /// Bytes that `process` has mapped.
    pub fn mapped_size(&self, process: ProcessUid) -> (bytes: usize)
        requires
            self.wf(),
        ensures
            bytes == crate::rangemap::total_size(self@.mappings(process)),
    {
        match self.find_process(process) {
            Some(i) => {
                proof {
                    assert(self@.processes[i as int] == self.records@[i as int].state());
                    assert(self@.processes[i as int].wf(self@.path_totals.len()));
                    self@.lemma_state_within_totals(i as int);
                    crate::rangemap::lemma_total_size_is_mapped_bytes(
                        self.records@[i as int].mmaps@,
                    );
                }
                self.records[i].mmaps.size()
            },
            None => 0,
        }
    }

    /// The mappings of `process` by their first address, each with its size
    /// and call path.
    pub fn mappings_by_start(&self, process: ProcessUid) -> (m: HashMap<
        usize,
        (usize, CallstackId),
    >)
        requires
            self.wf(),
        ensures
            m@ == crate::rangemap::by_start(self@.mappings(process)),
    {
        match self.find_process(process) {
            Some(i) => {
                proof {
                    assert(self@.processes[i as int] == self.records@[i as int].state());
                    assert(self@.processes[i as int].wf(self@.path_totals.len()));
                }
                self.records[i].mmaps.as_hashmap()
            },
            None => HashMap::new(),
        }
    }

    /// The call paths that are worth showing, each with its bytes: those of
    /// the peak, or else the live ones. We get a lot of tiny allocations, so
    /// only the top 99% are shown.
    pub fn combine_callstacks(&self, peak: bool) -> (shown: Vec<(CallstackId, usize)>)
        requires
            self.wf(),
        ensures
            shown@ == useful_totals(if peak {
                self@.peak_path_totals
            } else {
                self@.path_totals
            }),
    {
        let callstacks = if peak {
            &self.peak_memory_usage
        } else {
            &self.current_memory_usage
        };
        proof {
            crate::usage::lemma_sum_nonnegative(counts(*callstacks));
        }
        let sum = crate::usage::totals_sum(callstacks);
        let n = totals_len(callstacks);
        let mut samples: Vec<(CallstackId, usize)> = Vec::new();
        let mut idx: usize = 0;
        while idx < n
            invariant
                idx <= n,
                n == counts(*callstacks).len(),
                n <= u32::MAX,
                samples@ == enumerated(counts(*callstacks)).take(idx as int),
            decreases n - idx,
        {
            samples.push((idx as CallstackId, totals_get(callstacks, idx)));
            idx += 1;
            proof {
                assert(samples@ =~= enumerated(counts(*callstacks)).take(idx as int));
            }
        }
        proof {
            assert(enumerated(counts(*callstacks)).take(idx as int) =~= enumerated(
                counts(*callstacks),
            ));
        }
        crate::flamegraph::filter_to_useful_callstacks(samples, sum)
    }

    /// The call paths that are worth showing, each with its bytes, as the
    /// data of a flame graph that can be drawn while the tracker goes on.
    pub fn callstacks_with_sizes(&self, peak: bool) -> (data: Vec<(Callstack, usize)>)
        requires
            self.wf(),
        ensures
            data@.len() == useful_totals(if peak {
                self@.peak_path_totals
            } else {
                self@.path_totals
            }).len(),
            forall|i: int|
                0 <= i < data@.len() ==> {
                    let shown = useful_totals(if peak {
                        self@.peak_path_totals
                    } else {
                        self@.path_totals
                    })[i];
                    &&& shown.0 < self@.interned.len()
                    &&& (#[trigger] data@[i]).0@ == self@.interned[shown.0 as int]
                    &&& data@[i].1 == shown.1
                },
    {
        let by_call = self.combine_callstacks(peak);
        let ghost totals = if peak {
            self@.peak_path_totals
        } else {
            self@.path_totals
        };
        proof {
            crate::flamegraph::lemma_useful_callstacks_keep(
                enumerated(totals),
                sum(totals),
                |sample: (CallstackId, usize)| sample.0 < totals.len(),
            );
        }
        let mut data: Vec<(Callstack, usize)> = Vec::new();
        let mut idx: usize = 0;
        while idx < by_call.len()
            invariant
                idx <= by_call.len(),
                self.wf(),
                totals.len() <= self@.interned.len(),
                forall|i: int|
                    0 <= i < by_call@.len() ==> (#[trigger] by_call@[i]).0 < totals.len(),
                data@.len() == idx,
                forall|i: int|
                    0 <= i < idx ==> (#[trigger] data@[i]).0@
                        == self@.interned[by_call@[i].0 as int] && data@[i].1 == by_call@[i].1,
            decreases by_call.len() - idx,
        {
            let (callstack_id, size) = by_call[idx];
            assert(by_call@[idx as int].0 < totals.len());
            let callstack = self.interner.callstack(callstack_id);
            data.push((Callstack::from_vec(callstack.to_vec()), size));
            idx += 1;
        }
        data
    }

    /// A traceback for the given CallstackId, for the caller to print: the
    /// message, and below it the call path with a frame to a line.
    pub fn print_traceback(
        &self,
        message: &str,
        callstack_id: CallstackId,
        runpy_path: &str,
    ) -> (text: String)
        requires
            self.wf(),
            callstack_id < self@.interned.len(),
            crate::memorytracking::all_known(self@.interned[callstack_id as int], self.catalog()),
        ensures
            forall|linecache: crate::linecache::LineCacher|
                text@ == "=fil-profile= "@ + message@ + "\n=| "@ + #[trigger]
                    crate::memorytracking::callstack_text(
                    self@.interned[callstack_id as int],
                    false,
                    self.catalog(),
                    "\n=| "@,
                    runpy_path@,
                    &linecache,
                ),
    {
        let callstack = self.interner.callstack(callstack_id);
        let linecache = crate::linecache::LineCacher::new();
        let mut text = "=fil-profile= ".to_owned();
        vstd::string::StringExecFns::append(&mut text, message);
        vstd::string::StringExecFns::append(&mut text, "\n=| ");
        let frames = callstack.as_string(false, &self.functions, "\n=| ", runpy_path, &linecache);
        vstd::string::StringExecFns::append(&mut text, frames.as_str());
        proof {
            assert forall|other: crate::linecache::LineCacher|
                text@ == "=fil-profile= "@ + message@ + "\n=| "@ + #[trigger]
                    crate::memorytracking::callstack_text(
                    self@.interned[callstack_id as int],
                    false,
                    self.catalog(),
                    "\n=| "@,
                    runpy_path@,
                    &other,
                ) by {
                crate::memorytracking::lemma_plain_text_needs_no_source(
                    callstack@,
                    &self.functions,
                    "\n=| "@,
                    runpy_path@,
                    &linecache,
                    &other,
                );
            }
        }
        text
    }

    /// The lines of a profile: for each call path that is worth showing,
    /// what `callstack_cleaner` makes of it, as text, and its bytes.
    pub fn to_lines<UC: crate::flamegraph::CallstackCleaner>(
        &self,
        peak: bool,
        to_be_post_processed: bool,
        callstack_cleaner: &UC,
        runpy_path: &str,
        linecache: &crate::linecache::LineCacher,
    ) -> (lines: Vec<String>)
        requires
            self.wf(),
            all_shown_known(
                useful_totals(if peak {
                    self@.peak_path_totals
                } else {
                    self@.path_totals
                }),
                self@.interned,
                callstack_cleaner,
                self.catalog(),
            ),
        ensures
            lines.deep_view() == profile_lines(
                useful_totals(if peak {
                    self@.peak_path_totals
                } else {
                    self@.path_totals
                }),
                self@.interned,
                callstack_cleaner,
                to_be_post_processed,
                self.catalog(),
                runpy_path@,
                linecache,
            ),
    {
        let by_call = self.combine_callstacks(peak);
        let ghost totals = if peak {
            self@.peak_path_totals
        } else {
            self@.path_totals
        };
        let ghost expected = profile_lines(
            by_call@,
            self@.interned,
            callstack_cleaner,
            to_be_post_processed,
            self.catalog(),
            runpy_path@,
            linecache,
        );
        proof {
            crate::flamegraph::lemma_useful_callstacks_keep(
                enumerated(totals),
                sum(totals),
                |sample: (CallstackId, usize)| sample.0 < totals.len(),
            );
            assert(by_call@ == useful_totals(totals));
        }
        let mut lines: Vec<String> = Vec::new();
        let mut idx: usize = 0;
        while idx < by_call.len()
            invariant
                idx <= by_call.len(),
                self.wf(),
                totals.len() <= self@.interned.len(),
                forall|i: int|
                    0 <= i < by_call@.len() ==> (#[trigger] by_call@[i]).0 < totals.len(),
                all_shown_known(by_call@, self@.interned, callstack_cleaner, self.catalog()),
                expected == profile_lines(
                    by_call@,
                    self@.interned,
                    callstack_cleaner,
                    to_be_post_processed,
                    self.catalog(),
                    runpy_path@,
                    linecache,
                ),
                lines.deep_view() == expected.take(idx as int),
            decreases by_call.len() - idx,
        {
            let ghost so_far = lines.deep_view();
            let (callstack_id, size) = by_call[idx];
            assert(by_call@[idx as int].0 < totals.len());
            let callstack = self.interner.callstack(callstack_id);
            assert(callstack@ == self@.interned[callstack_id as int]);
            let shown = callstack_cleaner.cleanup(callstack);
            let line = match shown {
                std::borrow::Cow::Borrowed(callstack) => crate::flamegraph::to_line(
                    callstack,
                    size,
                    to_be_post_processed,
                    &self.functions,
                    runpy_path,
                    linecache,
                ),
                std::borrow::Cow::Owned(callstack) => crate::flamegraph::to_line(
                    &callstack,
                    size,
                    to_be_post_processed,
                    &self.functions,
                    runpy_path,
                    linecache,
                ),
            };
            lines.push(line);
            idx += 1;
            proof {
                assert(lines.deep_view() =~= so_far.push(line@));
                assert(lines.deep_view() =~= expected.take(idx as int));
            }
        }
        proof {
            assert(expected.take(idx as int) =~= expected);
        }
        lines
    }
}

impl AllocationTracker<crate::callsite::VecFunctionLocations> {
    /// Register a new function/filename location.
    pub fn add_function(&mut self, filename: String, function_name: String) -> (id:
        crate::callsite::FunctionId)
        requires
            old(self).catalog()@.len() < crate::callsite::UNKNOWN_FUNCTION,
        ensures
            id.0 == old(self).catalog()@.len(),
            final(self).catalog()@ == old(self).catalog()@.push((function_name@, filename@)),
            final(self)@ == old(self)@,
            final(self).seed() == old(self).seed(),
            old(self).wf() ==> final(self).wf(),
    {
        let id = self.functions.add_function(filename, function_name);
        proof {
            assert(self@.processes =~= old(self)@.processes);
            assert(self@ =~= old(self)@);
        }
        id
    }
}

/// The totals as a vector.
fn totals_to_vec(totals: &im::Vector<usize>) -> (v: Vec<usize>)
    ensures
        v@ == counts(*totals),
{
    let n = totals_len(totals);
    let mut v: Vec<usize> = Vec::new();
    let mut idx: usize = 0;
    while idx < n
        invariant
            idx <= n,
            n == counts(*totals).len(),
            v@ == counts(*totals).take(idx as int),
        decreases n - idx,
    {
        v.push(totals_get(totals, idx));
        idx += 1;
        proof {
            assert(v@ =~= counts(*totals).take(idx as int));
        }
    }
    proof {
        assert(counts(*totals).take(idx as int) =~= counts(*totals));
    }
    v
}

/// The totals as samples: each call path's id with its bytes.
pub open spec fn enumerated(totals: Seq<usize>) -> Seq<(CallstackId, usize)> {
    Seq::new(totals.len(), |i: int| (i as CallstackId, totals[i]))
}

/// The call paths that are worth showing, given the bytes of each.
pub open spec fn useful_totals(totals: Seq<usize>) -> Seq<(CallstackId, usize)> {
    crate::flamegraph::useful_callstacks(enumerated(totals), sum(totals))
}

/// Whether the catalog names every function of the call paths `shown`, as
/// `callstack_cleaner` leaves them.
pub open spec fn all_shown_known<FL: FunctionLocations, UC: crate::flamegraph::CallstackCleaner>(
    shown: Seq<(CallstackId, usize)>,
    interned: Seq<Seq<crate::callsite::CallSiteId>>,
    callstack_cleaner: &UC,
    functions: &FL,
) -> bool {
    forall|i: int|
        0 <= i < shown.len() ==> crate::memorytracking::all_known(
            callstack_cleaner.cleaned(interned[(#[trigger] shown[i]).0 as int]),
            functions,
        )
}

/// A line of the profile for each of the call paths `shown`.
pub open spec fn profile_lines<FL: FunctionLocations, UC: crate::flamegraph::CallstackCleaner>(
    shown: Seq<(CallstackId, usize)>,
    interned: Seq<Seq<crate::callsite::CallSiteId>>,
    callstack_cleaner: &UC,
    to_be_post_processed: bool,
    functions: &FL,
    runpy_path: Seq<char>,
    linecache: &crate::linecache::LineCacher,
) -> Seq<Seq<char>> {
    Seq::new(
        shown.len(),
        |i: int|
            crate::flamegraph::profile_line(
                callstack_cleaner.cleaned(interned[shown[i].0 as int]),
                shown[i].1,
                to_be_post_processed,
                functions,
                runpy_path,
                linecache,
            ),
    )
}

/// Sets every total to zero.
fn zero_totals(totals: &mut im::Vector<usize>)
    ensures
        counts(*final(totals)) == crate::accounting::zeroed(counts(*old(totals))),
{
    let n = totals_len(totals);
    let mut idx: usize = 0;
    while idx < n
        invariant
            idx <= n,
            n == counts(*old(totals)).len(),
            counts(*totals).len() == n,
            forall|j: int| 0 <= j < idx ==> (#[trigger] counts(*totals)[j]) == 0,
        decreases n - idx,
    {
        totals_set(totals, idx, 0);
        idx += 1;
    }
    proof {
        assert(counts(*totals) =~= crate::accounting::zeroed(counts(*old(totals))));
    }
}

/// Replaces the address map of every process by an empty one.
fn clear_allocations(records: &mut Vec<ProcessRecords>, hash_seed: Option<u64>)
    requires
        hash_seed.is_some() ==> hash_seed.unwrap() + 3 <= u64::MAX,
    ensures
        final(records)@.len() == old(records)@.len(),
        forall|i: int|
            0 <= i < old(records)@.len() ==> (#[trigger] final(records)@[i]).state() == (
            ProcessState {
                allocations: Map::<usize, Allocation>::empty(),
                ..old(records)@[i].state()
            }),
{
    let mut idx: usize = 0;
    while idx < records.len()
        invariant
            idx <= records.len(),
            records@.len() == old(records)@.len(),
            hash_seed.is_some() ==> hash_seed.unwrap() + 3 <= u64::MAX,
            forall|i: int|
                0 <= i < idx ==> (#[trigger] records@[i]).state() == (ProcessState {
                    allocations: Map::<usize, Allocation>::empty(),
                    ..old(records)@[i].state()
                }),
            forall|i: int|
                idx <= i < records@.len() ==> (#[trigger] records@[i]) == old(records)@[i],
        decreases records.len() - idx,
    {
        records[idx].allocations = new_hashmap(hash_seed);
        idx += 1;
    }
}

/// What the records of a process take from the totals when the process
/// goes: for each mapping and each allocation its call path and its bytes.
fn debits_of(
    mmaps: RangeMap<CallstackId>,
    allocations: &HashMap<usize, Allocation, ahash::RandomState>,
    Ghost(paths): Ghost<nat>,
) -> (pieces: Vec<(CallstackId, usize)>)
    requires
        (ProcessState {
            process: ProcessUid(0),
            allocations: allocations@,
            mmaps: mmaps@,
        }).wf(paths),
    ensures
        forall|j: int| 0 <= j < pieces@.len() ==> (#[trigger] pieces@[j]).0 < paths,
        forall|path: Option<CallstackId>| #[trigger]
            crate::rangemap::released_bytes(pieces@, path) == crate::allocation::alloc_bytes(
                allocations@,
                path,
            ) + crate::rangemap::mapped_bytes(mmaps@, path),
{
    let ghost entries = mmaps@;
    let mut pieces: Vec<(CallstackId, usize)> = Vec::new();
    // Drop anon mmaps.
    let items = mmaps.into_iter();
    let mut k: usize = 0;
    proof {
        assert(entries.take(0) =~= Seq::<crate::rangemap::Entry<CallstackId>>::empty());
    }
    while k < items.len()
        invariant
            k <= items.len(),
            items@ == crate::rangemap::sized(entries),
            crate::rangemap::entries_wf(entries),
            forall|j: int| 0 <= j < entries.len() ==> (#[trigger] entries[j]).1 < paths,
            forall|j: int| 0 <= j < pieces@.len() ==> (#[trigger] pieces@[j]).0 < paths,
            forall|path: Option<CallstackId>| #[trigger]
                crate::rangemap::released_bytes(pieces@, path) == crate::rangemap::mapped_bytes(
                    entries.take(k as int),
                    path,
                ),
        decreases items.len() - k,
    {
        let (size, callstack_id) = items[k];
        let ghost so_far = pieces@;
        pieces.push((callstack_id, size));
        proof {
            assert(entries[k as int].0.wf());
            assert(entries[k as int].1 < paths);
            assert(pieces@.drop_last() =~= so_far);
            assert(entries.take(k + 1).drop_last() =~= entries.take(k as int));
            assert(entries.take(k + 1).last() == entries[k as int]);
            assert forall|path: Option<CallstackId>| #[trigger]
                crate::rangemap::released_bytes(pieces@, path) == crate::rangemap::mapped_bytes(
                    entries.take(k + 1),
                    path,
                ) by {
                assert(crate::rangemap::released_bytes(so_far, path)
                    == crate::rangemap::mapped_bytes(entries.take(k as int), path));
            }
        }
        k += 1;
    }
    proof {
        assert(entries.take(k as int) =~= entries);
    }
    // Drop allocations.
    let pairs = map_entries(allocations);
    let mut k: usize = 0;
    proof {
        assert(pairs@.take(0) =~= Seq::<(usize, Allocation)>::empty());
    }
    while k < pairs.len()
        invariant
            k <= pairs.len(),
            crate::util::lists_all(pairs@, allocations@),
            forall|address: usize| #[trigger]
                allocations@.contains_key(address) ==> allocations@[address].path() < paths,
            forall|j: int| 0 <= j < pieces@.len() ==> (#[trigger] pieces@[j]).0 < paths,
            forall|path: Option<CallstackId>| #[trigger]
                crate::rangemap::released_bytes(pieces@, path) == crate::rangemap::mapped_bytes(
                    entries,
                    path,
                ) + crate::allocation::listed_bytes(pairs@.take(k as int), path),
        decreases pairs.len() - k,
    {
        let allocation = pairs[k].1;
        let ghost so_far = pieces@;
        pieces.push((allocation.callstack_id(), allocation.size()));
        proof {
            assert(allocations@.contains_pair(pairs@[k as int].0, pairs@[k as int].1));
            assert(allocations@.contains_key(pairs@[k as int].0));
            assert(pieces@.drop_last() =~= so_far);
            assert(pairs@.take(k + 1).drop_last() =~= pairs@.take(k as int));
            assert(pairs@.take(k + 1).last() == pairs@[k as int]);
            assert forall|path: Option<CallstackId>| #[trigger]
                crate::rangemap::released_bytes(pieces@, path) == crate::rangemap::mapped_bytes(
                    entries,
                    path,
                ) + crate::allocation::listed_bytes(pairs@.take(k + 1), path) by {
                assert(crate::rangemap::released_bytes(so_far, path)
                    == crate::rangemap::mapped_bytes(entries, path)
                    + crate::allocation::listed_bytes(pairs@.take(k as int), path));
            }
        }
        k += 1;
    }
    proof {
        assert(pairs@.take(k as int) =~= pairs@);
        assert forall|path: Option<CallstackId>| #[trigger]
            crate::rangemap::released_bytes(pieces@, path) == crate::allocation::alloc_bytes(
                allocations@,
                path,
            ) + crate::rangemap::mapped_bytes(entries, path) by {
            crate::allocation::lemma_listed_bytes(pairs@, allocations@, path);
            assert(crate::rangemap::released_bytes(pieces@, path) == crate::rangemap::mapped_bytes(
                entries,
                path,
            ) + crate::allocation::listed_bytes(pairs@, path));
        }
    }
    pieces
}

/// The totals with, for each call path, the bytes of its pieces taken off.
pub open spec fn debited_all(totals: Seq<usize>, pieces: Seq<(CallstackId, usize)>) -> Seq<usize> {
    Seq::new(
        totals.len(),
        |id: int|
            (totals[id] - crate::rangemap::released_bytes(
                pieces,
                Some(id as CallstackId),
            )) as usize,
    )
}

/// The bytes of the first pieces are not negative and no more than those of
/// all of them.
pub proof fn lemma_released_prefix(
    pieces: Seq<(CallstackId, usize)>,
    n: int,
    path: Option<CallstackId>,
)
    requires
        0 <= n <= pieces.len(),
    ensures
        0 <= crate::rangemap::released_bytes(pieces.take(n), path)
            <= crate::rangemap::released_bytes(pieces, path),
    decreases pieces.len() - n,
{
    if n == pieces.len() {
        assert(pieces.take(n) =~= pieces);
        lemma_released_nonnegative(pieces, path);
    } else {
        lemma_released_prefix(pieces, n + 1, path);
        assert(pieces.take(n + 1).drop_last() =~= pieces.take(n));
        lemma_released_nonnegative(pieces.take(n), path);
    }
}

/// The bytes of pieces are not negative.
pub proof fn lemma_released_nonnegative(
    pieces: Seq<(CallstackId, usize)>,
    path: Option<CallstackId>,
)
    ensures
        0 <= crate::rangemap::released_bytes(pieces, path),
    decreases pieces.len(),
{
    if pieces.len() > 0 {
        lemma_released_nonnegative(pieces.drop_last(), path);
    }
}

/// Takes the bytes of each piece from the total of its call path and from
/// the live bytes.
fn debit_all(
    totals: &mut im::Vector<usize>,
    current: &mut usize,
    pieces: &Vec<(CallstackId, usize)>,
)
    requires
        sum(counts(*old(totals))) == *old(current),
        counts(*old(totals)).len() <= u32::MAX,
        forall|j: int|
            0 <= j < pieces@.len() ==> (#[trigger] pieces@[j]).0 < counts(*old(totals)).len(),
        forall|id: CallstackId|
            id < counts(*old(totals)).len() ==> crate::rangemap::released_bytes(pieces@, Some(id))
                <= #[trigger] counts(*old(totals))[id as int],
    ensures
        counts(*final(totals)) == debited_all(counts(*old(totals)), pieces@),
        *final(current) == *old(current) - crate::rangemap::released_bytes(pieces@, None),
        sum(counts(*final(totals))) == *final(current),
{
    let ghost before = counts(*totals);
    let ghost start = *current;
    proof {
        assert(pieces@.take(0) =~= Seq::<(CallstackId, usize)>::empty());
        assert(counts(*totals) =~= debited_all(before, pieces@.take(0)));
    }
    let mut k: usize = 0;
    while k < pieces.len()
        invariant
            k <= pieces.len(),
            before == counts(*old(totals)),
            before.len() <= u32::MAX,
            forall|j: int| 0 <= j < pieces@.len() ==> (#[trigger] pieces@[j]).0 < before.len(),
            forall|id: CallstackId|
                id < before.len() ==> crate::rangemap::released_bytes(pieces@, Some(id))
                    <= #[trigger] before[id as int],
            counts(*totals) == debited_all(before, pieces@.take(k as int)),
            *current == start - crate::rangemap::released_bytes(pieces@.take(k as int), None),
            sum(counts(*totals)) == *current,
        decreases pieces.len() - k,
    {
        let (id, bytes) = pieces[k];
        proof {
            assert(pieces@.take(k + 1).drop_last() =~= pieces@.take(k as int));
            assert(pieces@.take(k + 1).last() == pieces@[k as int]);
            lemma_released_prefix(pieces@, k + 1, Some(id));
            lemma_released_prefix(pieces@, k as int, Some(id));
            assert(pieces@[k as int].0 < before.len());
            assert(counts(*totals)[id as int] == before[id as int]
                - crate::rangemap::released_bytes(pieces@.take(k as int), Some(id)));
        }
        remove_usage(totals, current, id, bytes);
        proof {
            assert forall|p: int| 0 <= p < before.len() implies counts(*totals)[p] == debited_all(
                before,
                pieces@.take(k + 1),
            )[p] by {
                let path = p as CallstackId;
                lemma_released_prefix(pieces@, k + 1, Some(path));
                lemma_released_prefix(pieces@, k as int, Some(path));
                if path == id {
                    assert(counts(*totals)[p] == before[p] - crate::rangemap::released_bytes(
                        pieces@.take(k as int),
                        Some(path),
                    ) - bytes);
                } else {
                    assert(counts(*totals)[p] == before[p] - crate::rangemap::released_bytes(
                        pieces@.take(k as int),
                        Some(path),
                    ));
                }
            }
            assert(counts(*totals) =~= debited_all(before, pieces@.take(k + 1)));
        }
        k += 1;
    }
    proof {
        assert(pieces@.take(k as int) =~= pieces@);
    }
}

} // verus!
