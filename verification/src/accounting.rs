//! What the tracker holds, as plain values, and what each of its operations
//! makes of it.

use crate::allocation::{alloc_bytes, Allocation, CallstackId, ProcessUid, PARENT_PROCESS_NUMBER};
use crate::callsite::CallSiteId;
use crate::rangemap::{
    entries_wf, mapped_bytes, released, released_bytes, remaining_after, Entry, Range,
};
use crate::usage::sum;
use vstd::prelude::*;

verus! {

/// The live records of one process.
#[verifier::ext_equal]
pub struct ProcessState {
    pub process: ProcessUid,
    /// Heap allocations by address.
    pub allocations: Map<usize, Allocation>,
    /// Anonymous page mappings, one entry per fragment that is still mapped.
    pub mmaps: Seq<Entry<CallstackId>>,
}

impl ProcessState {
    /// A process without records.
    pub open spec fn empty(process: ProcessUid) -> ProcessState {
        ProcessState {
            process,
            allocations: Map::<usize, Allocation>::empty(),
            mmaps: Seq::<Entry<CallstackId>>::empty(),
        }
    }

    /// Bytes that the records attribute to `path`; all their bytes where no
    /// path is given.
    pub open spec fn bytes(self, path: Option<CallstackId>) -> int {
        alloc_bytes(self.allocations, path) + mapped_bytes(self.mmaps, path)
    }

    /// The records are finitely many, every mapping covers an address, and
    /// every record is attributed to one of the first `paths` call paths.
    pub open spec fn wf(self, paths: nat) -> bool {
        &&& self.allocations.dom().finite()
        &&& entries_wf(self.mmaps)
        &&& forall|address: usize| #[trigger]
            self.allocations.contains_key(address) ==> self.allocations[address].path() < paths
        &&& forall|i: int| 0 <= i < self.mmaps.len() ==> (#[trigger] self.mmaps[i]).1 < paths
    }
}

/// Bytes that the records of all the processes attribute to `path`; all
/// their bytes where no path is given.
pub open spec fn live_bytes(states: Seq<ProcessState>, path: Option<CallstackId>) -> int
    decreases states.len(),
{
    if states.len() == 0 {
        0
    } else {
        live_bytes(states.drop_last(), path) + states.last().bytes(path)
    }
}

/// Where the records of `process` stand, if it has any.
pub open spec fn position(states: Seq<ProcessState>, process: ProcessUid) -> Option<int>
    decreases states.len(),
{
    if states.len() == 0 {
        None
    } else if states.last().process == process {
        Some(states.len() - 1)
    } else {
        position(states.drop_last(), process)
    }
}

/// No process stands twice.
pub open spec fn distinct(states: Seq<ProcessState>) -> bool {
    forall|i: int, j: int|
        0 <= i < j < states.len() ==> (#[trigger] states[i]).process != (
        #[trigger] states[j]).process
}

/// The higher of a peak and the live bytes that are looked at.
pub open spec fn higher(peak: int, current: int) -> int {
    if current > peak {
        current
    } else {
        peak
    }
}

/// The peak after the live bytes were looked at when they were each of
/// `observed`, in that order, starting from the peak `start`.
pub open spec fn peak_after(start: int, observed: Seq<int>) -> int
    decreases observed.len(),
{
    if observed.len() == 0 {
        start
    } else {
        higher(peak_after(start, observed.drop_last()), observed.last())
    }
}

/// The peak is the highest of the live bytes that were looked at, or what
/// it was at the start where none of them was higher.
pub proof fn lemma_peak_is_highest_observed(start: int, observed: Seq<int>)
    ensures
        peak_after(start, observed) >= start,
        forall|i: int|
            0 <= i < observed.len() ==> peak_after(start, observed) >= #[trigger] observed[i],
        peak_after(start, observed) == start || exists|i: int|
            0 <= i < observed.len() && peak_after(start, observed) == #[trigger] observed[i],
    decreases observed.len(),
{
    if observed.len() > 0 {
        let front = observed.drop_last();
        lemma_peak_is_highest_observed(start, front);
        assert forall|i: int| 0 <= i < observed.len() implies peak_after(start, observed)
            >= #[trigger] observed[i] by {
            if i < front.len() {
                assert(front[i] == observed[i]);
            }
        }
        if peak_after(start, observed) != start {
            if peak_after(start, observed) == observed.last() {
                assert(observed[observed.len() - 1] == observed.last());
            } else {
                let i = choose|i: int|
                    0 <= i < front.len() && peak_after(start, front) == #[trigger] front[i];
                assert(front[i] == observed[i]);
            }
        }
    }
}

/// The totals with `bytes` more for `id`.
pub open spec fn credited(totals: Seq<usize>, id: CallstackId, bytes: int) -> Seq<usize> {
    totals.update(id as int, (totals[id as int] + bytes) as usize)
}

/// The totals with `bytes` fewer for `id`.
pub open spec fn debited(totals: Seq<usize>, id: CallstackId, bytes: int) -> Seq<usize> {
    totals.update(id as int, (totals[id as int] - bytes) as usize)
}

/// As many totals, each of them zero.
pub open spec fn zeroed(totals: Seq<usize>) -> Seq<usize> {
    Seq::new(totals.len(), |i: int| 0usize)
}

/// All that a tracker holds.
#[verifier::ext_equal]
pub struct TrackerView {
    /// The live records, process by process, in the order in which the
    /// processes were first seen.
    pub processes: Seq<ProcessState>,
    /// Live bytes of each call path, by id.
    pub path_totals: Seq<usize>,
    /// The totals as they stood at the highest sum that was observed.
    pub peak_path_totals: Seq<usize>,
    /// Live bytes.
    pub current_bytes: int,
    /// The highest number of live bytes that was observed.
    pub peak_bytes: int,
    /// Bytes of allocations whose address was given out again before it was
    /// freed.
    pub missing_bytes: int,
    /// Frees of addresses that held no allocation, counted while debugging.
    pub failed_frees: int,
    /// The frames of each interned call path, by id.
    pub interned: Seq<Seq<CallSiteId>>,
    /// Where profiles go when no other place is named.
    pub default_path: Seq<char>,
    /// Whether frees of unknown addresses are counted.
    pub debug_mode: bool,
}

impl TrackerView {
    /// A tracker that has seen nothing yet: the parent process without
    /// records, no call path, no byte.
    pub open spec fn initial(default_path: Seq<char>, debug_mode: bool) -> TrackerView {
        TrackerView {
            processes: seq![ProcessState::empty(ProcessUid(PARENT_PROCESS_NUMBER))],
            path_totals: Seq::<usize>::empty(),
            peak_path_totals: Seq::<usize>::empty(),
            current_bytes: 0,
            peak_bytes: 0,
            missing_bytes: 0,
            failed_frees: 0,
            interned: Seq::<Seq<CallSiteId>>::empty(),
            default_path,
            debug_mode,
        }
    }

    /// A tracker that has seen nothing yet is in order.
    pub proof fn lemma_initial(default_path: Seq<char>, debug_mode: bool)
        ensures
            TrackerView::initial(default_path, debug_mode).wf(),
            TrackerView::initial(default_path, debug_mode).consistent(),
    {
        let v = TrackerView::initial(default_path, debug_mode);
        assert(v.processes.drop_last() =~= Seq::<ProcessState>::empty());
        assert(live_bytes(Seq::<ProcessState>::empty(), None) == 0);
    }

    /// The allocations of `process`, by address.
    pub open spec fn allocations(self, process: ProcessUid) -> Map<usize, Allocation> {
        match position(self.processes, process) {
            Some(i) => self.processes[i].allocations,
            None => Map::<usize, Allocation>::empty(),
        }
    }

    /// The page mappings of `process`.
    pub open spec fn mappings(self, process: ProcessUid) -> Seq<Entry<CallstackId>> {
        match position(self.processes, process) {
            Some(i) => self.processes[i].mmaps,
            None => Seq::<Entry<CallstackId>>::empty(),
        }
    }

    /// What always holds of a tracker: every call path has its total and
    /// every record is attributed to a call path that has one; the totals
    /// add up to the live bytes, and those at the peak, unless they were let
    /// go, to the peak; and no total is less than the bytes of the records
    /// that are attributed to it.
    pub open spec fn wf(self) -> bool {
        &&& self.interned.no_duplicates()
        &&& self.interned.len() <= u32::MAX
        &&& self.interned.len() == self.path_totals.len()
        &&& distinct(self.processes)
        &&& forall|i: int|
            0 <= i < self.processes.len() ==> (#[trigger] self.processes[i]).wf(
                self.path_totals.len(),
            )
        &&& sum(self.path_totals) == self.current_bytes
        &&& self.peak_path_totals.len() <= self.path_totals.len()
        &&& self.peak_path_totals.len() == 0 || sum(self.peak_path_totals) == self.peak_bytes
        &&& 0 <= self.current_bytes <= usize::MAX
        &&& 0 <= self.peak_bytes <= usize::MAX
        &&& 0 <= self.missing_bytes <= usize::MAX
        &&& 0 <= self.failed_frees <= usize::MAX
        &&& live_bytes(self.processes, None) <= self.current_bytes
        &&& forall|id: CallstackId|
            id < self.path_totals.len() ==> live_bytes(self.processes, Some(id)) <= (
            #[trigger] self.path_totals[id as int])
    }

    /// What holds of a tracker until, out of memory, it lets go of its
    /// records: the totals are exactly the bytes of the records, and the
    /// totals at the peak add up to the peak.
    pub open spec fn consistent(self) -> bool {
        &&& live_bytes(self.processes, None) == self.current_bytes
        &&& forall|id: CallstackId|
            id < self.path_totals.len() ==> live_bytes(self.processes, Some(id)) == (
            #[trigger] self.path_totals[id as int])
        &&& sum(self.peak_path_totals) == self.peak_bytes
    }

    /// The same, with a place for the records of `process`.
    pub open spec fn with_process(self, process: ProcessUid) -> TrackerView {
        if position(self.processes, process).is_some() {
            self
        } else {
            TrackerView { processes: self.processes.push(ProcessState::empty(process)), ..self }
        }
    }

    /// Where the records of `process` stand once it has a place.
    pub open spec fn slot(self, process: ProcessUid) -> int {
        match position(self.processes, process) {
            Some(i) => i,
            None => self.processes.len() as int,
        }
    }

    /// The same, with `state` in place of the records at `i`.
    pub open spec fn with_state(self, i: int, state: ProcessState) -> TrackerView {
        TrackerView { processes: self.processes.update(i, state), ..self }
    }

    /// The same, with `bytes` more live bytes, attributed to `id`.
    pub open spec fn credit(self, id: CallstackId, bytes: int) -> TrackerView {
        TrackerView {
            path_totals: credited(self.path_totals, id, bytes),
            current_bytes: self.current_bytes + bytes,
            ..self
        }
    }

    /// The same, with `bytes` fewer live bytes, taken from `id`.
    pub open spec fn debit(self, id: CallstackId, bytes: int) -> TrackerView {
        TrackerView {
            path_totals: debited(self.path_totals, id, bytes),
            current_bytes: self.current_bytes - bytes,
            ..self
        }
    }

    /// Looks at the live bytes: where they are more than the peak, they are
    /// the peak from now on, and the totals are kept as those of the peak.
    pub open spec fn observe_peak(self) -> TrackerView {
        if self.current_bytes > self.peak_bytes {
            TrackerView {
                peak_bytes: self.current_bytes,
                peak_path_totals: self.path_totals,
                ..self
            }
        } else {
            self
        }
    }

    /// The bytes of the allocation that `process` holds at `address`; 0
    /// where it holds none.
    pub open spec fn held_at(self, process: ProcessUid, address: usize) -> int {
        if self.allocations(process).contains_key(address) {
            self.allocations(process)[address].spec_size()
        } else {
            0
        }
    }

    /// Gives the call path `calls` an id, and a total of zero, unless it has
    /// them.
    pub open spec fn intern(self, calls: Seq<CallSiteId>) -> TrackerView {
        if self.interned.contains(calls) {
            self
        } else {
            TrackerView {
                interned: self.interned.push(calls),
                path_totals: self.path_totals.push(0),
                ..self
            }
        }
    }

    /// The id that `calls` has once it is interned.
    pub open spec fn id_of(self, calls: Seq<CallSiteId>) -> int {
        if self.interned.contains(calls) {
            self.interned.index_of(calls)
        } else {
            self.interned.len() as int
        }
    }

    /// Records an allocation of `size` bytes at `address`, made on the call
    /// path `id`. Its size as the record keeps it is added to the live
    /// bytes. An allocation that the address still held is taken to have
    /// been freed unseen: its bytes leave the live bytes and are counted as
    /// missing.
    pub open spec fn add_allocation(
        self,
        process: ProcessUid,
        address: usize,
        size: usize,
        id: CallstackId,
    ) -> TrackerView {
        let placed = self.with_process(process);
        let i = self.slot(process);
        let state = placed.processes[i];
        let alloc = Allocation::spec_new(id, size);
        let stored = placed.with_state(
            i,
            ProcessState { allocations: state.allocations.insert(address, alloc), ..state },
        );
        if state.allocations.contains_key(address) {
            let previous = state.allocations[address];
            (TrackerView {
                missing_bytes: self.missing_bytes + previous.spec_size(),
                ..stored
            }).debit(previous.path(), previous.spec_size()).credit(id, alloc.spec_size())
        } else {
            stored.credit(id, alloc.spec_size())
        }
    }

    /// Frees what `process` holds at `address`, after a look at the peak.
    /// Where the address holds nothing, nothing changes but, while
    /// debugging, the count of such frees.
    pub open spec fn free_allocation(self, process: ProcessUid, address: usize) -> TrackerView {
        let placed = self.observe_peak().with_process(process);
        let i = self.slot(process);
        let state = placed.processes[i];
        if state.allocations.contains_key(address) {
            let removed = state.allocations[address];
            placed.with_state(
                i,
                ProcessState { allocations: state.allocations.remove(address), ..state },
            ).debit(removed.path(), removed.spec_size())
        } else if self.debug_mode {
            TrackerView { failed_frees: self.failed_frees + 1, ..placed }
        } else {
            placed
        }
    }

    /// Records an anonymous mapping of `size` bytes from `address` on, made
    /// on the call path `id`.
    pub open spec fn add_anon_mmap(
        self,
        process: ProcessUid,
        address: usize,
        size: usize,
        id: CallstackId,
    ) -> TrackerView {
        let placed = self.with_process(process);
        let i = self.slot(process);
        let state = placed.processes[i];
        let mmaps = if size > 0 {
            state.mmaps.push((Range { start: address, end: (address + size) as usize }, id))
        } else {
            state.mmaps
        };
        placed.with_state(i, ProcessState { mmaps, ..state }).credit(id, size as int)
    }

    /// Unmaps `size` bytes from `address` on, after a look at the peak:
    /// every mapping of `process` loses the addresses it has in that range,
    /// and its call path their number.
    pub open spec fn free_anon_mmap(
        self,
        process: ProcessUid,
        address: usize,
        size: usize,
    ) -> TrackerView {
        let placed = self.observe_peak().with_process(process);
        let i = self.slot(process);
        let state = placed.processes[i];
        let cut = Range { start: address, end: (address + size) as usize };
        let gone = released(state.mmaps, cut);
        TrackerView {
            path_totals: Seq::new(
                self.path_totals.len(),
                |id: int|
                    (self.path_totals[id] - released_bytes(gone, Some(id as CallstackId))) as usize,
            ),
            current_bytes: self.current_bytes - released_bytes(gone, None),
            ..placed.with_state(
                i,
                ProcessState { mmaps: remaining_after(state.mmaps, cut), ..state },
            )
        }
    }

    /// Forgets `process`, after a look at the peak: its records go, and
    /// their bytes leave the totals of their call paths.
    pub open spec fn drop_process(self, process: ProcessUid) -> TrackerView {
        let seen = self.observe_peak();
        match position(self.processes, process) {
            Some(i) => {
                let state = self.processes[i];
                TrackerView {
                    processes: self.processes.remove(i),
                    path_totals: Seq::new(
                        self.path_totals.len(),
                        |id: int|
                            (self.path_totals[id] - state.bytes(Some(id as CallstackId))) as usize,
                    ),
                    current_bytes: self.current_bytes - state.bytes(None),
                    ..seen
                }
            },
            None => seen,
        }
    }

    /// Starts over: no record, no live byte, no peak. The call paths keep
    /// their ids, and each keeps its total, now zero, so that ids handed
    /// out before stay good.
    pub open spec fn reset(self, default_path: Seq<char>) -> TrackerView {
        TrackerView {
            processes: seq![ProcessState::empty(ProcessUid(PARENT_PROCESS_NUMBER))],
            path_totals: zeroed(self.path_totals),
            peak_path_totals: Seq::<usize>::empty(),
            current_bytes: 0,
            peak_bytes: 0,
            default_path,
            ..self
        }
    }

    /// Lets go of what a last profile does not need: the allocations by
    /// address and the totals at the peak. The live totals stay.
    pub open spec fn oom_break_glass(self) -> TrackerView {
        TrackerView {
            processes: Seq::new(
                self.processes.len(),
                |i: int|
                    ProcessState {
                        allocations: Map::<usize, Allocation>::empty(),
                        ..self.processes[i]
                    },
            ),
            peak_path_totals: Seq::<usize>::empty(),
            ..self
        }
    }
}

/// Where the records of a process stand, there they are, and nowhere
/// behind; where none stand, there are none.
pub proof fn lemma_position(states: Seq<ProcessState>, process: ProcessUid)
    ensures
        match position(states, process) {
            Some(i) => {
                &&& 0 <= i < states.len()
                &&& states[i].process == process
                &&& forall|j: int|
                    i < j < states.len() ==> (#[trigger] states[j]).process != process
            },
            None => forall|j: int|
                0 <= j < states.len() ==> (#[trigger] states[j]).process != process,
        },
    decreases states.len(),
{
    if states.len() > 0 && states.last().process != process {
        lemma_position(states.drop_last(), process);
        match position(states.drop_last(), process) {
            Some(i) => {
                assert forall|j: int| i < j < states.len() implies (#[trigger] states[j]).process
                    != process by {
                    if j < states.len() - 1 {
                        assert(states.drop_last()[j].process != process);
                    }
                }
            },
            None => {
                assert forall|j: int| 0 <= j < states.len() implies (#[trigger] states[j]).process
                    != process by {
                    if j < states.len() - 1 {
                        assert(states.drop_last()[j].process != process);
                    }
                }
            },
        }
    }
}

/// Among distinct processes the records of a process stand where they are
/// found.
pub proof fn lemma_position_found(states: Seq<ProcessState>, process: ProcessUid, i: int)
    requires
        distinct(states),
        0 <= i < states.len(),
        states[i].process == process,
    ensures
        position(states, process) == Some(i),
{
    lemma_position(states, process);
}

/// The bytes of the processes with the records at `i` replaced.
pub proof fn lemma_live_bytes_update(
    states: Seq<ProcessState>,
    i: int,
    state: ProcessState,
    path: Option<CallstackId>,
)
    requires
        0 <= i < states.len(),
    ensures
        live_bytes(states.update(i, state), path) == live_bytes(states, path) - states[i].bytes(
            path,
        ) + state.bytes(path),
    decreases states.len(),
{
    if i < states.len() - 1 {
        lemma_live_bytes_update(states.drop_last(), i, state, path);
        assert(states.update(i, state).drop_last() =~= states.drop_last().update(i, state));
    } else {
        assert(states.update(i, state).drop_last() =~= states.drop_last());
    }
}

/// The bytes of the processes and of one more.
pub proof fn lemma_live_bytes_push(
    states: Seq<ProcessState>,
    state: ProcessState,
    path: Option<CallstackId>,
)
    ensures
        live_bytes(states.push(state), path) == live_bytes(states, path) + state.bytes(path),
{
    assert(states.push(state).drop_last() =~= states);
}

/// The bytes of the processes without the one at `i`.
pub proof fn lemma_live_bytes_remove(states: Seq<ProcessState>, i: int, path: Option<CallstackId>)
    requires
        0 <= i < states.len(),
    ensures
        live_bytes(states.remove(i), path) == live_bytes(states, path) - states[i].bytes(path),
    decreases states.len(),
{
    if i < states.len() - 1 {
        lemma_live_bytes_remove(states.drop_last(), i, path);
        assert(states.remove(i).drop_last() =~= states.drop_last().remove(i));
        assert(states.remove(i).last() == states.last());
    } else {
        assert(states.remove(i) =~= states.drop_last());
    }
}

/// The bytes of well-formed records are not negative, and those of one
/// process are no more than those of all.
pub proof fn lemma_live_bytes_bounds(
    states: Seq<ProcessState>,
    paths: nat,
    path: Option<CallstackId>,
)
    requires
        forall|i: int| 0 <= i < states.len() ==> (#[trigger] states[i]).wf(paths),
    ensures
        0 <= live_bytes(states, path),
        forall|i: int|
            0 <= i < states.len() ==> 0 <= (#[trigger] states[i]).bytes(path) <= live_bytes(
                states,
                path,
            ),
    decreases states.len(),
{
    if states.len() > 0 {
        let front = states.drop_last();
        assert forall|i: int| 0 <= i < front.len() implies (#[trigger] front[i]).wf(paths) by {
            assert(front[i] == states[i]);
        }
        lemma_live_bytes_bounds(front, paths, path);
        let last = states.last();
        assert(states[states.len() - 1].wf(paths));
        crate::allocation::lemma_alloc_bytes_bounds(last.allocations, path);
        crate::rangemap::lemma_mapped_bytes_bounds(last.mmaps, path);
        assert forall|i: int| 0 <= i < states.len() implies 0 <= (#[trigger] states[i]).bytes(path)
            <= live_bytes(states, path) by {
            if i < states.len() - 1 {
                assert(front[i] == states[i]);
            }
        }
    }
}

/// The records of the first processes hold no more bytes than those of
/// all.
pub proof fn lemma_live_bytes_prefix(
    states: Seq<ProcessState>,
    paths: nat,
    n: int,
    path: Option<CallstackId>,
)
    requires
        forall|i: int| 0 <= i < states.len() ==> (#[trigger] states[i]).wf(paths),
        0 <= n <= states.len(),
    ensures
        0 <= live_bytes(states.take(n), path) <= live_bytes(states, path),
    decreases states.len() - n,
{
    assert forall|i: int| 0 <= i < states.take(n).len() implies (#[trigger] states.take(n)[i]).wf(
        paths,
    ) by {
        assert(states.take(n)[i] == states[i]);
    }
    lemma_live_bytes_bounds(states.take(n), paths, path);
    if n == states.len() {
        assert(states.take(n) =~= states);
    } else {
        lemma_live_bytes_prefix(states, paths, n + 1, path);
        assert(states.take(n + 1).drop_last() =~= states.take(n));
        assert(states.take(n + 1).last() == states[n]);
        assert(states[n].wf(paths));
        crate::allocation::lemma_alloc_bytes_bounds(states[n].allocations, path);
        crate::rangemap::lemma_mapped_bytes_bounds(states[n].mmaps, path);
    }
}

/// The bytes of all records are those of each call path, added up.
pub proof fn lemma_live_bytes_by_path(states: Seq<ProcessState>, paths: nat)
    requires
        forall|i: int| 0 <= i < states.len() ==> (#[trigger] states[i]).wf(paths),
        paths <= u32::MAX,
    ensures
        total_below(|id: CallstackId| live_bytes(states, Some(id)), paths as int) == live_bytes(
            states,
            None,
        ),
    decreases states.len(),
{
    let whole = |id: CallstackId| live_bytes(states, Some(id));
    if states.len() == 0 {
        lemma_total_below_one(whole, None, 0, paths as int);
    } else {
        let front = states.drop_last();
        let last = states.last();
        assert forall|i: int| 0 <= i < front.len() implies (#[trigger] front[i]).wf(paths) by {
            assert(front[i] == states[i]);
        }
        lemma_live_bytes_by_path(front, paths);
        assert(states[states.len() - 1].wf(paths));
        lemma_alloc_bytes_by_path(last.allocations, paths);
        lemma_mapped_bytes_by_path(last.mmaps, paths);
        let allocated = |id: CallstackId| alloc_bytes(last.allocations, Some(id));
        let mapped = |id: CallstackId| mapped_bytes(last.mmaps, Some(id));
        let one = |id: CallstackId| last.bytes(Some(id));
        lemma_total_below_add(allocated, mapped, one, paths as int);
        let rest = |id: CallstackId| live_bytes(front, Some(id));
        lemma_total_below_add(rest, one, whole, paths as int);
    }
}

/// Totals that are each no less than `f` of their path and add up to no
/// more than `f` does are each exactly `f` of their path.
pub proof fn lemma_no_slack(totals: Seq<usize>, f: spec_fn(CallstackId) -> int, n: int)
    requires
        0 <= n <= totals.len(),
        totals.len() <= u32::MAX,
        forall|id: CallstackId| id < totals.len() ==> f(id) <= #[trigger] totals[id as int],
        sum(totals.take(n)) <= total_below(f, n),
    ensures
        forall|id: CallstackId| id < n ==> f(id) == #[trigger] totals[id as int],
        sum(totals.take(n)) == total_below(f, n),
    decreases n,
{
    if n > 0 {
        assert(totals.take(n).drop_last() =~= totals.take(n - 1));
        assert(totals.take(n).last() == totals[n - 1]);
        let last = (n - 1) as CallstackId;
        assert(f(last) <= totals[last as int]);
        lemma_slack_is_not_negative(totals, f, n - 1);
        lemma_no_slack(totals, f, n - 1);
    }
}

/// Totals that are each no less than `f` of their path add up to no less
/// than `f` does.
pub proof fn lemma_slack_is_not_negative(totals: Seq<usize>, f: spec_fn(CallstackId) -> int, n: int)
    requires
        0 <= n <= totals.len(),
        totals.len() <= u32::MAX,
        forall|id: CallstackId| id < totals.len() ==> f(id) <= #[trigger] totals[id as int],
    ensures
        sum(totals.take(n)) >= total_below(f, n),
    decreases n,
{
    if n > 0 {
        assert(totals.take(n).drop_last() =~= totals.take(n - 1));
        assert(totals.take(n).last() == totals[n - 1]);
        let last = (n - 1) as CallstackId;
        assert(f(last) <= totals[last as int]);
        lemma_slack_is_not_negative(totals, f, n - 1);
    }
}

impl TrackerView {
    /// Giving a process a place changes nothing that is counted.
    pub proof fn lemma_with_process(self, process: ProcessUid)
        requires
            self.wf(),
        ensures
            self.with_process(process).wf(),
            self.consistent() ==> self.with_process(process).consistent(),
            position(self.with_process(process).processes, process) == Some(self.slot(process)),
            0 <= self.slot(process) < self.with_process(process).processes.len(),
            self.with_process(process).processes[self.slot(process)].process == process,
            self.with_process(process).allocations(process) == self.allocations(process),
            self.with_process(process).mappings(process) == self.mappings(process),
            self.with_process(process).processes[self.slot(process)].allocations
                == self.allocations(process),
            self.with_process(process).processes[self.slot(process)].mmaps == self.mappings(
                process,
            ),
    {
        lemma_position(self.processes, process);
        let placed = self.with_process(process);
        if position(self.processes, process).is_none() {
            let fresh = ProcessState::empty(process);
            assert(placed.processes.drop_last() =~= self.processes);
            assert(placed.processes.last() == fresh);
            assert forall|i: int| 0 <= i < placed.processes.len() implies (
            #[trigger] placed.processes[i]).wf(placed.path_totals.len()) by {
                if i < self.processes.len() {
                    assert(placed.processes[i] == self.processes[i]);
                }
            }
            assert forall|id: CallstackId| id < placed.path_totals.len() implies live_bytes(
                placed.processes,
                Some(id),
            ) == live_bytes(self.processes, Some(id)) by {
                lemma_live_bytes_push(self.processes, fresh, Some(id));
            }
            lemma_live_bytes_push(self.processes, fresh, None);
        }
    }
}

/// One process's records change, and the totals change by as many bytes as
/// the records do: then what always holds still holds.
pub proof fn lemma_step(before: TrackerView, after: TrackerView, i: int, state: ProcessState)
    requires
        before.wf(),
        0 <= i < before.processes.len(),
        after.processes == before.processes.update(i, state),
        state.process == before.processes[i].process,
        state.wf(before.path_totals.len()),
        after.path_totals.len() == before.path_totals.len(),
        after.interned == before.interned,
        forall|id: CallstackId|
            id < before.path_totals.len() ==> (#[trigger] after.path_totals[id as int])
                - before.path_totals[id as int] == state.bytes(Some(id))
                - before.processes[i].bytes(Some(id)),
        after.current_bytes - before.current_bytes == state.bytes(None)
            - before.processes[i].bytes(None),
        sum(after.path_totals) == after.current_bytes,
        after.current_bytes <= usize::MAX,
        0 <= after.missing_bytes <= usize::MAX,
        0 <= after.failed_frees <= usize::MAX,
        after.peak_bytes == before.peak_bytes,
        after.peak_path_totals == before.peak_path_totals,
    ensures
        after.wf(),
        before.consistent() ==> after.consistent(),
{
    let paths = before.path_totals.len();
    assert forall|j: int| 0 <= j < after.processes.len() implies (#[trigger] after.processes[j]).wf(
        after.path_totals.len(),
    ) by {
        if j != i {
            assert(after.processes[j] == before.processes[j]);
        }
    }
    assert(distinct(after.processes)) by {
        assert forall|a: int, b: int| 0 <= a < b < after.processes.len() implies (
        #[trigger] after.processes[a]).process != (#[trigger] after.processes[b]).process by {
            assert(after.processes[a].process == before.processes[a].process);
            assert(after.processes[b].process == before.processes[b].process);
        }
    }
    lemma_live_bytes_update(before.processes, i, state, None);
    crate::usage::lemma_sum_nonnegative(after.path_totals);
    assert forall|id: CallstackId| id < after.path_totals.len() implies live_bytes(
        after.processes,
        Some(id),
    ) - live_bytes(before.processes, Some(id)) == (#[trigger] after.path_totals[id as int])
        - before.path_totals[id as int] by {
        lemma_live_bytes_update(before.processes, i, state, Some(id));
    }
}

impl TrackerView {
    /// The totals still add up after a credit.
    pub proof fn lemma_credit(self, id: CallstackId, bytes: int)
        requires
            id < self.path_totals.len(),
            sum(self.path_totals) == self.current_bytes,
            0 <= bytes,
            self.current_bytes + bytes <= usize::MAX,
        ensures
            sum(self.credit(id, bytes).path_totals) == self.credit(id, bytes).current_bytes,
            self.credit(id, bytes).path_totals.len() == self.path_totals.len(),
            self.credit(id, bytes).path_totals[id as int] == self.path_totals[id as int] + bytes,
            forall|other: CallstackId|
                other < self.path_totals.len() && other != id ==> (#[trigger] self.credit(
                    id,
                    bytes,
                ).path_totals[other as int]) == self.path_totals[other as int],
    {
        crate::usage::lemma_sum_bounds_each(self.path_totals, id as int);
        crate::usage::lemma_sum_update(
            self.path_totals,
            id as int,
            (self.path_totals[id as int] + bytes) as usize,
        );
    }

    /// The totals still add up after a debit.
    pub proof fn lemma_debit(self, id: CallstackId, bytes: int)
        requires
            id < self.path_totals.len(),
            sum(self.path_totals) == self.current_bytes,
            0 <= bytes <= self.path_totals[id as int],
        ensures
            sum(self.debit(id, bytes).path_totals) == self.debit(id, bytes).current_bytes,
            self.debit(id, bytes).path_totals.len() == self.path_totals.len(),
            self.debit(id, bytes).path_totals[id as int] == self.path_totals[id as int] - bytes,
            forall|other: CallstackId|
                other < self.path_totals.len() && other != id ==> (#[trigger] self.debit(
                    id,
                    bytes,
                ).path_totals[other as int]) == self.path_totals[other as int],
            0 <= self.debit(id, bytes).current_bytes,
    {
        crate::usage::lemma_sum_bounds_each(self.path_totals, id as int);
        crate::usage::lemma_sum_update(
            self.path_totals,
            id as int,
            (self.path_totals[id as int] - bytes) as usize,
        );
        crate::usage::lemma_sum_nonnegative(self.debit(id, bytes).path_totals);
    }

    /// A look at the peak changes nothing that always holds. Afterwards the
    /// peak is the higher of what it was and the live bytes.
    pub proof fn lemma_observe_peak(self)
        requires
            self.wf(),
        ensures
            self.observe_peak().wf(),
            self.consistent() ==> self.observe_peak().consistent(),
            self.observe_peak().peak_bytes >= self.observe_peak().current_bytes,
            self.observe_peak().peak_bytes == higher(self.peak_bytes, self.current_bytes),
            self.observe_peak().current_bytes == self.current_bytes,
            self.observe_peak().path_totals == self.path_totals,
    {
    }

    /// Where the live bytes are exactly the bytes of the records, the total
    /// of each call path is exactly the bytes of its records.
    pub proof fn lemma_exact_sum_means_exact_totals(self)
        requires
            self.wf(),
            live_bytes(self.processes, None) == self.current_bytes,
        ensures
            forall|id: CallstackId|
                id < self.path_totals.len() ==> live_bytes(self.processes, Some(id)) == (
                #[trigger] self.path_totals[id as int]),
    {
        let paths = self.path_totals.len();
        let f = |id: CallstackId| live_bytes(self.processes, Some(id));
        lemma_live_bytes_by_path(self.processes, paths);
        assert(self.path_totals.take(paths as int) =~= self.path_totals);
        lemma_no_slack(self.path_totals, f, paths as int);
    }

    /// Starting over a second time changes nothing.
    pub proof fn lemma_reset_twice(self, default_path: Seq<char>)
        ensures
            self.reset(default_path).reset(default_path) == self.reset(default_path),
    {
        assert(zeroed(zeroed(self.path_totals)) =~= zeroed(self.path_totals));
    }

    /// A call path that is interned a second time keeps its id, and an id
    /// that was given out stays the id of its call path whatever else is
    /// interned.
    pub proof fn lemma_ids_are_stable(self, calls: Seq<CallSiteId>, other: Seq<CallSiteId>)
        requires
            self.interned.no_duplicates(),
        ensures
            self.intern(calls).intern(calls) == self.intern(calls),
            self.intern(calls).id_of(calls) == self.id_of(calls),
            self.interned.contains(calls) ==> self.intern(other).id_of(calls) == self.id_of(calls),
            forall|id: int|
                0 <= id < self.interned.len() ==> (#[trigger] self.intern(other).interned[id])
                    == self.interned[id],
    {
        let once = self.intern(calls);
        if !self.interned.contains(calls) {
            let n = self.interned.len() as int;
            assert(once.interned[n] == calls);
            assert(once.interned.contains(calls));
            let found = once.interned.index_of(calls);
            assert(once.interned[found] == calls);
            if found < n {
                assert(self.interned[found] == calls);
            }
        }
        if self.interned.contains(calls) {
            let after = self.intern(other);
            let before = self.interned.index_of(calls);
            assert(self.interned[before] == calls);
            assert(after.interned[before] == calls);
            assert(after.interned.contains(calls));
            let found = after.interned.index_of(calls);
            assert(after.interned[found] == calls);
            if found != before {
                if found < self.interned.len() {
                    assert(self.interned[found] == calls);
                } else {
                    assert(other == calls);
                }
            }
        }
    }

    /// A second look at the peak, right after the first, changes nothing.
    pub proof fn lemma_observe_peak_twice(self)
        ensures
            self.observe_peak().observe_peak() == self.observe_peak(),
    {
    }

    /// An allocation that is recorded at an address that held none, and
    /// then freed, leaves the totals and the live bytes as they were.
    pub proof fn lemma_add_then_free(
        self,
        process: ProcessUid,
        address: usize,
        size: usize,
        id: CallstackId,
    )
        requires
            self.wf(),
            id < self.path_totals.len(),
            !self.allocations(process).contains_key(address),
            self.current_bytes + crate::allocation::compressed_bytes(size as int) <= usize::MAX,
        ensures
            self.add_allocation(process, address, size, id).free_allocation(
                process,
                address,
            ).path_totals == self.path_totals,
            self.add_allocation(process, address, size, id).free_allocation(
                process,
                address,
            ).current_bytes == self.current_bytes,
            self.add_allocation(process, address, size, id).free_allocation(
                process,
                address,
            ).allocations(process) == self.allocations(process),
            self.add_allocation(process, address, size, id).held_at(process, address)
                == crate::allocation::compressed_bytes(size as int),
            self.add_allocation(process, address, size, id).free_allocation(
                process,
                address,
            ).held_at(process, address) == 0,
    {
        self.lemma_add_allocation(process, address, size, id);
        self.lemma_with_process(process);
        let added = self.add_allocation(process, address, size, id);
        let alloc = Allocation::spec_new(id, size);
        crate::allocation::lemma_spec_new(id, size);
        crate::allocation::lemma_counted_nonnegative(alloc, None);
        added.lemma_free_allocation(process, address);
        added.lemma_observe_peak();
        added.observe_peak().lemma_with_process(process);
        let freed = added.free_allocation(process, address);
        assert(added.allocations(process).contains_key(address));
        assert(added.allocations(process)[address] == alloc);
        crate::usage::lemma_sum_bounds_each(self.path_totals, id as int);
        let placed = self.with_process(process);
        let state = placed.processes[self.slot(process)];
        assert(!state.allocations.contains_key(address));
        assert(added.path_totals == credited(self.path_totals, id, alloc.spec_size()));
        let seen = added.observe_peak().with_process(process);
        assert(seen.path_totals == added.path_totals);
        assert(seen.processes[added.slot(process)].allocations == added.allocations(process));
        assert(freed.path_totals == debited(added.path_totals, id, alloc.spec_size()));
        assert(freed.path_totals =~= self.path_totals);
        assert(self.allocations(process).insert(address, alloc).remove(address)
            =~= self.allocations(process));
    }

    /// No total is less than what one process's records attribute to it, and
    /// no record counts for more than its path's total.
    pub proof fn lemma_state_within_totals(self, i: int)
        requires
            self.wf(),
            0 <= i < self.processes.len(),
        ensures
            self.processes[i].bytes(None) <= self.current_bytes,
            alloc_bytes(self.processes[i].allocations, None) <= self.current_bytes,
            mapped_bytes(self.processes[i].mmaps, None) <= self.current_bytes,
            forall|id: CallstackId|
                id < self.path_totals.len() ==> self.processes[i].bytes(Some(id)) <= (
                #[trigger] self.path_totals[id as int]),
            forall|address: usize| #[trigger]
                self.processes[i].allocations.contains_key(address) ==> {
                    let held = self.processes[i].allocations[address];
                    &&& held.path() < self.path_totals.len()
                    &&& 0 <= held.spec_size() <= self.path_totals[held.path() as int]
                    &&& held.spec_size() <= alloc_bytes(self.processes[i].allocations, None)
                },
    {
        let state = self.processes[i];
        let paths = self.path_totals.len();
        lemma_live_bytes_bounds(self.processes, paths, None);
        assert(state.wf(paths));
        crate::allocation::lemma_alloc_bytes_bounds(state.allocations, None);
        crate::rangemap::lemma_mapped_bytes_bounds(state.mmaps, None);
        assert forall|id: CallstackId| id < self.path_totals.len() implies self.processes[i].bytes(
            Some(id),
        ) <= (#[trigger] self.path_totals[id as int]) by {
            lemma_live_bytes_bounds(self.processes, paths, Some(id));
        }
        assert forall|address: usize| #[trigger]
            state.allocations.contains_key(address) implies {
            let held = state.allocations[address];
            &&& held.path() < self.path_totals.len()
            &&& 0 <= held.spec_size() <= self.path_totals[held.path() as int]
            &&& held.spec_size() <= alloc_bytes(state.allocations, None)
        } by {
            let held = state.allocations[address];
            let id = held.path();
            crate::allocation::lemma_counted_nonnegative(held, Some(id));
            crate::allocation::lemma_alloc_bytes_bounds(state.allocations, Some(id));
            crate::rangemap::lemma_mapped_bytes_bounds(state.mmaps, Some(id));
            assert(state.bytes(Some(id)) <= self.path_totals[id as int]);
        }
    }

    /// What a process holds at an address is part of the live bytes.
    pub proof fn lemma_held_within_current(self, process: ProcessUid, address: usize)
        requires
            self.wf(),
        ensures
            0 <= self.held_at(process, address) <= self.current_bytes,
    {
        lemma_position(self.processes, process);
        match position(self.processes, process) {
            Some(i) => {
                self.lemma_state_within_totals(i);
                if self.processes[i].allocations.contains_key(address) {
                    let held = self.processes[i].allocations[address];
                    assert(held.spec_size() <= alloc_bytes(self.processes[i].allocations, None));
                }
            },
            None => {},
        }
    }

    /// Recording an allocation keeps what always holds.
    pub proof fn lemma_add_allocation(
        self,
        process: ProcessUid,
        address: usize,
        size: usize,
        id: CallstackId,
    )
        requires
            self.wf(),
            id < self.path_totals.len(),
            self.current_bytes - self.held_at(process, address)
                + crate::allocation::compressed_bytes(size as int) <= usize::MAX,
            self.missing_bytes + self.held_at(process, address) <= usize::MAX,
        ensures
            self.add_allocation(process, address, size, id).wf(),
            self.consistent() ==> self.add_allocation(process, address, size, id).consistent(),
            self.add_allocation(process, address, size, id).current_bytes == self.current_bytes
                - self.held_at(process, address) + crate::allocation::compressed_bytes(size as int),
            self.add_allocation(process, address, size, id).allocations(process)
                == self.allocations(process).insert(address, Allocation::spec_new(id, size)),
            self.add_allocation(process, address, size, id).path_totals.len()
                == self.path_totals.len(),
            sum(self.add_allocation(process, address, size, id).path_totals)
                == self.add_allocation(process, address, size, id).current_bytes,
    {
        self.lemma_with_process(process);
        let placed = self.with_process(process);
        let i = self.slot(process);
        let state = placed.processes[i];
        let alloc = Allocation::spec_new(id, size);
        crate::allocation::lemma_spec_new(id, size);
        let new_state = ProcessState {
            allocations: state.allocations.insert(address, alloc),
            ..state
        };
        let after = self.add_allocation(process, address, size, id);
        let paths = self.path_totals.len();
        placed.lemma_state_within_totals(i);
        assert(state.wf(paths));
        assert(new_state.wf(paths)) by {
            assert forall|a: usize| #[trigger]
                new_state.allocations.contains_key(a) implies new_state.allocations[a].path()
                < paths by {
                if a != address {
                    assert(state.allocations.contains_key(a));
                }
            }
        }
        crate::allocation::lemma_counted_nonnegative(alloc, None);
        crate::allocation::lemma_alloc_bytes_insert(state.allocations, address, alloc, None);
        if state.allocations.contains_key(address) {
            let previous = state.allocations[address];
            let stored = TrackerView {
                missing_bytes: self.missing_bytes + previous.spec_size(),
                ..placed.with_state(i, new_state)
            };
            crate::allocation::lemma_alloc_bytes_remove(state.allocations, address, None);
            stored.lemma_debit(previous.path(), previous.spec_size());
            let debited = stored.debit(previous.path(), previous.spec_size());
            debited.lemma_credit(id, alloc.spec_size());
            assert forall|p: CallstackId| p < paths implies (#[trigger] after.path_totals[p as int])
                - placed.path_totals[p as int] == new_state.bytes(Some(p)) - state.bytes(
                Some(p),
            ) by {
                crate::allocation::lemma_alloc_bytes_insert(
                    state.allocations,
                    address,
                    alloc,
                    Some(p),
                );
                crate::allocation::lemma_alloc_bytes_remove(state.allocations, address, Some(p));
            }
        } else {
            let stored = placed.with_state(i, new_state);
            stored.lemma_credit(id, alloc.spec_size());
            assert forall|p: CallstackId| p < paths implies (#[trigger] after.path_totals[p as int])
                - placed.path_totals[p as int] == new_state.bytes(Some(p)) - state.bytes(
                Some(p),
            ) by {
                crate::allocation::lemma_alloc_bytes_insert(
                    state.allocations,
                    address,
                    alloc,
                    Some(p),
                );
            }
        }
        lemma_step(placed, after, i, new_state);
        lemma_position_found(after.processes, process, i);
    }
}

impl TrackerView {
    /// Freeing keeps what always holds, and the peak is no less than the
    /// live bytes were before.
    pub proof fn lemma_free_allocation(self, process: ProcessUid, address: usize)
        requires
            self.wf(),
            self.debug_mode && !self.allocations(process).contains_key(address)
                ==> self.failed_frees < usize::MAX,
        ensures
            self.free_allocation(process, address).wf(),
            self.consistent() ==> self.free_allocation(process, address).consistent(),
            self.free_allocation(process, address).current_bytes == self.current_bytes
                - self.held_at(process, address),
            self.free_allocation(process, address).allocations(process) == self.allocations(
                process,
            ).remove(address),
            self.free_allocation(process, address).peak_bytes >= self.current_bytes,
    {
        self.lemma_observe_peak();
        let seen = self.observe_peak();
        seen.lemma_with_process(process);
        self.lemma_with_process(process);
        let placed = seen.with_process(process);
        let i = self.slot(process);
        let state = placed.processes[i];
        let after = self.free_allocation(process, address);
        let paths = self.path_totals.len();
        if state.allocations.contains_key(address) {
            let removed = state.allocations[address];
            let new_state = ProcessState {
                allocations: state.allocations.remove(address),
                ..state
            };
            placed.lemma_state_within_totals(i);
            assert(state.wf(paths));
            assert(new_state.wf(paths)) by {
                assert forall|a: usize| #[trigger]
                    new_state.allocations.contains_key(a) implies new_state.allocations[a].path()
                    < paths by {
                    assert(state.allocations.contains_key(a));
                }
            }
            let stored = placed.with_state(i, new_state);
            stored.lemma_debit(removed.path(), removed.spec_size());
            crate::allocation::lemma_alloc_bytes_remove(state.allocations, address, None);
            assert forall|p: CallstackId| p < paths implies (#[trigger] after.path_totals[p as int])
                - placed.path_totals[p as int] == new_state.bytes(Some(p)) - state.bytes(
                Some(p),
            ) by {
                crate::allocation::lemma_alloc_bytes_remove(state.allocations, address, Some(p));
            }
            lemma_step(placed, after, i, new_state);
            lemma_position_found(after.processes, process, i);
        } else {
            assert(state.allocations.remove(address) =~= state.allocations);
        }
    }

    /// Recording a mapping keeps what always holds.
    pub proof fn lemma_add_anon_mmap(
        self,
        process: ProcessUid,
        address: usize,
        size: usize,
        id: CallstackId,
    )
        requires
            self.wf(),
            id < self.path_totals.len(),
            address + size <= usize::MAX,
            self.current_bytes + size <= usize::MAX,
        ensures
            self.add_anon_mmap(process, address, size, id).wf(),
            self.consistent() ==> self.add_anon_mmap(process, address, size, id).consistent(),
            self.add_anon_mmap(process, address, size, id).current_bytes == self.current_bytes
                + size,
    {
        self.lemma_with_process(process);
        let placed = self.with_process(process);
        let i = self.slot(process);
        let state = placed.processes[i];
        let after = self.add_anon_mmap(process, address, size, id);
        let paths = self.path_totals.len();
        let entry = (Range { start: address, end: (address + size) as usize }, id);
        let mmaps = if size > 0 {
            state.mmaps.push(entry)
        } else {
            state.mmaps
        };
        let new_state = ProcessState { mmaps, ..state };
        assert(state.wf(paths));
        assert(new_state.wf(paths)) by {
            assert forall|k: int| 0 <= k < mmaps.len() implies (#[trigger] mmaps[k]).1 < paths && (
            #[trigger] mmaps[k]).0.wf() by {
                if k < state.mmaps.len() {
                    assert(mmaps[k] == state.mmaps[k]);
                }
            }
        }
        let stored = placed.with_state(i, new_state);
        stored.lemma_credit(id, size as int);
        assert forall|p: Option<CallstackId>|
            mapped_bytes(mmaps, p) - mapped_bytes(state.mmaps, p) == (match p {
                Some(v) => if v == id { size as int } else { 0 },
                None => size as int,
            }) by {
            if size > 0 {
                assert(mmaps.drop_last() =~= state.mmaps);
                assert(mmaps.last() == entry);
            }
        }
        assert forall|p: CallstackId| p < paths implies (#[trigger] after.path_totals[p as int])
            - placed.path_totals[p as int] == new_state.bytes(Some(p)) - state.bytes(Some(p)) by {
            assert(mapped_bytes(mmaps, Some(p)) - mapped_bytes(state.mmaps, Some(p)) == (if p
                == id {
                size as int
            } else {
                0
            }));
        }
        assert(mapped_bytes(mmaps, None) - mapped_bytes(state.mmaps, None) == size);
        lemma_step(placed, after, i, new_state);
    }

    /// Unmapping keeps what always holds, and takes from the live bytes
    /// the number of addresses that the process's mappings lose.
    pub proof fn lemma_free_anon_mmap(self, process: ProcessUid, address: usize, size: usize)
        requires
            self.wf(),
            address + size <= usize::MAX,
        ensures
            self.free_anon_mmap(process, address, size).wf(),
            self.consistent() ==> self.free_anon_mmap(process, address, size).consistent(),
            self.free_anon_mmap(process, address, size).peak_bytes >= self.current_bytes,
            self.free_anon_mmap(process, address, size).current_bytes
                + mapped_bytes(self.mappings(process), None) == self.current_bytes + mapped_bytes(
                self.free_anon_mmap(process, address, size).mappings(process),
                None,
            ),
    {
        self.lemma_observe_peak();
        let seen = self.observe_peak();
        seen.lemma_with_process(process);
        self.lemma_with_process(process);
        let placed = seen.with_process(process);
        let i = self.slot(process);
        let state = placed.processes[i];
        let after = self.free_anon_mmap(process, address, size);
        let paths = self.path_totals.len();
        let cut = Range { start: address, end: (address + size) as usize };
        let gone = released(state.mmaps, cut);
        let new_state = ProcessState { mmaps: remaining_after(state.mmaps, cut), ..state };
        assert(state.wf(paths));
        placed.lemma_state_within_totals(i);
        crate::rangemap::lemma_remaining_wf(state.mmaps, cut);
        crate::rangemap::lemma_release_keeps_values(
            state.mmaps,
            cut,
            |id: CallstackId| id < paths,
        );
        assert(new_state.wf(paths));
        crate::rangemap::lemma_release_conserves_bytes(state.mmaps, cut, None);
        assert forall|p: CallstackId| p < paths implies (#[trigger] after.path_totals[p as int])
            == placed.path_totals[p as int] - released_bytes(gone, Some(p)) by {
            crate::rangemap::lemma_release_conserves_bytes(state.mmaps, cut, Some(p));
            crate::allocation::lemma_alloc_bytes_bounds(state.allocations, Some(p));
            assert(state.bytes(Some(p)) <= placed.path_totals[p as int]);
        }
        assert forall|p: CallstackId| p < paths implies (#[trigger] after.path_totals[p as int])
            - placed.path_totals[p as int] == new_state.bytes(Some(p)) - state.bytes(Some(p)) by {
            crate::rangemap::lemma_release_conserves_bytes(state.mmaps, cut, Some(p));
            assert(after.path_totals[p as int] == placed.path_totals[p as int] - released_bytes(
                gone,
                Some(p),
            ));
        }
        lemma_sum_of_differences(
            placed.path_totals,
            after.path_totals,
            |id: CallstackId| released_bytes(gone, Some(id)),
            paths as int,
        );
        assert(after.path_totals.take(paths as int) =~= after.path_totals);
        assert(placed.path_totals.take(paths as int) =~= placed.path_totals);
        lemma_released_bytes_by_path(gone, paths);
        crate::allocation::lemma_alloc_bytes_bounds(state.allocations, None);
        lemma_step(placed, after, i, new_state);
        lemma_position_found(after.processes, process, i);
    }
}

/// Sum of `f` over the first `paths` call paths.
pub open spec fn total_below(f: spec_fn(CallstackId) -> int, paths: int) -> int
    decreases paths,
{
    if paths <= 0 {
        0
    } else {
        total_below(f, paths - 1) + f((paths - 1) as CallstackId)
    }
}

/// Taking `f` of its path from each total takes from the sum the sum of `f`.
pub proof fn lemma_sum_of_differences(
    before: Seq<usize>,
    after: Seq<usize>,
    f: spec_fn(CallstackId) -> int,
    n: int,
)
    requires
        0 <= n <= before.len(),
        before.len() == after.len(),
        before.len() <= u32::MAX,
        forall|id: CallstackId|
            id < before.len() ==> (#[trigger] after[id as int]) == before[id as int] - f(id),
    ensures
        sum(after.take(n)) == sum(before.take(n)) - total_below(f, n),
    decreases n,
{
    if n > 0 {
        lemma_sum_of_differences(before, after, f, n - 1);
        assert(after.take(n).drop_last() =~= after.take(n - 1));
        assert(before.take(n).drop_last() =~= before.take(n - 1));
        let id = (n - 1) as CallstackId;
        assert(after[id as int] == before[id as int] - f(id));
    }
}

/// The sum of a sum is the sum of the sums.
pub proof fn lemma_total_below_add(
    f: spec_fn(CallstackId) -> int,
    g: spec_fn(CallstackId) -> int,
    h: spec_fn(CallstackId) -> int,
    paths: int,
)
    requires
        forall|id: CallstackId| #[trigger] h(id) == f(id) + g(id),
        paths <= u32::MAX + 1,
    ensures
        total_below(h, paths) == total_below(f, paths) + total_below(g, paths),
    decreases paths,
{
    if paths > 0 {
        lemma_total_below_add(f, g, h, paths - 1);
    }
}

/// What is attributed to one path adds up to itself where that path is
/// among those summed over, and nothing adds up to nothing.
pub proof fn lemma_total_below_one(
    f: spec_fn(CallstackId) -> int,
    path: Option<CallstackId>,
    bytes: int,
    paths: int,
)
    requires
        forall|id: CallstackId| #[trigger] f(id) == (if path == Some(id) { bytes } else { 0 }),
        paths <= u32::MAX + 1,
    ensures
        total_below(f, paths) == (if path.is_some() && path.unwrap() < paths { bytes } else { 0 }),
    decreases paths,
{
    if paths > 0 {
        lemma_total_below_one(f, path, bytes, paths - 1);
    }
}

/// Released pieces that are all attributed to the first `paths` call paths
/// add up, path by path, to all that was released.
pub proof fn lemma_released_bytes_by_path(gone: Seq<(CallstackId, usize)>, paths: nat)
    requires
        forall|i: int| 0 <= i < gone.len() ==> (#[trigger] gone[i]).0 < paths,
        paths <= u32::MAX,
    ensures
        total_below(|id: CallstackId| released_bytes(gone, Some(id)), paths as int)
            == released_bytes(gone, None),
    decreases gone.len(),
{
    let whole = |id: CallstackId| released_bytes(gone, Some(id));
    if gone.len() == 0 {
        lemma_total_below_one(whole, None, 0, paths as int);
    } else {
        let front = gone.drop_last();
        let piece = gone.last();
        assert forall|i: int| 0 <= i < front.len() implies (#[trigger] front[i]).0 < paths by {
            assert(front[i] == gone[i]);
        }
        lemma_released_bytes_by_path(front, paths);
        assert(gone[gone.len() - 1].0 < paths);
        let rest = |id: CallstackId| released_bytes(front, Some(id));
        let one = |id: CallstackId| if piece.0 == id { piece.1 as int } else { 0int };
        lemma_total_below_one(one, Some(piece.0), piece.1 as int, paths as int);
        lemma_total_below_add(rest, one, whole, paths as int);
    }
}

/// Mappings that are all attributed to the first `paths` call paths add up,
/// path by path, to all their addresses.
pub proof fn lemma_mapped_bytes_by_path(mmaps: Seq<Entry<CallstackId>>, paths: nat)
    requires
        forall|i: int| 0 <= i < mmaps.len() ==> (#[trigger] mmaps[i]).1 < paths,
        paths <= u32::MAX,
    ensures
        total_below(|id: CallstackId| mapped_bytes(mmaps, Some(id)), paths as int) == mapped_bytes(
            mmaps,
            None,
        ),
    decreases mmaps.len(),
{
    let whole = |id: CallstackId| mapped_bytes(mmaps, Some(id));
    if mmaps.len() == 0 {
        lemma_total_below_one(whole, None, 0, paths as int);
    } else {
        let front = mmaps.drop_last();
        let entry = mmaps.last();
        assert forall|i: int| 0 <= i < front.len() implies (#[trigger] front[i]).1 < paths by {
            assert(front[i] == mmaps[i]);
        }
        lemma_mapped_bytes_by_path(front, paths);
        assert(mmaps[mmaps.len() - 1].1 < paths);
        let rest = |id: CallstackId| mapped_bytes(front, Some(id));
        let one = |id: CallstackId| if entry.1 == id { entry.0.spec_size() } else { 0int };
        lemma_total_below_one(one, Some(entry.1), entry.0.spec_size(), paths as int);
        lemma_total_below_add(rest, one, whole, paths as int);
    }
}

/// Allocations that are all attributed to the first `paths` call paths add
/// up, path by path, to all their bytes.
pub proof fn lemma_alloc_bytes_by_path(m: Map<usize, Allocation>, paths: nat)
    requires
        m.dom().finite(),
        forall|address: usize| #[trigger] m.contains_key(address) ==> m[address].path() < paths,
        paths <= u32::MAX,
    ensures
        total_below(|id: CallstackId| alloc_bytes(m, Some(id)), paths as int) == alloc_bytes(
            m,
            None,
        ),
    decreases m.dom().len(),
{
    let whole = |id: CallstackId| alloc_bytes(m, Some(id));
    if m.dom().len() == 0 {
        lemma_total_below_one(whole, None, 0, paths as int);
    } else {
        let address = m.dom().choose();
        let held = m[address];
        let less = m.remove(address);
        assert forall|a: usize| #[trigger] less.contains_key(a) implies less[a].path() < paths by {
            assert(m.contains_key(a));
        }
        lemma_alloc_bytes_by_path(less, paths);
        assert(m.contains_key(address));
        let rest = |id: CallstackId| alloc_bytes(less, Some(id));
        let one = |id: CallstackId| if held.path() == id { held.spec_size() } else { 0int };
        lemma_total_below_one(one, Some(held.path()), held.spec_size(), paths as int);
        lemma_total_below_add(rest, one, whole, paths as int);
    }
}

impl TrackerView {
    /// Forgetting a process keeps what always holds, and takes from the
    /// live bytes exactly the bytes of its records.
    pub proof fn lemma_drop_process(self, process: ProcessUid)
        requires
            self.wf(),
        ensures
            self.drop_process(process).wf(),
            self.consistent() ==> self.drop_process(process).consistent(),
            self.drop_process(process).allocations(process) == Map::<usize, Allocation>::empty(),
            self.drop_process(process).mappings(process) == Seq::<Entry<CallstackId>>::empty(),
            position(self.drop_process(process).processes, process).is_none(),
            self.drop_process(process).current_bytes == self.current_bytes - alloc_bytes(
                self.allocations(process),
                None,
            ) - mapped_bytes(self.mappings(process), None),
            self.drop_process(process).peak_bytes >= self.current_bytes,
    {
        self.lemma_observe_peak();
        lemma_position(self.processes, process);
        let after = self.drop_process(process);
        let paths = self.path_totals.len();
        match position(self.processes, process) {
            Some(i) => {
                let state = self.processes[i];
                let rest = self.processes.remove(i);
                self.lemma_state_within_totals(i);
                assert(state.wf(paths));
                assert forall|j: int| 0 <= j < rest.len() implies (#[trigger] rest[j]).wf(paths)
                    && rest[j].process != process by {
                    if j < i {
                        assert(rest[j] == self.processes[j]);
                    } else {
                        assert(rest[j] == self.processes[j + 1]);
                    }
                }
                assert(distinct(rest)) by {
                    assert forall|a: int, b: int| 0 <= a < b < rest.len() implies (
                    #[trigger] rest[a]).process != (#[trigger] rest[b]).process by {
                        let a0 = if a < i { a } else { a + 1 };
                        let b0 = if b < i { b } else { b + 1 };
                        assert(rest[a] == self.processes[a0]);
                        assert(rest[b] == self.processes[b0]);
                    }
                }
                lemma_position(rest, process);
                let f = |id: CallstackId| state.bytes(Some(id));
                assert forall|id: CallstackId| id < paths implies (
                #[trigger] after.path_totals[id as int]) == self.path_totals[id as int] - f(
                    id,
                ) by {
                    lemma_live_bytes_bounds(self.processes, paths, Some(id));
                }
                lemma_sum_of_differences(self.path_totals, after.path_totals, f, paths as int);
                assert(after.path_totals.take(paths as int) =~= after.path_totals);
                assert(self.path_totals.take(paths as int) =~= self.path_totals);
                lemma_alloc_bytes_by_path(state.allocations, paths);
                lemma_mapped_bytes_by_path(state.mmaps, paths);
                lemma_total_below_add(
                    |id: CallstackId| alloc_bytes(state.allocations, Some(id)),
                    |id: CallstackId| mapped_bytes(state.mmaps, Some(id)),
                    f,
                    paths as int,
                );
                lemma_live_bytes_remove(self.processes, i, None);
                lemma_live_bytes_bounds(self.processes, paths, None);
                assert forall|id: CallstackId| id < after.path_totals.len() implies live_bytes(
                    after.processes,
                    Some(id),
                ) - live_bytes(self.processes, Some(id)) == (
                #[trigger] after.path_totals[id as int]) - self.path_totals[id as int] by {
                    lemma_live_bytes_remove(self.processes, i, Some(id));
                }
            },
            None => {},
        }
    }

    /// Starting over keeps what always holds, and leaves no live byte and
    /// no peak.
    pub proof fn lemma_reset(self, default_path: Seq<char>)
        requires
            self.wf(),
        ensures
            self.reset(default_path).wf(),
            self.reset(default_path).consistent(),
            self.reset(default_path).current_bytes == 0,
            self.reset(default_path).peak_bytes == 0,
            self.reset(default_path).peak_path_totals.len() == 0,
    {
        let after = self.reset(default_path);
        let parent = ProcessState::empty(ProcessUid(PARENT_PROCESS_NUMBER));
        lemma_sum_of_zeros(self.path_totals.len());
        assert(after.processes.drop_last() =~= Seq::<ProcessState>::empty());
        assert(live_bytes(Seq::<ProcessState>::empty(), None) == 0);
        assert forall|id: CallstackId| id < after.path_totals.len() implies live_bytes(
            after.processes,
            Some(id),
        ) == 0 by {
            assert(live_bytes(Seq::<ProcessState>::empty(), Some(id)) == 0);
        }
    }

    /// Letting go of the allocations keeps what always holds.
    pub proof fn lemma_oom_break_glass(self)
        requires
            self.wf(),
        ensures
            self.oom_break_glass().wf(),
            self.oom_break_glass().current_bytes == self.current_bytes,
            self.oom_break_glass().path_totals == self.path_totals,
    {
        let after = self.oom_break_glass();
        let paths = self.path_totals.len();
        assert forall|i: int| 0 <= i < after.processes.len() implies (
        #[trigger] after.processes[i]).wf(paths) by {
            assert(self.processes[i].wf(paths));
        }
        assert forall|path: Option<CallstackId>|
            live_bytes(after.processes, path) <= live_bytes(self.processes, path) by {
            lemma_fewer_records(self.processes, after.processes, paths, path);
        }
        assert forall|id: CallstackId| id < after.path_totals.len() implies live_bytes(
            after.processes,
            Some(id),
        ) <= (#[trigger] after.path_totals[id as int]) by {
            assert(live_bytes(after.processes, Some(id)) <= live_bytes(self.processes, Some(id)));
        }
        assert(live_bytes(after.processes, None) <= live_bytes(self.processes, None));
    }

    /// Interning keeps what always holds.
    pub proof fn lemma_intern(self, calls: Seq<CallSiteId>)
        requires
            self.wf(),
            self.interned.contains(calls) || self.interned.len() < u32::MAX,
        ensures
            self.intern(calls).wf(),
            self.consistent() ==> self.intern(calls).consistent(),
            0 <= self.id_of(calls) < self.intern(calls).interned.len(),
            self.intern(calls).interned[self.id_of(calls)] == calls,
            self.intern(calls).current_bytes == self.current_bytes,
            self.intern(calls).processes == self.processes,
            self.intern(calls).peak_path_totals == self.peak_path_totals,
            self.intern(calls).peak_bytes == self.peak_bytes,
            self.interned.contains(calls) ==> self.intern(calls).path_totals == self.path_totals,
            !self.interned.contains(calls) ==> self.id_of(calls) == self.path_totals.len()
                && self.intern(calls).path_totals == self.path_totals.push(0),
            0 <= self.id_of(calls) < self.intern(calls).path_totals.len(),
    {
        let after = self.intern(calls);
        if !self.interned.contains(calls) {
            let paths = self.path_totals.len();
            crate::usage::lemma_sum_push(self.path_totals, 0);
            assert forall|i: int| 0 <= i < after.processes.len() implies (
            #[trigger] after.processes[i]).wf(after.path_totals.len()) by {
                assert(self.processes[i].wf(paths));
            }
            assert forall|id: CallstackId| id < after.path_totals.len() implies live_bytes(
                after.processes,
                Some(id),
            ) == (if id < paths {
                live_bytes(self.processes, Some(id))
            } else {
                0
            }) by {
                if id >= paths {
                    lemma_no_bytes_beyond_paths(self.processes, paths, id);
                }
            }
            assert forall|id: CallstackId| id < after.path_totals.len() implies live_bytes(
                after.processes,
                Some(id),
            ) <= (#[trigger] after.path_totals[id as int]) by {
                if id < paths {
                    assert(after.path_totals[id as int] == self.path_totals[id as int]);
                }
            }
            assert(after.interned.no_duplicates()) by {
                assert forall|a: int, b: int|
                    0 <= a < after.interned.len() && 0 <= b < after.interned.len() && a
                        != b implies after.interned[a] != after.interned[b] by {
                    if a < paths && b < paths {
                        assert(self.interned[a] != self.interned[b]);
                    } else if a < paths {
                        assert(self.interned[a] != calls);
                    } else {
                        assert(self.interned[b] != calls);
                    }
                }
            }
            if self.consistent() {
                assert forall|id: CallstackId| id < after.path_totals.len() implies live_bytes(
                    after.processes,
                    Some(id),
                ) == (#[trigger] after.path_totals[id as int]) by {
                    if id < paths {
                        assert(after.path_totals[id as int] == self.path_totals[id as int]);
                    }
                }
            }
        }
    }
}

/// Zeros add up to zero.
pub proof fn lemma_sum_of_zeros(n: nat)
    ensures
        sum(Seq::new(n, |i: int| 0usize)) == 0,
    decreases n,
{
    if n > 0 {
        lemma_sum_of_zeros((n - 1) as nat);
        assert(Seq::new(n, |i: int| 0usize).drop_last() =~= Seq::new(
            (n - 1) as nat,
            |i: int| 0usize,
        ));
    }
}

/// No record is attributed to a call path that has no total.
pub proof fn lemma_no_bytes_beyond_paths(states: Seq<ProcessState>, paths: nat, id: CallstackId)
    requires
        forall|i: int| 0 <= i < states.len() ==> (#[trigger] states[i]).wf(paths),
        id >= paths,
    ensures
        live_bytes(states, Some(id)) == 0,
    decreases states.len(),
{
    if states.len() > 0 {
        let front = states.drop_last();
        assert forall|i: int| 0 <= i < front.len() implies (#[trigger] front[i]).wf(paths) by {
            assert(front[i] == states[i]);
        }
        lemma_no_bytes_beyond_paths(front, paths, id);
        let last = states.last();
        assert(states[states.len() - 1].wf(paths));
        lemma_no_alloc_bytes_of(last.allocations, paths, id);
        lemma_no_mapped_bytes_of(last.mmaps, paths, id);
    }
}

/// Allocations attributed to earlier call paths hold no byte of `id`.
pub proof fn lemma_no_alloc_bytes_of(m: Map<usize, Allocation>, paths: nat, id: CallstackId)
    requires
        m.dom().finite(),
        forall|address: usize| #[trigger] m.contains_key(address) ==> m[address].path() < paths,
        id >= paths,
    ensures
        alloc_bytes(m, Some(id)) == 0,
    decreases m.dom().len(),
{
    if m.dom().len() > 0 {
        let address = m.dom().choose();
        let less = m.remove(address);
        assert(m.contains_key(address));
        assert forall|a: usize| #[trigger] less.contains_key(a) implies less[a].path() < paths by {
            assert(m.contains_key(a));
        }
        lemma_no_alloc_bytes_of(less, paths, id);
    }
}

/// Mappings attributed to earlier call paths hold no address of `id`.
pub proof fn lemma_no_mapped_bytes_of(mmaps: Seq<Entry<CallstackId>>, paths: nat, id: CallstackId)
    requires
        forall|i: int| 0 <= i < mmaps.len() ==> (#[trigger] mmaps[i]).1 < paths,
        id >= paths,
    ensures
        mapped_bytes(mmaps, Some(id)) == 0,
    decreases mmaps.len(),
{
    if mmaps.len() > 0 {
        let front = mmaps.drop_last();
        assert forall|i: int| 0 <= i < front.len() implies (#[trigger] front[i]).1 < paths by {
            assert(front[i] == mmaps[i]);
        }
        lemma_no_mapped_bytes_of(front, paths, id);
        assert(mmaps[mmaps.len() - 1].1 < paths);
    }
}

/// Processes that keep their mappings and lose allocations hold no more
/// bytes than before.
pub proof fn lemma_fewer_records(
    before: Seq<ProcessState>,
    after: Seq<ProcessState>,
    paths: nat,
    path: Option<CallstackId>,
)
    requires
        before.len() == after.len(),
        forall|i: int| 0 <= i < before.len() ==> (#[trigger] before[i]).wf(paths),
        forall|i: int|
            0 <= i < after.len() ==> (#[trigger] after[i]).mmaps == before[i].mmaps
                && after[i].allocations == Map::<usize, Allocation>::empty(),
    ensures
        live_bytes(after, path) <= live_bytes(before, path),
    decreases before.len(),
{
    if before.len() > 0 {
        let b = before.drop_last();
        let a = after.drop_last();
        assert forall|i: int| 0 <= i < b.len() implies (#[trigger] b[i]).wf(paths) by {
            assert(b[i] == before[i]);
        }
        assert forall|i: int| 0 <= i < a.len() implies (#[trigger] a[i]).mmaps == b[i].mmaps
            && a[i].allocations == Map::<usize, Allocation>::empty() by {
            assert(a[i] == after[i]);
            assert(b[i] == before[i]);
        }
        lemma_fewer_records(b, a, paths, path);
        assert(before[before.len() - 1].wf(paths));
        assert(after[after.len() - 1].mmaps == before[before.len() - 1].mmaps);
        crate::allocation::lemma_alloc_bytes_bounds(before.last().allocations, path);
    }
}

} // verus!
