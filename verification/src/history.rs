//! What holds of a tracker after any run of operations.

use crate::accounting::{higher, peak_after, TrackerView};
use crate::allocation::{compressed_bytes, CallstackId, ProcessUid};
use crate::callsite::CallSiteId;
use vstd::prelude::*;

verus! {

/// One operation on a tracker.
pub enum Operation {
    /// A call path is given an id.
    Intern(Seq<CallSiteId>),
    /// An allocation is recorded.
    AddAllocation { process: ProcessUid, address: usize, size: usize, id: CallstackId },
    /// An allocation is freed.
    FreeAllocation { process: ProcessUid, address: usize },
    /// A mapping is recorded.
    AddAnonMmap { process: ProcessUid, address: usize, size: usize, id: CallstackId },
    /// A range of addresses is unmapped.
    FreeAnonMmap { process: ProcessUid, address: usize, size: usize },
    /// A process is forgotten.
    DropProcess(ProcessUid),
    /// The peak is looked at.
    ObservePeak,
    /// The tracker starts over.
    Reset(Seq<char>),
    /// The tracker lets go of what a last profile does not need.
    BreakGlass,
}

impl Operation {
    /// Whether the operation begins with a look at the peak.
    pub open spec fn observes(self) -> bool {
        match self {
            Operation::FreeAllocation { .. } => true,
            Operation::FreeAnonMmap { .. } => true,
            Operation::DropProcess(_) => true,
            Operation::ObservePeak => true,
            _ => false,
        }
    }
}

impl TrackerView {
    /// Whether the tracker can carry out the operation: the call path that
    /// a record is attributed to has an id, and no count leaves its range.
    pub open spec fn allows(self, op: Operation) -> bool {
        match op {
            Operation::Intern(calls) => self.interned.contains(calls) || self.interned.len()
                < u32::MAX,
            Operation::AddAllocation { process, address, size, id } => {
                &&& id < self.path_totals.len()
                &&& self.current_bytes - self.held_at(process, address) + compressed_bytes(
                    size as int,
                ) <= usize::MAX
                &&& self.missing_bytes + self.held_at(process, address) <= usize::MAX
            },
            Operation::FreeAllocation { process, address } => self.debug_mode
                && !self.allocations(process).contains_key(address) ==> self.failed_frees
                < usize::MAX,
            Operation::AddAnonMmap { process, address, size, id } => {
                &&& id < self.path_totals.len()
                &&& address + size <= usize::MAX
                &&& self.current_bytes + size <= usize::MAX
            },
            Operation::FreeAnonMmap { process, address, size } => address + size <= usize::MAX,
            Operation::DropProcess(_) => true,
            Operation::ObservePeak => true,
            Operation::Reset(_) => true,
            Operation::BreakGlass => true,
        }
    }

    /// The tracker after the operation.
    pub open spec fn apply(self, op: Operation) -> TrackerView {
        match op {
            Operation::Intern(calls) => self.intern(calls),
            Operation::AddAllocation { process, address, size, id } => self.add_allocation(
                process,
                address,
                size,
                id,
            ),
            Operation::FreeAllocation { process, address } => self.free_allocation(
                process,
                address,
            ),
            Operation::AddAnonMmap { process, address, size, id } => self.add_anon_mmap(
                process,
                address,
                size,
                id,
            ),
            Operation::FreeAnonMmap { process, address, size } => self.free_anon_mmap(
                process,
                address,
                size,
            ),
            Operation::DropProcess(process) => self.drop_process(process),
            Operation::ObservePeak => self.observe_peak(),
            Operation::Reset(default_path) => self.reset(default_path),
            Operation::BreakGlass => self.oom_break_glass(),
        }
    }

    /// The tracker after the operations, carried out in their order.
    pub open spec fn run(self, ops: Seq<Operation>) -> TrackerView
        decreases ops.len(),
    {
        if ops.len() == 0 {
            self
        } else {
            self.run(ops.drop_last()).apply(ops.last())
        }
    }

    /// Whether the tracker can carry out the operations in their order.
    pub open spec fn allows_all(self, ops: Seq<Operation>) -> bool
        decreases ops.len(),
    {
        ops.len() > 0 ==> self.allows_all(ops.drop_last()) && self.run(ops.drop_last()).allows(
            ops.last(),
        )
    }

    /// The peak from which the looks at the live bytes count: that of the
    /// tracker, or none where the tracker started over.
    pub open spec fn peak_before(self, ops: Seq<Operation>) -> int
        decreases ops.len(),
    {
        if ops.len() == 0 {
            self.peak_bytes
        } else if ops.last() is Reset {
            0
        } else {
            self.peak_before(ops.drop_last())
        }
    }

    /// The live bytes as they were at each look at the peak during the
    /// operations, since the tracker last started over.
    pub open spec fn observed(self, ops: Seq<Operation>) -> Seq<int>
        decreases ops.len(),
    {
        if ops.len() == 0 || ops.last() is Reset {
            Seq::<int>::empty()
        } else if ops.last().observes() {
            self.observed(ops.drop_last()).push(self.run(ops.drop_last()).current_bytes)
        } else {
            self.observed(ops.drop_last())
        }
    }

    /// One operation keeps what always holds of a tracker: the totals of
    /// the call paths add up to the live bytes, and every record is
    /// attributed to a call path that has a total. Unless the tracker lets
    /// go of records, it also keeps the totals exactly the bytes of the
    /// records.
    pub proof fn lemma_apply(self, op: Operation)
        requires
            self.wf(),
            self.allows(op),
        ensures
            self.apply(op).wf(),
            self.consistent() && !(op is BreakGlass) ==> self.apply(op).consistent(),
            self.apply(op).peak_bytes == (if op.observes() {
                higher(self.peak_bytes, self.current_bytes)
            } else if op is Reset {
                0
            } else {
                self.peak_bytes
            }),
    {
        match op {
            Operation::Intern(calls) => {
                self.lemma_intern(calls);
            },
            Operation::AddAllocation { process, address, size, id } => {
                self.lemma_add_allocation(process, address, size, id);
            },
            Operation::FreeAllocation { process, address } => {
                self.lemma_free_allocation(process, address);
            },
            Operation::AddAnonMmap { process, address, size, id } => {
                self.lemma_add_anon_mmap(process, address, size, id);
            },
            Operation::FreeAnonMmap { process, address, size } => {
                self.lemma_free_anon_mmap(process, address, size);
            },
            Operation::DropProcess(process) => {
                self.lemma_drop_process(process);
            },
            Operation::ObservePeak => {
                self.lemma_observe_peak();
            },
            Operation::Reset(default_path) => {
                self.lemma_reset(default_path);
            },
            Operation::BreakGlass => {
                self.lemma_oom_break_glass();
            },
        }
    }

    /// After any run of operations the totals of the call paths add up to
    /// the live bytes, and every record is attributed to a call path that
    /// has a total.
    pub proof fn lemma_run_keeps_order(self, ops: Seq<Operation>)
        requires
            self.wf(),
            self.allows_all(ops),
        ensures
            self.run(ops).wf(),
        decreases ops.len(),
    {
        if ops.len() > 0 {
            self.lemma_run_keeps_order(ops.drop_last());
            self.run(ops.drop_last()).lemma_apply(ops.last());
        }
    }

    /// After any run of operations in which the tracker did not let go of
    /// records, the live bytes are exactly the bytes of the mappings and
    /// allocations that are on record, in all and for each call path.
    pub proof fn lemma_run_keeps_exact(self, ops: Seq<Operation>)
        requires
            self.wf(),
            self.consistent(),
            self.allows_all(ops),
            forall|i: int| 0 <= i < ops.len() ==> !((#[trigger] ops[i]) is BreakGlass),
        ensures
            self.run(ops).consistent(),
        decreases ops.len(),
    {
        if ops.len() > 0 {
            let front = ops.drop_last();
            assert forall|i: int| 0 <= i < front.len() implies !(
            (#[trigger] front[i]) is BreakGlass) by {
                assert(front[i] == ops[i]);
            }
            self.lemma_run_keeps_order(front);
            self.lemma_run_keeps_exact(front);
            assert(!(ops[ops.len() - 1] is BreakGlass));
            self.run(front).lemma_apply(ops.last());
        }
    }

    /// After any run of operations the peak is the highest that the live
    /// bytes were at any look at them since the tracker started over (or
    /// the peak from before, where none of them was higher).
    pub proof fn lemma_peak_is_highest_seen(self, ops: Seq<Operation>)
        requires
            self.wf(),
            self.allows_all(ops),
        ensures
            self.run(ops).peak_bytes == peak_after(self.peak_before(ops), self.observed(ops)),
        decreases ops.len(),
    {
        if ops.len() > 0 {
            let front = ops.drop_last();
            self.lemma_run_keeps_order(front);
            self.lemma_peak_is_highest_seen(front);
            self.run(front).lemma_apply(ops.last());
            if ops.last().observes() {
                let seen = self.observed(front);
                let current = self.run(front).current_bytes;
                assert(seen.push(current).drop_last() =~= seen);
            }
        }
    }
}

} // verus!
