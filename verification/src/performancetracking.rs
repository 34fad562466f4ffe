//! Performance profiling: what the threads of the program are doing, from
//! samples taken now and then.

use crate::callsite::{CallSiteId, FunctionLocations};
use crate::linecache::LineCacher;
use crate::memorytracking::{all_known, callstack_text, Callstack};
use crate::sorting::Sample;
use crate::text::{decimal, push_decimal};
use std::collections::HashSet;
use vstd::prelude::*;
use vstd::string::StringExecFns;

verus! {

/// Milliseconds between two rounds of samples. The number is prime, so
/// that the rounds do not keep step with anything periodic in the program.
pub const SAMPLE_INTERVAL_MILLIS: u64 = 47;

/// OS-specific system-wide thread identifier, for use with platform
/// per-thread status APIs.
#[derive(Clone, Copy, Debug, PartialEq, Eq, PartialOrd, Ord, Hash, Structural)]
pub struct GlobalThreadId(pub i32);

/// Implementation-specific details.
pub trait PerfImpl {
    /// Typically this will disable things like memory tracking.
    fn setup_running_thread(&self);

    /// Get the callstacks for all threads.
    fn get_callstacks(&self) -> Vec<(GlobalThreadId, Callstack)>;
}

/// `sysinfo::ProcessStatus`: what the system says a thread is doing.
/// Nothing is known of a value of it.
#[verifier::external_type_specification]
#[verifier::external_body]
pub struct ExProcessStatus(sysinfo::ProcessStatus);

/// What the system says a thread is doing.
#[derive(Clone, Copy, Debug, PartialEq, Eq, Structural)]
pub enum SystemStatus {
    Idle,
    Run,
    Sleep,
    Stop,
    Zombie,
    Tracing,
    Dead,
    Wakekill,
    Waking,
    Parked,
    Unknown(u32),
}

/// Which variant a `sysinfo::ProcessStatus` is, with its number where it
/// has one.
pub uninterp spec fn variant_of(status: sysinfo::ProcessStatus) -> SystemStatus;

/// The variant of a `sysinfo::ProcessStatus`, and its number where it has
/// one: each variant is told apart and written as the variant of the same
/// name. The variant is all that a status holds, so the same status gives
/// the same result.
#[verifier::external_body]
fn system_status(status: sysinfo::ProcessStatus) -> (variant: SystemStatus)
    ensures
        variant == variant_of(status),
{
    match status {
        sysinfo::ProcessStatus::Idle => SystemStatus::Idle,
        sysinfo::ProcessStatus::Run => SystemStatus::Run,
        sysinfo::ProcessStatus::Sleep => SystemStatus::Sleep,
        sysinfo::ProcessStatus::Stop => SystemStatus::Stop,
        sysinfo::ProcessStatus::Zombie => SystemStatus::Zombie,
        sysinfo::ProcessStatus::Tracing => SystemStatus::Tracing,
        sysinfo::ProcessStatus::Dead => SystemStatus::Dead,
        sysinfo::ProcessStatus::Wakekill => SystemStatus::Wakekill,
        sysinfo::ProcessStatus::Waking => SystemStatus::Waking,
        sysinfo::ProcessStatus::Parked => SystemStatus::Parked,
        sysinfo::ProcessStatus::Unknown(number) => SystemStatus::Unknown(number),
    }
}

/// What a thread is doing, as a profile tells it.
#[derive(Clone, Copy, Debug, PartialEq, Eq, Hash, Structural)]
pub enum ThreadStatus {
    Running,
    Waiting,
    Uninterruptible,
    Other,
}

impl ThreadStatus {
    /// What a profile makes of what the system says: a running thread runs,
    /// a sleeping one waits, one in disk sleep waits and cannot be
    /// interrupted; all else is other.
    pub open spec fn spec_from(status: SystemStatus) -> ThreadStatus {
        match status {
            SystemStatus::Run => ThreadStatus::Running,
            SystemStatus::Idle => ThreadStatus::Uninterruptible,
            SystemStatus::Sleep => ThreadStatus::Waiting,
            _ => ThreadStatus::Other,
        }
    }

    /// What a profile makes of what the system says.
    pub fn from(status: SystemStatus) -> (shown: ThreadStatus)
        ensures
            shown == ThreadStatus::spec_from(status),
    {
        match status {
            SystemStatus::Run => ThreadStatus::Running,
            SystemStatus::Idle => ThreadStatus::Uninterruptible,
            SystemStatus::Sleep => ThreadStatus::Waiting,
            _ => ThreadStatus::Other,
        }
    }

    /// What a profile makes of the status that `sysinfo` reports: what it
    /// makes of its variant.
    pub fn from_system(status: sysinfo::ProcessStatus) -> (shown: ThreadStatus)
        ensures
            shown == ThreadStatus::spec_from(variant_of(status)),
    {
        ThreadStatus::from(system_status(status))
    }

    /// The status as a frame of a call path.
    pub open spec fn text(self) -> Seq<char> {
        match self {
            ThreadStatus::Running => "\u{2BC8} Running"@,
            ThreadStatus::Waiting => "\u{29D7} Waiting"@,
            ThreadStatus::Uninterruptible => "\u{29D7} Uninterruptible wait"@,
            ThreadStatus::Other => "? Other"@,
        }
    }

    /// The status as a frame of a call path.
    pub fn to_string(&self) -> (text: String)
        ensures
            text@ == self.text(),
    {
        match self {
            ThreadStatus::Running => "\u{2BC8} Running".to_owned(),
            ThreadStatus::Waiting => "\u{29D7} Waiting".to_owned(),
            ThreadStatus::Uninterruptible => "\u{29D7} Uninterruptible wait".to_owned(),
            ThreadStatus::Other => "? Other".to_owned(),
        }
    }
}

/// What is counted: a call path and what the thread on it was doing.
pub type SampleKey = (Seq<CallSiteId>, ThreadStatus);

/// Where `key` stands among the counted, if it does.
pub open spec fn key_position(counted: Seq<Sample<SampleKey>>, key: SampleKey) -> Option<int>
    decreases counted.len(),
{
    if counted.len() == 0 {
        None
    } else if counted.last().0 == key {
        Some(counted.len() - 1)
    } else {
        key_position(counted.drop_last(), key)
    }
}

/// One more than `count`, as far as counts go.
pub open spec fn bumped(count: usize) -> usize {
    if count < usize::MAX {
        (count + 1) as usize
    } else {
        count
    }
}

/// The counts with one more sample of `key`: a key seen before has its
/// count raised, a new one comes last with a count of one.
pub open spec fn with_sample(counted: Seq<Sample<SampleKey>>, key: SampleKey) -> Seq<
    Sample<SampleKey>,
> {
    match key_position(counted, key) {
        Some(i) => counted.update(i, (key, bumped(counted[i].1))),
        None => counted.push((key, 1)),
    }
}

/// The counts with one more sample of each of the keys, in their order.
pub open spec fn with_samples(counted: Seq<Sample<SampleKey>>, keys: Seq<SampleKey>) -> Seq<
    Sample<SampleKey>,
>
    decreases keys.len(),
{
    if keys.len() == 0 {
        counted
    } else {
        with_sample(with_samples(counted, keys.drop_last()), keys.last())
    }
}

/// What the system says of the main thread and of each other thread of the
/// process.
pub struct ThreadStates {
    pub main_thread: GlobalThreadId,
    pub main_status: ThreadStatus,
    pub tasks: Vec<(GlobalThreadId, ThreadStatus)>,
}

/// What the task with number `tid` is doing, if the tasks tell.
pub open spec fn task_status(
    tasks: Seq<(GlobalThreadId, ThreadStatus)>,
    tid: GlobalThreadId,
) -> Option<ThreadStatus>
    decreases tasks.len(),
{
    if tasks.len() == 0 {
        None
    } else if tasks[0].0 == tid {
        Some(tasks[0].1)
    } else {
        task_status(tasks.drop_first(), tid)
    }
}

impl ThreadStates {
    /// What thread `tid` is doing: what the system says of it, and other
    /// where the system does not know it.
    pub open spec fn status_of(&self, tid: GlobalThreadId) -> ThreadStatus {
        if self.main_thread == tid {
            self.main_status
        } else {
            match task_status(self.tasks@, tid) {
                Some(status) => status,
                None => ThreadStatus::Other,
            }
        }
    }

    /// What thread `tid` is doing.
    pub fn get_status(&self, tid: GlobalThreadId) -> (status: ThreadStatus)
        ensures
            status == self.status_of(tid),
    {
        if self.main_thread == tid {
            return self.main_status;
        }
        let mut idx: usize = 0;
        proof {
            assert(self.tasks@.skip(0) =~= self.tasks@);
        }
        while idx < self.tasks.len()
            invariant
                idx <= self.tasks.len(),
                self.main_thread != tid,
                task_status(self.tasks@, tid) == task_status(self.tasks@.skip(idx as int), tid),
            decreases self.tasks.len() - idx,
        {
            proof {
                assert(self.tasks@.skip(idx as int).drop_first() =~= self.tasks@.skip(idx + 1));
                assert(self.tasks@.skip(idx as int)[0] == self.tasks@[idx as int]);
            }
            if self.tasks[idx].0 == tid {
                proof {
                    let rest = self.tasks@.skip(idx as int);
                    assert(rest.len() > 0 && rest[0].0 == tid);
                    assert(task_status(rest, tid) == Some(rest[0].1));
                }
                return self.tasks[idx].1;
            }
            idx += 1;
        }
        ThreadStatus::Other
    }
}

/// Whether a call path was reported for thread `tid`.
pub open spec fn has_callstack(
    callstacks: Seq<(GlobalThreadId, Seq<CallSiteId>)>,
    tid: GlobalThreadId,
) -> bool {
    exists|i: int| 0 <= i < callstacks.len() && (#[trigger] callstacks[i]).0 == tid
}

/// The samples of the threads that reported a call path: for each but the
/// sampler's own, the call path and what the thread is doing.
pub open spec fn reported_samples(
    callstacks: Seq<(GlobalThreadId, Seq<CallSiteId>)>,
    states: &ThreadStates,
    this_thread: GlobalThreadId,
) -> Seq<SampleKey>
    decreases callstacks.len(),
{
    if callstacks.len() == 0 {
        Seq::<SampleKey>::empty()
    } else {
        let front = reported_samples(callstacks.drop_last(), states, this_thread);
        let (tid, calls) = callstacks.last();
        if tid != this_thread {
            front.push((calls, states.status_of(tid)))
        } else {
            front
        }
    }
}

/// The samples of the threads that reported no call path: for each task
/// but the sampler's own, no frames, and what the thread is doing.
pub open spec fn other_samples(
    tasks: Seq<(GlobalThreadId, ThreadStatus)>,
    callstacks: Seq<(GlobalThreadId, Seq<CallSiteId>)>,
    this_thread: GlobalThreadId,
) -> Seq<SampleKey>
    decreases tasks.len(),
{
    if tasks.len() == 0 {
        Seq::<SampleKey>::empty()
    } else {
        let front = other_samples(tasks.drop_last(), callstacks, this_thread);
        let (tid, status) = tasks.last();
        if tid != this_thread && !has_callstack(callstacks, tid) {
            front.push((Seq::<CallSiteId>::empty(), status))
        } else {
            front
        }
    }
}

/// The call paths as plain values.
pub open spec fn callstack_views(callstacks: Seq<(GlobalThreadId, Callstack)>) -> Seq<
    (GlobalThreadId, Seq<CallSiteId>),
> {
    Seq::new(callstacks.len(), |i: int| (callstacks[i].0, callstacks[i].1@))
}

/// One counted key.
pub struct SampleCount {
    callstack: Callstack,
    status: ThreadStatus,
    samples: usize,
}

/// How often each call path was seen in each status.
pub struct PerformanceSamples {
    callstack_to_samples: Vec<SampleCount>,
}

impl View for PerformanceSamples {
    type V = Seq<Sample<SampleKey>>;

    /// The keys in the order in which they were first seen, each with its
    /// count.
    closed spec fn view(&self) -> Seq<Sample<SampleKey>> {
        Seq::new(
            self.callstack_to_samples@.len(),
            |i: int|
                (
                    (
                        self.callstack_to_samples@[i].callstack@,
                        self.callstack_to_samples@[i].status,
                    ),
                    self.callstack_to_samples@[i].samples,
                ),
        )
    }
}

impl PerformanceSamples {
    /// No samples.
    pub fn new() -> (samples: Self)
        ensures
            samples@ == Seq::<Sample<SampleKey>>::empty(),
    {
        let samples = PerformanceSamples { callstack_to_samples: Vec::new() };
        assert(samples@ =~= Seq::<Sample<SampleKey>>::empty());
        samples
    }

    /// Where the key stands, if it does.
    fn find(&self, callstack: &Callstack, status: ThreadStatus) -> (found: Option<usize>)
        ensures
            match found {
                Some(i) => key_position(self@, (callstack@, status)) == Some(i as int) && i
                    < self.callstack_to_samples.len(),
                None => key_position(self@, (callstack@, status)).is_none(),
            },
    {
        let mut idx: usize = self.callstack_to_samples.len();
        proof {
            assert(self@.take(idx as int) =~= self@);
        }
        while idx > 0
            invariant
                idx <= self.callstack_to_samples.len(),
                key_position(self@, (callstack@, status)) == key_position(
                    self@.take(idx as int),
                    (callstack@, status),
                ),
            decreases idx,
        {
            idx -= 1;
            proof {
                assert(self@.take(idx + 1).drop_last() =~= self@.take(idx as int));
                assert(self@.take(idx + 1).last() == self@[idx as int]);
            }
            let entry = &self.callstack_to_samples[idx];
            if entry.status == status && entry.callstack.same_calls(callstack) {
                return Some(idx);
            }
        }
        proof {
            assert(self@.take(0) =~= Seq::<Sample<SampleKey>>::empty());
        }
        None
    }

    /// Add a sample.
    pub fn add_sample(&mut self, callstack: Callstack, status: ThreadStatus)
        ensures
            final(self)@ == with_sample(old(self)@, (callstack@, status)),
    {
        match self.find(&callstack, status) {
            Some(i) => {
                let samples = self.callstack_to_samples[i].samples;
                proof {
                    lemma_key_position(old(self)@, (callstack@, status));
                    assert(old(self)@[i as int] == ((callstack@, status), samples));
                }
                if samples < usize::MAX {
                    self.callstack_to_samples[i].samples = samples + 1;
                }
                proof {
                    let expected = with_sample(old(self)@, (callstack@, status));
                    assert(self@.len() == expected.len());
                    assert forall|j: int| 0 <= j < self@.len() implies self@[j] == expected[j] by {
                        if j != i {
                            assert(self.callstack_to_samples@[j] == old(
                                self,
                            ).callstack_to_samples@[j]);
                        }
                    }
                    assert(self@ =~= expected);
                }
            },
            None => {
                self.callstack_to_samples.push(SampleCount { callstack, status, samples: 1 });
                proof {
                    assert(self@ =~= with_sample(old(self)@, (callstack@, status)));
                }
            },
        }
    }

    /// Add samples for all threads: for each thread that reported a call
    /// path, that path; for each other thread, a path without frames; none
    /// for the thread that takes the samples.
    pub fn add_samples(
        &mut self,
        states: &ThreadStates,
        callstacks: Vec<(GlobalThreadId, Callstack)>,
        this_thread: GlobalThreadId,
    )
        ensures
            final(self)@ == with_samples(
                with_samples(
                    old(self)@,
                    reported_samples(callstack_views(callstacks@), states, this_thread),
                ),
                other_samples(states.tasks@, callstack_views(callstacks@), this_thread),
            ),
    {
        let ghost reported = callstack_views(callstacks@);
        let mut handled: HashSet<i32> = HashSet::new();
        let ghost all = callstacks@;
        proof {
            assert(reported.take(0) =~= Seq::<(GlobalThreadId, Seq<CallSiteId>)>::empty());
        }
        for entry in it: callstacks
            invariant
                it.seq() == all,
                reported == callstack_views(all),
                forall|tid: i32|
                    handled@.contains(tid) <==> exists|i: int|
                        0 <= i < it.index() && (#[trigger] all[i]).0.0 == tid,
                self@ == with_samples(
                    old(self)@,
                    reported_samples(reported.take(it.index() as int), states, this_thread),
                ),
        {
            let (tid, callstack) = entry;
            let ghost so_far = reported_samples(
                reported.take(it.index() as int),
                states,
                this_thread,
            );
            proof {
                assert(reported.take(it.index() + 1).drop_last() =~= reported.take(
                    it.index() as int,
                ));
                assert(reported[it.index() as int] == (
                    all[it.index() as int].0,
                    all[it.index() as int].1@,
                ));
                assert(reported.take(it.index() + 1).last() == (tid, callstack@));
            }
            let ghost before = handled@;
            handled.insert(tid.0);
            proof {
                assert(handled@ == before.insert(tid.0));
                assert(all[it.index() as int].0.0 == tid.0);
            }
            if tid != this_thread {
                let status = states.get_status(tid);
                proof {
                    assert(so_far.push((callstack@, status)).drop_last() =~= so_far);
                }
                self.add_sample(callstack, status);
            }
        }
        proof {
            assert(reported.take(all.len() as int) =~= reported);
            assert(states.tasks@.take(0) =~= Seq::<(GlobalThreadId, ThreadStatus)>::empty());
        }
        let ghost middle = self@;
        let mut idx: usize = 0;
        while idx < states.tasks.len()
            invariant
                idx <= states.tasks.len(),
                reported == callstack_views(all),
                forall|tid: i32|
                    handled@.contains(tid) <==> exists|i: int|
                        0 <= i < all.len() && (#[trigger] all[i]).0.0 == tid,
                self@ == with_samples(
                    middle,
                    other_samples(states.tasks@.take(idx as int), reported, this_thread),
                ),
            decreases states.tasks.len() - idx,
        {
            let (tid, status) = states.tasks[idx];
            proof {
                assert(states.tasks@.take(idx + 1).drop_last() =~= states.tasks@.take(idx as int));
                assert(states.tasks@.take(idx + 1).last() == states.tasks@[idx as int]);
            }
            let ghost so_far = other_samples(states.tasks@.take(idx as int), reported, this_thread);
            proof {
                assert(so_far.push((Seq::<CallSiteId>::empty(), status)).drop_last() =~= so_far);
            }
            let seen = handled.contains(&tid.0);
            proof {
                if seen {
                    let i = choose|i: int| 0 <= i < all.len() && (#[trigger] all[i]).0.0 == tid.0;
                    assert(reported[i].0 == tid);
                } else {
                    assert forall|i: int| 0 <= i < reported.len() implies (#[trigger] reported[i]).0
                        != tid by {
                        assert(reported[i].0 == all[i].0);
                    }
                }
            }
            if tid != this_thread && !seen {
                // Not a Python thread, but we should still profile it.
                self.add_sample(Callstack::new(), status);
            }
            idx += 1;
        }
        proof {
            assert(states.tasks@.take(idx as int) =~= states.tasks@);
        }
    }

    /// Sum of the counts, if it is a count.
    pub fn total_samples(&self) -> (total: Option<usize>)
        ensures
            total.is_some() == (crate::sorting::sum_counts(self@) <= usize::MAX),
            total.is_some() ==> total.unwrap() == crate::sorting::sum_counts(self@),
    {
        let mut total: usize = 0;
        let mut idx: usize = 0;
        proof {
            assert(self@.take(0) =~= Seq::<Sample<SampleKey>>::empty());
        }
        while idx < self.callstack_to_samples.len()
            invariant
                idx <= self.callstack_to_samples.len(),
                total == crate::sorting::sum_counts(self@.take(idx as int)),
            decreases self.callstack_to_samples.len() - idx,
        {
            let samples = self.callstack_to_samples[idx].samples;
            proof {
                assert(self@.take(idx + 1).drop_last() =~= self@.take(idx as int));
                assert(self@.take(idx + 1).last() == self@[idx as int]);
            }
            if samples > usize::MAX - total {
                proof {
                    lemma_sum_counts_prefix(self@, idx + 1);
                }
                return None;
            }
            total = total + samples;
            idx += 1;
        }
        proof {
            assert(self@.take(idx as int) =~= self@);
        }
        Some(total)
    }
}

/// The counts by position: for each key, where it stands and its count.
pub open spec fn by_position(counted: Seq<Sample<SampleKey>>) -> Seq<Sample<usize>> {
    Seq::new(counted.len(), |i: int| (i as usize, counted[i].1))
}

/// The line of a profile for a key: the call path as text, the status as
/// one more frame, a space, and the count.
pub open spec fn performance_line<FL: FunctionLocations>(
    key: SampleKey,
    count: usize,
    to_be_post_processed: bool,
    functions: &FL,
    runpy_path: Seq<char>,
    linecache: &LineCacher,
) -> Seq<char> {
    callstack_text(key.0, to_be_post_processed, functions, ";"@, runpy_path, linecache) + ";"@
        + key.1.text() + " "@ + decimal(count as nat)
}

/// The lines of a profile for the keys at the positions `shown`.
pub open spec fn performance_lines<FL: FunctionLocations>(
    shown: Seq<Sample<usize>>,
    counted: Seq<Sample<SampleKey>>,
    to_be_post_processed: bool,
    functions: &FL,
    runpy_path: Seq<char>,
    linecache: &LineCacher,
) -> Seq<Seq<char>> {
    Seq::new(
        shown.len(),
        |i: int|
            performance_line(
                counted[shown[i].0 as int].0,
                shown[i].1,
                to_be_post_processed,
                functions,
                runpy_path,
                linecache,
            ),
    )
}

impl PerformanceSamples {
    /// Every frame of every call path names a function of the catalog.
    pub open spec fn all_known<FL: FunctionLocations>(&self, functions: &FL) -> bool {
        forall|i: int| 0 <= i < self@.len() ==> all_known((#[trigger] self@[i]).0.0, functions)
    }

    /// Whether every frame of every call path names a function of the
    /// catalog.
    pub fn is_all_known(&self, functions: &crate::callsite::VecFunctionLocations) -> (known: bool)
        ensures
            known == self.all_known(functions),
    {
        let mut idx: usize = 0;
        while idx < self.callstack_to_samples.len()
            invariant
                idx <= self.callstack_to_samples.len(),
                forall|i: int| 0 <= i < idx ==> all_known((#[trigger] self@[i]).0.0, functions),
            decreases self.callstack_to_samples.len() - idx,
        {
            if !self.callstack_to_samples[idx].callstack.is_known_in(functions) {
                assert(!all_known(self@[idx as int].0.0, functions));
                return false;
            }
            assert(self@[idx as int].0.0 == self.callstack_to_samples@[idx as int].callstack@);
            idx += 1;
        }
        true
    }

    /// The lines of the profile: one for each key that is worth showing,
    /// the most often seen first.
    pub fn to_lines<FL: FunctionLocations>(
        &self,
        to_be_post_processed: bool,
        functions: &FL,
        runpy_path: &str,
        linecache: &LineCacher,
    ) -> (lines: Vec<String>)
        requires
            self.all_known(functions),
            crate::sorting::sum_counts(self@) <= usize::MAX,
        ensures
            lines.deep_view() == performance_lines(
                crate::flamegraph::useful_callstacks(
                    by_position(self@),
                    crate::sorting::sum_counts(self@),
                ),
                self@,
                to_be_post_processed,
                functions,
                runpy_path@,
                linecache,
            ),
    {
        let total_samples = match self.total_samples() {
            Some(total) => total,
            None => 0,
        };
        let n = self.callstack_to_samples.len();
        let mut samples: Vec<Sample<usize>> = Vec::new();
        let mut idx: usize = 0;
        while idx < n
            invariant
                idx <= n,
                n == self.callstack_to_samples.len(),
                samples@ == by_position(self@).take(idx as int),
            decreases n - idx,
        {
            samples.push((idx, self.callstack_to_samples[idx].samples));
            idx += 1;
            proof {
                assert(samples@ =~= by_position(self@).take(idx as int));
            }
        }
        proof {
            assert(by_position(self@).take(idx as int) =~= by_position(self@));
            crate::flamegraph::lemma_useful_callstacks_keep(
                by_position(self@),
                total_samples as int,
                |sample: Sample<usize>| sample.0 < n,
            );
        }
        let shown = crate::flamegraph::filter_to_useful_callstacks(samples, total_samples);
        let ghost expected = performance_lines(
            shown@,
            self@,
            to_be_post_processed,
            functions,
            runpy_path@,
            linecache,
        );
        let mut lines: Vec<String> = Vec::new();
        let mut idx: usize = 0;
        while idx < shown.len()
            invariant
                idx <= shown.len(),
                n == self.callstack_to_samples.len(),
                self.all_known(functions),
                forall|i: int| 0 <= i < shown@.len() ==> (#[trigger] shown@[i]).0 < n,
                expected == performance_lines(
                    shown@,
                    self@,
                    to_be_post_processed,
                    functions,
                    runpy_path@,
                    linecache,
                ),
                lines.deep_view() == expected.take(idx as int),
            decreases shown.len() - idx,
        {
            let ghost so_far = lines.deep_view();
            let (position, count) = shown[idx];
            assert(shown@[idx as int].0 < n);
            let entry = &self.callstack_to_samples[position];
            proof {
                assert(self@[position as int] == ((entry.callstack@, entry.status), entry.samples));
                assert(all_known(self@[position as int].0.0, functions));
            }
            let mut line = entry.callstack.as_string(
                to_be_post_processed,
                functions,
                ";",
                runpy_path,
                linecache,
            );
            line.append(";");
            line.append(entry.status.to_string().as_str());
            line.append(" ");
            push_decimal(&mut line, count);
            lines.push(line);
            idx += 1;
            proof {
                assert(lines.deep_view() =~= so_far.push(line@));
                assert(lines.deep_view() =~= expected.take(idx as int));
            }
        }
        proof {
            assert(expected.take(idx as int) =~= expected);
        }
        lines
    }
}

/// Where a key stands, there it is.
pub proof fn lemma_key_position(counted: Seq<Sample<SampleKey>>, key: SampleKey)
    ensures
        match key_position(counted, key) {
            Some(i) => 0 <= i < counted.len() && counted[i].0 == key,
            None => forall|i: int| 0 <= i < counted.len() ==> (#[trigger] counted[i]).0 != key,
        },
    decreases counted.len(),
{
    if counted.len() > 0 && counted.last().0 != key {
        lemma_key_position(counted.drop_last(), key);
        if key_position(counted.drop_last(), key).is_none() {
            assert forall|i: int| 0 <= i < counted.len() implies (#[trigger] counted[i]).0
                != key by {
                if i < counted.len() - 1 {
                    assert(counted.drop_last()[i] == counted[i]);
                }
            }
        }
    }
}

/// The counts of the first samples add up to no more than those of all.
pub proof fn lemma_sum_counts_prefix<K>(samples: Seq<Sample<K>>, n: int)
    requires
        0 <= n <= samples.len(),
    ensures
        0 <= crate::sorting::sum_counts(samples.take(n)) <= crate::sorting::sum_counts(samples),
    decreases samples.len() - n,
{
    crate::flamegraph::lemma_sum_counts_bound(samples.take(n));
    if n == samples.len() {
        assert(samples.take(n) =~= samples);
    } else {
        lemma_sum_counts_prefix(samples, n + 1);
        assert(samples.take(n + 1).drop_last() =~= samples.take(n));
    }
}

} // verus!
