//! Memory per call: for each call that is under way, how far the memory in
//! use has risen above what it was when the call began.

use vstd::prelude::*;

verus! {

/// A function call in Python (or other languages wrapping this library).
/// Memory usage is in bytes.
#[derive(PartialEq, Eq, Debug)]
pub struct Call {
    pub name: String,
    pub starting_memory: usize,
    pub peak_memory: usize,
}

impl Call {
    /// Bytes by which the peak lies above the start; none where it lies
    /// below.
    pub open spec fn spec_allocated_memory(&self) -> int {
        if self.starting_memory > self.peak_memory {
            0
        } else {
            self.peak_memory - self.starting_memory
        }
    }

    /// A call that begins with `starting_memory` bytes in use, which is its
    /// peak so far.
    pub fn new(name: String, starting_memory: usize) -> (call: Call)
        ensures
            call.name == name,
            call.starting_memory == starting_memory,
            call.peak_memory == starting_memory,
    {
        Call { name, starting_memory, peak_memory: starting_memory }
    }

    /// Bytes by which the peak lies above the start.
    pub fn allocated_memory(&self) -> (bytes: usize)
        ensures
            bytes == self.spec_allocated_memory(),
    {
        if self.starting_memory > self.peak_memory {
            // Technically should never happen, but just in case:
            0
        } else {
            self.peak_memory - self.starting_memory
        }
    }

    /// Takes note of the memory in use: a new peak where it is more than the
    /// peak so far.
    pub fn update_memory_usage(&mut self, currently_used_memory: usize)
        ensures
            final(self).name == old(self).name,
            final(self).starting_memory == old(self).starting_memory,
            final(self).peak_memory == (if currently_used_memory > old(self).peak_memory {
                currently_used_memory
            } else {
                old(self).peak_memory
            }),
    {
        if currently_used_memory > self.peak_memory {
            self.peak_memory = currently_used_memory;
        }
    }
}

/// A finished call.
pub struct FinishedCall {
    /// Names of the calls that were under way, outermost first, the finished
    /// one last.
    pub callstack: Vec<String>,
    pub allocated_by_call: usize,
}

/// A finished call as plain values.
pub type FinishedCallView = (Seq<Seq<char>>, usize);

/// Record finished calls.
pub trait RecordFinishedCall {
    /// The finished calls that were recorded, oldest first: none that can
    /// be told, unless the recorder says otherwise.
    open spec fn recorded(&self) -> Seq<FinishedCallView> {
        Seq::<FinishedCallView>::empty()
    }

    /// Records a finished call.
    fn record(&mut self, finished_call: FinishedCall)
        ensures
            final(self).recorded() == old(self).recorded().push(
                (finished_call.callstack.deep_view(), finished_call.allocated_by_call),
            ),
    ;
}

/// Keeps the finished calls.
pub struct RecordToMemory {
    pub finished_calls: Vec<FinishedCall>,
}

impl RecordToMemory {
    /// A record without calls.
    pub fn new() -> (recorder: RecordToMemory)
        ensures
            recorder.recorded() == Seq::<FinishedCallView>::empty(),
    {
        let recorder = RecordToMemory { finished_calls: Vec::new() };
        assert(recorder.recorded() =~= Seq::<FinishedCallView>::empty());
        recorder
    }
}

impl RecordFinishedCall for RecordToMemory {
    open spec fn recorded(&self) -> Seq<FinishedCallView> {
        Seq::new(
            self.finished_calls@.len(),
            |i: int|
                (
                    self.finished_calls@[i].callstack.deep_view(),
                    self.finished_calls@[i].allocated_by_call,
                ),
        )
    }

    fn record(&mut self, finished_call: FinishedCall) {
        let ghost view = (finished_call.callstack.deep_view(), finished_call.allocated_by_call);
        self.finished_calls.push(finished_call);
        assert(self.recorded() =~= old(self).recorded().push(view));
    }
}

/// Keeps the finished calls, and makes of each that allocated memory a line
/// for a file.
pub struct RecordToFile {
    pub finished_calls: Vec<FinishedCall>,
}

/// The line for a finished call: the names of the calls with `;` between
/// them, a space, and the millions of bytes that the call allocated.
pub open spec fn finished_line(call: FinishedCallView) -> Seq<char> {
    crate::text::joined(call.0, ";"@) + " "@ + crate::text::decimal((call.1 / 1000000) as nat)
}

/// The lines for the finished calls that allocated memory, in their order.
pub open spec fn finished_lines(calls: Seq<FinishedCallView>) -> Seq<Seq<char>>
    decreases calls.len(),
{
    if calls.len() == 0 {
        Seq::<Seq<char>>::empty()
    } else if calls.last().1 > 0 {
        finished_lines(calls.drop_last()).push(finished_line(calls.last()))
    } else {
        finished_lines(calls.drop_last())
    }
}

impl RecordToFile {
    /// A record without calls.
    pub fn new() -> (recorder: RecordToFile)
        ensures
            recorder.recorded() == Seq::<FinishedCallView>::empty(),
    {
        let recorder = RecordToFile { finished_calls: Vec::new() };
        assert(recorder.recorded() =~= Seq::<FinishedCallView>::empty());
        recorder
    }

    /// The lines for the finished calls that allocated memory.
    pub fn lines(&self) -> (lines: Vec<String>)
        ensures
            lines.deep_view() == finished_lines(self.recorded()),
    {
        let mut lines: Vec<String> = Vec::new();
        let mut idx: usize = 0;
        proof {
            assert(self.recorded().take(0) =~= Seq::<FinishedCallView>::empty());
        }
        while idx < self.finished_calls.len()
            invariant
                idx <= self.finished_calls.len(),
                lines.deep_view() == finished_lines(self.recorded().take(idx as int)),
            decreases self.finished_calls.len() - idx,
        {
            let finished_call = &self.finished_calls[idx];
            proof {
                assert(self.recorded().take(idx + 1).drop_last() =~= self.recorded().take(
                    idx as int,
                ));
                assert(self.recorded().take(idx + 1).last() == (
                    finished_call.callstack.deep_view(),
                    finished_call.allocated_by_call,
                ));
            }
            if finished_call.allocated_by_call > 0 {
                let ghost so_far = lines.deep_view();
                let mut line = crate::text::join_strings(&finished_call.callstack, ";");
                vstd::string::StringExecFns::append(&mut line, " ");
                crate::text::push_decimal(&mut line, finished_call.allocated_by_call / 1000000);
                lines.push(line);
                proof {
                    assert(lines.deep_view() =~= so_far.push(line@));
                }
            }
            idx += 1;
        }
        proof {
            assert(self.recorded().take(idx as int) =~= self.recorded());
        }
        lines
    }
}

impl RecordFinishedCall for RecordToFile {
    open spec fn recorded(&self) -> Seq<FinishedCallView> {
        Seq::new(
            self.finished_calls@.len(),
            |i: int|
                (
                    self.finished_calls@[i].callstack.deep_view(),
                    self.finished_calls@[i].allocated_by_call,
                ),
        )
    }

    fn record(&mut self, finished_call: FinishedCall) {
        let ghost view = (finished_call.callstack.deep_view(), finished_call.allocated_by_call);
        self.finished_calls.push(finished_call);
        assert(self.recorded() =~= old(self).recorded().push(view));
    }
}

/// The names of the calls, outermost first.
pub open spec fn names_of(calls: Seq<Call>) -> Seq<Seq<char>> {
    Seq::new(calls.len(), |i: int| calls[i].name@)
}

/// The calls after each has taken note of `currently_used_memory`.
pub open spec fn updated(calls: Seq<Call>, currently_used_memory: usize) -> Seq<Call> {
    Seq::new(
        calls.len(),
        |i: int|
            Call {
                name: calls[i].name,
                starting_memory: calls[i].starting_memory,
                peak_memory: if currently_used_memory > calls[i].peak_memory {
                    currently_used_memory
                } else {
                    calls[i].peak_memory
                },
            },
    )
}

/// A callstack.
pub struct Callstack<R: RecordFinishedCall> {
    pub calls: Vec<Call>,
    pub recorder: R,
}

impl<R: RecordFinishedCall> Callstack<R> {
    /// A callstack without calls, which hands finished calls to `recorder`.
    pub fn new(recorder: R) -> (callstack: Callstack<R>)
        ensures
            callstack.calls@ == Seq::<Call>::empty(),
            callstack.recorder == recorder,
    {
        Callstack { calls: Vec::new(), recorder }
    }

    /// Begins a call. It starts from the memory in use, or from the peak of
    /// the call around it where that is more.
    pub fn start_call(&mut self, name: String, currently_used_memory: usize)
        ensures
            final(self).recorder == old(self).recorder,
            final(self).calls@.len() == old(self).calls@.len() + 1,
            final(self).calls@.drop_last() == old(self).calls@,
            final(self).calls@.last().name == name,
            final(self).calls@.last().peak_memory == final(self).calls@.last().starting_memory,
            final(self).calls@.last().starting_memory == (if old(self).calls@.len() > 0 && old(
                self,
            ).calls@.last().peak_memory > currently_used_memory {
                old(self).calls@.last().peak_memory
            } else {
                currently_used_memory
            }),
    {
        let num_calls = self.calls.len();
        let baseline_memory = if num_calls > 0 {
            let previous_peak = self.calls[num_calls - 1].peak_memory;
            if previous_peak > currently_used_memory {
                previous_peak
            } else {
                currently_used_memory
            }
        } else {
            currently_used_memory
        };
        self.calls.push(Call::new(name, baseline_memory));
        assert(self.calls@.drop_last() =~= old(self).calls@);
    }

    /// The names of the calls under way, outermost first.
    pub fn current_calls(&self) -> (names: Vec<String>)
        ensures
            names.deep_view() == names_of(self.calls@),
    {
        let mut names: Vec<String> = Vec::new();
        let mut idx: usize = 0;
        while idx < self.calls.len()
            invariant
                idx <= self.calls.len(),
                names.deep_view() == names_of(self.calls@.take(idx as int)),
            decreases self.calls.len() - idx,
        {
            let ghost so_far = names.deep_view();
            let name = self.calls[idx].name.clone();
            names.push(name);
            idx += 1;
            proof {
                assert(names.deep_view() =~= so_far.push(name@));
                assert(names.deep_view() =~= names_of(self.calls@.take(idx as int)));
            }
        }
        proof {
            assert(self.calls@.take(idx as int) =~= self.calls@);
        }
        names
    }

    /// For each call under way, the bytes by which its peak lies above its
    /// start.
    pub fn current_allocated(&self) -> (bytes: Vec<usize>)
        ensures
            bytes@.len() == self.calls@.len(),
            forall|i: int|
                0 <= i < bytes@.len() ==> (#[trigger] bytes@[i])
                    == self.calls@[i].spec_allocated_memory(),
    {
        let mut bytes: Vec<usize> = Vec::new();
        let mut idx: usize = 0;
        while idx < self.calls.len()
            invariant
                idx <= self.calls.len(),
                bytes@.len() == idx,
                forall|i: int|
                    0 <= i < idx ==> (#[trigger] bytes@[i])
                        == self.calls@[i].spec_allocated_memory(),
            decreases self.calls.len() - idx,
        {
            bytes.push(self.calls[idx].allocated_memory());
            idx += 1;
        }
        bytes
    }

    /// Ends the innermost call and records it: the names of the calls that
    /// were under way, and the bytes that it allocated.
    pub fn finish_call(&mut self)
        requires
            old(self).calls@.len() > 0,
        ensures
            final(self).calls@ == old(self).calls@.drop_last(),
            final(self).recorder.recorded() == old(self).recorder.recorded().push(
                (
                    names_of(old(self).calls@),
                    old(self).calls@.last().spec_allocated_memory() as usize,
                ),
            ),
    {
        let callstack: Vec<String> = self.current_calls();
        let call = self.calls.pop();
        match call {
            None => {},
            Some(call) => {
                let allocated_by_call = call.allocated_memory();
                let finished_call = FinishedCall { callstack, allocated_by_call };
                self.recorder.record(finished_call);
            },
        }
    }

    /// Every call under way takes note of the memory in use.
    pub fn update_memory_usage(&mut self, currently_used_memory: usize)
        ensures
            final(self).recorder == old(self).recorder,
            final(self).calls@ == updated(old(self).calls@, currently_used_memory),
    {
        let mut idx: usize = 0;
        while idx < self.calls.len()
            invariant
                idx <= self.calls.len(),
                self.recorder == old(self).recorder,
                self.calls@.len() == old(self).calls@.len(),
                forall|i: int|
                    0 <= i < idx ==> (#[trigger] self.calls@[i]) == updated(
                        old(self).calls@,
                        currently_used_memory,
                    )[i],
                forall|i: int|
                    idx <= i < self.calls@.len() ==> (#[trigger] self.calls@[i]) == old(
                        self,
                    ).calls@[i],
            decreases self.calls.len() - idx,
        {
            self.calls[idx].update_memory_usage(currently_used_memory);
            idx += 1;
        }
        proof {
            assert(self.calls@ =~= updated(old(self).calls@, currently_used_memory));
        }
    }
}

/// Add to per-thread function stack:
pub fn start_call<R: RecordFinishedCall>(
    callstack: &mut Callstack<R>,
    name: String,
    currently_used_memory: usize,
)
    ensures
        final(callstack).recorder == old(callstack).recorder,
        final(callstack).calls@.drop_last() == old(callstack).calls@,
        final(callstack).calls@.len() == old(callstack).calls@.len() + 1,
        final(callstack).calls@.last().name == name,
        final(callstack).calls@.last().peak_memory
            == final(callstack).calls@.last().starting_memory,
        final(callstack).calls@.last().starting_memory == (if old(callstack).calls@.len() > 0
            && old(callstack).calls@.last().peak_memory > currently_used_memory {
            old(callstack).calls@.last().peak_memory
        } else {
            currently_used_memory
        }),
{
    callstack.start_call(name, currently_used_memory);
}

/// Finish off (and move to reporting structure) current function in function
/// stack.
pub fn finish_call<R: RecordFinishedCall>(callstack: &mut Callstack<R>)
    requires
        old(callstack).calls@.len() > 0,
    ensures
        final(callstack).calls@ == old(callstack).calls@.drop_last(),
        final(callstack).recorder.recorded() == old(callstack).recorder.recorded().push(
            (
                names_of(old(callstack).calls@),
                old(callstack).calls@.last().spec_allocated_memory() as usize,
            ),
        ),
{
    callstack.finish_call();
}

/// Update memory usage for calls in stack:
pub fn update_memory_usage<R: RecordFinishedCall>(
    callstack: &mut Callstack<R>,
    currently_used_memory: usize,
)
    ensures
        final(callstack).recorder == old(callstack).recorder,
        final(callstack).calls@ == updated(old(callstack).calls@, currently_used_memory),
{
    callstack.update_memory_usage(currently_used_memory);
}

/// Create flamegraph SVG from function stack: nothing is created so far.
pub fn dump_functions_to_flamegraph_svg(path: String) {
}

} // verus!
