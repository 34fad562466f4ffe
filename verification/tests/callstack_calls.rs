use pymemprofile_api::callstack::FinishedCall;
use pymemprofile_api::callstack::{
    dump_functions_to_flamegraph_svg, finish_call, start_call, update_memory_usage, Call, Callstack,
    RecordFinishedCall, RecordToFile, RecordToMemory,
};

#[test]
fn callstack_call_no_allocated_memory() {
    let call = Call::new("mycall".to_string(), 123);
    assert_eq!(
        call,
        Call {
            name: "mycall".to_string(),
            starting_memory: 123,
            peak_memory: 123
        }
    );
    assert_eq!(call.allocated_memory(), 0);
}

#[test]
fn callstack_call_updates_peak_if_higher_than_previous_peak() {
    let mut call = Call::new("mycall".to_string(), 123);
    call.update_memory_usage(200);
    assert_eq!(
        call,
        Call {
            name: "mycall".to_string(),
            starting_memory: 123,
            peak_memory: 200
        }
    );
    call.update_memory_usage(200);
    assert_eq!(
        call,
        Call {
            name: "mycall".to_string(),
            starting_memory: 123,
            peak_memory: 200
        }
    );
    call.update_memory_usage(201);
    assert_eq!(
        call,
        Call {
            name: "mycall".to_string(),
            starting_memory: 123,
            peak_memory: 201
        }
    );
}

#[test]
fn callstack_call_allocated_memory() {
    let mut call = Call::new("mycall".to_string(), 123);
    call.update_memory_usage(137);
    assert_eq!(call.allocated_memory(), 14);
    call.update_memory_usage(139);
    assert_eq!(call.allocated_memory(), 16);
}

#[test]
fn callstack_update_memory_usage_updates_full_stack() {
    let mut callstack = Callstack::new(RecordToMemory::new());
    callstack.start_call("a".to_string(), 2);
    callstack.start_call("b".to_string(), 2);
    callstack.update_memory_usage(10);
    assert_eq!(callstack.current_calls(), ["a", "b"]);
    assert_eq!(callstack.current_allocated(), [8, 8]);
    // Memory baseline that is less than current peak of 10:
    callstack.start_call("c".to_string(), 10);
    assert_eq!(callstack.current_calls(), ["a", "b", "c"]);
    assert_eq!(callstack.current_allocated(), [8, 8, 0]);
    callstack.start_call("d".to_string(), 10);
    callstack.update_memory_usage(15);
    assert_eq!(callstack.current_calls(), ["a", "b", "c", "d"]);
    assert_eq!(callstack.current_allocated(), [13, 13, 5, 5]);
}

#[test]
fn callstack_start_call_starting_memory_at_least_previous_peak() {
    let mut callstack = Callstack::new(RecordToMemory::new());
    callstack.start_call("a".to_string(), 2);
    callstack.start_call("b".to_string(), 1);
    assert_eq!(callstack.calls[1].starting_memory, 2);
    callstack.start_call("c".to_string(), 3);
    assert_eq!(callstack.calls[1].starting_memory, 2);
    assert_eq!(callstack.calls[2].starting_memory, 3);
}

#[test]
fn finish_call_records_names_and_bytes() {
    let mut callstack = Callstack::new(RecordToMemory::new());
    callstack.start_call("a".to_string(), 100);
    callstack.start_call("b".to_string(), 150);
    callstack.update_memory_usage(400);
    callstack.finish_call();
    assert_eq!(callstack.current_calls(), ["a"]);
    assert_eq!(callstack.recorder.finished_calls.len(), 1);
    assert_eq!(callstack.recorder.finished_calls[0].callstack, ["a", "b"]);
    assert_eq!(callstack.recorder.finished_calls[0].allocated_by_call, 250);
    callstack.finish_call();
    assert_eq!(callstack.recorder.finished_calls[1].callstack, ["a"]);
    assert_eq!(callstack.recorder.finished_calls[1].allocated_by_call, 300);
    assert!(callstack.current_calls().is_empty());
}

#[test]
fn finished_calls_that_allocated_become_lines() {
    let mut callstack = Callstack::new(RecordToFile::new());
    start_call(&mut callstack, "a".to_string(), 1_000_000);
    start_call(&mut callstack, "b".to_string(), 2_000_000);
    start_call(&mut callstack, "c".to_string(), 2_000_000);
    // The innermost call ends without having allocated.
    finish_call(&mut callstack);
    update_memory_usage(&mut callstack, 9_500_000);
    finish_call(&mut callstack);
    finish_call(&mut callstack);
    assert_eq!(callstack.recorder.finished_calls.len(), 3);
    assert_eq!(callstack.recorder.lines(), vec!["a;b 7", "a 8"]);
    dump_functions_to_flamegraph_svg("/tmp/out.svg".to_string());
}

#[test]
fn a_recorder_keeps_what_it_is_handed() {
    let mut recorder = RecordToMemory::new();
    recorder.record(FinishedCall {
        callstack: vec!["x".to_string()],
        allocated_by_call: 3,
    });
    assert_eq!(recorder.finished_calls.len(), 1);
    assert_eq!(recorder.finished_calls[0].allocated_by_call, 3);
    let mut to_file = RecordToFile::new();
    to_file.record(FinishedCall {
        callstack: vec!["x".to_string(), "y".to_string()],
        allocated_by_call: 999_999,
    });
    to_file.record(FinishedCall {
        callstack: vec![],
        allocated_by_call: 123_456_789,
    });
    assert_eq!(to_file.lines(), vec!["x;y 0", " 123"]);
}

struct CountCalls {
    count: usize,
    bytes: usize,
}

impl RecordFinishedCall for CountCalls {
    fn record(&mut self, finished_call: FinishedCall) {
        self.count += 1;
        self.bytes += finished_call.allocated_by_call;
    }
}

#[test]
fn any_recorder_is_handed_the_finished_calls() {
    let mut callstack = Callstack::new(CountCalls { count: 0, bytes: 0 });
    callstack.start_call("a".to_string(), 10);
    callstack.start_call("b".to_string(), 10);
    callstack.update_memory_usage(25);
    callstack.finish_call();
    callstack.update_memory_usage(30);
    callstack.finish_call();
    assert_eq!(callstack.recorder.count, 2);
    assert_eq!(callstack.recorder.bytes, 15 + 20);
}
