use pymemprofile_api::allocation::{ProcessUid, MIB};
use pymemprofile_api::api::{
    add_allocation, add_function, add_function_if_unlocked, callstack_id_for, check_fits, check_out_of_memory, finish_call,
    free_allocation, free_anon_mmap, get_allocation_size, record_allocation, reset, start_call,
    Recorded, TrackerState, OUT_OF_MEMORY_EXIT_CODE,
};
use pymemprofile_api::callsite::LineNumberInfo::LineNumber;
use pymemprofile_api::callsite::{CallSiteId, FunctionId, FunctionLocations, VecFunctionLocations};
use pymemprofile_api::flamegraph::IdentityCleaner;
use pymemprofile_api::linecache::LineCacher;
use pymemprofile_api::memorytracking::Callstack;
use pymemprofile_api::oom::{InfiniteMemory, MemoryInfo, OutOfMemoryEstimator};
use pymemprofile_api::tracker::AllocationTracker;

struct Scarce {
    available: usize,
}

impl MemoryInfo for Scarce {
    fn total_memory(&self) -> usize {
        1_000_000_000
    }

    fn get_available_memory(&self) -> usize {
        self.available
    }

    fn get_resident_process_memory(&self) -> usize {
        0
    }

    fn print_info(&self) -> String {
        "scarce".to_string()
    }
}

fn state() -> TrackerState<InfiniteMemory> {
    TrackerState {
        oom: OutOfMemoryEstimator::new(InfiniteMemory {}),
        allocations: AllocationTracker::new("/tmp".to_string(), VecFunctionLocations::new()),
    }
}

#[test]
fn an_allocation_is_recorded_under_the_threads_call_path() {
    let mut state = state();
    let f1 = add_function(&mut state, "a.x".to_string(), "af".to_string());
    assert_eq!(f1, FunctionId::new(0));
    assert_eq!(
        state.allocations.functions().get_function_and_filename(f1),
        ("af", "a.x")
    );
    let mut callstack = Callstack::new();
    start_call(&mut callstack, f1, 0, 10);
    let (check, recorded) = add_allocation(&mut state, &mut callstack, 0x100, 1000, 10, false);
    assert!(!check.out_of_memory);
    assert!(!check.failed);
    assert_eq!(check.default_path, "/tmp");
    assert_eq!(recorded, Recorded::Under(0));
    assert_eq!(get_allocation_size(&state, 0x100), 1000);
    assert_eq!(state.allocations.get_current_allocated_bytes(), 1000);
    state.allocations.check_if_new_peak();
    assert_eq!(
        state
            .allocations
            .to_lines(true, false, &IdentityCleaner, "", &LineCacher::new()),
        vec!["a.x:10 (af) 1000"]
    );
    assert!(free_allocation(&mut state, 0x100));
    assert_eq!(get_allocation_size(&state, 0x100), 0);
    assert_eq!(state.allocations.get_current_allocated_bytes(), 0);
    assert_eq!(state.allocations.get_peak_allocated_bytes(), 1000);
    finish_call(&mut callstack);
    assert_eq!(callstack.len(), 0);
}

#[test]
fn allocations_at_one_line_intern_the_call_path_once() {
    let mut state = state();
    let f1 = add_function(&mut state, "a.x".to_string(), "af".to_string());
    let mut callstack = Callstack::new();
    start_call(&mut callstack, f1, 0, 1);
    assert_eq!(
        record_allocation(&mut state.allocations, &mut callstack, 8, 10, 5, false),
        Recorded::Under(0)
    );
    assert_eq!(callstack.cached_id(5), Some(0));
    assert_eq!(callstack.to_vec(), vec![CallSiteId::new(f1, LineNumber(5))]);
    assert_eq!(state.allocations.callstack_count(), 1);
    // The id that is remembered is used, whatever the tracker would say.
    callstack.remember_id(5, 0);
    assert_eq!(
        record_allocation(&mut state.allocations, &mut callstack, 16, 10, 5, true),
        Recorded::Under(0)
    );
    assert_eq!(state.allocations.callstack_count(), 1);
    // Another line is another call path.
    assert_eq!(
        callstack_id_for(&mut state.allocations, &mut callstack, 6),
        Some(1)
    );
    assert_eq!(callstack.cached_id(6), Some(1));
    assert_eq!(callstack.cached_id(5), None);
    assert_eq!(state.allocations.callstack_count(), 2);
    assert_eq!(state.allocations.current_memory_usage(), vec![20, 0]);
    // Line 0 leaves the line of the frame as it is.
    assert_eq!(
        callstack_id_for(&mut state.allocations, &mut callstack, 0),
        Some(1)
    );
    assert_eq!(callstack.to_vec(), vec![CallSiteId::new(f1, LineNumber(6))]);
}

#[test]
fn an_id_that_the_tracker_never_gave_out_records_nothing() {
    let mut state = state();
    let mut callstack = Callstack::new();
    callstack.remember_id(3, 17);
    assert_eq!(
        record_allocation(&mut state.allocations, &mut callstack, 8, 10, 3, false),
        Recorded::OutOfRange
    );
    assert_eq!(state.allocations.get_current_allocated_bytes(), 0);
    assert_eq!(state.allocations.callstack_count(), 0);
}

#[test]
fn sizes_that_would_leave_the_range_record_nothing() {
    let mut state = state();
    let mut callstack = Callstack::new();
    assert!(check_fits(&state.allocations, 8, 10, false));
    assert!(check_fits(&state.allocations, usize::MAX - 10, 10, true));
    assert!(!check_fits(&state.allocations, usize::MAX - 10, 11, true));
    assert!(!check_fits(&state.allocations, 8, usize::MAX - MIB / 2 + 1, false));
    assert_eq!(
        record_allocation(&mut state.allocations, &mut callstack, 4096, usize::MAX - 4096, 1, true),
        Recorded::Under(0)
    );
    assert!(!check_fits(&state.allocations, 0, 4097, true));
    assert!(!check_fits(&state.allocations, 0, 4097, false));
    assert!(check_fits(&state.allocations, 0, 4096, false));
    assert_eq!(
        record_allocation(&mut state.allocations, &mut callstack, 0, 4097, 1, false),
        Recorded::OutOfRange
    );
    assert_eq!(
        state.allocations.get_current_allocated_bytes(),
        usize::MAX - 4096
    );
    assert!(!free_anon_mmap(&mut state, usize::MAX, 1));
    assert!(free_anon_mmap(&mut state, 4096, usize::MAX - 4096));
    assert_eq!(state.allocations.get_current_allocated_bytes(), 0);
}

#[test]
fn a_failed_allocation_means_out_of_memory() {
    let mut state = state();
    let mut callstack = Callstack::new();
    let id = state.allocations.get_callstack_id(&callstack);
    state
        .allocations
        .add_allocation(ProcessUid::parent(), 64, 100, id);
    state.allocations.check_if_new_peak();
    let (check, recorded) = add_allocation(&mut state, &mut callstack, 0, 1 << 30, 7, true);
    assert!(check.out_of_memory);
    assert!(check.failed);
    assert_eq!(check.default_path, "/tmp");
    assert_eq!(check.memory_info, "=fil-profile= Out of memory detection is disabled.");
    // The failed mapping is recorded all the same, for the last profile.
    assert_eq!(recorded, Recorded::Under(0));
    assert_eq!(state.allocations.get_current_allocated_bytes(), 100 + (1 << 30));
    // What the last profile does not need is let go of.
    assert_eq!(get_allocation_size(&state, 64), 0);
    assert!(state.allocations.peak_memory_usage().is_empty());
    assert_eq!(OUT_OF_MEMORY_EXIT_CODE, 53);
}

#[test]
fn scarce_memory_means_out_of_memory() {
    let mut state = TrackerState {
        oom: OutOfMemoryEstimator::new(Scarce {
            available: 200_000_000,
        }),
        allocations: AllocationTracker::new("/out".to_string(), VecFunctionLocations::new()),
    };
    let check = check_out_of_memory(&mut state, 4096, 1000);
    assert!(!check.out_of_memory);
    assert_eq!(check.memory_info, "");
    assert_eq!(state.oom.get_check_threshold_bytes(), 2_000_000);
    // Within the countdown the system is not asked.
    state.oom.memory_info.available = 1;
    let check = check_out_of_memory(&mut state, 4096, 2_000_000);
    assert!(!check.out_of_memory);
    let check = check_out_of_memory(&mut state, 4096, 1);
    assert!(check.out_of_memory);
    assert!(!check.failed);
    assert_eq!(check.memory_info, "scarce");
    assert_eq!(check.default_path, "/out");
}

#[test]
fn reset_and_frees_through_the_state() {
    let mut state = state();
    let mut callstack = Callstack::new();
    add_allocation(&mut state, &mut callstack, 8, 10, 1, false);
    add_allocation(&mut state, &mut callstack, 4096, 8192, 1, true);
    assert!(free_anon_mmap(&mut state, 4096, 4096));
    assert_eq!(state.allocations.get_current_allocated_bytes(), 10 + 4096);
    // A free of an address that holds nothing changes nothing.
    assert!(free_allocation(&mut state, 12345));
    assert_eq!(state.allocations.get_current_allocated_bytes(), 10 + 4096);
    reset(&mut state, "/new".to_string());
    assert_eq!(state.allocations.get_current_allocated_bytes(), 0);
    assert_eq!(state.allocations.default_path(), "/new");
    assert_eq!(get_allocation_size(&state, 8), 0);
}

#[test]
fn without_the_state_a_function_is_unknown() {
    let id = add_function_if_unlocked::<InfiniteMemory>(None, "a.x".to_string(), "af".to_string());
    assert_eq!(id, FunctionId::unknown());
    let mut state = state();
    assert_eq!(
        add_function(&mut state, "a.x".to_string(), "af".to_string()).as_u64(),
        0
    );
    assert_eq!(
        add_function(&mut state, "b.x".to_string(), "bf".to_string()).as_u64(),
        1
    );
    assert_eq!(
        add_function_if_unlocked(Some(&mut state), "c.x".to_string(), "cf".to_string()).as_u64(),
        2
    );
    assert_eq!(state.allocations.functions().len(), 3);
    assert_eq!(
        state
            .allocations
            .functions()
            .get_function_and_filename(FunctionId::new(2)),
        ("cf", "c.x")
    );
}

#[test]
fn calls_push_and_pop_frames() {
    let f = FunctionId::new(3);
    let g = FunctionId::new(4);
    let mut callstack = Callstack::new();
    start_call(&mut callstack, f, 99, 1);
    start_call(&mut callstack, g, 0, 2);
    start_call(&mut callstack, f, 8, 3);
    assert_eq!(
        callstack.to_vec(),
        vec![
            CallSiteId::new(f, LineNumber(1)),
            CallSiteId::new(g, LineNumber(8)),
            CallSiteId::new(f, LineNumber(3))
        ]
    );
    finish_call(&mut callstack);
    finish_call(&mut callstack);
    assert_eq!(callstack.to_vec(), vec![CallSiteId::new(f, LineNumber(1))]);
}
