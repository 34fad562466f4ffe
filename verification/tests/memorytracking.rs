use pymemprofile_api::allocation::{Allocation, ProcessUid, HIGH_32BIT, MIB};
use pymemprofile_api::callsite::LineNumberInfo;
use pymemprofile_api::callsite::LineNumberInfo::LineNumber;
use pymemprofile_api::flamegraph::IdentityCleaner;
use pymemprofile_api::linecache::LineCacher;
use pymemprofile_api::callsite::{CallSiteId, FunctionId, FunctionLocations, VecFunctionLocations};
use pymemprofile_api::interner::CallstackInterner;
use pymemprofile_api::memorytracking::Callstack;
use pymemprofile_api::tracker::AllocationTracker;

fn new_tracker() -> AllocationTracker<VecFunctionLocations> {
    AllocationTracker::new(".".to_string(), VecFunctionLocations::new())
}

#[test]
fn untracked_allocation_removal() {
    let mut tracker = new_tracker();
    assert_eq!(tracker.free_allocation(ProcessUid::parent(), 123), None);
}

#[test]
fn callstack_line_numbers() {
    let fid1 = FunctionId::new(1u64);
    let fid3 = FunctionId::new(3u64);
    let fid5 = FunctionId::new(5u64);

    // Parent line number does nothing if it's first call:
    let mut cs1 = Callstack::new();
    let id1 = CallSiteId::new(fid1, LineNumber(2));
    let id2 = CallSiteId::new(fid3, LineNumber(45));
    let id3 = CallSiteId::new(fid5, LineNumber(6));
    cs1.start_call(123, id1);
    assert_eq!(cs1.to_vec(), vec![id1]);

    // Parent line number does nothing if it's 0:
    cs1.start_call(0, id2);
    assert_eq!(cs1.to_vec(), vec![id1, id2]);

    // Parent line number overrides previous level if it's non-0:
    let mut cs2 = Callstack::new();
    cs2.start_call(0, id1);
    cs2.start_call(10, id2);
    cs2.start_call(12, id3);
    assert_eq!(
        cs2.to_vec(),
        vec![
            CallSiteId::new(fid1, LineNumber(10)),
            CallSiteId::new(fid3, LineNumber(12)),
            id3
        ]
    );
}

#[test]
fn callstackinterner_notices_duplicates() {
    let fid1 = FunctionId::new(1u64);
    let fid3 = FunctionId::new(3u64);

    let mut cs1 = Callstack::new();
    cs1.start_call(0, CallSiteId::new(fid1, LineNumber(2)));
    let cs1b = cs1.clone();
    let mut cs2 = Callstack::new();
    cs2.start_call(0, CallSiteId::new(fid3, LineNumber(4)));
    let cs3 = Callstack::new();
    let cs3b = Callstack::new();

    let mut interner = CallstackInterner::new();

    let mut new = false;
    let id1 = interner.get_or_insert_id(&cs1, || new = true);
    assert!(new);

    new = false;
    let id1b = interner.get_or_insert_id(&cs1b, || new = true);
    assert!(!new);

    new = false;
    let id2 = interner.get_or_insert_id(&cs2, || new = true);
    assert!(new);

    new = false;
    let id3 = interner.get_or_insert_id(&cs3, || new = true);
    assert!(new);

    new = false;
    let id3b = interner.get_or_insert_id(&cs3b, || new = true);
    assert!(!new);

    assert_eq!(id1, id1b);
    assert_ne!(id1, id2);
    assert_ne!(id1, id3);
    assert_ne!(id2, id3);
    assert_eq!(id3, id3b);
    let reverse = interner.get_reverse_map();
    assert_eq!(reverse.len(), 3);
    assert_eq!(reverse[id1 as usize].to_vec(), cs1.to_vec());
    assert_eq!(reverse[id2 as usize].to_vec(), cs2.to_vec());
    assert_eq!(reverse[id3 as usize].to_vec(), cs3.to_vec());
}

#[test]
fn callstack_id_for_new_allocation() {
    let mut interner = CallstackInterner::new();

    let mut cs1 = Callstack::new();
    let id0 = cs1.id_for_new_allocation(0, |cs| interner.get_or_insert_id(cs, || ()));
    let id0b = cs1.id_for_new_allocation(0, |cs| interner.get_or_insert_id(cs, || ()));
    assert_eq!(id0, id0b);

    let fid1 = FunctionId::new(1u64);

    cs1.start_call(0, CallSiteId::new(fid1, LineNumber(2)));
    let id1 = cs1.id_for_new_allocation(1, |cs| interner.get_or_insert_id(cs, || ()));
    let id2 = cs1.id_for_new_allocation(2, |cs| interner.get_or_insert_id(cs, || ()));
    let id1b = cs1.id_for_new_allocation(1, |cs| interner.get_or_insert_id(cs, || ()));
    assert_eq!(id1, id1b);
    assert_ne!(id2, id0);
    assert_ne!(id2, id1);

    cs1.start_call(3, CallSiteId::new(fid1, LineNumber(2)));
    let id3 = cs1.id_for_new_allocation(4, |cs| interner.get_or_insert_id(cs, || ()));
    assert_ne!(id3, id0);
    assert_ne!(id3, id1);
    assert_ne!(id3, id2);

    cs1.finish_call();
    let id2b = cs1.id_for_new_allocation(2, |cs| interner.get_or_insert_id(cs, || ()));
    assert_eq!(id2, id2b);
    let id1c = cs1.id_for_new_allocation(1, |cs| interner.get_or_insert_id(cs, || ()));
    assert_eq!(id1, id1c);

    // Check for cache invalidation in start_call:
    cs1.start_call(1, CallSiteId::new(fid1, LineNumber(1)));
    let id4 = cs1.id_for_new_allocation(1, |cs| interner.get_or_insert_id(cs, || ()));
    assert_ne!(id4, id0);
    assert_ne!(id4, id1);
    assert_ne!(id4, id2);
    assert_ne!(id4, id3);

    // Check for cache invalidation in finish_call:
    cs1.finish_call();
    let id1d = cs1.id_for_new_allocation(1, |cs| interner.get_or_insert_id(cs, || ()));
    assert_eq!(id1, id1d);
}

#[test]
fn peak_allocations_only_updated_on_new_peaks() {
    let parent = ProcessUid::parent();
    let fid1 = FunctionId::new(1u64);
    let fid3 = FunctionId::new(3u64);

    let mut tracker = new_tracker();
    let mut cs1 = Callstack::new();
    cs1.start_call(0, CallSiteId::new(fid1, LineNumber(2)));
    let mut cs2 = Callstack::new();
    cs2.start_call(0, CallSiteId::new(fid3, LineNumber(4)));

    let cs1_id = tracker.get_callstack_id(&cs1);

    tracker.add_allocation(parent, 1, 1000, cs1_id);
    tracker.check_if_new_peak();
    // Peak should now match current allocations:
    assert_eq!(tracker.current_memory_usage(), vec![1000]);
    assert_eq!(tracker.current_memory_usage(), tracker.peak_memory_usage());
    assert_eq!(tracker.get_peak_allocated_bytes(), 1000);
    let previous_peak = tracker.peak_memory_usage();

    // Free the allocation:
    tracker.free_allocation(parent, 1);
    assert_eq!(tracker.get_current_allocated_bytes(), 0);
    assert_eq!(tracker.current_memory_usage(), vec![0]);
    assert_eq!(previous_peak, tracker.peak_memory_usage());
    assert_eq!(tracker.get_peak_allocated_bytes(), 1000);

    // Add allocation, still less than 1000:
    tracker.add_allocation(parent, 3, 123, cs1_id);
    assert_eq!(tracker.current_memory_usage(), vec![123]);
    tracker.check_if_new_peak();
    assert_eq!(previous_peak, tracker.peak_memory_usage());
    assert_eq!(tracker.get_peak_allocated_bytes(), 1000);

    // Add allocation that goes past previous peak
    let cs2_id = tracker.get_callstack_id(&cs2);
    tracker.add_allocation(parent, 2, 2000, cs2_id);
    tracker.check_if_new_peak();
    assert_eq!(tracker.current_memory_usage(), vec![123, 2000]);
    assert_eq!(tracker.current_memory_usage(), tracker.peak_memory_usage());
    assert_eq!(tracker.get_peak_allocated_bytes(), 2123);
    let previous_peak = tracker.peak_memory_usage();

    // Add anonymous mmap() that doesn't go past previous peak:
    tracker.free_allocation(parent, 2);
    assert_eq!(tracker.current_memory_usage(), vec![123, 0]);
    tracker.add_anon_mmap(parent, 50000, 1000, cs2_id);
    assert_eq!(tracker.current_memory_usage(), vec![123, 1000]);
    tracker.check_if_new_peak();
    assert_eq!(tracker.get_current_allocated_bytes(), 1123);
    assert_eq!(tracker.get_peak_allocated_bytes(), 2123);
    assert_eq!(tracker.peak_memory_usage(), previous_peak);
    assert_eq!(tracker.process_count(), 1);
    assert!(tracker.get_allocation_size(parent, 3) > 0);
    assert!(tracker.mapped_size(parent) > 0);

    // Add anonymous mmap() that does go past previous peak:
    tracker.add_anon_mmap(parent, 600000, 2000, cs2_id);
    assert_eq!(tracker.current_memory_usage(), vec![123, 3000]);
    tracker.check_if_new_peak();
    assert_eq!(tracker.current_memory_usage(), tracker.peak_memory_usage());
    assert_eq!(tracker.get_current_allocated_bytes(), 3123);
    assert_eq!(tracker.get_peak_allocated_bytes(), 3123);

    // Remove mmap():
    tracker.free_anon_mmap(parent, 50000, 1000);
    assert_eq!(tracker.current_memory_usage(), vec![123, 2000]);
    tracker.check_if_new_peak();
    assert_eq!(tracker.get_current_allocated_bytes(), 2123);
    assert_eq!(tracker.get_peak_allocated_bytes(), 3123);
    assert_eq!(tracker.mapped_size(parent), 2000);
    assert!(tracker.mappings_by_start(parent).contains_key(&600000));

    // Partial removal of anonmyous mmap():
    tracker.free_anon_mmap(parent, 600100, 1000);
    assert_eq!(tracker.current_memory_usage(), vec![123, 1000]);
    assert_eq!(tracker.get_current_allocated_bytes(), 1123);
    assert_eq!(tracker.get_peak_allocated_bytes(), 3123);
    assert_eq!(tracker.mapped_size(parent), 1000);
    tracker.check_if_new_peak();
}

#[test]
fn test_unknown_function_id() {
    let func_locations = VecFunctionLocations::new();
    let (function, filename) = func_locations.get_function_and_filename(FunctionId::unknown());
    assert_eq!(filename, "UNKNOWN DUE TO BUG");
    assert_eq!(function, "UNKNOWN");
}

#[test]
fn small_allocation_sizes_round_trip() {
    for size in [0usize, 1, 4095, 1_000_000, (HIGH_32BIT - 1) as usize] {
        let allocation = Allocation::new(0, size);
        assert_eq!(size, allocation.size());
    }
}

#[test]
fn large_allocation_sizes_are_within_half_a_mebibyte() {
    for size in [
        HIGH_32BIT as usize,
        HIGH_32BIT as usize + 1,
        3_221_225_472,
        3_221_225_472 + MIB / 2 - 1,
        3_221_225_472 + MIB / 2,
        (1usize << 50) - 1,
    ] {
        let allocation = Allocation::new(0, size);
        let result_size = allocation.size();
        let diff = if size < result_size {
            result_size - size
        } else {
            size - result_size
        };
        assert!(diff <= MIB / 2);
    }
    assert_eq!(Allocation::new(7, 3_221_225_472).size(), 3072 * MIB);
    assert_eq!(Allocation::new(7, 3_221_225_472).callstack_id(), 7);
    assert_eq!(Allocation::new(7, 3_221_225_472 + MIB / 2).size(), 3073 * MIB);
}

#[test]
fn combine_callstacks_and_sum_allocations() {
    let parent = ProcessUid::parent();
    let mut tracker = new_tracker();
    let fid1 = tracker
        .functions
        .add_function("a".to_string(), "af".to_string());
    let fid2 = tracker
        .functions
        .add_function("b".to_string(), "bf".to_string());
    let fid3 = tracker
        .functions
        .add_function("c".to_string(), "cf".to_string());

    let id1 = CallSiteId::new(fid1, LineNumber(1));
    // Same function, different line number: should be different item:
    let id1_different = CallSiteId::new(fid1, LineNumber(7));
    let id2 = CallSiteId::new(fid2, LineNumber(2));

    let id3 = CallSiteId::new(fid3, LineNumber(3));
    let mut cs1 = Callstack::new();
    cs1.start_call(0, id1);
    cs1.start_call(0, id2.clone());
    let mut cs2 = Callstack::new();
    cs2.start_call(0, id3);
    let mut cs3 = Callstack::new();
    cs3.start_call(0, id1_different);
    cs3.start_call(0, id2);
    let cs1_id = tracker.get_callstack_id(&cs1);
    let cs2_id = tracker.get_callstack_id(&cs2);
    let cs3_id = tracker.get_callstack_id(&cs3);
    tracker.add_allocation(parent, 1, 1000, cs1_id);
    tracker.add_allocation(parent, 2, 234, cs2_id);
    tracker.add_anon_mmap(parent, 3, 50000, cs1_id);
    tracker.add_allocation(parent, 4, 6000, cs3_id);

    // Make sure we notice new peak.
    tracker.check_if_new_peak();

    // 234 allocation is too small, below the 99% total allocations
    // threshold, but we always guarantee at least 100 allocations.
    let mut expected2 = vec![
        "a:1 (af);b:2 (bf) 51000",
        "c:3 (cf) 234",
        "a:7 (af);b:2 (bf) 6000",
    ];
    let mut result2: Vec<String> =
        tracker.to_lines(true, false, &IdentityCleaner, "/lib/runpy.py", &LineCacher::new());
    // The largest comes first.
    assert_eq!(result2[0], "a:1 (af);b:2 (bf) 51000");
    result2.sort();
    expected2.sort();
    assert_eq!(expected2, result2);
}

#[test]
fn simple_allocation_is_tracked_and_dumped() {
    let parent = ProcessUid::parent();
    let mut tracker = new_tracker();
    let f1 = tracker
        .functions
        .add_function("a.x".to_string(), "af".to_string());
    let mut callstack = Callstack::new();
    callstack.start_call(0, CallSiteId::new(f1, LineNumber(10)));
    let id = callstack.id_for_new_allocation(10, |cs| tracker.get_callstack_id(cs));
    tracker.add_allocation(parent, 0x100, 1000, id);
    assert_eq!(tracker.get_current_allocated_bytes(), 1000);
    tracker.check_if_new_peak();
    assert_eq!(tracker.get_peak_allocated_bytes(), 1000);
    let cache = LineCacher::new();
    assert_eq!(
        tracker.to_lines(true, false, &IdentityCleaner, "", &cache),
        vec!["a.x:10 (af) 1000".to_string()]
    );

    // The peak is preserved on free.
    assert_eq!(tracker.free_allocation(parent, 0x100), Some(1000));
    assert_eq!(tracker.get_current_allocated_bytes(), 0);
    assert_eq!(tracker.get_peak_allocated_bytes(), 1000);
    assert_eq!(
        tracker.to_lines(true, false, &IdentityCleaner, "", &cache),
        vec!["a.x:10 (af) 1000".to_string()]
    );
    // Nothing is live any more.
    assert!(tracker
        .to_lines(false, false, &IdentityCleaner, "", &cache)
        .is_empty());
}

#[test]
fn a_call_path_that_is_not_shown_may_name_any_function() {
    let parent = ProcessUid::parent();
    let mut tracker = new_tracker();
    let known = tracker
        .functions
        .add_function("a.x".to_string(), "af".to_string());
    let mut shown = Callstack::new();
    shown.start_call(0, CallSiteId::new(known, LineNumber(10)));
    let mut hidden = Callstack::new();
    hidden.start_call(0, CallSiteId::new(FunctionId::new(77u64), LineNumber(3)));
    let shown_id = tracker.get_callstack_id(&shown);
    let hidden_id = tracker.get_callstack_id(&hidden);
    assert_ne!(shown_id, hidden_id);
    tracker.add_allocation(parent, 0x100, 1000, shown_id);
    let cache = LineCacher::new();
    assert_eq!(
        tracker.to_lines(false, false, &IdentityCleaner, "", &cache),
        vec!["a.x:10 (af) 1000".to_string()]
    );
}

#[test]
fn three_gib_allocation_is_kept_in_mebibytes() {
    let parent = ProcessUid::parent();
    let mut tracker = new_tracker();
    let id = tracker.get_callstack_id(&Callstack::new());
    tracker.add_allocation(parent, 0x200, 3_221_225_472, id);
    assert_eq!(tracker.get_allocation_size(parent, 0x200), 3072 * MIB);
    assert_eq!(tracker.get_current_allocated_bytes(), 3_221_225_472);
    assert_eq!(tracker.current_memory_usage(), vec![3_221_225_472]);
    assert_eq!(tracker.free_allocation(parent, 0x200), Some(3_221_225_472));
    assert_eq!(tracker.current_memory_usage(), vec![0]);
}

#[test]
fn partial_mmap_release_splits_the_mapping() {
    let parent = ProcessUid::parent();
    let mut tracker = new_tracker();
    let path = tracker.get_callstack_id(&Callstack::new());
    tracker.add_anon_mmap(parent, 0x10_000, 4096, path);
    assert_eq!(tracker.get_current_allocated_bytes(), 4096);
    tracker.free_anon_mmap(parent, 0x10_100, 2048);
    assert_eq!(tracker.mapped_size(parent), 2048);
    assert_eq!(tracker.get_current_allocated_bytes(), 2048);
    let by_start = tracker.mappings_by_start(parent);
    assert_eq!(by_start.len(), 2);
    assert_eq!(by_start[&0x10_000], (0x100, path));
    assert_eq!(by_start[&0x10_900], (0x11_000 - 0x10_900, path));
}

#[test]
fn correct_allocation_size_tracked() {
    let parent = ProcessUid::parent();
    for size in [1usize, 77, 1 << 20, (1 << 31) - 1, 1 << 31, (1 << 40) + 12345, (1 << 50) - 1] {
        let mut tracker = new_tracker();
        let cs_id = tracker.get_callstack_id(&Callstack::new());
        tracker.add_allocation(parent, 0, size, cs_id);
        tracker.add_anon_mmap(parent, 1, size * 2, cs_id);
        // We don't track (large) allocations exactly right, but they should
        // be quite close:
        let kept = tracker.current_memory_usage()[0];
        let diff = if kept > size * 3 {
            kept - size * 3
        } else {
            size * 3 - kept
        };
        assert!(diff <= MIB / 2);
        tracker.free_allocation(parent, 0);
        tracker.free_anon_mmap(parent, 1, size * 2);
        // Once we've freed everything, it should be _exactly_ 0.
        assert_eq!(tracker.current_memory_usage(), vec![0]);
        assert_eq!(tracker.get_current_allocated_bytes(), 0);
        tracker.check_if_new_peak();
        assert_eq!(
            tracker.peak_memory_usage().iter().sum::<usize>(),
            tracker.get_peak_allocated_bytes()
        );
    }
}

fn sizes(seed: u64, n: usize) -> Vec<(u32, usize)> {
    let mut state = seed;
    let mut out = Vec::new();
    for _ in 0..n {
        state = state
            .wrapping_mul(6364136223846793005)
            .wrapping_add(1442695040888963407);
        let process = ((state >> 33) % 2) as u32;
        let size = 1 + ((state >> 40) % 99) as usize;
        out.push((process, size));
    }
    out
}

#[test]
fn current_allocated_matches_sum_of_allocations() {
    for seed in 1..6u64 {
        let allocated_sizes = sizes(seed, 15);
        let mut tracker = new_tracker();
        let mut expected_memory_usage = vec![];
        for (i, (process, allocation_size)) in allocated_sizes.iter().enumerate() {
            let mut cs = Callstack::new();
            cs.start_call(0, CallSiteId::new(FunctionId::new(i as u64), LineNumber(0)));
            let cs_id = tracker.get_callstack_id(&cs);
            tracker.add_allocation(ProcessUid(*process), i, *allocation_size, cs_id);
            expected_memory_usage.push(*allocation_size);
        }
        let mut expected_sum: usize = allocated_sizes.iter().map(|t| t.1).sum();
        let expected_peak = expected_sum;
        assert_eq!(tracker.get_current_allocated_bytes(), expected_sum);
        assert_eq!(tracker.current_memory_usage(), expected_memory_usage);
        for i in [0usize, 3, 4, 9] {
            let (process, expected_removed) = allocated_sizes[i];
            expected_sum -= expected_removed;
            let removed = tracker.free_allocation(ProcessUid(process), i);
            assert_eq!(removed, Some(expected_removed));
            expected_memory_usage[i] -= expected_removed;
            assert_eq!(tracker.get_current_allocated_bytes(), expected_sum);
            assert_eq!(tracker.current_memory_usage(), expected_memory_usage);
            assert_eq!(
                tracker.current_memory_usage().iter().sum::<usize>(),
                tracker.get_current_allocated_bytes()
            );
        }
        assert_eq!(tracker.get_peak_allocated_bytes(), expected_peak);
    }
}

#[test]
fn current_allocated_anon_maps_matches_sum_of_allocations() {
    for seed in 11..16u64 {
        let allocated_sizes = sizes(seed, 12);
        let mut tracker = new_tracker();
        let mut expected_memory_usage = vec![];
        for (i, (process, allocation_size)) in allocated_sizes.iter().enumerate() {
            let mut cs = Callstack::new();
            cs.start_call(0, CallSiteId::new(FunctionId::new(i as u64), LineNumber(0)));
            let csid = tracker.get_callstack_id(&cs);
            tracker.add_anon_mmap(ProcessUid(*process), i * 10000, *allocation_size, csid);
            expected_memory_usage.push(*allocation_size);
        }
        let mut expected_sum: usize = allocated_sizes.iter().map(|t| t.1).sum();
        let expected_peak = expected_sum;
        assert_eq!(tracker.get_current_allocated_bytes(), expected_sum);
        for i in [1usize, 2, 7] {
            let (process, allocation_size) = allocated_sizes[i];
            expected_sum -= allocation_size;
            tracker.free_anon_mmap(ProcessUid(process), i * 10000, allocation_size);
            expected_memory_usage[i] -= allocation_size;
            assert_eq!(tracker.get_current_allocated_bytes(), expected_sum);
            assert_eq!(tracker.current_memory_usage(), expected_memory_usage);
        }
        assert_eq!(tracker.get_peak_allocated_bytes(), expected_peak);
    }
}

#[test]
fn drop_process_removes_that_process_allocations_and_mmaps() {
    for seed in 21..26u64 {
        let allocated_sizes = sizes(seed, 14);
        let allocated_mmaps = sizes(seed + 100, 13);
        let mut tracker = new_tracker();
        let mut expected_memory_usage: usize = 0;
        for (i, (process, allocation_size)) in allocated_sizes.iter().enumerate() {
            let mut cs = Callstack::new();
            cs.start_call(0, CallSiteId::new(FunctionId::new(i as u64), LineNumber(0)));
            let cs_id = tracker.get_callstack_id(&cs);
            tracker.add_allocation(ProcessUid(*process), i, *allocation_size, cs_id);
            expected_memory_usage += allocation_size;
        }
        for (i, (process, allocation_size)) in allocated_mmaps.iter().enumerate() {
            let mut cs = Callstack::new();
            cs.start_call(0, CallSiteId::new(FunctionId::new(i as u64), LineNumber(0)));
            let csid = tracker.get_callstack_id(&cs);
            tracker.add_anon_mmap(ProcessUid(*process), i * 10000, *allocation_size, csid);
            expected_memory_usage += allocation_size;
        }
        assert_eq!(tracker.get_current_allocated_bytes(), expected_memory_usage);
        let expected_peak = expected_memory_usage;
        let to_drop = ProcessUid(1);
        tracker.drop_process(to_drop);
        expected_memory_usage -= allocated_sizes
            .iter()
            .filter(|(p, _)| ProcessUid(*p) == to_drop)
            .map(|(_, size)| size)
            .sum::<usize>();
        expected_memory_usage -= allocated_mmaps
            .iter()
            .filter(|(p, _)| ProcessUid(*p) == to_drop)
            .map(|(_, size)| size)
            .sum::<usize>();
        assert_eq!(tracker.get_current_allocated_bytes(), expected_memory_usage);
        assert_eq!(tracker.get_peak_allocated_bytes(), expected_peak);
        assert_eq!(
            tracker.current_memory_usage().iter().sum::<usize>(),
            expected_memory_usage
        );
        // No record of the process is left.
        assert_eq!(tracker.mapped_size(to_drop), 0);
        for i in 0..allocated_sizes.len() {
            assert_eq!(tracker.get_allocation_size(to_drop, i), 0);
        }
        assert_eq!(tracker.process_count(), 1);
    }
}

#[test]
fn observing_the_peak_twice_changes_nothing() {
    let parent = ProcessUid::parent();
    let mut tracker = new_tracker();
    let id = tracker.get_callstack_id(&Callstack::new());
    tracker.add_allocation(parent, 8, 500, id);
    tracker.check_if_new_peak();
    let peak = tracker.get_peak_allocated_bytes();
    let totals = tracker.peak_memory_usage();
    tracker.check_if_new_peak();
    assert_eq!(tracker.get_peak_allocated_bytes(), peak);
    assert_eq!(tracker.peak_memory_usage(), totals);
    assert_eq!(tracker.get_current_allocated_bytes(), 500);
}

#[test]
fn add_then_free_returns_to_the_state_before() {
    let parent = ProcessUid::parent();
    let mut tracker = new_tracker();
    let a = tracker.get_callstack_id(&Callstack::new());
    tracker.add_allocation(parent, 1, 10, a);
    let before_totals = tracker.current_memory_usage();
    let before = tracker.get_current_allocated_bytes();
    tracker.add_allocation(parent, 2, 12345, a);
    assert_eq!(tracker.free_allocation(parent, 2), Some(12345));
    assert_eq!(tracker.current_memory_usage(), before_totals);
    assert_eq!(tracker.get_current_allocated_bytes(), before);
}

#[test]
fn reset_leaves_no_bytes_and_no_peak_but_keeps_ids() {
    let parent = ProcessUid::parent();
    let mut tracker = new_tracker();
    let mut cs = Callstack::new();
    cs.start_call(0, CallSiteId::new(FunctionId::new(0), LineNumber(3)));
    let first = tracker.get_callstack_id(&Callstack::new());
    let second = tracker.get_callstack_id(&cs);
    tracker.add_allocation(parent, 1, 10, first);
    tracker.add_anon_mmap(ProcessUid(4), 4096, 8192, second);
    tracker.check_if_new_peak();
    tracker.reset("/elsewhere".to_string());
    assert_eq!(tracker.get_current_allocated_bytes(), 0);
    assert_eq!(tracker.get_peak_allocated_bytes(), 0);
    assert_eq!(tracker.current_memory_usage(), vec![0, 0]);
    assert!(tracker.peak_memory_usage().is_empty());
    assert_eq!(tracker.default_path(), "/elsewhere");
    assert_eq!(tracker.get_allocation_size(parent, 1), 0);
    assert_eq!(tracker.mapped_size(ProcessUid(4)), 0);
    assert_eq!(tracker.process_count(), 1);
    // Ids that were handed out stay good.
    assert_eq!(tracker.get_callstack_id(&cs), second);
    assert_eq!(tracker.callstack_count(), 2);
    tracker.add_allocation(parent, 1, 10, second);
    assert_eq!(tracker.current_memory_usage(), vec![0, 10]);
    // A second reset changes nothing more.
    tracker.reset("/elsewhere".to_string());
    tracker.reset("/elsewhere".to_string());
    assert_eq!(tracker.current_memory_usage(), vec![0, 0]);
}

#[test]
fn an_allocation_over_a_live_address_counts_the_old_one_as_missing() {
    let parent = ProcessUid::parent();
    let mut tracker = new_tracker();
    let mut cs = Callstack::new();
    cs.start_call(0, CallSiteId::new(FunctionId::new(0), LineNumber(3)));
    let first = tracker.get_callstack_id(&Callstack::new());
    let second = tracker.get_callstack_id(&cs);
    tracker.add_allocation(parent, 64, 100, first);
    tracker.add_allocation(parent, 64, 30, second);
    assert_eq!(tracker.current_memory_usage(), vec![0, 30]);
    assert_eq!(tracker.get_current_allocated_bytes(), 30);
    assert_eq!(tracker.get_missing_allocated_bytes(), 100);
    assert_eq!(tracker.get_allocation_size(parent, 64), 30);
}

#[test]
fn frees_of_unknown_addresses_are_counted_in_debug_mode_only() {
    let parent = ProcessUid::parent();
    let mut tracker =
        AllocationTracker::with_options(".".to_string(), VecFunctionLocations::new(), Some(7), true);
    assert!(tracker.is_debug_mode());
    assert_eq!(tracker.free_allocation(parent, 1), None);
    assert_eq!(tracker.free_allocation(ProcessUid(9), 1), None);
    assert_eq!(tracker.get_failed_deallocations(), 2);
    let mut quiet = new_tracker();
    assert_eq!(quiet.free_allocation(parent, 1), None);
    assert_eq!(quiet.get_failed_deallocations(), 0);
}

#[test]
fn breaking_the_glass_lets_go_of_allocations_and_peak_only() {
    let parent = ProcessUid::parent();
    let mut tracker = new_tracker();
    let id = tracker.get_callstack_id(&Callstack::new());
    tracker.add_allocation(parent, 1, 10, id);
    tracker.add_anon_mmap(parent, 4096, 100, id);
    tracker.check_if_new_peak();
    tracker.oom_break_glass();
    assert_eq!(tracker.get_allocation_size(parent, 1), 0);
    assert!(tracker.peak_memory_usage().is_empty());
    assert_eq!(tracker.mapped_size(parent), 100);
    assert_eq!(tracker.current_memory_usage(), vec![110]);
    assert_eq!(tracker.get_current_allocated_bytes(), 110);
    assert_eq!(tracker.get_peak_allocated_bytes(), 110);
    // The address is unknown now.
    assert_eq!(tracker.free_allocation(parent, 1), None);
    assert_eq!(tracker.get_current_allocated_bytes(), 110);
}

#[test]
fn call_path_ids_are_dense_and_stable() {
    let mut tracker = new_tracker();
    let mut ids = vec![];
    for i in 0..20u64 {
        let mut cs = Callstack::new();
        cs.start_call(0, CallSiteId::new(FunctionId::new(i), LineNumber(1)));
        ids.push(tracker.get_callstack_id(&cs));
    }
    assert_eq!(ids, (0..20u32).collect::<Vec<u32>>());
    for i in 0..20u64 {
        let mut cs = Callstack::new();
        cs.start_call(0, CallSiteId::new(FunctionId::new(i), LineNumber(1)));
        assert_eq!(tracker.get_callstack_id(&cs), i as u32);
        assert!(tracker.knows_callstack(&cs));
    }
    assert_eq!(tracker.current_memory_usage(), vec![0; 20]);
}

#[test]
fn a_zero_parent_line_does_not_rewrite_the_callers_line() {
    let f = FunctionId::new(1);
    let mut cs = Callstack::new();
    cs.start_call(0, CallSiteId::new(f, LineNumber(5)));
    cs.start_call(0, CallSiteId::new(f, LineNumber(6)));
    assert_eq!(
        cs.to_vec(),
        vec![CallSiteId::new(f, LineNumber(5)), CallSiteId::new(f, LineNumber(6))]
    );
    cs.start_call(9, CallSiteId::new(f, LineNumber(7)));
    assert_eq!(cs.to_vec()[1], CallSiteId::new(f, LineNumber(9)));
    assert_eq!(cs.to_vec()[0], CallSiteId::new(f, LineNumber(5)));
}

#[test]
fn the_remembered_id_is_forgotten_on_call_and_return() {
    let f = FunctionId::new(1);
    let mut cs = Callstack::new();
    cs.start_call(0, CallSiteId::new(f, LineNumber(5)));
    let mut asked = 0;
    let id = cs.id_for_new_allocation(5, |_| {
        asked += 1;
        41
    });
    assert_eq!(id, 41);
    assert_eq!(cs.cached_id(5), Some(41));
    assert_eq!(cs.cached_id(6), None);
    // A second allocation at the line does not ask again.
    let again = cs.id_for_new_allocation(5, |_| {
        asked += 1;
        42
    });
    assert_eq!(again, 41);
    assert_eq!(asked, 1);
    cs.start_call(0, CallSiteId::new(f, LineNumber(6)));
    assert_eq!(cs.cached_id(5), None);
    cs.remember_id(6, 3);
    assert_eq!(cs.cached_id(6), Some(3));
    cs.finish_call();
    assert_eq!(cs.cached_id(6), None);
    assert_eq!(cs.len(), 1);
    // Leaving a call path without frames changes nothing.
    cs.finish_call();
    cs.finish_call();
    assert_eq!(cs.len(), 0);
}

#[test]
fn a_pending_line_counts_as_line_zero() {
    assert_eq!(LineNumberInfo::LineNumber(17).get_line_number(), 17);
    assert_eq!(LineNumberInfo::BytecodeIndex(17).get_line_number(), 0);
    assert_eq!(FunctionId::new(12).as_u64(), 12);
    assert_eq!(FunctionId::unknown().as_u64(), u64::MAX);
}

#[test]
fn validation_tells_whether_the_totals_are_those_of_the_records() {
    let parent = ProcessUid::parent();
    let mut tracker = new_tracker();
    assert!(tracker.validate());
    let id = tracker.get_callstack_id(&Callstack::new());
    tracker.add_allocation(parent, 1, 10, id);
    tracker.add_anon_mmap(ProcessUid(2), 4096, 100, id);
    // The peak has not been looked at yet.
    assert!(!tracker.validate());
    tracker.check_if_new_peak();
    assert!(tracker.validate());
    tracker.free_anon_mmap(ProcessUid(2), 4096, 50);
    tracker.drop_process(ProcessUid(2));
    assert!(tracker.validate());
    tracker.add_allocation(parent, 2, 20, id);
    tracker.oom_break_glass();
    tracker.check_if_new_peak();
    // The records were let go of, the totals were not.
    assert!(!tracker.validate());
    tracker.reset(".".to_string());
    assert!(tracker.validate());
}

#[test]
fn a_traceback_has_a_frame_to_a_line() {
    let mut tracker = new_tracker();
    let f = tracker
        .functions
        .add_function("a.py".to_string(), "f".to_string());
    let g = tracker
        .functions
        .add_function("b.py".to_string(), "g".to_string());
    let mut cs = Callstack::new();
    cs.start_call(0, CallSiteId::new(f, LineNumber(1)));
    cs.start_call(0, CallSiteId::new(g, LineNumber(2)));
    let id = tracker.get_callstack_id(&cs);
    assert_eq!(
        tracker.print_traceback("The allocation from this traceback disappeared:", id, ""),
        "=fil-profile= The allocation from this traceback disappeared:\n=| a.py:1 (f)\n=| b.py:2 (g)"
    );
}

#[test]
fn the_data_of_a_flame_graph_is_the_call_paths_worth_showing() {
    let parent = ProcessUid::parent();
    let mut tracker = new_tracker();
    let f = tracker
        .functions
        .add_function("a.py".to_string(), "f".to_string());
    let mut small = Callstack::new();
    small.start_call(0, CallSiteId::new(f, LineNumber(1)));
    let mut big = Callstack::new();
    big.start_call(0, CallSiteId::new(f, LineNumber(2)));
    let mut none = Callstack::new();
    none.start_call(0, CallSiteId::new(f, LineNumber(3)));
    let small_id = tracker.get_callstack_id(&small);
    let none_id = tracker.get_callstack_id(&none);
    let big_id = tracker.get_callstack_id(&big);
    tracker.add_allocation(parent, 1, 10, small_id);
    tracker.add_allocation(parent, 2, 1000, big_id);
    tracker.add_allocation(parent, 3, 5, none_id);
    tracker.free_allocation(parent, 3);
    assert_eq!(tracker.combine_callstacks(false), vec![(big_id, 1000), (small_id, 10)]);
    assert_eq!(
        tracker.combine_callstacks(true),
        vec![(big_id, 1000), (small_id, 10), (none_id, 5)]
    );
    let data = tracker.callstacks_with_sizes(false);
    assert_eq!(data.len(), 2);
    assert_eq!(data[0].0.to_vec(), big.to_vec());
    assert_eq!(data[0].1, 1000);
    assert_eq!(data[1].0.to_vec(), small.to_vec());
    assert_eq!(data[1].1, 10);
    assert!(data[0].0.is_known_in(tracker.functions()));
    let mut stranger = Callstack::new();
    stranger.start_call(0, CallSiteId::new(FunctionId::new(7), LineNumber(3)));
    assert!(!stranger.is_known_in(tracker.functions()));
    assert!(tracker.functions().is_known(FunctionId::unknown()));
    assert_eq!(tracker.callstack(big_id).to_vec(), big.to_vec());
    assert_eq!(
        tracker.allocation_at(parent, 2).map(|held| (held.callstack_id(), held.size())),
        Some((big_id, 1000))
    );
    assert_eq!(tracker.allocation_at(parent, 3), None);
    assert!(tracker.holds(parent, 1));
    assert!(!tracker.holds(ProcessUid(5), 1));
}

#[test]
fn a_copy_of_a_call_path_has_its_frames_and_what_it_remembers() {
    let f = FunctionId::new(1);
    let mut cs = Callstack::new();
    cs.start_call(0, CallSiteId::new(f, LineNumber(5)));
    cs.remember_id(5, 9);
    let copy = cs.clone();
    assert_eq!(copy.to_vec(), cs.to_vec());
    assert_eq!(copy.cached_id(5), Some(9));
    assert!(copy.same_calls(&cs));
    cs.start_call(0, CallSiteId::new(f, LineNumber(6)));
    assert!(!copy.same_calls(&cs));
    assert_eq!(copy.len(), 1);
    // Call paths are the same where their frames are, whatever they
    // remember.
    let plain = Callstack::from_vec(copy.to_vec());
    assert_eq!(plain.cached_id(5), None);
    assert!(plain.same_calls(&copy));
    assert!(plain == copy);
    assert!(plain != cs);
}

#[test]
fn many_call_paths_are_interned_and_found_again() {
    for mut interner in [CallstackInterner::new(), CallstackInterner::with_seed(Some(12345))] {
        let path = |i: u64| {
            let mut cs = Callstack::new();
            cs.start_call(0, CallSiteId::new(FunctionId::new(i % 7), LineNumber(i as u32)));
            cs.start_call(0, CallSiteId::new(FunctionId::new(i / 7), LineNumber(1)));
            cs
        };
        for i in 0..500u64 {
            assert_eq!(interner.find(&path(i)), None);
            assert_eq!(interner.intern(&path(i)), (i as u32, true));
        }
        assert_eq!(interner.len(), 500);
        for i in (0..500u64).rev() {
            assert_eq!(interner.find(&path(i)), Some(i as u32));
            assert_eq!(interner.intern(&path(i)), (i as u32, false));
            assert!(interner.callstack(i as u32).same_calls(&path(i)));
        }
        assert_eq!(interner.find(&path(500)), None);
        assert_eq!(interner.len(), 500);
        assert_eq!(interner.get_reverse_map().len(), 500);
    }
}
