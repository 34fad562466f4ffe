use pymemprofile_api::callsite::LineNumberInfo::BytecodeIndex;
use pymemprofile_api::callsite::LineNumberInfo::LineNumber;
use pymemprofile_api::callsite::{CallSiteId, FunctionId, FunctionLocations, VecFunctionLocations};
use pymemprofile_api::flamegraph::{
    drop_empty, filter_to_useful_callstacks, same_callstack, to_line, CallstackCleaner,
    FlamegraphCallstacks, IdentityCleaner,
};
use pymemprofile_api::linecache::LineCacher;
use pymemprofile_api::memorytracking::{push_excerpt, runpy_prefix_length, Callstack};
use pymemprofile_api::sorting::{larger_first, sort_descending};
use pymemprofile_api::svg::{
    finish_flamegraph, flamegraph_options, output_files, post_process_svg, replace_all,
    FlamegraphError, Profile,
    SUBTITLE_PLACEHOLDER,
};
use std::borrow::Cow;
use std::cmp::Ordering;

#[test]
fn filter_keeps_all_of_a_few_entries_largest_first() {
    let samples = vec![("c", 30), ("a", 1000), ("e", 10), ("b", 50), ("d", 20)];
    assert_eq!(
        filter_to_useful_callstacks(samples, 1110),
        vec![("a", 1000), ("b", 50), ("c", 30), ("d", 20), ("e", 10)]
    );
}

#[test]
fn filter_drops_entries_without_samples() {
    let samples = vec![(1, 0), (2, 5), (3, 0), (4, 7), (5, 0)];
    assert_eq!(filter_to_useful_callstacks(samples.clone(), 12), vec![(4, 7), (2, 5)]);
    assert_eq!(drop_empty(samples), vec![(2, 5), (4, 7)]);
    assert_eq!(filter_to_useful_callstacks(Vec::<(u8, usize)>::new(), 0), vec![]);
    assert_eq!(filter_to_useful_callstacks(vec![(1, 0)], 0), vec![]);
}

#[test]
fn sorting_is_stable() {
    let samples = vec![("a", 5), ("b", 7), ("c", 5), ("d", 7), ("e", 5), ("f", 9)];
    assert_eq!(
        sort_descending(samples),
        vec![("f", 9), ("b", 7), ("d", 7), ("a", 5), ("c", 5), ("e", 5)]
    );
    assert_eq!(larger_first(3, 2), Ordering::Less);
    assert_eq!(larger_first(2, 2), Ordering::Equal);
    assert_eq!(larger_first(2, 3), Ordering::Greater);
}

#[test]
fn filter_stops_past_99_percent_but_not_before_100_entries() {
    // One huge entry and 300 tiny ones.
    let mut samples: Vec<(usize, usize)> = vec![(0, 1_000_000)];
    for i in 1..=300 {
        samples.push((i, 1));
    }
    let total: usize = samples.iter().map(|s| s.1).sum();
    let kept = filter_to_useful_callstacks(samples, total);
    // The first entry alone is past 99%, 99 more are kept for context.
    assert_eq!(kept.len(), 100);
    assert_eq!(kept[0], (0, 1_000_000));
    assert_eq!(kept[99], (99, 1));
}

#[test]
fn filter_stops_as_soon_as_99_percent_are_passed_after_100_entries() {
    // 200 equal entries: 99% of 2000 is 1980, which 198 entries reach and
    // 199 pass.
    let samples: Vec<(usize, usize)> = (0..200).map(|i| (i, 10)).collect();
    let kept = filter_to_useful_callstacks(samples, 2000);
    assert_eq!(kept.len(), 199);
    let sum: usize = kept.iter().map(|s| s.1).sum();
    assert!(sum > 1980);
    // Removing any single entry takes the sum to or below 99%.
    for (_, value) in kept.iter() {
        assert!(sum - value <= 1980);
    }
}

#[test]
fn filter_keeps_no_more_than_ten_thousand() {
    let samples: Vec<(usize, usize)> = (0..15_000).map(|i| (i, 1 + i % 7)).collect();
    let total: usize = samples.iter().map(|s| s.1).sum();
    let kept = filter_to_useful_callstacks(samples.clone(), total);
    assert_eq!(kept.len(), 10_000);
    let kept_sum: usize = kept.iter().map(|s| s.1).sum();
    assert!(kept_sum < (99 * total) / 100);
    let mut sorted: Vec<usize> = samples.iter().map(|s| s.1).collect();
    sorted.sort_by(|a, b| b.cmp(a));
    assert_eq!(kept_sum, sorted.iter().take(10_000).sum::<usize>());
    for window in kept.windows(2) {
        assert!(window[0].1 >= window[1].1);
    }
    assert!(kept.iter().all(|s| s.1 > 0));
}

#[test]
fn filtering_of_callstacks() {
    for seed in 0..30u64 {
        let mut state = seed;
        let mut next = |bound: u64| {
            state = state
                .wrapping_mul(6364136223846793005)
                .wrapping_add(1442695040888963407);
            ((state >> 33) % bound) as usize
        };
        let count = 5 + next(400);
        let allocated_sizes: Vec<usize> = (0..count).map(|_| next(1000)).collect();
        let total_size: usize = allocated_sizes.iter().sum();
        let total_size_99 = (99 * total_size) / 100;
        let callstacks: Vec<(usize, usize)> =
            allocated_sizes.iter().enumerate().map(|(i, v)| (i, *v)).collect();
        let filtered = filter_to_useful_callstacks(callstacks, total_size);
        let filtered_size: usize = filtered.iter().map(|s| s.1).sum();
        if filtered_size >= total_size_99 {
            if filtered.len() > 100 {
                // Removing any item should take us to or below 99%
                for (_, value) in filtered.iter() {
                    assert!(filtered_size - *value <= total_size_99)
                }
            }
        } else {
            // Cut out before 99%, so must be too many items
            assert_eq!(filtered.len(), 10000);
        }
    }
}

fn catalog() -> (VecFunctionLocations, FunctionId, FunctionId, FunctionId) {
    let mut functions = VecFunctionLocations::new();
    let main = functions.add_function("/app/main.py".to_string(), "main".to_string());
    let runpy = functions.add_function("/lib/runpy.py".to_string(), "_run_code".to_string());
    let frozen = functions.add_function("<frozen runpy>".to_string(), "_run_module".to_string());
    (functions, main, runpy, frozen)
}

#[test]
fn a_call_path_without_frames_has_a_text_of_its_own() {
    let (functions, _, _, _) = catalog();
    let cache = LineCacher::new();
    assert_eq!(
        Callstack::new().as_string(false, &functions, ";", "/lib/runpy.py", &cache),
        "[No Python stack]"
    );
    assert_eq!(
        to_line(&Callstack::new(), 12, true, &functions, "/lib/runpy.py", &cache),
        "[No Python stack] 12"
    );
}

#[test]
fn frames_are_joined_and_leading_runpy_frames_left_out() {
    let (functions, main, runpy, frozen) = catalog();
    let cache = LineCacher::new();
    let calls = vec![
        CallSiteId::new(frozen, LineNumber(198)),
        CallSiteId::new(runpy, LineNumber(88)),
        CallSiteId::new(main, LineNumber(3)),
        CallSiteId::new(runpy, LineNumber(4)),
        CallSiteId::new(main, LineNumber(1234567890)),
    ];
    assert_eq!(runpy_prefix_length(&calls, &functions, "/lib/runpy.py"), 2);
    assert_eq!(runpy_prefix_length(&calls, &functions, "/other/runpy.py"), 1);
    let callstack = Callstack::from_vec(calls);
    assert_eq!(
        callstack.as_string(false, &functions, ";", "/lib/runpy.py", &cache),
        "/app/main.py:3 (main);/lib/runpy.py:4 (_run_code);/app/main.py:1234567890 (main)"
    );
    assert_eq!(
        callstack.as_string(false, &functions, "\n=| ", "/elsewhere", &cache),
        "/lib/runpy.py:88 (_run_code)\n=| /app/main.py:3 (main)\n=| /lib/runpy.py:4 (_run_code)\n=| /app/main.py:1234567890 (main)"
    );
}

#[test]
fn a_call_path_of_runpy_frames_only_is_shown_whole() {
    let (functions, _, runpy, frozen) = catalog();
    let cache = LineCacher::new();
    let calls = vec![
        CallSiteId::new(frozen, LineNumber(1)),
        CallSiteId::new(runpy, LineNumber(2)),
    ];
    assert_eq!(runpy_prefix_length(&calls, &functions, "/lib/runpy.py"), 0);
    assert_eq!(
        Callstack::from_vec(calls).as_string(false, &functions, ";", "/lib/runpy.py", &cache),
        "<frozen runpy>:1 (_run_module);/lib/runpy.py:2 (_run_code)"
    );
}

#[test]
fn the_unknown_function_and_a_pending_line_are_shown() {
    let (functions, main, _, _) = catalog();
    let cache = LineCacher::new();
    let callstack = Callstack::from_vec(vec![
        CallSiteId::new(FunctionId::unknown(), LineNumber(0)),
        CallSiteId::new(main, BytecodeIndex(40)),
    ]);
    assert_eq!(
        callstack.as_string(false, &functions, ";", "", &cache),
        "UNKNOWN DUE TO BUG:0 (UNKNOWN);/app/main.py:0 (main)"
    );
}

#[test]
fn post_processed_frames_show_their_source_line() {
    let (functions, main, _, _) = catalog();
    let mut cache = LineCacher::new();
    cache.store("/app/main.py".to_string(), 3, "    x = [1; 2]  \n".to_string());
    cache.store("/app/main.py".to_string(), 5, "old\n".to_string());
    cache.store("/app/main.py".to_string(), 5, "y = f(x) ; z\t \r\n".to_string());
    let callstack = Callstack::from_vec(vec![
        CallSiteId::new(main, LineNumber(3)),
        CallSiteId::new(main, LineNumber(4)),
        CallSiteId::new(main, LineNumber(5)),
        CallSiteId::new(main, LineNumber(0)),
    ]);
    let text = callstack.as_string(true, &functions, ";", "", &cache);
    assert_eq!(
        text,
        "/app/main.py:3 (main);\u{2800}\u{12e4}\u{12e4}\u{12e4}\u{12e4}x\u{12e4}=\u{12e4}[1\u{ff1b}\u{12e4}2]\u{12e4}\u{12e4};\
/app/main.py:4 (main);\u{2800};\
/app/main.py:5 (main);\u{2800}y\u{12e4}=\u{12e4}f(x)\u{12e4}\u{ff1b}\u{12e4}z\t\u{12e4};\
/app/main.py:0 (main);\u{2800}"
    );
    // Each frame is followed by one frame for its source line, which holds
    // no space, semicolon or line feed.
    let frames: Vec<&str> = text.split(';').collect();
    assert_eq!(frames.len(), 8);
    for excerpt in frames.iter().skip(1).step_by(2) {
        assert!(excerpt.starts_with('\u{2800}'));
        assert!(!excerpt.contains(' '));
        assert!(!excerpt.contains('\n'));
    }
    assert_eq!(cache.get_source_line("/app/main.py", 5), "y = f(x) ; z\t \r\n");
    assert_eq!(cache.get_source_line("/app/main.py", 0), "");
    assert_eq!(cache.get_source_line("/app/main.py", 6), "");
    assert_eq!(cache.get_source_line("/app/other.py", 5), "");
}

#[test]
fn a_source_text_of_two_lines_shows_its_first_line_only() {
    let (functions, main, _, _) = catalog();
    let mut cache = LineCacher::new();
    cache.store("/app/main.py".to_string(), 1, "a\nb".to_string());
    cache.store("/app/main.py".to_string(), 2, "c d;\n e\n".to_string());
    cache.store("/app/main.py".to_string(), 3, "\nf".to_string());
    assert_eq!(cache.get_source_line("/app/main.py", 1), "a\nb");
    let callstack = Callstack::from_vec(vec![
        CallSiteId::new(main, LineNumber(1)),
        CallSiteId::new(main, LineNumber(2)),
        CallSiteId::new(main, LineNumber(3)),
    ]);
    let text = callstack.as_string(true, &functions, ";", "", &cache);
    assert_eq!(
        text,
        "/app/main.py:1 (main);\u{2800}a;\
/app/main.py:2 (main);\u{2800}c\u{12e4}d\u{ff1b};\
/app/main.py:3 (main);\u{2800}"
    );
    assert!(!text.contains('\n'));
    let mut shown = String::from("x");
    push_excerpt(&mut shown, "a\nb");
    assert_eq!(shown, "xa");
}

struct DropInnermost;

impl CallstackCleaner for DropInnermost {
    fn cleanup<'a>(&self, callstack: &'a Callstack) -> Cow<'a, Callstack> {
        let mut shorter = callstack.clone();
        shorter.finish_call();
        Cow::Owned(shorter)
    }
}

#[test]
fn flamegraph_lines_follow_the_data_and_the_cleaner() {
    let (functions, main, runpy, _) = catalog();
    let (functions2, _, _, _) = catalog();
    let cache = LineCacher::new();
    let first = Callstack::from_vec(vec![
        CallSiteId::new(main, LineNumber(1)),
        CallSiteId::new(main, LineNumber(2)),
    ]);
    let second = Callstack::from_vec(vec![CallSiteId::new(runpy, LineNumber(9))]);
    assert_eq!(same_callstack(&first).to_vec(), first.to_vec());
    let data = vec![(first.clone(), 10), (second.clone(), 0), (Callstack::new(), 7)];
    let graph = FlamegraphCallstacks::new(data.clone(), functions, IdentityCleaner);
    assert_eq!(
        graph.to_lines(false, "/nowhere", &cache),
        vec![
            "/app/main.py:1 (main);/app/main.py:2 (main) 10",
            "/lib/runpy.py:9 (_run_code) 0",
            "[No Python stack] 7"
        ]
    );
    let graph = FlamegraphCallstacks::new(data, functions2, DropInnermost);
    assert_eq!(
        graph.to_lines(false, "/nowhere", &cache),
        vec!["/app/main.py:1 (main) 10", "[No Python stack] 0", "[No Python stack] 7"]
    );
}

#[test]
fn options_of_a_picture() {
    let options = flamegraph_options(false, "Peak Tracked Memory Usage", "bytes", true);
    assert_eq!(options.title, "Peak Tracked Memory Usage");
    assert_eq!(options.count_name, "bytes");
    assert_eq!(options.font_size, 16);
    assert_eq!(options.font_type, "monospace");
    assert_eq!(options.frame_height, 22);
    assert!(!options.reverse_stack_order);
    assert!(options.color_diffusion);
    assert!(options.inverted);
    assert_eq!(options.min_width_tenths, 2);
    assert!(options.pretty_xml);
    assert_eq!(options.subtitle, Some("__FIL-SUBTITLE-HERE__".to_string()));
    let options = flamegraph_options(true, "Performance", "samples", false);
    assert_eq!(options.title, "Performance, Reversed");
    assert!(options.reverse_stack_order);
    assert_eq!(options.subtitle, None);
}

fn chars(text: &str) -> Vec<char> {
    text.chars().collect()
}

#[test]
fn replacing_takes_occurrences_from_the_left() {
    assert_eq!(replace_all(&chars("aaaa"), &chars("aa"), &chars("b")), chars("bb"));
    assert_eq!(replace_all(&chars("aaa"), &chars("aa"), &chars("b")), chars("ba"));
    assert_eq!(replace_all(&chars("xaby"), &chars("ab"), &chars("")), chars("xy"));
    assert_eq!(replace_all(&chars("abc"), &chars(""), &chars("-")), chars("abc"));
    assert_eq!(replace_all(&chars("abc"), &chars("abcd"), &chars("-")), chars("abc"));
    assert_eq!(replace_all(&chars(""), &chars("a"), &chars("-")), chars(""));
    assert_eq!(
        replace_all(&chars("one two"), &chars(" "), &chars("__")),
        chars("one__two")
    );
}

#[test]
fn post_processing_puts_in_the_subtitle_and_restores_the_characters() {
    let svg = format!(
        "<text>{}</text><title>a.py:1\u{12e4}(f)\u{ff1b}\u{2800}x\u{12e4}=\u{12e4}1</title>",
        SUBTITLE_PLACEHOLDER
    );
    assert_eq!(
        post_process_svg(&svg, Some("Made with <a href=\"x\">Fil</a>")),
        "<text>Made with <a href=\"x\">Fil</a></text><title>a.py:1\u{a0}(f);x\u{a0}=\u{a0}1</title>"
    );
    assert_eq!(
        post_process_svg(&svg, None),
        "<text>__FIL-SUBTITLE-HERE__</text><title>a.py:1\u{a0}(f);x\u{a0}=\u{a0}1</title>"
    );
    assert_eq!(post_process_svg("", Some("s")), "");
}

#[test]
fn what_the_renderer_returned_is_finished() {
    let rendered = "\u{2800}__FIL-SUBTITLE-HERE__\u{ff1b}".as_bytes().to_vec();
    // A picture that needs no post-processing is passed on as it is.
    match finish_flamegraph(Ok(rendered.clone()), false, Some("sub")) {
        Ok(svg) => assert_eq!(svg, rendered),
        Err(_) => panic!("expected a picture"),
    }
    match finish_flamegraph(Ok(rendered), true, Some("sub")) {
        Ok(svg) => assert_eq!(svg, "sub;".as_bytes().to_vec()),
        Err(_) => panic!("expected a picture"),
    }
    // What is no text cannot be post-processed.
    assert!(matches!(
        finish_flamegraph(Ok(vec![0xff, 0xfe]), true, None),
        Err(FlamegraphError::NotUtf8)
    ));
    match finish_flamegraph(Ok(vec![0xff, 0xfe]), false, None) {
        Ok(svg) => assert_eq!(svg, vec![0xff, 0xfe]),
        Err(_) => panic!("expected a picture"),
    }
    // The renderer's failure is passed on.
    match finish_flamegraph(Err("no stack counts found".to_string()), true, None) {
        Err(FlamegraphError::Render(message)) => assert_eq!(message, "no stack counts found"),
        _ => panic!("expected the failure"),
    }
}

#[test]
fn the_files_of_a_profile() {
    let files = output_files("peak-memory");
    assert_eq!(files.raw, "peak-memory.prof");
    assert_eq!(files.raw_with_source, "peak-memory-source.prof");
    assert_eq!(files.svg, "peak-memory.svg");
    assert_eq!(files.reversed_svg, "peak-memory-reversed.svg");
    assert_eq!(output_files("out-of-memory").svg, "out-of-memory.svg");
    assert_eq!(output_files("performance").reversed_svg, "performance-reversed.svg");
}

#[test]
fn the_source_lines_that_a_picture_shows() {
    let (functions, main, runpy, _) = catalog();
    let first = Callstack::from_vec(vec![
        CallSiteId::new(runpy, LineNumber(88)),
        CallSiteId::new(main, LineNumber(1)),
        CallSiteId::new(main, LineNumber(0)),
        CallSiteId::new(runpy, LineNumber(2)),
    ]);
    let second = Callstack::from_vec(vec![CallSiteId::new(main, LineNumber(9))]);
    let data = vec![(first, 10), (Callstack::new(), 1), (second, 7)];
    let graph = FlamegraphCallstacks::new(data, functions, IdentityCleaner);
    assert_eq!(
        graph.source_lines("/lib/runpy.py"),
        vec![
            ("/app/main.py".to_string(), 1),
            ("/lib/runpy.py".to_string(), 2),
            ("/app/main.py".to_string(), 9)
        ]
    );
    assert_eq!(graph.source_lines("").len(), 4);
}

#[test]
fn the_three_profiles() {
    assert_eq!(Profile::PeakMemory.base_filename(), "peak-memory");
    assert_eq!(Profile::OutOfMemory.base_filename(), "out-of-memory");
    assert_eq!(Profile::Performance.base_filename(), "performance");
    assert_eq!(Profile::PeakMemory.title(), "Peak Tracked Memory Usage");
    assert_eq!(
        Profile::OutOfMemory.title(),
        "Current allocations at out-of-memory time"
    );
    assert_eq!(
        Profile::Performance.title(),
        "Performance: Combined per-thread runtime"
    );
    assert_eq!(Profile::PeakMemory.count_name(), "bytes");
    assert_eq!(Profile::OutOfMemory.count_name(), "bytes");
    assert_eq!(Profile::Performance.count_name(), "samples");
    assert!(Profile::PeakMemory.shows_peak());
    assert!(!Profile::OutOfMemory.shows_peak());
    assert!(!Profile::Performance.shows_peak());
    assert!(Profile::PeakMemory.is_post_processed());
    assert!(!Profile::OutOfMemory.is_post_processed());
    assert!(Profile::Performance.is_post_processed());
    assert_eq!(
        output_files(Profile::PeakMemory.base_filename()).raw,
        "peak-memory.prof"
    );
}

struct OneFile;

impl FunctionLocations for OneFile {
    fn get_function_and_filename(&self, id: FunctionId) -> (&str, &str) {
        if id.as_u64() % 2 == 0 {
            ("even", "numbers.py")
        } else {
            ("odd", "numbers.py")
        }
    }
}

#[test]
fn any_catalog_can_name_the_frames() {
    let callstack = Callstack::from_vec(vec![
        CallSiteId::new(FunctionId::new(4), LineNumber(1)),
        CallSiteId::new(FunctionId::new(7), LineNumber(2)),
    ]);
    assert_eq!(
        callstack.as_string(false, &OneFile, ";", "", &LineCacher::new()),
        "numbers.py:1 (even);numbers.py:2 (odd)"
    );
}
