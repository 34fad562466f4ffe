//! Bookkeeping core of a deterministic allocation profiler: which call paths
//! hold how many bytes now, and which held them at the high-water mark.
//!
//! Every allocation that the allocator shim reports is recorded with the
//! call path that made it ([`tracker`]); the call paths are kept as numbers
//! ([`interner`]), as are the functions in them ([`callsite`]). What always
//! holds of the tracker's state is said once, over plain values
//! ([`accounting`]), and shown for every run of operations ([`history`]).
//! At the end the call paths that matter are picked ([`flamegraph`]) and
//! written as lines of text, from which a renderer draws the picture whose
//! text is then put right ([`svg`]).

/// What a tracker holds, as plain values, and what each operation makes of
/// it.
pub mod accounting;
/// One tracked heap allocation, in eight bytes.
pub mod allocation;
/// The steps that the allocator shim's reports are made of.
pub mod api;
/// Functions and call sites, by number.
pub mod callsite;
/// Memory per call, for each call that is under way.
pub mod callstack;
/// The control groups of a process, as the kernel lists them.
pub mod cgroup;
/// Which call paths a flame graph shows, and each as a line of text.
pub mod flamegraph;
/// What holds of a tracker after any run of operations.
pub mod history;
/// Call paths by number.
pub mod interner;
/// Source lines, as far as they have been fetched.
pub mod linecache;
/// The call path of a thread, and its text in a profile.
pub mod memorytracking;
/// What is done before memory is unmapped.
pub mod mmap;
/// When memory counts as run out.
pub mod oom;
/// What the threads of the program are doing, from samples.
pub mod performancetracking;
/// Address ranges that can be released piecewise.
pub mod rangemap;
/// Samples in descending order of their counts.
pub mod sorting;
/// What the renderer is asked for, and what is made of what it returns.
pub mod svg;
/// Numbers in decimal, white space, pieces joined.
pub mod text;
/// The tracker itself.
pub mod tracker;
/// Per-path byte totals in a persistent vector.
pub mod usage;
/// Hash maps, and the settings that a user can make.
pub mod util;
