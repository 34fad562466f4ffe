use pymemprofile_api::cgroup::get_cgroup_paths;
use pymemprofile_api::oom::{
    available_memory, cgroup_available_memory, endless, memory_pressure, minimal_required,
    InfiniteMemory, MemoryInfo, MemoryPressure, OutOfMemoryEstimator,
};
use std::cell::{Ref, RefCell};
use std::rc::Rc;

struct FakeMemory {
    available_memory: RefCell<usize>,
    swap: RefCell<usize>,
    checks: RefCell<Vec<usize>>,
}

impl FakeMemory {
    fn new() -> Rc<Self> {
        Rc::new(FakeMemory {
            available_memory: RefCell::new(1_000_000_000),
            checks: RefCell::new(vec![]),
            swap: RefCell::new(0),
        })
    }

    fn allocate(&self, size: usize) {
        let mut mem = self.available_memory.borrow_mut();
        *mem -= size;
    }

    fn add_swap(&self, size: usize) {
        *self.swap.borrow_mut() += size;
    }

    fn get_checks(&self) -> Ref<Vec<usize>> {
        self.checks.borrow()
    }

    fn get_allocated(&self) -> usize {
        1_000_000_000 - *self.available_memory.borrow()
    }
}

struct SharedMemory(Rc<FakeMemory>);

impl MemoryInfo for SharedMemory {
    fn total_memory(&self) -> usize {
        1_000_000_000
    }

    fn get_available_memory(&self) -> usize {
        self.0
            .checks
            .borrow_mut()
            .push(*self.0.available_memory.borrow());
        *self.0.available_memory.borrow()
    }

    fn get_resident_process_memory(&self) -> usize {
        self.0.get_allocated() - *self.0.swap.borrow()
    }

    fn print_info(&self) -> String {
        String::new()
    }
}

fn setup_estimator() -> (OutOfMemoryEstimator<SharedMemory>, Rc<FakeMemory>) {
    let fake_memory = FakeMemory::new();
    (
        OutOfMemoryEstimator::new(SharedMemory(fake_memory.clone())),
        fake_memory,
    )
}

// Random allocations don't break invariants
#[test]
fn not_oom() {
    for seed in 0..20u64 {
        let mut state = seed;
        let (mut estimator, memory_info) = setup_estimator();
        let mut allocated = 0;
        for _ in 0..1500 {
            state = state
                .wrapping_mul(6364136223846793005)
                .wrapping_add(1442695040888963407);
            let size = 1 + ((state >> 33) % 999) as usize;
            memory_info.allocate(size);
            allocated += size;
            let too_big = estimator.too_big_allocation(size, allocated);
            assert_eq!(
                too_big,
                estimator.memory_info.get_available_memory()
                    <= estimator.get_minimal_required_available_bytes()
            );
            if too_big {
                break;
            }
        }
    }
}

// We're out of memory if we're below the threshold.
#[test]
fn oom_threshold() {
    let (mut estimator, memory_info) = setup_estimator();
    assert!(!estimator.are_we_oom(memory_info.get_allocated()));
    memory_info.allocate(500_000_000);
    assert!(!estimator.are_we_oom(memory_info.get_allocated()));
    memory_info.allocate(350_000_000);
    assert!(!estimator.are_we_oom(memory_info.get_allocated()));
    memory_info.allocate(50_000_000);
    // Now that we're below the maximum, we've gone too far:
    assert!(estimator.are_we_oom(memory_info.get_allocated()));
    memory_info.allocate(40_000_000);
    assert!(estimator.are_we_oom(memory_info.get_allocated()));
}

// We're out of memory if swap > available.
#[test]
fn oom_swap() {
    let (mut estimator, memory_info) = setup_estimator();
    memory_info.allocate(500_000_001);
    assert!(!estimator.are_we_oom(memory_info.get_allocated()));

    memory_info.add_swap(499_999_999);
    assert!(!estimator.are_we_oom(memory_info.get_allocated()));

    memory_info.add_swap(2);
    assert!(estimator.are_we_oom(memory_info.get_allocated()));
}

// The intervals between checking if out-of-memory shrink as we get closer
// to running out of memory
#[test]
fn oom_estimator_shrinking_intervals() {
    let (mut estimator, memory_info) = setup_estimator();
    loop {
        memory_info.allocate(10_000);

        if estimator.too_big_allocation(10_000, memory_info.get_allocated()) {
            break;
        }
        // by 100MB we should have detected OOM.
        assert!(*memory_info.available_memory.borrow() >= 99_000_000);
    }
    let checks = memory_info.get_checks();
    // Each check should come closer than the next:
    for pair in checks.windows(2) {
        assert!(pair[0] >= pair[1], "{} vs {}", pair[0], pair[1]);
    }
    // In the beginning we check infrequently:
    assert!((checks[0] - checks[1]) > 9_000_000);
    // By the end we should be checking more frequently:
    let final_difference = checks[checks.len() - 2] - checks[checks.len() - 1];
    assert!(
        final_difference < 1_100_000,
        "final difference: {}",
        final_difference,
    );
}

#[test]
fn the_countdown_is_one_percent_of_what_is_available() {
    let (mut estimator, memory_info) = setup_estimator();
    assert_eq!(estimator.get_check_threshold_bytes(), 0);
    assert_eq!(estimator.get_minimal_required_available_bytes(), 104_857_600);
    // The first allocation asks the system.
    assert!(!estimator.too_big_allocation(1, 1));
    assert_eq!(memory_info.get_checks().len(), 1);
    assert_eq!(estimator.get_check_threshold_bytes(), 10_000_000);
    // The next ones count down without asking.
    assert!(!estimator.too_big_allocation(4_000_000, 0));
    assert_eq!(estimator.get_check_threshold_bytes(), 6_000_000);
    assert!(!estimator.too_big_allocation(6_000_000, 0));
    assert_eq!(estimator.get_check_threshold_bytes(), 0);
    assert_eq!(memory_info.get_checks().len(), 1);
    assert!(!estimator.too_big_allocation(1, 0));
    assert_eq!(memory_info.get_checks().len(), 2);
}

#[test]
fn the_verdict_on_what_the_system_says() {
    assert_eq!(memory_pressure(99, 100, 0, 0), MemoryPressure::LowAvailable);
    assert_eq!(memory_pressure(100, 100, 0, 0), MemoryPressure::Enough);
    assert_eq!(memory_pressure(100, 100, 50, 150), MemoryPressure::Enough);
    assert_eq!(memory_pressure(100, 100, 50, 151), MemoryPressure::ExcessiveSwapping);
    assert_eq!(memory_pressure(100, 100, 500, 151), MemoryPressure::Enough);
    assert_eq!(memory_pressure(99, 100, 50, 151), MemoryPressure::LowAvailable);
    let (mut estimator, _) = setup_estimator();
    assert_eq!(
        estimator.decide(200_000_000, 0, 0),
        MemoryPressure::Enough
    );
    assert_eq!(estimator.get_check_threshold_bytes(), 2_000_000);
    assert_eq!(
        estimator.decide(100_000_000, 0, 0),
        MemoryPressure::LowAvailable
    );
    assert_eq!(estimator.get_check_threshold_bytes(), 2_000_000);
}

#[test]
fn what_must_stay_available() {
    assert_eq!(minimal_required(0), 100 * 1024 * 1024);
    assert_eq!(minimal_required(1_000_000_000), 100 * 1024 * 1024);
    assert_eq!(minimal_required(50 * 100 * 1024 * 1024 + 49), 100 * 1024 * 1024);
    assert_eq!(minimal_required(16_000_000_000), 320_000_000);
}

#[test]
fn endless_memory_never_runs_out() {
    assert_eq!(endless(), 1usize << 48);
    let mut estimator = OutOfMemoryEstimator::new(InfiniteMemory {});
    assert_eq!(estimator.get_minimal_required_available_bytes(), (1usize << 48) / 50);
    assert!(!estimator.too_big_allocation(1 << 40, 1 << 40));
    assert_eq!(estimator.get_check_threshold_bytes(), (1usize << 48) / 100);
    assert!(!estimator.are_we_oom(1 << 47));
    assert_eq!(
        estimator.print_info(),
        "=fil-profile= Out of memory detection is disabled."
    );
}

#[test]
fn what_a_control_group_leaves() {
    assert_eq!(cgroup_available_memory(0, 0), usize::MAX);
    assert_eq!(cgroup_available_memory(0, 12345), usize::MAX);
    assert_eq!(cgroup_available_memory(1000, 400), 600);
    assert_eq!(cgroup_available_memory(1000, 1000), 0);
    assert_eq!(cgroup_available_memory(1000, 1001), usize::MAX);
    assert_eq!(cgroup_available_memory(i64::MAX, 0), i64::MAX as usize);
    assert_eq!(cgroup_available_memory(-1, 0), usize::MAX);
    assert_eq!(available_memory(500, 600), 500);
    assert_eq!(available_memory(700, 600), 600);
    assert_eq!(available_memory(700, usize::MAX), 700);
}

#[test]
fn control_groups_that_govern_memory() {
    let listing = "12:pids:/user.slice\n11:memory:/user.slice/user-1000.slice\n10:cpu,cpuacct:/\n\
9:devices,memory,freezer:/docker/abc:def\n0::/init.scope\n";
    assert_eq!(
        get_cgroup_paths(listing),
        Some(vec![
            "user.slice/user-1000.slice".to_string(),
            "docker/abc:def".to_string(),
            "init.scope".to_string()
        ])
    );
    assert_eq!(get_cgroup_paths(""), Some(vec![]));
    assert_eq!(get_cgroup_paths("0::/"), Some(vec!["".to_string()]));
    assert_eq!(get_cgroup_paths("0::/a\r\n1:memory:/b"), Some(vec!["a".to_string(), "b".to_string()]));
    assert_eq!(get_cgroup_paths("3:mem,memoryx,xmemory:/a\n"), Some(vec![]));
    assert_eq!(get_cgroup_paths("3:cpu"), Some(vec![]));
}

#[test]
fn control_group_listings_that_cannot_be_understood() {
    // No second field.
    assert_eq!(get_cgroup_paths("nonsense\n"), None);
    assert_eq!(get_cgroup_paths("0::/a\n\n1::/b\n"), None);
    // No path.
    assert_eq!(get_cgroup_paths("1:memory"), None);
    assert_eq!(get_cgroup_paths("1:memory:"), None);
    assert_eq!(get_cgroup_paths("1:"), None);
    // A path that does not begin with a slash.
    assert_eq!(get_cgroup_paths("1:memory:relative"), None);
    assert_eq!(get_cgroup_paths("1:cpu:/a\n1::b\n"), None);
}
