use pymemprofile_api::mmap::{how_to_unmap, munmap_wrapper, MmapAPI, Munmap};
use std::cell::{Cell, RefCell};

struct TrackMunmap {
    initialized: bool,
    reentrant: bool,
    tracking_removed: Cell<(usize, usize)>,
    events: RefCell<Vec<&'static str>>,
}

impl MmapAPI for TrackMunmap {
    fn is_initialized(&self) -> bool {
        self.events.borrow_mut().push("is_initialized");
        self.initialized
    }

    fn call_if_tracking<F: FnMut()>(&self, mut f: F) {
        self.events.borrow_mut().push("call_if_tracking");
        if !self.reentrant {
            f()
        }
    }

    fn remove_mmap(&self, addr: usize, len: usize) {
        self.events.borrow_mut().push("remove_mmap");
        self.tracking_removed.set((addr, len));
    }
}

fn api(initialized: bool, reentrant: bool) -> TrackMunmap {
    TrackMunmap {
        initialized,
        reentrant,
        tracking_removed: Cell::new((0, 0)),
        events: RefCell::new(vec![]),
    }
}

// Removing tracking metadata after munmap() can lead to race conditions if
// another thread mmap()s the same address.
#[test]
fn munmap_happens_after_metadata_removal() {
    let size = 3072;
    let addr = 0x7f00_0000_0000usize;
    let fake_api = api(true, false);
    // The metadata is removed first; only then is the caller told to unmap.
    let how = munmap_wrapper(addr, size, &fake_api);
    assert_eq!(fake_api.tracking_removed.get(), (addr, size));
    assert_eq!(
        *fake_api.events.borrow(),
        vec!["is_initialized", "call_if_tracking", "remove_mmap"]
    );
    assert_eq!(how, Munmap::ThroughLibc);
}

#[test]
fn nothing_is_removed_before_the_shim_is_ready() {
    let fake_api = api(false, false);
    assert_eq!(munmap_wrapper(4096, 3072, &fake_api), Munmap::Directly);
    assert_eq!(fake_api.tracking_removed.get(), (0, 0));
    assert_eq!(*fake_api.events.borrow(), vec!["is_initialized"]);
    assert_eq!(how_to_unmap(false), Munmap::Directly);
    assert_eq!(how_to_unmap(true), Munmap::ThroughLibc);
}

#[test]
fn nothing_is_removed_from_within_the_shim() {
    let fake_api = api(true, true);
    assert_eq!(munmap_wrapper(4096, 3072, &fake_api), Munmap::ThroughLibc);
    assert_eq!(fake_api.tracking_removed.get(), (0, 0));
}
