use pymemprofile_api::rangemap::{Range, RangeMap};
use std::collections::{BTreeMap, HashMap};

/// A range map that keeps one value for each address.
struct BytewiseMap {
    items: BTreeMap<usize, usize>,
}

impl BytewiseMap {
    fn new() -> Self {
        BytewiseMap {
            items: BTreeMap::new(),
        }
    }

    fn add(&mut self, start: usize, length: usize, value: usize) {
        for i in start..(start + length) {
            self.items.insert(i, value);
        }
    }

    fn remove(&mut self, start: usize, length: usize) -> HashMap<usize, usize> {
        let mut removed = HashMap::new();
        for i in start..(start + length) {
            if let Some(value) = self.items.remove(&i) {
                *removed.entry(value).or_insert(0) += 1;
            }
        }
        removed
    }

    fn size(&self) -> usize {
        self.items.len()
    }

    fn as_hashmap(&self) -> HashMap<usize, (usize, usize)> {
        let mut result: HashMap<usize, (usize, usize)> = HashMap::new();
        let mut last: Option<(usize, usize, usize)> = None;
        for (k, v) in self.items.iter() {
            match last {
                Some((start, end, value)) if value == *v && *k == end => {
                    result.insert(start, (end + 1 - start, value));
                    last = Some((start, end + 1, value));
                }
                _ => {
                    result.insert(*k, (1, *v));
                    last = Some((*k, *k + 1, *v));
                }
            }
        }
        result
    }
}

fn ranges(seed: u64) -> Vec<(usize, usize)> {
    let mut state = seed;
    let mut next = |bound: u64| {
        state = state
            .wrapping_mul(6364136223846793005)
            .wrapping_add(1442695040888963407);
        1 + ((state >> 33) % bound) as usize
    };
    let count = next(19);
    let mut result = Vec::new();
    let mut previous_start = 0;
    for _ in 0..count {
        let shift_start = next(19);
        let length = next(19);
        previous_start += shift_start;
        result.push((previous_start, length));
        previous_start += length;
    }
    // Shuffle.
    for i in (1..result.len()).rev() {
        let j = next(i as u64 + 1) - 1;
        result.swap(i, j);
    }
    result
}

#[test]
fn adding_removing_ranges() {
    for seed in 0..200u64 {
        let add_ranges = ranges(seed);
        let remove_ranges = ranges(seed + 1000);
        let mut real_rangemap: RangeMap<usize> = RangeMap::new();
        let mut bytewise: BytewiseMap = BytewiseMap::new();
        for (start, length) in add_ranges {
            real_rangemap.add(start, length, start * length);
            bytewise.add(start, length, start * length);
            assert_eq!(real_rangemap.size(), bytewise.size());
            assert_eq!(real_rangemap.as_hashmap(), bytewise.as_hashmap());
        }
        for (start, length) in remove_ranges {
            let removed1 = real_rangemap.remove(start, length * 2);
            let removed2 = bytewise.remove(start, length * 2);
            let mut removed1_map = HashMap::new();
            for (k, v) in removed1 {
                *removed1_map.entry(k).or_insert(0) += v;
            }
            assert_eq!(removed1_map, removed2);
            assert_eq!(real_rangemap.size(), bytewise.size());
            assert_eq!(real_rangemap.as_hashmap(), bytewise.as_hashmap());
        }
    }
}

#[test]
fn removal_from_the_middle_splits_an_entry() {
    let mut map: RangeMap<u32> = RangeMap::new();
    map.add(0x10_000, 4096, 7);
    let removed = map.remove(0x10_100, 2048);
    assert_eq!(removed, vec![(7, 2048)]);
    assert_eq!(map.size(), 2048);
    let by_start = map.as_hashmap();
    assert_eq!(by_start.len(), 2);
    assert_eq!(by_start[&0x10_000], (0x100, 7));
    assert_eq!(by_start[&0x10_900], (0x700, 7));
    assert_eq!(map.into_iter(), vec![(0x100, 7), (0x700, 7)]);
}

#[test]
fn removal_shrinks_splits_and_removes_in_one_go() {
    let mut map: RangeMap<u32> = RangeMap::new();
    map.add(0, 10, 1);
    map.add(10, 10, 2);
    map.add(20, 10, 3);
    map.add(100, 5, 4);
    // Takes the upper half of the first, all of the second, the lower part
    // of the third, and nothing of the fourth.
    let removed = map.remove(5, 18);
    assert_eq!(removed, vec![(1, 5), (2, 10), (3, 3)]);
    assert_eq!(map.into_iter(), vec![(5, 1), (7, 3), (5, 4)]);
}

#[test]
fn removal_of_exactly_one_entry() {
    let mut map: RangeMap<u32> = RangeMap::new();
    map.add(50, 10, 1);
    assert_eq!(map.remove(40, 10), vec![]);
    assert_eq!(map.remove(60, 10), vec![]);
    assert_eq!(map.size(), 10);
    assert_eq!(map.remove(50, 10), vec![(1, 10)]);
    assert_eq!(map.size(), 0);
    assert!(map.as_hashmap().is_empty());
}

#[test]
fn removal_from_either_end() {
    let mut map: RangeMap<u32> = RangeMap::new();
    map.add(50, 10, 1);
    assert_eq!(map.remove(45, 7), vec![(1, 2)]);
    assert_eq!(map.as_hashmap()[&52], (8, 1));
    assert_eq!(map.remove(58, 100), vec![(1, 2)]);
    assert_eq!(map.as_hashmap()[&52], (6, 1));
    assert_eq!(map.size(), 6);
}

#[test]
fn nothing_is_added_or_removed_with_a_length_of_zero() {
    let mut map: RangeMap<u32> = RangeMap::new();
    map.add(50, 0, 1);
    assert_eq!(map.size(), 0);
    map.add(50, 10, 1);
    assert_eq!(map.remove(55, 0), vec![]);
    assert_eq!(map.size(), 10);
    assert_eq!(map.into_iter(), vec![(10, 1)]);
}

#[test]
fn entries_are_not_merged() {
    let mut map: RangeMap<u32> = RangeMap::new();
    map.add(0, 10, 1);
    map.add(10, 10, 1);
    assert_eq!(map.as_hashmap().len(), 2);
    assert_eq!(map.remove(0, 20), vec![(1, 10), (1, 10)]);
}

#[test]
fn ranges_intersect_where_they_share_addresses() {
    let a = Range::new(10, 10);
    let b = Range::new(15, 10);
    let c = Range::new(20, 5);
    assert_eq!(a.intersection(&b), Some(Range { start: 15, end: 20 }));
    assert_eq!(b.intersection(&a), Some(Range { start: 15, end: 20 }));
    assert_eq!(a.intersection(&c), None);
    assert_eq!(b.intersection(&c), Some(c));
    assert_eq!(a.size(), 10);
    assert_eq!(a.intersection(&a), Some(a));
}
