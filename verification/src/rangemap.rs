//! Address ranges that can be released piecewise.
//!
//! A page mapping is obtained in one call and may be given back in several,
//! each covering any part of it, or parts of several mappings at once. The
//! map keeps one entry per contiguous fragment that is still mapped.

use std::collections::HashMap;
use vstd::prelude::*;

verus! {

/// Half-open range of addresses, `[start, end)`.
#[derive(Clone, Copy, Debug, PartialEq, Eq, Structural)]
pub struct Range {
    pub start: usize,
    pub end: usize,
}

impl Range {
    /// A range holds at least one address.
    pub open spec fn wf(self) -> bool {
        self.start < self.end
    }

    /// Number of addresses in the range.
    pub open spec fn spec_size(self) -> int {
        self.end - self.start
    }

    /// Whether `addr` lies in the range.
    pub open spec fn contains(self, addr: int) -> bool {
        self.start <= addr < self.end
    }

    /// Whether the two ranges share an address.
    pub open spec fn overlaps(self, other: Range) -> bool {
        self.shared(other) > 0
    }

    /// First address that could lie in both ranges.
    pub open spec fn shared_start(self, other: Range) -> usize {
        if self.start >= other.start { self.start } else { other.start }
    }

    /// End of the addresses that could lie in both ranges.
    pub open spec fn shared_end(self, other: Range) -> usize {
        if self.end <= other.end { self.end } else { other.end }
    }

    /// Number of addresses that the two ranges share.
    pub open spec fn shared(self, other: Range) -> int {
        if self.shared_start(other) < self.shared_end(other) {
            self.shared_end(other) - self.shared_start(other)
        } else {
            0
        }
    }

    /// The range of `length` addresses that starts at `start`.
    pub fn new(start: usize, length: usize) -> (r: Range)
        requires
            length > 0,
            start + length <= usize::MAX,
        ensures
            r.start == start,
            r.end == start + length,
            r.wf(),
    {
        Range { start, end: start + length }
    }

    /// The addresses common to both ranges, if there are any.
    pub fn intersection(&self, other: &Range) -> (r: Option<Range>)
        ensures
            r.is_some() == self.overlaps(*other),
            r.is_some() ==> r.unwrap() == (Range {
                start: self.shared_start(*other),
                end: self.shared_end(*other),
            }),
    {
        let max_start: usize = if self.start >= other.start { self.start } else { other.start };
        let min_end: usize = if self.end <= other.end { self.end } else { other.end };
        if min_end <= max_start {
            None
        } else {
            Some(Range { start: max_start, end: min_end })
        }
    }

    /// Number of addresses in the range.
    pub fn size(&self) -> (n: usize)
        requires
            self.wf(),
        ensures
            n == self.spec_size(),
            n > 0,
    {
        self.end - self.start
    }
}

/// One entry of a range map: a range and what it is attributed to.
pub type Entry<V> = (Range, V);

/// Every entry covers at least one address.
pub open spec fn entries_wf<V>(entries: Seq<Entry<V>>) -> bool {
    forall|i: int| 0 <= i < entries.len() ==> (#[trigger] entries[i]).0.wf()
}

/// Sum of the sizes of the entries.
pub open spec fn total_size<V>(entries: Seq<Entry<V>>) -> int
    decreases entries.len(),
{
    if entries.len() == 0 {
        0
    } else {
        total_size(entries.drop_last()) + entries.last().0.spec_size()
    }
}

/// What is left of one entry once the addresses of `cut` are released: the
/// entry itself when they do not meet, else the part below `cut` and the
/// part above it, as far as each exists.
pub open spec fn residual<V>(entry: Entry<V>, cut: Range) -> Seq<Entry<V>> {
    let (range, value) = entry;
    if !range.overlaps(cut) {
        seq![entry]
    } else {
        let below = if range.start < cut.start {
            seq![(Range { start: range.start, end: cut.start }, value)]
        } else {
            Seq::<Entry<V>>::empty()
        };
        let above = if cut.end < range.end {
            seq![(Range { start: cut.end, end: range.end }, value)]
        } else {
            Seq::<Entry<V>>::empty()
        };
        below + above
    }
}

/// The entries that are left once the addresses of `cut` are released: the
/// residue of each entry, in the order of the entries.
pub open spec fn remaining_after<V>(entries: Seq<Entry<V>>, cut: Range) -> Seq<Entry<V>>
    decreases entries.len(),
{
    if entries.len() == 0 {
        Seq::<Entry<V>>::empty()
    } else {
        remaining_after(entries.drop_last(), cut) + residual(entries.last(), cut)
    }
}

/// What releasing `cut` takes away: for each entry that meets `cut`, in the
/// order of the entries, its value and the number of addresses it loses.
pub open spec fn released<V>(entries: Seq<Entry<V>>, cut: Range) -> Seq<(V, usize)>
    decreases entries.len(),
{
    if entries.len() == 0 {
        Seq::<(V, usize)>::empty()
    } else {
        let (range, value) = entries.last();
        if range.overlaps(cut) {
            released(entries.drop_last(), cut).push((value, range.shared(cut) as usize))
        } else {
            released(entries.drop_last(), cut)
        }
    }
}

/// The entries as pairs of size and value.
pub open spec fn sized<V>(entries: Seq<Entry<V>>) -> Seq<(usize, V)> {
    Seq::new(entries.len(), |i: int| (entries[i].0.spec_size() as usize, entries[i].1))
}

/// The entries keyed by their first address; of two entries that start at
/// the same address the later one stands.
pub open spec fn by_start<V>(entries: Seq<Entry<V>>) -> Map<usize, (usize, V)>
    decreases entries.len(),
{
    if entries.len() == 0 {
        Map::<usize, (usize, V)>::empty()
    } else {
        let (range, value) = entries.last();
        by_start(entries.drop_last()).insert(range.start, (range.spec_size() as usize, value))
    }
}

/// Releasing nothing leaves every entry as it is.
pub proof fn lemma_empty_cut_releases_nothing<V>(entries: Seq<Entry<V>>, cut: Range)
    requires
        cut.start >= cut.end,
    ensures
        remaining_after(entries, cut) == entries,
        released(entries, cut) == Seq::<(V, usize)>::empty(),
    decreases entries.len(),
{
    if entries.len() > 0 {
        lemma_empty_cut_releases_nothing(entries.drop_last(), cut);
        assert(entries.drop_last() + seq![entries.last()] =~= entries);
    }
}

/// What is left of a well-formed entry is well formed.
pub proof fn lemma_remaining_wf<V>(entries: Seq<Entry<V>>, cut: Range)
    requires
        entries_wf(entries),
    ensures
        entries_wf(remaining_after(entries, cut)),
    decreases entries.len(),
{
    if entries.len() > 0 {
        lemma_remaining_wf(entries.drop_last(), cut);
        let head = remaining_after(entries.drop_last(), cut);
        let tail = residual(entries.last(), cut);
        assert(entries.last().0.wf());
        assert forall|i: int| 0 <= i < (head + tail).len() implies (
        #[trigger] (head + tail)[i]).0.wf() by {
            if i < head.len() {
                assert((head + tail)[i] == head[i]);
            } else {
                assert((head + tail)[i] == tail[i - head.len()]);
            }
        }
    }
}

/// Map from address ranges to values, for mappings that are released in
/// pieces: one release may shrink an entry, split it in two, remove it, or
/// do so to several entries at once.
pub struct RangeMap<V: Copy> {
    ranges: Vec<Entry<V>>,
}

impl<V: Copy> View for RangeMap<V> {
    type V = Seq<Entry<V>>;

    /// The entries, oldest fragment first.
    closed spec fn view(&self) -> Seq<Entry<V>> {
        self.ranges@
    }
}

impl<V: Copy> RangeMap<V> {
    /// Every entry covers at least one address.
    pub open spec fn wf(&self) -> bool {
        entries_wf(self@)
    }

    /// A map without entries.
    pub fn new() -> (m: Self)
        ensures
            m@ == Seq::<Entry<V>>::empty(),
            m.wf(),
    {
        RangeMap { ranges: Vec::new() }
    }

    /// Records `length` addresses from `start` on as belonging to `value`.
    /// The entry is appended as it is, never merged with a neighbour; a
    /// length of zero records nothing.
    pub fn add(&mut self, start: usize, length: usize, value: V)
        requires
            old(self).wf(),
            start + length <= usize::MAX,
        ensures
            final(self).wf(),
            length == 0 ==> final(self)@ == old(self)@,
            length > 0 ==> final(self)@ == old(self)@.push(
                (Range { start, end: (start + length) as usize }, value),
            ),
    {
        if length <= 0 {
            return ;
        }
        self.ranges.push((Range::new(start, length), value));
    }

    /// Releases `length` addresses from `start` on, and reports, for each
    /// entry that loses addresses, its value and how many it lost.
    pub fn remove(&mut self, start: usize, length: usize) -> (removed: Vec<(V, usize)>)
        requires
            old(self).wf(),
            start + length <= usize::MAX,
        ensures
            final(self).wf(),
            final(self)@ == remaining_after(
                old(self)@,
                Range { start, end: (start + length) as usize },
            ),
            removed@ == released(old(self)@, Range { start, end: (start + length) as usize }),
    {
        let ghost before = self.ranges@;
        let ghost cut = Range { start, end: (start + length) as usize };
        if length <= 0 {
            proof {
                lemma_empty_cut_releases_nothing(before, cut);
            }
            return Vec::new();
        }
        let mut new_ranges: Vec<Entry<V>> = Vec::new();
        let mut removed: Vec<(V, usize)> = Vec::new();
        let remove = Range::new(start, length);
        let mut idx: usize = 0;
        while idx < self.ranges.len()
            invariant
                idx <= self.ranges.len(),
                self.ranges@ == before,
                entries_wf(before),
                remove == cut,
                cut.start == start,
                cut.end == start + length,
                length > 0,
                new_ranges@ == remaining_after(before.take(idx as int), cut),
                removed@ == released(before.take(idx as int), cut),
            decreases self.ranges.len() - idx,
        {
            let (range, value) = self.ranges[idx];
            proof {
                assert(before.take(idx + 1).drop_last() =~= before.take(idx as int));
                assert(before.take(idx + 1).last() == before[idx as int]);
                assert(before[idx as int].0.wf());
            }
            match range.intersection(&remove) {
                Some(i) => {
                    if i.start == range.start && i.end == range.end {
                        // Covered entirely: nothing of it is left.
                        removed.push((value, range.size()));
                    } else if i.start == range.start {
                        // Its lower part goes.
                        let new_range = Range { start: i.end, end: range.end };
                        removed.push((value, range.size() - new_range.size()));
                        new_ranges.push((new_range, value));
                    } else if i.end == range.end {
                        // Its upper part goes.
                        let new_range = Range { start: range.start, end: i.start };
                        removed.push((value, range.size() - new_range.size()));
                        new_ranges.push((new_range, value));
                    } else {
                        // A piece out of its middle goes: two fragments stay.
                        new_ranges.push((Range { start: range.start, end: i.start }, value));
                        new_ranges.push((Range { start: i.end, end: range.end }, value));
                        removed.push((value, length));
                    }
                },
                None => {
                    new_ranges.push((range, value));
                },
            }
            proof {
                assert(new_ranges@ =~= remaining_after(before.take(idx as int), cut) + residual(
                    before[idx as int],
                    cut,
                ));
            }
            idx += 1;
        }
        proof {
            assert(before.take(idx as int) =~= before);
            lemma_remaining_wf(before, cut);
        }
        self.ranges = new_ranges;
        removed
    }

    /// Sum of the sizes of the entries.
    pub fn size(&self) -> (n: usize)
        requires
            self.wf(),
            total_size(self@) <= usize::MAX,
        ensures
            n == total_size(self@),
    {
        let mut n: usize = 0;
        let mut idx: usize = 0;
        while idx < self.ranges.len()
            invariant
                idx <= self.ranges.len(),
                entries_wf(self.ranges@),
                n == total_size(self.ranges@.take(idx as int)),
                total_size(self.ranges@) <= usize::MAX,
            decreases self.ranges.len() - idx,
        {
            proof {
                assert(self.ranges@.take(idx + 1).drop_last() =~= self.ranges@.take(idx as int));
                lemma_total_size_prefix(self.ranges@, idx + 1);
            }
            n = n + self.ranges[idx].0.size();
            idx += 1;
        }
        proof {
            assert(self.ranges@.take(idx as int) =~= self.ranges@);
        }
        n
    }

    /// The entries as pairs of size and value, in the order of the entries.
    pub fn into_iter(self) -> (items: Vec<(usize, V)>)
        requires
            self.wf(),
        ensures
            items@ == sized(self@),
    {
        let mut items: Vec<(usize, V)> = Vec::new();
        let mut idx: usize = 0;
        while idx < self.ranges.len()
            invariant
                idx <= self.ranges.len(),
                entries_wf(self.ranges@),
                items@ == sized(self.ranges@.take(idx as int)),
            decreases self.ranges.len() - idx,
        {
            let (range, value) = self.ranges[idx];
            items.push((range.size(), value));
            proof {
                assert(items@ =~= sized(self.ranges@.take(idx + 1)));
            }
            idx += 1;
        }
        proof {
            assert(self.ranges@.take(idx as int) =~= self.ranges@);
        }
        items
    }

    /// The entries keyed by their first address, each with its size and
    /// value.
    pub fn as_hashmap(&self) -> (m: HashMap<usize, (usize, V)>)
        requires
            self.wf(),
        ensures
            m@ == by_start(self@),
    {
        let mut m: HashMap<usize, (usize, V)> = HashMap::new();
        let mut idx: usize = 0;
        while idx < self.ranges.len()
            invariant
                idx <= self.ranges.len(),
                entries_wf(self.ranges@),
                m@ == by_start(self.ranges@.take(idx as int)),
            decreases self.ranges.len() - idx,
        {
            let (range, value) = self.ranges[idx];
            proof {
                assert(self.ranges@.take(idx + 1).drop_last() =~= self.ranges@.take(idx as int));
            }
            m.insert(range.start, (range.size(), value));
            idx += 1;
        }
        proof {
            assert(self.ranges@.take(idx as int) =~= self.ranges@);
        }
        m
    }
}

/// What one entry adds to the addresses of `value`, or to all addresses
/// where no value is given.
pub open spec fn entry_bytes<V>(entry: Entry<V>, value: Option<V>) -> int {
    match value {
        Some(v) => if entry.1 == v { entry.0.spec_size() } else { 0 },
        None => entry.0.spec_size(),
    }
}

/// Number of addresses that the entries attribute to `value` (all their
/// addresses where no value is given), an address counted once for each
/// entry that covers it.
pub open spec fn mapped_bytes<V>(entries: Seq<Entry<V>>, value: Option<V>) -> int
    decreases entries.len(),
{
    if entries.len() == 0 {
        0
    } else {
        mapped_bytes(entries.drop_last(), value) + entry_bytes(entries.last(), value)
    }
}

/// Number of released addresses that were attributed to `value` (all of
/// them where no value is given).
pub open spec fn released_bytes<V>(released: Seq<(V, usize)>, value: Option<V>) -> int
    decreases released.len(),
{
    if released.len() == 0 {
        0
    } else {
        released_bytes(released.drop_last(), value) + (match value {
            Some(v) => if released.last().0 == v { released.last().1 as int } else { 0 },
            None => released.last().1 as int,
        })
    }
}

/// The size of a map is the number of addresses it attributes to any value.
pub proof fn lemma_total_size_is_mapped_bytes<V>(entries: Seq<Entry<V>>)
    ensures
        total_size(entries) == mapped_bytes(entries, None),
    decreases entries.len(),
{
    if entries.len() > 0 {
        lemma_total_size_is_mapped_bytes(entries.drop_last());
    }
}

/// The addresses of two runs of entries add up.
pub proof fn lemma_mapped_bytes_concat<V>(a: Seq<Entry<V>>, b: Seq<Entry<V>>, value: Option<V>)
    ensures
        mapped_bytes(a + b, value) == mapped_bytes(a, value) + mapped_bytes(b, value),
    decreases b.len(),
{
    if b.len() == 0 {
        assert(a + b =~= a);
    } else {
        lemma_mapped_bytes_concat(a, b.drop_last(), value);
        assert((a + b).drop_last() =~= a + b.drop_last());
        assert((a + b).last() == b.last());
    }
}

/// Well-formed entries attribute to a value no less than nothing and no
/// more than their size.
pub proof fn lemma_mapped_bytes_bounds<V>(entries: Seq<Entry<V>>, value: Option<V>)
    requires
        entries_wf(entries),
    ensures
        0 <= mapped_bytes(entries, value) <= mapped_bytes(entries, None),
    decreases entries.len(),
{
    if entries.len() > 0 {
        assert(entries.last().0.wf());
        lemma_mapped_bytes_bounds(entries.drop_last(), value);
    }
}

/// One entry adds what it attributes.
pub proof fn lemma_mapped_bytes_single<V>(entry: Entry<V>, value: Option<V>)
    ensures
        mapped_bytes(seq![entry], value) == entry_bytes(entry, value),
        mapped_bytes(Seq::<Entry<V>>::empty(), value) == 0,
{
    let none = Seq::<Entry<V>>::empty();
    assert(mapped_bytes(none, value) == 0);
    assert(seq![entry].drop_last() =~= none);
    assert(seq![entry].last() == entry);
    assert(mapped_bytes(seq![entry], value) == mapped_bytes(seq![entry].drop_last(), value)
        + entry_bytes(seq![entry].last(), value));
}

/// What is left of an entry and what `cut` takes from it is what the entry
/// covered.
pub proof fn lemma_residual_bytes<V>(entry: Entry<V>, cut: Range, value: Option<V>)
    requires
        entry.0.wf(),
    ensures
        mapped_bytes(residual(entry, cut), value) + entry_bytes(
            (Range { start: 0, end: entry.0.shared(cut) as usize }, entry.1),
            value,
        ) == entry_bytes(entry, value),
        0 <= entry.0.shared(cut) <= entry.0.spec_size(),
{
    let (range, v) = entry;
    let rest = residual(entry, cut);
    if range.overlaps(cut) {
        let below = (Range { start: range.start, end: cut.start }, v);
        let above = (Range { start: cut.end, end: range.end }, v);
        if range.start < cut.start && cut.end < range.end {
            assert(rest =~= seq![below] + seq![above]);
            lemma_mapped_bytes_concat(seq![below], seq![above], value);
            lemma_mapped_bytes_single(below, value);
            lemma_mapped_bytes_single(above, value);
        } else if range.start < cut.start {
            assert(rest =~= seq![below]);
            lemma_mapped_bytes_single(below, value);
        } else if cut.end < range.end {
            assert(rest =~= seq![above]);
            lemma_mapped_bytes_single(above, value);
        } else {
            assert(rest =~= Seq::<Entry<V>>::empty());
            lemma_mapped_bytes_single(entry, value);
        }
    } else {
        lemma_mapped_bytes_single(entry, value);
    }
}

/// A release loses no address: what stays and what was released is what
/// there was, for each value.
pub proof fn lemma_release_conserves_bytes<V>(
    entries: Seq<Entry<V>>,
    cut: Range,
    value: Option<V>,
)
    requires
        entries_wf(entries),
    ensures
        mapped_bytes(remaining_after(entries, cut), value) + released_bytes(
            released(entries, cut),
            value,
        ) == mapped_bytes(entries, value),
        0 <= released_bytes(released(entries, cut), value) <= mapped_bytes(entries, value),
    decreases entries.len(),
{
    if entries.len() > 0 {
        let front = entries.drop_last();
        let last = entries.last();
        assert(last.0.wf());
        lemma_release_conserves_bytes(front, cut, value);
        lemma_mapped_bytes_concat(remaining_after(front, cut), residual(last, cut), value);
        lemma_mapped_bytes_bounds(front, value);
        lemma_remaining_wf(front, cut);
        lemma_mapped_bytes_bounds(remaining_after(front, cut), value);
        lemma_residual_bytes(last, cut, value);
        lemma_remaining_wf(entries, cut);
        lemma_mapped_bytes_bounds(remaining_after(entries, cut), value);
        if last.0.overlaps(cut) {
            let taken = (last.1, last.0.shared(cut) as usize);
            assert(released(entries, cut) == released(front, cut).push(taken));
            assert(released(entries, cut).drop_last() =~= released(front, cut));
            assert(released(entries, cut).last() == taken);
        }
    }
}

/// A release makes up no value: what holds of the value of every entry
/// holds of the value of every entry that stays and of every released one.
pub proof fn lemma_release_keeps_values<V>(
    entries: Seq<Entry<V>>,
    cut: Range,
    holds: spec_fn(V) -> bool,
)
    requires
        forall|i: int| 0 <= i < entries.len() ==> holds((#[trigger] entries[i]).1),
    ensures
        forall|i: int|
            0 <= i < remaining_after(entries, cut).len() ==> holds(
                (#[trigger] remaining_after(entries, cut)[i]).1,
            ),
        forall|i: int|
            0 <= i < released(entries, cut).len() ==> holds(
                (#[trigger] released(entries, cut)[i]).0,
            ),
    decreases entries.len(),
{
    if entries.len() > 0 {
        let front = entries.drop_last();
        let last = entries.last();
        assert(holds(entries[entries.len() - 1].1));
        assert forall|i: int| 0 <= i < front.len() implies holds((#[trigger] front[i]).1) by {
            assert(front[i] == entries[i]);
        }
        lemma_release_keeps_values(front, cut, holds);
        let head = remaining_after(front, cut);
        let tail = residual(last, cut);
        assert forall|i: int| 0 <= i < (head + tail).len() implies holds(
            (#[trigger] (head + tail)[i]).1,
        ) by {
            if i < head.len() {
                assert((head + tail)[i] == head[i]);
            } else {
                assert((head + tail)[i] == tail[i - head.len()]);
            }
        }
        let taken = released(entries, cut);
        assert forall|i: int| 0 <= i < taken.len() implies holds((#[trigger] taken[i]).0) by {
            if i < released(front, cut).len() {
                assert(taken[i] == released(front, cut)[i]);
            }
        }
    }
}

/// A prefix of the entries is no larger than all of them.
pub proof fn lemma_total_size_prefix<V>(entries: Seq<Entry<V>>, n: int)
    requires
        entries_wf(entries),
        0 <= n <= entries.len(),
    ensures
        0 <= total_size(entries.take(n)) <= total_size(entries),
    decreases entries.len() - n,
{
    if n == entries.len() {
        assert(entries.take(n) =~= entries);
        lemma_total_size_nonnegative(entries);
    } else {
        lemma_total_size_prefix(entries, n + 1);
        assert(entries.take(n + 1).drop_last() =~= entries.take(n));
        assert(entries.take(n + 1).last() == entries[n]);
        assert(entries[n].0.wf());
        lemma_total_size_nonnegative(entries.take(n));
    }
}

/// Sizes add up to no less than nothing.
pub proof fn lemma_total_size_nonnegative<V>(entries: Seq<Entry<V>>)
    requires
        entries_wf(entries),
    ensures
        0 <= total_size(entries),
    decreases entries.len(),
{
    if entries.len() > 0 {
        assert(entries.last().0.wf());
        lemma_total_size_nonnegative(entries.drop_last());
    }
}

/// The value that an address has: that of the entry that covers it, and of
/// the latest such entry where several do.
pub open spec fn owner<V>(entries: Seq<Entry<V>>, addr: int) -> Option<V>
    decreases entries.len(),
{
    if entries.len() == 0 {
        None
    } else if entries.last().0.contains(addr) {
        Some(entries.last().1)
    } else {
        owner(entries.drop_last(), addr)
    }
}

/// No address is covered by two entries.
pub open spec fn disjoint<V>(entries: Seq<Entry<V>>) -> bool {
    forall|i: int, j: int|
        0 <= i < j < entries.len() ==> !(#[trigger] entries[i]).0.overlaps(
            (#[trigger] entries[j]).0,
        )
}

/// The addresses that have the value `value`; those that have any value
/// where none is given.
pub open spec fn owned<V>(entries: Seq<Entry<V>>, value: Option<V>) -> Set<int> {
    Set::new(
        |addr: int|
            match value {
                Some(v) => owner(entries, addr) == Some(v),
                None => owner(entries, addr).is_some(),
            },
    )
}

/// An address that has a value is covered by an entry.
pub proof fn lemma_owner_is_covered<V>(entries: Seq<Entry<V>>, addr: int)
    ensures
        owner(entries, addr).is_some() <==> exists|i: int|
            0 <= i < entries.len() && (#[trigger] entries[i]).0.contains(addr),
    decreases entries.len(),
{
    if entries.len() > 0 {
        let front = entries.drop_last();
        lemma_owner_is_covered(front, addr);
        if entries.last().0.contains(addr) {
            assert(entries[entries.len() - 1].0.contains(addr));
        } else if owner(front, addr).is_some() {
            let i = choose|i: int| 0 <= i < front.len() && (#[trigger] front[i]).0.contains(addr);
            assert(entries[i] == front[i]);
        } else {
            assert forall|i: int| 0 <= i < entries.len() implies !(
            #[trigger] entries[i]).0.contains(addr) by {
                if i < front.len() {
                    assert(front[i] == entries[i]);
                }
            }
        }
    }
}

/// Of two runs of entries the later decides where it covers an address.
pub proof fn lemma_owner_concat<V>(a: Seq<Entry<V>>, b: Seq<Entry<V>>, addr: int)
    ensures
        owner(a + b, addr) == (match owner(b, addr) {
            Some(v) => Some(v),
            None => owner(a, addr),
        }),
    decreases b.len(),
{
    if b.len() == 0 {
        assert(a + b =~= a);
    } else {
        lemma_owner_concat(a, b.drop_last(), addr);
        assert((a + b).drop_last() =~= a + b.drop_last());
        assert((a + b).last() == b.last());
    }
}

/// Adding a range gives its value to every address of the range and
/// changes no other address: as if one value were stored per address.
pub proof fn lemma_add_is_bytewise<V>(
    entries: Seq<Entry<V>>,
    start: usize,
    length: usize,
    value: V,
    addr: int,
)
    requires
        start + length <= usize::MAX,
    ensures
        owner(entries.push((Range { start, end: (start + length) as usize }, value)), addr) == (
        if start <= addr < start + length {
            Some(value)
        } else {
            owner(entries, addr)
        }),
{
    let added = entries.push((Range { start, end: (start + length) as usize }, value));
    assert(added.drop_last() =~= entries);
}

/// Removing a range leaves every address of the range without a value and
/// changes no other address: as if one value were stored per address.
pub proof fn lemma_remove_is_bytewise<V>(entries: Seq<Entry<V>>, cut: Range, addr: int)
    requires
        entries_wf(entries),
    ensures
        owner(remaining_after(entries, cut), addr) == (if cut.contains(addr) {
            None
        } else {
            owner(entries, addr)
        }),
    decreases entries.len(),
{
    if entries.len() > 0 {
        let front = entries.drop_last();
        let last = entries.last();
        assert(last.0.wf());
        lemma_remove_is_bytewise(front, cut, addr);
        lemma_owner_concat(remaining_after(front, cut), residual(last, cut), addr);
        lemma_residual_owner(last, cut, addr);
    }
}

/// What is left of an entry covers the addresses of the entry that are not
/// released.
pub proof fn lemma_residual_owner<V>(entry: Entry<V>, cut: Range, addr: int)
    requires
        entry.0.wf(),
    ensures
        owner(residual(entry, cut), addr) == (if entry.0.contains(addr) && !cut.contains(addr) {
            Some(entry.1)
        } else {
            None
        }),
{
    let (range, value) = entry;
    let rest = residual(entry, cut);
    let none = Seq::<Entry<V>>::empty();
    assert(owner(none, addr).is_none());
    if range.overlaps(cut) {
        let below = (Range { start: range.start, end: cut.start }, value);
        let above = (Range { start: cut.end, end: range.end }, value);
        lemma_owner_single(below, addr);
        lemma_owner_single(above, addr);
        if range.start < cut.start && cut.end < range.end {
            assert(rest =~= seq![below] + seq![above]);
            lemma_owner_concat(seq![below], seq![above], addr);
        } else if range.start < cut.start {
            assert(rest =~= seq![below]);
        } else if cut.end < range.end {
            assert(rest =~= seq![above]);
        } else {
            assert(rest =~= none);
        }
    } else {
        lemma_owner_single(entry, addr);
    }
}

/// One entry gives its value to the addresses that it covers.
pub proof fn lemma_owner_single<V>(entry: Entry<V>, addr: int)
    ensures
        owner(seq![entry], addr) == (if entry.0.contains(addr) {
            Some(entry.1)
        } else {
            None
        }),
{
    let none = Seq::<Entry<V>>::empty();
    assert(owner(none, addr).is_none());
    assert(seq![entry].drop_last() =~= none);
    assert(seq![entry].last() == entry);
}

/// Entries that cover no address twice still do so with one more entry
/// that meets none of them.
pub proof fn lemma_add_keeps_disjoint<V>(entries: Seq<Entry<V>>, entry: Entry<V>)
    requires
        disjoint(entries),
        forall|i: int| 0 <= i < entries.len() ==> !(#[trigger] entries[i]).0.overlaps(entry.0),
    ensures
        disjoint(entries.push(entry)),
{
    let added = entries.push(entry);
    assert forall|i: int, j: int| 0 <= i < j < added.len() implies !(
    #[trigger] added[i]).0.overlaps((#[trigger] added[j]).0) by {
        assert(added[i] == entries[i]);
        if j < entries.len() {
            assert(added[j] == entries[j]);
        }
    }
}

/// Entries that cover no address twice still do so once a range is
/// removed.
pub proof fn lemma_remove_keeps_disjoint<V>(entries: Seq<Entry<V>>, cut: Range)
    requires
        entries_wf(entries),
        disjoint(entries),
    ensures
        disjoint(remaining_after(entries, cut)),
{
    let rest = remaining_after(entries, cut);
    lemma_remaining_wf(entries, cut);
    assert forall|i: int, j: int| 0 <= i < j < rest.len() implies !(#[trigger] rest[i]).0.overlaps(
        (#[trigger] rest[j]).0,
    ) by {
        if rest[i].0.overlaps(rest[j].0) {
            let addr = rest[i].0.shared_start(rest[j].0) as int;
            assert(rest[i].0.contains(addr) && rest[j].0.contains(addr));
            lemma_remaining_covers_once(entries, cut, addr, i, j);
        }
    }
}

/// Where entries cover no address twice, no address is covered by two of
/// the entries that are left once a range is removed.
pub proof fn lemma_remaining_covers_once<V>(
    entries: Seq<Entry<V>>,
    cut: Range,
    addr: int,
    i: int,
    j: int,
)
    requires
        entries_wf(entries),
        disjoint(entries),
        0 <= i < j < remaining_after(entries, cut).len(),
    ensures
        !(remaining_after(entries, cut)[i].0.contains(addr) && remaining_after(
            entries,
            cut,
        )[j].0.contains(addr)),
    decreases entries.len(),
{
    if entries.len() > 0 && remaining_after(entries, cut)[i].0.contains(addr) && remaining_after(
        entries,
        cut,
    )[j].0.contains(addr) {
        let front = entries.drop_last();
        let last = entries.last();
        let head = remaining_after(front, cut);
        let tail = residual(last, cut);
        assert(last.0.wf());
        assert(disjoint(front)) by {
            assert forall|a: int, b: int| 0 <= a < b < front.len() implies !(
            #[trigger] front[a]).0.overlaps((#[trigger] front[b]).0) by {
                assert(front[a] == entries[a]);
                assert(front[b] == entries[b]);
            }
        }
        if j < head.len() {
            assert((head + tail)[i] == head[i]);
            assert((head + tail)[j] == head[j]);
            lemma_remaining_covers_once(front, cut, addr, i, j);
        } else {
            assert((head + tail)[j] == tail[j - head.len()]);
            // The later fragment is a part of the last entry.
            assert(last.0.contains(addr));
            if i < head.len() {
                assert((head + tail)[i] == head[i]);
                // The earlier fragment is a part of an earlier entry.
                lemma_remaining_is_within(front, cut, i, addr);
                let k = choose|k: int|
                    0 <= k < front.len() && (#[trigger] front[k]).0.contains(addr);
                assert(front[k] == entries[k]);
                assert(entries[k].0.overlaps(entries[entries.len() - 1].0));
            } else {
                assert((head + tail)[i] == tail[i - head.len()]);
            }
        }
    }
}

/// Every entry that is left once a range is removed lies within an entry
/// that there was.
pub proof fn lemma_remaining_is_within<V>(entries: Seq<Entry<V>>, cut: Range, i: int, addr: int)
    requires
        entries_wf(entries),
        0 <= i < remaining_after(entries, cut).len(),
        remaining_after(entries, cut)[i].0.contains(addr),
    ensures
        exists|k: int| 0 <= k < entries.len() && (#[trigger] entries[k]).0.contains(addr),
    decreases entries.len(),
{
    if entries.len() > 0 {
        let front = entries.drop_last();
        let last = entries.last();
        let head = remaining_after(front, cut);
        let tail = residual(last, cut);
        assert(last.0.wf());
        if i < head.len() {
            assert((head + tail)[i] == head[i]);
            lemma_remaining_is_within(front, cut, i, addr);
            let k = choose|k: int| 0 <= k < front.len() && (#[trigger] front[k]).0.contains(addr);
            assert(entries[k] == front[k]);
        } else {
            assert((head + tail)[i] == tail[i - head.len()]);
            assert(entries[entries.len() - 1].0.contains(addr));
        }
    }
}

/// Where no address is covered twice, the addresses that have a value are
/// as many as the entries with that value say: the size of the map is the
/// number of addresses that have a value.
pub proof fn lemma_size_counts_addresses<V>(entries: Seq<Entry<V>>, value: Option<V>)
    requires
        entries_wf(entries),
        disjoint(entries),
    ensures
        owned(entries, value).finite(),
        owned(entries, value).len() == mapped_bytes(entries, value),
    decreases entries.len(),
{
    if entries.len() == 0 {
        assert(owned(entries, value) =~= Set::<int>::empty());
    } else {
        let front = entries.drop_last();
        let last = entries.last();
        assert(last.0.wf());
        assert(disjoint(front)) by {
            assert forall|a: int, b: int| 0 <= a < b < front.len() implies !(
            #[trigger] front[a]).0.overlaps((#[trigger] front[b]).0) by {
                assert(front[a] == entries[a]);
                assert(front[b] == entries[b]);
            }
        }
        lemma_size_counts_addresses(front, value);
        let counts = match value {
            Some(v) => last.1 == v,
            None => true,
        };
        let range = vstd::set_lib::set_int_range(last.0.start as int, last.0.end as int);
        vstd::set_lib::lemma_int_range(last.0.start as int, last.0.end as int);
        let added = if counts {
            range
        } else {
            Set::<int>::empty()
        };
        assert forall|addr: int| last.0.contains(addr) implies owner(front, addr).is_none() by {
            lemma_owner_is_covered(front, addr);
            if owner(front, addr).is_some() {
                let k = choose|k: int|
                    0 <= k < front.len() && (#[trigger] front[k]).0.contains(addr);
                assert(front[k] == entries[k]);
                assert(entries[k].0.overlaps(entries[entries.len() - 1].0));
            }
        }
        assert(owned(front, value).disjoint(added)) by {
            assert forall|addr: int|
                owned(front, value).contains(addr) && added.contains(addr) implies false by {
                assert(last.0.contains(addr));
                assert(owner(front, addr).is_none());
            }
        }
        assert(owned(entries, value) =~= owned(front, value) + added);
        vstd::set_lib::lemma_set_disjoint_lens(owned(front, value), added);
    }
}

/// Where no address is covered twice, a release takes from each value as
/// many addresses as the range held of it.
pub proof fn lemma_released_counts_addresses<V>(
    entries: Seq<Entry<V>>,
    cut: Range,
    value: Option<V>,
)
    requires
        entries_wf(entries),
        disjoint(entries),
    ensures
        owned(entries, value).finite(),
        owned(remaining_after(entries, cut), value) == owned(entries, value).difference(
            Set::new(|addr: int| cut.contains(addr)),
        ),
        released_bytes(released(entries, cut), value) == owned(entries, value).len() - owned(
            remaining_after(entries, cut),
            value,
        ).len(),
{
    let rest = remaining_after(entries, cut);
    lemma_remaining_wf(entries, cut);
    lemma_remove_keeps_disjoint(entries, cut);
    lemma_size_counts_addresses(entries, value);
    lemma_size_counts_addresses(rest, value);
    lemma_release_conserves_bytes(entries, cut, value);
    assert forall|addr: int|
        owned(rest, value).contains(addr) == owned(entries, value).difference(
            Set::new(|addr: int| cut.contains(addr)),
        ).contains(addr) by {
        lemma_remove_is_bytewise(entries, cut, addr);
    }
    assert(owned(rest, value) =~= owned(entries, value).difference(
        Set::new(|addr: int| cut.contains(addr)),
    ));
}

/// One operation on a range map.
pub enum RangeOperation<V> {
    /// `length` addresses from `start` on get the value.
    Add { start: usize, length: usize, value: V },
    /// `length` addresses from `start` on lose their value.
    Remove { start: usize, length: usize },
}

impl<V> RangeOperation<V> {
    /// The addresses that the operation speaks of.
    pub open spec fn range(self) -> Range {
        match self {
            RangeOperation::Add { start, length, value } => Range {
                start,
                end: (start + length) as usize,
            },
            RangeOperation::Remove { start, length } => Range {
                start,
                end: (start + length) as usize,
            },
        }
    }

    /// Whether the addresses end no later than the last address.
    pub open spec fn fits(self) -> bool {
        match self {
            RangeOperation::Add { start, length, value } => start + length <= usize::MAX,
            RangeOperation::Remove { start, length } => start + length <= usize::MAX,
        }
    }
}

/// The entries of a range map after the operation.
pub open spec fn apply_to_entries<V>(entries: Seq<Entry<V>>, op: RangeOperation<V>) -> Seq<
    Entry<V>,
> {
    match op {
        RangeOperation::Add { start, length, value } => if length > 0 {
            entries.push((op.range(), value))
        } else {
            entries
        },
        RangeOperation::Remove { start, length } => remaining_after(entries, op.range()),
    }
}

/// What a map that keeps one value for each address holds after the
/// operation.
pub open spec fn apply_to_addresses<V>(values: Map<int, V>, op: RangeOperation<V>) -> Map<int, V> {
    match op {
        RangeOperation::Add { start, length, value } => Map::new(
            |addr: int| op.range().contains(addr) || values.contains_key(addr),
            |addr: int|
                if op.range().contains(addr) {
                    value
                } else {
                    values[addr]
                },
        ),
        RangeOperation::Remove { start, length } => Map::new(
            |addr: int| values.contains_key(addr) && !op.range().contains(addr),
            |addr: int| values[addr],
        ),
    }
}

/// The entries of a range map that was empty, after the operations.
pub open spec fn entries_after<V>(ops: Seq<RangeOperation<V>>) -> Seq<Entry<V>>
    decreases ops.len(),
{
    if ops.len() == 0 {
        Seq::<Entry<V>>::empty()
    } else {
        apply_to_entries(entries_after(ops.drop_last()), ops.last())
    }
}

/// What a map that keeps one value for each address, and was empty, holds
/// after the operations.
pub open spec fn addresses_after<V>(ops: Seq<RangeOperation<V>>) -> Map<int, V>
    decreases ops.len(),
{
    if ops.len() == 0 {
        Map::<int, V>::empty()
    } else {
        apply_to_addresses(addresses_after(ops.drop_last()), ops.last())
    }
}

/// Whether every addition speaks of addresses that have no value when it is
/// made.
pub open spec fn adds_fresh_addresses<V>(ops: Seq<RangeOperation<V>>) -> bool
    decreases ops.len(),
{
    ops.len() > 0 ==> adds_fresh_addresses(ops.drop_last()) && (ops.last() is Add ==> forall|
        addr: int,
    |
        ops.last().range().contains(addr) ==> !(#[trigger] addresses_after(
            ops.drop_last(),
        ).contains_key(addr)))
}

/// After any run of additions and removals a range map gives every address
/// the value that a map with one value for each address gives it.
pub proof fn lemma_range_map_matches_addresses<V>(ops: Seq<RangeOperation<V>>, addr: int)
    requires
        forall|i: int| 0 <= i < ops.len() ==> (#[trigger] ops[i]).fits(),
    ensures
        entries_wf(entries_after(ops)),
        owner(entries_after(ops), addr) == (if addresses_after(ops).contains_key(addr) {
            Some(addresses_after(ops)[addr])
        } else {
            None
        }),
    decreases ops.len(),
{
    if ops.len() > 0 {
        let front = ops.drop_last();
        assert forall|i: int| 0 <= i < front.len() implies (#[trigger] front[i]).fits() by {
            assert(front[i] == ops[i]);
        }
        lemma_range_map_matches_addresses(front, addr);
        let entries = entries_after(front);
        let op = ops.last();
        assert(ops[ops.len() - 1].fits());
        match op {
            RangeOperation::Add { start, length, value } => {
                lemma_add_is_bytewise(entries, start, length, value, addr);
                if length > 0 {
                    let added = entries.push((op.range(), value));
                    assert forall|i: int| 0 <= i < added.len() implies (
                    #[trigger] added[i]).0.wf() by {
                        if i < entries.len() {
                            assert(added[i] == entries[i]);
                        }
                    }
                }
            },
            RangeOperation::Remove { start, length } => {
                lemma_remove_is_bytewise(entries, op.range(), addr);
                lemma_remaining_wf(entries, op.range());
            },
        }
    }
}

/// After any run of removals and of additions of addresses that had no
/// value, the size of a range map is the number of addresses that a map
/// with one value for each address holds, for every value.
pub proof fn lemma_range_map_size_matches_addresses<V>(
    ops: Seq<RangeOperation<V>>,
    value: Option<V>,
)
    requires
        forall|i: int| 0 <= i < ops.len() ==> (#[trigger] ops[i]).fits(),
        adds_fresh_addresses(ops),
    ensures
        disjoint(entries_after(ops)),
        owned(entries_after(ops), value).finite(),
        mapped_bytes(entries_after(ops), value) == owned(entries_after(ops), value).len(),
        owned(entries_after(ops), value) == Set::new(
            |addr: int|
                addresses_after(ops).contains_key(addr) && (value.is_some() ==> value == Some(
                    addresses_after(ops)[addr],
                )),
        ),
    decreases ops.len(),
{
    lemma_range_map_stays_disjoint(ops);
    assert forall|addr: int| #[trigger]
        owned(entries_after(ops), value).contains(addr) == (addresses_after(ops).contains_key(
            addr,
        ) && (value.is_some() ==> value == Some(addresses_after(ops)[addr]))) by {
        lemma_range_map_matches_addresses(ops, addr);
    }
    lemma_range_map_matches_addresses(ops, 0);
    lemma_size_counts_addresses(entries_after(ops), value);
    assert(owned(entries_after(ops), value) =~= Set::new(
        |addr: int|
            addresses_after(ops).contains_key(addr) && (value.is_some() ==> value == Some(
                addresses_after(ops)[addr],
            )),
    ));
}

/// After any run of removals and of additions of addresses that had no
/// value, no address is covered by two entries.
pub proof fn lemma_range_map_stays_disjoint<V>(ops: Seq<RangeOperation<V>>)
    requires
        forall|i: int| 0 <= i < ops.len() ==> (#[trigger] ops[i]).fits(),
        adds_fresh_addresses(ops),
    ensures
        disjoint(entries_after(ops)),
    decreases ops.len(),
{
    if ops.len() > 0 {
        let front = ops.drop_last();
        assert forall|i: int| 0 <= i < front.len() implies (#[trigger] front[i]).fits() by {
            assert(front[i] == ops[i]);
        }
        lemma_range_map_stays_disjoint(front);
        lemma_range_map_matches_addresses(front, 0);
        let entries = entries_after(front);
        let op = ops.last();
        assert(ops[ops.len() - 1].fits());
        match op {
            RangeOperation::Add { start, length, value } => {
                if length > 0 {
                    assert forall|i: int| 0 <= i < entries.len() implies !(
                    #[trigger] entries[i]).0.overlaps(op.range()) by {
                        if entries[i].0.overlaps(op.range()) {
                            let addr = entries[i].0.shared_start(op.range()) as int;
                            assert(entries[i].0.contains(addr) && op.range().contains(addr));
                            lemma_owner_is_covered(entries, addr);
                            lemma_range_map_matches_addresses(front, addr);
                            assert(!addresses_after(front).contains_key(addr));
                        }
                    }
                    lemma_add_keeps_disjoint(entries, (op.range(), value));
                }
            },
            RangeOperation::Remove { start, length } => {
                lemma_remove_keeps_disjoint(entries, op.range());
            },
        }
    }
}

} // verus!
