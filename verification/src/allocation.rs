//! One tracked heap allocation, in eight bytes.

use vstd::prelude::*;

verus! {

/// Identifier of an interned call path.
pub type CallstackId = u32;

/// Bytes in a mebibyte.
pub const MIB: usize = 0x10_0000;

/// First size that is stored in mebibytes. In the stored field this bit
/// tells the two units apart.
pub const HIGH_32BIT: u32 = 0x8000_0000;

/// Identifier of a process: the parent, or a child that arose by cloning.
#[derive(Clone, Copy, Debug, PartialEq, Eq, PartialOrd, Ord, Structural)]
pub struct ProcessUid(pub u32);

/// Number of the process that started the tracking.
pub const PARENT_PROCESS_NUMBER: u32 = 0;

impl ProcessUid {
    /// The process that started the tracking.
    pub fn parent() -> (process: ProcessUid)
        ensures
            process == ProcessUid(PARENT_PROCESS_NUMBER),
    {
        ProcessUid(PARENT_PROCESS_NUMBER)
    }
}

/// The size that is accounted for an allocation of `size` bytes: `size`
/// itself below 2^31, else `size` rounded to whole mebibytes (halves go up),
/// of which the count is kept in 31 bits.
pub open spec fn compressed_bytes(size: int) -> int {
    if size < 0x8000_0000 {
        size
    } else {
        (((size + 0x8_0000) / 0x10_0000) % 0x8000_0000) * 0x10_0000
    }
}

/// A call to `malloc` or `calloc` that has not been freed yet: the call path
/// that made it, and its size in a 32-bit field.
#[derive(Clone, Copy, Debug, PartialEq, Eq, Structural)]
pub struct Allocation {
    callstack_id: CallstackId,
    // With the high bit set the rest counts mebibytes, else the field counts
    // bytes.
    compressed_size: u32,
}

impl Allocation {
    #[verifier::type_invariant]
    spec fn fits(self) -> bool {
        self.spec_size() <= usize::MAX
    }

    /// The call path that the allocation is attributed to.
    pub closed spec fn path(self) -> CallstackId {
        self.callstack_id
    }

    /// The size that the record stands for, in bytes.
    pub closed spec fn spec_size(self) -> int {
        if self.compressed_size >= HIGH_32BIT {
            (self.compressed_size - HIGH_32BIT) * MIB
        } else {
            self.compressed_size as int
        }
    }

    /// What the record adds to the bytes of `path`, or to all bytes where no
    /// path is given.
    pub open spec fn counted(self, path: Option<CallstackId>) -> int {
        match path {
            Some(p) => if self.path() == p { self.spec_size() } else { 0 },
            None => self.spec_size(),
        }
    }

    /// The record of an allocation of `size` bytes made on `callstack_id`.
    pub closed spec fn spec_new(callstack_id: CallstackId, size: usize) -> Allocation {
        Allocation {
            callstack_id,
            compressed_size: if size >= HIGH_32BIT {
                ((((size + MIB / 2) / MIB as int) % HIGH_32BIT as int) + HIGH_32BIT) as u32
            } else {
                size as u32
            },
        }
    }

    /// The record of an allocation of `size` bytes made on `callstack_id`.
    pub fn new(callstack_id: CallstackId, size: usize) -> (a: Allocation)
        requires
            size + MIB / 2 <= usize::MAX,
        ensures
            a == Allocation::spec_new(callstack_id, size),
            a.path() == callstack_id,
            a.spec_size() == compressed_bytes(size as int),
    {
        let compressed_size: u32 = if size >= HIGH_32BIT as usize {
            let mib: usize = ((size + MIB / 2) / MIB) % (HIGH_32BIT as usize);
            assert(mib * 0x10_0000 <= size + 0x8_0000) by (nonlinear_arith)
                requires
                    mib <= (size + 0x8_0000) / 0x10_0000,
            ;
            mib as u32 + HIGH_32BIT
        } else {
            size as u32
        };
        Allocation { callstack_id, compressed_size }
    }

    /// The call path that the allocation is attributed to.
    pub fn callstack_id(&self) -> (id: CallstackId)
        ensures
            id == self.path(),
    {
        self.callstack_id
    }

    /// The size that the record stands for, in bytes.
    pub fn size(&self) -> (n: usize)
        ensures
            n == self.spec_size(),
    {
        proof {
            use_type_invariant(self);
        }
        if self.compressed_size >= HIGH_32BIT {
            (self.compressed_size - HIGH_32BIT) as usize * MIB
        } else {
            self.compressed_size as usize
        }
    }
}

/// A size below 2^31 bytes is kept as it is.
pub proof fn lemma_small_sizes_are_exact(size: int)
    requires
        0 <= size < 0x8000_0000,
    ensures
        compressed_bytes(size) == size,
{
}

/// A size from 2^31 bytes up to where its count of mebibytes no longer fits
/// in 31 bits is kept as a whole number of mebibytes, to within half a
/// mebibyte.
pub proof fn lemma_large_sizes_are_close(size: int)
    requires
        0x8000_0000 <= size,
        (size + 0x8_0000) / 0x10_0000 < 0x8000_0000,
    ensures
        size - 0x8_0000 <= compressed_bytes(size) <= size + 0x8_0000,
        compressed_bytes(size) % 0x10_0000 == 0,
{
}

/// Sum, over the allocations of one address map, of what each adds to the
/// bytes of `path` (to all bytes where no path is given).
pub open spec fn alloc_bytes(m: Map<usize, Allocation>, path: Option<CallstackId>) -> int
    decreases m.dom().len(),
    when m.dom().finite()
{
    if m.dom().len() == 0 {
        0
    } else {
        let address = m.dom().choose();
        m[address].counted(path) + alloc_bytes(m.remove(address), path)
    }
}

/// What a record is made of decides what it stands for.
pub proof fn lemma_spec_new(callstack_id: CallstackId, size: usize)
    ensures
        Allocation::spec_new(callstack_id, size).path() == callstack_id,
        Allocation::spec_new(callstack_id, size).spec_size() == compressed_bytes(size as int),
{
}

/// A record counts for no less than nothing.
pub proof fn lemma_counted_nonnegative(a: Allocation, path: Option<CallstackId>)
    ensures
        0 <= a.counted(path) <= a.spec_size(),
        a.counted(None) == a.spec_size(),
        a.counted(Some(a.path())) == a.spec_size(),
{
}

/// The bytes of an address map are those of any one of its allocations and
/// those of the rest.
pub proof fn lemma_alloc_bytes_remove(
    m: Map<usize, Allocation>,
    address: usize,
    path: Option<CallstackId>,
)
    requires
        m.dom().finite(),
        m.contains_key(address),
    ensures
        alloc_bytes(m, path) == m[address].counted(path) + alloc_bytes(m.remove(address), path),
    decreases m.dom().len(),
{
    let chosen = m.dom().choose();
    if chosen != address {
        let rest = m.remove(chosen);
        lemma_alloc_bytes_remove(rest, address, path);
        let other = m.remove(address);
        assert(other.contains_key(chosen));
        lemma_alloc_bytes_remove(other, chosen, path);
        assert(rest.remove(address) =~= other.remove(chosen));
    }
}

/// Storing an allocation at an address replaces what the address held.
pub proof fn lemma_alloc_bytes_insert(
    m: Map<usize, Allocation>,
    address: usize,
    a: Allocation,
    path: Option<CallstackId>,
)
    requires
        m.dom().finite(),
    ensures
        alloc_bytes(m.insert(address, a), path) == a.counted(path) + alloc_bytes(
            m.remove(address),
            path,
        ),
        !m.contains_key(address) ==> m.remove(address) == m,
{
    lemma_alloc_bytes_remove(m.insert(address, a), address, path);
    assert(m.insert(address, a).remove(address) =~= m.remove(address));
    if !m.contains_key(address) {
        assert(m.remove(address) =~= m);
    }
}

/// The bytes of an address map are not negative, and no allocation in it
/// counts for more than all of them.
pub proof fn lemma_alloc_bytes_bounds(m: Map<usize, Allocation>, path: Option<CallstackId>)
    requires
        m.dom().finite(),
    ensures
        0 <= alloc_bytes(m, path) <= alloc_bytes(m, None),
        forall|address: usize| #[trigger]
            m.contains_key(address) ==> m[address].counted(path) <= alloc_bytes(m, path),
    decreases m.dom().len(),
{
    if m.dom().len() > 0 {
        let chosen = m.dom().choose();
        lemma_alloc_bytes_bounds(m.remove(chosen), path);
        assert forall|address: usize| #[trigger] m.contains_key(address) implies m[address].counted(
            path,
        ) <= alloc_bytes(m, path) by {
            if address != chosen {
                assert(m.remove(chosen).contains_key(address));
            }
        }
    }
}

/// Sum of what the listed allocations add to the bytes of `path`.
pub open spec fn listed_bytes(pairs: Seq<(usize, Allocation)>, path: Option<CallstackId>) -> int
    decreases pairs.len(),
{
    if pairs.len() == 0 {
        0
    } else {
        listed_bytes(pairs.drop_last(), path) + pairs.last().1.counted(path)
    }
}

/// Listing the allocations of a map in any order gives the map's bytes.
pub proof fn lemma_listed_bytes(
    pairs: Seq<(usize, Allocation)>,
    m: Map<usize, Allocation>,
    path: Option<CallstackId>,
)
    requires
        m.dom().finite(),
        crate::util::lists_all(pairs, m),
    ensures
        listed_bytes(pairs, path) == alloc_bytes(m, path),
    decreases pairs.len(),
{
    if pairs.len() > 0 {
        let (address, a) = pairs.last();
        assert(m.contains_pair(pairs[pairs.len() - 1].0, pairs[pairs.len() - 1].1));
        let rest = m.remove(address);
        let front = pairs.drop_last();
        assert forall|i: int| 0 <= i < front.len() implies rest.contains_pair(
            (#[trigger] front[i]).0,
            front[i].1,
        ) by {
            assert(m.contains_pair(pairs[i].0, pairs[i].1));
            assert(pairs[i].0 != pairs[pairs.len() - 1].0);
        }
        lemma_listed_bytes(front, rest, path);
        lemma_alloc_bytes_remove(m, address, path);
    } else {
        assert(m.dom().len() == 0);
    }
}

/// The bytes of a part of the listed allocations are not negative and no
/// more than those of all of them.
pub proof fn lemma_listed_bytes_prefix(
    pairs: Seq<(usize, Allocation)>,
    n: int,
    path: Option<CallstackId>,
)
    requires
        0 <= n <= pairs.len(),
    ensures
        0 <= listed_bytes(pairs.take(n), path) <= listed_bytes(pairs, path),
    decreases pairs.len() - n,
{
    if n == pairs.len() {
        assert(pairs.take(n) =~= pairs);
        lemma_listed_bytes_nonnegative(pairs, path);
    } else {
        lemma_listed_bytes_prefix(pairs, n + 1, path);
        assert(pairs.take(n + 1).drop_last() =~= pairs.take(n));
        lemma_listed_bytes_nonnegative(pairs.take(n), path);
    }
}

/// Listed bytes are not negative.
pub proof fn lemma_listed_bytes_nonnegative(
    pairs: Seq<(usize, Allocation)>,
    path: Option<CallstackId>,
)
    ensures
        0 <= listed_bytes(pairs, path),
    decreases pairs.len(),
{
    if pairs.len() > 0 {
        lemma_listed_bytes_nonnegative(pairs.drop_last(), path);
    }
}

} // verus!
