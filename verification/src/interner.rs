//! Call paths by number.

use crate::allocation::CallstackId;
use crate::callsite::CallSiteId;
use crate::memorytracking::Callstack;
use crate::util::{hasher_keys, map_get_ref, map_insert, map_remove, new_hashmap};
use std::collections::HashMap;
use vstd::prelude::*;

verus! {

/// `ahash::RandomState::hash_one` on the frames of a call path: a number
/// made of the frames and of the keys. Nothing is claimed of it.
#[verifier::external_body]
fn hash_frames(keys: &ahash::RandomState, frames: &Vec<CallSiteId>) -> u64 {
    keys.hash_one(frames)
}

/// Gives each distinct call path a number: 0 to the first, 1 to the next,
/// and so on. A call path keeps its number for good.
pub struct CallstackInterner {
    // The call path with id `i` stands at index `i`.
    callstacks: Vec<Callstack>,
    // Where to look first for a call path: under the hash of its frames
    // stand the ids of the call paths that had that hash when they got their
    // id. The hash is a hint only. Where it leads to the call path, it saves
    // the search; where it does not, every call path is looked at.
    by_hash: HashMap<usize, Vec<CallstackId>, ahash::RandomState>,
    keys: ahash::RandomState,
}

impl View for CallstackInterner {
    type V = Seq<Seq<CallSiteId>>;

    /// The frames of each interned call path, by id.
    closed spec fn view(&self) -> Seq<Seq<CallSiteId>> {
        Seq::new(self.callstacks@.len(), |i: int| self.callstacks@[i]@)
    }
}

/// The first of the ids from `from` on that is the id of a call path with
/// the frames `calls`, if there is one.
pub open spec fn first_match(
    paths: Seq<Seq<CallSiteId>>,
    ids: Seq<CallstackId>,
    calls: Seq<CallSiteId>,
    from: int,
) -> Option<CallstackId>
    decreases ids.len() - from,
{
    if from < 0 || from >= ids.len() {
        None
    } else if ids[from] < paths.len() && paths[ids[from] as int] == calls {
        Some(ids[from])
    } else {
        first_match(paths, ids, calls, from + 1)
    }
}

/// The key under which the hints for a hash stand: its low 32 bits.
fn key_of_hash(hash: u64) -> (key: usize)
    ensures
        key == hash % 0x1_0000_0000,
{
    (hash % 0x1_0000_0000) as usize
}

impl CallstackInterner {
    /// The keys with which the hashes of call paths are made.
    pub closed spec fn hash_keys(&self) -> ahash::RandomState {
        self.keys
    }

    /// The id to which the hints under `key` lead for a call path with the
    /// frames `calls`: the first of them that is the id of such a call
    /// path.
    pub closed spec fn hinted(&self, calls: Seq<CallSiteId>, key: usize) -> Option<CallstackId> {
        if self.by_hash@.contains_key(key) {
            first_match(self@, self.by_hash@[key]@, calls, 0)
        } else {
            None
        }
    }

    /// Every hint names a call path that has an id.
    pub closed spec fn hints_wf(&self) -> bool {
        forall|hash: usize, i: int|
            self.by_hash@.contains_key(hash) && 0 <= i < self.by_hash@[hash]@.len() ==> (
            #[trigger] self.by_hash@[hash]@[i]) < self.callstacks@.len()
    }

    /// No call path has two ids, and every id fits in 32 bits with one value
    /// to spare.
    pub open spec fn wf(&self) -> bool {
        &&& self@.no_duplicates()
        &&& self@.len() <= u32::MAX
        &&& self.hints_wf()
    }

    /// Whether the interner can give `calls` an id: it has one, or there is
    /// an id left.
    pub open spec fn can_intern(&self, calls: Seq<CallSiteId>) -> bool {
        self@.contains(calls) || self@.len() < u32::MAX
    }

    /// An interner without call paths, whose hashes are made with keys drawn
    /// at random.
    pub fn new() -> (interner: Self)
        ensures
            interner@ == Seq::<Seq<CallSiteId>>::empty(),
            interner.wf(),
    {
        Self::with_seed(None)
    }

    /// An interner without call paths. With a seed its hashes are made with
    /// the keys `seed`, `seed + 1`, `seed + 2` and `seed + 3`, and so are the
    /// same from run to run.
    pub fn with_seed(seed: Option<u64>) -> (interner: Self)
        requires
            seed.is_some() ==> seed.unwrap() + 3 <= u64::MAX,
        ensures
            interner@ == Seq::<Seq<CallSiteId>>::empty(),
            interner.wf(),
            seed.is_some() ==> interner.hash_keys() == crate::util::keys_for_seed(seed.unwrap()),
    {
        let interner = CallstackInterner {
            callstacks: Vec::new(),
            by_hash: new_hashmap(seed),
            keys: hasher_keys(seed),
        };
        assert(interner@ =~= Seq::<Seq<CallSiteId>>::empty());
        interner
    }

    /// Number of call paths that have an id.
    pub fn len(&self) -> (n: usize)
        ensures
            n == self@.len(),
    {
        self.callstacks.len()
    }

    /// Where the hints for `callstack` stand.
    fn hint_key(&self, callstack: &Callstack) -> (key: usize) {
        key_of_hash(hash_frames(&self.keys, callstack.frames()))
    }

    /// The id of `callstack`, if one of the hints under `key` is its id: the
    /// first of them that is.
    fn find_by_hint(&self, callstack: &Callstack, key: usize) -> (found: Option<CallstackId>)
        requires
            self.wf(),
        ensures
            found == self.hinted(callstack@, key),
            found.is_some() ==> found.unwrap() < self@.len() && self@[found.unwrap() as int]
                == callstack@,
    {
        match map_get_ref(&self.by_hash, key) {
            Some(ids) => {
                let mut idx: usize = 0;
                while idx < ids.len()
                    invariant
                        idx <= ids.len(),
                        self.wf(),
                        self.by_hash@.contains_key(key),
                        *ids == self.by_hash@[key],
                        self.hinted(callstack@, key) == first_match(
                            self@,
                            ids@,
                            callstack@,
                            idx as int,
                        ),
                    decreases ids.len() - idx,
                {
                    let id = ids[idx];
                    assert(self.by_hash@[key]@[idx as int] < self.callstacks@.len());
                    if self.callstacks[id as usize].same_calls(callstack) {
                        assert(self@[id as int] == callstack@);
                        return Some(id);
                    }
                    assert(self@[id as int] != callstack@);
                    idx += 1;
                }
                None
            },
            None => None,
        }
    }

    /// The id of `callstack`, if every call path is looked at.
    fn find_by_search(&self, callstack: &Callstack) -> (found: Option<CallstackId>)
        requires
            self.wf(),
        ensures
            found.is_some() == self@.contains(callstack@),
            found.is_some() ==> found.unwrap() < self@.len() && self@[found.unwrap() as int]
                == callstack@,
    {
        let mut idx: usize = 0;
        while idx < self.callstacks.len()
            invariant
                idx <= self.callstacks.len(),
                self.wf(),
                forall|i: int| 0 <= i < idx ==> self@[i] != callstack@,
            decreases self.callstacks.len() - idx,
        {
            if self.callstacks[idx].same_calls(callstack) {
                assert(self@[idx as int] == callstack@);
                return Some(idx as u32);
            }
            idx += 1;
        }
        None
    }

    /// The id of `callstack`, if it has one, and where its hints stand.
    fn find_with_key(&self, callstack: &Callstack) -> (found: (Option<CallstackId>, usize))
        requires
            self.wf(),
        ensures
            found.0.is_some() == self@.contains(callstack@),
            found.0.is_some() ==> found.0.unwrap() < self@.len() && self@[found.0.unwrap() as int]
                == callstack@,
    {
        let key = self.hint_key(callstack);
        match self.find_by_hint(callstack, key) {
            Some(id) => (Some(id), key),
            None => (self.find_by_search(callstack), key),
        }
    }

    /// The id of `callstack`, if it has one.
    pub fn find(&self, callstack: &Callstack) -> (found: Option<CallstackId>)
        requires
            self.wf(),
        ensures
            found.is_some() == self@.contains(callstack@),
            found.is_some() ==> found.unwrap() < self@.len() && self@[found.unwrap() as int]
                == callstack@,
    {
        self.find_with_key(callstack).0
    }

    /// The id of `callstack`, and whether it is new. A call path that has no
    /// id yet gets the next one.
    pub fn intern(&mut self, callstack: &Callstack) -> (outcome: (CallstackId, bool))
        requires
            old(self).wf(),
            old(self).can_intern(callstack@),
        ensures
            final(self).wf(),
            outcome.1 == !old(self)@.contains(callstack@),
            outcome.0 < final(self)@.len(),
            final(self)@[outcome.0 as int] == callstack@,
            final(self)@ == (if outcome.1 {
                old(self)@.push(callstack@)
            } else {
                old(self)@
            }),
            outcome.1 ==> outcome.0 == old(self)@.len(),
            final(self).hash_keys() == old(self).hash_keys(),
    {
        let (found, key) = self.find_with_key(callstack);
        if let Some(id) = found {
            return (id, false);
        }
        let new_id = self.callstacks.len() as u32;
        self.callstacks.push(callstack.clone());
        let mut ids = match map_remove(&mut self.by_hash, key) {
            Some(ids) => ids,
            None => Vec::new(),
        };
        ids.push(new_id);
        map_insert(&mut self.by_hash, key, ids);
        proof {
            assert(self@ =~= old(self)@.push(callstack@));
            assert forall|hash: usize, i: int|
                self.by_hash@.contains_key(hash) && 0 <= i < self.by_hash@[hash]@.len() implies (
            #[trigger] self.by_hash@[hash]@[i]) < self.callstacks@.len() by {
                if hash == key {
                    if i < ids@.len() - 1 {
                        assert(old(self).by_hash@.contains_key(key));
                        assert(ids@[i] == old(self).by_hash@[key]@[i]);
                    }
                } else {
                    assert(old(self).by_hash@.contains_key(hash));
                    assert(self.by_hash@[hash] == old(self).by_hash@[hash]);
                }
            }
        }
        (new_id, true)
    }

    /// The id of `callstack`. A call path that has no id yet gets the next
    /// one, and then `call_on_new` is called.
    pub fn get_or_insert_id<F: FnOnce()>(&mut self, callstack: &Callstack, call_on_new: F) -> (id:
        CallstackId)
        requires
            old(self).wf(),
            old(self).can_intern(callstack@),
            !old(self)@.contains(callstack@) ==> call_on_new.requires(()),
        ensures
            final(self).wf(),
            id < final(self)@.len(),
            final(self)@[id as int] == callstack@,
            old(self)@.contains(callstack@) ==> final(self)@ == old(self)@,
            !old(self)@.contains(callstack@) ==> {
                &&& final(self)@ == old(self)@.push(callstack@)
                &&& id == old(self)@.len()
                &&& call_on_new.ensures((), ())
            },
            final(self).hash_keys() == old(self).hash_keys(),
    {
        let (id, is_new) = self.intern(callstack);
        if is_new {
            call_on_new();
        }
        id
    }

    /// The call path with id `id`.
    pub fn callstack(&self, id: CallstackId) -> (callstack: &Callstack)
        requires
            id < self@.len(),
        ensures
            callstack@ == self@[id as int],
    {
        &self.callstacks[id as usize]
    }

    /// The call path of each id, by id.
    pub fn get_reverse_map(&self) -> (paths: Vec<Callstack>)
        ensures
            paths@.len() == self@.len(),
            forall|id: int| 0 <= id < self@.len() ==> (#[trigger] paths@[id])@ == self@[id],
    {
        let mut paths: Vec<Callstack> = Vec::new();
        let mut idx: usize = 0;
        while idx < self.callstacks.len()
            invariant
                idx <= self.callstacks.len(),
                paths@.len() == idx,
                forall|id: int| 0 <= id < idx ==> (#[trigger] paths@[id])@ == self@[id],
            decreases self.callstacks.len() - idx,
        {
            paths.push(self.callstacks[idx].clone());
            idx += 1;
        }
        paths
    }
}

} // verus!
