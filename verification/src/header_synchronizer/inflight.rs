//! Which headers are being fetched from which peers.
use vstd::prelude::*;

use crate::refs::{AuthorityIndex, BlockRef, Key};
use crate::sorted::{SortedMap, SortedSet};

verus! {

/// From how many peers a header may be fetched at a time by the periodic
/// synchronizer.
pub const MAX_AUTHORITIES_TO_FETCH_PER_BLOCK_HEADER: usize = 3;

/// From how many peers a header may be fetched at a time by the live
/// synchronizer. It is fewer, so that the periodic one goes first.
pub const MAX_AUTHORITIES_TO_LIVE_FETCH_PER_BLOCK_HEADER: usize = 1;

/// What makes headers be fetched.
#[derive(Clone, Copy, Debug, PartialEq, Eq, PartialOrd, Ord, Structural)]
pub enum SyncMethod {
    Live,
    Periodic,
}

impl SyncMethod {
    pub open spec fn spec_as_str(&self) -> &'static str {
        match self {
            SyncMethod::Live => "live",
            SyncMethod::Periodic => "periodic",
        }
    }

    pub fn as_str(&self) -> (r: &'static str)
        ensures
            r == self.spec_as_str(),
    {
        match self {
            SyncMethod::Live => "live",
            SyncMethod::Periodic => "periodic",
        }
    }

    pub open spec fn spec_limit(&self) -> usize {
        match self {
            SyncMethod::Live => 1,
            SyncMethod::Periodic => 3,
        }
    }

    /// From how many peers a header may be fetched at a time.
    pub fn max_authorities_to_fetch_per_block_header(&self) -> (r: usize)
        ensures
            r == self.spec_limit(),
    {
        match self {
            SyncMethod::Live => MAX_AUTHORITIES_TO_LIVE_FETCH_PER_BLOCK_HEADER,
            SyncMethod::Periodic => MAX_AUTHORITIES_TO_FETCH_PER_BLOCK_HEADER,
        }
    }
}

/// For each header that is being fetched, the peers that it is fetched from.
pub type Locks = Map<BlockRef, Set<AuthorityIndex>>;

/// The peers that a header is fetched from.
pub open spec fn holders(locks: Locks, r: BlockRef) -> Set<AuthorityIndex> {
    if locks.dom().contains(r) {
        locks[r]
    } else {
        Set::empty()
    }
}

/// Can one more peer be asked for the header?
pub open spec fn is_lockable(
    locks: Locks,
    peer: AuthorityIndex,
    method: SyncMethod,
    r: BlockRef,
) -> bool {
    !holders(locks, r).contains(peer) && holders(locks, r).len() < method.spec_limit()
}

/// Those of the headers that the peer can be asked for.
pub open spec fn lockable(
    locks: Locks,
    refs: Set<BlockRef>,
    peer: AuthorityIndex,
    method: SyncMethod,
) -> Set<BlockRef> {
    refs.filter(|r: BlockRef| is_lockable(locks, peer, method, r))
}

/// The locks once the peer is asked for these headers.
pub open spec fn locked(locks: Locks, refs: Set<BlockRef>, peer: AuthorityIndex) -> Locks {
    Map::new(
        |r: BlockRef| locks.dom().contains(r) || refs.contains(r),
        |r: BlockRef|
            if refs.contains(r) {
                holders(locks, r).insert(peer)
            } else {
                locks[r]
            },
    )
}

/// Is the peer asked for all of these headers?
pub open spec fn holds_all(locks: Locks, refs: Set<BlockRef>, peer: AuthorityIndex) -> bool {
    forall|r: BlockRef| #[trigger] refs.contains(r) ==> holders(locks, r).contains(peer)
}

/// The locks once the peer is no longer asked for these headers.
pub open spec fn unlocked(locks: Locks, refs: Set<BlockRef>, peer: AuthorityIndex) -> Locks {
    Map::new(
        |r: BlockRef|
            locks.dom().contains(r) && (refs.contains(r) ==> locks[r].remove(peer)
                != Set::<AuthorityIndex>::empty()),
        |r: BlockRef|
            if refs.contains(r) {
                locks[r].remove(peer)
            } else {
                locks[r]
            },
    )
}

/// Headers that a peer is asked for.
#[derive(Debug)]
pub struct BlocksGuard {
    pub block_refs: SortedSet<BlockRef>,
    pub peer: AuthorityIndex,
    pub method: SyncMethod,
}

/// Which headers are being fetched from which peers. A header may be fetched
/// from a few peers at a time only.
#[derive(Debug)]
pub struct InflightBlockHeadersMap {
    pub inner: SortedMap<BlockRef, SortedSet<AuthorityIndex>>,
}

impl InflightBlockHeadersMap {
    pub open spec fn view(self) -> Locks {
        Map::new(
            |r: BlockRef| self.inner@.dom().contains(r),
            |r: BlockRef| self.inner@[r]@,
        )
    }

    pub open spec fn wf(self) -> bool {
        &&& self.inner.wf()
        &&& forall|r: BlockRef| #[trigger]
            self.inner@.dom().contains(r) ==> {
                &&& self.inner@[r].wf()
                &&& 0 < self.inner@[r]@.len() <= MAX_AUTHORITIES_TO_FETCH_PER_BLOCK_HEADER
            }
    }

    pub fn new() -> (r: Self)
        ensures
            r.wf(),
            r@ == Map::<BlockRef, Set<AuthorityIndex>>::empty(),
    {
        let r = InflightBlockHeadersMap { inner: SortedMap::new() };
        assert(r@ =~= Map::<BlockRef, Set<AuthorityIndex>>::empty());
        r
    }

    /// Asks the peer for a header, if it can be asked.
    fn lock_header(&mut self, r: BlockRef, peer: AuthorityIndex, method: SyncMethod) -> (out: bool)
        requires
            old(self).wf(),
        ensures
            final(self).wf(),
            out == is_lockable(old(self)@, peer, method, r),
            final(self)@ == if out {
                old(self)@.insert(r, holders(old(self)@, r).insert(peer))
            } else {
                old(self)@
            },
    {
        let ghost before = *self;
        match self.inner.find(&r) {
            Some(i) => {
                let ghost was = self.inner@[r];
                proof {
                    was.lemma_items();
                }
                if self.inner.entries[i].1.contains(&peer) {
                    return false;
                }
                let total_count = self.inner.entries[i].1.len();
                if total_count >= method.max_authorities_to_fetch_per_block_header() {
                    return false;
                }
                self.inner.entries[i].1.insert(peer);
                proof {
                    let changed = self.inner.entries@[i as int].1;
                    self.inner.lemma_set_value(before.inner, i as int, changed);
                    assert(changed@ == was@.insert(peer));
                    assert(changed@.len() == was@.len() + 1);
                    assert(self@ =~= before@.insert(r, holders(before@, r).insert(peer)));
                }
            },
            None => {
                let mut authorities: SortedSet<AuthorityIndex> = SortedSet::new();
                authorities.insert(peer);
                let ghost changed = authorities;
                self.inner.insert(r, authorities);
                proof {
                    assert(changed@ == Set::<AuthorityIndex>::empty().insert(peer));
                    assert(changed@.len() == 1);
                    assert(self@ =~= before@.insert(r, holders(before@, r).insert(peer)));
                }
            },
        }
        true
    }

    /// Asks the peer for those of the headers that it can be asked for; where
    /// there is none, there is no guard.
    pub fn lock_headers(
        &mut self,
        missing_block_refs: &SortedSet<BlockRef>,
        peer: AuthorityIndex,
        method: SyncMethod,
    ) -> (guard: Option<BlocksGuard>)
        requires
            old(self).wf(),
            missing_block_refs.wf(),
        ensures
            final(self).wf(),
            final(self)@ == locked(
                old(self)@,
                lockable(old(self)@, missing_block_refs@, peer, method),
                peer,
            ),
            match guard {
                None => lockable(old(self)@, missing_block_refs@, peer, method) == Set::<
                    BlockRef,
                >::empty(),
                Some(guard) => {
                    &&& guard.block_refs.wf()
                    &&& guard.block_refs@ == lockable(
                        old(self)@,
                        missing_block_refs@,
                        peer,
                        method,
                    )
                    &&& guard.block_refs@ != Set::<BlockRef>::empty()
                    &&& guard.peer == peer
                    &&& guard.method == method
                    &&& holds_all(final(self)@, guard.block_refs@, peer)
                },
            },
    {
        let ghost before = *self;
        let ghost locks = self@;
        let mut block_refs: SortedSet<BlockRef> = SortedSet::new();
        let n: usize = missing_block_refs.len();
        let ghost items = missing_block_refs.items();
        let mut i: usize = 0;
        proof {
            assert(lockable(locks, items.take(0).to_set(), peer, method) =~= Set::empty());
            assert(locked(locks, Set::empty(), peer) =~= locks);
        }
        while i < n
            invariant
                self.wf(),
                missing_block_refs.wf(),
                items == missing_block_refs.items(),
                n == items.len(),
                i <= n,
                block_refs.wf(),
                block_refs@ == lockable(locks, items.take(i as int).to_set(), peer, method),
                self@ == locked(locks, block_refs@, peer),
            decreases n - i,
        {
            let block_ref = missing_block_refs.at(i);
            let ghost mid = self@;
            let ghost was = block_refs@;
            proof {
                missing_block_refs.lemma_items();
                assert(!items.take(i as int).contains(block_ref)) by {
                    if items.take(i as int).contains(block_ref) {
                        let j = choose|j: int|
                            0 <= j < i && items.take(i as int)[j] == block_ref;
                        assert(items[j].rank() < items[i as int].rank());
                    }
                }
                assert(holders(mid, block_ref) == holders(locks, block_ref));
            }
            let taken = self.lock_header(block_ref, peer, method);
            if taken {
                block_refs.insert(block_ref);
            }
            proof {
                let sofar = items.take(i as int);
                let now = items.take(i + 1);
                assert(now =~= sofar.push(block_ref));
                assert forall|r: BlockRef|
                    now.to_set().contains(r) <==> sofar.to_set().contains(r) || r
                        == block_ref by {
                    if sofar.contains(r) {
                        let j = choose|j: int| 0 <= j < sofar.len() && sofar[j] == r;
                        assert(now[j] == r);
                    }
                    if r == block_ref {
                        assert(now[i as int] == r);
                    }
                }
                assert(block_refs@ =~= lockable(locks, now.to_set(), peer, method));
                assert(self@ =~= locked(locks, block_refs@, peer));
            }
            i = i + 1;
        }
        proof {
            assert(items.take(i as int) =~= items);
            missing_block_refs.lemma_items();
        }
        if block_refs.is_empty() {
            None
        } else {
            Some(BlocksGuard { block_refs, peer, method })
        }
    }

    /// The peer is no longer asked for a header.
    fn unlock_header(&mut self, r: BlockRef, peer: AuthorityIndex)
        requires
            old(self).wf(),
            holders(old(self)@, r).contains(peer),
        ensures
            final(self).wf(),
            final(self)@ == if old(self)@[r].remove(peer) == Set::<AuthorityIndex>::empty() {
                old(self)@.remove(r)
            } else {
                old(self)@.insert(r, old(self)@[r].remove(peer))
            },
    {
        let ghost before = *self;
        match self.inner.find(&r) {
            Some(i) => {
                let ghost was = self.inner@[r];
                proof {
                    was.lemma_items();
                }
                self.inner.entries[i].1.remove(&peer);
                let ghost changed = self.inner.entries@[i as int].1;
                proof {
                    self.inner.lemma_set_value(before.inner, i as int, changed);
                    assert(changed@ == was@.remove(peer));
                    changed.lemma_items();
                }
                if self.inner.entries[i].1.is_empty() {
                    self.inner.remove_at(i);
                    proof {
                        assert(self@ =~= before@.remove(r));
                    }
                } else {
                    proof {
                        assert(changed@ != Set::<AuthorityIndex>::empty());
                        assert(changed@.len() > 0) by {
                            if changed@.len() == 0 {
                                changed@.lemma_len0_is_empty();
                            }
                        }
                        assert(self@ =~= before@.insert(r, before@[r].remove(peer)));
                    }
                }
            },
            None => {},
        }
    }

    /// The peer is no longer asked for these headers. It has to be asked for
    /// each of them.
    pub fn unlock_headers(&mut self, block_refs: &SortedSet<BlockRef>, peer: AuthorityIndex)
        requires
            old(self).wf(),
            block_refs.wf(),
            holds_all(old(self)@, block_refs@, peer),
        ensures
            final(self).wf(),
            final(self)@ == unlocked(old(self)@, block_refs@, peer),
    {
        let ghost locks = self@;
        let n: usize = block_refs.len();
        let ghost items = block_refs.items();
        let mut i: usize = 0;
        proof {
            assert(unlocked(locks, items.take(0).to_set(), peer) =~= locks);
        }
        while i < n
            invariant
                self.wf(),
                block_refs.wf(),
                items == block_refs.items(),
                n == items.len(),
                holds_all(locks, block_refs@, peer),
                i <= n,
                self@ == unlocked(locks, items.take(i as int).to_set(), peer),
            decreases n - i,
        {
            let block_ref = block_refs.at(i);
            let ghost mid = self@;
            proof {
                block_refs.lemma_items();
                assert(!items.take(i as int).contains(block_ref)) by {
                    if items.take(i as int).contains(block_ref) {
                        let j = choose|j: int|
                            0 <= j < i && items.take(i as int)[j] == block_ref;
                        assert(items[j].rank() < items[i as int].rank());
                    }
                }
                assert(block_refs@.contains(block_ref));
                assert(holders(mid, block_ref) == holders(locks, block_ref));
            }
            self.unlock_header(block_ref, peer);
            proof {
                let sofar = items.take(i as int);
                let now = items.take(i + 1);
                assert(now =~= sofar.push(block_ref));
                assert forall|r: BlockRef|
                    now.to_set().contains(r) <==> sofar.to_set().contains(r) || r
                        == block_ref by {
                    if sofar.contains(r) {
                        let j = choose|j: int| 0 <= j < sofar.len() && sofar[j] == r;
                        assert(now[j] == r);
                    }
                    if r == block_ref {
                        assert(now[i as int] == r);
                    }
                }
                assert(self@ =~= unlocked(locks, now.to_set(), peer));
            }
            i = i + 1;
        }
        proof {
            assert(items.take(i as int) =~= items);
            block_refs.lemma_items();
        }
    }

    /// The headers of the guard are asked of another peer, as far as it can be
    /// asked for them, and no longer of that of the guard.
    pub fn swap_locks(&mut self, blocks_guard: BlocksGuard, peer: AuthorityIndex) -> (guard: Option<
        BlocksGuard,
    >)
        requires
            old(self).wf(),
            blocks_guard.block_refs.wf(),
            holds_all(old(self)@, blocks_guard.block_refs@, blocks_guard.peer),
        ensures
            final(self).wf(),
            ({
                let refs = blocks_guard.block_refs@;
                let method = blocks_guard.method;
                let freed = unlocked(old(self)@, refs, blocks_guard.peer);
                &&& final(self)@ == locked(freed, lockable(freed, refs, peer, method), peer)
                &&& match guard {
                    None => lockable(freed, refs, peer, method) == Set::<BlockRef>::empty(),
                    Some(guard) => {
                        &&& guard.block_refs.wf()
                        &&& guard.block_refs@ == lockable(freed, refs, peer, method)
                        &&& guard.block_refs@ != Set::<BlockRef>::empty()
                        &&& guard.peer == peer
                        &&& guard.method == method
                        &&& holds_all(final(self)@, guard.block_refs@, peer)
                    },
                }
            }),
    {
        self.unlock_headers(&blocks_guard.block_refs, blocks_guard.peer);
        self.lock_headers(&blocks_guard.block_refs, peer, blocks_guard.method)
    }

    /// How many headers are being fetched.
    pub fn num_of_locked_headers(&self) -> (r: usize)
        requires
            self.wf(),
        ensures
            r == self@.dom().len(),
    {
        assert(self@.dom() =~= self.inner@.dom());
        self.inner.len()
    }
}

/// No header is fetched from more peers at a time than the method that asked
/// last allows: a peer is added only where there are fewer, and otherwise
/// nothing changes.
pub proof fn law_locks_are_limited(
    locks: Locks,
    refs: Set<BlockRef>,
    peer: AuthorityIndex,
    method: SyncMethod,
    r: BlockRef,
)
    requires
        holders(locks, r).finite(),
    ensures
        ({
            let after = locked(locks, lockable(locks, refs, peer, method), peer);
            &&& holders(after, r) != holders(locks, r) ==> holders(after, r).len()
                <= method.spec_limit()
            &&& holders(after, r).len() <= holders(locks, r).len() || holders(after, r).len()
                <= method.spec_limit()
            &&& holders(locks, r).subset_of(holders(after, r))
        }),
{
}

/// Unlocking what was locked leads back to where it was, whatever else is being
/// fetched.
pub proof fn law_unlock_undoes_lock(
    locks: Locks,
    refs: Set<BlockRef>,
    peer: AuthorityIndex,
    method: SyncMethod,
)
    requires
        forall|r: BlockRef| #[trigger]
            locks.dom().contains(r) ==> locks[r] != Set::<AuthorityIndex>::empty(),
    ensures
        ({
            let taken = lockable(locks, refs, peer, method);
            &&& holds_all(locked(locks, taken, peer), taken, peer)
            &&& unlocked(locked(locks, taken, peer), taken, peer) == locks
        }),
{
    let taken = lockable(locks, refs, peer, method);
    let mid = locked(locks, taken, peer);
    let end = unlocked(mid, taken, peer);
    assert forall|r: BlockRef| #[trigger] taken.contains(r) implies mid[r].remove(peer) == holders(
        locks,
        r,
    ) by {
        assert(holders(locks, r).insert(peer).remove(peer) =~= holders(locks, r));
    }
    assert forall|r: BlockRef| end.dom().contains(r) <==> locks.dom().contains(r) by {
        if taken.contains(r) {
            assert(mid[r].remove(peer) == holders(locks, r));
        }
    }
    assert(end =~= locks);
}

/// A peer that is asked for a header cannot be asked for it again, by either
/// method, before it is unlocked.
pub proof fn law_no_peer_is_asked_twice(
    locks: Locks,
    refs: Set<BlockRef>,
    peer: AuthorityIndex,
    method: SyncMethod,
    again: SyncMethod,
)
    ensures
        ({
            let taken = lockable(locks, refs, peer, method);
            lockable(locked(locks, taken, peer), taken, peer, again) == Set::<BlockRef>::empty()
        }),
{
    let taken = lockable(locks, refs, peer, method);
    let mid = locked(locks, taken, peer);
    assert forall|r: BlockRef| !lockable(mid, taken, peer, again).contains(r) by {
        if taken.contains(r) {
            assert(holders(mid, r).contains(peer));
        }
    }
    assert(lockable(mid, taken, peer, again) =~= Set::empty());
}

} // verus!
