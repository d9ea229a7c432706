//! Catching up on commits with all of their headers and transactions.

use vstd::prelude::*;

use crate::commit::TrustedCommit;
use crate::commit_syncer::fast::{paused_by_fast_sync, FastSyncPauseSource, PauseCounts};
use crate::commit_syncer::shared::{
    batches, fetch_limit, schedule_commit_ranges, target_parallel_fetches, try_start_fetches,
    CommitSyncType, SyncParameters, SyncState, SyncView,
};
use crate::commit_syncer::wire::{message_of, SerializedTransactionsV2};
use crate::error::{ConsensusError, ConsensusResult};
use crate::header::{share, Bytes, VerifiedBlockHeader, VerifiedTransactions};
use crate::refs::{
    AuthorityIndex, BlockRef, CommitIndex, CommitRange, GenericTransactionRef, TransactionRef,
};
use crate::sorted::{ascending, SortedMap, SortedSet};

verus! {

/// A certified commit with its headers and its transactions.
#[derive(Debug)]
pub struct CertifiedCommit {
    pub commit: TrustedCommit,
    pub block_headers: Vec<VerifiedBlockHeader>,
    pub transactions: Vec<VerifiedTransactions>,
}

/// The range that fetched commits cover.
pub open spec fn covered_range(commits: Seq<CertifiedCommit>) -> CommitRange {
    CommitRange {
        start: commits.first().commit.commit.index,
        end: commits.last().commit.commit.index,
    }
}

/// `a - b`, or 0 where that would be negative.
pub open spec fn gap_between(a: CommitIndex, b: CommitIndex) -> CommitIndex {
    if a >= b {
        (a - b) as CommitIndex
    } else {
        0
    }
}

/// The scheduler of regular commit synchronization.
#[derive(Debug)]
pub struct RegularCommitSyncer {
    pub parameters: SyncParameters,
    pub committee_size: usize,
    pub state: SyncState<Vec<CertifiedCommit>>,
}

impl RegularCommitSyncer {
    pub open spec fn wf(self) -> bool {
        &&& self.parameters.wf()
        &&& 0 < self.committee_size <= 256
        &&& self.state.wf()
    }

    pub open spec fn view(self) -> SyncView<Vec<CertifiedCommit>> {
        self.state@
    }

    /// What does not change while the scheduler runs.
    pub open spec fn same_setup(self, other: Self) -> bool {
        self.parameters == other.parameters && self.committee_size == other.committee_size
    }

    pub fn new(
        parameters: SyncParameters,
        committee_size: usize,
        last_commit_index: CommitIndex,
    ) -> (r: Self)
        requires
            parameters.wf(),
            0 < committee_size <= 256,
        ensures
            r.wf(),
            r.parameters == parameters,
            r.committee_size == committee_size,
            r@ == (SyncView::<Vec<CertifiedCommit>> {
                pending: Set::empty(),
                fetched: Map::empty(),
                highest_scheduled: None,
                highest_fetched: 0,
                synced: last_commit_index,
            }),
    {
        RegularCommitSyncer {
            parameters,
            committee_size,
            state: SyncState::new(last_commit_index),
        }
    }

    /// Is the gap for this synchronizer to close?
    pub open spec fn is_in_charge(self, quorum: CommitIndex, local: CommitIndex) -> bool {
        CommitSyncType::Regular.spec_should_schedule(
            gap_between(quorum, local),
            self.parameters.commit_sync_gap_threshold,
            self.parameters.enable_fast_commit_syncer,
        )
    }

    /// Is the gap for this synchronizer to close, and is it free to?
    pub open spec fn may_schedule(
        self,
        quorum: CommitIndex,
        local: CommitIndex,
        fast_sync_active: Option<bool>,
    ) -> bool {
        self.is_in_charge(quorum, local) && fast_sync_active != Some(true)
    }

    /// Schedules the full batches that a quorum has made and that the handler
    /// keeps up with, unless the gap is for fast synchronization to close or it
    /// is at work.
    pub fn try_schedule_once(
        &mut self,
        quorum_commit_index: CommitIndex,
        local_commit_index: CommitIndex,
        highest_handled_index: CommitIndex,
        fast_sync_active: Option<bool>,
        pauses: &mut PauseCounts,
    )
        requires
            old(self).wf(),
            quorum_commit_index + old(self).parameters.commit_sync_batch_size <= CommitIndex::MAX,
            highest_handled_index + old(self).parameters.commit_sync_batch_size * old(
                self,
            ).parameters.commit_sync_batches_ahead <= CommitIndex::MAX,
        ensures
            final(self).wf(),
            final(self).same_setup(*old(self)),
            final(self)@ == if old(self).may_schedule(
                quorum_commit_index,
                local_commit_index,
                fast_sync_active,
            ) {
                let raised = old(self)@.raise_synced(local_commit_index);
                raised.schedule(
                    batches(
                        raised.fetch_after() as int,
                        fetch_limit(
                            quorum_commit_index as int,
                            highest_handled_index as int,
                            old(self).parameters.commit_sync_batch_size * old(
                                self,
                            ).parameters.commit_sync_batches_ahead,
                        ),
                        old(self).parameters.commit_sync_batch_size as int,
                    ),
                )
            } else {
                old(self)@
            },
            final(pauses).follows(
                *old(pauses),
                FastSyncPauseSource::RegularSchedule,
                old(self).is_in_charge(quorum_commit_index, local_commit_index)
                    && fast_sync_active == Some(true),
            ),
    {
        let gap: u32 = quorum_commit_index.saturating_sub(local_commit_index);
        if !CommitSyncType::Regular.should_schedule(
            gap,
            self.parameters.commit_sync_gap_threshold,
            self.parameters.enable_fast_commit_syncer,
        ) {
            return;
        }
        if paused_by_fast_sync(fast_sync_active, pauses, FastSyncPauseSource::RegularSchedule) {
            return;
        }
        self.state.raise_synced(local_commit_index);
        let threshold: CommitIndex = self.parameters.unhandled_commits_threshold();
        let fetch_after: CommitIndex = self.state.fetch_after_index();
        let scheduled = schedule_commit_ranges(
            CommitSyncType::Regular,
            &self.parameters,
            fetch_after,
            quorum_commit_index,
            highest_handled_index,
            threshold,
        );
        self.state.add_scheduled(scheduled);
    }

    /// Takes in the commits that a fetch up to `target_end` has brought. What is
    /// missing is put back, and what is new is kept until it can be handed on.
    pub fn handle_fetch_result(
        &mut self,
        target_end: CommitIndex,
        certified_commits: Vec<CertifiedCommit>,
        local_commit_index: CommitIndex,
    )
        requires
            old(self).wf(),
            certified_commits@.len() > 0,
        ensures
            final(self).wf(),
            final(self).same_setup(*old(self)),
            final(self)@ == old(self)@.receive(
                target_end,
                covered_range(certified_commits@),
                certified_commits,
                local_commit_index,
            ),
    {
        let start: CommitIndex = certified_commits[0].commit.commit.index;
        let end: CommitIndex =
            certified_commits[certified_commits.len() - 1].commit.commit.index;
        self.state.receive(
            target_end,
            CommitRange::new(start, end),
            certified_commits,
            local_commit_index,
        );
    }

    /// Takes the next commits that can be handed to the core.
    pub fn next_to_dispatch(&mut self) -> (r: Option<(CommitRange, Vec<CertifiedCommit>)>)
        requires
            old(self).wf(),
            old(self)@.synced < CommitIndex::MAX,
        ensures
            final(self).wf(),
            final(self).same_setup(*old(self)),
            final(self)@ == (SyncView { fetched: final(self)@.fetched, ..old(self)@ }),
            match r {
                Some((range, commits)) => {
                    &&& old(self)@.fetched.dom().contains(range)
                    &&& commits == old(self)@.fetched[range]
                    &&& range.start <= old(self)@.synced + 1
                    &&& range.end > old(self)@.synced
                    &&& forall|q: CommitRange| #[trigger]
                        old(self)@.fetched.dom().contains(q) && crate::refs::Key::rank(q)
                            < crate::refs::Key::rank(range) ==> q.end <= old(self)@.synced
                    &&& final(self)@.fetched == old(self)@.fetched.restrict(
                        old(self)@.fetched.dom().filter(
                            |q: CommitRange|
                                crate::refs::Key::rank(q) > crate::refs::Key::rank(range),
                        ),
                    )
                },
                None => {
                    &&& final(self)@.is_blocked()
                    &&& forall|q: CommitRange| #[trigger]
                        old(self)@.fetched.dom().contains(q)
                            ==> final(self)@.fetched.dom().contains(q) || q.end
                            <= old(self)@.synced
                    &&& forall|q: CommitRange| #[trigger]
                        final(self)@.fetched.dom().contains(q) ==> old(
                            self,
                        )@.fetched.dom().contains(q) && final(self)@.fetched[q] == old(
                            self,
                        )@.fetched[q]
                },
            },
    {
        self.state.next_to_dispatch()
    }

    /// Notes that the commits of `range` have gone to the core.
    pub fn dispatched(&mut self, range: CommitRange)
        requires
            old(self).wf(),
        ensures
            final(self).wf(),
            final(self).same_setup(*old(self)),
            final(self)@ == old(self)@.raise_synced(range.end),
    {
        self.state.raise_synced(range.end);
    }

    /// Takes the ranges to start fetching now; none while fast synchronization
    /// is at work.
    pub fn try_start_fetches(
        &mut self,
        inflight_fetches: usize,
        fast_sync_active: Option<bool>,
        pauses: &mut PauseCounts,
    ) -> (started: Vec<CommitRange>)
        requires
            old(self).wf(),
        ensures
            final(self).wf(),
            final(self).same_setup(*old(self)),
            final(self)@ == (SyncView {
                pending: old(self)@.pending.difference(started@.to_set()),
                ..old(self)@
            }),
            started@ + final(self).state.pending_fetches.items() == old(
                self,
            ).state.pending_fetches.items(),
            ({
                let free = target_parallel_fetches(
                    old(self).parameters,
                    old(self).committee_size as int,
                    old(self)@.fetched.dom().len() as int,
                ) - inflight_fetches;
                let pending = old(self).state.pending_fetches.items().len();
                started@.len() == if fast_sync_active == Some(true) || free <= 0 {
                    0
                } else if free < pending {
                    free
                } else {
                    pending as int
                }
            }),
            final(pauses).follows(
                *old(pauses),
                FastSyncPauseSource::RegularStartFetches,
                fast_sync_active == Some(true),
            ),
    {
        if paused_by_fast_sync(
            fast_sync_active,
            pauses,
            FastSyncPauseSource::RegularStartFetches,
        ) {
            let started: Vec<CommitRange> = Vec::new();
            proof {
                assert(self@.pending.difference(started@.to_set()) =~= self@.pending);
                assert(started@ + self.state.pending_fetches.items()
                    =~= self.state.pending_fetches.items());
            }
            return started;
        }
        let fetched: usize = self.state.fetched_ranges.len();
        try_start_fetches(
            &self.parameters,
            self.committee_size,
            &mut self.state.pending_fetches,
            fetched,
            inflight_fetches,
        )
    }
}

/// The references that the commits name, and those of the transactions that came
/// with them.
pub open spec fn is_missing(commits: Seq<CertifiedCommit>, k: GenericTransactionRef) -> bool {
    &&& exists|i: int|
        0 <= i < commits.len() && (
        #[trigger] commits[i]).commit.commit.committed_transactions@.contains(k)
    &&& !is_available(commits, k)
}

/// Did transactions under this name come with the commits?
pub open spec fn is_available(commits: Seq<CertifiedCommit>, k: GenericTransactionRef) -> bool {
    exists|i: int, j: int|
        0 <= i < commits.len() && 0 <= j < commits[i].transactions@.len() && k
            == GenericTransactionRef::TransactionRef(
            (#[trigger] commits[i].transactions@[j]).transaction_ref,
        )
}

/// Lists the transactions that the commits name but did not come with them, in
/// order.
pub fn missing_transactions(commits: &Vec<CertifiedCommit>) -> (r: Vec<GenericTransactionRef>)
    ensures
        ascending(r@),
        forall|k: GenericTransactionRef| #[trigger] r@.contains(k) <==> is_missing(commits@, k),
{
    let mut available: SortedSet<GenericTransactionRef> = SortedSet::new();
    let mut i: usize = 0;
    while i < commits.len()
        invariant
            i <= commits@.len(),
            available.wf(),
            forall|k: GenericTransactionRef| #[trigger]
                available@.contains(k) <==> is_available(commits@.take(i as int), k),
        decreases commits@.len() - i,
    {
        let ghost base = available@;
        let transactions = &commits[i].transactions;
        let mut j: usize = 0;
        while j < transactions.len()
            invariant
                i < commits@.len(),
                *transactions == commits@[i as int].transactions,
                j <= transactions@.len(),
                available.wf(),
                forall|k: GenericTransactionRef| #[trigger]
                    available@.contains(k) <==> (base.contains(k) || exists|x: int|
                        0 <= x < j && k == GenericTransactionRef::TransactionRef(
                            (#[trigger] transactions@[x]).transaction_ref,
                        )),
            decreases transactions@.len() - j,
        {
            let ghost before = available@;
            let key = GenericTransactionRef::TransactionRef(transactions[j].transaction_ref);
            available.insert(key);
            proof {
                assert forall|k: GenericTransactionRef| #[trigger] available@.contains(k) <==> (
                base.contains(k) || exists|x: int|
                    0 <= x < j + 1 && k == GenericTransactionRef::TransactionRef(
                        (#[trigger] transactions@[x]).transaction_ref,
                    )) by {
                    if k == key {
                        assert(k == GenericTransactionRef::TransactionRef(
                            transactions@[j as int].transaction_ref,
                        ));
                    }
                    if before.contains(k) && !base.contains(k) {
                        let x = choose|x: int|
                            0 <= x < j && k == GenericTransactionRef::TransactionRef(
                                (#[trigger] transactions@[x]).transaction_ref,
                            );
                        assert(k == GenericTransactionRef::TransactionRef(
                            transactions@[x].transaction_ref,
                        ));
                    }
                }
            }
            j = j + 1;
        }
        proof {
            let a = commits@.take(i as int);
            let b = commits@.take(i + 1);
            assert forall|k: GenericTransactionRef| #[trigger] available@.contains(k)
                <==> is_available(b, k) by {
                if base.contains(k) {
                    let (x, y) = choose|x: int, y: int|
                        0 <= x < a.len() && 0 <= y < a[x].transactions@.len() && k
                            == GenericTransactionRef::TransactionRef(
                            (#[trigger] a[x].transactions@[y]).transaction_ref,
                        );
                    assert(b[x].transactions@[y] == a[x].transactions@[y]);
                } else if available@.contains(k) {
                    let x = choose|x: int|
                        0 <= x < j && k == GenericTransactionRef::TransactionRef(
                            (#[trigger] transactions@[x]).transaction_ref,
                        );
                    assert(b[i as int].transactions@[x] == transactions@[x]);
                }
                if is_available(b, k) {
                    let (x, y) = choose|x: int, y: int|
                        0 <= x < b.len() && 0 <= y < b[x].transactions@.len() && k
                            == GenericTransactionRef::TransactionRef(
                            (#[trigger] b[x].transactions@[y]).transaction_ref,
                        );
                    if x < i {
                        assert(a[x].transactions@[y] == b[x].transactions@[y]);
                        assert(is_available(a, k));
                    } else {
                        assert(transactions@[y] == b[x].transactions@[y]);
                    }
                }
            }
        }
        i = i + 1;
    }
    assert(commits@.take(i as int) =~= commits@);
    let mut missing: SortedSet<GenericTransactionRef> = SortedSet::new();
    let mut i: usize = 0;
    while i < commits.len()
        invariant
            i <= commits@.len(),
            available.wf(),
            missing.wf(),
            forall|k: GenericTransactionRef| #[trigger]
                available@.contains(k) <==> is_available(commits@, k),
            forall|k: GenericTransactionRef| #[trigger]
                missing@.contains(k) <==> (!available@.contains(k) && exists|x: int|
                    0 <= x < i && (
                    #[trigger] commits@[x]).commit.commit.committed_transactions@.contains(k)),
        decreases commits@.len() - i,
    {
        let ghost base = missing@;
        let refs = &commits[i].commit.commit.committed_transactions;
        let mut j: usize = 0;
        while j < refs.len()
            invariant
                j <= refs@.len(),
                available.wf(),
                missing.wf(),
                forall|k: GenericTransactionRef| #[trigger]
                    missing@.contains(k) <==> (base.contains(k) || (!available@.contains(k)
                        && refs@.take(j as int).contains(k))),
            decreases refs@.len() - j,
        {
            let k = refs[j];
            if !available.contains(&k) {
                missing.insert(k);
            }
            proof {
                let x = refs@.take(j as int);
                let y = refs@.take(j + 1);
                assert forall|q: GenericTransactionRef| y.contains(q) <==> (x.contains(q) || q
                    == k) by {
                    if x.contains(q) {
                        let z = choose|z: int| 0 <= z < x.len() && x[z] == q;
                        assert(y[z] == q);
                    }
                    assert(y[j as int] == k);
                    if y.contains(q) {
                        let z = choose|z: int| 0 <= z < y.len() && y[z] == q;
                        if z < j {
                            assert(x[z] == q);
                        }
                    }
                }
            }
            j = j + 1;
        }
        proof {
            assert(refs@.take(j as int) =~= refs@);
            assert forall|k: GenericTransactionRef| #[trigger] missing@.contains(k) <==> (
            !available@.contains(k) && exists|x: int|
                0 <= x < i + 1 && (
                #[trigger] commits@[x]).commit.commit.committed_transactions@.contains(k)) by {
                if base.contains(k) {
                    let x = choose|x: int|
                        0 <= x < i && (
                        #[trigger] commits@[x]).commit.commit.committed_transactions@.contains(k);
                    assert(commits@[x].commit.commit.committed_transactions@.contains(k));
                }
                if refs@.contains(k) {
                    assert(commits@[i as int].commit.commit.committed_transactions@.contains(k));
                }
            }
        }
        i = i + 1;
    }
    let r = missing.to_vec();
    proof {
        missing.lemma_items();
        assert forall|k: GenericTransactionRef| #[trigger] r@.contains(k) <==> is_missing(
            commits@,
            k,
        ) by {
            assert(r@.contains(k) <==> r@.to_set().contains(k));
        }
    }
    r
}

/// How many chunks of `size` cover `len` elements.
pub open spec fn chunk_count(len: int, size: int) -> int {
    (len + size - 1) / size
}

/// The `i`-th chunk of `size` elements.
pub open spec fn chunk<T>(s: Seq<T>, size: int, i: int) -> Seq<T> {
    s.subrange(
        i * size,
        if (i + 1) * size < s.len() {
            (i + 1) * size
        } else {
            s.len() as int
        },
    )
}

/// Cuts a list into chunks of `size` elements; the last one may be shorter.
pub fn chunks<T: Copy>(v: &Vec<T>, size: usize) -> (r: Vec<Vec<T>>)
    requires
        size > 0,
    ensures
        r@.len() == chunk_count(v@.len() as int, size as int),
        forall|i: int| 0 <= i < r@.len() ==> (#[trigger] r@[i])@ == chunk(v@, size as int, i),
        forall|i: int| 0 <= i < r@.len() ==> 0 < (#[trigger] r@[i])@.len() <= size,
{
    let mut r: Vec<Vec<T>> = Vec::new();
    let mut start: usize = 0;
    let n: usize = v.len();
    let ghost s = size as int;
    assert(0 * s == 0);
    while start < n
        invariant
            size > 0,
            s == size,
            n == v@.len(),
            start <= n,
            start == if r@.len() * s < n {
                r@.len() * s
            } else {
                n as int
            },
            r@.len() > 0 ==> (r@.len() - 1) * s < n,
            forall|i: int| 0 <= i < r@.len() ==> (#[trigger] r@[i])@ == chunk(v@, s, i),
            forall|i: int| 0 <= i < r@.len() ==> 0 < (#[trigger] r@[i])@.len() <= size,
        decreases n - start,
    {
        let end: usize = if n - start <= size {
            n
        } else {
            start + size
        };
        let mut part: Vec<T> = Vec::new();
        let mut j: usize = start;
        while j < end
            invariant
                start <= j <= end <= n,
                n == v@.len(),
                part@ == v@.subrange(start as int, j as int),
            decreases end - j,
        {
            part.push(v[j]);
            j = j + 1;
            assert(part@ =~= v@.subrange(start as int, j as int));
        }
        proof {
            let k = r@.len() as int;
            assert((k + 1) * s == k * s + s) by (nonlinear_arith);
            assert(part@ =~= chunk(v@, s, k));
        }
        r.push(part);
        start = end;
    }
    proof {
        let k = r@.len() as int;
        let l = n as int;
        assert((k - 1) * s == k * s - s) by (nonlinear_arith);
        if k == 0 {
            assert(l == 0);
            assert((s - 1) / s == 0) by (nonlinear_arith)
                requires
                    s > 0,
            ;
        } else {
            assert((l + s - 1) / s == k) by (nonlinear_arith)
                requires
                    s > 0,
                    k * s >= l,
                    k * s - s < l,
            ;
        }
    }
    r
}

/// The longest pause between two requests of one fetch: a second.
pub const MAX_PIPELINE_DELAY_NANOS: u64 = 1_000_000_000;

/// How long to wait between two of `n` requests.
pub open spec fn pause(timeout_nanos: int, n: int) -> int {
    if timeout_nanos / n < MAX_PIPELINE_DELAY_NANOS {
        timeout_nanos / n
    } else {
        MAX_PIPELINE_DELAY_NANOS as int
    }
}

/// How long to wait before the `i`-th of `n` requests for headers.
pub fn header_request_delay(timeout_nanos: u64, n: u32, i: u32) -> (r: u64)
    requires
        n > 0,
    ensures
        r == pause(timeout_nanos as int, n as int) * i,
{
    let share_of: u64 = timeout_nanos / n as u64;
    let pause_nanos: u64 = if share_of < MAX_PIPELINE_DELAY_NANOS {
        share_of
    } else {
        MAX_PIPELINE_DELAY_NANOS
    };
    proof {
        let p = pause_nanos as int;
        assert(0 <= p * i <= 1_000_000_000 * 0x1_0000_0000) by (nonlinear_arith)
            requires
                0 <= p <= 1_000_000_000,
                0 <= i < 0x1_0000_0000,
        ;
    }
    pause_nanos * i as u64
}

/// How long to wait before the `i`-th of `n` requests for transactions, which
/// run half a pause after those for headers.
pub fn transactions_request_delay(timeout_nanos: u64, n: u32, i: u32) -> (r: u64)
    requires
        n > 0,
    ensures
        r == pause(timeout_nanos as int, n as int) * i + pause(
            timeout_nanos as int,
            n as int,
        ) / 2,
{
    let share_of: u64 = timeout_nanos / n as u64;
    let pause_nanos: u64 = if share_of < MAX_PIPELINE_DELAY_NANOS {
        share_of
    } else {
        MAX_PIPELINE_DELAY_NANOS
    };
    proof {
        let p = pause_nanos as int;
        assert(0 <= p * i <= 1_000_000_000 * 0x1_0000_0000) by (nonlinear_arith)
            requires
                0 <= p <= 1_000_000_000,
                0 <= i < 0x1_0000_0000,
        ;
    }
    pause_nanos * i as u64 + pause_nanos / 2
}

/// The headers that the commits take in, one commit after the other.
pub open spec fn all_block_refs(commits: Seq<TrustedCommit>) -> Seq<BlockRef>
    decreases commits.len(),
{
    if commits.len() == 0 {
        Seq::empty()
    } else {
        all_block_refs(commits.drop_last()) + commits.last().commit.block_headers@
    }
}

/// The transactions that the commits put in order, one commit after the other.
pub open spec fn all_transaction_refs(commits: Seq<TrustedCommit>) -> Seq<GenericTransactionRef>
    decreases commits.len(),
{
    if commits.len() == 0 {
        Seq::empty()
    } else {
        all_transaction_refs(commits.drop_last()) + commits.last().commit.committed_transactions@
    }
}

/// Lists the headers that the commits take in.
pub fn list_block_refs(commits: &Vec<TrustedCommit>) -> (r: Vec<BlockRef>)
    ensures
        r@ == all_block_refs(commits@),
{
    let mut r: Vec<BlockRef> = Vec::new();
    let mut i: usize = 0;
    assert(commits@.take(0) =~= Seq::empty());
    while i < commits.len()
        invariant
            i <= commits@.len(),
            r@ == all_block_refs(commits@.take(i as int)),
        decreases commits@.len() - i,
    {
        let refs = &commits[i].commit.block_headers;
        let ghost base = r@;
        let mut j: usize = 0;
        assert(base + refs@.take(0) =~= base);
        while j < refs.len()
            invariant
                j <= refs@.len(),
                r@ == base + refs@.take(j as int),
            decreases refs@.len() - j,
        {
            r.push(refs[j]);
            j = j + 1;
            assert(r@ =~= base + refs@.take(j as int));
        }
        proof {
            assert(refs@.take(j as int) =~= refs@);
            assert(commits@.take(i + 1).drop_last() =~= commits@.take(i as int));
        }
        i = i + 1;
    }
    assert(commits@.take(i as int) =~= commits@);
    r
}

/// Lists the transactions that the commits put in order.
pub fn list_transaction_refs(commits: &Vec<TrustedCommit>) -> (r: Vec<GenericTransactionRef>)
    ensures
        r@ == all_transaction_refs(commits@),
{
    let mut r: Vec<GenericTransactionRef> = Vec::new();
    let mut i: usize = 0;
    assert(commits@.take(0) =~= Seq::empty());
    while i < commits.len()
        invariant
            i <= commits@.len(),
            r@ == all_transaction_refs(commits@.take(i as int)),
        decreases commits@.len() - i,
    {
        let refs = &commits[i].commit.committed_transactions;
        let ghost base = r@;
        let mut j: usize = 0;
        assert(base + refs@.take(0) =~= base);
        while j < refs.len()
            invariant
                j <= refs@.len(),
                r@ == base + refs@.take(j as int),
            decreases refs@.len() - j,
        {
            r.push(refs[j]);
            j = j + 1;
            assert(r@ =~= base + refs@.take(j as int));
        }
        proof {
            assert(refs@.take(j as int) =~= refs@);
            assert(commits@.take(i + 1).drop_last() =~= commits@.take(i as int));
        }
        i = i + 1;
    }
    assert(commits@.take(i as int) =~= commits@);
    r
}

/// One request of a fetch: what to ask for, and how long to wait before asking.
#[derive(Debug)]
pub struct FetchRequest<T> {
    pub refs: Vec<T>,
    pub delay_nanos: u64,
}

/// Plans the requests for the headers that the commits take in.
pub fn plan_header_requests(
    commits: &Vec<TrustedCommit>,
    parameters: &SyncParameters,
    timeout_nanos: u64,
) -> (r: Vec<FetchRequest<BlockRef>>)
    requires
        parameters.wf(),
        all_block_refs(commits@).len() <= u32::MAX,
    ensures
        ({
            let refs = all_block_refs(commits@);
            let size = parameters.max_headers_per_commit_sync_fetch as int;
            &&& r@.len() == chunk_count(refs.len() as int, size)
            &&& forall|i: int|
                0 <= i < r@.len() ==> (#[trigger] r@[i]).refs@ == chunk(refs, size, i)
                    && r@[i].delay_nanos == pause(timeout_nanos as int, r@.len() as int) * i
        }),
{
    let refs = list_block_refs(commits);
    let size: usize = parameters.max_headers_per_commit_sync_fetch;
    let parts = chunks(&refs, size);
    let n: usize = parts.len();
    let mut r: Vec<FetchRequest<BlockRef>> = Vec::new();
    let mut parts = parts;
    let ghost all = parts@;
    proof {
        lemma_chunk_count(refs@.len() as int, size as int);
    }
    let mut i: usize = 0;
    assert(all.skip(0) =~= all);
    while i < n
        invariant
            n == all.len(),
            n <= u32::MAX,
            i <= n,
            parts@ == all.skip(i as int),
            r@.len() == i,
            forall|k: int|
                0 <= k < i ==> (#[trigger] r@[k]).refs@ == all[k]@ && r@[k].delay_nanos == pause(
                    timeout_nanos as int,
                    n as int,
                ) * k,
        decreases n - i,
    {
        let part = parts.remove(0);
        assert(parts@ =~= all.skip(i + 1));
        let delay_nanos: u64 = header_request_delay(timeout_nanos, n as u32, i as u32);
        r.push(FetchRequest { refs: part, delay_nanos });
        i = i + 1;
    }
    r
}

/// There are no more chunks than elements.
proof fn lemma_chunk_count(len: int, size: int)
    requires
        len >= 0,
        size > 0,
    ensures
        0 <= chunk_count(len, size) <= len,
{
    let c = chunk_count(len, size);
    assert(0 <= c && c <= len) by (nonlinear_arith)
        requires
            c == (len + size - 1) / size,
            len >= 0,
            size > 0,
    ;
}

/// Plans the requests for the transactions that the commits put in order.
pub fn plan_transactions_requests(
    commits: &Vec<TrustedCommit>,
    parameters: &SyncParameters,
    timeout_nanos: u64,
) -> (r: Vec<FetchRequest<GenericTransactionRef>>)
    requires
        parameters.wf(),
        all_transaction_refs(commits@).len() <= u32::MAX,
    ensures
        ({
            let refs = all_transaction_refs(commits@);
            let size = parameters.max_transactions_per_commit_sync_fetch as int;
            let p = pause(timeout_nanos as int, r@.len() as int);
            &&& r@.len() == chunk_count(refs.len() as int, size)
            &&& forall|i: int|
                0 <= i < r@.len() ==> (#[trigger] r@[i]).refs@ == chunk(refs, size, i)
                    && r@[i].delay_nanos == p * i + p / 2
        }),
{
    let refs = list_transaction_refs(commits);
    let size: usize = parameters.max_transactions_per_commit_sync_fetch;
    let mut parts = chunks(&refs, size);
    let n: usize = parts.len();
    let mut r: Vec<FetchRequest<GenericTransactionRef>> = Vec::new();
    let ghost all = parts@;
    proof {
        lemma_chunk_count(refs@.len() as int, size as int);
    }
    let mut i: usize = 0;
    assert(all.skip(0) =~= all);
    while i < n
        invariant
            n == all.len(),
            n <= u32::MAX,
            i <= n,
            parts@ == all.skip(i as int),
            r@.len() == i,
            forall|k: int|
                0 <= k < i ==> (#[trigger] r@[k]).refs@ == all[k]@ && r@[k].delay_nanos == pause(
                    timeout_nanos as int,
                    n as int,
                ) * k + pause(timeout_nanos as int, n as int) / 2,
        decreases n - i,
    {
        let part = parts.remove(0);
        assert(parts@ =~= all.skip(i + 1));
        let delay_nanos: u64 = transactions_request_delay(timeout_nanos, n as u32, i as u32);
        r.push(FetchRequest { refs: part, delay_nanos });
        i = i + 1;
    }
    r
}

/// The chunks put together are the list that was cut.
pub proof fn law_chunks_cover<T>(s: Seq<T>, size: int, x: int)
    requires
        size > 0,
        0 <= x < s.len(),
    ensures
        ({
            let i = x / size;
            &&& 0 <= i < chunk_count(s.len() as int, size)
            &&& 0 <= x - i * size < chunk(s, size, i).len()
            &&& chunk(s, size, i)[x - i * size] == s[x]
        }),
{
    let i = x / size;
    let l = s.len() as int;
    assert(i >= 0 && i * size <= x && x < i * size + size) by (nonlinear_arith)
        requires
            i == x / size,
            x >= 0,
            size > 0,
    ;
    assert((i + 1) * size == i * size + size) by (nonlinear_arith);
    let c = chunk_count(l, size);
    assert(i < c) by (nonlinear_arith)
        requires
            c == (l + size - 1) / size,
            i * size <= x,
            x < l,
            size > 0,
    ;
}

/// The payloads in the messages, by the transactions that they are of; later
/// messages go before earlier ones.
pub open spec fn payloads(messages: Seq<Bytes>) -> Map<GenericTransactionRef, Seq<u8>>
    decreases messages.len(),
{
    if messages.len() == 0 {
        Map::empty()
    } else {
        let before = payloads(messages.drop_last());
        match message_of(messages.last()@) {
            Some((t, payload)) => before.insert(GenericTransactionRef::TransactionRef(t), payload),
            None => before,
        }
    }
}

/// Is this a message with transactions that were asked for?
pub open spec fn is_requested(requested: Seq<GenericTransactionRef>, bytes: Bytes) -> bool {
    match message_of(bytes@) {
        Some((t, _)) => requested.contains(GenericTransactionRef::TransactionRef(t)),
        None => false,
    }
}

/// Checks a response to a request for transactions: it may leave some out, but
/// holds nothing that was not asked for. The first message that is at fault is
/// the error.
pub fn check_fetched_transactions(
    peer: AuthorityIndex,
    requested: &Vec<GenericTransactionRef>,
    serialized_transactions: &Vec<Bytes>,
) -> (r: ConsensusResult<SortedMap<GenericTransactionRef, Bytes>>)
    ensures
        match r {
            Ok(result) => {
                let found = payloads(serialized_transactions@);
                &&& serialized_transactions@.len() <= requested@.len()
                &&& forall|i: int|
                    0 <= i < serialized_transactions@.len() ==> is_requested(
                        requested@,
                        #[trigger] serialized_transactions@[i],
                    )
                &&& result.wf()
                &&& result@.dom() == found.dom()
                &&& forall|k: GenericTransactionRef| #[trigger]
                    result@.dom().contains(k) ==> result@[k]@ == found[k]
            },
            Err(e) => if serialized_transactions@.len() > requested@.len() {
                e == ConsensusError::TooManyFetchedTransactionsReturned(peer)
            } else {
                exists|j: int|
                    {
                        &&& 0 <= j < serialized_transactions@.len()
                        &&& forall|i: int|
                            0 <= i < j ==> is_requested(
                                requested@,
                                #[trigger] serialized_transactions@[i],
                            )
                        &&& match message_of((#[trigger] serialized_transactions@[j])@) {
                            None => e is MalformedTransactions,
                            Some((t, _)) => {
                                let received = GenericTransactionRef::TransactionRef(t);
                                !requested@.contains(received) && e
                                    == (ConsensusError::UnexpectedTransactionForCommit {
                                    peer,
                                    received,
                                })
                            },
                        }
                    }
            },
        },
{
    if requested.len() < serialized_transactions.len() {
        return Err(ConsensusError::TooManyFetchedTransactionsReturned(peer));
    }
    let wanted = SortedSet::from_vec(requested);
    let mut result: SortedMap<GenericTransactionRef, Bytes> = SortedMap::new();
    let mut i: usize = 0;
    assert(serialized_transactions@.take(0) =~= Seq::empty());
    while i < serialized_transactions.len()
        invariant
            serialized_transactions@.len() <= requested@.len(),
            wanted.wf(),
            wanted@ == requested@.to_set(),
            i <= serialized_transactions@.len(),
            forall|k: int|
                0 <= k < i ==> is_requested(requested@, #[trigger] serialized_transactions@[k]),
            result.wf(),
            result@.dom() == payloads(serialized_transactions@.take(i as int)).dom(),
            forall|k: GenericTransactionRef| #[trigger]
                result@.dom().contains(k) ==> result@[k]@ == payloads(
                    serialized_transactions@.take(i as int),
                )[k],
        decreases serialized_transactions@.len() - i,
    {
        let ghost upto = serialized_transactions@.take(i + 1);
        proof {
            assert(upto.drop_last() =~= serialized_transactions@.take(i as int));
            assert(upto.last() == serialized_transactions@[i as int]);
        }
        match SerializedTransactionsV2::from_bytes(&serialized_transactions[i]) {
            Err(e) => {
                return Err(ConsensusError::MalformedTransactions(e));
            },
            Ok(message) => {
                let k = GenericTransactionRef::TransactionRef(message.transaction_ref);
                if !wanted.contains(&k) {
                    return Err(
                        ConsensusError::UnexpectedTransactionForCommit { peer, received: k },
                    );
                }
                result.insert(k, message.serialized_transactions);
                assert(result@.dom() =~= payloads(upto).dom());
            },
        }
        i = i + 1;
    }
    assert(serialized_transactions@.take(i as int) =~= serialized_transactions@);
    Ok(result)
}

/// What is taken out of `m` when each of `refs` is taken, as far as it is there.
pub open spec fn taken<V>(m: Map<GenericTransactionRef, V>, refs: Seq<GenericTransactionRef>) -> Seq<
    V,
>
    decreases refs.len(),
{
    if refs.len() == 0 {
        Seq::empty()
    } else {
        let before = taken(m, refs.drop_last());
        let rest = left(m, refs.drop_last());
        if rest.dom().contains(refs.last()) {
            before.push(rest[refs.last()])
        } else {
            before
        }
    }
}

/// What is left of `m` then.
pub open spec fn left<V>(m: Map<GenericTransactionRef, V>, refs: Seq<GenericTransactionRef>) -> Map<
    GenericTransactionRef,
    V,
> {
    m.restrict(m.dom().difference(refs.to_set()))
}

/// Takes out of `m` what the references name, as far as it is there.
pub fn take_transactions(
    m: &mut SortedMap<GenericTransactionRef, VerifiedTransactions>,
    refs: &Vec<GenericTransactionRef>,
) -> (r: Vec<VerifiedTransactions>)
    requires
        old(m).wf(),
    ensures
        final(m).wf(),
        r@ == taken(old(m)@, refs@),
        final(m)@ == left(old(m)@, refs@),
{
    let ghost before = m@;
    let mut r: Vec<VerifiedTransactions> = Vec::new();
    let mut i: usize = 0;
    proof {
        assert(refs@.take(0) =~= Seq::empty());
        assert(left(before, refs@.take(0)) =~= before);
    }
    while i < refs.len()
        invariant
            m.wf(),
            i <= refs@.len(),
            r@ == taken(before, refs@.take(i as int)),
            m@ == left(before, refs@.take(i as int)),
        decreases refs@.len() - i,
    {
        let k = refs[i];
        proof {
            let x = refs@.take(i as int);
            let y = refs@.take(i + 1);
            assert(y.drop_last() =~= x);
            assert(y.last() == k);
            assert(y.to_set() =~= x.to_set().insert(k)) by {
                assert forall|q: GenericTransactionRef| y.contains(q) <==> (x.contains(q) || q
                    == k) by {
                    if x.contains(q) {
                        let z = choose|z: int| 0 <= z < x.len() && x[z] == q;
                        assert(y[z] == q);
                    }
                    assert(y[i as int] == k);
                    if y.contains(q) {
                        let z = choose|z: int| 0 <= z < y.len() && y[z] == q;
                        if z < i {
                            assert(x[z] == q);
                        }
                    }
                }
            }
        }
        match m.remove(&k) {
            Some(t) => r.push(t),
            None => {},
        }
        assert(m@ =~= left(before, refs@.take(i + 1)));
        i = i + 1;
    }
    assert(refs@.take(i as int) =~= refs@);
    r
}

/// Are `out` the commits with their headers and with the transactions that there
/// are for them? Transactions go to the first commit that names them.
pub open spec fn is_assembled(
    commits: Seq<TrustedCommit>,
    headers: Map<BlockRef, VerifiedBlockHeader>,
    transactions: Map<GenericTransactionRef, VerifiedTransactions>,
    out: Seq<CertifiedCommit>,
) -> bool {
    &&& out.len() == commits.len()
    &&& forall|i: int|
        0 <= i < out.len() ==> {
            let c = #[trigger] out[i];
            &&& c.commit == commits[i]
            &&& c.block_headers@ == commits[i].commit.block_headers@.map_values(
                |r: BlockRef| headers[r],
            )
            &&& c.transactions@ == taken(
                left(transactions, all_transaction_refs(commits.take(i))),
                commits[i].commit.committed_transactions@,
            )
        }
}

/// Puts commits together with their headers and transactions.
pub fn assemble_certified_commits(
    commits: &Vec<TrustedCommit>,
    fetched_block_headers: SortedMap<BlockRef, VerifiedBlockHeader>,
    transactions_map: SortedMap<GenericTransactionRef, VerifiedTransactions>,
) -> (r: Vec<CertifiedCommit>)
    requires
        fetched_block_headers.wf(),
        transactions_map.wf(),
        all_block_refs(commits@).no_duplicates(),
        forall|i: int|
            0 <= i < all_block_refs(commits@).len() ==> fetched_block_headers@.dom().contains(
                #[trigger] all_block_refs(commits@)[i],
            ),
    ensures
        is_assembled(commits@, fetched_block_headers@, transactions_map@, r@),
{
    let mut transactions = transactions_map;
    let mut r: Vec<CertifiedCommit> = Vec::new();
    let mut i: usize = 0;
    proof {
        assert(commits@.take(0) =~= Seq::empty());
        assert(left(transactions_map@, Seq::empty()) =~= transactions_map@);
    }
    while i < commits.len()
        invariant
            fetched_block_headers.wf(),
            transactions.wf(),
            forall|k: int|
                0 <= k < all_block_refs(commits@).len() ==> fetched_block_headers@.dom().contains(
                    #[trigger] all_block_refs(commits@)[k],
                ),
            i <= commits@.len(),
            transactions@ == left(transactions_map@, all_transaction_refs(commits@.take(i as int))),
            is_assembled(
                commits@.take(i as int),
                fetched_block_headers@,
                transactions_map@,
                r@,
            ),
        decreases commits@.len() - i,
    {
        let ghost base = r@;
        let commit = &commits[i];
        let refs = &commit.commit.block_headers;
        let mut block_headers: Vec<VerifiedBlockHeader> = Vec::new();
        proof {
            lemma_block_refs_contain(commits@, i as int);
            assert forall|k: int| 0 <= k < refs@.len() implies fetched_block_headers@.dom().contains(
                #[trigger] refs@[k],
            ) by {
                let all = all_block_refs(commits@);
                assert(all.contains(commits@[i as int].commit.block_headers@[k]));
                let x = choose|x: int| 0 <= x < all.len() && all[x] == refs@[k];
                assert(fetched_block_headers@.dom().contains(all[x]));
            }
        }
        let mut j: usize = 0;
        while j < refs.len()
            invariant
                fetched_block_headers.wf(),
                *refs == commits@[i as int].commit.block_headers,
                forall|k: int|
                    0 <= k < refs@.len() ==> fetched_block_headers@.dom().contains(
                        #[trigger] refs@[k],
                    ),
                j <= refs@.len(),
                block_headers@.len() == j,
                forall|k: int|
                    0 <= k < j ==> #[trigger] block_headers@[k] == fetched_block_headers@[refs@[k]],
            decreases refs@.len() - j,
        {
            match fetched_block_headers.get(&refs[j]) {
                Some(header) => block_headers.push(share(header)),
                None => {
                    assert(fetched_block_headers@.dom().contains(refs@[j as int]));
                    assert(false);
                },
            }
            j = j + 1;
        }
        let commit_transactions = take_transactions(
            &mut transactions,
            &commit.commit.committed_transactions,
        );
        proof {
            assert(block_headers@ =~= refs@.map_values(
                |q: BlockRef| fetched_block_headers@[q],
            ));
            let x = all_transaction_refs(commits@.take(i as int));
            let c = commits@[i as int].commit.committed_transactions@;
            assert(commits@.take(i + 1).drop_last() =~= commits@.take(i as int));
            assert(transactions@ =~= left(transactions_map@, x + c)) by {
                vstd::seq_lib::seq_to_set_distributes_over_add(x, c);
            }
        }
        r.push(
            CertifiedCommit {
                commit: share(commit),
                block_headers,
                transactions: commit_transactions,
            },
        );
        proof {
            let upto = commits@.take(i + 1);
            assert forall|k: int| 0 <= k < r@.len() implies {
                let c = #[trigger] r@[k];
                &&& c.commit == upto[k]
                &&& c.block_headers@ == upto[k].commit.block_headers@.map_values(
                    |q: BlockRef| fetched_block_headers@[q],
                )
                &&& c.transactions@ == taken(
                    left(transactions_map@, all_transaction_refs(upto.take(k))),
                    upto[k].commit.committed_transactions@,
                )
            } by {
                assert(upto.take(k) =~= commits@.take(i as int).take(k) || k == i);
                if k < i {
                    assert(r@[k] == base[k]);
                    assert(upto.take(k) =~= commits@.take(i as int).take(k));
                } else {
                    assert(upto.take(k) =~= commits@.take(i as int));
                }
            }
        }
        i = i + 1;
    }
    assert(commits@.take(i as int) =~= commits@);
    r
}

/// The references of each commit are among those of all of them.
proof fn lemma_block_refs_contain(commits: Seq<TrustedCommit>, i: int)
    requires
        0 <= i < commits.len(),
    ensures
        forall|k: int|
            0 <= k < commits[i].commit.block_headers@.len() ==> all_block_refs(commits).contains(
                #[trigger] commits[i].commit.block_headers@[k],
            ),
    decreases commits.len(),
{
    let d = commits.drop_last();
    let all = all_block_refs(commits);
    let before = all_block_refs(d);
    if i < d.len() {
        lemma_block_refs_contain(d, i);
        assert forall|k: int| 0 <= k < commits[i].commit.block_headers@.len() implies all.contains(
            #[trigger] commits[i].commit.block_headers@[k],
        ) by {
            let r = d[i].commit.block_headers@[k];
            assert(before.contains(r));
            let x = choose|x: int| 0 <= x < before.len() && before[x] == r;
            assert(all[x] == r);
        }
    } else {
        assert forall|k: int| 0 <= k < commits[i].commit.block_headers@.len() implies all.contains(
            #[trigger] commits[i].commit.block_headers@[k],
        ) by {
            assert(all[before.len() + k] == commits.last().commit.block_headers@[k]);
        }
    }
}

} // verus!
