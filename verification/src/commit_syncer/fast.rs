//! Catching up over wide gaps with commits and transactions alone.
use std::sync::Arc;

use vstd::prelude::*;

use crate::commit::{CommittedSubDag, MisbehaviorTotals, SubDagContent, TrustedCommit};
use crate::commit_syncer::regular::{
    all_transaction_refs, chunk, chunk_count, chunks, gap_between, left, list_transaction_refs,
    take_transactions, taken,
};
use crate::commit_syncer::shared::{
    batches, fetch_limit, other_authorities, others, schedule_commit_ranges, shuffle_list,
    target_parallel_fetches, try_start_fetches, CommitSyncType, SyncParameters, SyncState, SyncView,
    AVG_TX_ROUNDS_PER_COMMIT,
};
use crate::commit_syncer::verify::{
    checked_transactions, header_refs, holds_transactions, transactions_pass,
    verify_transactions_with_transactions_refs,
};
use crate::commit_syncer::wire::{message_of, SerializedTransactionsV2};
use crate::committee::Committee;
use crate::error::{ConsensusError, ConsensusResult};
use crate::header::{share, Bytes, VerifiedBlockHeader, VerifiedTransactions};
use crate::refs::{
    AuthorityIndex, BlockRef, CommitIndex, CommitRange, GenericTransactionRef, Key, Round,
    TransactionRef, TransactionsCommitment,
};
use crate::sorted::{SortedMap, SortedSet};

verus! {

/// Which step was skipped because fast synchronization is at work.
#[derive(Clone, Copy, Debug, PartialEq, Eq, Structural)]
pub enum FastSyncPauseSource {
    /// Scheduling of regular commit synchronization.
    RegularSchedule,
    /// Starting the fetches of regular commit synchronization.
    RegularStartFetches,
    /// A command to fetch headers.
    HeaderCommand,
    /// The periodic fetch of missing headers.
    HeaderScheduler,
}

impl FastSyncPauseSource {
    pub open spec fn spec_as_str(self) -> &'static str {
        match self {
            FastSyncPauseSource::RegularSchedule => "regular_schedule",
            FastSyncPauseSource::RegularStartFetches => "regular_start_fetches",
            FastSyncPauseSource::HeaderCommand => "header_command",
            FastSyncPauseSource::HeaderScheduler => "header_scheduler",
        }
    }

    /// The label used in metrics.
    pub fn as_str(self) -> (r: &'static str)
        ensures
            r == self.spec_as_str(),
    {
        match self {
            FastSyncPauseSource::RegularSchedule => "regular_schedule",
            FastSyncPauseSource::RegularStartFetches => "regular_start_fetches",
            FastSyncPauseSource::HeaderCommand => "header_command",
            FastSyncPauseSource::HeaderScheduler => "header_scheduler",
        }
    }
}

/// How often each step was skipped because fast synchronization was at work. A
/// count starts over once it has come to its end.
#[derive(Debug)]
pub struct PauseCounts {
    pub regular_schedule: u64,
    pub regular_start_fetches: u64,
    pub header_command: u64,
    pub header_scheduler: u64,
}

/// One more.
pub open spec fn next_count(n: u64) -> u64 {
    if n == u64::MAX {
        0
    } else {
        (n + 1) as u64
    }
}

impl PauseCounts {
    /// The count of a step.
    pub open spec fn spec_get(self, source: FastSyncPauseSource) -> u64 {
        match source {
            FastSyncPauseSource::RegularSchedule => self.regular_schedule,
            FastSyncPauseSource::RegularStartFetches => self.regular_start_fetches,
            FastSyncPauseSource::HeaderCommand => self.header_command,
            FastSyncPauseSource::HeaderScheduler => self.header_scheduler,
        }
    }

    /// The counts, with `paused` telling whether a step has just been skipped: then
    /// its count is one up. The others are as before.
    pub open spec fn follows(
        self,
        before: PauseCounts,
        source: FastSyncPauseSource,
        paused: bool,
    ) -> bool {
        &&& self.spec_get(source) == if paused {
            next_count(before.spec_get(source))
        } else {
            before.spec_get(source)
        }
        &&& forall|other: FastSyncPauseSource|
            other != source ==> #[trigger] self.spec_get(other) == before.spec_get(other)
    }

    /// Nothing has been skipped yet.
    pub fn new() -> (r: Self)
        ensures
            forall|source: FastSyncPauseSource| #[trigger] r.spec_get(source) == 0,
    {
        PauseCounts {
            regular_schedule: 0,
            regular_start_fetches: 0,
            header_command: 0,
            header_scheduler: 0,
        }
    }

    /// How often the step was skipped.
    pub fn get(&self, source: FastSyncPauseSource) -> (r: u64)
        ensures
            r == self.spec_get(source),
    {
        match source {
            FastSyncPauseSource::RegularSchedule => self.regular_schedule,
            FastSyncPauseSource::RegularStartFetches => self.regular_start_fetches,
            FastSyncPauseSource::HeaderCommand => self.header_command,
            FastSyncPauseSource::HeaderScheduler => self.header_scheduler,
        }
    }

    fn count(&mut self, source: FastSyncPauseSource)
        ensures
            final(self).follows(*old(self), source, true),
    {
        let n: u64 = self.get(source).wrapping_add(1);
        match source {
            FastSyncPauseSource::RegularSchedule => {
                self.regular_schedule = n;
            },
            FastSyncPauseSource::RegularStartFetches => {
                self.regular_start_fetches = n;
            },
            FastSyncPauseSource::HeaderCommand => {
                self.header_command = n;
            },
            FastSyncPauseSource::HeaderScheduler => {
                self.header_scheduler = n;
            },
        }
    }
}

/// Should a step be skipped because fast synchronization is at work? If so, that
/// is counted. Where it is disabled (`None`), nothing is skipped.
pub fn paused_by_fast_sync(
    fast_sync_active: Option<bool>,
    pauses: &mut PauseCounts,
    source: FastSyncPauseSource,
) -> (r: bool)
    ensures
        r == (fast_sync_active == Some(true)),
        final(pauses).follows(*old(pauses), source, r),
{
    let paused = match fast_sync_active {
        Some(active) => active,
        None => false,
    };
    if paused {
        pauses.count(source);
    }
    paused
}

/// What fast synchronization brings: commits, their sub-DAGs, and the headers
/// that certify the last of them.
#[derive(Debug)]
pub struct FastSyncOutput {
    pub commits: Vec<TrustedCommit>,
    pub committed_subdags: Vec<CommittedSubDag>,
    pub voting_block_headers: Vec<VerifiedBlockHeader>,
}

impl Default for FastSyncOutput {
    fn default() -> (r: Self)
        ensures
            r.commits@.len() == 0,
            r.committed_subdags@.len() == 0,
            r.voting_block_headers@.len() == 0,
    {
        FastSyncOutput {
            commits: Vec::new(),
            committed_subdags: Vec::new(),
            voting_block_headers: Vec::new(),
        }
    }
}

/// The range that the output covers.
pub open spec fn output_range(output: FastSyncOutput) -> CommitRange {
    CommitRange {
        start: output.committed_subdags@.first().base.commit_ref.index,
        end: output.committed_subdags@.last().base.commit_ref.index,
    }
}

/// What the scheduler of fast synchronization knows, mathematically.
pub ghost struct FastSyncView {
    pub ranges: SyncView<FastSyncOutput>,
    /// Is less than a full batch missing?
    pub close_to_quorum: bool,
    /// Has anything been fetched in this session?
    pub has_fetched_data: bool,
}

impl FastSyncView {
    /// The state after the last, partial batch up to `quorum` has been
    /// scheduled, where less than a full batch is missing.
    pub open spec fn approach_quorum(self, quorum: CommitIndex, step: u32) -> FastSyncView {
        let after = self.ranges.fetch_after();
        let remaining = gap_between(quorum, after);
        if !self.has_fetched_data || self.close_to_quorum || remaining >= step {
            self
        } else if remaining == 0 {
            FastSyncView { close_to_quorum: true, ..self }
        } else {
            FastSyncView {
                ranges: SyncView {
                    pending: self.ranges.pending.insert(
                        CommitRange { start: (after + 1) as CommitIndex, end: quorum },
                    ),
                    highest_scheduled: Some(quorum),
                    ..self.ranges
                },
                close_to_quorum: true,
                ..self
            }
        }
    }
}

/// The scheduler of fast commit synchronization.
#[derive(Debug)]
pub struct FastCommitSyncer {
    pub parameters: SyncParameters,
    pub committee_size: usize,
    pub state: SyncState<FastSyncOutput>,
    pub close_to_quorum_mode: bool,
    pub has_fetched_data: bool,
}

impl FastCommitSyncer {
    pub open spec fn wf(self) -> bool {
        &&& self.parameters.wf()
        &&& 0 < self.committee_size <= 256
        &&& self.state.wf()
    }

    pub open spec fn view(self) -> FastSyncView {
        FastSyncView {
            ranges: self.state@,
            close_to_quorum: self.close_to_quorum_mode,
            has_fetched_data: self.has_fetched_data,
        }
    }

    /// What does not change while the scheduler runs.
    pub open spec fn same_setup(self, other: Self) -> bool {
        self.parameters == other.parameters && self.committee_size == other.committee_size
    }

    pub fn new(
        parameters: SyncParameters,
        committee_size: usize,
        last_solid_commit_index: CommitIndex,
    ) -> (r: Self)
        requires
            parameters.wf(),
            0 < committee_size <= 256,
        ensures
            r.wf(),
            r.parameters == parameters,
            r.committee_size == committee_size,
            r@ == (FastSyncView {
                ranges: SyncView {
                    pending: Set::empty(),
                    fetched: Map::empty(),
                    highest_scheduled: None,
                    highest_fetched: 0,
                    synced: last_solid_commit_index,
                },
                close_to_quorum: false,
                has_fetched_data: false,
            }),
    {
        FastCommitSyncer {
            parameters,
            committee_size,
            state: SyncState::new(last_solid_commit_index),
            close_to_quorum_mode: false,
            has_fetched_data: false,
        }
    }

    /// Is the gap for fast synchronization to close, or has it begun to?
    pub open spec fn may_schedule(self, quorum: CommitIndex, last_solid: CommitIndex) -> bool {
        ||| self@.has_fetched_data
        ||| CommitSyncType::Fast.spec_should_schedule(
            gap_between(quorum, last_solid),
            self.parameters.commit_sync_gap_threshold,
            self.parameters.enable_fast_commit_syncer,
        )
    }

    /// Schedules the full batches that a quorum has made and that the handler
    /// keeps up with. Once something has been fetched and less than a full batch
    /// is missing, schedules the rest as well and gets ready to finish.
    pub fn try_schedule_once(
        &mut self,
        quorum_commit_index: CommitIndex,
        last_solid_commit_index: CommitIndex,
        highest_handled_index: CommitIndex,
    )
        requires
            old(self).wf(),
            quorum_commit_index + old(self).parameters.fast_commit_sync_batch_size
                <= CommitIndex::MAX,
            highest_handled_index + old(self).parameters.commit_sync_batch_size * old(
                self,
            ).parameters.commit_sync_batches_ahead <= CommitIndex::MAX,
        ensures
            final(self).wf(),
            final(self).same_setup(*old(self)),
            ({
                let p = old(self).parameters;
                let step = p.fast_commit_sync_batch_size;
                let raised = old(self)@.ranges.raise_synced(last_solid_commit_index);
                let limit = fetch_limit(
                    quorum_commit_index as int,
                    highest_handled_index as int,
                    p.commit_sync_batch_size * p.commit_sync_batches_ahead,
                );
                let scheduled = if old(self).may_schedule(
                    quorum_commit_index,
                    last_solid_commit_index,
                ) {
                    raised.schedule(batches(raised.fetch_after() as int, limit, step as int))
                } else {
                    old(self)@.ranges
                };
                final(self)@ == (FastSyncView {
                    ranges: scheduled,
                    ..old(self)@
                }).approach_quorum(quorum_commit_index, step)
            }),
    {
        let step: u32 = CommitSyncType::Fast.commit_sync_batch_size(&self.parameters);
        let gap: u32 = quorum_commit_index.saturating_sub(last_solid_commit_index);
        let should_schedule = self.has_fetched_data || CommitSyncType::Fast.should_schedule(
            gap,
            self.parameters.commit_sync_gap_threshold,
            self.parameters.enable_fast_commit_syncer,
        );
        if should_schedule {
            self.state.raise_synced(last_solid_commit_index);
            let threshold: CommitIndex = self.parameters.unhandled_commits_threshold();
            let fetch_after: CommitIndex = self.state.fetch_after_index();
            let scheduled = schedule_commit_ranges(
                CommitSyncType::Fast,
                &self.parameters,
                fetch_after,
                quorum_commit_index,
                highest_handled_index,
                threshold,
            );
            self.state.add_scheduled(scheduled);
        }
        if self.has_fetched_data && !self.close_to_quorum_mode {
            let after: CommitIndex = self.state.fetch_after_index();
            let remaining: CommitIndex = quorum_commit_index.saturating_sub(after);
            if remaining > 0 && remaining < step {
                self.state.pending_fetches.insert(
                    CommitRange::new(after + 1, quorum_commit_index),
                );
                self.state.highest_scheduled_index = Some(quorum_commit_index);
            }
            if remaining < step {
                self.close_to_quorum_mode = true;
            }
        }
    }

    /// Takes in what a fetch up to `target_end` has brought.
    pub fn handle_fetch_result(
        &mut self,
        target_end: CommitIndex,
        output: FastSyncOutput,
        last_solid_commit_index: CommitIndex,
    )
        requires
            old(self).wf(),
            output.committed_subdags@.len() > 0,
        ensures
            final(self).wf(),
            final(self).same_setup(*old(self)),
            final(self)@ == (FastSyncView {
                ranges: old(self)@.ranges.receive(
                    target_end,
                    output_range(output),
                    output,
                    last_solid_commit_index,
                ),
                has_fetched_data: true,
                ..old(self)@
            }),
    {
        self.has_fetched_data = true;
        let subdags = &output.committed_subdags;
        let start: CommitIndex = subdags[0].base.commit_ref.index;
        let end: CommitIndex = subdags[subdags.len() - 1].base.commit_ref.index;
        self.state.receive(
            target_end,
            CommitRange::new(start, end),
            output,
            last_solid_commit_index,
        );
    }

    /// Takes the next output that can be handed to the core.
    pub fn next_to_dispatch(&mut self) -> (r: Option<(CommitRange, FastSyncOutput)>)
        requires
            old(self).wf(),
            old(self)@.ranges.synced < CommitIndex::MAX,
        ensures
            final(self).wf(),
            final(self).same_setup(*old(self)),
            final(self)@ == (FastSyncView {
                ranges: SyncView {
                    fetched: final(self)@.ranges.fetched,
                    ..old(self)@.ranges
                },
                ..old(self)@
            }),
            match r {
                Some((range, output)) => {
                    let before = old(self)@.ranges;
                    &&& before.fetched.dom().contains(range)
                    &&& output == before.fetched[range]
                    &&& range.start <= before.synced + 1
                    &&& range.end > before.synced
                    &&& forall|q: CommitRange| #[trigger]
                        before.fetched.dom().contains(q) && q.rank() < range.rank() ==> q.end
                            <= before.synced
                    &&& final(self)@.ranges.fetched == before.fetched.restrict(
                        before.fetched.dom().filter(|q: CommitRange| q.rank() > range.rank()),
                    )
                },
                None => {
                    let before = old(self)@.ranges;
                    let after = final(self)@.ranges;
                    &&& after.is_blocked()
                    &&& forall|q: CommitRange| #[trigger]
                        before.fetched.dom().contains(q) ==> after.fetched.dom().contains(q)
                            || q.end <= before.synced
                    &&& forall|q: CommitRange| #[trigger]
                        after.fetched.dom().contains(q) ==> before.fetched.dom().contains(q)
                            && after.fetched[q] == before.fetched[q]
                },
            },
    {
        self.state.next_to_dispatch()
    }

    /// Notes that the commits of `range` have gone to the core.
    pub fn dispatched(&mut self, range: CommitRange)
        requires
            old(self).wf(),
        ensures
            final(self).wf(),
            final(self).same_setup(*old(self)),
            final(self)@ == (FastSyncView {
                ranges: old(self)@.ranges.raise_synced(range.end),
                ..old(self)@
            }),
    {
        self.state.raise_synced(range.end);
    }

    /// Takes the ranges to start fetching now.
    pub fn try_start_fetches(&mut self, inflight_fetches: usize) -> (started: Vec<CommitRange>)
        requires
            old(self).wf(),
        ensures
            final(self).wf(),
            final(self).same_setup(*old(self)),
            final(self)@ == (FastSyncView {
                ranges: SyncView {
                    pending: old(self)@.ranges.pending.difference(started@.to_set()),
                    ..old(self)@.ranges
                },
                ..old(self)@
            }),
            started@ + final(self).state.pending_fetches.items() == old(
                self,
            ).state.pending_fetches.items(),
            ({
                let free = target_parallel_fetches(
                    old(self).parameters,
                    old(self).committee_size as int,
                    old(self)@.ranges.fetched.dom().len() as int,
                ) - inflight_fetches;
                let pending = old(self).state.pending_fetches.items().len();
                started@.len() == if free <= 0 {
                    0
                } else if free < pending {
                    free
                } else {
                    pending as int
                }
            }),
    {
        let fetched: usize = self.state.fetched_ranges.len();
        try_start_fetches(
            &self.parameters,
            self.committee_size,
            &mut self.state.pending_fetches,
            fetched,
            inflight_fetches,
        )
    }

    /// Is nothing left to fetch or to hand on, close to the quorum? Then the
    /// headers for the cached rounds are due.
    pub fn is_ready_to_finish(&self, inflight_fetches: usize) -> (r: bool)
        requires
            self.wf(),
        ensures
            r == (self@.close_to_quorum && inflight_fetches == 0 && self@.ranges.pending
                == Set::<CommitRange>::empty() && self@.ranges.fetched == Map::<
                CommitRange,
                FastSyncOutput,
            >::empty()),
    {
        self.close_to_quorum_mode && inflight_fetches == 0 && self.state.pending_fetches.is_empty()
            && self.state.fetched_ranges.is_empty()
    }

    /// Ends the session, whether or not its headers came in; regular
    /// synchronization takes over.
    pub fn finish(&mut self, last_solid_commit_index: CommitIndex)
        requires
            old(self).wf(),
        ensures
            final(self).wf(),
            final(self).same_setup(*old(self)),
            final(self)@ == (FastSyncView {
                ranges: SyncView {
                    highest_scheduled: None,
                    synced: last_solid_commit_index,
                    ..old(self)@.ranges
                },
                close_to_quorum: false,
                has_fetched_data: false,
            }),
    {
        self.close_to_quorum_mode = false;
        self.has_fetched_data = false;
        self.state.highest_scheduled_index = None;
        self.state.synced_commit_index = last_solid_commit_index;
    }

    /// Does fast synchronization have work, so that the others have to stay
    /// paused?
    pub fn is_active(&self, inflight_fetches: usize) -> (r: bool)
        requires
            self.wf(),
        ensures
            r == (self@.has_fetched_data || self@.close_to_quorum || inflight_fetches > 0
                || self@.ranges.pending != Set::<CommitRange>::empty() || self@.ranges.fetched
                != Map::<CommitRange, FastSyncOutput>::empty()),
    {
        self.has_fetched_data || self.close_to_quorum_mode || inflight_fetches > 0
            || !self.state.pending_fetches.is_empty() || !self.state.fetched_ranges.is_empty()
    }
}

/// A session that is over has nothing left: the others may go on.
pub proof fn law_finished_session_is_inactive(before: FastSyncView, last_solid: CommitIndex)
    requires
        before.ranges.pending == Set::<CommitRange>::empty(),
        before.ranges.fetched == Map::<CommitRange, FastSyncOutput>::empty(),
    ensures
        ({
            let after = FastSyncView {
                ranges: SyncView {
                    highest_scheduled: None,
                    synced: last_solid,
                    ..before.ranges
                },
                close_to_quorum: false,
                has_fetched_data: false,
            };
            !(after.has_fetched_data || after.close_to_quorum || after.ranges.pending != Set::<
                CommitRange,
            >::empty() || after.ranges.fetched != Map::<CommitRange, FastSyncOutput>::empty())
        }),
{
}

/// Are all transactions of the commit in `have`?
pub open spec fn is_covered(commit: TrustedCommit, have: Set<GenericTransactionRef>) -> bool {
    forall|i: int|
        0 <= i < commit.commit.committed_transactions@.len() ==> have.contains(
            #[trigger] commit.commit.committed_transactions@[i],
        )
}

/// How many of the first commits have all of their transactions in `have`.
pub open spec fn covered_prefix(
    commits: Seq<TrustedCommit>,
    have: Set<GenericTransactionRef>,
) -> nat
    decreases commits.len(),
{
    if commits.len() == 0 {
        0
    } else {
        let before = covered_prefix(commits.drop_last(), have);
        if before == commits.len() - 1 && is_covered(commits.last(), have) {
            commits.len()
        } else {
            before
        }
    }
}

/// The prefix is the longest one that is covered.
pub proof fn law_covered_prefix_is_longest(
    commits: Seq<TrustedCommit>,
    have: Set<GenericTransactionRef>,
)
    ensures
        covered_prefix(commits, have) <= commits.len(),
        forall|i: int|
            0 <= i < covered_prefix(commits, have) ==> is_covered(#[trigger] commits[i], have),
        covered_prefix(commits, have) < commits.len() ==> !is_covered(
            commits[covered_prefix(commits, have) as int],
            have,
        ),
    decreases commits.len(),
{
    if commits.len() > 0 {
        let d = commits.drop_last();
        law_covered_prefix_is_longest(d, have);
        assert forall|i: int| 0 <= i < covered_prefix(commits, have) implies is_covered(
            #[trigger] commits[i],
            have,
        ) by {
            if i < d.len() {
                assert(d[i] == commits[i]);
            }
        }
        if covered_prefix(d, have) < d.len() {
            assert(d[covered_prefix(d, have) as int] == commits[covered_prefix(d, have) as int]);
        }
    }
}

fn check_covered<V>(
    commit: &TrustedCommit,
    fetched: &SortedMap<GenericTransactionRef, V>,
) -> (r: bool)
    requires
        fetched.wf(),
    ensures
        r == is_covered(*commit, fetched@.dom()),
{
    let refs = &commit.commit.committed_transactions;
    let mut i: usize = 0;
    while i < refs.len()
        invariant
            fetched.wf(),
            *refs == commit.commit.committed_transactions,
            i <= refs@.len(),
            forall|k: int| 0 <= k < i ==> fetched@.dom().contains(#[trigger] refs@[k]),
        decreases refs@.len() - i,
    {
        if !fetched.contains_key(&refs[i]) {
            assert(!fetched@.dom().contains(commit.commit.committed_transactions@[i as int]));
            return false;
        }
        i = i + 1;
    }
    true
}

/// The transactions that the commits name.
pub open spec fn named_transactions(commits: Seq<TrustedCommit>) -> Set<GenericTransactionRef> {
    all_transaction_refs(commits).to_set()
}

/// Cuts the commits down to the longest prefix whose transactions are all there,
/// and drops what that prefix does not name. Where not even the first commit has
/// all of its transactions, that is an error, and nothing changes.
pub fn truncate_to_fully_fetched_prefix<V>(
    peer: AuthorityIndex,
    commits: &mut Vec<TrustedCommit>,
    fetched_transactions: &mut SortedMap<GenericTransactionRef, V>,
) -> (r: ConsensusResult<()>)
    requires
        old(fetched_transactions).wf(),
    ensures
        final(fetched_transactions).wf(),
        ({
            let n = covered_prefix(old(commits)@, old(fetched_transactions)@.dom());
            if n == 0 {
                &&& r == Err::<(), ConsensusError>(
                    ConsensusError::FetchedTransactionsMismatch {
                        peer,
                        expected: named_transactions(old(commits)@).len() as usize,
                        received: old(fetched_transactions)@.dom().len() as usize,
                    },
                )
                &&& final(commits)@ == old(commits)@
                &&& final(fetched_transactions)@ == old(fetched_transactions)@
            } else {
                &&& r == Ok::<(), ConsensusError>(())
                &&& final(commits)@ == old(commits)@.take(n as int)
                &&& final(fetched_transactions)@ == old(fetched_transactions)@.restrict(
                    old(fetched_transactions)@.dom().intersect(
                        named_transactions(old(commits)@.take(n as int)),
                    ),
                )
            }
        }),
{
    let ghost have = fetched_transactions@.dom();
    let ghost all = commits@;
    let len: usize = commits.len();
    let mut n: usize = 0;
    proof {
        law_covered_prefix_is_longest(all, have);
    }
    while n < len && check_covered(&commits[n], fetched_transactions)
        invariant
            fetched_transactions.wf(),
            fetched_transactions@.dom() == have,
            commits@ == all,
            len == all.len(),
            n <= covered_prefix(all, have) <= len,
            covered_prefix(all, have) < len ==> !is_covered(
                all[covered_prefix(all, have) as int],
                have,
            ),
        decreases len - n,
    {
        n = n + 1;
    }
    proof {
        if n < covered_prefix(all, have) {
            assert(is_covered(all[n as int], have));
        }
    }
    if n == 0 {
        let refs = list_transaction_refs(commits);
        let named = SortedSet::from_vec(&refs);
        return Err(
            ConsensusError::FetchedTransactionsMismatch {
                peer,
                expected: named.len(),
                received: fetched_transactions.len(),
            },
        );
    }
    let ghost fetched = fetched_transactions@;
    commits.truncate(n);
    assert(commits@ =~= all.take(n as int));
    let refs = list_transaction_refs(commits);
    let named = SortedSet::from_vec(&refs);
    let mut i: usize = 0;
    while i < fetched_transactions.entries.len()
        invariant
            fetched_transactions.wf(),
            named.wf(),
            i <= fetched_transactions.entries@.len(),
            forall|k: GenericTransactionRef| #[trigger]
                fetched_transactions@.dom().contains(k) ==> fetched.dom().contains(k)
                    && fetched_transactions@[k] == fetched[k],
            forall|k: GenericTransactionRef| #[trigger]
                fetched.dom().contains(k) && named@.contains(k)
                    ==> fetched_transactions@.dom().contains(k),
            forall|j: int|
                0 <= j < i ==> named@.contains(
                    (#[trigger] fetched_transactions.entries@[j]).0,
                ),
        decreases fetched_transactions.entries@.len() - i,
    {
        if named.contains(&fetched_transactions.entries[i].0) {
            i = i + 1;
        } else {
            let ghost before = fetched_transactions.entries@;
            let dropped = fetched_transactions.remove_at(i);
            assert forall|j: int| 0 <= j < i implies named@.contains(
                (#[trigger] fetched_transactions.entries@[j]).0,
            ) by {
                assert(fetched_transactions.entries@[j] == before[j]);
            }
        }
    }
    proof {
        let target = fetched.restrict(fetched.dom().intersect(named@));
        assert forall|k: GenericTransactionRef| #[trigger]
            fetched_transactions@.dom().contains(k) <==> target.dom().contains(k) by {
            if fetched_transactions@.dom().contains(k) {
                let j = fetched_transactions.lemma_key(k);
                assert(named@.contains(fetched_transactions.entries@[j].0));
            }
        }
        assert(fetched_transactions@ =~= target);
    }
    Ok(())
}

/// The transactions that commits name by their commitment.
pub open spec fn due_transactions(commits: Seq<TrustedCommit>) -> Set<TransactionRef> {
    Set::new(
        |t: TransactionRef|
            all_transaction_refs(commits).contains(GenericTransactionRef::TransactionRef(t)),
    )
}

/// How many transactions honest commits can name at most: what the committee can
/// make in the rounds that they are expected to span, and before.
pub open spec fn transactions_envelope(committee_size: int, num_commits: int, gc_depth: int) ->
    int {
    committee_size * (AVG_TX_ROUNDS_PER_COMMIT * num_commits + gc_depth)
}

/// The sum of the lengths.
pub open spec fn total_bytes(messages: Seq<Bytes>) -> int
    decreases messages.len(),
{
    if messages.len() == 0 {
        0
    } else {
        total_bytes(messages.drop_last()) + messages.last()@.len()
    }
}

/// The transactions that the messages are of, as far as they can be decoded, in
/// the order of the messages.
pub open spec fn decoded_refs(messages: Seq<Bytes>) -> Seq<TransactionRef>
    decreases messages.len(),
{
    if messages.len() == 0 {
        Seq::empty()
    } else {
        match message_of(messages.last()@) {
            Some((t, _)) => decoded_refs(messages.drop_last()).push(t),
            None => decoded_refs(messages.drop_last()),
        }
    }
}

/// A fetch of commits and their transactions from one peer, after the commits
/// have been verified.
#[derive(Debug)]
pub struct FastFetch {
    pub peer: AuthorityIndex,
    pub commits: Vec<TrustedCommit>,
    pub voting_block_headers: Vec<VerifiedBlockHeader>,
    /// The transactions that have not come in yet.
    pub outstanding: SortedSet<TransactionRef>,
    pub transactions: SortedMap<GenericTransactionRef, VerifiedTransactions>,
    pub received_bytes: usize,
}

impl FastFetch {
    spec fn is_sorted(self) -> bool {
        &&& self.outstanding.wf()
        &&& self.transactions.wf()
    }

    /// Have the transactions come in?
    pub open spec fn has(self, t: TransactionRef) -> bool {
        self.transactions@.dom().contains(GenericTransactionRef::TransactionRef(t))
    }

    /// Transactions stand under their own reference. Those that the commits name
    /// are either there or outstanding, and no others are.
    pub open spec fn wf(self) -> bool {
        &&& self.outstanding.wf()
        &&& self.transactions.wf()
        &&& forall|k: GenericTransactionRef| #[trigger]
            self.transactions@.dom().contains(k) ==> k == GenericTransactionRef::TransactionRef(
                self.transactions@[k].transaction_ref,
            )
        &&& forall|t: TransactionRef| #[trigger]
            self.outstanding@.contains(t) <==> due_transactions(self.commits@).contains(t)
                && !self.has(t)
        &&& forall|t: TransactionRef| #[trigger]
            self.has(t) ==> due_transactions(self.commits@).contains(t)
    }

    /// Starts to take in transactions, unless the commits name more than honest
    /// ones could.
    pub fn start(
        committee_size: usize,
        gc_depth: Round,
        peer: AuthorityIndex,
        commits: Vec<TrustedCommit>,
        voting_block_headers: Vec<VerifiedBlockHeader>,
    ) -> (r: ConsensusResult<Self>)
        requires
            committee_size <= 256,
            AVG_TX_ROUNDS_PER_COMMIT * commits@.len() + gc_depth <= usize::MAX,
        ensures
            ({
                let due = due_transactions(commits@);
                let envelope = transactions_envelope(
                    committee_size as int,
                    commits@.len() as int,
                    gc_depth as int,
                );
                let limit = if envelope <= usize::MAX {
                    envelope as usize
                } else {
                    usize::MAX
                };
                &&& due.finite()
                &&& match r {
                    Ok(f) => {
                        &&& due.len() <= envelope
                        &&& f.wf()
                        &&& f.peer == peer
                        &&& f.commits == commits
                        &&& f.voting_block_headers == voting_block_headers
                        &&& f.outstanding@ == due
                        &&& f.transactions@ == Map::<
                            GenericTransactionRef,
                            VerifiedTransactions,
                        >::empty()
                        &&& f.received_bytes == 0
                    },
                    Err(e) => due.len() > envelope && e
                        == (ConsensusError::TooManyCommittedTransactionsInRange {
                        peer,
                        count: due.len() as usize,
                        limit,
                    }),
                }
            }),
    {
        let refs = list_transaction_refs(&commits);
        let mut outstanding: SortedSet<TransactionRef> = SortedSet::new();
        let mut i: usize = 0;
        while i < refs.len()
            invariant
                i <= refs@.len(),
                outstanding.wf(),
                forall|t: TransactionRef| #[trigger]
                    outstanding@.contains(t) <==> refs@.take(i as int).contains(
                        GenericTransactionRef::TransactionRef(t),
                    ),
            decreases refs@.len() - i,
        {
            let ghost before = outstanding@;
            let k = refs[i];
            match k {
                GenericTransactionRef::TransactionRef(t) => {
                    outstanding.insert(t);
                },
                GenericTransactionRef::BlockRef(_) => {},
            }
            proof {
                let x = refs@.take(i as int);
                let y = refs@.take(i + 1);
                assert forall|q: GenericTransactionRef| y.contains(q) <==> (x.contains(q) || q
                    == k) by {
                    if x.contains(q) {
                        let z = choose|z: int| 0 <= z < x.len() && x[z] == q;
                        assert(y[z] == q);
                    }
                    assert(y[i as int] == k);
                    if y.contains(q) {
                        let z = choose|z: int| 0 <= z < y.len() && y[z] == q;
                        if z < i {
                            assert(x[z] == q);
                        }
                    }
                }
            }
            i = i + 1;
        }
        proof {
            assert(refs@.take(i as int) =~= refs@);
            assert(outstanding@ =~= due_transactions(commits@));
            outstanding.lemma_items();
        }
        let per_authority: usize = AVG_TX_ROUNDS_PER_COMMIT * commits.len() + gc_depth as usize;
        let envelope: usize = match committee_size.checked_mul(per_authority) {
            Some(product) => product,
            None => usize::MAX,
        };
        let count: usize = outstanding.len();
        if count > envelope {
            return Err(
                ConsensusError::TooManyCommittedTransactionsInRange {
                    peer,
                    count,
                    limit: envelope,
                },
            );
        }
        Ok(
            FastFetch {
                peer,
                commits,
                voting_block_headers,
                outstanding,
                transactions: SortedMap::new(),
                received_bytes: 0,
            },
        )
    }

    /// Do these messages bring only transactions that are outstanding, and each
    /// once?
    pub open spec fn expects(self, messages: Seq<Bytes>) -> bool {
        &&& decoded_refs(messages).no_duplicates()
        &&& forall|i: int|
            0 <= i < decoded_refs(messages).len() ==> self.outstanding@.contains(
                #[trigger] decoded_refs(messages)[i],
            )
    }

    /// Sorts the messages of a chunk by their transactions. What cannot be
    /// decoded is passed over; what is not, or no longer, expected is an error.
    fn sort_chunk(&mut self, messages: &Vec<Bytes>) -> (r: ConsensusResult<
        SortedMap<GenericTransactionRef, Bytes>,
    >)
        requires
            old(self).is_sorted(),
        ensures
            match r {
                Ok(payloads) => {
                    let refs = decoded_refs(messages@);
                    &&& old(self).expects(messages@)
                    &&& final(self).is_sorted()
                    &&& *final(self) == (FastFetch {
                        outstanding: final(self).outstanding,
                        ..*old(self)
                    })
                    &&& final(self).outstanding@ == old(self).outstanding@.difference(
                        refs.to_set(),
                    )
                    &&& payloads.wf()
                    &&& sorted_payloads(messages@, payloads@)
                },
                Err(e) => unexpected_message(*old(self), messages@, e),
            },
    {
        let ghost before = *self;
        let mut payloads: SortedMap<GenericTransactionRef, Bytes> = SortedMap::new();
        let mut i: usize = 0;
        proof {
            assert(messages@.take(0) =~= Seq::empty());
            assert(before.outstanding@.difference(Seq::<TransactionRef>::empty().to_set())
                =~= before.outstanding@);
        }
        while i < messages.len()
            invariant
                before == *old(self),
                self.is_sorted(),
                *self == (FastFetch { outstanding: self.outstanding, ..before }),
                i <= messages@.len(),
                before.expects(messages@.take(i as int)),
                self.outstanding@ == before.outstanding@.difference(
                    decoded_refs(messages@.take(i as int)).to_set(),
                ),
                payloads.wf(),
                sorted_payloads(messages@.take(i as int), payloads@),
            decreases messages@.len() - i,
        {
            let ghost upto = messages@.take(i as int);
            let ghost next = messages@.take(i + 1);
            proof {
                assert(next.drop_last() =~= upto);
                assert(next.last() == messages@[i as int]);
            }
            match SerializedTransactionsV2::from_bytes(&messages[i]) {
                Err(_) => {
                    proof {
                        assert(decoded_refs(next) == decoded_refs(upto));
                        lemma_sorted_payloads_skip(messages@, i as int, payloads@);
                    }
                },
                Ok(message) => {
                    let t = message.transaction_ref;
                    let ghost refs = decoded_refs(upto);
                    if !self.outstanding.remove(&t) {
                        proof {
                            assert(message_of(messages@[i as int]@) is Some);
                        }
                        return Err(
                            ConsensusError::UnexpectedTransactionForCommit {
                                peer: self.peer,
                                received: GenericTransactionRef::TransactionRef(t),
                            },
                        );
                    }
                    let ghost payload = message.serialized_transactions;
                    let ghost sofar = payloads@;
                    payloads.insert(
                        GenericTransactionRef::TransactionRef(t),
                        message.serialized_transactions,
                    );
                    proof {
                        let grown = refs.push(t);
                        assert(decoded_refs(next) == grown);
                        assert(!refs.contains(t)) by {
                            assert(refs.contains(t) <==> refs.to_set().contains(t));
                        }
                        assert(grown.no_duplicates()) by {
                            assert forall|x: int, y: int|
                                0 <= x < grown.len() && 0 <= y < grown.len() && x
                                    != y implies grown[x] != grown[y] by {
                                if x < refs.len() && y < refs.len() {
                                    assert(refs[x] != refs[y]);
                                } else if x < refs.len() {
                                    assert(refs.contains(refs[x]));
                                } else {
                                    assert(refs.contains(refs[y]));
                                }
                            }
                        }
                        assert forall|x: int| 0 <= x < grown.len() implies before.outstanding@.contains(
                            #[trigger] grown[x],
                        ) by {
                            if x < refs.len() {
                                assert(before.outstanding@.contains(refs[x]));
                            }
                        }
                        assert(grown.to_set() =~= refs.to_set().insert(t)) by {
                            assert forall|q: TransactionRef| grown.contains(q) <==> (
                            refs.contains(q) || q == t) by {
                                if refs.contains(q) {
                                    let z = choose|z: int| 0 <= z < refs.len() && refs[z] == q;
                                    assert(grown[z] == q);
                                }
                                assert(grown[refs.len() as int] == t);
                            }
                        }
                        assert(self.outstanding@ =~= before.outstanding@.difference(
                            grown.to_set(),
                        ));
                        lemma_sorted_payloads_insert(
                            messages@,
                            i as int,
                            sofar,
                            t,
                            payload,
                            payloads@,
                        );
                    }
                },
            }
            i = i + 1;
        }
        assert(messages@.take(i as int) =~= messages@);
        Ok(payloads)
    }

    /// Are all transactions of the first commit there?
    pub open spec fn first_commit_covered(self) -> bool {
        self.commits@.len() > 0 ==> is_covered(self.commits@[0], self.transactions@.dom())
    }

    /// Should no more be taken in? Only once the first commit is complete, so
    /// that the fetch makes progress.
    pub open spec fn cap_reached(self, max_fetch_bytes: usize) -> bool {
        &&& max_fetch_bytes != 0
        &&& self.received_bytes >= max_fetch_bytes
        &&& self.first_commit_covered()
    }

    /// Is `after` the fetch once the messages of a chunk have been taken in and
    /// verified?
    pub open spec fn takes_in<F: Fn(Bytes) -> ConsensusResult<TransactionsCommitment>>(
        self,
        committee: Committee,
        size_limit: usize,
        commitment_of: &F,
        messages: Seq<Bytes>,
        after: FastFetch,
    ) -> bool {
        let refs = decoded_refs(messages);
        &&& after == (FastFetch {
            outstanding: after.outstanding,
            transactions: after.transactions,
            received_bytes: after.received_bytes,
            ..self
        })
        &&& after.received_bytes == self.received_bytes + total_bytes(messages)
        &&& after.outstanding@ == self.outstanding@.difference(refs.to_set())
        &&& forall|k: GenericTransactionRef| #[trigger]
            after.transactions@.dom().contains(k) <==> (self.transactions@.dom().contains(k)
                || names_ref(messages, k))
        &&& forall|k: GenericTransactionRef| #[trigger]
            after.transactions@.dom().contains(k) ==> if names_ref(messages, k) {
                exists|payload: Bytes|
                    #![trigger payload_of(messages, k, payload)]
                    payload_of(messages, k, payload) && checked_transactions(
                        committee,
                        self.peer,
                        size_limit,
                        commitment_of,
                        k,
                        payload,
                        Ok(after.transactions@[k]),
                    )
            } else {
                after.transactions@[k] == self.transactions@[k]
            }
    }

    /// Taking in a chunk that is expected keeps each of the transactions either
    /// there or outstanding.
    proof fn lemma_taken_in<F: Fn(Bytes) -> ConsensusResult<TransactionsCommitment>>(
        self,
        committee: Committee,
        size_limit: usize,
        commitment_of: &F,
        messages: Seq<Bytes>,
        after: FastFetch,
    )
        requires
            self.wf(),
            self.expects(messages),
            self.takes_in(committee, size_limit, commitment_of, messages, after),
            after.is_sorted(),
        ensures
            after.wf(),
    {
        let refs = decoded_refs(messages);
        assert forall|k: GenericTransactionRef| #[trigger]
            after.transactions@.dom().contains(k) implies k
            == GenericTransactionRef::TransactionRef(after.transactions@[k].transaction_ref) by {
            if names_ref(messages, k) {
                let payload = choose|payload: Bytes|
                    #![trigger payload_of(messages, k, payload)]
                    payload_of(messages, k, payload) && checked_transactions(
                        committee,
                        self.peer,
                        size_limit,
                        commitment_of,
                        k,
                        payload,
                        Ok(after.transactions@[k]),
                    );
                assert(holds_transactions(
                    after.transactions@[k],
                    k->TransactionRef_0,
                    payload,
                ));
            } else {
                assert(self.transactions@.dom().contains(k));
            }
        }
        assert forall|t: TransactionRef| #[trigger] after.has(t) <==> self.has(t)
            || refs.contains(t) by {
            let k = GenericTransactionRef::TransactionRef(t);
            assert(after.transactions@.dom().contains(k) <==> (
            self.transactions@.dom().contains(k) || names_ref(messages, k)));
        }
        assert forall|t: TransactionRef| refs.contains(t) implies self.outstanding@.contains(
            t,
        ) by {
            let i = choose|i: int| 0 <= i < refs.len() && refs[i] == t;
            assert(self.outstanding@.contains(refs[i]));
        }
        assert forall|t: TransactionRef| #[trigger]
            after.outstanding@.contains(t) <==> due_transactions(after.commits@).contains(t)
                && !after.has(t) by {
            assert(refs.contains(t) <==> refs.to_set().contains(t));
            assert(after.has(t) <==> self.has(t) || refs.contains(t));
        }
        assert forall|t: TransactionRef| #[trigger] after.has(t) implies due_transactions(
            after.commits@,
        ).contains(t) by {
            if refs.contains(t) {
                assert(self.outstanding@.contains(t));
            }
        }
    }

    /// Is `r` what comes of taking in the messages of a chunk?
    pub open spec fn accepts<F: Fn(Bytes) -> ConsensusResult<TransactionsCommitment>>(
        self,
        committee: Committee,
        size_limit: usize,
        max_fetch_bytes: usize,
        commitment_of: &F,
        messages: Seq<Bytes>,
        r: ConsensusResult<(FastFetch, bool)>,
    ) -> bool {
        match r {
            Ok((after, stop)) => {
                &&& self.expects(messages)
                &&& after.wf()
                &&& self.takes_in(
                    committee,
                    size_limit,
                    commitment_of,
                    messages,
                    after,
                )
                &&& stop == after.cap_reached(max_fetch_bytes)
            },
            Err(e) => if !self.expects(messages) {
                unexpected_message(self, messages, e)
            } else {
                exists|k: GenericTransactionRef, payload: Bytes|
                    #![trigger payload_of(messages, k, payload)]
                    payload_of(messages, k, payload) && checked_transactions(
                        committee,
                        self.peer,
                        size_limit,
                        commitment_of,
                        k,
                        payload,
                        Err(e),
                    ) && forall|q: GenericTransactionRef|
                        (#[trigger] names_ref(messages, q)) && q.rank() < k.rank()
                            ==> message_passes(
                            committee,
                            self.peer,
                            size_limit,
                            commitment_of,
                            messages,
                            q,
                        )
            },
        }
    }

    /// Takes in the messages of a chunk. Tells whether to stop there.
    pub fn accept_chunk<F: Fn(Bytes) -> ConsensusResult<TransactionsCommitment>>(
        self,
        committee: &Committee,
        size_limit: usize,
        max_fetch_bytes: usize,
        messages: &Vec<Bytes>,
        commitment_of: &F,
    ) -> (r: ConsensusResult<(FastFetch, bool)>)
        requires
            self.wf(),
            self.received_bytes + total_bytes(messages@) <= usize::MAX,
            forall|b: Bytes| #[trigger] commitment_of.requires((b,)),
        ensures
            self.accepts(
                *committee,
                size_limit,
                max_fetch_bytes,
                commitment_of,
                messages@,
                r,
            ),
    {
        let ghost before = self;
        let mut fetch = self;
        let mut i: usize = 0;
        assert(messages@.take(0) =~= Seq::empty());
        while i < messages.len()
            invariant
                i <= messages@.len(),
                fetch == (FastFetch { received_bytes: fetch.received_bytes, ..before }),
                before.received_bytes + total_bytes(messages@) <= usize::MAX,
                fetch.received_bytes == before.received_bytes + total_bytes(
                    messages@.take(i as int),
                ),
            decreases messages@.len() - i,
        {
            proof {
                assert(messages@.take(i + 1).drop_last() =~= messages@.take(i as int));
                lemma_total_bytes_monotone(messages@, i + 1);
            }
            fetch.received_bytes = fetch.received_bytes + messages[i].len();
            i = i + 1;
        }
        assert(messages@.take(i as int) =~= messages@);
        let ghost counted = fetch;
        let payloads = match fetch.sort_chunk(messages) {
            Ok(payloads) => payloads,
            Err(e) => {
                proof {
                    lemma_unexpected(before, counted, messages@, e);
                }
                return Err(e);
            },
        };
        match verify_transactions_with_transactions_refs(
            committee,
            fetch.peer,
            size_limit,
            &payloads,
            commitment_of,
        ) {
            Err(e) => {
                proof {
                    let k = choose|k: GenericTransactionRef|
                        {
                            &&& #[trigger] payloads@.dom().contains(k)
                            &&& checked_transactions(
                                *committee,
                                before.peer,
                                size_limit,
                                commitment_of,
                                k,
                                payloads@[k],
                                Err(e),
                            )
                            &&& forall|q: GenericTransactionRef|
                                (#[trigger] payloads@.dom().contains(q)) && q.rank() < k.rank()
                                    ==> transactions_pass(
                                    *committee,
                                    before.peer,
                                    size_limit,
                                    commitment_of,
                                    q,
                                    payloads@[q],
                                )
                        };
                    assert(payload_of(messages@, k, payloads@[k]));
                    assert forall|q: GenericTransactionRef|
                        (#[trigger] names_ref(messages@, q)) && q.rank()
                            < k.rank() implies message_passes(
                        *committee,
                        before.peer,
                        size_limit,
                        commitment_of,
                        messages@,
                        q,
                    ) by {
                        assert(payloads@.dom().contains(q));
                        assert(payload_of(messages@, q, payloads@[q]));
                    }
                }
                return Err(e);
            },
            Ok(verified) => {
                let ghost had = fetch.transactions@;
                let n: usize = verified.entries.len();
                let mut j: usize = 0;
                while j < n
                    invariant
                        verified.wf(),
                        n == verified.entries@.len(),
                        j <= n,
                        fetch.is_sorted(),
                        fetch == (FastFetch {
                            received_bytes: counted.received_bytes,
                            outstanding: fetch.outstanding,
                            transactions: fetch.transactions,
                            ..before
                        }),
                        fetch.outstanding@ == before.outstanding@.difference(
                            decoded_refs(messages@).to_set(),
                        ),
                        forall|k: GenericTransactionRef| #[trigger]
                            fetch.transactions@.dom().contains(k) <==> (had.dom().contains(k)
                                || exists|x: int|
                                0 <= x < j && (#[trigger] verified.entries@[x]).0 == k),
                        forall|k: GenericTransactionRef| #[trigger]
                            fetch.transactions@.dom().contains(k) ==> fetch.transactions@[k]
                                == if exists|x: int|
                                0 <= x < j && (#[trigger] verified.entries@[x]).0 == k {
                                verified@[k]
                            } else {
                                had[k]
                            },
                    decreases n - j,
                {
                    let ghost sofar = fetch.transactions@;
                    let entry = &verified.entries[j];
                    proof {
                        verified.lemma_entry(j as int);
                    }
                    fetch.transactions.insert(entry.0, share(&entry.1));
                    proof {
                        assert forall|k: GenericTransactionRef| #[trigger]
                            fetch.transactions@.dom().contains(k) <==> (had.dom().contains(k)
                            || exists|x: int|
                            0 <= x < j + 1 && (#[trigger] verified.entries@[x]).0 == k) by {
                            if sofar.dom().contains(k) && !had.dom().contains(k) {
                                let x = choose|x: int|
                                    0 <= x < j && (#[trigger] verified.entries@[x]).0 == k;
                                assert(verified.entries@[x].0 == k);
                            }
                            if k == entry.0 {
                                assert(verified.entries@[j as int].0 == k);
                            }
                        }
                        assert forall|k: GenericTransactionRef| #[trigger]
                            fetch.transactions@.dom().contains(k) implies fetch.transactions@[k]
                            == if exists|x: int|
                            0 <= x < j + 1 && (#[trigger] verified.entries@[x]).0 == k {
                            verified@[k]
                        } else {
                            had[k]
                        } by {
                            if k == entry.0 {
                                assert(verified.entries@[j as int].0 == k);
                            } else {
                                assert(sofar.dom().contains(k));
                                if exists|x: int|
                                    0 <= x < j && (#[trigger] verified.entries@[x]).0 == k {
                                    let x = choose|x: int|
                                        0 <= x < j && (#[trigger] verified.entries@[x]).0 == k;
                                    assert(verified.entries@[x].0 == k);
                                } else if exists|x: int|
                                    0 <= x < j + 1 && (#[trigger] verified.entries@[x]).0 == k {
                                    let x = choose|x: int|
                                        0 <= x < j + 1 && (#[trigger] verified.entries@[x]).0 == k;
                                    assert(x < j);
                                }
                            }
                        }
                    }
                    j = j + 1;
                }
                proof {
                    assert forall|k: GenericTransactionRef| (exists|x: int|
                        0 <= x < n && (#[trigger] verified.entries@[x]).0 == k) <==> (
                    #[trigger] names_ref(messages@, k)) by {
                        if exists|x: int| 0 <= x < n && (#[trigger] verified.entries@[x]).0 == k {
                            let x = choose|x: int|
                                0 <= x < n && (#[trigger] verified.entries@[x]).0 == k;
                            verified.lemma_entry(x);
                            assert(payloads@.dom().contains(k));
                        }
                        if names_ref(messages@, k) {
                            assert(payloads@.dom().contains(k));
                            assert(verified@.dom().contains(k));
                            let x = verified.lemma_key(k);
                            assert(verified.entries@[x].0 == k);
                        }
                    }
                    assert forall|k: GenericTransactionRef| #[trigger]
                        fetch.transactions@.dom().contains(k) implies if names_ref(messages@, k) {
                        exists|payload: Bytes|
                            #![trigger payload_of(messages@, k, payload)]
                            payload_of(messages@, k, payload) && checked_transactions(
                                *committee,
                                before.peer,
                                size_limit,
                                commitment_of,
                                k,
                                payload,
                                Ok(fetch.transactions@[k]),
                            )
                    } else {
                        fetch.transactions@[k] == before.transactions@[k]
                    } by {
                        if names_ref(messages@, k) {
                            assert(payloads@.dom().contains(k));
                            assert(verified@.dom().contains(k));
                            assert(payload_of(messages@, k, payloads@[k]));
                        }
                    }
                }
            },
        }
        proof {
            before.lemma_taken_in(*committee, size_limit, commitment_of, messages@, fetch);
        }
        let mut stop = false;
        if max_fetch_bytes != 0 && fetch.received_bytes >= max_fetch_bytes {
            stop = if fetch.commits.len() > 0 {
                check_covered(&fetch.commits[0], &fetch.transactions)
            } else {
                true
            };
        }
        Ok((fetch, stop))
    }

    /// Is `r` what comes of ending the fetch?
    pub open spec fn finished(
        self,
        misbehavior_counts: MisbehaviorTotals,
        r: ConsensusResult<FastSyncOutput>,
    ) -> bool {
        let complete = self.outstanding@ == Set::<TransactionRef>::empty();
        let n = covered_prefix(self.commits@, self.transactions@.dom());
        let kept = if complete {
            self.commits@
        } else {
            self.commits@.take(n as int)
        };
        let transactions = if complete {
            self.transactions@
        } else {
            self.transactions@.restrict(
                self.transactions@.dom().intersect(named_transactions(kept)),
            )
        };
        match r {
            Ok(output) => {
                &&& complete || n > 0
                &&& output.commits@ == kept
                &&& output.voting_block_headers == self.voting_block_headers
                &&& are_subdags(
                    kept,
                    transactions,
                    misbehavior_counts,
                    output.committed_subdags@,
                )
            },
            Err(e) => {
                &&& !complete && n == 0
                &&& e == (ConsensusError::FetchedTransactionsMismatch {
                    peer: self.peer,
                    expected: named_transactions(self.commits@).len() as usize,
                    received: self.transactions@.dom().len() as usize,
                })
            },
        }
    }

    /// Ends the fetch: where transactions are missing, cuts it down to the
    /// commits that are complete, and makes the sub-DAGs.
    pub fn finish(self, misbehavior_counts: &MisbehaviorTotals) -> (r: ConsensusResult<
        FastSyncOutput,
    >)
        requires
            self.wf(),
        ensures
            self.finished(*misbehavior_counts, r),
    {
        proof {
            law_covered_prefix_is_longest(self.commits@, self.transactions@.dom());
        }
        let mut commits = self.commits;
        let mut transactions = self.transactions;
        if !self.outstanding.is_empty() {
            match truncate_to_fully_fetched_prefix(self.peer, &mut commits, &mut transactions) {
                Ok(_) => {},
                Err(e) => {
                    return Err(e);
                },
            }
        }
        let committed_subdags = assemble_subdags(&commits, transactions, misbehavior_counts);
        Ok(
            FastSyncOutput {
                commits,
                committed_subdags,
                voting_block_headers: self.voting_block_headers,
            },
        )
    }
}

/// A fetch that was stopped for its size makes progress: its first commit is
/// complete, so ending it does not fail.
pub proof fn law_stopped_fetch_makes_progress(fetch: FastFetch, max_fetch_bytes: usize)
    requires
        fetch.cap_reached(max_fetch_bytes),
        fetch.commits@.len() > 0,
    ensures
        covered_prefix(fetch.commits@, fetch.transactions@.dom()) > 0,
{
    law_covered_prefix_is_longest(fetch.commits@, fetch.transactions@.dom());
}

/// Do the messages bring transactions under the name `k`?
pub open spec fn names_ref(messages: Seq<Bytes>, k: GenericTransactionRef) -> bool {
    match k {
        GenericTransactionRef::TransactionRef(t) => decoded_refs(messages).contains(t),
        GenericTransactionRef::BlockRef(_) => false,
    }
}

/// Is `payload` what one of the messages brings under the name `k`?
pub open spec fn payload_of(messages: Seq<Bytes>, k: GenericTransactionRef, payload: Bytes) -> bool {
    match k {
        GenericTransactionRef::TransactionRef(t) => exists|i: int|
            0 <= i < messages.len() && message_of((#[trigger] messages[i])@) == Some(
                (t, payload@),
            ),
        GenericTransactionRef::BlockRef(_) => false,
    }
}

/// Do the transactions that the messages bring under the name `k` pass?
pub open spec fn message_passes<F: Fn(Bytes) -> ConsensusResult<TransactionsCommitment>>(
    committee: Committee,
    peer: AuthorityIndex,
    size_limit: usize,
    commitment_of: &F,
    messages: Seq<Bytes>,
    k: GenericTransactionRef,
) -> bool {
    exists|payload: Bytes| #[trigger]
        payload_of(messages, k, payload) && transactions_pass(
            committee,
            peer,
            size_limit,
            commitment_of,
            k,
            payload,
        )
}

/// Does `payloads` hold what the messages bring, by the transactions?
pub open spec fn sorted_payloads(
    messages: Seq<Bytes>,
    payloads: Map<GenericTransactionRef, Bytes>,
) -> bool {
    &&& forall|k: GenericTransactionRef| #[trigger]
        payloads.dom().contains(k) <==> names_ref(messages, k)
    &&& forall|k: GenericTransactionRef| #[trigger]
        payloads.dom().contains(k) ==> payload_of(messages, k, payloads[k])
}

proof fn lemma_sorted_payloads_skip(
    messages: Seq<Bytes>,
    i: int,
    payloads: Map<GenericTransactionRef, Bytes>,
)
    requires
        0 <= i < messages.len(),
        sorted_payloads(messages.take(i), payloads),
        message_of(messages[i]@) is None,
    ensures
        sorted_payloads(messages.take(i + 1), payloads),
{
    let x = messages.take(i);
    let y = messages.take(i + 1);
    assert(y.drop_last() =~= x);
    assert forall|k: GenericTransactionRef| #[trigger] payloads.dom().contains(k) implies payload_of(
        y,
        k,
        payloads[k],
    ) by {
        lemma_payload_of_longer(messages, i, k, payloads[k]);
    }
}

proof fn lemma_payload_of_longer(
    messages: Seq<Bytes>,
    i: int,
    k: GenericTransactionRef,
    payload: Bytes,
)
    requires
        0 <= i < messages.len(),
        payload_of(messages.take(i), k, payload),
    ensures
        payload_of(messages.take(i + 1), k, payload),
{
    let x = messages.take(i);
    let y = messages.take(i + 1);
    let t = k->TransactionRef_0;
    let z = choose|z: int|
        0 <= z < x.len() && message_of((#[trigger] x[z])@) == Some((t, payload@));
    assert(y[z] == x[z]);
}

proof fn lemma_sorted_payloads_insert(
    messages: Seq<Bytes>,
    i: int,
    before: Map<GenericTransactionRef, Bytes>,
    t: TransactionRef,
    payload: Bytes,
    after: Map<GenericTransactionRef, Bytes>,
)
    requires
        0 <= i < messages.len(),
        sorted_payloads(messages.take(i), before),
        message_of(messages[i]@) == Some((t, payload@)),
        after == before.insert(GenericTransactionRef::TransactionRef(t), payload),
    ensures
        sorted_payloads(messages.take(i + 1), after),
{
    let x = messages.take(i);
    let y = messages.take(i + 1);
    let key = GenericTransactionRef::TransactionRef(t);
    assert(y.drop_last() =~= x);
    assert(y.last() == messages[i]);
    let refs = decoded_refs(x);
    let grown = decoded_refs(y);
    assert(grown == refs.push(t));
    assert forall|k: GenericTransactionRef| #[trigger] after.dom().contains(k) <==> names_ref(
        y,
        k,
    ) by {
        match k {
            GenericTransactionRef::TransactionRef(q) => {
                if refs.contains(q) {
                    let z = choose|z: int| 0 <= z < refs.len() && refs[z] == q;
                    assert(grown[z] == q);
                }
                assert(grown[refs.len() as int] == t);
                if grown.contains(q) {
                    let z = choose|z: int| 0 <= z < grown.len() && grown[z] == q;
                    if z < refs.len() {
                        assert(refs[z] == q);
                    }
                }
                assert(before.dom().contains(k) <==> names_ref(x, k));
            },
            GenericTransactionRef::BlockRef(_) => {
                assert(before.dom().contains(k) <==> names_ref(x, k));
            },
        }
    }
    assert forall|k: GenericTransactionRef| #[trigger] after.dom().contains(k) implies payload_of(
        y,
        k,
        after[k],
    ) by {
        if k == key {
            assert(message_of(y[i]@) == Some((t, payload@)));
        } else {
            assert(before.dom().contains(k));
            lemma_payload_of_longer(messages, i, k, before[k]);
        }
    }
}

/// Is `e` the error for the first message that is not expected?
pub open spec fn unexpected_message(
    fetch: FastFetch,
    messages: Seq<Bytes>,
    e: ConsensusError,
) -> bool {
    exists|j: int|
        {
            &&& 0 <= j < messages.len()
            &&& fetch.expects(messages.take(j))
            &&& match message_of((#[trigger] messages[j])@) {
                Some((t, _)) => {
                    &&& !fetch.outstanding@.contains(t) || decoded_refs(
                        messages.take(j),
                    ).contains(t)
                    &&& e == (ConsensusError::UnexpectedTransactionForCommit {
                        peer: fetch.peer,
                        received: GenericTransactionRef::TransactionRef(t),
                    })
                },
                None => false,
            }
        }
}

/// What is not expected is not expected whatever has been counted, and a chunk
/// with it is not expected as a whole.
proof fn lemma_unexpected(
    before: FastFetch,
    counted: FastFetch,
    messages: Seq<Bytes>,
    e: ConsensusError,
)
    requires
        counted == (FastFetch { received_bytes: counted.received_bytes, ..before }),
        unexpected_message(counted, messages, e),
    ensures
        unexpected_message(before, messages, e),
        !before.expects(messages),
{
    let j = choose|j: int|
        {
            &&& 0 <= j < messages.len()
            &&& counted.expects(messages.take(j))
            &&& match message_of((#[trigger] messages[j])@) {
                Some((t, _)) => {
                    &&& !counted.outstanding@.contains(t) || decoded_refs(
                        messages.take(j),
                    ).contains(t)
                    &&& e == (ConsensusError::UnexpectedTransactionForCommit {
                        peer: counted.peer,
                        received: GenericTransactionRef::TransactionRef(t),
                    })
                },
                None => false,
            }
        };
    assert(before.expects(messages.take(j)));
    assert(message_of(messages[j]@) is Some);
    let t = message_of(messages[j]@)->Some_0.0;
    let x = decoded_refs(messages.take(j));
    let y = decoded_refs(messages.take(j + 1));
    assert(messages.take(j + 1).drop_last() =~= messages.take(j));
    assert(messages.take(j + 1).last() == messages[j]);
    assert(y == x.push(t));
    lemma_decoded_prefix(messages, j + 1);
    let all = decoded_refs(messages);
    assert(all.take(y.len() as int) == y);
    assert(all[x.len() as int] == y[x.len() as int]);
    if before.expects(messages) {
        assert(before.outstanding@.contains(all[x.len() as int]));
        assert(x.contains(t));
        let z = choose|z: int| 0 <= z < x.len() && x[z] == t;
        assert(all[z] == y[z]);
        assert(all[z] == all[x.len() as int]);
        assert(false);
    }
}

proof fn lemma_decoded_prefix(messages: Seq<Bytes>, n: int)
    requires
        0 <= n <= messages.len(),
    ensures
        decoded_refs(messages.take(n)).len() <= decoded_refs(messages).len(),
        decoded_refs(messages).take(decoded_refs(messages.take(n)).len() as int) == decoded_refs(
            messages.take(n),
        ),
    decreases messages.len() - n,
{
    if n == messages.len() {
        assert(messages.take(n) =~= messages);
        assert(decoded_refs(messages).take(decoded_refs(messages).len() as int)
            =~= decoded_refs(messages));
    } else {
        lemma_decoded_prefix(messages, n + 1);
        assert(messages.take(n + 1).drop_last() =~= messages.take(n));
        let a = decoded_refs(messages.take(n));
        let b = decoded_refs(messages.take(n + 1));
        let c = decoded_refs(messages);
        assert(b.take(a.len() as int) =~= a);
        assert(c.take(a.len() as int) =~= c.take(b.len() as int).take(a.len() as int));
    }
}

proof fn lemma_total_bytes_monotone(messages: Seq<Bytes>, n: int)
    requires
        0 <= n <= messages.len(),
    ensures
        0 <= total_bytes(messages.take(n)) <= total_bytes(messages),
    decreases messages.len(),
{
    if n == messages.len() {
        assert(messages.take(n) =~= messages);
        lemma_total_bytes_positive(messages);
    } else {
        lemma_total_bytes_monotone(messages.drop_last(), n);
        assert(messages.drop_last().take(n) =~= messages.take(n));
    }
}

proof fn lemma_total_bytes_positive(messages: Seq<Bytes>)
    ensures
        0 <= total_bytes(messages),
    decreases messages.len(),
{
    if messages.len() > 0 {
        lemma_total_bytes_positive(messages.drop_last());
    }
}

/// Is `subdag` made of the commit alone, with these transactions?
pub open spec fn is_subdag(
    commit: TrustedCommit,
    transactions: Seq<VerifiedTransactions>,
    misbehavior_counts: MisbehaviorTotals,
    subdag: CommittedSubDag,
) -> bool {
    &&& subdag.base.leader == commit.commit.leader
    &&& subdag.base.headers@.len() == 0
    &&& subdag.base.committed_header_refs@ == commit.commit.block_headers@
    &&& subdag.base.timestamp_ms == commit.commit.timestamp_ms
    &&& subdag.base.commit_ref == commit.spec_reference()
    &&& subdag.base.reputation_scores_desc@ == commit.commit.reputation_scores@
    &&& subdag.transactions@ == transactions
    &&& subdag.misbehavior_counts == misbehavior_counts
}

/// Are these the sub-DAGs of the commits? Transactions go to the first commit
/// that names them.
pub open spec fn are_subdags(
    commits: Seq<TrustedCommit>,
    transactions: Map<GenericTransactionRef, VerifiedTransactions>,
    misbehavior_counts: MisbehaviorTotals,
    subdags: Seq<CommittedSubDag>,
) -> bool {
    &&& subdags.len() == commits.len()
    &&& forall|i: int|
        0 <= i < subdags.len() ==> is_subdag(
            commits[i],
            taken(
                left(transactions, all_transaction_refs(commits.take(i))),
                commits[i].commit.committed_transactions@,
            ),
            misbehavior_counts,
            #[trigger] subdags[i],
        )
}

/// Makes the sub-DAGs of the commits.
fn assemble_subdags(
    commits: &Vec<TrustedCommit>,
    transactions_map: SortedMap<GenericTransactionRef, VerifiedTransactions>,
    misbehavior_counts: &MisbehaviorTotals,
) -> (r: Vec<CommittedSubDag>)
    requires
        transactions_map.wf(),
    ensures
        are_subdags(commits@, transactions_map@, *misbehavior_counts, r@),
{
    let mut transactions = transactions_map;
    let mut r: Vec<CommittedSubDag> = Vec::new();
    let mut i: usize = 0;
    proof {
        assert(commits@.take(0) =~= Seq::empty());
        assert(left(transactions_map@, Seq::empty()) =~= transactions_map@);
    }
    while i < commits.len()
        invariant
            transactions.wf(),
            i <= commits@.len(),
            transactions@ == left(transactions_map@, all_transaction_refs(commits@.take(i as int))),
            are_subdags(commits@.take(i as int), transactions_map@, *misbehavior_counts, r@),
        decreases commits@.len() - i,
    {
        let ghost base = r@;
        let commit = &commits[i];
        let commit_transactions = take_transactions(
            &mut transactions,
            &commit.commit.committed_transactions,
        );
        proof {
            let x = all_transaction_refs(commits@.take(i as int));
            let c = commits@[i as int].commit.committed_transactions@;
            assert(commits@.take(i + 1).drop_last() =~= commits@.take(i as int));
            assert(transactions@ =~= left(transactions_map@, x + c)) by {
                vstd::seq_lib::seq_to_set_distributes_over_add(x, c);
            }
        }
        let committed_header_refs = commit.commit.block_headers.clone();
        assert(committed_header_refs@ =~= commit.commit.block_headers@);
        let mut scores: Vec<(AuthorityIndex, u64)> = Vec::new();
        let mut j: usize = 0;
        while j < commit.commit.reputation_scores.len()
            invariant
                j <= commit.commit.reputation_scores@.len(),
                scores@ == commit.commit.reputation_scores@.take(j as int),
            decreases commit.commit.reputation_scores@.len() - j,
        {
            scores.push(commit.commit.reputation_scores[j]);
            j = j + 1;
            assert(scores@ =~= commit.commit.reputation_scores@.take(j as int));
        }
        assert(scores@ =~= commit.commit.reputation_scores@);
        let subdag_base = Arc::new(
            SubDagContent {
                leader: commit.commit.leader,
                headers: Vec::new(),
                committed_header_refs,
                timestamp_ms: commit.commit.timestamp_ms,
                commit_ref: commit.reference(),
                reputation_scores_desc: scores,
            },
        );
        let subdag = CommittedSubDag {
            base: subdag_base,
            transactions: commit_transactions,
            misbehavior_counts: share(misbehavior_counts),
        };
        r.push(subdag);
        proof {
            let upto = commits@.take(i + 1);
            assert forall|k: int| 0 <= k < r@.len() implies is_subdag(
                upto[k],
                taken(
                    left(transactions_map@, all_transaction_refs(upto.take(k))),
                    upto[k].commit.committed_transactions@,
                ),
                *misbehavior_counts,
                #[trigger] r@[k],
            ) by {
                if k < i {
                    assert(r@[k] == base[k]);
                    assert(upto.take(k) =~= commits@.take(i as int).take(k));
                } else {
                    assert(upto.take(k) =~= commits@.take(i as int));
                }
            }
        }
        i = i + 1;
    }
    assert(commits@.take(i as int) =~= commits@);
    r
}

/// Is this a failure of the connection, after which what has come in can still
/// be used? Any other error is the peer's fault.
pub fn is_soft_stream_error(error: &ConsensusError) -> (r: bool)
    ensures
        r == (error is NetworkRequest || error is NetworkRequestTimeout),
{
    match error {
        ConsensusError::NetworkRequest(_) => true,
        ConsensusError::NetworkRequestTimeout(_) => true,
        _ => false,
    }
}

/// How many commits back headers are needed to start over: for the cache, for
/// the linearizer, and for the leader schedule.
pub fn commits_for_reinitialization(
    last_commit_index: CommitIndex,
    last_commit_info_index: CommitIndex,
    leader_schedule_window: u32,
    cached_rounds: Round,
    gc_depth: Round,
) -> (r: u32)
    requires
        gc_depth * 2 <= u32::MAX,
    ensures
        ({
            let since = gap_between(last_commit_index, last_commit_info_index);
            &&& r >= since && r >= leader_schedule_window && r >= cached_rounds && r >= gc_depth * 2
            &&& r == since || r == leader_schedule_window || r == cached_rounds || r == gc_depth * 2
        }),
{
    let mut r: u32 = gc_depth * 2;
    if r < cached_rounds {
        r = cached_rounds;
    }
    if r < leader_schedule_window {
        r = leader_schedule_window;
    }
    let since: u32 = last_commit_index.saturating_sub(last_commit_info_index);
    if r < since {
        r = since;
    }
    r
}

/// What to do next to fetch the headers for starting over.
#[derive(Debug)]
pub enum RefetchStep {
    /// Ask this authority for these headers.
    Ask { authority: AuthorityIndex, refs: Vec<BlockRef> },
    /// All headers are there.
    Done,
    /// No authority delivered.
    Failed(ConsensusError),
}

/// Lists one after the other.
pub open spec fn joined(lists: Seq<Vec<BlockRef>>) -> Seq<BlockRef>
    decreases lists.len(),
{
    if lists.len() == 0 {
        Seq::empty()
    } else {
        joined(lists.drop_last()) + lists.last()@
    }
}

/// Fetching the headers for starting over: in chunks, each from the first
/// authority that delivers it.
#[derive(Debug)]
pub struct HeaderRefetch {
    pub chunks: Vec<Vec<BlockRef>>,
    pub targets: Vec<AuthorityIndex>,
    /// How many chunks have come in.
    pub chunk: usize,
    /// How many authorities have failed to deliver the current chunk.
    pub target: usize,
    pub headers: Vec<VerifiedBlockHeader>,
}

impl HeaderRefetch {
    pub open spec fn wf(self) -> bool {
        self.chunk <= self.chunks@.len() && self.target <= self.targets@.len()
    }

    /// Are the headers those of the chunks that have come in, in order?
    pub open spec fn is_in_step(self) -> bool {
        header_refs(self.headers@) == joined(self.chunks@.take(self.chunk as int))
    }

    /// Starts to fetch these headers. The other authorities are tried in a
    /// random order, the same one for each chunk.
    pub fn start(
        block_refs: &Vec<BlockRef>,
        max_headers_per_fetch: usize,
        committee_size: usize,
        own_index: AuthorityIndex,
    ) -> (r: Self)
        requires
            max_headers_per_fetch > 0,
            committee_size <= 256,
        ensures
            r.wf(),
            r.is_in_step(),
            r.chunk == 0,
            r.target == 0,
            r.headers@.len() == 0,
            r.chunks@.len() == chunk_count(block_refs@.len() as int, max_headers_per_fetch as int),
            forall|i: int|
                0 <= i < r.chunks@.len() ==> (#[trigger] r.chunks@[i])@ == chunk(
                    block_refs@,
                    max_headers_per_fetch as int,
                    i,
                ),
            r.targets@.to_multiset() == others(committee_size as int, own_index).to_multiset(),
    {
        let parts = chunks(block_refs, max_headers_per_fetch);
        let mut targets = other_authorities(committee_size, own_index);
        shuffle_list(&mut targets);
        let r = HeaderRefetch {
            chunks: parts,
            targets,
            chunk: 0,
            target: 0,
            headers: Vec::new(),
        };
        assert(header_refs(r.headers@) =~= joined(r.chunks@.take(0)));
        r
    }

    /// Tells what to do next.
    pub fn next_step(&self) -> (r: RefetchStep)
        requires
            self.wf(),
        ensures
            match r {
                RefetchStep::Ask { authority, refs } => {
                    &&& self.chunk < self.chunks@.len()
                    &&& self.target < self.targets@.len()
                    &&& authority == self.targets@[self.target as int]
                    &&& refs@ == self.chunks@[self.chunk as int]@
                },
                RefetchStep::Done => self.chunk == self.chunks@.len(),
                RefetchStep::Failed(e) => {
                    &&& self.chunk < self.chunks@.len()
                    &&& self.target == self.targets@.len()
                    &&& e == (ConsensusError::FailedToFetchBlockHeaders {
                        num_requested: self.chunks@[self.chunk as int]@.len() as usize,
                    })
                },
            },
    {
        if self.chunk >= self.chunks.len() {
            return RefetchStep::Done;
        }
        if self.target >= self.targets.len() {
            return RefetchStep::Failed(
                ConsensusError::FailedToFetchBlockHeaders {
                    num_requested: self.chunks[self.chunk].len(),
                },
            );
        }
        let refs = self.chunks[self.chunk].clone();
        assert(refs@ =~= self.chunks@[self.chunk as int]@);
        RefetchStep::Ask { authority: self.targets[self.target], refs }
    }

    /// Takes in the verified reply of the authority that was asked: headers, or
    /// a reason to ask the next one.
    pub fn on_reply(&mut self, reply: ConsensusResult<Vec<VerifiedBlockHeader>>)
        requires
            old(self).wf(),
            old(self).chunk < old(self).chunks@.len(),
            old(self).target < old(self).targets@.len(),
        ensures
            final(self).wf(),
            final(self).chunks == old(self).chunks,
            final(self).targets == old(self).targets,
            match reply {
                Ok(headers) => {
                    &&& final(self).chunk == old(self).chunk + 1
                    &&& final(self).target == 0
                    &&& final(self).headers@ == old(self).headers@ + headers@
                },
                Err(_) => {
                    &&& final(self).chunk == old(self).chunk
                    &&& final(self).target == old(self).target + 1
                    &&& final(self).headers@ == old(self).headers@
                },
            },
            old(self).is_in_step() && (reply matches Ok(headers) ==> header_refs(headers@)
                == old(self).chunks@[old(self).chunk as int]@) ==> final(self).is_in_step(),
    {
        let ghost before = *self;
        assert(self.chunks.len() <= usize::MAX && self.targets.len() <= usize::MAX);
        match reply {
            Ok(headers) => {
                let ghost reply = headers@;
                let mut headers = headers;
                self.headers.append(&mut headers);
                self.chunk = self.chunk + 1;
                self.target = 0;
                proof {
                    let n = before.chunk as int;
                    assert(before.chunks@.take(n + 1).drop_last() =~= before.chunks@.take(n));
                    assert(header_refs(self.headers@) =~= header_refs(before.headers@)
                        + header_refs(reply));
                }
            },
            Err(_) => {
                self.target = self.target + 1;
            },
        }
    }
}

/// Each chunk starts within the list, and the last one ends it.
proof fn lemma_chunk_bounds(l: int, size: int, i: int)
    requires
        size > 0,
        0 <= l,
        0 <= i < chunk_count(l, size),
    ensures
        0 <= i * size < l,
        (i + 1) * size == i * size + size,
{
    let x = l + size - 1;
    let c = chunk_count(l, size);
    vstd::arithmetic::div_mod::lemma_fundamental_div_mod(x, size);
    vstd::arithmetic::div_mod::lemma_mod_bound(x, size);
    vstd::arithmetic::mul::lemma_mul_is_commutative(size, c);
    vstd::arithmetic::mul::lemma_mul_inequality(i + 1, c, size);
    vstd::arithmetic::mul::lemma_mul_is_distributive_add_other_way(size, i, 1);
    vstd::arithmetic::mul::lemma_mul_inequality(0, i, size);
}

/// The chunks reach to the end of the list.
proof fn lemma_chunks_reach(l: int, size: int)
    requires
        size > 0,
        0 <= l,
    ensures
        0 <= chunk_count(l, size),
        l <= chunk_count(l, size) * size,
{
    let x = l + size - 1;
    let c = chunk_count(l, size);
    vstd::arithmetic::div_mod::lemma_fundamental_div_mod(x, size);
    vstd::arithmetic::div_mod::lemma_mod_bound(x, size);
    vstd::arithmetic::mul::lemma_mul_is_commutative(size, c);
    vstd::arithmetic::div_mod::lemma_div_pos_is_pos(x, size);
}

/// The first `n` chunks of a list are its beginning.
proof fn lemma_joined_chunks(lists: Seq<Vec<BlockRef>>, s: Seq<BlockRef>, size: int, n: int)
    requires
        size > 0,
        lists.len() == chunk_count(s.len() as int, size),
        forall|i: int| 0 <= i < lists.len() ==> (#[trigger] lists[i])@ == chunk(s, size, i),
        0 <= n <= lists.len(),
    ensures
        joined(lists.take(n)) == s.take(
            if n * size < s.len() {
                n * size
            } else {
                s.len() as int
            },
        ),
    decreases n,
{
    let l = s.len() as int;
    if n == 0 {
        vstd::arithmetic::mul::lemma_mul_basics(size);
        assert(n * size == 0);
        assert(lists.take(n).len() == 0);
        assert(joined(lists.take(n)) == Seq::<BlockRef>::empty());
        assert(s.take(0) =~= Seq::empty());
    } else {
        lemma_joined_chunks(lists, s, size, n - 1);
        assert(joined(lists.take(n)) == joined(lists.take(n - 1)) + lists[n - 1]@) by {
            assert(lists.take(n).drop_last() =~= lists.take(n - 1));
            assert(lists.take(n).last() == lists[n - 1]);
        }
        lemma_chunk_bounds(l, size, n - 1);
        let end = if n * size < l {
            n * size
        } else {
            l
        };
        assert(joined(lists.take(n - 1)) == s.take((n - 1) * size));
        assert(lists[n - 1]@ == s.subrange((n - 1) * size, end)) by {
            assert(lists[n - 1]@ == chunk(s, size, n - 1));
            assert((n - 1 + 1) * size == n * size);
        }
        assert(s.take((n - 1) * size) + s.subrange((n - 1) * size, end) =~= s.take(end));
        assert(joined(lists.take(n)) == s.take(end));
    }
}

/// Once all chunks have come in, the headers are exactly those asked for, in order.
pub proof fn law_refetched_headers_are_those_asked_for(
    refetch: HeaderRefetch,
    block_refs: Seq<BlockRef>,
    max_headers_per_fetch: int,
)
    requires
        max_headers_per_fetch > 0,
        refetch.is_in_step(),
        refetch.chunks@.len() == chunk_count(block_refs.len() as int, max_headers_per_fetch),
        forall|i: int|
            0 <= i < refetch.chunks@.len() ==> (#[trigger] refetch.chunks@[i])@ == chunk(
                block_refs,
                max_headers_per_fetch,
                i,
            ),
        refetch.chunk == refetch.chunks@.len(),
    ensures
        header_refs(refetch.headers@) == block_refs,
{
    let size = max_headers_per_fetch;
    let l = block_refs.len() as int;
    let n = refetch.chunks@.len() as int;
    lemma_chunks_reach(l, size);
    lemma_joined_chunks(refetch.chunks@, block_refs, size, n);
    assert(block_refs.take(l) =~= block_refs);
}

} // verus!
