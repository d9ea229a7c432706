//! The state, and how headers, transactions and commits come into it.
use std::collections::VecDeque;

use vstd::prelude::*;

use crate::commit::{CommitInfo, SubDagBase, TrustedCommit};
use crate::committee::ThresholdClock;

use crate::dag_state::model::{DagConfig, DagView, PendingWrites};

use crate::header::{share, Bytes, VerifiedBlock, VerifiedBlockHeader, VerifiedTransactions};
use crate::refs::{
    AuthorityIndex, BlockHeaderDigest, BlockRef, CommitRef, CommitVote, CommitmentKey,
    GenericTransactionRef, Round, TransactionRef, GENESIS_ROUND,
};
use crate::sorted::{SortedMap, SortedSet};

verus! {

/// The headers and transactions accepted of late, and what follows from them.
/// What is not held here any more is in storage.
#[derive(Debug)]
pub struct DagState {
    pub config: DagConfig,
    /// The genesis blocks, one per authority.
    pub genesis: SortedMap<BlockRef, VerifiedBlock>,
    pub recent_block_headers: SortedMap<BlockRef, VerifiedBlockHeader>,
    pub recent_transactions_by_authority: Vec<
        SortedMap<GenericTransactionRef, VerifiedTransactions>,
    >,
    pub recent_shards_by_authority: Vec<SortedMap<GenericTransactionRef, Bytes>>,
    /// The references of `recent_block_headers`, by author.
    pub recent_headers_refs_by_authority: Vec<SortedSet<BlockRef>>,
    /// For each author, the digest of the header with a given commitment.
    pub tx_ref_to_block_digest_by_authority: Vec<SortedMap<CommitmentKey, BlockHeaderDigest>>,
    pub threshold_clock: ThresholdClock,
    pub evicted_rounds: Vec<Round>,
    pub highest_accepted_round: Round,
    pub last_commit: Option<TrustedCommit>,
    pub last_solid_subdag_base: Option<SubDagBase>,
    pub last_committed_rounds: Vec<Round>,
    pub scoring_subdags: Vec<SubDagBase>,
    pub pending_commit_votes: VecDeque<CommitVote>,
    pub pending_acknowledgments: SortedSet<BlockRef>,
    pub transactions_to_write: Vec<VerifiedTransactions>,
    pub block_headers_to_write: Vec<VerifiedBlockHeader>,
    pub commits_to_write: Vec<TrustedCommit>,
    pub voting_block_headers_to_write: Vec<VerifiedBlockHeader>,
    pub fast_sync_ongoing_flag_to_write: Option<bool>,
    pub commit_info_to_write: Vec<(CommitRef, CommitInfo)>,
    /// The flag as storage has it.
    pub fast_sync_ongoing: bool,
    pub has_cordial_knowledge_senders: bool,
}

/// Can a header with this reference be held in memory?
pub open spec fn acceptable_ref(cfg: DagConfig, r: BlockRef) -> bool {
    cfg.committee.is_valid_index(r.author) && GENESIS_ROUND < r.round < Round::MAX
}

/// Are the rounds of the headers of `c` within bounds, and their authors in the
/// committee?
pub open spec fn commit_in_range(cfg: DagConfig, c: TrustedCommit) -> bool {
    &&& c.commit.leader.round < Round::MAX
    &&& forall|i: int|
        0 <= i < c.commit.block_headers@.len() ==> cfg.committee.is_valid_index(
            (#[trigger] c.commit.block_headers@[i]).author,
        ) && c.commit.block_headers@[i].round < Round::MAX
}

impl DagView {
    /// What every operation keeps.
    pub open spec fn inv(self, cfg: DagConfig) -> bool {
        &&& forall|r: BlockRef| #[trigger]
            self.headers.dom().contains(r) ==> acceptable_ref(cfg, r) && self.headers[r].reference
                == r && r.round <= self.highest_accepted_round
        &&& self.transactions.len() == cfg.size()
        &&& self.shards.len() == cfg.size()
        &&& self.digests.len() == cfg.size()
        &&& self.evicted_rounds.len() == cfg.size()
        &&& self.last_committed_rounds.len() == cfg.size()
        &&& forall|a: int, k: GenericTransactionRef|
            0 <= a < cfg.size() && (#[trigger] self.transactions[a].dom().contains(k))
                ==> k.spec_author() == a && (k is TransactionRef
                <==> cfg.consensus_fast_commit_sync)
        &&& forall|a: int, k: GenericTransactionRef|
            0 <= a < cfg.size() && (#[trigger] self.shards[a].dom().contains(k))
                ==> k.spec_author() == a
        &&& forall|a: int| 0 <= a < cfg.size() ==> #[trigger] self.evicted_rounds[a] < Round::MAX
        &&& forall|a: int|
            0 <= a < cfg.size() ==> #[trigger] self.last_committed_rounds[a] < Round::MAX
        &&& self.highest_accepted_round < Round::MAX
        &&& match self.last_commit {
            Some(c) => c.commit.leader.round < Round::MAX,
            None => true,
        }
    }
}

/// There is one genesis block for each authority, in the authorities' order.
pub open spec fn genesis_wf(cfg: DagConfig, genesis: SortedMap<BlockRef, VerifiedBlock>) -> bool {
    &&& genesis.wf()
    &&& genesis.entries@.len() == cfg.size()
    &&& forall|i: int|
        0 <= i < cfg.size() ==> {
            let e = #[trigger] genesis.entries@[i];
            &&& e.0.round == GENESIS_ROUND
            &&& e.0.author == i
            &&& e.1.verified_block_header.reference == e.0
        }
}

impl DagState {
    pub open spec fn view(self) -> DagView {
        let n = self.config.size();
        DagView {
            headers: self.recent_block_headers@,
            transactions: Seq::new(
                n,
                |a: int| self.recent_transactions_by_authority@[a]@,
            ),
            shards: Seq::new(n, |a: int| self.recent_shards_by_authority@[a]@),
            digests: Seq::new(n, |a: int| self.tx_ref_to_block_digest_by_authority@[a]@),
            clock: self.threshold_clock@,
            evicted_rounds: self.evicted_rounds@,
            highest_accepted_round: self.highest_accepted_round,
            last_commit: self.last_commit,
            last_solid_subdag_base: self.last_solid_subdag_base,
            last_committed_rounds: self.last_committed_rounds@,
            scoring_subdags: self.scoring_subdags@,
            pending_commit_votes: self.pending_commit_votes@,
            pending_acknowledgments: self.pending_acknowledgments@,
            writes: PendingWrites {
                transactions: self.transactions_to_write@,
                block_headers: self.block_headers_to_write@,
                commits: self.commits_to_write@,
                commit_info: self.commit_info_to_write@,
                voting_block_headers: self.voting_block_headers_to_write@,
                fast_sync_ongoing: self.fast_sync_ongoing_flag_to_write,
            },
            fast_sync_ongoing: self.fast_sync_ongoing,
            has_listener: self.has_cordial_knowledge_senders,
        }
    }

    /// Do the fields hold together?
    pub open spec fn wf(self) -> bool {
        let n = self.config.size();
        &&& self.config.wf()
        &&& genesis_wf(self.config, self.genesis)
        &&& self.recent_block_headers.wf()
        &&& self.recent_transactions_by_authority@.len() == n
        &&& forall|a: int|
            0 <= a < n ==> (#[trigger] self.recent_transactions_by_authority@[a]).wf()
        &&& self.recent_shards_by_authority@.len() == n
        &&& forall|a: int| 0 <= a < n ==> (#[trigger] self.recent_shards_by_authority@[a]).wf()
        &&& self.recent_headers_refs_by_authority@.len() == n
        &&& forall|a: int|
            0 <= a < n ==> (#[trigger] self.recent_headers_refs_by_authority@[a]).wf()
                && self.recent_headers_refs_by_authority@[a]@ == self@.refs_of(
                a as AuthorityIndex,
            )
        &&& self.tx_ref_to_block_digest_by_authority@.len() == n
        &&& forall|a: int|
            0 <= a < n ==> (#[trigger] self.tx_ref_to_block_digest_by_authority@[a]).wf()
        &&& self.threshold_clock.wf(self.config.committee)
        &&& self.pending_acknowledgments.wf()
        &&& self@.inv(self.config)
    }

    /// What an operation on the recent DAG leaves alone.
    pub open spec fn same_setup(self, other: DagState) -> bool {
        self.config == other.config && self.genesis == other.genesis
    }

    /// Takes a header into memory.
    pub(crate) fn insert_header(&mut self, h: &VerifiedBlockHeader)
        requires
            old(self).wf(),
            acceptable_ref(old(self).config, h.reference),
        ensures
            final(self).wf(),
            final(self).same_setup(*old(self)),
            final(self)@ == old(self)@.insert_header(old(self).config, *h),
    {
        let ghost before = *self;
        let r = h.reference;
        let a = r.author as usize;
        self.recent_block_headers.insert(r, share(h));
        self.recent_headers_refs_by_authority[a].insert(r);
        self.tx_ref_to_block_digest_by_authority[a].insert(
            CommitmentKey {
                round: r.round,
                transactions_commitment: h.transactions_commitment,
            },
            r.digest,
        );
        self.threshold_clock.add_block_header(r, &self.config.committee);
        if self.highest_accepted_round < r.round {
            self.highest_accepted_round = r.round;
        }
        proof {
            let target = before@.insert_header(before.config, *h);
            assert(self@.transactions =~= target.transactions);
            assert(self@.shards =~= target.shards);
            assert(self@.digests =~= target.digests);
            assert forall|b: int| 0 <= b < self.config.size() implies (
            #[trigger] self.recent_headers_refs_by_authority@[b])@ == self@.refs_of(
                b as AuthorityIndex,
            ) by {
                assert(self.recent_headers_refs_by_authority@[b]@ =~= self@.refs_of(
                    b as AuthorityIndex,
                ));
            }
        }
    }
}

} // verus!
