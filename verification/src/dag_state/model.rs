//! What the DAG state is, and what each operation does to it.
use vstd::prelude::*;

use crate::commit::{CommitInfo, SubDagBase, TrustedCommit};
use crate::committee::{ClockView, Committee};
use crate::header::{Bytes, VerifiedBlockHeader, VerifiedTransactions};
use crate::refs::{
    AuthorityIndex, BlockHeaderDigest, BlockRef, CommitRef, CommitVote, CommitmentKey,
    GenericTransactionRef, Round, TransactionRef, GENESIS_ROUND,
};

verus! {

/// What does not change while the node runs.
#[derive(Debug)]
pub struct DagConfig {
    pub committee: Committee,
    pub own_index: AuthorityIndex,
    /// How many rounds of headers to keep for each authority at least.
    pub cached_rounds: Round,
    /// How many rounds a commit, and an acknowledgment, can reach back.
    pub gc_depth: Round,
    /// Do commits name transactions by their commitment, not by their header?
    pub consensus_fast_commit_sync: bool,
}

impl DagConfig {
    pub open spec fn wf(self) -> bool {
        &&& self.committee.wf()
        &&& self.committee.is_valid_index(self.own_index)
        &&& self.gc_depth * 2 <= Round::MAX
    }

    pub open spec fn size(self) -> nat {
        self.committee.stakes@.len()
    }

    /// What is at or below this round is out of reach of commits with a leader
    /// at `round`.
    pub open spec fn gc_round(self, round: Round) -> Round {
        sat_sub(round, (self.gc_depth * 2) as Round)
    }
}

/// `a - b`, or 0 where that would be negative.
pub open spec fn sat_sub(a: Round, b: Round) -> Round {
    if a >= b {
        (a - b) as Round
    } else {
        0
    }
}

pub open spec fn min_round(a: Round, b: Round) -> Round {
    if a <= b {
        a
    } else {
        b
    }
}

pub open spec fn max_of(a: Round, b: Round) -> Round {
    if a >= b {
        a
    } else {
        b
    }
}

/// Is `b` in `s`, with nothing of a later round in `s`?
pub open spec fn is_last(s: Set<BlockRef>, b: BlockRef) -> bool {
    s.contains(b) && forall|c: BlockRef| #[trigger] s.contains(c) ==> c.round <= b.round
}

/// The highest round in `s`; that of genesis where `s` is empty.
pub open spec fn last_round(s: Set<BlockRef>) -> Round {
    if s == Set::<BlockRef>::empty() {
        GENESIS_ROUND
    } else {
        (choose|b: BlockRef| is_last(s, b)).round
    }
}

/// A reference of `s` with no later one in `s` tells the last round.
pub proof fn lemma_last_round(s: Set<BlockRef>, last: BlockRef)
    requires
        is_last(s, last),
    ensures
        last_round(s) == last.round,
{
    let w = choose|b: BlockRef| is_last(s, b);
    assert(is_last(s, w));
    assert(s.contains(w) && s.contains(last));
}

/// What has been accepted and not yet handed to storage.
pub ghost struct PendingWrites {
    pub transactions: Seq<VerifiedTransactions>,
    pub block_headers: Seq<VerifiedBlockHeader>,
    pub commits: Seq<TrustedCommit>,
    pub commit_info: Seq<(CommitRef, CommitInfo)>,
    pub voting_block_headers: Seq<VerifiedBlockHeader>,
    pub fast_sync_ongoing: Option<bool>,
}

impl PendingWrites {
    pub open spec fn none() -> PendingWrites {
        PendingWrites {
            transactions: Seq::empty(),
            block_headers: Seq::empty(),
            commits: Seq::empty(),
            commit_info: Seq::empty(),
            voting_block_headers: Seq::empty(),
            fast_sync_ongoing: None,
        }
    }
}

/// The state, mathematically.
pub ghost struct DagView {
    /// The headers held in memory.
    pub headers: Map<BlockRef, VerifiedBlockHeader>,
    /// The transactions held in memory, by author.
    pub transactions: Seq<Map<GenericTransactionRef, VerifiedTransactions>>,
    /// The own shards held in memory, by author.
    pub shards: Seq<Map<GenericTransactionRef, Bytes>>,
    /// The digests of headers, by author and then by commitment.
    pub digests: Seq<Map<CommitmentKey, BlockHeaderDigest>>,
    pub clock: ClockView,
    /// For each authority, the round up to which headers have been dropped.
    pub evicted_rounds: Seq<Round>,
    pub highest_accepted_round: Round,
    pub last_commit: Option<TrustedCommit>,
    /// The last commit whose transactions are all at hand.
    pub last_solid_subdag_base: Option<SubDagBase>,
    /// For each authority, the highest round of its headers that a commit has
    /// taken in.
    pub last_committed_rounds: Seq<Round>,
    /// The sub-DAGs that wait to be scored.
    pub scoring_subdags: Seq<SubDagBase>,
    pub pending_commit_votes: Seq<CommitVote>,
    pub pending_acknowledgments: Set<BlockRef>,
    pub writes: PendingWrites,
    /// Does storage say that fast synchronization is under way?
    pub fast_sync_ongoing: bool,
    /// Does anybody listen to news about headers and shards?
    pub has_listener: bool,
}

/// Does what is named by `k` stay when everything below `round` goes?
/// References of the other kind than the one in use are all below, or all
/// above, those in use.
pub open spec fn survives(k: GenericTransactionRef, by_commitment: bool, round: Round) -> bool {
    match k {
        GenericTransactionRef::BlockRef(b) => !by_commitment && b.round >= round,
        GenericTransactionRef::TransactionRef(t) => !by_commitment || t.round >= round,
    }
}

pub open spec fn keep_from<V>(
    m: Map<GenericTransactionRef, V>,
    by_commitment: bool,
    round: Round,
) -> Map<GenericTransactionRef, V> {
    m.restrict(m.dom().filter(|k: GenericTransactionRef| survives(k, by_commitment, round)))
}

pub open spec fn keep_digests_from(
    m: Map<CommitmentKey, BlockHeaderDigest>,
    round: Round,
) -> Map<CommitmentKey, BlockHeaderDigest> {
    m.restrict(m.dom().filter(|k: CommitmentKey| k.round >= round))
}

/// The highest rounds after a commit that takes in `refs`.
pub open spec fn raise_rounds(rounds: Seq<Round>, refs: Seq<BlockRef>) -> Seq<Round>
    decreases refs.len(),
{
    if refs.len() == 0 {
        rounds
    } else {
        let before = raise_rounds(rounds, refs.drop_last());
        let r = refs.last();
        before.update(r.author as int, max_of(before[r.author as int], r.round))
    }
}

impl DagView {
    /// The references of the headers of `author` that are held in memory.
    pub open spec fn refs_of(self, author: AuthorityIndex) -> Set<BlockRef> {
        self.headers.dom().filter(|r: BlockRef| r.author == author)
    }

    /// The state with one more header in memory.
    pub open spec fn insert_header(self, cfg: DagConfig, h: VerifiedBlockHeader) -> DagView {
        let r = h.reference;
        let a = r.author as int;
        DagView {
            headers: self.headers.insert(r, h),
            digests: self.digests.update(
                a,
                self.digests[a].insert(
                    CommitmentKey {
                        round: r.round,
                        transactions_commitment: h.transactions_commitment,
                    },
                    r.digest,
                ),
            ),
            clock: self.clock.add_header(cfg.committee, r.round, r.author),
            highest_accepted_round: max_of(self.highest_accepted_round, r.round),
            ..self
        }
    }

    /// The state with these headers in memory too, taken in one by one.
    pub open spec fn insert_headers(self, cfg: DagConfig, hs: Seq<VerifiedBlockHeader>) -> DagView
        decreases hs.len(),
    {
        if hs.len() == 0 {
            self
        } else {
            self.insert_headers(cfg, hs.drop_last()).insert_header(cfg, hs.last())
        }
    }

    /// The state after a new header is accepted.
    pub open spec fn accept_header(self, cfg: DagConfig, h: VerifiedBlockHeader) -> DagView {
        DagView {
            writes: PendingWrites {
                block_headers: self.writes.block_headers.push(h),
                ..self.writes
            },
            ..self.insert_header(cfg, h)
        }
    }

    /// The header that a transaction reference resolves to.
    pub open spec fn resolve(self, t: TransactionRef) -> Option<BlockRef> {
        let m = self.digests[t.author as int];
        let k = CommitmentKey {
            round: t.round,
            transactions_commitment: t.transactions_commitment,
        };
        if m.dom().contains(k) {
            Some(BlockRef { round: t.round, author: t.author, digest: m[k] })
        } else {
            None
        }
    }

    /// The acknowledgment that transactions from outside call for: that of
    /// their block, where it is known, unless they are empty or too old.
    pub open spec fn due_acknowledgment(
        self,
        cfg: DagConfig,
        t: VerifiedTransactions,
    ) -> Option<BlockRef> {
        if t.transactions@.len() == 0 || t.transaction_ref.round < sat_sub(
            self.clock.round,
            cfg.gc_depth,
        ) {
            None
        } else {
            match t.spec_block_ref() {
                Some(b) => Some(b),
                None => self.resolve(t.transaction_ref),
            }
        }
    }

    /// The state with one more block's transactions in memory.
    pub open spec fn insert_transactions(
        self,
        cfg: DagConfig,
        t: VerifiedTransactions,
        acknowledge: bool,
    ) -> DagView {
        match t.spec_generic_ref(cfg.consensus_fast_commit_sync) {
            None => self,
            Some(k) => {
                let a = t.transaction_ref.author as int;
                DagView {
                    transactions: self.transactions.update(a, self.transactions[a].insert(k, t)),
                    pending_acknowledgments: match self.due_acknowledgment(cfg, t) {
                        Some(b) if acknowledge => self.pending_acknowledgments.insert(b),
                        _ => self.pending_acknowledgments,
                    },
                    ..self
                }
            },
        }
    }

    pub open spec fn insert_all_transactions(
        self,
        cfg: DagConfig,
        ts: Seq<VerifiedTransactions>,
    ) -> DagView
        decreases ts.len(),
    {
        if ts.len() == 0 {
            self
        } else {
            self.insert_all_transactions(cfg, ts.drop_last()).insert_transactions(
                cfg,
                ts.last(),
                false,
            )
        }
    }

    /// Are the transactions named by `k` in memory?
    pub open spec fn has_transactions(self, k: GenericTransactionRef) -> bool {
        self.transactions[k.spec_author() as int].dom().contains(k)
    }

    pub open spec fn add_transactions(
        self,
        cfg: DagConfig,
        t: VerifiedTransactions,
        acknowledge: bool,
    ) -> DagView {
        match t.spec_generic_ref(cfg.consensus_fast_commit_sync) {
            None => self,
            Some(k) => if self.has_transactions(k) {
                self
            } else {
                DagView {
                    writes: PendingWrites {
                        transactions: self.writes.transactions.push(t),
                        ..self.writes
                    },
                    ..self.insert_transactions(cfg, t, acknowledge)
                }
            },
        }
    }

    pub open spec fn add_shard(self, k: GenericTransactionRef, shard: Bytes) -> DagView {
        let a = k.spec_author() as int;
        DagView { shards: self.shards.update(a, self.shards[a].insert(k, shard)), ..self }
    }

    pub open spec fn last_commit_round(self) -> Round {
        match self.last_commit {
            Some(c) => c.commit.leader.round,
            None => 0,
        }
    }

    pub open spec fn last_commit_index(self) -> u32 {
        match self.last_commit {
            Some(c) => c.commit.index,
            None => 0,
        }
    }

    pub open spec fn add_commit(self, c: TrustedCommit) -> DagView {
        if self.last_commit is Some && c.commit.index <= self.last_commit_index() {
            self
        } else {
            DagView {
                last_commit: Some(c),
                last_committed_rounds: raise_rounds(
                    self.last_committed_rounds,
                    c.commit.block_headers@,
                ),
                writes: PendingWrites { commits: self.writes.commits.push(c), ..self.writes },
                ..self
            }
        }
    }

    /// Transactions below this round are out of reach of the commits that are
    /// not solid yet.
    pub open spec fn solid_gc_round(self, cfg: DagConfig) -> Round {
        match self.last_solid_subdag_base {
            Some(s) => cfg.gc_round(s.leader.round),
            None => GENESIS_ROUND,
        }
    }

    /// The last round of `author` that can be dropped: all but the last
    /// `cached_rounds` rounds, as far as the last commit no longer needs them.
    pub open spec fn eviction_round(self, cfg: DagConfig, author: AuthorityIndex) -> Round {
        min_round(
            cfg.gc_round(self.last_commit_round()),
            sat_sub(last_round(self.refs_of(author)), cfg.cached_rounds),
        )
    }

    pub open spec fn eviction_rounds(self, cfg: DagConfig) -> Seq<Round> {
        Seq::new(cfg.size(), |a: int| self.eviction_round(cfg, a as AuthorityIndex))
    }

    pub open spec fn evict_headers(self, cfg: DagConfig) -> DagView {
        DagView {
            headers: self.headers.restrict(
                self.headers.dom().filter(
                    |r: BlockRef| r.round > self.eviction_round(cfg, r.author),
                ),
            ),
            evicted_rounds: self.eviction_rounds(cfg),
            ..self
        }
    }

    pub open spec fn evict_shards(self, cfg: DagConfig) -> DagView {
        DagView {
            shards: Seq::new(
                cfg.size(),
                |a: int|
                    keep_from(
                        self.shards[a],
                        cfg.consensus_fast_commit_sync,
                        (self.eviction_round(cfg, a as AuthorityIndex) + 1) as Round,
                    ),
            ),
            ..self
        }
    }

    /// The first round of `author` whose transactions stay. While fast
    /// synchronization runs no headers come in, and the commits alone decide.
    pub open spec fn first_kept_round(self, cfg: DagConfig, author: AuthorityIndex) -> Round {
        if self.fast_sync_ongoing {
            self.solid_gc_round(cfg)
        } else {
            min_round(
                self.solid_gc_round(cfg),
                (self.eviction_round(cfg, author) + 1) as Round,
            )
        }
    }

    pub open spec fn evict_transactions(self, cfg: DagConfig) -> DagView {
        DagView {
            transactions: Seq::new(
                cfg.size(),
                |a: int|
                    keep_from(
                        self.transactions[a],
                        cfg.consensus_fast_commit_sync,
                        self.first_kept_round(cfg, a as AuthorityIndex),
                    ),
            ),
            ..self
        }
    }

    pub open spec fn evict_digests(self, cfg: DagConfig) -> DagView {
        DagView {
            digests: Seq::new(
                cfg.size(),
                |a: int|
                    keep_digests_from(
                        self.digests[a],
                        self.first_kept_round(cfg, a as AuthorityIndex),
                    ),
            ),
            ..self
        }
    }

    pub open spec fn evict_acknowledgments(self, cfg: DagConfig) -> DagView {
        DagView {
            pending_acknowledgments: self.pending_acknowledgments.filter(
                |r: BlockRef| r.round >= sat_sub(self.clock.round, cfg.gc_depth),
            ),
            ..self
        }
    }

    /// The acknowledgments that can go into a block now: those of rounds below
    /// that of the clock.
    pub open spec fn ripe_acknowledgments(self) -> Set<BlockRef> {
        self.pending_acknowledgments.filter(|r: BlockRef| r.round < self.clock.round)
    }

    /// The state after all that is due has been dropped from memory.
    pub open spec fn evict(self, cfg: DagConfig) -> DagView {
        self.evict_headers(cfg).evict_shards(cfg).evict_transactions(cfg).evict_digests(
            cfg,
        ).evict_acknowledgments(cfg)
    }

    /// The state after what is to be written has been handed over.
    pub open spec fn hand_over_writes(self) -> DagView {
        DagView {
            writes: PendingWrites::none(),
            fast_sync_ongoing: match self.writes.fast_sync_ongoing {
                Some(flag) => flag,
                None => self.fast_sync_ongoing,
            },
            ..self
        }
    }
}

} // verus!
