//! Dropping from memory what is no longer needed there, and handing over what
//! is to be written.
use vstd::prelude::*;

use crate::commit::{CommitInfo, TrustedCommit};
use crate::dag_state::model::{min_round, sat_sub, survives, DagConfig, DagView, PendingWrites};
use crate::dag_state::state::DagState;
use crate::header::{VerifiedBlockHeader, VerifiedTransactions};
use crate::refs::{
    lemma_triple_rank, AuthorityIndex, BlockRef, CommitRef, CommitmentKey, Digest,
    GenericTransactionRef, Key, Round, TransactionRef, GENESIS_ROUND,
};

verus! {

/// What is to be written to storage.
#[derive(Debug)]
pub struct WriteBatch {
    pub transactions: Vec<VerifiedTransactions>,
    pub block_headers: Vec<VerifiedBlockHeader>,
    pub commits: Vec<TrustedCommit>,
    pub commit_info: Vec<(CommitRef, CommitInfo)>,
    pub voting_block_headers: Vec<VerifiedBlockHeader>,
    pub fast_sync_ongoing: Option<bool>,
}

impl WriteBatch {
    pub open spec fn view(self) -> PendingWrites {
        PendingWrites {
            transactions: self.transactions@,
            block_headers: self.block_headers@,
            commits: self.commits@,
            commit_info: self.commit_info@,
            voting_block_headers: self.voting_block_headers@,
            fast_sync_ongoing: self.fast_sync_ongoing,
        }
    }
}

/// What a flush gives out: the batch to write, if there is anything to write,
/// and the rounds that the listener should drop, if there is one.
#[derive(Debug)]
pub struct Flushed {
    pub batch: Option<WriteBatch>,
    pub eviction_rounds: Option<Vec<Round>>,
}

/// The first reference of `author` at `round`, of the kind in use.
fn first_ref(by_commitment: bool, round: Round, author: AuthorityIndex) -> (r:
    GenericTransactionRef)
    ensures
        forall|k: GenericTransactionRef|
            k.spec_author() == author ==> (#[trigger] k.rank() >= r.rank() <==> survives(
                k,
                by_commitment,
                round,
            )),
{
    let r = if by_commitment {
        GenericTransactionRef::TransactionRef(
            TransactionRef { round, author, transactions_commitment: Digest::min() },
        )
    } else {
        GenericTransactionRef::BlockRef(BlockRef::new(round, author, Digest::min()))
    };
    proof {
        let m = Digest::min();
        lemma_triple_rank(round, author, m, round, author, m);
        assert forall|k: GenericTransactionRef| k.spec_author() == author implies (
        #[trigger] k.rank() >= r.rank() <==> survives(k, by_commitment, round)) by {
            match k {
                GenericTransactionRef::BlockRef(b) => {
                    lemma_triple_rank(b.round, b.author, b.digest, round, author, m);
                },
                GenericTransactionRef::TransactionRef(t) => {
                    lemma_triple_rank(
                        t.round,
                        t.author,
                        t.transactions_commitment,
                        round,
                        author,
                        m,
                    );
                },
            }
        }
    }
    r
}

impl DagView {
    /// The state after the headers of the first `n` authorities that are due
    /// have been dropped.
    pub open spec fn evict_headers_of_first(self, cfg: DagConfig, n: int) -> DagView {
        DagView {
            headers: self.headers.restrict(
                self.headers.dom().filter(
                    |r: BlockRef| r.author >= n || r.round > self.eviction_round(cfg, r.author),
                ),
            ),
            evicted_rounds: Seq::new(
                cfg.size(),
                |a: int|
                    if a < n {
                        self.eviction_round(cfg, a as AuthorityIndex)
                    } else {
                        self.evicted_rounds[a]
                    },
            ),
            ..self
        }
    }
}

impl DagState {
    /// The last commit's leader round, 0 before the first commit.
    pub fn last_commit_round(&self) -> (out: Round)
        ensures
            out == self@.last_commit_round(),
    {
        match &self.last_commit {
            Some(c) => c.commit.leader.round,
            None => 0,
        }
    }

    /// What is at or below this round is out of reach of commits with a leader
    /// at `round`.
    pub fn gc_round(&self, round: Round) -> (out: Round)
        requires
            self.config.wf(),
        ensures
            out == self.config.gc_round(round),
    {
        round.saturating_sub(self.config.gc_depth * 2)
    }

    pub fn gc_round_for_last_commit(&self) -> (out: Round)
        requires
            self.config.wf(),
        ensures
            out == self.config.gc_round(self@.last_commit_round()),
    {
        self.gc_round(self.last_commit_round())
    }

    pub fn gc_round_for_last_solid_commit(&self) -> (out: Round)
        requires
            self.config.wf(),
        ensures
            out == self@.solid_gc_round(self.config),
    {
        match &self.last_solid_subdag_base {
            Some(s) => self.gc_round(s.leader.round),
            None => GENESIS_ROUND,
        }
    }

    /// The last round to drop when the rounds up to `commit_round` are in.
    pub fn eviction_round(commit_round: Round, cached_rounds: Round) -> (out: Round)
        ensures
            out == sat_sub(commit_round, cached_rounds),
    {
        commit_round.saturating_sub(cached_rounds)
    }

    /// The last round of an authority that can be dropped now.
    pub fn calculate_authority_eviction_round(&self, authority_index: AuthorityIndex) -> (out:
        Round)
        requires
            self.wf(),
            self.config.committee.is_valid_index(authority_index),
        ensures
            out == self@.eviction_round(self.config, authority_index),
            out < Round::MAX,
    {
        let last: Round = match self.last_ref(authority_index) {
            Some(r) => r.round,
            None => GENESIS_ROUND,
        };
        let gc: Round = self.gc_round_for_last_commit();
        let cached: Round = Self::eviction_round(last, self.config.cached_rounds);
        if gc <= cached {
            gc
        } else {
            cached
        }
    }

    /// Drops the headers of one authority that are due.
    fn evict_headers_of(&mut self, authority_index: AuthorityIndex)
        requires
            old(self).wf(),
            old(self).config.committee.is_valid_index(authority_index),
        ensures
            final(self).wf(),
            final(self).same_setup(*old(self)),
            ({
                let ev = old(self)@.eviction_round(old(self).config, authority_index);
                final(self)@ == (DagView {
                    headers: old(self)@.headers.restrict(
                        old(self)@.headers.dom().filter(
                            |r: BlockRef| r.author != authority_index || r.round > ev,
                        ),
                    ),
                    evicted_rounds: old(self)@.evicted_rounds.update(authority_index as int, ev),
                    ..old(self)@
                })
            }),
    {
        let ghost before = *self;
        let ghost cfg = self.config;
        let a: usize = authority_index as usize;
        let ev: Round = self.calculate_authority_eviction_round(authority_index);
        let split_key = BlockRef::new(ev + 1, authority_index, Digest::min());
        let mut evicted = self.recent_headers_refs_by_authority[a].split_off(&split_key);
        core::mem::swap(&mut evicted, &mut self.recent_headers_refs_by_authority[a]);
        let ghost refs = before.recent_headers_refs_by_authority@[a as int];
        proof {
            assert(refs@ == before@.refs_of(authority_index));
            assert forall|r: BlockRef| #[trigger] refs@.contains(r) implies (r.rank()
                >= split_key.rank() <==> r.round > ev) by {
                lemma_triple_rank(
                    r.round,
                    r.author,
                    r.digest,
                    split_key.round,
                    split_key.author,
                    split_key.digest,
                );
            }
            assert(evicted@ =~= refs@.filter(|r: BlockRef| r.round <= ev));
            assert(self.recent_headers_refs_by_authority@[a as int]@ =~= refs@.filter(
                |r: BlockRef| r.round > ev,
            ));
        }
        let ghost kept_refs = self.recent_headers_refs_by_authority;
        let n: usize = evicted.len();
        let mut i: usize = 0;
        while i < n
            invariant
                n == evicted.items().len(),
                i <= n,
                evicted.wf(),
                self.recent_block_headers.wf(),
                *self == (DagState {
                    recent_block_headers: self.recent_block_headers,
                    recent_headers_refs_by_authority: kept_refs,
                    ..before
                }),
                forall|r: BlockRef| #[trigger]
                    self.recent_block_headers@.dom().contains(r) <==> (
                    before.recent_block_headers@.dom().contains(r) && !evicted.items().take(
                        i as int,
                    ).contains(r)),
                forall|r: BlockRef|
                    self.recent_block_headers@.dom().contains(r) ==> (
                    #[trigger] self.recent_block_headers@[r]) == before.recent_block_headers@[r],
            decreases n - i,
        {
            let r = evicted.at(i);
            self.recent_block_headers.remove(&r);
            proof {
                let x = evicted.items().take(i as int);
                let y = evicted.items().take(i + 1);
                assert(y =~= x.push(r));
                assert forall|q: BlockRef| y.contains(q) <==> (x.contains(q) || q == r) by {
                    if x.contains(q) {
                        let k = choose|k: int| 0 <= k < x.len() && x[k] == q;
                        assert(y[k] == q);
                    }
                    assert(y[i as int] == r);
                }
            }
            i = i + 1;
        }
        self.evicted_rounds[a] = ev;
        proof {
            assert(evicted.items().take(n as int) =~= evicted.items());
            evicted.lemma_items();
            let keep = before@.headers.restrict(
                before@.headers.dom().filter(
                    |r: BlockRef| r.author != authority_index || r.round > ev,
                ),
            );
            assert forall|r: BlockRef| #[trigger]
                self.recent_block_headers@.dom().contains(r) <==> keep.dom().contains(r) by {
                assert(evicted.items().contains(r) <==> evicted.items().to_set().contains(r));
                assert(evicted@.contains(r) <==> refs@.contains(r) && r.round <= ev);
                assert(refs@.contains(r) <==> before@.headers.dom().contains(r) && r.author
                    == authority_index);
            }
            assert(self@.headers =~= keep);
            assert(self@.transactions =~= before@.transactions);
            assert(self@.shards =~= before@.shards);
            assert(self@.digests =~= before@.digests);
            assert forall|b: int| 0 <= b < cfg.size() implies (
            #[trigger] self.recent_headers_refs_by_authority@[b]).wf()
                && self.recent_headers_refs_by_authority@[b]@ == self@.refs_of(
                b as AuthorityIndex,
            ) by {
                if b != a {
                    assert(self.recent_headers_refs_by_authority@[b]
                        == before.recent_headers_refs_by_authority@[b]);
                }
                assert(self.recent_headers_refs_by_authority@[b]@ =~= self@.refs_of(
                    b as AuthorityIndex,
                ));
            }
        }
    }

    /// Drops the headers that are due.
    pub fn evict_headers(&mut self)
        requires
            old(self).wf(),
        ensures
            final(self).wf(),
            final(self).same_setup(*old(self)),
            final(self)@ == old(self)@.evict_headers(old(self).config),
    {
        let ghost before = *self;
        let ghost cfg = self.config;
        let n: usize = self.config.committee.size();
        let mut i: usize = 0;
        proof {
            assert(self@.headers =~= before@.evict_headers_of_first(cfg, 0).headers);
            assert(self@.evicted_rounds =~= before@.evict_headers_of_first(cfg, 0).evicted_rounds);
        }
        while i < n
            invariant
                self.wf(),
                self.same_setup(before),
                before.wf(),
                cfg == before.config,
                n == cfg.size(),
                n <= 256,
                i <= n,
                self@ == before@.evict_headers_of_first(cfg, i as int),
            decreases n - i,
        {
            let ghost mid = self@;
            self.evict_headers_of(i as AuthorityIndex);
            proof {
                let a = i as AuthorityIndex;
                assert(mid.refs_of(a) =~= before@.refs_of(a));
                let target = before@.evict_headers_of_first(cfg, i + 1);
                assert(self@.headers =~= target.headers);
                assert(self@.evicted_rounds =~= target.evicted_rounds);
            }
            i = i + 1;
        }
        proof {
            let target = before@.evict_headers(cfg);
            assert(self@.headers =~= target.headers);
            assert(self@.evicted_rounds =~= target.evicted_rounds);
        }
    }

    /// Drops the own shards that are due.
    pub fn evict_shards(&mut self)
        requires
            old(self).wf(),
        ensures
            final(self).wf(),
            final(self).same_setup(*old(self)),
            final(self)@ == old(self)@.evict_shards(old(self).config),
    {
        let ghost before = *self;
        let ghost cfg = self.config;
        let ghost target = before@.evict_shards(cfg);
        let n: usize = self.config.committee.size();
        let mut i: usize = 0;
        while i < n
            invariant
                self.wf(),
                before.wf(),
                cfg == before.config,
                n == cfg.size(),
                n <= 256,
                i <= n,
                target == before@.evict_shards(cfg),
                *self == (DagState {
                    recent_shards_by_authority: self.recent_shards_by_authority,
                    ..before
                }),
                self@ == (DagView { shards: self@.shards, ..before@ }),
                forall|a: int| 0 <= a < i ==> #[trigger] self@.shards[a] == target.shards[a],
                forall|a: int| i <= a < n ==> #[trigger] self@.shards[a] == before@.shards[a],
            decreases n - i,
        {
            let ghost mid = *self;
            let a = i as AuthorityIndex;
            let ev: Round = self.calculate_authority_eviction_round(a);
            let split_key = first_ref(self.config.consensus_fast_commit_sync, ev + 1, a);
            let kept = self.recent_shards_by_authority[i].split_off(&split_key);
            proof {
                assert(mid@.shards[i as int] == mid.recent_shards_by_authority@[i as int]@);
                assert forall|k: GenericTransactionRef| #[trigger]
                    mid@.shards[i as int].dom().contains(k) implies (k.rank() >= split_key.rank()
                    <==> survives(k, cfg.consensus_fast_commit_sync, (ev + 1) as Round)) by {}
                assert(kept@ =~= target.shards[i as int]);
            }
            self.recent_shards_by_authority[i] = kept;
            proof {
                assert(self@.shards =~= mid@.shards.update(i as int, kept@));
                assert(self@.transactions =~= before@.transactions);
                assert(self@.digests =~= before@.digests);
                assert forall|b: int, k: GenericTransactionRef|
                    0 <= b < cfg.size() && (#[trigger] self@.shards[b].dom().contains(
                        k,
                    )) implies k.spec_author() == b by {
                    assert(mid@.shards[b].dom().contains(k));
                }
                assert forall|b: int| 0 <= b < cfg.size() implies (
                #[trigger] self.recent_headers_refs_by_authority@[b])@ == self@.refs_of(
                    b as AuthorityIndex,
                ) by {
                    assert(mid.recent_headers_refs_by_authority@[b]@ == mid@.refs_of(
                        b as AuthorityIndex,
                    ));
                }
            }
            i = i + 1;
        }
        assert(self@.shards =~= target.shards);
    }

    /// The first round of an authority whose transactions stay in memory.
    fn first_round_to_keep(&self, a: AuthorityIndex) -> (out: Round)
        requires
            self.wf(),
            self.config.committee.is_valid_index(a),
        ensures
            out == self@.first_kept_round(self.config, a),
    {
        let gc: Round = self.gc_round_for_last_solid_commit();
        if self.fast_sync_ongoing {
            gc
        } else {
            let ev: Round = self.calculate_authority_eviction_round(a) + 1;
            if gc <= ev {
                gc
            } else {
                ev
            }
        }
    }

    /// Drops the transactions that are due.
    pub fn evict_transactions(&mut self)
        requires
            old(self).wf(),
        ensures
            final(self).wf(),
            final(self).same_setup(*old(self)),
            final(self)@ == old(self)@.evict_transactions(old(self).config),
    {
        let ghost before = *self;
        let ghost cfg = self.config;
        let ghost target = before@.evict_transactions(cfg);
        let n: usize = self.config.committee.size();
        let mut i: usize = 0;
        while i < n
            invariant
                self.wf(),
                before.wf(),
                cfg == before.config,
                n == cfg.size(),
                n <= 256,
                i <= n,
                target == before@.evict_transactions(cfg),
                *self == (DagState {
                    recent_transactions_by_authority: self.recent_transactions_by_authority,
                    ..before
                }),
                self@ == (DagView { transactions: self@.transactions, ..before@ }),
                forall|a: int|
                    0 <= a < i ==> #[trigger] self@.transactions[a] == target.transactions[a],
                forall|a: int|
                    i <= a < n ==> #[trigger] self@.transactions[a] == before@.transactions[a],
            decreases n - i,
        {
            let ghost mid = *self;
            let a = i as AuthorityIndex;
            let round: Round = self.first_round_to_keep(a);
            let split_key = first_ref(self.config.consensus_fast_commit_sync, round, a);
            let kept = self.recent_transactions_by_authority[i].split_off(&split_key);
            proof {
                assert(mid@.transactions[i as int]
                    == mid.recent_transactions_by_authority@[i as int]@);
                assert forall|k: GenericTransactionRef| #[trigger]
                    mid@.transactions[i as int].dom().contains(k) implies (k.rank()
                    >= split_key.rank() <==> survives(
                    k,
                    cfg.consensus_fast_commit_sync,
                    round,
                )) by {}
                assert(kept@ =~= target.transactions[i as int]);
            }
            self.recent_transactions_by_authority[i] = kept;
            proof {
                assert(self@.transactions =~= mid@.transactions.update(i as int, kept@));
                assert(self@.shards =~= before@.shards);
                assert(self@.digests =~= before@.digests);
                assert forall|b: int, k: GenericTransactionRef|
                    0 <= b < cfg.size() && (#[trigger] self@.transactions[b].dom().contains(
                        k,
                    )) implies k.spec_author() == b && (k is TransactionRef
                    <==> cfg.consensus_fast_commit_sync) by {
                    assert(mid@.transactions[b].dom().contains(k));
                }
                assert forall|b: int| 0 <= b < cfg.size() implies (
                #[trigger] self.recent_headers_refs_by_authority@[b])@ == self@.refs_of(
                    b as AuthorityIndex,
                ) by {
                    assert(mid.recent_headers_refs_by_authority@[b]@ == mid@.refs_of(
                        b as AuthorityIndex,
                    ));
                }
            }
            i = i + 1;
        }
        assert(self@.transactions =~= target.transactions);
    }

    /// Drops the digests that are due.
    pub fn evict_tx_ref_to_block_digests(&mut self)
        requires
            old(self).wf(),
        ensures
            final(self).wf(),
            final(self).same_setup(*old(self)),
            final(self)@ == old(self)@.evict_digests(old(self).config),
    {
        let ghost before = *self;
        let ghost cfg = self.config;
        let ghost target = before@.evict_digests(cfg);
        let n: usize = self.config.committee.size();
        let mut i: usize = 0;
        while i < n
            invariant
                self.wf(),
                before.wf(),
                cfg == before.config,
                n == cfg.size(),
                n <= 256,
                i <= n,
                target == before@.evict_digests(cfg),
                *self == (DagState {
                    tx_ref_to_block_digest_by_authority: self.tx_ref_to_block_digest_by_authority,
                    ..before
                }),
                self@ == (DagView { digests: self@.digests, ..before@ }),
                forall|a: int| 0 <= a < i ==> #[trigger] self@.digests[a] == target.digests[a],
                forall|a: int| i <= a < n ==> #[trigger] self@.digests[a] == before@.digests[a],
            decreases n - i,
        {
            let ghost mid = *self;
            let a = i as AuthorityIndex;
            let round: Round = self.first_round_to_keep(a);
            let split_key = CommitmentKey { round, transactions_commitment: Digest::min() };
            let kept = self.tx_ref_to_block_digest_by_authority[i].split_off(&split_key);
            proof {
                assert(mid@.digests[i as int]
                    == mid.tx_ref_to_block_digest_by_authority@[i as int]@);
                assert forall|k: CommitmentKey| (#[trigger] k.rank()) >= split_key.rank()
                    <==> k.round >= round by {
                    assert(0 <= k.transactions_commitment.rank()
                        < crate::refs::digest_count());
                }
                assert(kept@ =~= target.digests[i as int]);
            }
            self.tx_ref_to_block_digest_by_authority[i] = kept;
            proof {
                assert(self@.digests =~= mid@.digests.update(i as int, kept@));
                assert(self@.shards =~= before@.shards);
                assert(self@.transactions =~= before@.transactions);
                assert forall|b: int| 0 <= b < cfg.size() implies (
                #[trigger] self.recent_headers_refs_by_authority@[b])@ == self@.refs_of(
                    b as AuthorityIndex,
                ) by {
                    assert(mid.recent_headers_refs_by_authority@[b]@ == mid@.refs_of(
                        b as AuthorityIndex,
                    ));
                }
            }
            i = i + 1;
        }
        assert(self@.digests =~= target.digests);
    }

    /// Nothing but the pending acknowledgments has changed.
    proof fn lemma_acknowledgments_only(self, before: DagState)
        requires
            before.wf(),
            self.pending_acknowledgments.wf(),
            self == (DagState { pending_acknowledgments: self.pending_acknowledgments, ..before }),
        ensures
            self.wf(),
            self@ == (DagView { pending_acknowledgments: self.pending_acknowledgments@, ..before@ }),
    {
        assert(self@.shards =~= before@.shards);
        assert(self@.transactions =~= before@.transactions);
        assert(self@.digests =~= before@.digests);
        assert forall|b: int| 0 <= b < self.config.size() implies (
        #[trigger] self.recent_headers_refs_by_authority@[b]).wf()
            && self.recent_headers_refs_by_authority@[b]@ == self@.refs_of(
            b as AuthorityIndex,
        ) by {
            assert(before.recent_headers_refs_by_authority@[b]@ == before@.refs_of(
                b as AuthorityIndex,
            ));
        }
    }

    /// Drops the pending acknowledgments that are too old to be of use.
    pub fn evict_pending_acknowledgments(&mut self)
        requires
            old(self).wf(),
        ensures
            final(self).wf(),
            final(self).same_setup(*old(self)),
            final(self)@ == old(self)@.evict_acknowledgments(old(self).config),
    {
        let ghost before = *self;
        let clock_round: Round = self.threshold_clock.get_round();
        let min_round: Round = clock_round.saturating_sub(self.config.gc_depth);
        let lower_bound = BlockRef::new(min_round, 0, Digest::min());
        let kept = self.pending_acknowledgments.split_off(&lower_bound);
        self.pending_acknowledgments = kept;
        proof {
            assert forall|r: BlockRef| (#[trigger] r.rank()) >= lower_bound.rank() <==> r.round
                >= min_round by {
                lemma_triple_rank(
                    r.round,
                    r.author,
                    r.digest,
                    lower_bound.round,
                    lower_bound.author,
                    lower_bound.digest,
                );
            }
            let target = before@.evict_acknowledgments(before.config);
            assert(self.pending_acknowledgments@ =~= target.pending_acknowledgments);
            self.lemma_acknowledgments_only(before);
        }
    }

    /// The rounds that each authority's data can be dropped up to, for whoever
    /// listens.
    pub fn evict_cordial_knowledge(&self) -> (out: Option<Vec<Round>>)
        requires
            self.wf(),
        ensures
            match out {
                Some(rounds) => self@.has_listener && rounds@ == self@.eviction_rounds(
                    self.config,
                ),
                None => !self@.has_listener,
            },
    {
        if !self.has_cordial_knowledge_senders {
            return None;
        }
        let n: usize = self.config.committee.size();
        let mut rounds: Vec<Round> = Vec::new();
        let mut i: usize = 0;
        while i < n
            invariant
                self.wf(),
                n == self.config.size(),
                n <= 256,
                i <= n,
                rounds@ == self@.eviction_rounds(self.config).take(i as int),
            decreases n - i,
        {
            let ev: Round = self.calculate_authority_eviction_round(i as AuthorityIndex);
            rounds.push(ev);
            i = i + 1;
            assert(rounds@ =~= self@.eviction_rounds(self.config).take(i as int));
        }
        assert(rounds@ =~= self@.eviction_rounds(self.config));
        Some(rounds)
    }

    /// Takes what is to be written.
    fn take_writes(&mut self) -> (out: WriteBatch)
        requires
            old(self).wf(),
        ensures
            final(self).wf(),
            final(self).same_setup(*old(self)),
            final(self)@ == old(self)@.hand_over_writes(),
            out@ == old(self)@.writes,
    {
        let ghost before = *self;
        let mut transactions: Vec<VerifiedTransactions> = Vec::new();
        let mut block_headers: Vec<VerifiedBlockHeader> = Vec::new();
        let mut commits: Vec<TrustedCommit> = Vec::new();
        let mut commit_info: Vec<(CommitRef, CommitInfo)> = Vec::new();
        let mut voting_block_headers: Vec<VerifiedBlockHeader> = Vec::new();
        core::mem::swap(&mut transactions, &mut self.transactions_to_write);
        core::mem::swap(&mut block_headers, &mut self.block_headers_to_write);
        core::mem::swap(&mut commits, &mut self.commits_to_write);
        core::mem::swap(&mut commit_info, &mut self.commit_info_to_write);
        core::mem::swap(&mut voting_block_headers, &mut self.voting_block_headers_to_write);
        let fast_sync_ongoing = self.fast_sync_ongoing_flag_to_write;
        self.fast_sync_ongoing_flag_to_write = None;
        match fast_sync_ongoing {
            Some(flag) => {
                self.fast_sync_ongoing = flag;
            },
            None => {},
        }
        proof {
            let target = before@.hand_over_writes();
            assert(self@.shards =~= before@.shards);
            assert(self@.transactions =~= before@.transactions);
            assert(self@.digests =~= before@.digests);
            assert forall|b: int| 0 <= b < self.config.size() implies (
            #[trigger] self.recent_headers_refs_by_authority@[b]).wf()
                && self.recent_headers_refs_by_authority@[b]@ == self@.refs_of(
                b as AuthorityIndex,
            ) by {
                assert(before.recent_headers_refs_by_authority@[b]@ == before@.refs_of(
                    b as AuthorityIndex,
                ));
            }
        }
        WriteBatch {
            transactions,
            block_headers,
            commits,
            commit_info,
            voting_block_headers,
            fast_sync_ongoing,
        }
    }

    /// Hands over what is to be written, and drops from memory what is due,
    /// also where there is nothing to write. The batch has to be written before
    /// the state is used again.
    pub fn flush(&mut self) -> (out: Flushed)
        requires
            old(self).wf(),
        ensures
            final(self).wf(),
            final(self).same_setup(*old(self)),
            final(self)@ == old(self)@.hand_over_writes().evict(old(self).config),
            match out.batch {
                Some(batch) => batch@ == old(self)@.writes && batch@ != PendingWrites::none(),
                None => old(self)@.writes == PendingWrites::none(),
            },
            match out.eviction_rounds {
                Some(rounds) => final(self)@.has_listener && rounds@
                    == final(self)@.eviction_rounds(final(self).config),
                None => !final(self)@.has_listener,
            },
    {
        let batch = self.take_writes();
        let has_data_to_write = batch.transactions.len() > 0 || batch.block_headers.len() > 0
            || batch.commits.len() > 0 || batch.commit_info.len() > 0
            || batch.voting_block_headers.len() > 0 || batch.fast_sync_ongoing.is_some();
        self.evict_headers();
        self.evict_shards();
        self.evict_transactions();
        self.evict_tx_ref_to_block_digests();
        self.evict_pending_acknowledgments();
        let eviction_rounds = self.evict_cordial_knowledge();
        let batch = if has_data_to_write {
            Some(batch)
        } else {
            proof {
                let none = PendingWrites::none();
                assert(batch@.transactions =~= none.transactions);
                assert(batch@.block_headers =~= none.block_headers);
                assert(batch@.commits =~= none.commits);
                assert(batch@.commit_info =~= none.commit_info);
                assert(batch@.voting_block_headers =~= none.voting_block_headers);
            }
            None
        };
        Flushed { batch, eviction_rounds }
    }
}

} // verus!
