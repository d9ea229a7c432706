//! How headers, transactions, shards and commits come into the state, and what
//! goes from it into new blocks.
use vstd::prelude::*;

use crate::commit::{CommitInfo, ReputationScores, SubDagBase, TrustedCommit};
use crate::cordial_knowledge::messages::CordialKnowledgeMessage;
use crate::dag_state::model::{max_of, raise_rounds, sat_sub, DagView, PendingWrites};
use crate::dag_state::read::found_commitment;
use crate::dag_state::source::DataSource;
use crate::dag_state::state::{acceptable_ref, commit_in_range, DagState};
use crate::header::{share, VerifiedBlockHeader, VerifiedOwnShard, VerifiedTransactions};
use crate::refs::{
    AuthorityIndex, BlockHeaderDigest, BlockRef, BlockTimestampMs, CommitDigest, CommitIndex,
    CommitRange, CommitRef, CommitVote, Digest, GenericTransactionRef, Key, Round, Slot,
    TransactionRef, TransactionsCommitment, GENESIS_COMMIT_INDEX, GENESIS_ROUND,
};
use crate::sorted::{ascending, SortedSet};

verus! {

/// A copy of the rounds.
pub(crate) fn copy_rounds(rounds: &Vec<Round>) -> (out: Vec<Round>)
    ensures
        out@ == rounds@,
{
    let out = rounds.clone();
    assert(out@ =~= rounds@);
    out
}

impl DataSource {
    /// Are headers from this source news to peers? What came with commits, or
    /// out of storage, is not.
    pub open spec fn is_news(self) -> bool {
        self != DataSource::CommitSyncer && self != DataSource::Recover
    }

    /// Are transactions from this source to be acknowledged? Committed and
    /// stored ones have been.
    pub open spec fn calls_for_acknowledgment(self) -> bool {
        self != DataSource::FastCommitSyncer && self != DataSource::CommitSyncer && self
            != DataSource::Recover
    }
}

impl DagState {
    /// The tables of headers, transactions, shards and digests are those of
    /// `before`.
    pub open spec fn same_tables(self, before: DagState) -> bool {
        &&& self.same_setup(before)
        &&& self.recent_block_headers == before.recent_block_headers
        &&& self.recent_transactions_by_authority == before.recent_transactions_by_authority
        &&& self.recent_shards_by_authority == before.recent_shards_by_authority
        &&& self.recent_headers_refs_by_authority == before.recent_headers_refs_by_authority
        &&& self.tx_ref_to_block_digest_by_authority == before.tx_ref_to_block_digest_by_authority
    }

    pub(crate) proof fn lemma_same_tables(self, before: DagState)
        requires
            before.wf(),
            self.same_tables(before),
        ensures
            self@.headers == before@.headers,
            self@.transactions == before@.transactions,
            self@.shards == before@.shards,
            self@.digests == before@.digests,
            forall|b: int|
                0 <= b < self.config.size() ==> (
                #[trigger] self.recent_headers_refs_by_authority@[b]).wf()
                    && self.recent_headers_refs_by_authority@[b]@ == self@.refs_of(
                    b as AuthorityIndex,
                ),
    {
        assert(self@.shards =~= before@.shards);
        assert(self@.transactions =~= before@.transactions);
        assert(self@.digests =~= before@.digests);
        assert forall|b: int| 0 <= b < self.config.size() implies (
        #[trigger] self.recent_headers_refs_by_authority@[b]).wf()
            && self.recent_headers_refs_by_authority@[b]@ == self@.refs_of(
            b as AuthorityIndex,
        ) by {
            assert(before.recent_headers_refs_by_authority@[b]@ == before@.refs_of(
                b as AuthorityIndex,
            ));
        }
    }

    /// Is `out` the news that the header `h` is, if anybody listens?
    pub open spec fn is_header_news<F: Fn(BlockRef) -> Option<VerifiedBlockHeader>>(
        self,
        h: VerifiedBlockHeader,
        source: DataSource,
        read: &F,
        out: Option<CordialKnowledgeMessage>,
    ) -> bool {
        if !(self@.has_listener && source.is_news()) {
            out is None
        } else {
            match out {
                Some(
                    CordialKnowledgeMessage::NewHeader { header, ack_transactions_commitments },
                ) => {
                    &&& header == h
                    &&& ack_transactions_commitments@.len() == h.acknowledgments@.len()
                    &&& forall|i: int|
                        0 <= i < h.acknowledgments@.len() ==> if self.config.consensus_fast_commit_sync {
                            found_commitment(
                                self@.headers,
                                read,
                                h.acknowledgments@[i],
                                #[trigger] ack_transactions_commitments@[i],
                            )
                        } else {
                            ack_transactions_commitments@[i] is None
                        }
                },
                _ => false,
            }
        }
    }

    /// Takes a header into memory, and tells the news that it is.
    pub fn update_block_header_metadata<F: Fn(BlockRef) -> Option<VerifiedBlockHeader>>(
        &mut self,
        block_header: &VerifiedBlockHeader,
        source: DataSource,
        read: &F,
    ) -> (out: Option<CordialKnowledgeMessage>)
        requires
            old(self).wf(),
            acceptable_ref(old(self).config, block_header.reference),
            forall|r: BlockRef| #[trigger] read.requires((r,)),
        ensures
            final(self).wf(),
            final(self).same_setup(*old(self)),
            final(self)@ == old(self)@.insert_header(old(self).config, *block_header),
            final(self).is_header_news(*block_header, source, read, out),
    {
        self.insert_header(block_header);
        if !self.has_cordial_knowledge_senders || source == DataSource::CommitSyncer || source
            == DataSource::Recover {
            return None;
        }
        let ack_transactions_commitments = if self.config.consensus_fast_commit_sync {
            self.get_transactions_commitments_batch(block_header.acknowledgments.as_slice(), read)
        } else {
            let mut none: Vec<Option<TransactionsCommitment>> = Vec::new();
            let mut i: usize = 0;
            while i < block_header.acknowledgments.len()
                invariant
                    i <= block_header.acknowledgments@.len(),
                    none@.len() == i,
                    forall|k: int| 0 <= k < i ==> #[trigger] none@[k] is None,
                decreases block_header.acknowledgments@.len() - i,
            {
                none.push(None);
                i = i + 1;
            }
            none
        };
        Some(
            CordialKnowledgeMessage::NewHeader {
                header: share(block_header),
                ack_transactions_commitments,
            },
        )
    }

    /// Could the node's own slot take `h`? There is to be at most one own header
    /// per round.
    pub open spec fn own_slot_free(self, r: BlockRef) -> bool {
        r.author == self.config.own_index ==> forall|q: BlockRef| #[trigger]
            self@.headers.dom().contains(q) ==> !(q.round == r.round && q.author == r.author)
    }

    /// Is the header in memory, or is there room for it?
    pub open spec fn can_take(self, r: BlockRef) -> bool {
        self@.headers.dom().contains(r) || self.own_slot_free(r)
    }

    /// Accepts a header, unless it has been accepted before; then nothing
    /// changes.
    pub fn accept_block_header<
        C: Fn(BlockRef) -> bool,
        F: Fn(BlockRef) -> Option<VerifiedBlockHeader>,
    >(
        &mut self,
        block_header: &VerifiedBlockHeader,
        source: DataSource,
        contains: &C,
        read: &F,
    ) -> (out: Option<CordialKnowledgeMessage>)
        requires
            old(self).wf(),
            acceptable_ref(old(self).config, block_header.reference),
            old(self).known_header(contains, block_header.reference, false) ==> old(
                self,
            ).own_slot_free(block_header.reference),
            forall|r: BlockRef| #[trigger] contains.requires((r,)),
            forall|r: BlockRef| #[trigger] read.requires((r,)),
        ensures
            final(self).wf(),
            final(self).same_setup(*old(self)),
            accepted(*old(self), *final(self), *block_header, source, contains, read, out),
    {
        let ghost start = *self;
        let block_ref = block_header.reference;
        if self.contains_block_header(&block_ref, contains) {
            assert(start.known_header(contains, block_ref, true));
            return None;
        }
        assert(start.known_header(contains, block_ref, false));
        let out = self.update_block_header_metadata(block_header, source, read);
        let ghost before = *self;
        self.block_headers_to_write.push(share(block_header));
        proof {
            self.lemma_same_tables(before);
        }
        out
    }

    /// Accepts headers one by one, and tells the news.
    pub fn accept_block_headers<
        C: Fn(BlockRef) -> bool,
        F: Fn(BlockRef) -> Option<VerifiedBlockHeader>,
    >(
        &mut self,
        block_headers: &Vec<VerifiedBlockHeader>,
        source: DataSource,
        contains: &C,
        read: &F,
    ) -> (out: Vec<CordialKnowledgeMessage>)
        requires
            old(self).wf(),
            forall|i: int|
                0 <= i < block_headers@.len() ==> acceptable_ref(
                    old(self).config,
                    (#[trigger] block_headers@[i]).reference,
                ),
            forall|i: int|
                0 <= i < block_headers@.len() ==> old(self).can_take(
                    (#[trigger] block_headers@[i]).reference,
                ),
            forall|i: int, j: int|
                0 <= i < j < block_headers@.len() ==> (
                #[trigger] block_headers@[i]).reference.author != old(self).config.own_index || (
                #[trigger] block_headers@[j]).reference.author != block_headers@[i].reference.author
                    || block_headers@[j].reference.round != block_headers@[i].reference.round
                    || block_headers@[j].reference == block_headers@[i].reference,
            forall|r: BlockRef| #[trigger] contains.requires((r,)),
            forall|r: BlockRef| #[trigger] read.requires((r,)),
        ensures
            final(self).wf(),
            final(self).same_setup(*old(self)),
            exists|steps: Seq<(DagState, Option<CordialKnowledgeMessage>)>|
                {
                    &&& #[trigger] steps.len() == block_headers@.len()
                    &&& forall|i: int|
                        0 <= i < steps.len() ==> accepted(
                            if i == 0 {
                                *old(self)
                            } else {
                                steps[i - 1].0
                            },
                            (#[trigger] steps[i]).0,
                            block_headers@[i],
                            source,
                            contains,
                            read,
                            steps[i].1,
                        )
                    &&& final(self)@ == if steps.len() == 0 {
                        old(self)@
                    } else {
                        steps.last().0@
                    }
                    &&& out@ == news_of(steps)
                },
    {
        let ghost start = *self;
        let ghost mut steps: Seq<(DagState, Option<CordialKnowledgeMessage>)> = Seq::empty();
        let mut out: Vec<CordialKnowledgeMessage> = Vec::new();
        let mut i: usize = 0;
        while i < block_headers.len()
            invariant
                start.wf(),
                self.wf(),
                self.same_setup(start),
                i <= block_headers@.len(),
                forall|i: int|
                    0 <= i < block_headers@.len() ==> acceptable_ref(
                        start.config,
                        (#[trigger] block_headers@[i]).reference,
                    ),
                forall|k: int|
                    i <= k < block_headers@.len() ==> self.can_take(
                        (#[trigger] block_headers@[k]).reference,
                    ),
                forall|i: int, j: int|
                    0 <= i < j < block_headers@.len() ==> (
                    #[trigger] block_headers@[i]).reference.author != start.config.own_index || (
                    #[trigger] block_headers@[j]).reference.author
                        != block_headers@[i].reference.author || block_headers@[j].reference.round
                        != block_headers@[i].reference.round || block_headers@[j].reference
                        == block_headers@[i].reference,
                forall|r: BlockRef| #[trigger] contains.requires((r,)),
                forall|r: BlockRef| #[trigger] read.requires((r,)),
                steps.len() == i,
                *self == if steps.len() == 0 {
                    start
                } else {
                    steps.last().0
                },
                out@ == news_of(steps),
                forall|k: int|
                    0 <= k < steps.len() ==> accepted(
                        if k == 0 {
                            start
                        } else {
                            steps[k - 1].0
                        },
                        (#[trigger] steps[k]).0,
                        block_headers@[k],
                        source,
                        contains,
                        read,
                        steps[k].1,
                    ),
            decreases block_headers@.len() - i,
        {
            let ghost before = *self;
            let ghost earlier = steps;
            let news = self.accept_block_header(&block_headers[i], source, contains, read);
            proof {
                let h = block_headers@[i as int];
                steps = steps.push((*self, news));
                assert(steps.drop_last() =~= earlier);
                assert(accepted(before, *self, h, source, contains, read, news));
                assert forall|k: int| i + 1 <= k < block_headers@.len() implies self.can_take(
                    (#[trigger] block_headers@[k]).reference,
                ) by {
                    let r = block_headers@[k].reference;
                    assert(before.can_take(r));
                    assert(block_headers@[i as int].reference == h.reference);
                    if !self@.headers.dom().contains(r) {
                        assert(before.own_slot_free(r));
                        assert forall|q: BlockRef| #[trigger] self@.headers.dom().contains(q)
                            && r.author == self.config.own_index implies !(q.round == r.round
                            && q.author == r.author) by {
                            if q != h.reference {
                                assert(before@.headers.dom().contains(q));
                            }
                        }
                    }
                }
            }
            match news {
                Some(message) => out.push(message),
                None => {},
            }
            i = i + 1;
        }
        out
    }

    /// Is there an acknowledgment to add, and which?
    pub fn add_pending_acknowledgment(
        &mut self,
        transaction_ref: TransactionRef,
        block_digest: Option<BlockHeaderDigest>,
    )
        requires
            old(self).wf(),
            old(self).config.committee.is_valid_index(transaction_ref.author),
        ensures
            final(self).wf(),
            final(self).same_setup(*old(self)),
            ({
                let block_ref = match block_digest {
                    Some(digest) => Some(
                        BlockRef {
                            round: transaction_ref.round,
                            author: transaction_ref.author,
                            digest,
                        },
                    ),
                    None => old(self)@.resolve(transaction_ref),
                };
                final(self)@ == (DagView {
                    pending_acknowledgments: match block_ref {
                        Some(r) => old(self)@.pending_acknowledgments.insert(r),
                        None => old(self)@.pending_acknowledgments,
                    },
                    ..old(self)@
                })
            }),
    {
        let ghost before = *self;
        let block_ref = match block_digest {
            Some(digest) => BlockRef::new(transaction_ref.round, transaction_ref.author, digest),
            None => match self.resolve_block_ref(&transaction_ref) {
                Some(r) => r,
                None => {
                    return;
                },
            },
        };
        self.pending_acknowledgments.insert(block_ref);
        proof {
            self.lemma_same_tables(before);
        }
    }

    /// Takes the transactions of a block into memory.
    pub fn update_transaction_metadata(
        &mut self,
        transactions: &VerifiedTransactions,
        source: DataSource,
    )
        requires
            old(self).wf(),
            old(self).config.committee.is_valid_index(transactions.transaction_ref.author),
        ensures
            final(self).wf(),
            final(self).same_setup(*old(self)),
            final(self)@ == old(self)@.insert_transactions(
                old(self).config,
                *transactions,
                source.calls_for_acknowledgment(),
            ),
    {
        let ghost before = *self;
        let transaction_ref = transactions.transaction_ref;
        let a: usize = transaction_ref.author as usize;
        let generic_ref = match transactions.generic_ref(self.config.consensus_fast_commit_sync) {
            Some(k) => k,
            None => {
                return;
            },
        };
        self.recent_transactions_by_authority[a].insert(generic_ref, share(transactions));
        proof {
            let target = before@.transactions.update(
                a as int,
                before@.transactions[a as int].insert(generic_ref, *transactions),
            );
            assert(self@.transactions =~= target);
            assert(self@.shards =~= before@.shards);
            assert(self@.digests =~= before@.digests);
            assert forall|b: int| 0 <= b < self.config.size() implies (
            #[trigger] self.recent_headers_refs_by_authority@[b]).wf()
                && self.recent_headers_refs_by_authority@[b]@ == self@.refs_of(
                b as AuthorityIndex,
            ) by {
                assert(before.recent_headers_refs_by_authority@[b]@ == before@.refs_of(
                    b as AuthorityIndex,
                ));
            }
            assert forall|b: int, k: GenericTransactionRef|
                0 <= b < self.config.size() && (#[trigger] self@.transactions[b].dom().contains(
                    k,
                )) implies k.spec_author() == b && (k is TransactionRef
                <==> self.config.consensus_fast_commit_sync) by {
                if !(b == a && k == generic_ref) {
                    assert(before@.transactions[b].dom().contains(k));
                }
            }
        }
        let clock_round: Round = self.threshold_clock.get_round();
        let min_round: Round = clock_round.saturating_sub(self.config.gc_depth);
        if transactions.has_transactions() && transaction_ref.round >= min_round && source
            != DataSource::FastCommitSyncer && source != DataSource::CommitSyncer && source
            != DataSource::Recover {
            self.add_pending_acknowledgment(transaction_ref, transactions.block_digest);
        }
        proof {
            let target = before@.insert_transactions(
                before.config,
                *transactions,
                source.calls_for_acknowledgment(),
            );
            assert(self@.pending_acknowledgments =~= target.pending_acknowledgments);
        }
    }

    /// Adds the transactions of a block, unless they are in memory already.
    pub fn add_transactions(&mut self, transactions: &VerifiedTransactions, source: DataSource)
        requires
            old(self).wf(),
            old(self).config.committee.is_valid_index(transactions.transaction_ref.author),
        ensures
            final(self).wf(),
            final(self).same_setup(*old(self)),
            final(self)@ == old(self)@.add_transactions(
                old(self).config,
                *transactions,
                source.calls_for_acknowledgment(),
            ),
    {
        let a: usize = transactions.transaction_ref.author as usize;
        let generic_ref = match transactions.generic_ref(self.config.consensus_fast_commit_sync) {
            Some(k) => k,
            None => {
                return;
            },
        };
        if self.recent_transactions_by_authority[a].contains_key(&generic_ref) {
            return;
        }
        self.update_transaction_metadata(transactions, source);
        let ghost before = *self;
        self.transactions_to_write.push(share(transactions));
        proof {
            self.lemma_same_tables(before);
        }
    }

    /// Adds an own shard; a new one is news, if anybody listens.
    pub fn add_shard(&mut self, shard: VerifiedOwnShard) -> (out: Option<CordialKnowledgeMessage>)
        requires
            old(self).wf(),
            old(self).config.committee.is_valid_index(shard.gen_transaction_ref.spec_author()),
        ensures
            final(self).wf(),
            final(self).same_setup(*old(self)),
            final(self)@ == old(self)@.add_shard(
                shard.gen_transaction_ref,
                shard.serialized_shard,
            ),
            out == if old(self)@.has_listener && !old(
                self,
            )@.shards[shard.gen_transaction_ref.spec_author() as int].dom().contains(
                shard.gen_transaction_ref,
            ) {
                Some(CordialKnowledgeMessage::NewShard(shard.gen_transaction_ref))
            } else {
                None
            },
    {
        let ghost before = *self;
        let k = shard.gen_transaction_ref;
        let a: usize = k.author() as usize;
        let ghost serialized = shard.serialized_shard;
        let replaced = self.recent_shards_by_authority[a].insert(k, shard.serialized_shard);
        proof {
            let target = before@.add_shard(k, serialized);
            assert(self@.shards =~= target.shards);
            assert(self@.transactions =~= before@.transactions);
            assert(self@.digests =~= before@.digests);
            assert forall|b: int| 0 <= b < self.config.size() implies (
            #[trigger] self.recent_headers_refs_by_authority@[b]).wf()
                && self.recent_headers_refs_by_authority@[b]@ == self@.refs_of(
                b as AuthorityIndex,
            ) by {
                assert(before.recent_headers_refs_by_authority@[b]@ == before@.refs_of(
                    b as AuthorityIndex,
                ));
            }
            assert forall|b: int, q: GenericTransactionRef|
                0 <= b < self.config.size() && (#[trigger] self@.shards[b].dom().contains(
                    q,
                )) implies q.spec_author() == b by {
                if !(b == a && q == k) {
                    assert(before@.shards[b].dom().contains(q));
                }
            }
        }
        if replaced.is_none() && self.has_cordial_knowledge_senders {
            Some(CordialKnowledgeMessage::NewShard(k))
        } else {
            None
        }
    }

    /// Lets news about headers and shards be told.
    pub fn set_cordial_knowledge_senders(&mut self)
        requires
            old(self).wf(),
        ensures
            final(self).wf(),
            final(self).same_setup(*old(self)),
            final(self)@ == (DagView { has_listener: true, ..old(self)@ }),
    {
        let ghost before = *self;
        self.has_cordial_knowledge_senders = true;
        proof {
            self.lemma_same_tables(before);
        }
    }

    /// Adds headers that certify commits, to be written.
    pub fn add_voting_block_headers(&mut self, headers: Vec<VerifiedBlockHeader>)
        requires
            old(self).wf(),
        ensures
            final(self).wf(),
            final(self).same_setup(*old(self)),
            final(self)@ == (DagView {
                writes: PendingWrites {
                    voting_block_headers: old(self)@.writes.voting_block_headers + headers@,
                    ..old(self)@.writes
                },
                ..old(self)@
            }),
    {
        let ghost before = *self;
        let mut headers = headers;
        self.voting_block_headers_to_write.append(&mut headers);
        proof {
            self.lemma_same_tables(before);
        }
    }

    /// Sets the flag that fast synchronization is under way, to be written.
    pub fn set_fast_sync_ongoing_flag(&mut self, flag: bool)
        requires
            old(self).wf(),
        ensures
            final(self).wf(),
            final(self).same_setup(*old(self)),
            final(self)@ == (DagView {
                writes: PendingWrites { fast_sync_ongoing: Some(flag), ..old(self)@.writes },
                ..old(self)@
            }),
    {
        let ghost before = *self;
        self.fast_sync_ongoing_flag_to_write = Some(flag);
        proof {
            self.lemma_same_tables(before);
        }
    }

    /// Does storage say that fast synchronization is under way?
    pub fn fast_sync_ongoing(&self) -> (out: bool)
        ensures
            out == self@.fast_sync_ongoing,
    {
        self.fast_sync_ongoing
    }

    /// The leader round of the last solid commit.
    pub fn last_solid_commit_leader_round(&self) -> (out: Option<Round>)
        ensures
            out == match self@.last_solid_subdag_base {
                Some(s) => Some(s.leader.round),
                None => None,
            },
    {
        match &self.last_solid_subdag_base {
            Some(s) => Some(s.leader.round),
            None => None,
        }
    }

    /// The index of the last solid commit, 0 before the first one.
    pub fn last_solid_commit_index(&self) -> (out: CommitIndex)
        ensures
            out == match self@.last_solid_subdag_base {
                Some(s) => s.commit_ref.index,
                None => 0,
            },
    {
        match &self.last_solid_subdag_base {
            Some(s) => s.commit_ref.index,
            None => 0,
        }
    }

    /// Sets the last commit whose transactions are all at hand.
    pub fn update_last_solid_subdag_base(&mut self, subdag_base: SubDagBase)
        requires
            old(self).wf(),
        ensures
            final(self).wf(),
            final(self).same_setup(*old(self)),
            final(self)@ == (DagView { last_solid_subdag_base: Some(subdag_base), ..old(self)@ }),
    {
        let ghost before = *self;
        self.last_solid_subdag_base = Some(subdag_base);
        proof {
            self.lemma_same_tables(before);
        }
    }

    /// Adds votes for commits, to go into new blocks.
    pub fn update_pending_commit_votes(&mut self, solid_commit_refs: Vec<CommitRef>)
        requires
            old(self).wf(),
        ensures
            final(self).wf(),
            final(self).same_setup(*old(self)),
            final(self)@ == (DagView {
                pending_commit_votes: old(self)@.pending_commit_votes + solid_commit_refs@,
                ..old(self)@
            }),
    {
        let ghost before = *self;
        let mut i: usize = 0;
        while i < solid_commit_refs.len()
            invariant
                i <= solid_commit_refs@.len(),
                *self == (DagState { pending_commit_votes: self.pending_commit_votes, ..before }),
                self.pending_commit_votes@ == before.pending_commit_votes@
                    + solid_commit_refs@.take(i as int),
            decreases solid_commit_refs@.len() - i,
        {
            self.pending_commit_votes.push_back(solid_commit_refs[i]);
            i = i + 1;
            assert(self.pending_commit_votes@ =~= before.pending_commit_votes@
                + solid_commit_refs@.take(i as int));
        }
        proof {
            assert(solid_commit_refs@.take(i as int) =~= solid_commit_refs@);
            self.lemma_same_tables(before);
        }
    }

    /// Takes votes for commits, the oldest first, `limit` of them at most.
    pub fn take_commit_votes(&mut self, limit: usize) -> (out: Vec<CommitVote>)
        requires
            old(self).wf(),
        ensures
            final(self).wf(),
            final(self).same_setup(*old(self)),
            out@ + final(self)@.pending_commit_votes == old(self)@.pending_commit_votes,
            out@.len() == if limit < old(self)@.pending_commit_votes.len() {
                limit as nat
            } else {
                old(self)@.pending_commit_votes.len()
            },
            final(self)@ == (DagView {
                pending_commit_votes: final(self)@.pending_commit_votes,
                ..old(self)@
            }),
    {
        let ghost before = *self;
        let mut votes: Vec<CommitVote> = Vec::new();
        assert(votes@ + self.pending_commit_votes@ =~= before.pending_commit_votes@);
        while votes.len() < limit && self.pending_commit_votes.len() > 0
            invariant
                votes@.len() <= limit,
                *self == (DagState { pending_commit_votes: self.pending_commit_votes, ..before }),
                votes@ + self.pending_commit_votes@ == before.pending_commit_votes@,
            decreases self.pending_commit_votes@.len(),
        {
            let ghost rest = self.pending_commit_votes@;
            match self.pending_commit_votes.pop_front() {
                Some(vote) => {
                    votes.push(vote);
                },
                None => {
                    assert(false);
                },
            }
            assert(votes@ + self.pending_commit_votes@ =~= before.pending_commit_votes@);
        }
        proof {
            self.lemma_same_tables(before);
        }
        votes
    }

    /// Takes acknowledgments of rounds below that of the clock, in the order of
    /// their references, `limit` of them at most. Those that are too old are
    /// dropped.
    pub fn take_acknowledgments(&mut self, limit: usize) -> (out: Vec<BlockRef>)
        requires
            old(self).wf(),
        ensures
            final(self).wf(),
            final(self).same_setup(*old(self)),
            ({
                let kept = old(self)@.evict_acknowledgments(old(self).config);
                &&& final(self)@ == (DagView {
                    pending_acknowledgments: kept.pending_acknowledgments.difference(
                        out@.to_set(),
                    ),
                    ..kept
                })
                &&& exists|due: Seq<BlockRef>|
                    {
                        &&& #[trigger] ascending(due)
                        &&& due.to_set() == kept.ripe_acknowledgments()
                        &&& out@ == if limit < due.len() {
                            due.take(limit as int)
                        } else {
                            due
                        }
                    }
            }),
    {
        self.evict_pending_acknowledgments();
        let ghost kept = *self;
        let clock_round: Round = self.threshold_clock.get_round();
        let next = BlockRef::new(clock_round, 0, Digest::min());
        let bound: usize = self.pending_acknowledgments.map.lower_bound(&next);
        let ghost items = kept.pending_acknowledgments.items();
        let ghost due = items.take(bound as int);
        let mut taken: Vec<BlockRef> = Vec::new();
        assert(kept.pending_acknowledgments@.difference(taken@.to_set())
            =~= kept.pending_acknowledgments@);
        assert(items.skip(0) =~= items);
        while taken.len() < limit && taken.len() < bound
            invariant
                kept.wf(),
                bound <= items.len(),
                items == kept.pending_acknowledgments.items(),
                *self == (DagState {
                    pending_acknowledgments: self.pending_acknowledgments,
                    ..kept
                }),
                self.pending_acknowledgments.wf(),
                taken@.len() <= limit,
                taken@.len() <= bound,
                taken@ == items.take(taken@.len() as int),
                self.pending_acknowledgments.items() == items.skip(taken@.len() as int),
                self.pending_acknowledgments@ == kept.pending_acknowledgments@.difference(
                    taken@.to_set(),
                ),
            decreases bound - taken@.len(),
        {
            let ghost t = taken@;
            let ghost before = self.pending_acknowledgments;
            match self.pending_acknowledgments.pop_first() {
                Some(ack) => {
                    taken.push(ack);
                    proof {
                        assert(items.skip(t.len() as int)[0] == items[t.len() as int]);
                        assert(taken@ =~= items.take(taken@.len() as int));
                        assert(before.items().drop_first() =~= items.skip(taken@.len() as int));
                        assert(taken@.to_set() =~= t.to_set().insert(ack)) by {
                            assert forall|r: BlockRef| taken@.contains(r) <==> (t.contains(r) || r
                                == ack) by {
                                if t.contains(r) {
                                    let k = choose|k: int| 0 <= k < t.len() && t[k] == r;
                                    assert(taken@[k] == r);
                                }
                                assert(taken@[t.len() as int] == ack);
                            }
                        }
                        assert(self.pending_acknowledgments@
                            =~= kept.pending_acknowledgments@.difference(taken@.to_set()));
                    }
                },
                None => {
                    assert(before.items().len() > 0);
                    assert(false);
                },
            }
        }
        proof {
            self.lemma_same_tables(kept);
            assert(ascending(items));
            assert forall|i: int, j: int| 0 <= i < j < due.len() implies #[trigger] due[i].rank()
                < #[trigger] due[j].rank() by {
                assert(items[i].rank() < items[j].rank());
            }
            let want = kept@.ripe_acknowledgments();
            assert(due.to_set() =~= want) by {
                assert forall|r: BlockRef| due.to_set().contains(r) <==> want.contains(r) by {
                    if due.contains(r) {
                        let k = choose|k: int| 0 <= k < due.len() && due[k] == r;
                        kept.pending_acknowledgments.lemma_item(k);
                        assert(kept.pending_acknowledgments.map.entries@[k].0 == r);
                        crate::refs::lemma_triple_rank(
                            r.round,
                            r.author,
                            r.digest,
                            next.round,
                            next.author,
                            next.digest,
                        );
                    }
                    if want.contains(r) {
                        let k = kept.pending_acknowledgments.lemma_position(r);
                        assert(kept.pending_acknowledgments.map.entries@[k].0 == r);
                        crate::refs::lemma_triple_rank(
                            r.round,
                            r.author,
                            r.digest,
                            next.round,
                            next.author,
                            next.digest,
                        );
                        assert(k < bound);
                        assert(due[k] == r);
                    }
                }
            }
            if limit < due.len() {
                assert(taken@ =~= due.take(limit as int));
            } else {
                assert(taken@ =~= due);
            }
            assert(ascending(due));
        }
        taken
    }

    /// Are the transactions of a block in memory?
    pub fn is_data_available(&self, block_ref: &BlockRef) -> (out: bool)
        requires
            self.wf(),
            self.config.committee.is_valid_index(block_ref.author),
        ensures
            out == if self.config.consensus_fast_commit_sync {
                self@.headers.dom().contains(*block_ref) && self@.has_transactions(
                    self@.headers[*block_ref].spec_generic_ref(true),
                )
            } else {
                self@.has_transactions(GenericTransactionRef::BlockRef(*block_ref))
            },
    {
        let k = if self.config.consensus_fast_commit_sync {
            match self.recent_block_headers.get(block_ref) {
                Some(header) => header.generic_ref(true),
                None => {
                    return false;
                },
            }
        } else {
            GenericTransactionRef::BlockRef(*block_ref)
        };
        self.recent_transactions_by_authority[block_ref.author as usize].contains_key(&k)
    }

    /// May `commit` be added? Commits come one after the other, at later
    /// rounds and not at earlier times; one that is in already is passed over.
    pub open spec fn is_next_commit(self, commit: TrustedCommit) -> bool {
        match self@.last_commit {
            Some(last) => commit.commit.index <= last.commit.index || (commit.commit.index
                == last.commit.index + 1 && commit.commit.timestamp_ms
                >= last.commit.timestamp_ms && commit.commit.leader.round
                > last.commit.leader.round),
            None => commit.commit.index == 1,
        }
    }

    /// Adds a commit.
    pub fn add_commit(&mut self, commit: &TrustedCommit)
        requires
            old(self).wf(),
            commit_in_range(old(self).config, *commit),
            old(self).is_next_commit(*commit),
        ensures
            final(self).wf(),
            final(self).same_setup(*old(self)),
            final(self)@ == old(self)@.add_commit(*commit),
    {
        match &self.last_commit {
            Some(last) => {
                if commit.commit.index <= last.commit.index {
                    return;
                }
            },
            None => {},
        }
        let ghost before = *self;
        self.last_commit = Some(share(commit));
        let refs = &commit.commit.block_headers;
        let mut i: usize = 0;
        assert(refs@.take(0) =~= Seq::<BlockRef>::empty());
        while i < refs.len()
            invariant
                before.wf(),
                commit_in_range(before.config, *commit),
                *refs == commit.commit.block_headers,
                i <= refs@.len(),
                *self == (DagState {
                    last_commit: Some(*commit),
                    last_committed_rounds: self.last_committed_rounds,
                    ..before
                }),
                self.last_committed_rounds@.len() == before.config.size(),
                self.last_committed_rounds@ == raise_rounds(
                    before.last_committed_rounds@,
                    refs@.take(i as int),
                ),
                forall|a: int|
                    0 <= a < before.config.size() ==> #[trigger] self.last_committed_rounds@[a]
                        < Round::MAX,
            decreases refs@.len() - i,
        {
            let r = refs[i];
            assert(commit.commit.block_headers@[i as int] == r);
            let a: usize = r.author as usize;
            if self.last_committed_rounds[a] < r.round {
                self.last_committed_rounds[a] = r.round;
            }
            proof {
                assert(refs@.take(i + 1).drop_last() =~= refs@.take(i as int));
                let rounds = raise_rounds(before.last_committed_rounds@, refs@.take(i as int));
                assert(self.last_committed_rounds@ =~= rounds.update(
                    a as int,
                    max_of(rounds[a as int], r.round),
                ));
            }
            i = i + 1;
        }
        assert(refs@.take(i as int) =~= refs@);
        self.commits_to_write.push(share(commit));
        proof {
            self.lemma_same_tables(before);
        }
    }

    /// Adds the scores of a finished leader schedule window, with the rounds
    /// committed so far, to be written.
    pub fn add_commit_info(&mut self, reputation_scores: ReputationScores)
        requires
            old(self).wf(),
            old(self)@.scoring_subdags.len() == 0,
            old(self)@.last_commit is Some,
        ensures
            final(self).wf(),
            final(self).same_setup(*old(self)),
            ({
                let info = final(self)@.writes.commit_info.last();
                &&& final(self)@ == (DagView {
                    writes: PendingWrites {
                        commit_info: old(self)@.writes.commit_info.push(info),
                        ..old(self)@.writes
                    },
                    ..old(self)@
                })
                &&& info.0 == old(self)@.last_commit->Some_0.spec_reference()
                &&& info.1.committed_rounds@ == old(self)@.last_committed_rounds
                &&& info.1.reputation_scores == reputation_scores
            }),
    {
        let ghost before = *self;
        let committed_rounds = copy_rounds(&self.last_committed_rounds);
        let commit_info = CommitInfo { committed_rounds, reputation_scores };
        match &self.last_commit {
            Some(last) => {
                self.commit_info_to_write.push((last.reference(), commit_info));
            },
            None => {
                assert(false);
            },
        }
        proof {
            self.lemma_same_tables(before);
            assert(self@.writes.commit_info.last() == self.commit_info_to_write@.last());
        }
    }

    /// The index of the last commit, 0 before the first one.
    pub fn last_commit_index(&self) -> (out: CommitIndex)
        ensures
            out == self@.last_commit_index(),
    {
        match &self.last_commit {
            Some(c) => c.commit.index,
            None => 0,
        }
    }

    /// The digest of the last commit, the least one before the first commit.
    pub fn last_commit_digest(&self) -> (out: CommitDigest)
        ensures
            out == match self@.last_commit {
                Some(c) => c.digest,
                None => Digest::min(),
            },
    {
        match &self.last_commit {
            Some(c) => c.digest,
            None => Digest::min(),
        }
    }

    /// The time of the last commit, 0 before the first one.
    pub fn last_commit_timestamp_ms(&self) -> (out: BlockTimestampMs)
        ensures
            out == match self@.last_commit {
                Some(c) => c.commit.timestamp_ms,
                None => 0,
            },
    {
        match &self.last_commit {
            Some(c) => c.commit.timestamp_ms,
            None => 0,
        }
    }

    /// The leader slot of the last commit; the first genesis slot before the
    /// first commit.
    pub fn last_commit_leader(&self) -> (out: Slot)
        requires
            self.wf(),
        ensures
            out == match self@.last_commit {
                Some(c) => Slot {
                    round: c.commit.leader.round,
                    authority: c.commit.leader.author,
                },
                None => Slot { round: GENESIS_ROUND, authority: 0 },
            },
    {
        match &self.last_commit {
            Some(c) => Slot::new(c.commit.leader.round, c.commit.leader.author),
            None => {
                let first = self.genesis.entries[0].0;
                Slot::new(first.round, first.author)
            },
        }
    }

    /// For each authority, the highest round of its headers in a commit.
    pub fn last_committed_rounds(&self) -> (out: Vec<Round>)
        ensures
            out@ == self@.last_committed_rounds,
    {
        copy_rounds(&self.last_committed_rounds)
    }

    /// The round to propose at.
    pub fn threshold_clock_round(&self) -> (out: Round)
        ensures
            out == self@.clock.round,
    {
        self.threshold_clock.get_round()
    }

    /// The highest round accepted.
    pub fn highest_accepted_round(&self) -> (out: Round)
        ensures
            out == self@.highest_accepted_round,
    {
        self.highest_accepted_round
    }

    /// Gets the references of the headers in the last `num_commits` commits, each
    /// once, in order.
    pub fn get_block_refs_for_recent_commits<F: Fn(CommitRange) -> Vec<TrustedCommit>>(
        &self,
        num_commits: u32,
        scan: &F,
    ) -> (out: Vec<BlockRef>)
        requires
            self.wf(),
            forall|range: CommitRange| #[trigger] scan.requires((range,)),
        ensures
            ascending(out@),
            if self@.last_commit_index() == 0 || num_commits == 0 {
                out@.len() == 0
            } else {
                exists|commits: Vec<TrustedCommit>|
                    {
                        &&& #[trigger] scan.ensures(
                            (recent_commits(self@.last_commit_index(), num_commits),),
                            commits,
                        )
                        &&& forall|r: BlockRef| #[trigger]
                            out@.contains(r) <==> in_commits(commits@, r)
                    }
            },
    {
        let last: CommitIndex = self.last_commit_index();
        if last == 0 || num_commits == 0 {
            return Vec::new();
        }
        let start: CommitIndex = last.saturating_sub(num_commits) + 1;
        let range = CommitRange::new(start, last);
        assert(range == recent_commits(last, num_commits));
        let commits = scan(range);
        let mut refs: SortedSet<BlockRef> = SortedSet::new();
        let mut i: usize = 0;
        while i < commits.len()
            invariant
                refs.wf(),
                i <= commits@.len(),
                forall|r: BlockRef| #[trigger]
                    refs@.contains(r) <==> in_commits(commits@.take(i as int), r),
            decreases commits@.len() - i,
        {
            let headers = &commits[i].commit.block_headers;
            let ghost base = refs@;
            let mut j: usize = 0;
            while j < headers.len()
                invariant
                    refs.wf(),
                    j <= headers@.len(),
                    forall|r: BlockRef| #[trigger]
                        refs@.contains(r) <==> (base.contains(r) || headers@.take(
                            j as int,
                        ).contains(r)),
                decreases headers@.len() - j,
            {
                let ghost b = refs@;
                refs.insert(headers[j]);
                proof {
                    let x = headers@.take(j as int);
                    let y = headers@.take(j + 1);
                    assert(y =~= x.push(headers@[j as int]));
                    assert forall|r: BlockRef| y.contains(r) <==> (x.contains(r) || r
                        == headers@[j as int]) by {
                        if x.contains(r) {
                            let k = choose|k: int| 0 <= k < x.len() && x[k] == r;
                            assert(y[k] == r);
                        }
                        assert(y[j as int] == headers@[j as int]);
                    }
                }
                j = j + 1;
            }
            proof {
                assert(headers@.take(j as int) =~= headers@);
                let x = commits@.take(i as int);
                let y = commits@.take(i + 1);
                assert forall|r: BlockRef| #[trigger] in_commits(y, r) <==> (in_commits(x, r)
                    || headers@.contains(r)) by {
                    if in_commits(x, r) {
                        let k = choose|k: int|
                            0 <= k < x.len() && (
                            #[trigger] x[k]).commit.block_headers@.contains(r);
                        assert(y[k].commit.block_headers@.contains(r));
                    }
                    if headers@.contains(r) {
                        assert(y[i as int].commit.block_headers@.contains(r));
                    }
                    if in_commits(y, r) {
                        let k = choose|k: int|
                            0 <= k < y.len() && (
                            #[trigger] y[k]).commit.block_headers@.contains(r);
                        if k < i {
                            assert(x[k].commit.block_headers@.contains(r));
                        }
                    }
                }
            }
            i = i + 1;
        }
        let out = refs.to_vec();
        proof {
            assert(commits@.take(i as int) =~= commits@);
            refs.lemma_items();
            assert forall|r: BlockRef| #[trigger] out@.contains(r) <==> in_commits(
                commits@,
                r,
            ) by {
                assert(out@.contains(r) <==> out@.to_set().contains(r));
            }
        }
        out
    }

    /// The index that the last commit info stored reaches up to: the end of the
    /// range that was scored, or the commit itself where none was.
    pub fn last_commit_info_index(info: &Option<(CommitRef, CommitInfo)>) -> (out: CommitIndex)
        ensures
            out == commit_info_index(*info),
    {
        match info {
            Some((commit_ref, commit_info)) => {
                let range_end: CommitIndex = commit_info.reputation_scores.commit_range.end;
                if range_end == GENESIS_COMMIT_INDEX {
                    commit_ref.index
                } else {
                    range_end
                }
            },
            None => GENESIS_COMMIT_INDEX,
        }
    }

    /// Adds sub-DAGs to be scored.
    pub fn add_scoring_subdags(&mut self, scoring_subdags: Vec<SubDagBase>)
        requires
            old(self).wf(),
        ensures
            final(self).wf(),
            final(self).same_setup(*old(self)),
            final(self)@ == (DagView {
                scoring_subdags: old(self)@.scoring_subdags + scoring_subdags@,
                ..old(self)@
            }),
    {
        let ghost before = *self;
        let mut scoring_subdags = scoring_subdags;
        self.scoring_subdags.append(&mut scoring_subdags);
        proof {
            self.lemma_same_tables(before);
        }
    }

    /// Forgets the sub-DAGs that wait to be scored.
    pub fn clear_scoring_subdag(&mut self)
        requires
            old(self).wf(),
        ensures
            final(self).wf(),
            final(self).same_setup(*old(self)),
            final(self)@ == (DagView { scoring_subdags: Seq::empty(), ..old(self)@ }),
    {
        let ghost before = *self;
        self.scoring_subdags.clear();
        proof {
            self.lemma_same_tables(before);
            assert(self@.scoring_subdags =~= Seq::empty());
        }
    }

    /// How many sub-DAGs wait to be scored.
    pub fn scoring_subdags_count(&self) -> (out: usize)
        ensures
            out == self@.scoring_subdags.len(),
    {
        self.scoring_subdags.len()
    }

    /// Is there nothing to score?
    pub fn is_scoring_subdag_empty(&self) -> (out: bool)
        ensures
            out == (self@.scoring_subdags.len() == 0),
    {
        self.scoring_subdags.len() == 0
    }

    /// The index of the last commit that waits to be scored.
    pub fn scoring_subdag_commit_range(&self) -> (out: CommitIndex)
        requires
            self@.scoring_subdags.len() > 0,
        ensures
            out == self@.scoring_subdags.last().commit_ref.index,
    {
        self.scoring_subdags[self.scoring_subdags.len() - 1].commit_ref.index
    }
}

/// The last `num_commits` commits up to `last`.
pub open spec fn recent_commits(last: CommitIndex, num_commits: u32) -> CommitRange {
    CommitRange { start: (sat_sub(last, num_commits) + 1) as CommitIndex, end: last }
}

/// Is `r` taken in by one of the commits?
pub open spec fn in_commits(commits: Seq<TrustedCommit>, r: BlockRef) -> bool {
    exists|k: int|
        0 <= k < commits.len() && (#[trigger] commits[k]).commit.block_headers@.contains(r)
}

/// The index that stored commit info reaches up to.
pub open spec fn commit_info_index(info: Option<(CommitRef, CommitInfo)>) -> CommitIndex {
    match info {
        Some((commit_ref, commit_info)) => {
            let range_end = commit_info.reputation_scores.commit_range.end;
            if range_end == GENESIS_COMMIT_INDEX {
                commit_ref.index
            } else {
                range_end
            }
        },
        None => GENESIS_COMMIT_INDEX,
    }
}

/// Does accepting `h` lead from `before` to `after`, with this news?
pub open spec fn accepted<
    C: Fn(BlockRef) -> bool,
    F: Fn(BlockRef) -> Option<VerifiedBlockHeader>,
>(
    before: DagState,
    after: DagState,
    h: VerifiedBlockHeader,
    source: DataSource,
    contains: &C,
    read: &F,
    news: Option<CordialKnowledgeMessage>,
) -> bool {
    exists|known: bool|
        {
            &&& #[trigger] before.known_header(contains, h.reference, known)
            &&& known ==> after@ == before@ && news is None
            &&& !known ==> after@ == before@.accept_header(before.config, h)
                && after.is_header_news(h, source, read, news)
        }
}

/// The news told along the way.
pub open spec fn news_of(steps: Seq<(DagState, Option<CordialKnowledgeMessage>)>) -> Seq<
    CordialKnowledgeMessage,
>
    decreases steps.len(),
{
    if steps.len() == 0 {
        Seq::empty()
    } else {
        match steps.last().1 {
            Some(message) => news_of(steps.drop_last()).push(message),
            None => news_of(steps.drop_last()),
        }
    }
}

} // verus!
