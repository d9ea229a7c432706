//! Bringing the state back from storage, at the start and after fast
//! synchronization.
use std::collections::VecDeque;

use vstd::prelude::*;

use crate::commit::{CommitInfo, SubDagBase, TrustedCommit};
use crate::committee::{ClockView, ThresholdClock};
use crate::cordial_knowledge::messages::CordialKnowledgeMessage;
use crate::dag_state::accept::{commit_info_index, copy_rounds};
use crate::dag_state::model::{
    max_of, raise_rounds, sat_sub, DagConfig, DagView, PendingWrites,
};
use crate::dag_state::read::found_commitment;
use crate::dag_state::source::DataSource;
use crate::dag_state::state::{acceptable_ref, commit_in_range, genesis_wf, DagState};
use crate::header::{VerifiedBlock, VerifiedBlockHeader, VerifiedTransactions};
use crate::refs::{
    AuthorityIndex, BlockHeaderDigest, BlockRef, CommitIndex, CommitRange, CommitRef, CommitmentKey,
    GenericTransactionRef, Round,
};
use crate::sorted::{SortedMap, SortedSet};

verus! {

/// The highest rounds after all of these commits.
pub open spec fn raise_rounds_by(rounds: Seq<Round>, commits: Seq<(TrustedCommit, SubDagBase)>) ->
    Seq<Round>
    decreases commits.len(),
{
    if commits.len() == 0 {
        rounds
    } else {
        raise_rounds(
            raise_rounds_by(rounds, commits.drop_last()),
            commits.last().0.commit.block_headers@,
        )
    }
}

/// The index after `index`; the last one has none after it.
pub open spec fn next_index(index: CommitIndex) -> CommitIndex {
    if index < CommitIndex::MAX {
        (index + 1) as CommitIndex
    } else {
        index
    }
}

/// The commits that have come in since the last commit info was stored.
pub open spec fn unscored_commits(
    last_commit: Option<TrustedCommit>,
    info: Option<(CommitRef, CommitInfo)>,
) -> Option<CommitRange> {
    let after = commit_info_index(info);
    match last_commit {
        Some(c) => if next_index(after) <= c.commit.index {
            Some(CommitRange { start: next_index(after), end: c.commit.index })
        } else {
            None
        },
        None => None,
    }
}

/// The sub-DAGs of the commits.
pub open spec fn subdags_of(commits: Seq<(TrustedCommit, SubDagBase)>) -> Seq<SubDagBase> {
    commits.map_values(|c: (TrustedCommit, SubDagBase)| c.1)
}

/// The rounds in the stored commit info, or zeros.
pub open spec fn stored_rounds(cfg: DagConfig, info: Option<(CommitRef, CommitInfo)>) -> Seq<
    Round,
> {
    match info {
        Some((_, commit_info)) => commit_info.committed_rounds@,
        None => Seq::new(cfg.size(), |a: int| 0),
    }
}

impl DagView {
    /// Are headers from this source told to anybody?
    pub open spec fn tells(self, source: DataSource) -> bool {
        self.has_listener && source.is_news()
    }

    /// A state with nothing in memory.
    pub open spec fn fresh(
        cfg: DagConfig,
        last_commit: Option<TrustedCommit>,
        last_committed_rounds: Seq<Round>,
        scoring_subdags: Seq<SubDagBase>,
        fast_sync_ongoing: bool,
    ) -> DagView {
        let n = cfg.size();
        DagView {
            headers: Map::empty(),
            transactions: Seq::new(n, |a: int| Map::empty()),
            shards: Seq::new(n, |a: int| Map::empty()),
            digests: Seq::new(n, |a: int| Map::empty()),
            clock: ClockView { round: 1, votes: Set::empty() },
            evicted_rounds: Seq::new(n, |a: int| 0),
            highest_accepted_round: 0,
            last_commit,
            last_solid_subdag_base: None,
            last_committed_rounds,
            scoring_subdags,
            pending_commit_votes: Seq::empty(),
            pending_acknowledgments: Set::empty(),
            writes: PendingWrites::none(),
            fast_sync_ongoing,
            has_listener: false,
        }
    }

    /// The state with its caches emptied; the clock keeps its round, but
    /// forgets who has been seen there.
    pub open spec fn emptied(self, cfg: DagConfig) -> DagView {
        let n = cfg.size();
        DagView {
            headers: Map::empty(),
            transactions: Seq::new(n, |a: int| Map::empty()),
            shards: Seq::new(n, |a: int| Map::empty()),
            digests: Seq::new(n, |a: int| Map::empty()),
            clock: ClockView { round: self.clock.round, votes: Set::empty() },
            scoring_subdags: Seq::empty(),
            pending_commit_votes: Seq::empty(),
            pending_acknowledgments: Set::empty(),
            ..self
        }
    }

    /// The state with what storage holds of an authority's recent rounds.
    pub open spec fn load_authority(
        self,
        cfg: DagConfig,
        a: AuthorityIndex,
        committed_round: Round,
        headers: Seq<VerifiedBlockHeader>,
        transactions: Seq<VerifiedTransactions>,
    ) -> DagView {
        DagView {
            evicted_rounds: self.evicted_rounds.update(
                a as int,
                sat_sub(committed_round, cfg.cached_rounds),
            ),
            ..self
        }.insert_headers(cfg, headers).insert_all_transactions(cfg, transactions)
    }

    /// The state with what storage holds of the first `n` authorities.
    pub open spec fn load_first(
        self,
        cfg: DagConfig,
        rounds: Seq<Round>,
        headers: Seq<Vec<VerifiedBlockHeader>>,
        transactions: Seq<Vec<VerifiedTransactions>>,
        n: nat,
    ) -> DagView
        decreases n,
    {
        if n == 0 {
            self
        } else {
            self.load_first(cfg, rounds, headers, transactions, (n - 1) as nat).load_authority(
                cfg,
                (n - 1) as AuthorityIndex,
                rounds[n - 1],
                headers[n - 1]@,
                transactions[n - 1]@,
            )
        }
    }
}

/// Does storage only give out headers that can be held in memory?
pub open spec fn scans_headers<H: Fn(AuthorityIndex, Round) -> Vec<VerifiedBlockHeader>>(
    cfg: DagConfig,
    scan: &H,
) -> bool {
    &&& forall|a: AuthorityIndex, from: Round| #[trigger] scan.requires((a, from))
    &&& forall|a: AuthorityIndex, from: Round, out: Vec<VerifiedBlockHeader>, i: int|
        (#[trigger] scan.ensures((a, from), out)) && 0 <= i < out@.len() ==> acceptable_ref(
            cfg,
            (#[trigger] out@[i]).reference,
        )
}

/// Does storage only give out transactions of the committee?
pub open spec fn scans_transactions<T: Fn(AuthorityIndex, Round) -> Vec<VerifiedTransactions>>(
    cfg: DagConfig,
    scan: &T,
) -> bool {
    &&& forall|a: AuthorityIndex, from: Round| #[trigger] scan.requires((a, from))
    &&& forall|a: AuthorityIndex, from: Round, out: Vec<VerifiedTransactions>, i: int|
        (#[trigger] scan.ensures((a, from), out)) && 0 <= i < out@.len()
            ==> cfg.committee.is_valid_index((#[trigger] out@[i]).transaction_ref.author)
}

/// Does storage only give out commits of the committee?
pub open spec fn scans_commits<S: Fn(CommitRange) -> Vec<(TrustedCommit, SubDagBase)>>(
    cfg: DagConfig,
    scan: &S,
) -> bool {
    &&& forall|range: CommitRange| #[trigger] scan.requires((range,))
    &&& forall|range: CommitRange, out: Vec<(TrustedCommit, SubDagBase)>, i: int|
        (#[trigger] scan.ensures((range,), out)) && 0 <= i < out@.len() ==> commit_in_range(
            cfg,
            (#[trigger] out@[i]).0,
        )
}

/// Are these what storage holds of the recent rounds of the authorities?
pub open spec fn scanned<
    H: Fn(AuthorityIndex, Round) -> Vec<VerifiedBlockHeader>,
    T: Fn(AuthorityIndex, Round) -> Vec<VerifiedTransactions>,
>(
    cfg: DagConfig,
    rounds: Seq<Round>,
    scan_headers: &H,
    scan_transactions: &T,
    headers: Seq<Vec<VerifiedBlockHeader>>,
    transactions: Seq<Vec<VerifiedTransactions>>,
) -> bool {
    &&& headers.len() == transactions.len()
    &&& headers.len() <= rounds.len()
    &&& forall|a: int|
        0 <= a < headers.len() ==> scan_headers.ensures(
            (a as AuthorityIndex, (sat_sub(rounds[a], cfg.cached_rounds) + 1) as Round),
            #[trigger] headers[a],
        )
    &&& forall|a: int|
        0 <= a < transactions.len() ==> scan_transactions.ensures(
            (a as AuthorityIndex, (sat_sub(rounds[a], cfg.cached_rounds) + 1) as Round),
            #[trigger] transactions[a],
        )
}

/// The headers in memory after these have been taken in too.
pub open spec fn with_headers(
    base: Map<BlockRef, VerifiedBlockHeader>,
    headers: Seq<VerifiedBlockHeader>,
) -> Map<BlockRef, VerifiedBlockHeader>
    decreases headers.len(),
{
    if headers.len() == 0 {
        base
    } else {
        with_headers(base, headers.drop_last()).insert(headers.last().reference, headers.last())
    }
}

/// Is `message` the news of the last of these headers being taken into memory,
/// after `base` and the ones before it?
pub open spec fn is_news_of_last<F: Fn(BlockRef) -> Option<VerifiedBlockHeader>>(
    by_commitment: bool,
    base: Map<BlockRef, VerifiedBlockHeader>,
    headers: Seq<VerifiedBlockHeader>,
    read: &F,
    message: CordialKnowledgeMessage,
) -> bool {
    match message {
        CordialKnowledgeMessage::NewHeader { header, ack_transactions_commitments } => {
            &&& header == headers.last()
            &&& ack_transactions_commitments@.len() == header.acknowledgments@.len()
            &&& forall|i: int|
                0 <= i < header.acknowledgments@.len() ==> if by_commitment {
                    found_commitment(
                        with_headers(base, headers),
                        read,
                        header.acknowledgments@[i],
                        #[trigger] ack_transactions_commitments@[i],
                    )
                } else {
                    ack_transactions_commitments@[i] is None
                }
        },
        _ => false,
    }
}

/// Is `news` what taking the headers into memory one by one gives rise to?
pub open spec fn loading_news<F: Fn(BlockRef) -> Option<VerifiedBlockHeader>>(
    by_commitment: bool,
    base: Map<BlockRef, VerifiedBlockHeader>,
    told: bool,
    read: &F,
    news: Seq<CordialKnowledgeMessage>,
    headers: Seq<VerifiedBlockHeader>,
) -> bool {
    if !told {
        news.len() == 0
    } else {
        &&& news.len() == headers.len()
        &&& forall|i: int|
            0 <= i < news.len() ==> is_news_of_last(
                by_commitment,
                base,
                headers.take(i + 1),
                read,
                #[trigger] news[i],
            )
    }
}

/// The headers of the authorities, one after the other.
pub open spec fn all_headers(headers: Seq<Vec<VerifiedBlockHeader>>) -> Seq<VerifiedBlockHeader>
    decreases headers.len(),
{
    if headers.len() == 0 {
        Seq::empty()
    } else {
        all_headers(headers.drop_last()) + headers.last()@
    }
}

/// Does loading `hs` and `ts`, which storage holds of the recent rounds of the
/// authorities, lead from `before` to `after`?
pub open spec fn loaded<
    H: Fn(AuthorityIndex, Round) -> Vec<VerifiedBlockHeader>,
    T: Fn(AuthorityIndex, Round) -> Vec<VerifiedTransactions>,
    F: Fn(BlockRef) -> Option<VerifiedBlockHeader>,
>(
    cfg: DagConfig,
    before: DagView,
    after: DagView,
    source: DataSource,
    scan_headers: &H,
    scan_transactions: &T,
    read: &F,
    news: Seq<CordialKnowledgeMessage>,
    hs: Seq<Vec<VerifiedBlockHeader>>,
    ts: Seq<Vec<VerifiedTransactions>>,
) -> bool {
    let rounds = before.last_committed_rounds;
    &&& hs.len() == cfg.size()
    &&& scanned(cfg, rounds, scan_headers, scan_transactions, hs, ts)
    &&& after == before.load_first(cfg, rounds, hs, ts, cfg.size())
    &&& loading_news(
        cfg.consensus_fast_commit_sync,
        before.headers,
        before.tells(source),
        read,
        news,
        all_headers(hs),
    )
}

/// Is `out` the state that these contents of storage bring back? While fast
/// synchronization is under way, commits are not looked at.
pub open spec fn recovered<
    S: Fn(CommitRange) -> Vec<(TrustedCommit, SubDagBase)>,
    H: Fn(AuthorityIndex, Round) -> Vec<VerifiedBlockHeader>,
    T: Fn(AuthorityIndex, Round) -> Vec<VerifiedTransactions>,
>(
    cfg: DagConfig,
    last_commit: Option<TrustedCommit>,
    commit_info: Option<(CommitRef, CommitInfo)>,
    fast_sync_ongoing: bool,
    scan_commits: &S,
    scan_headers: &H,
    scan_transactions: &T,
    out: DagView,
    commits: Vec<(TrustedCommit, SubDagBase)>,
    hs: Seq<Vec<VerifiedBlockHeader>>,
    ts: Seq<Vec<VerifiedTransactions>>,
) -> bool {
    let rounds = raise_rounds_by(stored_rounds(cfg, commit_info), commits@);
    &&& match unscored_commits(last_commit, commit_info) {
        Some(range) if !fast_sync_ongoing => scan_commits.ensures((range,), commits),
        _ => commits@.len() == 0,
    }
    &&& hs.len() == cfg.size()
    &&& scanned(cfg, rounds, scan_headers, scan_transactions, hs, ts)
    &&& out == DagView::fresh(
        cfg,
        last_commit,
        rounds,
        subdags_of(commits@),
        fast_sync_ongoing,
    ).load_first(cfg, rounds, hs, ts, cfg.size())
}

/// Is `after` the state that these contents of storage make of `before`?
pub open spec fn reloaded<
    S: Fn(CommitRange) -> Vec<(TrustedCommit, SubDagBase)>,
    H: Fn(AuthorityIndex, Round) -> Vec<VerifiedBlockHeader>,
    T: Fn(AuthorityIndex, Round) -> Vec<VerifiedTransactions>,
    F: Fn(BlockRef) -> Option<VerifiedBlockHeader>,
>(
    cfg: DagConfig,
    before: DagView,
    commit_info: Option<(CommitRef, CommitInfo)>,
    scan_commits: &S,
    scan_headers: &H,
    scan_transactions: &T,
    read: &F,
    after: DagView,
    news: Seq<CordialKnowledgeMessage>,
    commits: Vec<(TrustedCommit, SubDagBase)>,
    hs: Seq<Vec<VerifiedBlockHeader>>,
    ts: Seq<Vec<VerifiedTransactions>>,
) -> bool {
    let rounds = before.last_committed_rounds;
    &&& match unscored_commits(before.last_commit, commit_info) {
        Some(range) => scan_commits.ensures((range,), commits),
        None => commits@.len() == 0,
    }
    &&& hs.len() == cfg.size()
    &&& scanned(cfg, rounds, scan_headers, scan_transactions, hs, ts)
    &&& after == (DagView {
        scoring_subdags: subdags_of(commits@),
        ..before.emptied(cfg).load_first(cfg, rounds, hs, ts, cfg.size())
    })
    &&& loading_news(
        cfg.consensus_fast_commit_sync,
        Map::empty(),
        before.has_listener,
        read,
        news,
        all_headers(hs),
    )
}

fn empty_tables<V>(n: usize) -> (out: Vec<SortedMap<GenericTransactionRef, V>>)
    ensures
        out@.len() == n,
        forall|a: int| 0 <= a < n ==> (#[trigger] out@[a]).wf() && out@[a]@ == Map::<
            GenericTransactionRef,
            V,
        >::empty(),
{
    let mut out: Vec<SortedMap<GenericTransactionRef, V>> = Vec::new();
    let mut i: usize = 0;
    while i < n
        invariant
            i <= n,
            out@.len() == i,
            forall|a: int| 0 <= a < i ==> (#[trigger] out@[a]).wf() && out@[a]@ == Map::<
                GenericTransactionRef,
                V,
            >::empty(),
        decreases n - i,
    {
        out.push(SortedMap::new());
        i = i + 1;
    }
    out
}

fn empty_digests(n: usize) -> (out: Vec<SortedMap<CommitmentKey, BlockHeaderDigest>>)
    ensures
        out@.len() == n,
        forall|a: int| 0 <= a < n ==> (#[trigger] out@[a]).wf() && out@[a]@ == Map::<
            CommitmentKey,
            BlockHeaderDigest,
        >::empty(),
{
    let mut out: Vec<SortedMap<CommitmentKey, BlockHeaderDigest>> = Vec::new();
    let mut i: usize = 0;
    while i < n
        invariant
            i <= n,
            out@.len() == i,
            forall|a: int| 0 <= a < i ==> (#[trigger] out@[a]).wf() && out@[a]@ == Map::<
                CommitmentKey,
                BlockHeaderDigest,
            >::empty(),
        decreases n - i,
    {
        out.push(SortedMap::new());
        i = i + 1;
    }
    out
}

fn empty_refs(n: usize) -> (out: Vec<SortedSet<BlockRef>>)
    ensures
        out@.len() == n,
        forall|a: int| 0 <= a < n ==> (#[trigger] out@[a]).wf() && out@[a]@ == Set::<
            BlockRef,
        >::empty(),
{
    let mut out: Vec<SortedSet<BlockRef>> = Vec::new();
    let mut i: usize = 0;
    while i < n
        invariant
            i <= n,
            out@.len() == i,
            forall|a: int| 0 <= a < i ==> (#[trigger] out@[a]).wf() && out@[a]@ == Set::<
                BlockRef,
            >::empty(),
        decreases n - i,
    {
        out.push(SortedSet::new());
        i = i + 1;
    }
    out
}

fn zero_rounds(n: usize) -> (out: Vec<Round>)
    ensures
        out@ == Seq::new(n as nat, |a: int| 0 as Round),
{
    let mut out: Vec<Round> = Vec::new();
    let mut i: usize = 0;
    while i < n
        invariant
            i <= n,
            out@.len() == i,
            forall|a: int| 0 <= a < i ==> #[trigger] out@[a] == 0,
        decreases n - i,
    {
        out.push(0);
        i = i + 1;
    }
    assert(out@ =~= Seq::new(n as nat, |a: int| 0 as Round));
    out
}

impl DagState {
    /// Takes headers into memory one by one, and tells the news that they are.
    fn insert_headers<F: Fn(BlockRef) -> Option<VerifiedBlockHeader>>(
        &mut self,
        headers: &Vec<VerifiedBlockHeader>,
        source: DataSource,
        read: &F,
        news: &mut Vec<CordialKnowledgeMessage>,
    )
        requires
            old(self).wf(),
            forall|i: int|
                0 <= i < headers@.len() ==> acceptable_ref(
                    old(self).config,
                    (#[trigger] headers@[i]).reference,
                ),
            forall|r: BlockRef| #[trigger] read.requires((r,)),
        ensures
            final(self).wf(),
            final(self).same_setup(*old(self)),
            final(self)@ == old(self)@.insert_headers(old(self).config, headers@),
            exists|added: Seq<CordialKnowledgeMessage>|
                final(news)@ == old(news)@ + added && #[trigger] loading_news(
                    old(self).config.consensus_fast_commit_sync,
                    old(self)@.headers,
                    old(self)@.tells(source),
                    read,
                    added,
                    headers@,
                ),
    {
        let ghost before = *self;
        let ghost told = news@;
        let ghost mut added: Seq<CordialKnowledgeMessage> = Seq::empty();
        let mut i: usize = 0;
        assert(told + added =~= told);
        assert(headers@.take(0) =~= Seq::empty());
        while i < headers.len()
            invariant
                before.wf(),
                self.wf(),
                self.same_setup(before),
                forall|i: int|
                    0 <= i < headers@.len() ==> acceptable_ref(
                        before.config,
                        (#[trigger] headers@[i]).reference,
                    ),
                forall|r: BlockRef| #[trigger] read.requires((r,)),
                i <= headers@.len(),
                self@ == before@.insert_headers(before.config, headers@.take(i as int)),
                self@.has_listener == before@.has_listener,
                self@.headers == with_headers(before@.headers, headers@.take(i as int)),
                news@ == told + added,
                loading_news(
                    before.config.consensus_fast_commit_sync,
                    before@.headers,
                    before@.tells(source),
                    read,
                    added,
                    headers@.take(i as int),
                ),
            decreases headers@.len() - i,
        {
            let message = self.update_block_header_metadata(&headers[i], source, read);
            proof {
                assert(headers@.take(i + 1).drop_last() =~= headers@.take(i as int));
            }
            match message {
                Some(message) => {
                    proof {
                        let grown = added.push(message);
                        assert((told + added).push(message) =~= told + grown);
                        assert forall|k: int| 0 <= k < grown.len() implies is_news_of_last(
                            before.config.consensus_fast_commit_sync,
                            before@.headers,
                            headers@.take(i + 1).take(k + 1),
                            read,
                            #[trigger] grown[k],
                        ) by {
                            if k < added.len() {
                                assert(grown[k] == added[k]);
                                assert(headers@.take(i + 1).take(k + 1) =~= headers@.take(
                                    i as int,
                                ).take(k + 1));
                            } else {
                                assert(headers@.take(i + 1).take(k + 1) =~= headers@.take(i + 1));
                            }
                        }
                        added = grown;
                    }
                    news.push(message);
                },
                None => {},
            }
            i = i + 1;
        }
        assert(headers@.take(i as int) =~= headers@);
        assert(loading_news(
            before.config.consensus_fast_commit_sync,
            before@.headers,
            before@.tells(source),
            read,
            added,
            headers@,
        ));
    }

    /// Takes the transactions of blocks into memory one by one, without
    /// acknowledging them.
    fn insert_all_transactions(&mut self, transactions: &Vec<VerifiedTransactions>, source: DataSource)
        requires
            old(self).wf(),
            !source.calls_for_acknowledgment(),
            forall|i: int|
                0 <= i < transactions@.len() ==> old(self).config.committee.is_valid_index(
                    (#[trigger] transactions@[i]).transaction_ref.author,
                ),
        ensures
            final(self).wf(),
            final(self).same_setup(*old(self)),
            final(self)@ == old(self)@.insert_all_transactions(old(self).config, transactions@),
    {
        let ghost before = *self;
        let mut i: usize = 0;
        assert(transactions@.take(0) =~= Seq::empty());
        while i < transactions.len()
            invariant
                before.wf(),
                self.wf(),
                self.same_setup(before),
                !source.calls_for_acknowledgment(),
                forall|i: int|
                    0 <= i < transactions@.len() ==> before.config.committee.is_valid_index(
                        (#[trigger] transactions@[i]).transaction_ref.author,
                    ),
                i <= transactions@.len(),
                self@ == before@.insert_all_transactions(
                    before.config,
                    transactions@.take(i as int),
                ),
            decreases transactions@.len() - i,
        {
            self.update_transaction_metadata(&transactions[i], source);
            assert(transactions@.take(i + 1).drop_last() =~= transactions@.take(i as int));
            i = i + 1;
        }
        assert(transactions@.take(i as int) =~= transactions@);
    }

    /// Loads what storage holds of an authority's recent rounds. Gives back
    /// what storage held.
    fn load_cached_data_for_authority<
        H: Fn(AuthorityIndex, Round) -> Vec<VerifiedBlockHeader>,
        T: Fn(AuthorityIndex, Round) -> Vec<VerifiedTransactions>,
        F: Fn(BlockRef) -> Option<VerifiedBlockHeader>,
    >(
        &mut self,
        authority_index: AuthorityIndex,
        committed_round: Round,
        data_source: DataSource,
        scan_headers: &H,
        scan_transactions: &T,
        read: &F,
        news: &mut Vec<CordialKnowledgeMessage>,
    ) -> (out: (Ghost<Vec<VerifiedBlockHeader>>, Ghost<Vec<VerifiedTransactions>>))
        requires
            old(self).wf(),
            old(self).config.committee.is_valid_index(authority_index),
            committed_round < Round::MAX,
            !data_source.calls_for_acknowledgment(),
            scans_headers(old(self).config, scan_headers),
            scans_transactions(old(self).config, scan_transactions),
            forall|r: BlockRef| #[trigger] read.requires((r,)),
        ensures
            final(self).wf(),
            final(self).same_setup(*old(self)),
            ({
                let cfg = old(self).config;
                let from = (sat_sub(committed_round, cfg.cached_rounds) + 1) as Round;
                &&& scan_headers.ensures((authority_index, from), out.0@)
                &&& scan_transactions.ensures((authority_index, from), out.1@)
                &&& final(self)@ == old(self)@.load_authority(
                    cfg,
                    authority_index,
                    committed_round,
                    out.0@@,
                    out.1@@,
                )
            }),
            exists|added: Seq<CordialKnowledgeMessage>|
                final(news)@ == old(news)@ + added && #[trigger] loading_news(
                    old(self).config.consensus_fast_commit_sync,
                    old(self)@.headers,
                    old(self)@.tells(data_source),
                    read,
                    added,
                    out.0@@,
                ),
            final(self)@.headers == with_headers(old(self)@.headers, out.0@@),
    {
        let ghost before = *self;
        let eviction_round: Round = Self::eviction_round(
            committed_round,
            self.config.cached_rounds,
        );
        self.evicted_rounds[authority_index as usize] = eviction_round;
        proof {
            self.lemma_same_tables(before);
        }
        let ghost start = *self;
        let headers = scan_headers(authority_index, eviction_round + 1);
        self.insert_headers(&headers, data_source, read, news);
        assert(start@.tells(data_source) == before@.tells(data_source));
        let transactions = scan_transactions(authority_index, eviction_round + 1);
        let ghost mid = self@;
        self.insert_all_transactions(&transactions, data_source);
        proof {
            let w = DagView {
                evicted_rounds: before@.evicted_rounds.update(
                    authority_index as int,
                    eviction_round,
                ),
                ..before@
            };
            lemma_insert_keeps(w, self.config, headers@);
            lemma_insert_transactions_keeps(mid, self.config, transactions@);
        }
        (Ghost(headers), Ghost(transactions))
    }

    /// Loads what storage holds of the recent rounds of all authorities.
    fn load_cached_data<
        H: Fn(AuthorityIndex, Round) -> Vec<VerifiedBlockHeader>,
        T: Fn(AuthorityIndex, Round) -> Vec<VerifiedTransactions>,
        F: Fn(BlockRef) -> Option<VerifiedBlockHeader>,
    >(
        &mut self,
        data_source: DataSource,
        scan_headers: &H,
        scan_transactions: &T,
        read: &F,
    ) -> (news: Vec<CordialKnowledgeMessage>)
        requires
            old(self).wf(),
            !data_source.calls_for_acknowledgment(),
            scans_headers(old(self).config, scan_headers),
            scans_transactions(old(self).config, scan_transactions),
            forall|r: BlockRef| #[trigger] read.requires((r,)),
        ensures
            final(self).wf(),
            final(self).same_setup(*old(self)),
            exists|hs: Seq<Vec<VerifiedBlockHeader>>, ts: Seq<Vec<VerifiedTransactions>>|
                #[trigger]
                loaded(
                    old(self).config,
                    old(self)@,
                    final(self)@,
                    data_source,
                    scan_headers,
                    scan_transactions,
                    read,
                    news@,
                    hs,
                    ts,
                ),
    {
        let ghost before = *self;
        let ghost cfg = self.config;
        let ghost rounds = self.last_committed_rounds@;
        let ghost mut hs: Seq<Vec<VerifiedBlockHeader>> = Seq::empty();
        let ghost mut ts: Seq<Vec<VerifiedTransactions>> = Seq::empty();
        let mut news: Vec<CordialKnowledgeMessage> = Vec::new();
        let committed_rounds = copy_rounds(&self.last_committed_rounds);
        let n: usize = self.config.committee.size();
        let mut i: usize = 0;
        while i < n
            invariant
                before.wf(),
                self.wf(),
                self.same_setup(before),
                cfg == before.config,
                n == cfg.size(),
                n <= 256,
                i <= n,
                rounds == before@.last_committed_rounds,
                committed_rounds@ == rounds,
                !data_source.calls_for_acknowledgment(),
                scans_headers(cfg, scan_headers),
                scans_transactions(cfg, scan_transactions),
                forall|r: BlockRef| #[trigger] read.requires((r,)),
                hs.len() == i,
                scanned(cfg, rounds, scan_headers, scan_transactions, hs, ts),
                self@ == before@.load_first(cfg, rounds, hs, ts, i as nat),
                self@.has_listener == before@.has_listener,
                self@.headers == with_headers(before@.headers, all_headers(hs)),
                loading_news(
                    cfg.consensus_fast_commit_sync,
                    before@.headers,
                    before@.tells(data_source),
                    read,
                    news@,
                    all_headers(hs),
                ),
            decreases n - i,
        {
            let ghost mid = *self;
            let ghost told = news@;
            let a = i as AuthorityIndex;
            let round: Round = committed_rounds[i];
            assert(before@.last_committed_rounds[i as int] == round);
            let loaded = self.load_cached_data_for_authority(
                a,
                round,
                data_source,
                scan_headers,
                scan_transactions,
                read,
                &mut news,
            );
            proof {
                let (h, t) = (loaded.0@, loaded.1@);
                let hs1 = hs.push(h);
                let ts1 = ts.push(t);
                lemma_load_prefix(before@, cfg, rounds, hs, ts, hs1, ts1, i as nat);
                assert(hs1.drop_last() =~= hs);
                assert(scanned(cfg, rounds, scan_headers, scan_transactions, hs1, ts1)) by {
                    assert forall|a: int| 0 <= a < hs1.len() implies scan_headers.ensures(
                        (a as AuthorityIndex, (sat_sub(rounds[a], cfg.cached_rounds) + 1) as Round),
                        #[trigger] hs1[a],
                    ) by {
                        if a < i {
                            assert(hs1[a] == hs[a]);
                        }
                    }
                    assert forall|a: int| 0 <= a < ts1.len() implies scan_transactions.ensures(
                        (a as AuthorityIndex, (sat_sub(rounds[a], cfg.cached_rounds) + 1) as Round),
                        #[trigger] ts1[a],
                    ) by {
                        if a < i {
                            assert(ts1[a] == ts[a]);
                        }
                    }
                }
                let added = choose|added: Seq<CordialKnowledgeMessage>|
                    news@ == told + added && #[trigger] loading_news(
                        cfg.consensus_fast_commit_sync,
                        mid@.headers,
                        mid@.tells(data_source),
                        read,
                        added,
                        h@,
                    );
                lemma_loading_news(
                    cfg.consensus_fast_commit_sync,
                    before@.headers,
                    before@.tells(data_source),
                    read,
                    told,
                    all_headers(hs),
                    added,
                    h@,
                );
                lemma_load_keeps_listener(mid@, cfg, a, round, h@, t@);
                hs = hs1;
                ts = ts1;
            }
            i = i + 1;
        }
        assert(loaded(
            cfg,
            before@,
            self@,
            data_source,
            scan_headers,
            scan_transactions,
            read,
            news@,
            hs,
            ts,
        ));
        news
    }

    /// Brings the state back from storage. `scan_commits` gives the commits in
    /// a range, with their sub-DAGs; `scan_headers` and `scan_transactions` give
    /// what there is of an authority from a round on.
    pub fn new<
        S: Fn(CommitRange) -> Vec<(TrustedCommit, SubDagBase)>,
        H: Fn(AuthorityIndex, Round) -> Vec<VerifiedBlockHeader>,
        T: Fn(AuthorityIndex, Round) -> Vec<VerifiedTransactions>,
        F: Fn(BlockRef) -> Option<VerifiedBlockHeader>,
    >(
        config: DagConfig,
        genesis: SortedMap<BlockRef, VerifiedBlock>,
        last_commit: Option<TrustedCommit>,
        commit_info: Option<(CommitRef, CommitInfo)>,
        fast_sync_ongoing: bool,
        scan_commits: &S,
        scan_headers: &H,
        scan_transactions: &T,
        read: &F,
    ) -> (out: Self)
        requires
            config.wf(),
            genesis_wf(config, genesis),
            match last_commit {
                Some(c) => c.commit.leader.round < Round::MAX,
                None => true,
            },
            stored_rounds(config, commit_info).len() == config.size(),
            forall|a: int|
                0 <= a < config.size() ==> #[trigger] stored_rounds(config, commit_info)[a]
                    < Round::MAX,
            scans_commits(config, scan_commits),
            scans_headers(config, scan_headers),
            scans_transactions(config, scan_transactions),
            forall|r: BlockRef| #[trigger] read.requires((r,)),
        ensures
            out.wf(),
            out.config == config,
            out.genesis == genesis,
            exists|
                commits: Vec<(TrustedCommit, SubDagBase)>,
                hs: Seq<Vec<VerifiedBlockHeader>>,
                ts: Seq<Vec<VerifiedTransactions>>,
            |
                #[trigger]
                recovered(
                    config,
                    last_commit,
                    commit_info,
                    fast_sync_ongoing,
                    scan_commits,
                    scan_headers,
                    scan_transactions,
                    out@,
                    commits,
                    hs,
                    ts,
                ),
    {
        let n: usize = config.committee.size();
        let after: CommitIndex = Self::last_commit_info_index(&commit_info);
        let ghost base = stored_rounds(config, commit_info);
        let mut rounds: Vec<Round> = match &commit_info {
            Some((_, info)) => copy_rounds(&info.committed_rounds),
            None => zero_rounds(n),
        };
        assert(rounds@ =~= base);
        let mut commits: Vec<(TrustedCommit, SubDagBase)> = Vec::new();
        if !fast_sync_ongoing {
            match &last_commit {
                Some(c) => {
                    let start: CommitIndex = after.saturating_add(1);
                    if start <= c.commit.index {
                        commits = scan_commits(CommitRange::new(start, c.commit.index));
                    }
                },
                None => {},
            }
        }
        let mut scoring_subdags: Vec<SubDagBase> = Vec::new();
        let mut i: usize = 0;
        assert(commits@.take(0) =~= Seq::empty());
        while i < commits.len()
            invariant
                config.wf(),
                n == config.size(),
                forall|k: int|
                    0 <= k < commits@.len() ==> commit_in_range(config, (#[trigger] commits@[k]).0),
                i <= commits@.len(),
                rounds@ == raise_rounds_by(base, commits@.take(i as int)),
                rounds@.len() == config.size(),
                forall|a: int| 0 <= a < config.size() ==> #[trigger] rounds@[a] < Round::MAX,
                scoring_subdags@ == subdags_of(commits@.take(i as int)),
            decreases commits@.len() - i,
        {
            let commit = &commits[i].0;
            let refs = &commit.commit.block_headers;
            let ghost at = rounds@;
            let mut j: usize = 0;
            assert(refs@.take(0) =~= Seq::<BlockRef>::empty());
            while j < refs.len()
                invariant
                    commit_in_range(config, *commit),
                    *refs == commit.commit.block_headers,
                    j <= refs@.len(),
                    rounds@ == raise_rounds(at, refs@.take(j as int)),
                    rounds@.len() == config.size(),
                    forall|a: int| 0 <= a < config.size() ==> #[trigger] rounds@[a] < Round::MAX,
                decreases refs@.len() - j,
            {
                let r = refs[j];
                assert(commit.commit.block_headers@[j as int] == r);
                let a: usize = r.author as usize;
                let ghost was = rounds@;
                if rounds[a] < r.round {
                    rounds.set(a, r.round);
                }
                proof {
                    assert(refs@.take(j + 1).drop_last() =~= refs@.take(j as int));
                    assert(rounds@ =~= was.update(a as int, max_of(was[a as int], r.round)));
                }
                j = j + 1;
            }
            assert(refs@.take(j as int) =~= refs@);
            scoring_subdags.push(crate::header::share(&commits[i].1));
            proof {
                assert(commits@.take(i + 1).drop_last() =~= commits@.take(i as int));
                assert(scoring_subdags@ =~= subdags_of(commits@.take(i + 1)));
            }
            i = i + 1;
        }
        assert(commits@.take(i as int) =~= commits@);
        let mut state = DagState {
            config,
            genesis,
            recent_block_headers: SortedMap::new(),
            recent_transactions_by_authority: empty_tables(n),
            recent_shards_by_authority: empty_tables(n),
            recent_headers_refs_by_authority: empty_refs(n),
            tx_ref_to_block_digest_by_authority: empty_digests(n),
            threshold_clock: ThresholdClock::new(1),
            evicted_rounds: zero_rounds(n),
            highest_accepted_round: 0,
            last_commit,
            last_solid_subdag_base: None,
            last_committed_rounds: rounds,
            scoring_subdags,
            pending_commit_votes: VecDeque::new(),
            pending_acknowledgments: SortedSet::new(),
            transactions_to_write: Vec::new(),
            block_headers_to_write: Vec::new(),
            commits_to_write: Vec::new(),
            voting_block_headers_to_write: Vec::new(),
            fast_sync_ongoing_flag_to_write: None,
            commit_info_to_write: Vec::new(),
            fast_sync_ongoing,
            has_cordial_knowledge_senders: false,
        };
        proof {
            let target = DagView::fresh(
                config,
                last_commit,
                raise_rounds_by(base, commits@),
                subdags_of(commits@),
                fast_sync_ongoing,
            );
            assert(state@.transactions =~= target.transactions);
            assert(state@.shards =~= target.shards);
            assert(state@.digests =~= target.digests);
            assert(state@.evicted_rounds =~= target.evicted_rounds);
            assert(state@.pending_commit_votes =~= target.pending_commit_votes);
            assert(state@.writes.transactions =~= target.writes.transactions);
            assert(state@.writes.block_headers =~= target.writes.block_headers);
            assert(state@.writes.commits =~= target.writes.commits);
            assert(state@.writes.commit_info =~= target.writes.commit_info);
            assert(state@.writes.voting_block_headers =~= target.writes.voting_block_headers);
            assert(state@ == target);
            assert forall|b: int| 0 <= b < n implies (
            #[trigger] state.recent_headers_refs_by_authority@[b])@ == state@.refs_of(
                b as AuthorityIndex,
            ) by {
                assert(state@.refs_of(b as AuthorityIndex) =~= Set::empty());
            }
        }
        let ghost fresh = state@;
        let news = state.load_cached_data(
            DataSource::Recover,
            scan_headers,
            scan_transactions,
            read,
        );
        proof {
            let (hs, ts) = choose|
                hs: Seq<Vec<VerifiedBlockHeader>>,
                ts: Seq<Vec<VerifiedTransactions>>,
            | #[trigger]
                loaded(
                    config,
                    fresh,
                    state@,
                    DataSource::Recover,
                    scan_headers,
                    scan_transactions,
                    read,
                    news@,
                    hs,
                    ts,
                );
            assert(recovered(
                config,
                last_commit,
                commit_info,
                fast_sync_ongoing,
                scan_commits,
                scan_headers,
                scan_transactions,
                state@,
                commits,
                hs,
                ts,
            ));
        }
        state
    }

    /// Empties the caches after fast synchronization and loads them anew from
    /// storage, together with the commits that still have to be scored.
    /// Gives back the news.
    pub fn reinitialize<
        S: Fn(CommitRange) -> Vec<(TrustedCommit, SubDagBase)>,
        H: Fn(AuthorityIndex, Round) -> Vec<VerifiedBlockHeader>,
        T: Fn(AuthorityIndex, Round) -> Vec<VerifiedTransactions>,
        F: Fn(BlockRef) -> Option<VerifiedBlockHeader>,
    >(
        &mut self,
        commit_info: &Option<(CommitRef, CommitInfo)>,
        scan_commits: &S,
        scan_headers: &H,
        scan_transactions: &T,
        read: &F,
    ) -> (news: Vec<CordialKnowledgeMessage>)
        requires
            old(self).wf(),
            scans_commits(old(self).config, scan_commits),
            scans_headers(old(self).config, scan_headers),
            scans_transactions(old(self).config, scan_transactions),
            forall|r: BlockRef| #[trigger] read.requires((r,)),
        ensures
            final(self).wf(),
            final(self).same_setup(*old(self)),
            exists|
                commits: Vec<(TrustedCommit, SubDagBase)>,
                hs: Seq<Vec<VerifiedBlockHeader>>,
                ts: Seq<Vec<VerifiedTransactions>>,
            |
                #[trigger]
                reloaded(
                    old(self).config,
                    old(self)@,
                    *commit_info,
                    scan_commits,
                    scan_headers,
                    scan_transactions,
                    read,
                    final(self)@,
                    news@,
                    commits,
                    hs,
                    ts,
                ),
    {
        let ghost before = *self;
        let ghost cfg = self.config;
        let n: usize = self.config.committee.size();
        self.scoring_subdags.clear();
        self.recent_block_headers = SortedMap::new();
        self.recent_transactions_by_authority = empty_tables(n);
        self.recent_shards_by_authority = empty_tables(n);
        self.recent_headers_refs_by_authority = empty_refs(n);
        self.tx_ref_to_block_digest_by_authority = empty_digests(n);
        self.pending_commit_votes = VecDeque::new();
        self.pending_acknowledgments = SortedSet::new();
        let current_round: Round = self.threshold_clock.get_round();
        self.threshold_clock = ThresholdClock::new(current_round);
        proof {
            let target = before@.emptied(cfg);
            assert(self@.transactions =~= target.transactions);
            assert(self@.shards =~= target.shards);
            assert(self@.digests =~= target.digests);
            assert(self@.scoring_subdags =~= target.scoring_subdags);
            assert(self@.pending_commit_votes =~= target.pending_commit_votes);
            assert(self@ == target);
            assert forall|b: int| 0 <= b < n implies (
            #[trigger] self.recent_headers_refs_by_authority@[b])@ == self@.refs_of(
                b as AuthorityIndex,
            ) by {
                assert(self@.refs_of(b as AuthorityIndex) =~= Set::empty());
            }
        }
        let news = self.load_cached_data(
            DataSource::FastCommitSyncer,
            scan_headers,
            scan_transactions,
            read,
        );
        let ghost mid = self@;
        let commits = self.rebuild_scoring_subdag_from_store(commit_info, scan_commits);
        proof {
            let rounds = before@.last_committed_rounds;
            let (hs, ts) = choose|
                hs: Seq<Vec<VerifiedBlockHeader>>,
                ts: Seq<Vec<VerifiedTransactions>>,
            | #[trigger]
                loaded(
                    cfg,
                    before@.emptied(cfg),
                    mid,
                    DataSource::FastCommitSyncer,
                    scan_headers,
                    scan_transactions,
                    read,
                    news@,
                    hs,
                    ts,
                );
            lemma_load_keeps(before@.emptied(cfg), cfg, rounds, hs, ts, cfg.size());
            assert(self@.scoring_subdags =~= subdags_of(commits@@));
            assert(reloaded(
                cfg,
                before@,
                *commit_info,
                scan_commits,
                scan_headers,
                scan_transactions,
                read,
                self@,
                news@,
                commits@,
                hs,
                ts,
            ));
        }
        news
    }

    /// Adds the sub-DAGs of the commits that still have to be scored.
    fn rebuild_scoring_subdag_from_store<S: Fn(CommitRange) -> Vec<(TrustedCommit, SubDagBase)>>(
        &mut self,
        commit_info: &Option<(CommitRef, CommitInfo)>,
        scan_commits: &S,
    ) -> (out: Ghost<Vec<(TrustedCommit, SubDagBase)>>)
        requires
            old(self).wf(),
            scans_commits(old(self).config, scan_commits),
        ensures
            final(self).wf(),
            final(self).same_setup(*old(self)),
            match unscored_commits(old(self)@.last_commit, *commit_info) {
                Some(range) => scan_commits.ensures((range,), out@),
                None => out@@.len() == 0,
            },
            final(self)@ == (DagView {
                scoring_subdags: old(self)@.scoring_subdags + subdags_of(out@@),
                ..old(self)@
            }),
    {
        let ghost before = *self;
        let after: CommitIndex = Self::last_commit_info_index(commit_info);
        let mut commits: Vec<(TrustedCommit, SubDagBase)> = Vec::new();
        match &self.last_commit {
            Some(c) => {
                let start: CommitIndex = after.saturating_add(1);
                if start <= c.commit.index {
                    commits = scan_commits(CommitRange::new(start, c.commit.index));
                }
            },
            None => {},
        }
        let mut i: usize = 0;
        assert(self.scoring_subdags@ =~= before.scoring_subdags@ + subdags_of(commits@.take(0)));
        while i < commits.len()
            invariant
                i <= commits@.len(),
                *self == (DagState { scoring_subdags: self.scoring_subdags, ..before }),
                self.scoring_subdags@ == before.scoring_subdags@ + subdags_of(
                    commits@.take(i as int),
                ),
            decreases commits@.len() - i,
        {
            self.scoring_subdags.push(crate::header::share(&commits[i].1));
            i = i + 1;
            assert(self.scoring_subdags@ =~= before.scoring_subdags@ + subdags_of(
                commits@.take(i as int),
            ));
        }
        proof {
            assert(commits@.take(i as int) =~= commits@);
            self.lemma_same_tables(before);
        }
        Ghost(commits)
    }
}

/// Loading looks only at what belongs to the authorities loaded.
proof fn lemma_load_prefix(
    v: DagView,
    cfg: DagConfig,
    rounds: Seq<Round>,
    hs: Seq<Vec<VerifiedBlockHeader>>,
    ts: Seq<Vec<VerifiedTransactions>>,
    hs1: Seq<Vec<VerifiedBlockHeader>>,
    ts1: Seq<Vec<VerifiedTransactions>>,
    n: nat,
)
    requires
        n <= hs.len() <= hs1.len(),
        n <= ts.len() <= ts1.len(),
        forall|i: int| 0 <= i < hs.len() ==> hs[i] == hs1[i],
        forall|i: int| 0 <= i < ts.len() ==> ts[i] == ts1[i],
    ensures
        v.load_first(cfg, rounds, hs, ts, n) == v.load_first(cfg, rounds, hs1, ts1, n),
    decreases n,
{
    if n > 0 {
        lemma_load_prefix(v, cfg, rounds, hs, ts, hs1, ts1, (n - 1) as nat);
    }
}

proof fn lemma_insert_keeps(v: DagView, cfg: DagConfig, hs: Seq<VerifiedBlockHeader>)
    ensures
        v.insert_headers(cfg, hs).headers == with_headers(v.headers, hs),
        v.insert_headers(cfg, hs).has_listener == v.has_listener,
        v.insert_headers(cfg, hs).scoring_subdags == v.scoring_subdags,
        v.insert_headers(cfg, hs).last_commit == v.last_commit,
        v.insert_headers(cfg, hs).last_committed_rounds == v.last_committed_rounds,
    decreases hs.len(),
{
    if hs.len() > 0 {
        lemma_insert_keeps(v, cfg, hs.drop_last());
    }
}

proof fn lemma_insert_transactions_keeps(
    v: DagView,
    cfg: DagConfig,
    ts: Seq<VerifiedTransactions>,
)
    ensures
        v.insert_all_transactions(cfg, ts).headers == v.headers,
        v.insert_all_transactions(cfg, ts).has_listener == v.has_listener,
        v.insert_all_transactions(cfg, ts).scoring_subdags == v.scoring_subdags,
        v.insert_all_transactions(cfg, ts).last_commit == v.last_commit,
        v.insert_all_transactions(cfg, ts).last_committed_rounds == v.last_committed_rounds,
    decreases ts.len(),
{
    if ts.len() > 0 {
        lemma_insert_transactions_keeps(v, cfg, ts.drop_last());
    }
}

proof fn lemma_load_keeps_listener(
    v: DagView,
    cfg: DagConfig,
    a: AuthorityIndex,
    round: Round,
    hs: Seq<VerifiedBlockHeader>,
    ts: Seq<VerifiedTransactions>,
)
    ensures
        v.load_authority(cfg, a, round, hs, ts).has_listener == v.has_listener,
        v.load_authority(cfg, a, round, hs, ts).scoring_subdags == v.scoring_subdags,
        v.load_authority(cfg, a, round, hs, ts).last_commit == v.last_commit,
        v.load_authority(cfg, a, round, hs, ts).last_committed_rounds == v.last_committed_rounds,
{
    let w = DagView {
        evicted_rounds: v.evicted_rounds.update(a as int, sat_sub(round, cfg.cached_rounds)),
        ..v
    };
    lemma_insert_keeps(w, cfg, hs);
    lemma_insert_transactions_keeps(w.insert_headers(cfg, hs), cfg, ts);
}

proof fn lemma_load_keeps(
    v: DagView,
    cfg: DagConfig,
    rounds: Seq<Round>,
    hs: Seq<Vec<VerifiedBlockHeader>>,
    ts: Seq<Vec<VerifiedTransactions>>,
    n: nat,
)
    ensures
        v.load_first(cfg, rounds, hs, ts, n).scoring_subdags == v.scoring_subdags,
        v.load_first(cfg, rounds, hs, ts, n).last_commit == v.last_commit,
        v.load_first(cfg, rounds, hs, ts, n).last_committed_rounds == v.last_committed_rounds,
    decreases n,
{
    if n > 0 {
        lemma_load_keeps(v, cfg, rounds, hs, ts, (n - 1) as nat);
        lemma_load_keeps_listener(
            v.load_first(cfg, rounds, hs, ts, (n - 1) as nat),
            cfg,
            (n - 1) as AuthorityIndex,
            rounds[n - 1],
            hs[n - 1]@,
            ts[n - 1]@,
        );
    }
}

/// Headers taken in after others.
proof fn lemma_with_headers(
    base: Map<BlockRef, VerifiedBlockHeader>,
    h1: Seq<VerifiedBlockHeader>,
    h2: Seq<VerifiedBlockHeader>,
)
    ensures
        with_headers(with_headers(base, h1), h2) == with_headers(base, h1 + h2),
    decreases h2.len(),
{
    if h2.len() == 0 {
        assert(h1 + h2 =~= h1);
    } else {
        lemma_with_headers(base, h1, h2.drop_last());
        assert((h1 + h2).drop_last() =~= h1 + h2.drop_last());
    }
}

/// The news of two lists of headers, one after the other.
proof fn lemma_loading_news<F: Fn(BlockRef) -> Option<VerifiedBlockHeader>>(
    by_commitment: bool,
    base: Map<BlockRef, VerifiedBlockHeader>,
    told: bool,
    read: &F,
    news1: Seq<CordialKnowledgeMessage>,
    headers1: Seq<VerifiedBlockHeader>,
    news2: Seq<CordialKnowledgeMessage>,
    headers2: Seq<VerifiedBlockHeader>,
)
    requires
        loading_news(by_commitment, base, told, read, news1, headers1),
        loading_news(
            by_commitment,
            with_headers(base, headers1),
            told,
            read,
            news2,
            headers2,
        ),
    ensures
        loading_news(by_commitment, base, told, read, news1 + news2, headers1 + headers2),
        with_headers(with_headers(base, headers1), headers2) == with_headers(
            base,
            headers1 + headers2,
        ),
{
    lemma_with_headers(base, headers1, headers2);
    if told {
        let news = news1 + news2;
        let headers = headers1 + headers2;
        assert forall|i: int| 0 <= i < news.len() implies is_news_of_last(
            by_commitment,
            base,
            headers.take(i + 1),
            read,
            #[trigger] news[i],
        ) by {
            if i < news1.len() {
                assert(news[i] == news1[i]);
                assert(headers.take(i + 1) =~= headers1.take(i + 1));
            } else {
                let k = i - news1.len();
                assert(news[i] == news2[k]);
                assert(headers.take(i + 1) =~= headers1 + headers2.take(k + 1));
                lemma_with_headers(base, headers1, headers2.take(k + 1));
            }
        }
    }
}

} // verus!
