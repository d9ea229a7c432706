//! The state of the DAG: lookups, ranges, eviction, flushing and recovery.
use std::cell::{Cell, RefCell};
use std::collections::BTreeMap;
use std::sync::Arc;

use starfish_core::commit::{
    CertifiedContent, Commit, CommitInfo, CommitVersion, ReputationScores, SubDagBase,
    SubDagContent, TrustedCommit,
};
use starfish_core::committee::Committee;
use starfish_core::dag_state::evict::WriteBatch;
use starfish_core::dag_state::model::DagConfig;
use starfish_core::dag_state::source::DataSource;
use starfish_core::dag_state::state::DagState;
use starfish_core::header::{
    BlockHeader, BlockTransactions, VerifiedBlock, VerifiedBlockHeader, VerifiedOwnShard,
    VerifiedTransactions,
};
use starfish_core::refs::{
    AuthorityIndex, BlockRef, CommitIndex, CommitRange, CommitRef, Digest, GenericTransactionRef,
    Round, Slot, TransactionRef, GENESIS_ROUND,
};
use starfish_core::sorted::SortedMap;

fn digest_of(round: Round, author: AuthorityIndex, timestamp_ms: u64) -> Digest {
    Digest {
        hi: (round as u128) << 64 | (author as u128) << 32 | 0xabcd,
        lo: timestamp_ms as u128 + 1,
    }
}

fn commitment_of(round: Round, author: AuthorityIndex, timestamp_ms: u64) -> Digest {
    Digest {
        hi: 0x77 << 100 | (round as u128) << 64 | author as u128,
        lo: timestamp_ms as u128 + 2,
    }
}

fn header_with(
    round: Round,
    author: AuthorityIndex,
    timestamp_ms: u64,
    ancestors: Vec<BlockRef>,
) -> VerifiedBlockHeader {
    Arc::new(BlockHeader {
        reference: BlockRef { round, author, digest: digest_of(round, author, timestamp_ms) },
        timestamp_ms,
        ancestors,
        acknowledgments: vec![],
        commit_votes: vec![],
        transactions_commitment: commitment_of(round, author, timestamp_ms),
        serialized: Arc::new(vec![round as u8, author, timestamp_ms as u8]),
    })
}

fn header(round: Round, author: AuthorityIndex) -> VerifiedBlockHeader {
    header_with(round, author, round as u64 * 1000, vec![])
}

fn transactions_of(header: &VerifiedBlockHeader, payload: Vec<Vec<u8>>) -> VerifiedTransactions {
    Arc::new(BlockTransactions {
        transactions: payload,
        transaction_ref: TransactionRef {
            round: header.reference.round,
            author: header.reference.author,
            transactions_commitment: header.transactions_commitment,
        },
        block_digest: Some(header.reference.digest),
        serialized: Arc::new(vec![9, header.reference.round as u8, header.reference.author]),
    })
}

fn generic(header: &VerifiedBlockHeader, by_commitment: bool) -> GenericTransactionRef {
    if by_commitment {
        GenericTransactionRef::TransactionRef(TransactionRef {
            round: header.reference.round,
            author: header.reference.author,
            transactions_commitment: header.transactions_commitment,
        })
    } else {
        GenericTransactionRef::BlockRef(header.reference)
    }
}

fn genesis(n: usize) -> SortedMap<BlockRef, VerifiedBlock> {
    let mut map = SortedMap::new();
    for author in 0..n as AuthorityIndex {
        let h = header(GENESIS_ROUND, author);
        map.insert(h.reference, VerifiedBlock {
            verified_transactions: transactions_of(&h, vec![]),
            verified_block_header: h,
        });
    }
    map
}

fn config(n: usize) -> DagConfig {
    DagConfig {
        committee: Committee {
            stakes: vec![1; n],
            quorum_threshold: (2 * n as u64) / 3 + 1,
        },
        own_index: 0,
        cached_rounds: 500,
        gc_depth: 10,
        consensus_fast_commit_sync: false,
    }
}

/// What was written, in memory.
#[derive(Default)]
struct Store {
    headers: RefCell<BTreeMap<BlockRef, VerifiedBlockHeader>>,
    transactions: RefCell<Vec<VerifiedTransactions>>,
    commits: RefCell<Vec<TrustedCommit>>,
    subdags: RefCell<BTreeMap<CommitIndex, SubDagBase>>,
    info: RefCell<Option<(CommitRef, Vec<Round>)>>,
    fast_sync: Cell<bool>,
    transaction_reads: Cell<usize>,
}

impl Store {
    fn write(&self, batch: WriteBatch) {
        for h in batch.block_headers {
            self.headers.borrow_mut().insert(h.reference, h);
        }
        for t in batch.transactions {
            self.transactions.borrow_mut().push(t);
        }
        for c in batch.commits {
            self.commits.borrow_mut().push(c);
        }
        for (r, info) in batch.commit_info {
            *self.info.borrow_mut() = Some((r, info.committed_rounds));
        }
        if let Some(flag) = batch.fast_sync_ongoing {
            self.fast_sync.set(flag);
        }
    }

    fn flush(&self, dag_state: &mut DagState) -> Option<Vec<Round>> {
        let flushed = dag_state.flush();
        if let Some(batch) = flushed.batch {
            self.write(batch);
        }
        flushed.eviction_rounds
    }

    fn contains(&self, r: BlockRef) -> bool {
        self.headers.borrow().contains_key(&r)
    }

    fn read(&self, r: BlockRef) -> Option<VerifiedBlockHeader> {
        self.headers.borrow().get(&r).cloned()
    }

    fn read_transactions(
        &self,
        by_commitment: bool,
        r: GenericTransactionRef,
    ) -> Option<VerifiedTransactions> {
        self.transaction_reads.set(self.transaction_reads.get() + 1);
        self.transactions
            .borrow()
            .iter()
            .find(|t| t.generic_ref(by_commitment) == Some(r))
            .cloned()
    }

    fn commit_info(&self) -> Option<(CommitRef, CommitInfo)> {
        self.info.borrow().as_ref().map(|(r, rounds)| {
            (
                *r,
                CommitInfo {
                    committed_rounds: rounds.clone(),
                    reputation_scores: ReputationScores {
                        scores_per_authority: vec![],
                        commit_range: CommitRange { start: 0, end: 0 },
                    },
                },
            )
        })
    }

    fn open(&self, config: DagConfig) -> DagState {
        let n = config.committee.size();
        DagState::new(
            config,
            genesis(n),
            self.commits.borrow().last().cloned(),
            self.commit_info(),
            self.fast_sync.get(),
            &|range: CommitRange| {
                self.commits
                    .borrow()
                    .iter()
                    .filter(|c| range.start <= c.commit.index && c.commit.index <= range.end)
                    .map(|c| (c.clone(), self.subdags.borrow()[&c.commit.index].clone()))
                    .collect()
            },
            &|author: AuthorityIndex, from: Round| {
                self.headers
                    .borrow()
                    .values()
                    .filter(|h| h.reference.author == author && h.reference.round >= from)
                    .cloned()
                    .collect()
            },
            &|author: AuthorityIndex, from: Round| {
                self.transactions
                    .borrow()
                    .iter()
                    .filter(|t| {
                        t.transaction_ref.author == author && t.transaction_ref.round >= from
                    })
                    .cloned()
                    .collect()
            },
            &|r: BlockRef| self.read(r),
        )
    }

    fn accept(&self, dag_state: &mut DagState, h: &VerifiedBlockHeader) {
        dag_state.accept_block_header(
            h,
            DataSource::Test,
            &|r: BlockRef| self.contains(r),
            &|r: BlockRef| self.read(r),
        );
    }
}

fn empty_state(n: usize) -> (Store, DagState) {
    let store = Store::default();
    let dag_state = store.open(config(n));
    (store, dag_state)
}

/// A DAG in which each header builds on all of the round before, and each round
/// has a leader whose commit takes in all that was not committed.
struct Layers {
    rounds: Vec<Vec<VerifiedBlockHeader>>,
    commits: Vec<TrustedCommit>,
    subdags: Vec<SubDagBase>,
}

impl Layers {
    fn new(n: usize, num_rounds: Round) -> Self {
        let first: Vec<VerifiedBlockHeader> =
            (0..n as AuthorityIndex).map(|a| header(GENESIS_ROUND, a)).collect();
        let mut rounds = vec![first];
        let mut commits: Vec<TrustedCommit> = vec![];
        let mut subdags = vec![];
        let mut leftover: Vec<VerifiedBlockHeader> = vec![];
        for round in 1..=num_rounds {
            let mut ancestors: Vec<BlockRef> =
                rounds[round as usize - 1].iter().map(|h| h.reference).collect();
            let layer: Vec<VerifiedBlockHeader> = (0..n as AuthorityIndex)
                .map(|a| {
                    ancestors.sort_by_key(|r| (r.author != a, r.author));
                    header_with(round, a, round as u64 * 1000, ancestors.clone())
                })
                .collect();
            let leader = layer[round as usize % n].clone();
            leftover.push(leader.clone());
            leftover.sort_by_key(|h| (h.reference.round, h.reference.author));
            let previous_digest = match commits.last() {
                Some(c) => c.digest,
                None => Digest::min(),
            };
            let digest = Digest { hi: 0xc0, lo: round as u128 };
            let commit = Arc::new(CertifiedContent {
                commit: Arc::new(Commit {
                    version: CommitVersion::V1,
                    index: round,
                    previous_digest,
                    timestamp_ms: leader.timestamp_ms,
                    leader: leader.reference,
                    block_headers: leftover.iter().map(|h| h.reference).collect(),
                    committed_transactions: vec![],
                    reputation_scores: vec![],
                }),
                digest,
                serialized: Arc::new(vec![round as u8]),
            });
            subdags.push(Arc::new(SubDagContent {
                leader: leader.reference,
                committed_header_refs: leftover.iter().map(|h| h.reference).collect(),
                headers: leftover,
                timestamp_ms: leader.timestamp_ms,
                commit_ref: CommitRef { index: round, digest },
                reputation_scores_desc: vec![],
            }));
            commits.push(commit);
            leftover = layer.iter().filter(|h| **h != leader).cloned().collect();
            rounds.push(layer);
        }
        Layers { rounds, commits, subdags }
    }

    fn headers(&self, from: Round, to: Round) -> Vec<VerifiedBlockHeader> {
        self.rounds[from as usize..=to as usize].concat()
    }

    fn transactions(&self, from: Round, to: Round) -> Vec<VerifiedTransactions> {
        self.headers(from, to).iter().map(|h| transactions_of(h, vec![vec![1, 2, 3]])).collect()
    }
}

fn commit(leader: BlockRef, block_headers: Vec<BlockRef>) -> TrustedCommit {
    Arc::new(CertifiedContent {
        commit: Arc::new(Commit {
            version: CommitVersion::V1,
            index: 1,
            previous_digest: Digest::min(),
            timestamp_ms: 0,
            leader,
            block_headers,
            committed_transactions: vec![],
            reputation_scores: vec![],
        }),
        digest: Digest { hi: 1, lo: 1 },
        serialized: Arc::new(vec![1]),
    })
}

fn refs(headers: &[VerifiedBlockHeader]) -> Vec<BlockRef> {
    headers.iter().map(|h| h.reference).collect()
}

#[test]
fn test_get_block_header() {
    let (store, mut dag_state) = empty_state(4);
    let own_index: AuthorityIndex = 0;
    let num_rounds: u32 = 10;
    let non_existent_round: u32 = 100;
    let num_authorities: u8 = 3;
    let num_blocks_per_slot: usize = 3;
    let mut block_headers = BTreeMap::new();
    for round in 1..=num_rounds {
        for author in 0..num_authorities {
            let base_ts = round as u64 * 1000;
            for timestamp in base_ts..base_ts + num_blocks_per_slot as u64 {
                let h = header_with(round, author, timestamp, vec![]);
                store.accept(&mut dag_state, &h);
                block_headers.insert(h.reference, h);
                if author == own_index {
                    break;
                }
            }
        }
    }
    for (block_ref, h) in &block_headers {
        assert_eq!(
            &dag_state.get_verified_block_header(block_ref, &|r: BlockRef| store.read(r)).unwrap(),
            h
        );
    }
    let last_ref = block_headers.keys().last().unwrap();
    let unknown = BlockRef::new(last_ref.round, last_ref.author, Digest::min());
    assert!(dag_state
        .get_verified_block_header(&unknown, &|r: BlockRef| store.read(r))
        .is_none());
    for round in 1..=num_rounds {
        for author in 0..num_authorities {
            let found = dag_state.get_uncommitted_block_headers_at_slot(Slot::new(round, author));
            if author == own_index {
                assert_eq!(found.len(), 1);
            } else {
                assert_eq!(found.len(), num_blocks_per_slot);
            }
            for h in found {
                assert_eq!(h.reference.round, round);
                assert_eq!(h.reference.author, author);
            }
        }
    }
    assert!(dag_state
        .get_uncommitted_block_headers_at_slot(Slot::new(non_existent_round, 0))
        .is_empty());
    for round in 1..=num_rounds {
        let found = dag_state.get_uncommitted_block_headers_at_round(round);
        assert_eq!(found.len(), (num_authorities - 1) as usize * num_blocks_per_slot + 1);
        for h in found {
            assert_eq!(h.reference.round, round);
        }
    }
    assert!(dag_state.get_uncommitted_block_headers_at_round(non_existent_round).is_empty());
}

#[test]
fn test_ancestors_at_uncommitted_round() {
    let (store, mut dag_state) = empty_state(4);
    let round_10_refs: Vec<BlockRef> =
        (0..4).map(|a| header_with(10, a, 1000, vec![]).reference).collect();
    let round_11 = [
        header_with(11, 0, 1100, round_10_refs.clone()),
        header_with(11, 1, 1110, round_10_refs.clone()),
        header_with(11, 1, 1111, round_10_refs.clone()),
        header_with(11, 1, 1112, round_10_refs.clone()),
        header_with(11, 2, 1120, round_10_refs.clone()),
        header_with(11, 3, 1130, round_10_refs),
    ];
    let for_round_12 =
        vec![round_11[0].reference, round_11[1].reference, round_11[5].reference];
    let round_12 = [
        header_with(12, 0, 1200, for_round_12.clone()),
        header_with(12, 2, 1220, for_round_12.clone()),
        header_with(12, 3, 1230, for_round_12),
    ];
    let for_round_13 = vec![
        round_12[0].reference,
        round_12[1].reference,
        round_12[2].reference,
        round_11[2].reference,
    ];
    let round_13 = [
        header_with(12, 1, 1300, for_round_13.clone()),
        header_with(12, 2, 1320, for_round_13.clone()),
        header_with(12, 3, 1330, for_round_13),
    ];
    let anchor = header_with(14, 1, 1410, refs(&round_13));
    for h in round_11
        .iter()
        .chain(round_12.iter())
        .chain(round_13.iter())
        .chain([anchor.clone()].iter())
    {
        store.accept(&mut dag_state, h);
    }
    let ancestors = dag_state.ancestors_at_round(&anchor, 11, &|r: BlockRef| store.read(r));
    let mut found = refs(&ancestors);
    found.sort();
    let mut expected = vec![
        round_11[0].reference,
        round_11[1].reference,
        round_11[2].reference,
        round_11[5].reference,
    ];
    expected.sort();
    assert_eq!(found, expected);
}

#[test]
fn ancestors_of_other_rounds_are_left_out() {
    let (store, mut dag_state) = empty_state(4);
    let old = header(3, 1);
    let at_round = header(5, 2);
    let middle = header_with(6, 3, 6000, vec![at_round.reference, old.reference]);
    let top = header_with(7, 0, 7000, vec![middle.reference, old.reference]);
    for h in [&old, &at_round, &middle, &top] {
        store.accept(&mut dag_state, h);
    }
    let found = dag_state.ancestors_at_round(&top, 5, &|r: BlockRef| store.read(r));
    assert_eq!(found, vec![at_round]);
}

#[test]
fn test_contains_block_headers_in_cache_or_store() {
    let store = Store::default();
    let mut dag_state = store.open(DagConfig { cached_rounds: 2, ..config(4) });
    let num_rounds: u32 = 10;
    let num_authorities: u8 = 4;
    let mut block_headers = Vec::new();
    for round in 1..=num_rounds {
        for author in 0..num_authorities {
            block_headers.push(header(round, author));
        }
    }
    for h in &block_headers {
        if h.reference.round <= 4 {
            store.headers.borrow_mut().insert(h.reference, h.clone());
        } else {
            dag_state.accept_block_headers(
                &vec![h.clone()],
                DataSource::Test,
                &|r: BlockRef| store.contains(r),
                &|r: BlockRef| store.read(r),
            );
        }
    }
    let mut block_refs = refs(&block_headers);
    let result = dag_state.contains_block_headers(&block_refs, &|r: BlockRef| store.contains(r));
    let mut expected = vec![true; (num_rounds * num_authorities as u32) as usize];
    assert_eq!(result, expected);
    block_refs.insert(3, BlockRef::new(11, 3, Digest::min()));
    let result = dag_state.contains_block_headers(&block_refs, &|r: BlockRef| store.contains(r));
    expected.insert(3, false);
    assert_eq!(result, expected);
}

#[test]
fn test_contains_cached_block_header_at_slot() {
    let store = Store::default();
    let mut dag_state = store.open(DagConfig { cached_rounds: 2, ..config(4) });
    let num_rounds: u32 = 10;
    let num_authorities: u8 = 4;
    let mut slots = Vec::new();
    for round in 1..=num_rounds {
        for author in 0..num_authorities {
            store.accept(&mut dag_state, &header(round, author));
            slots.push(Slot::new(round, author));
        }
    }
    for author in 0..num_authorities {
        assert!(dag_state.contains_cached_block_header_at_slot(Slot::new(GENESIS_ROUND, author)));
    }
    for slot in &slots {
        assert!(dag_state.contains_cached_block_header_at_slot(*slot));
    }
    slots.insert(3, Slot::new(11, 3));
    let mut expected = vec![true; (num_rounds * num_authorities as u32) as usize];
    expected.insert(3, false);
    for slot in slots {
        assert_eq!(expected.remove(0), dag_state.contains_cached_block_header_at_slot(slot));
    }
}

#[test]
fn test_get_block_headers_in_cache_or_store() {
    let (store, mut dag_state) = empty_state(4);
    let mut block_headers = Vec::new();
    for round in 1..=10 {
        for author in 0..4 {
            block_headers.push(header(round, author));
        }
    }
    for h in &block_headers {
        if h.reference.round <= 4 {
            store.headers.borrow_mut().insert(h.reference, h.clone());
        } else {
            store.accept(&mut dag_state, h);
        }
    }
    let genesis_headers = dag_state.genesis_block_headers();
    let mut block_refs = refs(&genesis_headers);
    block_refs.extend(refs(&block_headers));
    let result = dag_state.get_verified_block_headers(&block_refs, &|r: BlockRef| store.read(r));
    let mut expected: Vec<Option<VerifiedBlockHeader>> =
        genesis_headers.into_iter().chain(block_headers).map(Some).collect();
    assert_eq!(result, expected);
    let result_cached = dag_state.get_cached_block_headers(&block_refs);
    let expected_cached: Vec<Option<VerifiedBlockHeader>> = expected
        .iter()
        .map(|oh| {
            oh.as_ref().filter(|h| h.reference.round > 4 || h.reference.round == 0).cloned()
        })
        .collect();
    assert_eq!(result_cached, expected_cached);
    block_refs.insert(3, BlockRef::new(11, 3, Digest::min()));
    let result = dag_state.get_verified_block_headers(&block_refs, &|r: BlockRef| store.read(r));
    expected.insert(3, None);
    assert_eq!(result, expected);
    let serialized = dag_state.get_serialized_block_headers(&block_refs, &|r: BlockRef| {
        store.read(r).map(|h| h.serialized.clone())
    });
    let expected_serialized: Vec<Option<Arc<Vec<u8>>>> = expected
        .iter()
        .map(|oh| oh.as_ref().map(|h| h.serialized.clone()))
        .collect();
    assert_eq!(serialized, expected_serialized);
}

fn flush_and_recovery(consensus_fast_commit_sync: bool) {
    let store = Store::default();
    let cfg = || DagConfig { consensus_fast_commit_sync, gc_depth: 60, ..config(4) };
    let mut dag_state = store.open(cfg());
    let num_rounds: u32 = 10;
    let layers = Layers::new(4, num_rounds);
    for s in &layers.subdags {
        store.subdags.borrow_mut().insert(s.commit_ref.index, s.clone());
    }
    let (commits, later_commits) = layers.commits.split_at(5);
    let read = |r: BlockRef| store.read(r);
    let contains = |r: BlockRef| store.contains(r);
    dag_state.accept_block_headers(&layers.headers(1, 5), DataSource::Test, &contains, &read);
    for t in layers.transactions(1, 5) {
        dag_state.add_transactions(&t, DataSource::Test);
    }
    for c in commits {
        dag_state.add_commit(c);
        if c.commit.index == 2 {
            dag_state.add_commit_info(ReputationScores {
                scores_per_authority: vec![],
                commit_range: CommitRange { start: 0, end: 0 },
            });
        }
    }
    dag_state.update_last_solid_subdag_base(layers.subdags[4].clone());
    store.flush(&mut dag_state);
    let (commit_ref, info) = store.commit_info().unwrap();
    assert_eq!(commit_ref, commits[1].reference());
    assert_eq!(info.committed_rounds, [1, 1, 2, 1]);

    dag_state.accept_block_headers(
        &layers.headers(6, num_rounds),
        DataSource::Test,
        &contains,
        &read,
    );
    for t in layers.transactions(6, num_rounds) {
        dag_state.add_transactions(&t, DataSource::Test);
    }
    for c in later_commits {
        dag_state.add_commit(c);
    }
    let mut all_headers = dag_state.genesis_block_headers();
    all_headers.extend(layers.headers(1, num_rounds));
    let result = dag_state.get_verified_block_headers(&refs(&all_headers), &read);
    assert_eq!(result.into_iter().map(|b| b.unwrap()).collect::<Vec<_>>(), all_headers);

    let mut all_transactions: Vec<VerifiedTransactions> =
        dag_state.genesis_blocks().into_iter().map(|b| b.verified_transactions).collect();
    all_transactions.extend(layers.transactions(1, num_rounds));
    let transaction_refs: Vec<GenericTransactionRef> =
        all_headers.iter().map(|h| generic(h, consensus_fast_commit_sync)).collect();
    let read_transactions =
        |r: GenericTransactionRef| store.read_transactions(consensus_fast_commit_sync, r);
    let result = dag_state.get_verified_transactions(&transaction_refs, &read_transactions);
    assert_eq!(result.into_iter().map(|b| b.unwrap()).collect::<Vec<_>>(), all_transactions);

    assert_eq!(dag_state.last_commit_index(), 10);
    assert_eq!(dag_state.last_committed_rounds(), vec![9, 9, 10, 9]);
    let last_own = dag_state.get_last_own_non_genesis_block().unwrap();
    assert_eq!(last_own.verified_block_header, layers.rounds[10][0]);
    drop(dag_state);

    let dag_state = store.open(cfg());
    let flushed = layers.headers(1, 5);
    let result = dag_state.get_verified_block_headers(&refs(&flushed), &read);
    assert_eq!(result.into_iter().map(|b| b.unwrap()).collect::<Vec<_>>(), flushed);
    let flushed_refs: Vec<GenericTransactionRef> =
        flushed.iter().map(|h| generic(h, consensus_fast_commit_sync)).collect();
    let result = dag_state.get_verified_transactions(&flushed_refs, &read_transactions);
    assert_eq!(
        result.into_iter().map(|b| b.unwrap()).collect::<Vec<_>>(),
        layers.transactions(1, 5)
    );
    let last_own = dag_state.get_last_own_non_genesis_block().unwrap();
    assert_eq!(last_own.verified_block_header, layers.rounds[5][0]);

    let missing = layers.headers(6, num_rounds);
    let result = dag_state.get_verified_block_headers(&refs(&missing), &read);
    assert!(result.into_iter().flatten().next().is_none());
    let missing_refs: Vec<GenericTransactionRef> =
        missing.iter().map(|h| generic(h, consensus_fast_commit_sync)).collect();
    let result = dag_state.get_verified_transactions(&missing_refs, &read_transactions);
    assert!(result.into_iter().flatten().next().is_none());
    assert_eq!(dag_state.last_commit_index(), 5);
    assert_eq!(dag_state.last_committed_rounds(), vec![4, 5, 4, 4]);
    assert_eq!(dag_state.scoring_subdags_count(), 3);
}

#[test]
fn test_flush_and_recovery() {
    flush_and_recovery(true);
    flush_and_recovery(false);
}

#[test]
fn test_get_cached_block_headers() {
    let store = Store::default();
    let mut dag_state = store.open(DagConfig { cached_rounds: 5, ..config(4) });
    for author in 1..=3u32 {
        for round in 10..(10 + author) {
            store.accept(&mut dag_state, &header(round, author as u8));
        }
    }
    let rounds = |headers: Vec<VerifiedBlockHeader>| {
        headers.iter().map(|h| h.reference.round).collect::<Vec<_>>()
    };
    let since = |a, r| rounds(dag_state.get_cached_block_headers_since_round(a, r));
    assert!(since(0, 0).is_empty());
    assert_eq!(since(1, 10), vec![10]);
    assert_eq!(since(2, 10), vec![10, 11]);
    assert_eq!(since(2, 11), vec![11]);
    assert_eq!(since(3, 10), vec![10, 11, 12]);
    assert_eq!(since(3, 12), vec![12]);
    let range = |a, s, e, l| rounds(dag_state.get_cached_block_headers_in_range(a, s, e, l));
    assert!(range(3, 10, 10, 1).is_empty());
    assert!(range(3, 11, 10, 1).is_empty());
    assert!(range(0, 9, 10, 1).is_empty());
    assert_eq!(range(1, 9, 11, 1), vec![10]);
    assert_eq!(range(2, 9, 12, 5), vec![10, 11]);
    assert_eq!(range(3, 11, 20, 5), vec![11, 12]);
    assert_eq!(range(3, 10, 20, 1), vec![10]);
}

#[test]
fn test_get_last_cached_block_header() {
    let store = Store::default();
    let mut dag_state = store.open(DagConfig { cached_rounds: 2, ..config(4) });
    let parents = |round: Round, authors: std::ops::Range<u8>| -> Vec<BlockRef> {
        authors.map(|a| header(round, a).reference).collect()
    };
    let genesis_refs = parents(0, 0..4);
    let mut headers: Vec<VerifiedBlockHeader> =
        (1..4).map(|a| header_with(1, a, 1000, genesis_refs.clone())).collect();
    headers.extend((2..4).map(|a| header_with(2, a, 2000, parents(1, 1..4))));
    headers.push(header_with(3, 3, 3000, parents(2, 2..4)));
    headers.push(header_with(2, 2, 2001, vec![]));
    for h in &headers {
        store.accept(&mut dag_state, h);
    }
    dag_state.add_commit(&commit(header(3, 3).reference, vec![]));
    let end_round = 4;
    let last = dag_state.get_last_cached_block_header_per_authority(end_round);
    let rounds: Vec<Round> = last.iter().map(|b| b.0.reference.round).collect();
    assert_eq!(rounds, vec![0, 1, 2, 3]);
    let equivocations: Vec<usize> = last.iter().map(|b| b.1.len()).collect();
    assert_eq!(equivocations, vec![0, 0, 1, 0]);
    let last_in_range = |d: &DagState, start, end| -> Vec<Round> {
        (0..4)
            .map(|a| {
                d.get_last_cached_block_header_in_range(a, start, end)
                    .map(|h| h.reference.round)
                    .unwrap_or_default()
            })
            .collect()
    };
    assert_eq!(last_in_range(&dag_state, 0, end_round), vec![0, 1, 2, 3]);
    assert_eq!(last_in_range(&dag_state, 2, end_round), vec![0, 0, 2, 3]);
    store.flush(&mut dag_state);
    let end_round = 3;
    let last = dag_state.get_last_cached_block_header_per_authority(end_round);
    let rounds: Vec<Round> = last.iter().map(|b| b.0.reference.round).collect();
    assert_eq!(rounds, vec![0, 1, 2, 2]);
    assert_eq!(last_in_range(&dag_state, 0, end_round), vec![0, 1, 2, 2]);
}

#[test]
fn evicted_rounds_follow_the_last_commit() {
    // With 14 rounds: the round of garbage collection is 14 - 6 = 8, and so is
    // the evicted round, as 14 - 2 is later.
    let store = Store::default();
    let mut dag_state = store.open(DagConfig { cached_rounds: 2, gc_depth: 3, ..config(4) });
    let headers: Vec<VerifiedBlockHeader> = (1..=14).map(|r| header(r, 0)).collect();
    for h in &headers {
        store.accept(&mut dag_state, h);
    }
    dag_state.add_commit(&commit(headers[13].reference, refs(&headers)));
    let told = store.flush(&mut dag_state);
    assert_eq!(dag_state.evicted_rounds[0], 8);
    assert_eq!(told, None);
    assert!(!dag_state.recent_block_headers.contains_key(&headers[7].reference));
    assert!(dag_state.recent_block_headers.contains_key(&headers[8].reference));
    assert!(store.contains(headers[7].reference));
    // With three authorities of different lengths the one in the middle is cut
    // at round 3.
    let store = Store::default();
    let mut dag_state = store.open(DagConfig { cached_rounds: 1, gc_depth: 3, ..config(4) });
    let mut all = vec![];
    for author in 1..=3u32 {
        for round in 1..=author * 3 {
            let h = header(round, author as u8);
            store.accept(&mut dag_state, &h);
            all.push(h);
        }
    }
    dag_state.add_commit(&commit(all.last().unwrap().reference, refs(&all)));
    dag_state.set_cordial_knowledge_senders();
    let told = store.flush(&mut dag_state);
    assert_eq!(dag_state.evicted_rounds, vec![0, 2, 3, 3]);
    assert_eq!(told, Some(vec![0, 2, 3, 3]));
}

#[test]
fn test_last_quorum() {
    let (store, mut dag_state) = empty_state(4);
    assert_eq!(dag_state.last_quorum(), dag_state.genesis_block_headers());
    let layers = Layers::new(4, 4);
    for h in layers.headers(1, 4) {
        store.accept(&mut dag_state, &h);
    }
    assert_eq!(dag_state.last_quorum(), layers.headers(4, 4));
    store.accept(&mut dag_state, &header(5, 0));
    assert_eq!(dag_state.last_quorum(), dag_state.get_uncommitted_block_headers_at_round(4));
}

#[test]
fn test_last_block_header_for_authority() {
    let (store, mut dag_state) = empty_state(4);
    assert_eq!(dag_state.get_last_proposed_block_header(), header(GENESIS_ROUND, 0));
    for h in Layers::new(4, 4).headers(1, 4) {
        store.accept(&mut dag_state, &h);
    }
    store.accept(&mut dag_state, &header(5, 0));
    for a in 0..4 {
        let last = dag_state.get_last_block_header_for_authority(a);
        if a == 0 {
            assert_eq!(last.reference.round, 5);
        } else {
            assert_eq!(last.reference.round, 4);
        }
    }
}

fn contains_transactions(consensus_fast_commit_sync: bool) {
    let store = Store::default();
    let cfg = || DagConfig { consensus_fast_commit_sync, ..config(4) };
    let mut dag_state = store.open(cfg());
    let num_rounds: u32 = 10;
    let num_authorities: u8 = 4;
    let mut headers = Vec::new();
    for round in 1..=num_rounds {
        for author in 0..num_authorities {
            headers.push(header(round, author));
        }
    }
    for h in &headers {
        let t = transactions_of(h, vec![]);
        if h.reference.round <= 4 {
            store.transactions.borrow_mut().push(t);
        } else {
            dag_state.add_transactions(&t, DataSource::Test);
        }
    }
    let contains =
        |r: GenericTransactionRef| store.read_transactions(consensus_fast_commit_sync, r).is_some();
    let all: Vec<GenericTransactionRef> =
        headers.iter().map(|h| generic(h, consensus_fast_commit_sync)).collect();
    let mut asked = all.clone();
    let mut expected = vec![true; (num_rounds * num_authorities as u32) as usize];
    assert_eq!(dag_state.contains_transactions(&asked, &contains), expected);
    asked.insert(3, if consensus_fast_commit_sync {
        GenericTransactionRef::TransactionRef(TransactionRef {
            round: 11,
            author: 0,
            transactions_commitment: Digest::min(),
        })
    } else {
        GenericTransactionRef::BlockRef(BlockRef::new(11, 0, Digest::min()))
    });
    expected.insert(3, false);
    assert_eq!(dag_state.contains_transactions(&asked, &contains), expected);
    drop(dag_state);
    let dag_state = store.open(cfg());
    let expected: Vec<bool> =
        (1..=num_rounds).flat_map(|round| vec![round <= 4; num_authorities as usize]).collect();
    assert_eq!(dag_state.contains_transactions(&all, &contains), expected);
}

#[test]
fn test_contains_transactions() {
    contains_transactions(true);
    contains_transactions(false);
}

#[test]
fn test_no_panic_on_future_timestamp() {
    let (store, mut dag_state) = empty_state(4);
    let h = header_with(1, 1, u64::MAX - 100_000, vec![]);
    store.accept(&mut dag_state, &h);
    assert_eq!(dag_state.recent_block_headers.get(&h.reference), Some(&h));
}

#[test]
fn test_accept_block_not_panics_when_timestamp_is_ahead() {
    let (store, mut dag_state) = empty_state(4);
    let h = header_with(10, 0, u64::MAX, vec![]);
    store.accept(&mut dag_state, &h);
    assert_eq!(dag_state.highest_accepted_round(), 10);
}

fn state_with_commits(
    consensus_fast_commit_sync: bool,
    headers_too: bool,
    num_rounds: Round,
) -> (Store, DagState, Layers) {
    let store = Store::default();
    let mut dag_state = store.open(DagConfig {
        cached_rounds: 5,
        consensus_fast_commit_sync,
        ..config(4)
    });
    let layers = Layers::new(4, num_rounds);
    let source = if headers_too { DataSource::Test } else { DataSource::FastCommitSyncer };
    if headers_too {
        for h in layers.headers(1, num_rounds) {
            store.accept(&mut dag_state, &h);
        }
    }
    for t in layers.transactions(1, num_rounds) {
        dag_state.add_transactions(&t, source);
    }
    for c in &layers.commits {
        dag_state.add_commit(c);
    }
    (store, dag_state, layers)
}

fn cached_transactions(dag_state: &DagState) -> usize {
    dag_state.recent_transactions_by_authority.iter().map(|m| m.len()).sum()
}

fn eviction(consensus_fast_commit_sync: bool) {
    let num_rounds: u32 = 200;
    let (store, mut dag_state, layers) =
        state_with_commits(consensus_fast_commit_sync, true, num_rounds);
    dag_state.update_last_solid_subdag_base(layers.subdags.last().unwrap().clone());
    store.flush(&mut dag_state);
    let expected: Vec<Round> =
        (0..4).map(|x| num_rounds - 1 + (x % 4 == num_rounds % 4) as u32).collect();
    assert_eq!(dag_state.last_committed_rounds(), expected);
    let mut all_headers = dag_state.genesis_block_headers();
    all_headers.extend(layers.headers(1, num_rounds));
    let block_refs = refs(&all_headers);
    let cached: Vec<VerifiedBlockHeader> =
        dag_state.get_cached_block_headers(&block_refs).into_iter().flatten().collect();
    let expected: Vec<VerifiedBlockHeader> = all_headers
        .iter()
        .filter(|h| {
            h.reference.round > dag_state.evicted_rounds[h.reference.author as usize]
                || h.reference.round == GENESIS_ROUND
        })
        .cloned()
        .collect();
    assert_eq!(cached, expected);

    let gc_round = dag_state.gc_round_for_last_commit();
    assert_eq!(gc_round, 180);
    let read =
        |r: GenericTransactionRef| store.read_transactions(consensus_fast_commit_sync, r);
    let recent: Vec<GenericTransactionRef> = layers
        .headers(gc_round + 1, num_rounds)
        .iter()
        .map(|h| generic(h, consensus_fast_commit_sync))
        .collect();
    let found = dag_state.get_verified_transactions(&recent, &read);
    assert_eq!(
        found.into_iter().map(|t| t.unwrap()).collect::<Vec<_>>(),
        layers.transactions(gc_round + 1, num_rounds)
    );
    assert_eq!(store.transaction_reads.get(), 0);

    let all: Vec<GenericTransactionRef> =
        all_headers.iter().map(|h| generic(h, consensus_fast_commit_sync)).collect();
    let found = dag_state.get_verified_transactions(&all, &read);
    let mut all_transactions: Vec<VerifiedTransactions> =
        dag_state.genesis_blocks().into_iter().map(|b| b.verified_transactions).collect();
    all_transactions.extend(layers.transactions(1, num_rounds));
    assert_eq!(found.into_iter().map(|t| t.unwrap()).collect::<Vec<_>>(), all_transactions);
    assert!(store.transaction_reads.get() > 0);

    let clock_round = dag_state.threshold_clock_round();
    assert_eq!(clock_round, 201);
    let eviction_round = clock_round - (10 + 1);
    for r in &block_refs {
        assert_eq!(
            dag_state.pending_acknowledgments.contains(r),
            r.round > eviction_round,
            "round {}",
            r.round
        );
    }
}

#[test]
fn test_eviction() {
    eviction(true);
    eviction(false);
}

#[test]
fn test_gc_eviction_advances_for_skipped_authority() {
    let n = 10;
    let cached_rounds: Round = 5;
    let gc_depth: Round = 3;
    let store = Store::default();
    let mut dag_state = store.open(DagConfig { cached_rounds, gc_depth, ..config(n) });
    let skipped: AuthorityIndex = 8;
    let total_rounds = 2 * (cached_rounds + gc_depth);
    // All but the last authority make headers, and none builds on those of the
    // skipped one.
    let mut previous: Vec<BlockRef> =
        (0..n as u8).map(|a| header(GENESIS_ROUND, a).reference).collect();
    let mut leader = previous[0];
    let mut committed = vec![];
    for round in 1..=total_rounds {
        let layer: Vec<VerifiedBlockHeader> = (0..9u8)
            .map(|a| header_with(round, a, round as u64 * 1000, previous.clone()))
            .collect();
        for h in &layer {
            store.accept(&mut dag_state, h);
            dag_state.add_transactions(&transactions_of(h, vec![vec![1]]), DataSource::Test);
        }
        leader = layer[round as usize % 8].reference;
        previous = refs(&layer).into_iter().filter(|r| r.author != skipped).collect();
        if round < total_rounds {
            committed.extend(previous.clone());
        }
    }
    committed.push(leader);
    dag_state.add_commit(&commit(leader, committed));
    assert!(dag_state.last_committed_rounds()[skipped as usize] < total_rounds);
    store.flush(&mut dag_state);
    let expected = dag_state
        .gc_round_for_last_commit()
        .min(total_rounds.saturating_sub(cached_rounds));
    assert_eq!(dag_state.evicted_rounds[skipped as usize], expected);
    assert_eq!(expected, 10);
    let cached = dag_state.get_cached_block_headers_since_round(skipped, GENESIS_ROUND + 1);
    assert_eq!(cached.first().map(|h| h.reference.round), Some(expected + 1));
    assert_eq!(cached.last().map(|h| h.reference.round), Some(total_rounds));
}

fn flush_evicts_without_writes(consensus_fast_commit_sync: bool) {
    let (store, mut dag_state, layers) =
        state_with_commits(consensus_fast_commit_sync, true, 200);
    store.flush(&mut dag_state);
    let first = cached_transactions(&dag_state);
    dag_state.update_last_solid_subdag_base(layers.subdags.last().unwrap().clone());
    let flushed = dag_state.flush();
    assert!(flushed.batch.is_none());
    let second = cached_transactions(&dag_state);
    assert!(second < first, "before: {first}, after: {second}");
}

#[test]
fn test_flush_evicts_transactions_without_pending_writes() {
    flush_evicts_without_writes(true);
    flush_evicts_without_writes(false);
}

fn fast_sync_eviction(consensus_fast_commit_sync: bool) {
    let (store, mut dag_state, layers) =
        state_with_commits(consensus_fast_commit_sync, false, 200);
    dag_state.update_last_solid_subdag_base(layers.subdags.last().unwrap().clone());
    dag_state.set_fast_sync_ongoing_flag(true);
    store.flush(&mut dag_state);
    assert!(dag_state.fast_sync_ongoing());
    let total = cached_transactions(&dag_state);
    let max_expected = 4 * (2 * 10 + 2);
    assert!(total <= max_expected, "{total} > {max_expected}");
}

#[test]
fn test_fast_sync_transaction_eviction_without_headers() {
    fast_sync_eviction(true);
    fast_sync_eviction(false);
}

#[test]
fn test_skip_acknowledgments_all_empty_transactions() {
    let (_store, mut dag_state) = empty_state(4);
    for round in 1..=10 {
        for author in 0..4 {
            dag_state
                .add_transactions(&transactions_of(&header(round, author), vec![]), DataSource::Test);
        }
    }
    assert!(dag_state.pending_acknowledgments.is_empty());
}

#[test]
fn test_skip_acknowledgments_some_contain_transactions() {
    let (_store, mut dag_state) = empty_state(4);
    let mut with_transactions = Vec::new();
    for round in 1..=10 {
        for author in 0..4 {
            let h = header(round, author);
            let payload = if round > 5 {
                with_transactions.push(h.reference);
                vec![vec![7; 64]]
            } else {
                vec![]
            };
            dag_state.add_transactions(&transactions_of(&h, payload), DataSource::Test);
        }
    }
    assert_eq!(dag_state.pending_acknowledgments.len(), with_transactions.len());
    for r in &with_transactions {
        assert!(dag_state.pending_acknowledgments.contains(r));
    }
    // What is taken is no longer pending.
    let taken = dag_state.take_acknowledgments(3);
    for r in &taken {
        assert!(!dag_state.pending_acknowledgments.contains(r));
    }
}

#[test]
fn votes_are_taken_in_order() {
    let (_store, mut dag_state) = empty_state(4);
    let votes: Vec<CommitRef> =
        (1..=5).map(|i| CommitRef { index: i, digest: Digest { hi: 0, lo: i as u128 } }).collect();
    dag_state.update_pending_commit_votes(votes.clone());
    assert_eq!(dag_state.take_commit_votes(2), votes[..2].to_vec());
    assert_eq!(dag_state.take_commit_votes(10), votes[2..].to_vec());
    assert!(dag_state.take_commit_votes(1).is_empty());
}

#[test]
fn own_shards_are_kept_and_told() {
    let (_store, mut dag_state) = empty_state(4);
    let k = GenericTransactionRef::BlockRef(header(3, 2).reference);
    let shard = |b: u8| VerifiedOwnShard {
        gen_transaction_ref: k,
        serialized_shard: Arc::new(vec![b]),
    };
    assert!(dag_state.add_shard(shard(1)).is_none());
    assert_eq!(dag_state.get_cached_shards(&[k]), vec![Some(Arc::new(vec![1]))]);
    let other = GenericTransactionRef::BlockRef(header(4, 2).reference);
    assert_eq!(dag_state.get_cached_shards(&[other, k]).len(), 2);
    assert_eq!(dag_state.get_cached_shards(&[other])[0], None);
}

#[test]
fn commit_is_taken_in_once() {
    let (_store, mut dag_state) = empty_state(4);
    let layers = Layers::new(4, 3);
    assert_eq!(dag_state.last_commit_digest(), Digest::min());
    for c in &layers.commits {
        dag_state.add_commit(c);
    }
    let rounds = dag_state.last_committed_rounds();
    dag_state.add_commit(&layers.commits[0]);
    assert_eq!(dag_state.last_commit_index(), 3);
    assert_eq!(dag_state.last_committed_rounds(), rounds);
    assert_eq!(dag_state.last_commit_digest(), layers.commits[2].digest);
    assert_eq!(dag_state.last_commit_leader(), Slot::new(3, 3));
    assert_eq!(dag_state.last_commit_timestamp_ms(), 3000);
    assert_eq!(dag_state.commits_to_write.len(), 3);
}

#[test]
fn transactions_are_found_by_commitment() {
    let store = Store::default();
    let mut dag_state =
        store.open(DagConfig { consensus_fast_commit_sync: true, ..config(4) });
    let h = header(2, 1);
    store.accept(&mut dag_state, &h);
    let t = TransactionRef {
        round: 2,
        author: 1,
        transactions_commitment: h.transactions_commitment,
    };
    assert_eq!(dag_state.resolve_block_ref(&t), Some(h.reference));
    assert_eq!(
        dag_state.get_cached_block_headers_for_transaction_refs(&[t]),
        vec![Some(h.clone())]
    );
    let unknown = TransactionRef { transactions_commitment: Digest::max(), ..t };
    assert_eq!(dag_state.resolve_block_ref(&unknown), None);
    assert_eq!(
        dag_state.contains_verified_block_headers_for_transaction_refs(
            &[t, unknown],
            &|_r: BlockRef| false
        ),
        vec![true, false]
    );
    let read = |_r: GenericTransactionRef| None;
    let k = GenericTransactionRef::TransactionRef(t);
    assert_eq!(dag_state.try_get_all_verified_transactions(&[k], &read), Err(vec![k]));
    let transactions = transactions_of(&h, vec![vec![5]]);
    dag_state.add_transactions(&transactions, DataSource::Test);
    assert_eq!(
        dag_state.try_get_all_verified_transactions(&[k], &read),
        Ok(vec![transactions.clone()])
    );
    assert!(dag_state.is_data_available(&h.reference));
    assert_eq!(
        dag_state.get_serialized_transactions(&[k], &|_r: GenericTransactionRef| None),
        vec![Some(transactions.serialized.clone())]
    );
    assert_eq!(
        dag_state.get_transactions_commitments_batch(
            &[h.reference, header(3, 3).reference],
            &|_r: BlockRef| None
        ),
        vec![Some(h.transactions_commitment), None]
    );
}

#[test]
fn recent_commits_are_listed() {
    let (_store, mut dag_state) = empty_state(4);
    let layers = Layers::new(4, 4);
    for c in &layers.commits {
        dag_state.add_commit(c);
    }
    let scan = |range: CommitRange| -> Vec<TrustedCommit> {
        layers
            .commits
            .iter()
            .filter(|c| range.start <= c.commit.index && c.commit.index <= range.end)
            .cloned()
            .collect()
    };
    let listed = |n: u32| dag_state.get_block_refs_for_recent_commits(n, &scan);
    let of_commits = |from: usize| -> Vec<BlockRef> {
        let mut refs: Vec<BlockRef> =
            layers.commits[from..].iter().flat_map(|c| c.commit.block_headers.clone()).collect();
        refs.sort();
        refs
    };
    assert!(listed(0).is_empty());
    assert_eq!(listed(1), of_commits(3));
    assert_eq!(listed(3), of_commits(1));
    assert_eq!(listed(100), of_commits(0));
}

#[test]
fn data_sources_have_names() {
    assert_eq!(DataSource::HeaderSynchronizer.as_str(), "Header synchronizer");
    assert_eq!(DataSource::FastCommitSyncer.as_str(), "Fast commit syncer");
}

#[test]
fn second_flush_changes_nothing() {
    let (store, mut dag_state, layers) = state_with_commits(false, true, 60);
    dag_state.update_last_solid_subdag_base(layers.subdags.last().unwrap().clone());
    store.flush(&mut dag_state);
    let headers = dag_state.recent_block_headers.len();
    let transactions = cached_transactions(&dag_state);
    let rounds = dag_state.evicted_rounds.clone();
    assert!(dag_state.flush().batch.is_none());
    assert_eq!(dag_state.recent_block_headers.len(), headers);
    assert_eq!(cached_transactions(&dag_state), transactions);
    assert_eq!(dag_state.evicted_rounds, rounds);
}

#[test]
fn uncommitted_headers_stay_in_memory() {
    let (store, mut dag_state, layers) = state_with_commits(false, true, 60);
    store.flush(&mut dag_state);
    let last_leader = dag_state.last_commit_round();
    for h in layers.headers(last_leader, 60) {
        assert!(dag_state.recent_block_headers.contains_key(&h.reference));
    }
    assert!(!dag_state.recent_block_headers.contains_key(&layers.rounds[1][0].reference));
}

#[test]
fn clock_and_highest_round_never_go_back() {
    let (store, mut dag_state) = empty_state(4);
    let mut last = (dag_state.threshold_clock_round(), dag_state.highest_accepted_round());
    assert_eq!(last, (1, 0));
    let mut headers = Layers::new(4, 6).headers(1, 6);
    headers.swap(3, 20);
    headers.swap(1, 9);
    for h in headers {
        store.accept(&mut dag_state, &h);
        let now = (dag_state.threshold_clock_round(), dag_state.highest_accepted_round());
        assert!(now.0 >= last.0 && now.1 >= last.1);
        last = now;
    }
    assert_eq!(last, (7, 6));
}

#[test]
fn digests_are_found_as_long_as_headers_are() {
    let (store, mut dag_state, layers) = state_with_commits(true, true, 60);
    dag_state.update_last_solid_subdag_base(layers.subdags.last().unwrap().clone());
    store.flush(&mut dag_state);
    for h in layers.headers(1, 60) {
        if dag_state.recent_block_headers.contains_key(&h.reference) {
            let t = TransactionRef::new(h.reference, h.transactions_commitment);
            assert_eq!(dag_state.resolve_block_ref(&t), Some(h.reference));
        }
    }
}

#[test]
fn own_header_may_come_twice() {
    let (store, mut dag_state) = empty_state(4);
    let own = header(1, 0);
    let twice = vec![own.clone(), own.clone()];
    dag_state.accept_block_headers(
        &twice,
        DataSource::Test,
        &|r: BlockRef| store.contains(r),
        &|r: BlockRef| store.read(r),
    );
    assert_eq!(dag_state.block_headers_to_write.len(), 1);
}

#[test]
fn votes_and_scores_are_kept_for_writing() {
    let (store, mut dag_state) = empty_state(4);
    let layers = Layers::new(4, 2);
    dag_state.add_voting_block_headers(layers.headers(1, 1));
    assert!(dag_state.is_scoring_subdag_empty());
    dag_state.add_scoring_subdags(layers.subdags.clone());
    assert_eq!(dag_state.scoring_subdags_count(), 2);
    dag_state.clear_scoring_subdag();
    assert!(dag_state.is_scoring_subdag_empty());
    let flushed = dag_state.flush();
    assert_eq!(flushed.batch.unwrap().voting_block_headers, layers.headers(1, 1));
    assert!(store.headers.borrow().is_empty());
    assert_eq!(dag_state.last_solid_commit_leader_round(), None);
    dag_state.update_last_solid_subdag_base(layers.subdags[1].clone());
    assert_eq!(dag_state.last_solid_commit_leader_round(), Some(2));
    assert_eq!(dag_state.last_solid_commit_index(), 2);
}

#[test]
fn own_blocks_are_listed() {
    let (store, mut dag_state) = empty_state(4);
    for round in 1..=3 {
        let h = header(round, 0);
        store.accept(&mut dag_state, &h);
        dag_state.add_transactions(&transactions_of(&h, vec![vec![1]]), DataSource::OwnBlock);
    }
    let rounds: Vec<Round> = dag_state
        .get_own_cached_blocks(2)
        .iter()
        .map(|b| b.verified_block_header.reference.round)
        .collect();
    assert_eq!(rounds, vec![2, 3]);
}

#[test]
fn reinitialization_loads_what_storage_has() {
    let (store, mut dag_state, layers) = state_with_commits(false, false, 20);
    for s in &layers.subdags {
        store.subdags.borrow_mut().insert(s.commit_ref.index, s.clone());
    }
    dag_state.set_cordial_knowledge_senders();
    dag_state.set_fast_sync_ongoing_flag(true);
    store.flush(&mut dag_state);
    assert!(dag_state.recent_block_headers.is_empty());
    // Headers of recent commits have come in and were written.
    for h in layers.headers(10, 20) {
        store.headers.borrow_mut().insert(h.reference, h);
    }
    let news = dag_state.reinitialize(
        &store.commit_info(),
        &|range: CommitRange| {
            layers.commits[range.start as usize - 1..range.end as usize]
                .iter()
                .zip(&layers.subdags[range.start as usize - 1..range.end as usize])
                .map(|(c, s)| (c.clone(), s.clone()))
                .collect()
        },
        &|author: AuthorityIndex, from: Round| {
            store
                .headers
                .borrow()
                .values()
                .filter(|h| h.reference.author == author && h.reference.round >= from)
                .cloned()
                .collect()
        },
        &|_author: AuthorityIndex, _from: Round| vec![],
        &|r: BlockRef| store.read(r),
    );
    // Five rounds are cached behind the last committed one of each authority.
    let rounds = dag_state.last_committed_rounds();
    assert_eq!(rounds, vec![20, 19, 19, 19]);
    assert_eq!(dag_state.evicted_rounds, vec![15, 14, 14, 14]);
    for h in layers.headers(16, 20) {
        assert!(dag_state.recent_block_headers.contains_key(&h.reference));
    }
    assert!(!dag_state.recent_block_headers.contains_key(&layers.rounds[14][1].reference));
    assert_eq!(news.len(), dag_state.recent_block_headers.len());
    assert_eq!(dag_state.scoring_subdags_count(), 20);
    assert_eq!(dag_state.threshold_clock_round(), 21);
}

#[test]
fn accepted_headers_are_news() {
    let (store, mut dag_state) = empty_state(4);
    dag_state.set_cordial_knowledge_senders();
    let accept = |dag_state: &mut DagState, h: &VerifiedBlockHeader, source: DataSource| {
        dag_state
            .accept_block_header(
                h,
                source,
                &|r: BlockRef| store.contains(r),
                &|r: BlockRef| store.read(r),
            )
            .is_some()
    };
    assert!(accept(&mut dag_state, &header(1, 1), DataSource::BlockStreaming));
    // A header that was accepted before is no news, nor is one from a commit.
    assert!(!accept(&mut dag_state, &header(1, 1), DataSource::BlockStreaming));
    assert!(!accept(&mut dag_state, &header(1, 2), DataSource::CommitSyncer));
}

#[test]
fn an_accepted_header_is_found_and_taken_once() {
    let (store, mut dag_state) = empty_state(4);
    // One of the node's own headers is among them.
    for author in 0..3 {
        let h = header(5 + author as Round, author);
        store.accept(&mut dag_state, &h);
        let found = dag_state.get_verified_block_header(&h.reference, &|r: BlockRef| store.read(r));
        assert_eq!(found, Some(h.clone()));
        assert!(dag_state.highest_accepted_round() >= h.reference.round);
        let cached = dag_state.recent_block_headers.len();
        let waiting = dag_state.block_headers_to_write.len();
        let clock = dag_state.threshold_clock_round();
        let highest = dag_state.highest_accepted_round();
        store.accept(&mut dag_state, &h);
        assert_eq!(dag_state.recent_block_headers.len(), cached);
        assert_eq!(dag_state.block_headers_to_write.len(), waiting);
        assert_eq!(dag_state.threshold_clock_round(), clock);
        assert_eq!(dag_state.highest_accepted_round(), highest);
    }
}
