//! Catching up on commits: what is scheduled, checked and put together.
use std::sync::Arc;

use starfish_core::commit::{CertifiedContent, Commit, CommitVersion, TrustedCommit};
use starfish_core::commit_syncer::fast::{
    commits_for_reinitialization, is_soft_stream_error, paused_by_fast_sync,
    truncate_to_fully_fetched_prefix, FastCommitSyncer, FastFetch, FastSyncOutput,
    FastSyncPauseSource, HeaderRefetch, PauseCounts, RefetchStep,
};
use starfish_core::commit_syncer::regular::{
    assemble_certified_commits, check_fetched_transactions, chunks, missing_transactions,
    plan_header_requests, plan_transactions_requests, CertifiedCommit, RegularCommitSyncer,
};
use starfish_core::commit_syncer::shared::{
    requeue_partial_range, try_start_fetches, CommitSyncType, FetchLoop, FetchStep,
    SyncParameters, AVG_TX_ROUNDS_PER_COMMIT, MAX_COMMIT_VOTE_HEADERS_PER_AUTHORITY,
};
use starfish_core::commit_syncer::verify::{
    check_response_sizes, verify_commits, verify_fetched_headers,
    verify_transactions_with_transactions_refs, CommitMessage, VoteMessage,
};
use starfish_core::commit_syncer::wire::{
    decode_transactions, digest_from_bytes, SerializedTransactionsV2,
};
use starfish_core::committee::Committee;
use starfish_core::error::ConsensusError;
use starfish_core::header::{BlockHeader, BlockTransactions, Bytes, VerifiedBlockHeader};
use starfish_core::refs::{
    AuthorityIndex, BlockRef, CommitIndex, CommitRange, CommitRef, Digest, GenericTransactionRef,
    Round, TransactionRef, GENESIS_ROUND,
};
use starfish_core::sorted::{SortedMap, SortedSet};

const GC_DEPTH: Round = 10;

const NO_SIZE_LIMIT: usize = 1 << 20;

fn committee() -> Committee {
    Committee { stakes: vec![1; 4], quorum_threshold: 3 }
}

fn commit_content(
    version: CommitVersion,
    index: CommitIndex,
    previous_digest: Digest,
    leader: BlockRef,
    committed_transactions: Vec<GenericTransactionRef>,
) -> Commit {
    Commit {
        version,
        index,
        previous_digest,
        timestamp_ms: 0,
        leader,
        block_headers: vec![leader],
        committed_transactions,
        reputation_scores: vec![],
    }
}

fn commit_digest(index: CommitIndex) -> Digest {
    Digest { hi: 0xc0, lo: index as u128 }
}

fn commit_with(
    index: CommitIndex,
    previous_digest: Digest,
    transactions: &[GenericTransactionRef],
) -> TrustedCommit {
    let leader = BlockRef::new(index, ((index - 1) % 4) as AuthorityIndex, Digest::min());
    Arc::new(CertifiedContent {
        commit: Arc::new(commit_content(
            CommitVersion::V2,
            index,
            previous_digest,
            leader,
            transactions.to_vec(),
        )),
        digest: commit_digest(index),
        serialized: Arc::new(vec![index as u8]),
    })
}

fn commit(index: CommitIndex, transactions: &[GenericTransactionRef]) -> TrustedCommit {
    commit_with(index, Digest::min(), transactions)
}

fn header(round: Round, author: AuthorityIndex, votes: Vec<CommitRef>) -> VerifiedBlockHeader {
    Arc::new(BlockHeader {
        reference: BlockRef {
            round,
            author,
            digest: Digest { hi: round as u128, lo: author as u128 },
        },
        timestamp_ms: 0,
        ancestors: vec![],
        acknowledgments: vec![],
        commit_votes: votes,
        transactions_commitment: Digest::min(),
        serialized: Arc::new(vec![round as u8, author]),
    })
}

fn transaction_ref(round: Round) -> GenericTransactionRef {
    GenericTransactionRef::TransactionRef(TransactionRef {
        round,
        author: 0,
        transactions_commitment: Digest::min(),
    })
}

fn fetched(refs: &[GenericTransactionRef]) -> SortedMap<GenericTransactionRef, Bytes> {
    let mut map = SortedMap::new();
    for r in refs {
        map.insert(*r, Arc::new(vec![]));
    }
    map
}

/// A commitment that tells payloads of different first transactions apart.
fn commitment_bytes(payload: &[u8]) -> [u8; 32] {
    let mut bytes = [0u8; 32];
    bytes[0] = 1;
    bytes[31] = *payload.last().unwrap_or(&0);
    bytes
}

fn commitment_of(payload: Bytes) -> Result<Digest, ConsensusError> {
    Ok(digest_from_bytes(&commitment_bytes(&payload)))
}

/// Chained commits that name as many transactions each as asked for, the
/// transactions as they travel, and a quorum of headers that vote for the last.
fn chained_commits(
    tx_counts: &[u32],
) -> (Vec<TrustedCommit>, Vec<Vec<Bytes>>, Vec<VerifiedBlockHeader>) {
    let mut commits: Vec<TrustedCommit> = vec![];
    let mut elements = vec![];
    let mut round: Round = 0;
    for (i, count) in tx_counts.iter().enumerate() {
        let mut refs = vec![];
        let mut of_commit = vec![];
        for _ in 0..*count {
            round += 1;
            let payload = bcs::to_bytes(&vec![vec![round as u8; 16]]).unwrap();
            let commitment = commitment_bytes(&payload);
            refs.push(GenericTransactionRef::TransactionRef(TransactionRef {
                round,
                author: 0,
                transactions_commitment: digest_from_bytes(&commitment),
            }));
            of_commit.push(Arc::new(
                bcs::to_bytes(&(round, 0u8, commitment, payload)).unwrap(),
            ));
        }
        let previous = match commits.last() {
            Some(c) => c.digest,
            None => Digest::min(),
        };
        commits.push(commit_with(i as u32 + 1, previous, &refs));
        elements.push(of_commit);
    }
    let last = commits.last().unwrap().reference();
    let votes = (0..3).map(|author| header(round + 1, author, vec![last])).collect();
    (commits, elements, votes)
}

/// What comes of a fetch in which the transactions arrive in these chunks, whether it
/// was stopped for its size, and whether transactions were missing at its end.
fn fetch(
    commits: &[TrustedCommit],
    votes: Vec<VerifiedBlockHeader>,
    chunks: Vec<Vec<Bytes>>,
    max_fetch_bytes: usize,
) -> Result<(FastSyncOutput, bool, bool), ConsensusError> {
    let committee = committee();
    let mut state = FastFetch::start(4, GC_DEPTH, 1, commits.to_vec(), votes)?;
    let mut capped = false;
    for chunk in chunks {
        let (next, full) = state.accept_chunk(
            &committee,
            NO_SIZE_LIMIT,
            max_fetch_bytes,
            &chunk,
            &commitment_of,
        )?;
        state = next;
        if full {
            capped = true;
            break;
        }
    }
    let truncated = !state.outstanding.is_empty();
    Ok((state.finish(&Arc::new(vec![]))?, capped, truncated))
}

#[test]
fn returns_covered_prefix_of_truncated_response() {
    let (commits, elements, votes) = chained_commits(&[1, 1]);
    let (output, _, truncated) =
        fetch(&commits, votes, vec![vec![elements[0][0].clone()]], 0).unwrap();
    assert_eq!(output.commits.len(), 1);
    assert_eq!(output.commits[0].reference(), commits[0].reference());
    assert_eq!(output.committed_subdags.len(), 1);
    assert_eq!(output.committed_subdags[0].base.commit_ref, commits[0].reference());
    assert_eq!(output.committed_subdags[0].transactions.len(), 1);
    assert_eq!(output.voting_block_headers.len(), 3);
    assert!(truncated);
}

#[test]
fn covers_all_commits_across_multiple_chunks() {
    let (commits, elements, votes) = chained_commits(&[1, 1, 1]);
    let (output, capped, truncated) = fetch(&commits, votes, elements, 0).unwrap();
    assert_eq!(output.commits.len(), 3);
    assert_eq!(output.committed_subdags.len(), 3);
    assert!(!truncated);
    assert!(!capped);
}

#[test]
fn accepts_transaction_chunks_in_any_order() {
    let (commits, mut elements, votes) = chained_commits(&[1, 1, 1]);
    elements.reverse();
    let (output, _, truncated) = fetch(&commits, votes, elements, 0).unwrap();
    assert_eq!(output.commits.len(), 3);
    assert_eq!(output.committed_subdags.len(), 3);
    assert!(!truncated);
}

#[test]
fn order_of_chunks_does_not_matter() {
    let names = |output: &FastSyncOutput| -> Vec<Vec<GenericTransactionRef>> {
        output
            .committed_subdags
            .iter()
            .map(|s| {
                s.transactions
                    .iter()
                    .map(|t| GenericTransactionRef::TransactionRef(t.transaction_ref))
                    .collect()
            })
            .collect()
    };
    let (commits, elements, votes) = chained_commits(&[2, 1, 3]);
    let (first, _, _) = fetch(&commits, votes.clone(), elements.clone(), 0).unwrap();
    // Each sub-DAG holds all transactions of its commit, in order.
    for (commit, names) in commits.iter().zip(names(&first)) {
        assert_eq!(commit.commit.committed_transactions, names);
    }
    let mut rotated = elements;
    rotated.rotate_left(1);
    let (second, _, _) = fetch(&commits, votes, rotated, 0).unwrap();
    assert_eq!(first.commits, second.commits);
    assert_eq!(first.committed_subdags, second.committed_subdags);
}

#[test]
fn stops_at_covered_prefix_when_byte_cap_hit() {
    let (commits, elements, votes) = chained_commits(&[1, 1, 1]);
    let (output, capped, truncated) = fetch(&commits, votes, elements, 1).unwrap();
    assert_eq!(output.commits.len(), 1);
    assert_eq!(output.commits[0].reference(), commits[0].reference());
    assert!(capped);
    assert!(truncated);
}

#[test]
fn undecodable_elements_count_toward_byte_cap() {
    let (commits, elements, votes) = chained_commits(&[1, 1]);
    let cap = elements[0][0].len() + 1;
    let garbage: Bytes = Arc::new(vec![0xffu8; 1024]);
    assert!(
        SerializedTransactionsV2::from_bytes(&garbage).is_err(),
        "fixture garbage must be undecodable"
    );
    let chunks =
        vec![vec![elements[0][0].clone()], vec![garbage], vec![elements[1][0].clone()]];
    let (output, capped, truncated) = fetch(&commits, votes, chunks, cap).unwrap();
    assert_eq!(output.commits.len(), 1);
    assert_eq!(output.commits[0].reference(), commits[0].reference());
    assert!(capped);
    assert!(truncated);
}

#[test]
fn covers_first_commit_before_byte_cap_stop() {
    let (commits, elements, votes) = chained_commits(&[3, 1]);
    let chunks = elements.iter().flatten().map(|e| vec![e.clone()]).collect();
    let (output, capped, truncated) = fetch(&commits, votes, chunks, 1).unwrap();
    assert_eq!(output.commits.len(), 1);
    assert_eq!(output.commits[0].reference(), commits[0].reference());
    assert_eq!(output.committed_subdags.len(), 1);
    assert_eq!(output.committed_subdags[0].transactions.len(), 3);
    assert!(capped);
    assert!(truncated);
}

#[test]
fn rejects_range_exceeding_transaction_envelope() {
    let envelope = 4 * (AVG_TX_ROUNDS_PER_COMMIT + GC_DEPTH as usize);
    let over = envelope as u32 + 1;
    let refs: Vec<GenericTransactionRef> = (1..=over).map(transaction_ref).collect();
    let result = FastFetch::start(4, GC_DEPTH, 1, vec![commit(1, &refs)], vec![]);
    assert!(matches!(
        result,
        Err(ConsensusError::TooManyCommittedTransactionsInRange { peer: 1, count, limit })
            if count == over as usize && limit == envelope
    ));
}

#[test]
fn unrequested_transactions_are_rejected() {
    let (commits, _, votes) = chained_commits(&[1]);
    let payload = bcs::to_bytes(&vec![vec![77u8; 16]]).unwrap();
    let commitment = commitment_bytes(&payload);
    let stray = Arc::new(bcs::to_bytes(&(9u32, 0u8, commitment, payload)).unwrap());
    assert!(matches!(
        fetch(&commits, votes, vec![vec![stray]], 0),
        Err(ConsensusError::UnexpectedTransactionForCommit { peer: 1, .. })
    ));
}

#[test]
fn keeps_all_commits_when_all_transactions_fetched() {
    let (a, b, c) = (transaction_ref(1), transaction_ref(2), transaction_ref(3));
    let mut commits = vec![commit(1, &[a]), commit(2, &[b, c])];
    let mut transactions = fetched(&[a, b, c]);
    truncate_to_fully_fetched_prefix(1, &mut commits, &mut transactions).unwrap();
    assert_eq!(commits.len(), 2);
    assert_eq!(transactions.len(), 3);
}

#[test]
fn truncates_to_prefix_and_drops_unreferenced_transactions() {
    let (a, b, c, d) =
        (transaction_ref(1), transaction_ref(2), transaction_ref(3), transaction_ref(4));
    let first = commit(1, &[a]);
    let mut commits = vec![first.clone(), commit(2, &[b, c]), commit(3, &[d])];
    let mut transactions = fetched(&[a, c, d]);
    truncate_to_fully_fetched_prefix(1, &mut commits, &mut transactions).unwrap();
    assert_eq!(commits, vec![first]);
    let kept: Vec<GenericTransactionRef> = transactions.entries.iter().map(|e| e.0).collect();
    assert_eq!(kept, vec![a]);
}

#[test]
fn drops_unreferenced_transactions_where_no_commit_is_cut() {
    let (a, z) = (transaction_ref(1), transaction_ref(2));
    let whole = commit(1, &[a]);
    let mut commits = vec![whole.clone()];
    let mut transactions = fetched(&[a, z]);
    truncate_to_fully_fetched_prefix(1, &mut commits, &mut transactions).unwrap();
    assert_eq!(commits, vec![whole]);
    let kept: Vec<GenericTransactionRef> = transactions.entries.iter().map(|e| e.0).collect();
    assert_eq!(kept, vec![a]);
}

#[test]
fn errors_when_first_commit_transactions_missing() {
    let (a, b) = (transaction_ref(1), transaction_ref(2));
    let mut commits = vec![commit(1, &[a]), commit(2, &[b])];
    let mut transactions = fetched(&[b]);
    assert!(matches!(
        truncate_to_fully_fetched_prefix(1, &mut commits, &mut transactions),
        Err(ConsensusError::FetchedTransactionsMismatch { peer: 1, expected: 2, received: 1 })
    ));
}

#[test]
fn commit_without_transactions_counts_toward_prefix() {
    let a = transaction_ref(1);
    let empty = commit(1, &[]);
    let mut commits = vec![empty.clone(), commit(2, &[a])];
    let mut transactions = fetched(&[]);
    truncate_to_fully_fetched_prefix(1, &mut commits, &mut transactions).unwrap();
    assert_eq!(commits, vec![empty]);
    assert!(transactions.is_empty());
}

fn message(content: Commit, digest: Digest) -> CommitMessage {
    CommitMessage { serialized: Arc::new(vec![1]), digest, decoded: Ok(Arc::new(content)) }
}

fn vote(header: VerifiedBlockHeader) -> VoteMessage {
    VoteMessage { decoded: Ok(header), verdict: Ok(()) }
}

fn decode_error() -> bcs::Error {
    match bcs::from_bytes::<u64>(&[]) {
        Err(e) => e,
        Ok(_) => panic!("nothing holds no number"),
    }
}

#[test]
fn verify_commits_rejects_wrong_version() {
    let leader = BlockRef::new(0, 0, Digest::min());
    for (version, starfish_speed_on, expected) in [
        (CommitVersion::V1, false, "V1"),
        (CommitVersion::V1, true, "V1"),
        (CommitVersion::V2, true, "V2"),
        (CommitVersion::V3, false, "V3"),
    ] {
        let content = commit_content(version, 0, Digest::min(), leader, vec![]);
        let result = verify_commits(
            &committee(),
            starfish_speed_on,
            1,
            CommitRange::new(1, 1),
            vec![message(content, Digest::min())],
            vec![],
            10,
        );
        match result.unwrap_err().error {
            ConsensusError::WrongCommitVersionForFlags { actual, starfish_speed } => {
                assert_eq!(actual, expected);
                assert_eq!(starfish_speed, starfish_speed_on);
            }
            other => panic!("expected WrongCommitVersionForFlags, got {other:?}"),
        }
    }
}

#[test]
fn verify_commits_rejects_out_of_range_authority_index() {
    let leader = BlockRef::new(1, 4, Digest::min());
    let content = commit_content(CommitVersion::V2, 1, Digest::min(), leader, vec![]);
    let result = verify_commits(
        &committee(),
        false,
        1,
        CommitRange::new(1, 1),
        vec![message(content, commit_digest(1))],
        vec![],
        10,
    );
    assert!(matches!(
        result.unwrap_err().error,
        ConsensusError::InvalidAuthorityIndexRequested { index: 4, max: 4, peer: 1 }
    ));
}

#[test]
fn verify_commits_rejects_excessive_vote_headers_before_parsing() {
    let limit = 4 * MAX_COMMIT_VOTE_HEADERS_PER_AUTHORITY;
    assert!(matches!(
        check_response_sizes(&committee(), 1, 0, limit + 1, 10),
        Err(ConsensusError::TooManyCommitVoteHeaders { peer: 1, count, limit: l })
            if count == limit + 1 && l == limit
    ));
    let votes = (0..=limit)
        .map(|_| VoteMessage { decoded: Err(decode_error()), verdict: Ok(()) })
        .collect();
    let result =
        verify_commits(&committee(), false, 1, CommitRange::new(1, 1), vec![], votes, 10);
    assert!(matches!(
        result.unwrap_err().error,
        ConsensusError::TooManyCommitVoteHeaders { .. }
    ));
}

fn chain(n: u32) -> Vec<Commit> {
    (1..=n)
        .map(|i| {
            let previous = if i == 1 { Digest::min() } else { commit_digest(i - 1) };
            let leader = BlockRef::new(i, 0, Digest::min());
            commit_content(CommitVersion::V2, i, previous, leader, vec![])
        })
        .collect()
}

fn verify(contents: Vec<Commit>, votes: Vec<VoteMessage>, range: CommitRange) -> Result<(), String> {
    let messages = contents
        .into_iter()
        .map(|c| {
            let digest = commit_digest(c.index);
            message(c, digest)
        })
        .collect();
    match verify_commits(&committee(), false, 1, range, messages, votes, 10) {
        Ok(_) => Ok(()),
        Err(rejection) => Err(rejection.error.name().to_string()),
    }
}

#[test]
fn commits_have_to_be_chained_and_certified() {
    let last = CommitRef { index: 3, digest: commit_digest(3) };
    let votes = |n: u8| (0..n).map(|a| vote(header(5, a, vec![last]))).collect::<Vec<_>>();
    let range = CommitRange::new(1, 3);
    assert_eq!(verify(chain(3), votes(3), range), Ok(()));
    assert_eq!(verify(chain(3), votes(2), range), Err("NotEnoughCommitVotes".to_string()));
    assert_eq!(verify(vec![], votes(3), range), Err("NoCommitReceived".to_string()));
    let from_second = chain(3)[1..].iter().map(|c| c.index).count();
    assert_eq!(from_second, 2);
    let mut late = chain(3);
    late.remove(0);
    assert_eq!(verify(late, votes(3), range), Err("UnexpectedStartCommit".to_string()));
    let mut broken = chain(3);
    broken[1].previous_digest = Digest::max();
    assert_eq!(verify(broken, votes(3), range), Err("UnexpectedCommitSequence".to_string()));
    assert_eq!(
        verify(chain(11), vec![], CommitRange::new(1, 11)),
        Err("TooManyCommitsFromPeer".to_string())
    );
    let malformed = verify_commits(
        &committee(),
        false,
        1,
        range,
        vec![CommitMessage {
            serialized: Arc::new(vec![]),
            digest: Digest::min(),
            decoded: Err(decode_error()),
        }],
        vec![],
        10,
    );
    assert_eq!(malformed.unwrap_err().error.name(), "MalformedCommit");
}

#[test]
fn faulty_votes_are_put_on_record() {
    let last = CommitRef { index: 1, digest: commit_digest(1) };
    let run = |votes| {
        verify_commits(
            &committee(),
            false,
            1,
            CommitRange::new(1, 1),
            vec![message(chain(1).remove(0), commit_digest(1))],
            votes,
            10,
        )
    };
    let rejection = run(vec![VoteMessage {
        decoded: Ok(header(5, 2, vec![last])),
        verdict: Err(ConsensusError::UnexpectedGenesisHeader),
    }])
    .unwrap_err();
    assert_eq!(rejection.error.name(), "UnexpectedGenesisHeader");
    assert_eq!(rejection.faulty_header_author, Some(2));
    let rejection =
        run(vec![VoteMessage { decoded: Err(decode_error()), verdict: Ok(()) }]).unwrap_err();
    assert_eq!(rejection.error.name(), "MalformedHeader");
    assert_eq!(rejection.faulty_header_author, Some(1));
    let (commits, headers) =
        run((0..3).map(|a| vote(header(5, a, vec![last]))).collect()).unwrap();
    assert_eq!(commits.len(), 1);
    assert_eq!(headers.len(), 3);
}

fn verify_transactions(
    r: TransactionRef,
    payload: Vec<u8>,
    limit: usize,
) -> Result<usize, ConsensusError> {
    let mut map = SortedMap::new();
    map.insert(GenericTransactionRef::TransactionRef(r), Arc::new(payload));
    verify_transactions_with_transactions_refs(&committee(), 1, limit, &map, &commitment_of)
        .map(|m| m.len())
}

#[test]
fn verify_transactions_rejects_oversized_payload_before_encoding() {
    let limit = 1000;
    let r = TransactionRef { round: 1, author: 0, transactions_commitment: Digest::min() };
    assert!(matches!(
        verify_transactions(r, vec![0u8; limit + 1], limit),
        Err(ConsensusError::SerializedTransactionsTooLarge { size, limit: l })
            if size == limit + 1 && l == limit
    ));
}

#[test]
fn verify_transactions_rejects_out_of_range_author() {
    let payload = bcs::to_bytes(&Vec::<Vec<u8>>::new()).unwrap();
    let r = TransactionRef {
        round: 1,
        author: 4,
        transactions_commitment: digest_from_bytes(&commitment_bytes(&payload)),
    };
    assert!(matches!(
        verify_transactions(r, payload, NO_SIZE_LIMIT),
        Err(ConsensusError::InvalidAuthorityIndexRequested { index: 4, max: 4, peer: 1 })
    ));
}

#[test]
fn verify_transactions_rejects_genesis_round() {
    let payload = bcs::to_bytes(&Vec::<Vec<u8>>::new()).unwrap();
    let r = TransactionRef {
        round: GENESIS_ROUND,
        author: 0,
        transactions_commitment: digest_from_bytes(&commitment_bytes(&payload)),
    };
    assert!(matches!(
        verify_transactions(r, payload, NO_SIZE_LIMIT),
        Err(ConsensusError::UnexpectedGenesisRequested { peer: 1 })
    ));
}

#[test]
fn transactions_are_checked_against_their_commitment() {
    let payload = bcs::to_bytes(&vec![vec![1u8, 2], vec![3u8]]).unwrap();
    let good = digest_from_bytes(&commitment_bytes(&payload));
    let r = TransactionRef { round: 2, author: 3, transactions_commitment: good };
    assert_eq!(verify_transactions(r, payload.clone(), NO_SIZE_LIMIT).unwrap(), 1);
    let wrong = TransactionRef { transactions_commitment: Digest::max(), ..r };
    assert!(matches!(
        verify_transactions(wrong, payload.clone(), NO_SIZE_LIMIT),
        Err(ConsensusError::TransactionCommitmentFailure { round: 2, author: 3, peer: 1 })
    ));
    assert_eq!(decode_transactions(&payload).unwrap(), vec![vec![1u8, 2], vec![3u8]]);
    let garbage = vec![0xffu8; 9];
    let r = TransactionRef {
        transactions_commitment: digest_from_bytes(&commitment_bytes(&garbage)),
        ..r
    };
    assert!(matches!(
        verify_transactions(r, garbage, NO_SIZE_LIMIT),
        Err(ConsensusError::MalformedTransactions(_))
    ));
}

#[test]
fn messages_are_decoded() {
    let commitment = commitment_bytes(&[7]);
    let bytes = bcs::to_bytes(&(5u32, 2u8, commitment, vec![7u8])).unwrap();
    let m = SerializedTransactionsV2::from_bytes(&bytes).unwrap();
    assert_eq!(m.transaction_ref.round, 5);
    assert_eq!(m.transaction_ref.author, 2);
    assert_eq!(
        m.transaction_ref.transactions_commitment,
        Digest { hi: 1 << 120, lo: 7 }
    );
    assert_eq!(*m.serialized_transactions, vec![7u8]);
}

#[test]
fn fetched_headers_have_to_be_the_requested_ones() {
    let parse = |b: Bytes| Ok(header(b[0] as Round, b[1], vec![]));
    let refs = [header(3, 1, vec![]).reference, header(4, 2, vec![]).reference];
    let bytes = |list: &[(u8, u8)]| -> Vec<Bytes> {
        list.iter().map(|(r, a)| Arc::new(vec![*r, *a])).collect()
    };
    let ok = verify_fetched_headers(1, &refs, &bytes(&[(3, 1), (4, 2)]), &parse).unwrap();
    assert_eq!(ok.len(), 2);
    assert!(matches!(
        verify_fetched_headers(1, &refs, &bytes(&[(3, 1)]), &parse),
        Err(ConsensusError::UnexpectedNumberOfHeadersFetched {
            authority: 1,
            requested: 2,
            received_headers: 1
        })
    ));
    assert!(matches!(
        verify_fetched_headers(1, &refs, &bytes(&[(3, 1), (4, 3)]), &parse),
        Err(ConsensusError::UnexpectedBlockHeaderForCommit { peer: 1, .. })
    ));
}

fn parameters() -> SyncParameters {
    SyncParameters {
        commit_sync_batch_size: 5,
        fast_commit_sync_batch_size: 50,
        commit_sync_batches_ahead: 5,
        commit_sync_parallel_fetches: 5,
        commit_sync_gap_threshold: 100,
        enable_fast_commit_syncer: false,
        max_headers_per_commit_sync_fetch: 5,
        max_transactions_per_commit_sync_fetch: 5,
        fast_commit_sync_max_fetch_bytes: 0,
    }
}

#[test]
fn commit_syncer_start_and_pause_scheduling() {
    let mut syncer = RegularCommitSyncer::new(parameters(), 4, 0);
    assert!(syncer.state.pending_fetches.is_empty());
    assert!(syncer.state.fetched_ranges.is_empty());
    assert!(syncer.state.highest_scheduled_index.is_none());
    assert_eq!(syncer.state.highest_fetched_commit_index, 0);
    assert_eq!(syncer.state.synced_commit_index, 0);

    syncer.try_schedule_once(10, 0, 0, None, &mut PauseCounts::new());
    assert_eq!(syncer.state.pending_fetches.len(), 2);
    assert!(syncer.state.fetched_ranges.is_empty());
    assert_eq!(syncer.state.highest_scheduled_index, Some(10));
    assert_eq!(syncer.state.highest_fetched_commit_index, 0);
    assert_eq!(syncer.state.synced_commit_index, 0);

    syncer.try_schedule_once(35, 0, 0, None, &mut PauseCounts::new());
    assert_eq!(syncer.parameters.unhandled_commits_threshold(), 25);
    assert_eq!(syncer.state.highest_scheduled_index, Some(25));
    assert_eq!(syncer.state.pending_fetches.len(), 5);

    syncer.try_schedule_once(35, 0, 25, None, &mut PauseCounts::new());
    assert_eq!(syncer.state.highest_scheduled_index, Some(35));
    let pending = syncer.state.pending_fetches.to_vec();
    assert_eq!(pending.len(), 7);
    for (range, start) in pending.iter().zip((1..35).step_by(5)) {
        assert_eq!(range.start, start);
        assert_eq!(range.end, start + 4);
    }
}

#[test]
fn try_schedule_once_gated_by_fast_sync_active() {
    let run = |fast_sync_active: Option<bool>| {
        let mut pauses = PauseCounts::new();
        let mut syncer = RegularCommitSyncer::new(parameters(), 4, 0);
        syncer.try_schedule_once(10, 0, 0, fast_sync_active, &mut pauses);
        assert_eq!(pauses.get(FastSyncPauseSource::RegularStartFetches), 0);
        (
            syncer.state.pending_fetches.len(),
            pauses.get(FastSyncPauseSource::RegularSchedule),
        )
    };
    let (pending, paused) = run(None);
    assert!(pending > 0);
    assert_eq!(paused, 0);
    let (pending, paused) = run(Some(false));
    assert!(pending > 0);
    assert_eq!(paused, 0);
    assert_eq!(run(Some(true)), (0, 1));
    assert_eq!(FastSyncPauseSource::RegularSchedule.as_str(), "regular_schedule");
    assert_eq!(FastSyncPauseSource::HeaderScheduler.as_str(), "header_scheduler");
}

#[test]
fn pauses_are_counted_by_their_source() {
    let sources = [
        FastSyncPauseSource::RegularSchedule,
        FastSyncPauseSource::RegularStartFetches,
        FastSyncPauseSource::HeaderCommand,
        FastSyncPauseSource::HeaderScheduler,
    ];
    for source in sources {
        let mut pauses = PauseCounts::new();
        assert!(!paused_by_fast_sync(None, &mut pauses, source));
        assert!(!paused_by_fast_sync(Some(false), &mut pauses, source));
        assert_eq!(pauses.get(source), 0);
        for n in 1..=3 {
            assert!(paused_by_fast_sync(Some(true), &mut pauses, source));
            assert_eq!(pauses.get(source), n);
        }
        for other in sources {
            assert!(other == source || pauses.get(other) == 0);
        }
    }
    // A gap that is not for the regular synchronizer to close is no pause.
    let mut pauses = PauseCounts::new();
    let mut syncer = RegularCommitSyncer::new(parameters(), 4, 0);
    assert!(syncer.try_start_fetches(0, Some(true), &mut pauses).is_empty());
    assert_eq!(pauses.get(FastSyncPauseSource::RegularStartFetches), 1);
    syncer.parameters.enable_fast_commit_syncer = true;
    let gap = syncer.parameters.commit_sync_gap_threshold + 1;
    syncer.try_schedule_once(gap, 0, 0, Some(true), &mut pauses);
    assert_eq!(pauses.get(FastSyncPauseSource::RegularSchedule), 0);
}

fn certified(index: CommitIndex) -> CertifiedCommit {
    CertifiedCommit { commit: commit(index, &[]), block_headers: vec![], transactions: vec![] }
}

#[test]
fn fetched_ranges_are_dispatched_in_order() {
    let mut syncer = RegularCommitSyncer::new(parameters(), 4, 0);
    syncer.try_schedule_once(10, 0, 0, None, &mut PauseCounts::new());
    let started = syncer.try_start_fetches(0, None, &mut PauseCounts::new());
    assert!(!started.is_empty());
    assert_eq!(started[0], CommitRange::new(1, 5));
    // The second range comes first, and has to wait.
    syncer.handle_fetch_result(10, (6..=10).map(certified).collect(), 0);
    assert!(syncer.next_to_dispatch().is_none());
    // Of the first range two commits are missing, which are asked for again.
    syncer.handle_fetch_result(5, (1..=3).map(certified).collect(), 0);
    assert!(syncer.state.pending_fetches.contains(&CommitRange::new(4, 5)));
    let (range, commits) = syncer.next_to_dispatch().unwrap();
    assert_eq!(range, CommitRange::new(1, 3));
    assert_eq!(commits.len(), 3);
    syncer.dispatched(range);
    assert_eq!(syncer.state.synced_commit_index, 3);
    assert!(syncer.next_to_dispatch().is_none());
    syncer.handle_fetch_result(5, (4..=5).map(certified).collect(), 3);
    let (range, _) = syncer.next_to_dispatch().unwrap();
    assert_eq!(range, CommitRange::new(4, 5));
    syncer.dispatched(range);
    let (range, _) = syncer.next_to_dispatch().unwrap();
    assert_eq!(range, CommitRange::new(6, 10));
}

#[test]
fn partial_ranges_are_requeued() {
    let mut pending = SortedSet::new();
    requeue_partial_range(&mut pending, 7, 10);
    assert_eq!(pending.to_vec(), vec![CommitRange::new(8, 10)]);
    requeue_partial_range(&mut pending, 10, 10);
    assert_eq!(pending.len(), 1);
    let started = try_start_fetches(&parameters(), 4, &mut pending, 0, 0);
    assert_eq!(started, vec![CommitRange::new(8, 10)]);
    assert!(pending.is_empty());
}

#[test]
fn small_gaps_are_left_to_regular_synchronization() {
    assert_eq!(CommitSyncType::Regular.as_str(), "commit_sync");
    assert_eq!(CommitSyncType::Fast.as_str(), "fast_commit_sync");
    for gap in [1, 100, 101, 1000] {
        let regular = CommitSyncType::Regular.should_schedule(gap, 100, true);
        let fast = CommitSyncType::Fast.should_schedule(gap, 100, true);
        assert!(regular != fast);
        assert!(CommitSyncType::Regular.should_schedule(gap, 100, false));
        assert!(!CommitSyncType::Fast.should_schedule(gap, 100, false));
    }
    let p = parameters();
    assert_eq!(CommitSyncType::Regular.commit_sync_batch_size(&p), 5);
    assert_eq!(CommitSyncType::Fast.commit_sync_batch_size(&p), 50);
    assert_eq!(CommitSyncType::Fast.max_commits_per_response(&p), 100);
}

#[test]
fn fast_session_ends_when_all_is_dispatched() {
    let mut p = parameters();
    p.enable_fast_commit_syncer = true;
    p.commit_sync_batches_ahead = 100;
    let mut syncer = FastCommitSyncer::new(p, 4, 0);
    syncer.try_schedule_once(200, 0, 0);
    assert!(syncer.is_active(0));
    assert!(!syncer.state.pending_fetches.is_empty());
    assert!(!syncer.is_ready_to_finish(0));
    assert!(FastSyncOutput::default().commits.is_empty());
}

#[test]
fn peers_are_tried_in_turn() {
    let mut fetch = FetchLoop::new(4, 1, 100, 2);
    let mut asked = vec![];
    for _ in 0..3 {
        match fetch.next_step() {
            FetchStep::Ask { authority, .. } => asked.push(authority),
            other => panic!("a peer was expected, got {other:?}"),
        }
    }
    asked.sort();
    assert_eq!(asked, vec![0, 2, 3]);
    assert!(matches!(fetch.next_step(), FetchStep::Wait { .. }));
    assert!(matches!(fetch.next_step(), FetchStep::Ask { .. }));
}

#[test]
fn peers_come_in_random_order() {
    let order = || -> Vec<AuthorityIndex> {
        let mut fetch = FetchLoop::new(20, 0, 100, 2);
        (0..19)
            .map(|_| match fetch.next_step() {
                FetchStep::Ask { authority, .. } => authority,
                other => panic!("a peer was expected, got {other:?}"),
            })
            .collect()
    };
    let first = order();
    assert!((0..20).any(|_| order() != first));
}

#[test]
fn refs_are_cut_into_chunks() {
    assert_eq!(chunks(&vec![1u8, 2, 3, 4, 5], 2), vec![vec![1, 2], vec![3, 4], vec![5]]);
    assert!(chunks(&Vec::<u8>::new(), 3).is_empty());
    let refs: Vec<GenericTransactionRef> = (1..=7).map(transaction_ref).collect();
    let commits = vec![commit(1, &refs)];
    let requests = plan_transactions_requests(&commits, &parameters(), 1000);
    let sizes: Vec<usize> = requests.iter().map(|r| r.refs.len()).collect();
    assert_eq!(sizes, vec![5, 2]);
    // Two requests share the time, and those for transactions run half a pause
    // behind those for headers.
    assert_eq!(requests[0].delay_nanos, 250);
    assert_eq!(requests[1].delay_nanos, 750);
    let requests = plan_header_requests(&commits, &parameters(), 1000);
    assert_eq!(requests.len(), 1);
    assert_eq!(requests[0].delay_nanos, 0);
}

#[test]
fn certified_commits_are_put_together() {
    let h = header(1, 0, vec![]);
    let a = GenericTransactionRef::TransactionRef(TransactionRef::new(h.reference, Digest::min()));
    let content = Commit {
        block_headers: vec![h.reference],
        ..commit_content(CommitVersion::V2, 1, Digest::min(), h.reference, vec![a])
    };
    let commits = vec![Arc::new(CertifiedContent {
        commit: Arc::new(content),
        digest: commit_digest(1),
        serialized: Arc::new(vec![]),
    })];
    let mut headers = SortedMap::new();
    headers.insert(h.reference, h.clone());
    let transactions = Arc::new(BlockTransactions {
        transactions: vec![],
        transaction_ref: TransactionRef::new(h.reference, Digest::min()),
        block_digest: Some(h.reference.digest),
        serialized: Arc::new(vec![]),
    });
    let mut map = SortedMap::new();
    map.insert(a, transactions);
    let certified = assemble_certified_commits(&commits, headers, map);
    assert_eq!(certified.len(), 1);
    assert_eq!(certified[0].block_headers, vec![h]);
    assert_eq!(certified[0].transactions.len(), 1);
    assert!(missing_transactions(&certified).is_empty());
    let bare = vec![CertifiedCommit {
        commit: commits[0].clone(),
        block_headers: vec![],
        transactions: vec![],
    }];
    assert_eq!(missing_transactions(&bare), vec![a]);
}

#[test]
fn stray_transactions_are_noticed() {
    let payload = bcs::to_bytes(&vec![vec![1u8]]).unwrap();
    let commitment = commitment_bytes(&payload);
    let bytes = Arc::new(bcs::to_bytes(&(3u32, 1u8, commitment, payload)).unwrap());
    let r = GenericTransactionRef::TransactionRef(TransactionRef {
        round: 3,
        author: 1,
        transactions_commitment: digest_from_bytes(&commitment),
    });
    let found = check_fetched_transactions(1, &vec![r], &vec![bytes.clone()]).unwrap();
    assert_eq!(found.len(), 1);
    assert!(check_fetched_transactions(1, &vec![transaction_ref(1)], &vec![bytes]).is_err());
}

#[test]
fn headers_are_refetched_from_one_peer_after_another() {
    let refs: Vec<BlockRef> = (1..=3).map(|r| header(r, 0, vec![]).reference).collect();
    let mut refetch = HeaderRefetch::start(&refs, 2, 4, 0);
    let first = match refetch.next_step() {
        RefetchStep::Ask { authority, refs } => {
            assert_eq!(refs.len(), 2);
            authority
        }
        other => panic!("a peer was expected, got {other:?}"),
    };
    refetch.on_reply(Err(ConsensusError::Shutdown));
    match refetch.next_step() {
        RefetchStep::Ask { authority, .. } => assert!(authority != first),
        other => panic!("a peer was expected, got {other:?}"),
    }
    refetch.on_reply(Ok(vec![header(1, 0, vec![]), header(2, 0, vec![])]));
    refetch.on_reply(Ok(vec![header(3, 0, vec![])]));
    assert!(matches!(refetch.next_step(), RefetchStep::Done));
    let found: Vec<BlockRef> = refetch.headers.iter().map(|h| h.reference).collect();
    assert_eq!(found, refs);
    let mut failing = HeaderRefetch::start(&refs, 10, 4, 0);
    for _ in 0..3 {
        assert!(matches!(failing.next_step(), RefetchStep::Ask { .. }));
        failing.on_reply(Err(ConsensusError::Shutdown));
    }
    assert!(matches!(
        failing.next_step(),
        RefetchStep::Failed(ConsensusError::FailedToFetchBlockHeaders { num_requested: 3 })
    ));
}

#[test]
fn transport_errors_end_a_stream_softly() {
    assert!(is_soft_stream_error(&ConsensusError::NetworkRequest("cut".to_string())));
    assert!(!is_soft_stream_error(&ConsensusError::Shutdown));
    assert!(commits_for_reinitialization(100, 90, 20, 5, 10) > 0);
}

#[test]
fn scheduling_twice_changes_nothing() {
    let mut syncer = RegularCommitSyncer::new(parameters(), 4, 0);
    syncer.try_schedule_once(13, 0, 0, None, &mut PauseCounts::new());
    let pending = syncer.state.pending_fetches.to_vec();
    assert_eq!(pending, vec![CommitRange::new(1, 5), CommitRange::new(6, 10)]);
    syncer.try_schedule_once(13, 0, 0, None, &mut PauseCounts::new());
    assert_eq!(syncer.state.pending_fetches.to_vec(), pending);
}

#[test]
fn synced_index_never_falls() {
    let mut syncer = RegularCommitSyncer::new(parameters(), 4, 8);
    syncer.try_schedule_once(20, 9, 20, None, &mut PauseCounts::new());
    assert_eq!(syncer.state.synced_commit_index, 9);
    syncer.try_schedule_once(20, 3, 20, None, &mut PauseCounts::new());
    assert_eq!(syncer.state.synced_commit_index, 9);
}

#[test]
fn fast_session_runs_to_its_end() {
    let mut p = parameters();
    p.enable_fast_commit_syncer = true;
    p.fast_commit_sync_batch_size = 2;
    p.commit_sync_gap_threshold = 1;
    let mut syncer = FastCommitSyncer::new(p, 4, 0);
    syncer.try_schedule_once(2, 0, 0);
    assert_eq!(syncer.state.pending_fetches.to_vec(), vec![CommitRange::new(1, 2)]);
    assert_eq!(syncer.try_start_fetches(0), vec![CommitRange::new(1, 2)]);
    let (commits, elements, votes) = chained_commits(&[1, 1]);
    let (output, _, _) = fetch(&commits, votes, elements, 0).unwrap();
    syncer.handle_fetch_result(2, output, 0);
    let (range, output) = syncer.next_to_dispatch().unwrap();
    assert_eq!(output.commits.len(), 2);
    syncer.dispatched(range);
    // The quorum is reached: the session ends.
    syncer.try_schedule_once(2, 2, 2);
    assert!(syncer.is_ready_to_finish(0));
    assert!(syncer.is_active(0));
    syncer.finish(2);
    assert!(!syncer.is_active(0));
    assert!(!syncer.is_ready_to_finish(0));
    assert_eq!(syncer.state.synced_commit_index, 2);
}

#[test]
fn too_many_transactions_are_rejected() {
    let bytes: Bytes = Arc::new(vec![]);
    assert!(matches!(
        check_fetched_transactions(3, &vec![transaction_ref(1)], &vec![bytes.clone(), bytes]),
        Err(ConsensusError::TooManyFetchedTransactionsReturned(3))
    ));
}

#[test]
fn references_by_header_are_no_transaction_references() {
    let r = BlockRef::new(1, 0, Digest::min());
    assert!(matches!(
        GenericTransactionRef::BlockRef(r).expect_transaction_ref(),
        Err(ConsensusError::TransactionRefVariantMismatch { .. })
    ));
    assert!(transaction_ref(4).expect_transaction_ref().is_ok());
}
