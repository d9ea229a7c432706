//! Fetching missing headers: locks, plans, checks and retries.
use std::cell::Cell;
use std::collections::BTreeSet;
use std::sync::Arc;

use starfish_core::commit_syncer::fast::{FastSyncPauseSource, PauseCounts};
use starfish_core::committee::Committee;
use starfish_core::error::ConsensusError;
use starfish_core::header::{BlockHeader, Bytes, VerifiedBlockHeader};
use starfish_core::header_synchronizer::commands::{
    kick_off, next_attempt, on_failed_fetch, on_fetch_command, on_send_outcome, on_tick,
    CommandStep, SendOutcome, FETCH_BLOCK_HEADERS_CONCURRENCY,
    PERIODIC_SYNCHRONIZER_TIMEOUT_NANOS,
};
use starfish_core::header_synchronizer::inflight::{
    BlocksGuard, InflightBlockHeadersMap, SyncMethod,
};
use starfish_core::header_synchronizer::own::{process_own_headers, OwnHeaderSync};
use starfish_core::header_synchronizer::periodic::{
    headers_by_authority, headers_to_fetch, is_commit_lagging, lock_requests, on_failed_request,
    plan_periodic_sync, plan_requests, unchosen, MissingHeaders, RequestLabel,
};
use starfish_core::header_synchronizer::recent::VerifiedHeaders;
use starfish_core::header_synchronizer::verify::{
    drop_far_future, process_fetched_headers, verify_block_headers, FollowUp, HeaderCheck,
};
use starfish_core::refs::{AuthorityIndex, BlockRef, Digest, Round, GENESIS_ROUND};
use starfish_core::sorted::{SortedMap, SortedSet};

fn block_ref(round: Round, author: AuthorityIndex) -> BlockRef {
    BlockRef::new(round, author, Digest::min())
}

fn set_of(refs: &[BlockRef]) -> SortedSet<BlockRef> {
    SortedSet::from_vec(&refs.to_vec())
}

fn unlock(map: &mut InflightBlockHeadersMap, guard: BlocksGuard) {
    map.unlock_headers(&guard.block_refs, guard.peer);
}

fn header(round: Round, author: AuthorityIndex) -> VerifiedBlockHeader {
    Arc::new(BlockHeader {
        reference: BlockRef {
            round,
            author,
            digest: Digest { hi: round as u128, lo: author as u128 },
        },
        timestamp_ms: 0,
        ancestors: vec![],
        acknowledgments: vec![],
        commit_votes: vec![],
        transactions_commitment: Digest::min(),
        serialized: Arc::new(vec![round as u8, author]),
    })
}

fn digest_of(bytes: Bytes) -> Digest {
    Digest { hi: bytes[0] as u128, lo: bytes[1] as u128 }
}

/// Two bytes are a header, of a round and an author; an author of 200 or more is
/// not in the committee.
fn check(bytes: Bytes) -> HeaderCheck {
    if bytes.len() != 2 {
        let error = match bcs::from_bytes::<u64>(&[]) {
            Err(e) => e,
            Ok(_) => panic!("nothing holds no number"),
        };
        return HeaderCheck::Malformed(ConsensusError::MalformedHeader(error));
    }
    if bytes[1] >= 200 {
        return HeaderCheck::Invalid {
            author: bytes[1],
            error: ConsensusError::InvalidAuthorityIndex { index: bytes[1], max: 4 },
        };
    }
    HeaderCheck::Valid(header(bytes[0] as Round, bytes[1]))
}

#[test]
fn test_inflight_blocks_map() {
    let mut map = InflightBlockHeadersMap::new();
    let some_block_refs = [block_ref(1, 0), block_ref(10, 0), block_ref(12, 3), block_ref(15, 2)];
    let missing = set_of(&some_block_refs);
    {
        let mut all_guards = Vec::new();
        for authority in 1..=3 {
            let guard = map
                .lock_headers(&missing, authority, SyncMethod::Periodic)
                .expect("Guard should be created");
            assert_eq!(guard.block_refs.len(), 4);
            all_guards.push(guard);
            assert!(map.lock_headers(&missing, authority, SyncMethod::Periodic).is_none());
        }
        assert!(map.lock_headers(&missing, 4, SyncMethod::Periodic).is_none());
        unlock(&mut map, all_guards.remove(0));
        let guard = map
            .lock_headers(&missing, 4, SyncMethod::Periodic)
            .expect("Guard should be successfully acquired");
        assert_eq!(guard.block_refs.to_vec(), missing.to_vec());
        unlock(&mut map, guard);
        for guard in all_guards {
            unlock(&mut map, guard);
        }
        assert_eq!(map.num_of_locked_headers(), 0);
    }
    {
        let guard = map.lock_headers(&missing, 1, SyncMethod::Periodic).unwrap();
        let guard = map.swap_locks(guard, 2).expect("Guard should be created");
        assert_eq!(guard.block_refs.to_vec(), missing.to_vec());
        let guard = map
            .lock_headers(&missing, 3, SyncMethod::Periodic)
            .expect("Guard should be created");
        assert_eq!(guard.block_refs.len(), 4);
        let guard = map
            .lock_headers(&missing, 4, SyncMethod::Periodic)
            .expect("Guard should be created");
        assert_eq!(guard.block_refs.len(), 4);
        assert!(map.lock_headers(&missing, 5, SyncMethod::Periodic).is_none());
    }
}

#[test]
fn test_inflight_blocks_map_with_sync_methods() {
    let mut map = InflightBlockHeadersMap::new();
    let missing = set_of(&[block_ref(1, 0), block_ref(10, 0)]);
    // Live: one authority.
    {
        let guard_1 = map
            .lock_headers(&missing, 1, SyncMethod::Live)
            .expect("Should successfully lock with Live sync");
        assert_eq!(guard_1.block_refs.len(), 2);
        assert!(
            map.lock_headers(&missing, 2, SyncMethod::Live).is_none(),
            "Should fail to lock - Live limit of 1 reached"
        );
        unlock(&mut map, guard_1);
        let guard_2 = map
            .lock_headers(&missing, 2, SyncMethod::Live)
            .expect("Should successfully lock after authority 1 released");
        assert_eq!(guard_2.block_refs.len(), 2);
        unlock(&mut map, guard_2);
    }
    // Periodic: three authorities.
    {
        let guard_1 = map
            .lock_headers(&missing, 1, SyncMethod::Periodic)
            .expect("Should successfully lock with Periodic sync");
        assert_eq!(guard_1.block_refs.len(), 2);
        let guard_2 = map
            .lock_headers(&missing, 2, SyncMethod::Periodic)
            .expect("Should successfully lock - Periodic allows 3 authorities");
        assert_eq!(guard_2.block_refs.len(), 2);
        let guard_3 = map
            .lock_headers(&missing, 3, SyncMethod::Periodic)
            .expect("Should successfully lock - Periodic allows 3 authorities");
        assert_eq!(guard_3.block_refs.len(), 2);
        assert!(
            map.lock_headers(&missing, 4, SyncMethod::Periodic).is_none(),
            "Should fail to lock - Periodic limit of 3 reached"
        );
        unlock(&mut map, guard_1);
        unlock(&mut map, guard_2);
        unlock(&mut map, guard_3);
    }
    // Periodic keeps Live out.
    {
        let guard_1 = map
            .lock_headers(&missing, 1, SyncMethod::Periodic)
            .expect("Should successfully lock with Periodic sync");
        assert_eq!(guard_1.block_refs.len(), 2);
        assert!(
            map.lock_headers(&missing, 2, SyncMethod::Live).is_none(),
            "Should fail to lock with Live - total already at Live limit of 1"
        );
        let guard_2 = map
            .lock_headers(&missing, 2, SyncMethod::Periodic)
            .expect("Should successfully lock with Periodic - under Periodic limit of 3");
        assert_eq!(guard_2.block_refs.len(), 2);
        unlock(&mut map, guard_1);
        unlock(&mut map, guard_2);
    }
    // Live, then Periodic.
    {
        let guard_1 = map
            .lock_headers(&missing, 1, SyncMethod::Live)
            .expect("Should successfully lock with Live sync");
        assert_eq!(guard_1.block_refs.len(), 2);
        assert!(
            map.lock_headers(&missing, 2, SyncMethod::Live).is_none(),
            "Should fail to lock with Live - would exceed Live limit of 1"
        );
        let guard_2 = map
            .lock_headers(&missing, 2, SyncMethod::Periodic)
            .expect("Should successfully lock with Periodic - total 2 is under Periodic limit");
        assert_eq!(guard_2.block_refs.len(), 2);
        let guard_3 = map
            .lock_headers(&missing, 3, SyncMethod::Periodic)
            .expect("Should successfully lock with Periodic - total 3 reaches Periodic limit");
        assert_eq!(guard_3.block_refs.len(), 2);
        assert!(
            map.lock_headers(&missing, 4, SyncMethod::Periodic).is_none(),
            "Should fail to lock with Periodic - would exceed Periodic limit of 3"
        );
        unlock(&mut map, guard_1);
        unlock(&mut map, guard_2);
        unlock(&mut map, guard_3);
    }
    // Some of the headers only.
    {
        let a = set_of(&[block_ref(1, 0)]);
        let b = set_of(&[block_ref(2, 0)]);
        let guard_a = map.lock_headers(&a, 1, SyncMethod::Live).expect("Should lock block A");
        assert_eq!(guard_a.block_refs.len(), 1);
        let guard_b1 = map
            .lock_headers(&b, 1, SyncMethod::Periodic)
            .expect("Should lock block B with authority 1");
        assert_eq!(guard_b1.block_refs.len(), 1);
        let guard_b2 = map
            .lock_headers(&b, 2, SyncMethod::Periodic)
            .expect("Should lock block B with authority 2");
        assert_eq!(guard_b2.block_refs.len(), 1);
        let guard_b3 = map
            .lock_headers(&b, 3, SyncMethod::Periodic)
            .expect("Should lock block B with authority 3");
        assert_eq!(guard_b3.block_refs.len(), 1);
        assert!(map.lock_headers(&a, 2, SyncMethod::Live).is_none());
        assert!(map.lock_headers(&b, 4, SyncMethod::Periodic).is_none());
        for guard in [guard_a, guard_b1, guard_b2, guard_b3] {
            unlock(&mut map, guard);
        }
        assert_eq!(map.num_of_locked_headers(), 0);
    }
}

#[test]
fn methods_have_names() {
    assert_eq!(SyncMethod::Live.as_str(), "live");
    assert_eq!(SyncMethod::Periodic.as_str(), "periodic");
    assert_eq!(SyncMethod::Live.max_authorities_to_fetch_per_block_header(), 1);
    assert_eq!(SyncMethod::Periodic.max_authorities_to_fetch_per_block_header(), 3);
}

#[test]
fn successful_fetch_blocks_from_peer() {
    let mut pauses = PauseCounts::new();
    let mut map = InflightBlockHeadersMap::new();
    let refs: Vec<BlockRef> = (0..10).map(|r| header(r, 0).reference).collect();
    let missing = set_of(&refs);
    let guard = match on_fetch_command(&mut map, 0, 1000, &missing, 1, None, &mut pauses) {
        CommandStep::Send(guard) => guard,
        other => panic!("a request was expected, got {other:?}"),
    };
    assert_eq!(guard.peer, 1);
    assert_eq!(guard.block_refs.to_vec(), refs);
    assert!(on_send_outcome(&mut map, SendOutcome::Sent).is_ok());
    assert_eq!(map.num_of_locked_headers(), 10);
    unlock(&mut map, guard);
    // No more is asked for than may be, the first ones first.
    match on_fetch_command(&mut map, 0, 4, &missing, 1, Some(false), &mut pauses) {
        CommandStep::Send(guard) => assert_eq!(guard.block_refs.to_vec(), refs[..4].to_vec()),
        other => panic!("a request was expected, got {other:?}"),
    }
}

#[test]
fn saturate_fetch_block_headers_from_peer() {
    let mut pauses = PauseCounts::new();
    let mut map = InflightBlockHeadersMap::new();
    let peer = 1;
    // As many requests as may be under way, as many as may wait, and one more.
    let capacity = 2 * FETCH_BLOCK_HEADERS_CONCURRENCY;
    for round in 0..=capacity {
        let missing = set_of(&[header(round as Round, 0).reference]);
        let guard = match on_fetch_command(&mut map, 0, 1000, &missing, peer, None, &mut pauses) {
            CommandStep::Send(guard) => guard,
            other => panic!("a request was expected, got {other:?}"),
        };
        if round < capacity {
            assert!(on_send_outcome(&mut map, SendOutcome::Sent).is_ok());
        } else {
            match on_send_outcome(&mut map, SendOutcome::Full(guard)) {
                Err(ConsensusError::SynchronizerSaturated(index)) => assert_eq!(index, peer),
                _ => panic!("A saturated synchronizer error was expected"),
            }
        }
    }
    assert_eq!(map.num_of_locked_headers(), capacity);
    let missing = set_of(&[header(99, 0).reference]);
    let guard = map.lock_headers(&missing, peer, SyncMethod::Live).unwrap();
    assert!(matches!(
        on_send_outcome(&mut map, SendOutcome::Closed(guard)),
        Err(ConsensusError::Shutdown)
    ));
    assert_eq!(map.num_of_locked_headers(), capacity);
}

#[test]
fn some_requests_fetch_nothing() {
    let mut pauses = PauseCounts::new();
    let mut map = InflightBlockHeadersMap::new();
    let missing = set_of(&[block_ref(1, 0)]);
    assert!(matches!(
        on_fetch_command(&mut map, 2, 10, &missing, 2, Some(true), &mut pauses),
        CommandStep::Ignore
    ));
    assert!(matches!(
        on_fetch_command(&mut map, 2, 10, &missing, 1, Some(true), &mut pauses),
        CommandStep::Done
    ));
    assert_eq!(map.num_of_locked_headers(), 0);
    assert_eq!(pauses.get(FastSyncPauseSource::HeaderCommand), 1);
    map.lock_headers(&missing, 3, SyncMethod::Live);
    assert!(matches!(
        on_fetch_command(&mut map, 2, 10, &missing, 1, Some(false), &mut pauses),
        CommandStep::Done
    ));
}

#[test]
fn fetches_are_tried_three_times() {
    assert_eq!(next_attempt(1), Some(2));
    assert_eq!(next_attempt(2), Some(3));
    assert_eq!(next_attempt(3), None);
    let mut map = InflightBlockHeadersMap::new();
    let missing = set_of(&[block_ref(1, 0)]);
    let guard = map.lock_headers(&missing, 1, SyncMethod::Live).unwrap();
    let (guard, attempts) = on_failed_fetch(&mut map, guard, 1).unwrap();
    let (guard, attempts) = on_failed_fetch(&mut map, guard, attempts).unwrap();
    assert_eq!(map.num_of_locked_headers(), 1);
    assert!(on_failed_fetch(&mut map, guard, attempts).is_none());
    assert_eq!(map.num_of_locked_headers(), 0);
}

#[test]
fn scheduler_is_never_put_off() {
    let mut pauses = PauseCounts::new();
    let half = PERIODIC_SYNCHRONIZER_TIMEOUT_NANOS / 2;
    assert_eq!(half, 100_000_000);
    assert_eq!(kick_off(false, 1), Some(0));
    assert_eq!(kick_off(false, 0), None);
    assert_eq!(kick_off(true, half + 1), Some(half));
    assert_eq!(kick_off(true, half), None);
    assert!(on_tick(None, &mut pauses, false));
    assert!(on_tick(Some(false), &mut pauses, false));
    assert!(!on_tick(Some(true), &mut pauses, false));
    assert!(!on_tick(None, &mut pauses, true));
    assert_eq!(pauses.get(FastSyncPauseSource::HeaderScheduler), 1);
    assert_eq!(pauses.get(FastSyncPauseSource::HeaderCommand), 0);
}

fn missing_of(entries: &[(BlockRef, &[AuthorityIndex])]) -> MissingHeaders {
    let mut missing = SortedMap::new();
    for (r, authorities) in entries {
        missing.insert(*r, SortedSet::from_vec(&authorities.to_vec()));
    }
    missing
}

#[test]
fn synchronizer_periodic_task_when_commit_lagging_with_missing_blocks_in_acceptable_thresholds() {
    let batch: u32 = 100;
    let multiplier: u32 = 5;
    // The quorum is far ahead; the highest accepted round is 0.
    assert!(is_commit_lagging(0, batch * multiplier * 2 - 1, batch, multiplier));
    let mut missing = SortedMap::new();
    for round in 1..=2 * batch {
        for author in 1..=3 {
            missing.insert(
                header(round, author).reference,
                SortedSet::from_vec(&vec![author]),
            );
        }
    }
    let kept = headers_to_fetch(missing, true, 0, batch).unwrap();
    assert_eq!(kept.len(), 3 * batch as usize);
    assert!(kept.entries.iter().all(|(r, _)| r.round <= batch));
}

#[test]
fn synchronizer_periodic_task_when_commit_lagging_gets_disabled() {
    let batch: u32 = 100;
    let multiplier: u32 = 5;
    let quorum = batch * multiplier * 2 - 1;
    let missing = || {
        let mut missing = SortedMap::new();
        for round in 2 * batch..2 * batch + 20 {
            missing.insert(header(round, 0).reference, SortedSet::from_vec(&vec![0]));
        }
        missing
    };
    assert!(is_commit_lagging(0, quorum, batch, multiplier));
    assert!(headers_to_fetch(missing(), true, 0, batch).is_none());
    // Once the commits have caught up, all of them are fetched.
    assert!(!is_commit_lagging(quorum, quorum, batch, multiplier));
    assert_eq!(headers_to_fetch(missing(), false, 0, batch).unwrap().len(), 20);
    assert!(headers_to_fetch(SortedMap::new(), false, 0, batch).is_none());
    // The threshold itself is not lagging.
    assert!(!is_commit_lagging(7, 7 + batch * multiplier, batch, multiplier));
    assert!(is_commit_lagging(7, 8 + batch * multiplier, batch, multiplier));
}

#[test]
fn known_before_random_peer_fetch() {
    let own = 0;
    let missing_ref = header(100, 3).reference;
    let missing = missing_of(&[(missing_ref, &[2, 3, 5])]);
    let known = headers_by_authority(&missing, own);
    let knowers: Vec<AuthorityIndex> = known.entries.iter().map(|e| e.0).collect();
    assert_eq!(knowers, vec![2, 3, 5]);
    // Two peers that have it, and the first two of the others, of which only one
    // gets a chunk.
    let known_peers = vec![2, 3];
    let random_peers = unchosen(10, own, &known_peers)[..2].to_vec();
    assert_eq!(random_peers, vec![1, 4]);
    let requests =
        plan_requests(&missing, own, &known_peers, &random_peers, &vec![missing_ref], 1000);
    let peers: Vec<AuthorityIndex> = requests.iter().map(|r| r.peer).collect();
    assert_eq!(peers, vec![2, 3, 1]);
    let labels: Vec<&str> = requests.iter().map(|r| r.label.as_str()).collect();
    assert_eq!(labels, vec!["periodic_known", "periodic_known", "periodic_random"]);
    for r in &requests {
        assert_eq!(r.block_refs, vec![missing_ref]);
    }
    let mut map = InflightBlockHeadersMap::new();
    assert_eq!(lock_requests(&mut map, &requests).len(), 3);
}

#[test]
fn known_before_periodic_peer_fetch_larger_scenario() {
    let own = 0;
    let max = 100;
    let known_number = 10;
    let mut missing = SortedMap::new();
    let mut all = vec![];
    for i in 0..1000u32 {
        let r = header(1000 + i, 0).reference;
        let authorities: Vec<AuthorityIndex> = if i < known_number {
            vec![0, 2]
        } else if i < 2 * known_number {
            vec![0, 3]
        } else {
            vec![0]
        };
        missing.insert(r, SortedSet::from_vec(&authorities));
        all.push(r);
    }
    let known_peers = vec![2, 3];
    let random_peers = unchosen(10, own, &known_peers)[..2].to_vec();
    let requests = plan_requests(&missing, own, &known_peers, &random_peers, &all, max);
    assert_eq!(requests.len(), 4, "Expected 2 known + 2 random fetches");
    let chosen: Vec<AuthorityIndex> = requests.iter().map(|r| r.peer).collect();
    assert_eq!(chosen, vec![2, 3, 1, 4]);
    assert_eq!(requests[0].block_refs, all[..10].to_vec());
    assert_eq!(requests[1].block_refs, all[10..20].to_vec());
    assert_eq!(requests[2].block_refs, all[..max].to_vec());
    assert_eq!(requests[3].block_refs, all[max..2 * max].to_vec());
    // Peer 2 does not answer: peer 5, the first of the rest, is asked instead.
    let mut map = InflightBlockHeadersMap::new();
    let mut guards = lock_requests(&mut map, &requests);
    assert_eq!(guards.len(), 4);
    let mut remaining = unchosen(10, own, &chosen);
    assert_eq!(remaining, vec![5, 6, 7, 8, 9]);
    let again = on_failed_request(&mut map, &mut remaining, guards.remove(0)).unwrap();
    assert_eq!(again.peer, 5);
    assert_eq!(again.block_refs.to_vec(), all[..10].to_vec());
    assert_eq!(remaining, vec![6, 7, 8, 9]);
    // With nobody left the headers are unlocked.
    let mut nobody = vec![];
    let before = map.num_of_locked_headers();
    assert!(on_failed_request(&mut map, &mut nobody, again).is_none());
    assert_eq!(map.num_of_locked_headers(), before);
    for guard in guards {
        assert!(on_failed_request(&mut map, &mut nobody, guard).is_none());
    }
    assert_eq!(map.num_of_locked_headers(), 0);
}

#[test]
fn random_plans_ask_no_peer_twice() {
    let mut missing = SortedMap::new();
    for round in 1..=50 {
        missing.insert(
            header(round, 1).reference,
            SortedSet::from_vec(&vec![0, 1, 2, 3, 4]),
        );
    }
    let mut orders = BTreeSet::new();
    for _ in 0..50 {
        let plan = plan_periodic_sync(&missing, 10, 0, 20);
        assert_eq!(plan.requests.len(), 4);
        let peers: BTreeSet<AuthorityIndex> = plan.requests.iter().map(|r| r.peer).collect();
        assert_eq!(peers.len(), 4);
        assert!(!peers.contains(&0));
        for r in &plan.requests[..2] {
            assert_eq!(r.label, RequestLabel::PeriodicKnown);
            assert!((1..=4).contains(&r.peer));
            assert_eq!(r.block_refs.len(), 20);
        }
        // The other two get different chunks of all.
        let chunks: BTreeSet<BlockRef> =
            plan.requests[2..].iter().flat_map(|r| r.block_refs.clone()).collect();
        assert_eq!(chunks.len(), 40);
        let rest: BTreeSet<AuthorityIndex> = plan.remaining_peers.iter().cloned().collect();
        assert_eq!(rest.len(), 5);
        assert!(rest.is_disjoint(&peers) && !rest.contains(&0));
        orders.insert(plan.requests.iter().map(|r| r.peer).collect::<Vec<_>>());
    }
    assert!(orders.len() > 1);
}

#[test]
fn test_process_fetched_blocks() {
    let mut expected = vec![header(60, 0)];
    expected.extend((30..=60).map(|round| header(round, 1)));
    assert_eq!(expected.len(), 32);
    let serialized: Vec<Bytes> = expected.iter().map(|h| h.serialized.clone()).collect();
    let refs = set_of(&expected.iter().map(|h| h.reference).collect::<Vec<_>>());
    let peer = 2;
    let mut map = InflightBlockHeadersMap::new();
    let guard = map.lock_headers(&refs, peer, SyncMethod::Live).expect("Failed to lock blocks");
    assert_eq!(map.num_of_locked_headers(), refs.len());
    let mut cache = VerifiedHeaders::new(1000);
    let check = |b: Bytes, _d: Digest| check(b);
    let headers =
        process_fetched_headers(serialized.clone(), 1000, &mut cache, peer, &digest_of, &check)
            .unwrap()
            .unwrap();
    assert_eq!(headers, expected);
    unlock(&mut map, guard);
    assert_eq!(map.num_of_locked_headers(), 0);
    // What was verified lately is passed over.
    let again =
        process_fetched_headers(serialized.clone(), 1000, &mut cache, peer, &digest_of, &check)
            .unwrap()
            .unwrap();
    assert!(again.is_empty());
    assert_eq!(cache.len(), refs.len());
    cache.clear();
    assert_eq!(cache.len(), 0);
    // No more is looked at than may be asked for.
    let some = process_fetched_headers(serialized, 5, &mut cache, peer, &digest_of, &check)
        .unwrap()
        .unwrap();
    assert_eq!(some, expected[..5].to_vec());
    assert!(process_fetched_headers(vec![], 5, &mut cache, peer, &digest_of, &check)
        .unwrap()
        .is_none());
}

#[test]
fn test_process_fetched_drops_far_future() {
    let ceiling: Round = 100;
    let in_window = header(60, 0);
    let far_future = header(ceiling + 1, 1);
    let at_ceiling = header(ceiling, 2);
    let kept = drop_far_future(vec![in_window.clone(), far_future, at_ceiling.clone()], ceiling);
    assert_eq!(kept, vec![in_window, at_ceiling]);
}

#[test]
fn faulty_headers_are_blamed_on_who_made_them() {
    let mut cache = VerifiedHeaders::new(10);
    let check = |b: Bytes, _d: Digest| check(b);
    let good = Arc::new(vec![3, 1]);
    let r = verify_block_headers(
        &vec![good.clone(), Arc::new(vec![4, 250])],
        &mut cache,
        2,
        &digest_of,
        &check,
    );
    let rejection = r.unwrap_err();
    assert_eq!(rejection.faulty_header_author, Some(250));
    assert_eq!(rejection.error.name(), "InvalidAuthorityIndex");
    // The one before it counts as verified.
    assert_eq!(cache.len(), 1);
    let rejection = verify_block_headers(
        &vec![good, Arc::new(vec![7, 1, 1])],
        &mut cache,
        2,
        &digest_of,
        &check,
    )
    .unwrap_err();
    assert_eq!(rejection.faulty_header_author, Some(2));
    assert_eq!(rejection.error.name(), "MalformedHeader");
}

#[test]
fn least_recently_used_header_is_forgotten() {
    let mut cache = VerifiedHeaders::new(2);
    let d = |i: u128| Digest { hi: 0, lo: i };
    cache.remember(&d(1));
    cache.remember(&d(2));
    assert!(cache.check(&d(1)));
    cache.remember(&d(3));
    assert!(!cache.check(&d(2)));
    assert!(cache.check(&d(1)));
    assert!(cache.check(&d(3)));
    assert_eq!(cache.len(), 2);
}

#[test]
fn follow_up_depends_on_what_is_missing() {
    let nothing = FollowUp::new(&SortedSet::new(), &SortedSet::new());
    assert!(!nothing.kick_off_scheduler && !nothing.fetch_transactions);
    let blocks = FollowUp::new(&set_of(&[block_ref(1, 1)]), &SortedSet::new());
    assert!(blocks.kick_off_scheduler && !blocks.fetch_transactions);
}

#[test]
fn synchronizer_fetch_own_last_block_header() {
    let committee = Committee { stakes: vec![1; 4], quorum_threshold: 3 };
    let mut sync = OwnHeaderSync::new(&committee, 0);
    assert_eq!(sync.highest_round, GENESIS_ROUND);
    assert_eq!(sync.peers_to_ask(), vec![1, 2, 3]);
    // Nobody answers in time.
    assert!(!sync.is_done(&committee));
    let asked = Cell::new(0);
    for (peer, round) in [(1, 10), (2, 9), (3, 8)] {
        let headers = process_own_headers(
            &vec![Arc::new(vec![round as u8, 0])],
            0,
            peer,
            &|b: Bytes| {
                asked.set(asked.get() + 1);
                check(b)
            },
        )
        .unwrap();
        sync.on_reply(&committee, peer, &headers);
    }
    assert_eq!(asked.get(), 3);
    assert!(sync.is_done(&committee));
    assert!(sync.peers_to_ask().is_empty());
    assert_eq!(sync.highest_round, 10);
    // Two of four are no quorum.
    let mut sync = OwnHeaderSync::new(&committee, 0);
    sync.on_reply(&committee, 2, &vec![]);
    assert!(!sync.is_done(&committee));
    assert_eq!(sync.peers_to_ask(), vec![1, 3]);
    let single = Committee { stakes: vec![1], quorum_threshold: 1 };
    assert_eq!(OwnHeaderSync::round_of_single_node(&single, 7), Some(7));
    assert_eq!(OwnHeaderSync::round_of_single_node(&committee, 7), None);
}

#[test]
fn headers_of_others_are_no_own_headers() {
    let rejection = process_own_headers(
        &vec![Arc::new(vec![4, 0]), Arc::new(vec![5, 3])],
        0,
        1,
        &|b: Bytes| check(b),
    )
    .unwrap_err();
    assert_eq!(rejection.faulty_header_author, None);
    assert!(matches!(
        rejection.error,
        ConsensusError::UnexpectedLastOwnHeader { index: 1, block_ref }
            if block_ref == header(5, 3).reference
    ));
}
