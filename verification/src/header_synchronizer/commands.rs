//! What to do on a request for headers, on a failed fetch and on a tick.
use vstd::prelude::*;

use crate::commit_syncer::fast::{paused_by_fast_sync, FastSyncPauseSource, PauseCounts};
use crate::error::ConsensusError;
use crate::header_synchronizer::inflight::{
    holds_all, lockable, locked, unlocked, BlocksGuard, InflightBlockHeadersMap, SyncMethod,
};
use crate::refs::{AuthorityIndex, BlockRef};
use crate::sorted::SortedSet;

verus! {

/// How many requests to one peer may be under way.
pub const FETCH_BLOCK_HEADERS_CONCURRENCY: usize = 5;

/// How long a request to a peer may take.
pub const FETCH_REQUEST_TIMEOUT_MS: u64 = 2_000;

/// How long a run of the periodic synchronizer may take.
pub const FETCH_FROM_PEERS_TIMEOUT_MS: u64 = 4_000;

/// How often the periodic synchronizer runs.
pub const PERIODIC_SYNCHRONIZER_TIMEOUT_NANOS: u64 = 200_000_000;

/// How often a peer is asked for the same headers.
pub const MAX_RETRIES: u32 = 3;

/// What to do on a request for headers.
#[derive(Debug)]
pub enum CommandStep {
    /// Nothing: a node does not ask itself.
    Ignore,
    /// Answer that all is well: there is nothing to fetch now.
    Done,
    /// Hand these headers to the task of the peer.
    Send(BlocksGuard),
}

/// The first headers, as many as may be asked for at a time.
pub open spec fn first_refs(missing: SortedSet<BlockRef>, max: usize) -> Set<BlockRef> {
    let items = missing.items();
    if items.len() <= max {
        items.to_set()
    } else {
        items.take(max as int).to_set()
    }
}

/// A request for headers of a peer. While fast synchronization is at work
/// nothing is fetched, and no more is asked for than may be: the periodic
/// synchronizer will see to the rest.
pub fn on_fetch_command(
    inflight: &mut InflightBlockHeadersMap,
    own_index: AuthorityIndex,
    max_headers_per_header_sync_fetch: usize,
    missing_block_refs: &SortedSet<BlockRef>,
    peer_index: AuthorityIndex,
    fast_sync_active: Option<bool>,
    pauses: &mut PauseCounts,
) -> (step: CommandStep)
    requires
        old(inflight).wf(),
        missing_block_refs.wf(),
    ensures
        final(pauses).follows(
            *old(pauses),
            FastSyncPauseSource::HeaderCommand,
            peer_index != own_index && fast_sync_active == Some(true),
        ),
        final(inflight).wf(),
        if peer_index == own_index {
            step is Ignore && final(inflight)@ == old(inflight)@
        } else if fast_sync_active == Some(true) {
            step is Done && final(inflight)@ == old(inflight)@
        } else {
            let taken = lockable(
                old(inflight)@,
                first_refs(*missing_block_refs, max_headers_per_header_sync_fetch),
                peer_index,
                SyncMethod::Live,
            );
            &&& final(inflight)@ == locked(old(inflight)@, taken, peer_index)
            &&& match step {
                CommandStep::Ignore => false,
                CommandStep::Done => taken == Set::<BlockRef>::empty(),
                CommandStep::Send(guard) => {
                    &&& taken != Set::<BlockRef>::empty()
                    &&& guard.block_refs.wf()
                    &&& guard.block_refs@ == taken
                    &&& guard.peer == peer_index
                    &&& guard.method == SyncMethod::Live
                    &&& holds_all(final(inflight)@, taken, peer_index)
                },
            }
        },
{
    if peer_index == own_index {
        return CommandStep::Ignore;
    }
    if paused_by_fast_sync(fast_sync_active, pauses, FastSyncPauseSource::HeaderCommand) {
        return CommandStep::Done;
    }
    let mut refs = missing_block_refs.to_vec();
    if refs.len() > max_headers_per_header_sync_fetch {
        refs.truncate(max_headers_per_header_sync_fetch);
    }
    let refs = SortedSet::from_vec(&refs);
    match inflight.lock_headers(&refs, peer_index, SyncMethod::Live) {
        None => CommandStep::Done,
        Some(guard) => CommandStep::Send(guard),
    }
}

/// What came of handing headers to the task of a peer.
#[derive(Debug)]
pub enum SendOutcome {
    /// The task will fetch them.
    Sent,
    /// The task has too much to do; the headers come back.
    Full(BlocksGuard),
    /// The task is gone; the headers come back.
    Closed(BlocksGuard),
}

/// Headers that were not handed over are unlocked, and who asked for them is
/// told so.
pub fn on_send_outcome(inflight: &mut InflightBlockHeadersMap, outcome: SendOutcome) -> (r: Result<
    (),
    ConsensusError,
>)
    requires
        old(inflight).wf(),
        match outcome {
            SendOutcome::Sent => true,
            SendOutcome::Full(guard) => guard.block_refs.wf() && holds_all(
                old(inflight)@,
                guard.block_refs@,
                guard.peer,
            ),
            SendOutcome::Closed(guard) => guard.block_refs.wf() && holds_all(
                old(inflight)@,
                guard.block_refs@,
                guard.peer,
            ),
        },
    ensures
        final(inflight).wf(),
        match outcome {
            SendOutcome::Sent => r == Ok::<(), ConsensusError>(()) && final(inflight)@ == old(
                inflight,
            )@,
            SendOutcome::Full(guard) => r == Err::<(), ConsensusError>(
                ConsensusError::SynchronizerSaturated(guard.peer),
            ) && final(inflight)@ == unlocked(old(inflight)@, guard.block_refs@, guard.peer),
            SendOutcome::Closed(guard) => r == Err::<(), ConsensusError>(ConsensusError::Shutdown)
                && final(inflight)@ == unlocked(old(inflight)@, guard.block_refs@, guard.peer),
        },
{
    match outcome {
        SendOutcome::Sent => Ok(()),
        SendOutcome::Full(guard) => {
            inflight.unlock_headers(&guard.block_refs, guard.peer);
            Err(ConsensusError::SynchronizerSaturated(guard.peer))
        },
        SendOutcome::Closed(guard) => {
            inflight.unlock_headers(&guard.block_refs, guard.peer);
            Err(ConsensusError::Shutdown)
        },
    }
}

/// Has a fetch to be retried? `attempts` were made before the one that failed
/// now.
pub fn next_attempt(attempts: u32) -> (r: Option<u32>)
    requires
        attempts < u32::MAX,
    ensures
        r == if attempts + 1 <= MAX_RETRIES {
            Some((attempts + 1) as u32)
        } else {
            None
        },
{
    let attempts: u32 = attempts + 1;
    if attempts <= MAX_RETRIES {
        Some(attempts)
    } else {
        None
    }
}

/// A fetch has failed: it is retried, or, after too many attempts, its headers
/// are unlocked.
pub fn on_failed_fetch(
    inflight: &mut InflightBlockHeadersMap,
    guard: BlocksGuard,
    attempts: u32,
) -> (r: Option<(BlocksGuard, u32)>)
    requires
        old(inflight).wf(),
        guard.block_refs.wf(),
        holds_all(old(inflight)@, guard.block_refs@, guard.peer),
        attempts < u32::MAX,
    ensures
        final(inflight).wf(),
        match r {
            Some((again, retries)) => {
                &&& attempts + 1 <= MAX_RETRIES
                &&& again == guard
                &&& retries == attempts + 1
                &&& final(inflight)@ == old(inflight)@
            },
            None => {
                &&& attempts + 1 > MAX_RETRIES
                &&& final(inflight)@ == unlocked(old(inflight)@, guard.block_refs@, guard.peer)
            },
        },
{
    match next_attempt(attempts) {
        Some(attempts) => Some((guard, attempts)),
        None => {
            inflight.unlock_headers(&guard.block_refs, guard.peer);
            None
        },
    }
}

/// The periodic synchronizer is asked to run soon: at once, or, where it is
/// running, after half its period. `remaining_nanos` are left until it runs
/// anyway; it is never put off.
pub fn kick_off(scheduler_running: bool, remaining_nanos: u64) -> (delay_nanos: Option<u64>)
    ensures
        ({
            let delay: u64 = if scheduler_running {
                (PERIODIC_SYNCHRONIZER_TIMEOUT_NANOS / 2) as u64
            } else {
                0
            };
            delay_nanos == if delay < remaining_nanos {
                Some(delay)
            } else {
                None
            }
        }),
{
    let delay: u64 = if scheduler_running {
        PERIODIC_SYNCHRONIZER_TIMEOUT_NANOS / 2
    } else {
        0
    };
    if delay < remaining_nanos {
        Some(delay)
    } else {
        None
    }
}

/// Has the periodic synchronizer to run now? Not while fast synchronization is
/// at work, nor while it is still running.
pub fn on_tick(
    fast_sync_active: Option<bool>,
    pauses: &mut PauseCounts,
    scheduler_running: bool,
) -> (r: bool)
    ensures
        r == (fast_sync_active != Some(true) && !scheduler_running),
        final(pauses).follows(
            *old(pauses),
            FastSyncPauseSource::HeaderScheduler,
            fast_sync_active == Some(true),
        ),
{
    !paused_by_fast_sync(fast_sync_active, pauses, FastSyncPauseSource::HeaderScheduler)
        && !scheduler_running
}

} // verus!
