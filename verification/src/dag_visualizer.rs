//! What is shown of the DAG to who watches it.
use vstd::prelude::*;

use crate::committee::{stake_of, Committee, Stake};
use crate::dag_state::state::DagState;
use crate::refs::{AuthorityIndex, BlockTimestampMs, CommitIndex, Round};

verus! {

/// How many events may wait for the watchers.
pub const DAG_VISUALIZER_BROADCAST_CAPACITY: usize = 4096;

/// How many may watch at a time.
pub const MAX_CONCURRENT_STREAMS: usize = 1;

/// How many rounds a wave has.
pub const WAVE_LENGTH: Round = 3;

/// The wave that a round belongs to. The first one starts with round 1; genesis
/// counts among it.
pub fn wave_for_round(round: u32) -> (r: u32)
    ensures
        r == if round > 0 {
            (round - 1) / (WAVE_LENGTH as int)
        } else {
            0
        },
{
    if round > 0 {
        (round - 1) / WAVE_LENGTH
    } else {
        0
    }
}

/// A wave has three rounds in a row.
pub proof fn law_waves(wave: int, round: int)
    requires
        wave >= 0,
        round > 0,
    ensures
        (round - 1) / (WAVE_LENGTH as int) == wave <==> WAVE_LENGTH * wave < round <= WAVE_LENGTH * (
        wave + 1),
{
}

/// What happens in the DAG.
#[derive(Debug)]
pub enum DagVisualizerEvent {
    BlockAccepted {
        round: Round,
        author: AuthorityIndex,
        digest: [u8; 32],
        timestamp_ms: BlockTimestampMs,
        ancestors: Vec<(Round, AuthorityIndex, [u8; 32])>,
        acknowledgments: Vec<(Round, AuthorityIndex, [u8; 32])>,
    },
    LeaderDecided {
        wave: u32,
        leader_round: Round,
        leader_authority: AuthorityIndex,
        /// What was decided, by its number on the wire.
        status: i32,
        block_digest: [u8; 32],
    },
    RoundAdvanced { round: Round },
}

/// A reference as it goes over the wire.
#[derive(Debug)]
pub struct BlockRefProto {
    pub round: u32,
    pub author: u32,
    pub digest: Vec<u8>,
}

/// An event as it goes over the wire.
#[derive(Debug)]
pub enum DagEvent {
    BlockAccepted {
        round: u32,
        author: u32,
        digest: Vec<u8>,
        timestamp_ms: u64,
        ancestors: Vec<BlockRefProto>,
        acknowledgments: Vec<BlockRefProto>,
    },
    LeaderDecided {
        wave: u32,
        leader_round: u32,
        leader_authority: u32,
        status: i32,
        block_digest: Vec<u8>,
    },
    RoundAdvanced { round: u32 },
}

/// Does the one on the wire say what the reference is?
pub open spec fn same_ref(r: (Round, AuthorityIndex, [u8; 32]), proto: BlockRefProto) -> bool {
    proto.round == r.0 && proto.author == r.1 && proto.digest@ == r.2@
}

/// Do those on the wire say what the references are, in order?
pub open spec fn same_refs(
    refs: Seq<(Round, AuthorityIndex, [u8; 32])>,
    protos: Seq<BlockRefProto>,
) -> bool {
    &&& protos.len() == refs.len()
    &&& forall|i: int| 0 <= i < refs.len() ==> same_ref(refs[i], #[trigger] protos[i])
}

/// Does the one on the wire say what the event is?
pub open spec fn same_event(event: DagVisualizerEvent, proto: DagEvent) -> bool {
    match event {
        DagVisualizerEvent::BlockAccepted {
            round,
            author,
            digest,
            timestamp_ms,
            ancestors,
            acknowledgments,
        } => match proto {
            DagEvent::BlockAccepted {
                round: r,
                author: a,
                digest: d,
                timestamp_ms: t,
                ancestors: ancestor_protos,
                acknowledgments: ack_protos,
            } => {
                &&& r == round
                &&& a == author
                &&& d@ == digest@
                &&& t == timestamp_ms
                &&& same_refs(ancestors@, ancestor_protos@)
                &&& same_refs(acknowledgments@, ack_protos@)
            },
            _ => false,
        },
        DagVisualizerEvent::LeaderDecided {
            wave,
            leader_round,
            leader_authority,
            status,
            block_digest,
        } => match proto {
            DagEvent::LeaderDecided {
                wave: w,
                leader_round: r,
                leader_authority: a,
                status: s,
                block_digest: d,
            } => {
                &&& w == wave
                &&& r == leader_round
                &&& a == leader_authority
                &&& s == status
                &&& d@ == block_digest@
            },
            _ => false,
        },
        DagVisualizerEvent::RoundAdvanced { round } => match proto {
            DagEvent::RoundAdvanced { round: r } => r == round,
            _ => false,
        },
    }
}

fn bytes_of(digest: &[u8; 32]) -> (r: Vec<u8>)
    ensures
        r@ == digest@,
{
    let mut r: Vec<u8> = Vec::new();
    let mut i: usize = 0;
    while i < 32
        invariant
            i <= 32,
            r@ == digest@.take(i as int),
        decreases 32 - i,
    {
        r.push(digest[i]);
        i = i + 1;
        assert(r@ =~= digest@.take(i as int));
    }
    assert(r@ =~= digest@);
    r
}

fn refs_to_proto(refs: &Vec<(Round, AuthorityIndex, [u8; 32])>) -> (r: Vec<BlockRefProto>)
    ensures
        same_refs(refs@, r@),
{
    let mut r: Vec<BlockRefProto> = Vec::new();
    let mut i: usize = 0;
    while i < refs.len()
        invariant
            i <= refs@.len(),
            r@.len() == i,
            forall|k: int| 0 <= k < i ==> same_ref(refs@[k], #[trigger] r@[k]),
        decreases refs@.len() - i,
    {
        let proto = BlockRefProto {
            round: refs[i].0,
            author: refs[i].1 as u32,
            digest: bytes_of(&refs[i].2),
        };
        assert(same_ref(refs@[i as int], proto));
        r.push(proto);
        i = i + 1;
    }
    r
}

/// The event as it goes over the wire.
pub fn convert_event_to_proto(event: &DagVisualizerEvent) -> (proto: DagEvent)
    ensures
        same_event(*event, proto),
{
    match event {
        DagVisualizerEvent::BlockAccepted {
            round,
            author,
            digest,
            timestamp_ms,
            ancestors,
            acknowledgments,
        } => DagEvent::BlockAccepted {
            round: *round,
            author: *author as u32,
            digest: bytes_of(digest),
            timestamp_ms: *timestamp_ms,
            ancestors: refs_to_proto(ancestors),
            acknowledgments: refs_to_proto(acknowledgments),
        },
        DagVisualizerEvent::LeaderDecided {
            wave,
            leader_round,
            leader_authority,
            status,
            block_digest,
        } => DagEvent::LeaderDecided {
            wave: *wave,
            leader_round: *leader_round,
            leader_authority: *leader_authority as u32,
            status: *status,
            block_digest: bytes_of(block_digest),
        },
        DagVisualizerEvent::RoundAdvanced { round } => DagEvent::RoundAdvanced { round: *round },
    }
}

/// An authority as it is shown.
#[derive(Debug)]
pub struct ValidatorInfo {
    pub index: u32,
    pub hostname: String,
    pub stake: Stake,
}

/// The committee as it is shown.
#[derive(Debug)]
pub struct CommitteeResponse {
    pub epoch: u64,
    pub total_stake: Stake,
    pub quorum_threshold: Stake,
    pub validators: Vec<ValidatorInfo>,
}

/// Shows the committee, in order.
pub fn get_committee(committee: &Committee, epoch: u64, hostnames: &Vec<String>) -> (r:
    CommitteeResponse)
    requires
        committee.wf(),
        hostnames@.len() == committee.stakes@.len(),
    ensures
        r.epoch == epoch,
        r.total_stake == stake_of(committee.stakes@, Set::full()),
        r.quorum_threshold == committee.quorum_threshold,
        r.validators@.len() == committee.stakes@.len(),
        forall|i: int|
            0 <= i < r.validators@.len() ==> {
                &&& (#[trigger] r.validators@[i]).index == i
                &&& r.validators@[i].hostname@ == hostnames@[i]@
                &&& r.validators@[i].stake == committee.stakes@[i]
            },
{
    let n: usize = committee.size();
    let mut validators: Vec<ValidatorInfo> = Vec::new();
    let mut total_stake: Stake = 0;
    let mut i: usize = 0;
    while i < n
        invariant
            committee.wf(),
            n == committee.stakes@.len(),
            hostnames@.len() == n,
            i <= n,
            total_stake == stake_of(committee.stakes@.take(i as int), Set::full()),
            validators@.len() == i,
            forall|k: int|
                0 <= k < i ==> {
                    &&& (#[trigger] validators@[k]).index == k
                    &&& validators@[k].hostname@ == hostnames@[k]@
                    &&& validators@[k].stake == committee.stakes@[k]
                },
        decreases n - i,
    {
        let stake = committee.stakes[i];
        proof {
            assert(committee.stakes@.take(i + 1).drop_last() =~= committee.stakes@.take(i as int));
            lemma_total_of_prefix(committee.stakes@, i + 1);
        }
        total_stake = total_stake + stake;
        validators.push(
            ValidatorInfo { index: i as u32, hostname: hostnames[i].clone(), stake },
        );
        i = i + 1;
    }
    assert(committee.stakes@.take(i as int) =~= committee.stakes@);
    CommitteeResponse {
        epoch,
        total_stake,
        quorum_threshold: committee.quorum_threshold,
        validators,
    }
}

/// The first ones have no more stake than all.
proof fn lemma_total_of_prefix(stakes: Seq<Stake>, n: int)
    requires
        0 <= n <= stakes.len(),
    ensures
        stake_of(stakes.take(n), Set::full()) <= stake_of(stakes, Set::full()),
    decreases stakes.len(),
{
    if n == stakes.len() {
        assert(stakes.take(n) =~= stakes);
    } else {
        lemma_total_of_prefix(stakes.drop_last(), n);
        assert(stakes.drop_last().take(n) =~= stakes.take(n));
    }
}

/// How far the DAG is, as it is shown.
#[derive(Clone, Copy, Debug, PartialEq, Eq, Structural)]
pub struct StatusResponse {
    pub highest_accepted_round: Round,
    pub last_commit_index: CommitIndex,
    pub last_commit_round: Round,
    pub num_authorities: u32,
}

/// Is this the latest of the rounds? It is genesis where there are none.
pub open spec fn is_latest(rounds: Seq<Round>, latest: Round) -> bool {
    &&& forall|i: int| 0 <= i < rounds.len() ==> #[trigger] rounds[i] <= latest
    &&& rounds.contains(latest) || (rounds.len() == 0 && latest == 0)
}

/// Shows how far the DAG is.
pub fn get_status(state: &DagState) -> (r: StatusResponse)
    requires
        state.wf(),
    ensures
        r.highest_accepted_round == state@.highest_accepted_round,
        r.last_commit_index == state@.last_commit_index(),
        is_latest(state@.last_committed_rounds, r.last_commit_round),
        r.num_authorities == state.config.committee.stakes@.len(),
{
    let rounds = state.last_committed_rounds();
    let mut latest: Round = 0;
    let mut i: usize = 0;
    while i < rounds.len()
        invariant
            i <= rounds@.len(),
            forall|k: int| 0 <= k < i ==> #[trigger] rounds@[k] <= latest,
            latest == 0 || rounds@.contains(latest),
        decreases rounds@.len() - i,
    {
        if rounds[i] > latest {
            latest = rounds[i];
            assert(rounds@[i as int] == latest);
        }
        i = i + 1;
    }
    proof {
        if rounds@.len() > 0 && latest == 0 {
            assert(rounds@[0] == 0);
        }
    }
    StatusResponse {
        highest_accepted_round: state.highest_accepted_round(),
        last_commit_index: state.last_commit_index(),
        last_commit_round: latest,
        num_authorities: state.config.committee.size() as u32,
    }
}

/// May one more watch, where so many do? Then this is how many do now.
pub fn admit_stream(active_streams: usize) -> (r: Option<usize>)
    ensures
        r == if active_streams < MAX_CONCURRENT_STREAMS {
            Some((active_streams + 1) as usize)
        } else {
            None
        },
{
    if active_streams >= MAX_CONCURRENT_STREAMS {
        None
    } else {
        Some(active_streams + 1)
    }
}

/// What is sent of an event says all that the event says, and nothing else.
pub proof fn law_events_say_it_all(event: DagVisualizerEvent, proto: DagEvent, i: int)
    requires
        same_event(event, proto),
    ensures
        event is BlockAccepted <==> proto is BlockAccepted,
        event is LeaderDecided <==> proto is LeaderDecided,
        event is RoundAdvanced <==> proto is RoundAdvanced,
        (event matches DagVisualizerEvent::RoundAdvanced { round } && proto
            matches DagEvent::RoundAdvanced { round: r }) ==> event->RoundAdvanced_round
            == proto->RoundAdvanced_round,
        event is BlockAccepted ==> {
            &&& proto->BlockAccepted_round == event->BlockAccepted_round
            &&& proto->BlockAccepted_author == event->BlockAccepted_author
            &&& proto->BlockAccepted_digest@ == event->BlockAccepted_digest@
            &&& proto->BlockAccepted_timestamp_ms == event->BlockAccepted_timestamp_ms
            &&& proto->BlockAccepted_ancestors@.len() == event->BlockAccepted_ancestors@.len()
            &&& 0 <= i < event->BlockAccepted_ancestors@.len() ==> {
                let a = event->BlockAccepted_ancestors@[i];
                let b = proto->BlockAccepted_ancestors@[i];
                b.round == a.0 && b.author == a.1 && b.digest@ == a.2@
            }
            &&& proto->BlockAccepted_acknowledgments@.len()
                == event->BlockAccepted_acknowledgments@.len()
            &&& 0 <= i < event->BlockAccepted_acknowledgments@.len() ==> {
                let a = event->BlockAccepted_acknowledgments@[i];
                let b = proto->BlockAccepted_acknowledgments@[i];
                b.round == a.0 && b.author == a.1 && b.digest@ == a.2@
            }
        },
        event is LeaderDecided ==> {
            &&& proto->LeaderDecided_wave == event->LeaderDecided_wave
            &&& proto->LeaderDecided_leader_round == event->LeaderDecided_leader_round
            &&& proto->LeaderDecided_leader_authority == event->LeaderDecided_leader_authority
            &&& proto->LeaderDecided_status == event->LeaderDecided_status
            &&& proto->LeaderDecided_block_digest@ == event->LeaderDecided_block_digest@
        },
{
    if event is BlockAccepted {
        let x = event->BlockAccepted_ancestors@;
        let y = proto->BlockAccepted_ancestors@;
        assert(same_refs(x, y));
        if 0 <= i < x.len() {
            assert(same_ref(x[i], y[i]));
        }
        let z = event->BlockAccepted_acknowledgments@;
        let w = proto->BlockAccepted_acknowledgments@;
        assert(same_refs(z, w));
        if 0 <= i < z.len() {
            assert(same_ref(z[i], w[i]));
        }
    }
}

/// The latest of some rounds is one of them, and none is later.
pub proof fn law_latest(rounds: Seq<Round>, latest: Round, i: int)
    requires
        is_latest(rounds, latest),
    ensures
        0 <= i < rounds.len() ==> rounds[i] <= latest && rounds.contains(latest),
        rounds.len() == 0 ==> latest == 0,
{
}

} // verus!
