//! What the periodic synchronizer asks of whom.
use rand::seq::IteratorRandom;
use vstd::prelude::*;

use crate::commit_syncer::regular::{chunk, chunk_count, chunks};
use crate::commit_syncer::shared::{lemma_others, other_authorities, others, shuffle_list};
use crate::dag_state::ranges::lemma_greatest_is_last;
use crate::dag_state::state::DagState;
use crate::header_synchronizer::inflight::{
    holders, holds_all, lockable, locked, unlocked, BlocksGuard, InflightBlockHeadersMap, Locks,
    SyncMethod,
};
use crate::refs::{
    lemma_triple_rank, AuthorityIndex, BlockRef, CommitIndex, Digest, Key, Round, GENESIS_ROUND,
};
use crate::sorted::{SortedMap, SortedSet};

verus! {

/// How many peers are asked in one run.
pub const MAX_PERIODIC_SYNC_PEERS: usize = 4;

/// How many of the peers that are asked in one run are picked from all.
pub const MAX_PERIODIC_SYNC_RANDOM_PEERS: usize = 2;

/// Missing headers, each with the authorities that are known to have it.
pub type MissingHeaders = SortedMap<BlockRef, SortedSet<AuthorityIndex>>;

/// Are the sets of authorities well formed too?
pub open spec fn missing_wf(missing: MissingHeaders) -> bool {
    &&& missing.wf()
    &&& forall|i: int|
        0 <= i < missing.entries@.len() ==> (#[trigger] missing.entries@[i]).1.wf()
}

/// Is this node so far behind with its commits that catching up is left to
/// commit synchronization?
pub fn is_commit_lagging(
    last_commit_index: CommitIndex,
    quorum_commit_index: CommitIndex,
    commit_sync_batch_size: u32,
    commit_lag_multiplier: u32,
) -> (r: bool)
    requires
        last_commit_index + commit_sync_batch_size * commit_lag_multiplier <= u32::MAX,
    ensures
        r == (last_commit_index + commit_sync_batch_size * commit_lag_multiplier
            < quorum_commit_index),
{
    proof {
        assert(0 <= commit_sync_batch_size * commit_lag_multiplier) by (nonlinear_arith);
    }
    let commit_threshold: u32 = last_commit_index + commit_sync_batch_size * commit_lag_multiplier;
    commit_threshold < quorum_commit_index
}

/// Those of the missing headers that are to be fetched now, if there are any.
/// While this node lags behind with its commits, headers far above what it has
/// accepted are left out.
pub fn headers_to_fetch(
    missing: MissingHeaders,
    commit_lagging: bool,
    highest_accepted_round: Round,
    missing_block_header_round_threshold: Round,
) -> (r: Option<MissingHeaders>)
    requires
        missing_wf(missing),
        commit_lagging ==> highest_accepted_round + missing_block_header_round_threshold
            <= Round::MAX,
    ensures
        ({
            let kept = if commit_lagging {
                missing@.restrict(
                    missing@.dom().filter(
                        |b: BlockRef|
                            b.round <= highest_accepted_round
                                + missing_block_header_round_threshold,
                    ),
                )
            } else {
                missing@
            };
            match r {
                None => kept == Map::<BlockRef, SortedSet<AuthorityIndex>>::empty(),
                Some(out) => {
                    &&& missing_wf(out)
                    &&& out@ == kept
                    &&& out@ != Map::<BlockRef, SortedSet<AuthorityIndex>>::empty()
                },
            }
        }),
{
    let ghost before = missing;
    let mut missing: MissingHeaders = missing;
    if missing.is_empty() {
        proof {
            let kept = before@.restrict(
                before@.dom().filter(
                    |b: BlockRef|
                        b.round <= highest_accepted_round + missing_block_header_round_threshold,
                ),
            );
            assert(kept =~= Map::<BlockRef, SortedSet<AuthorityIndex>>::empty());
        }
        return None;
    }
    if commit_lagging {
        let limit: Round = highest_accepted_round + missing_block_header_round_threshold;
        let ghost kept = before@.restrict(
            before@.dom().filter(
                |b: BlockRef|
                    b.round <= highest_accepted_round + missing_block_header_round_threshold,
            ),
        );
        if limit < Round::MAX {
            let bound = BlockRef { round: limit + 1, author: 0, digest: Digest::min() };
            missing.split_off(&bound);
            proof {
                assert forall|b: BlockRef| b.rank() < bound.rank() <==> b.round <= limit by {
                    lemma_triple_rank(
                        b.round,
                        b.author,
                        b.digest,
                        bound.round,
                        bound.author,
                        bound.digest,
                    );
                }
                assert(missing@ =~= kept);
                assert forall|i: int| 0 <= i < missing.entries@.len() implies (
                #[trigger] missing.entries@[i]).1.wf() by {
                    assert(missing.entries@[i] == before.entries@[i]);
                }
            }
        } else {
            assert(missing@ =~= kept);
        }
        if missing.is_empty() {
            return None;
        }
    }
    Some(missing)
}

/// Those of the first `n` missing headers that the authority has, in order.
pub open spec fn known_refs(missing: MissingHeaders, a: AuthorityIndex, n: int) -> Seq<BlockRef>
    decreases n,
{
    if n <= 0 {
        Seq::empty()
    } else {
        let rest = known_refs(missing, a, n - 1);
        if missing.entries@[n - 1].1@.contains(a) {
            rest.push(missing.entries@[n - 1].0)
        } else {
            rest
        }
    }
}

/// The missing headers that the authority has, in order.
pub open spec fn refs_known_to(missing: MissingHeaders, a: AuthorityIndex) -> Seq<BlockRef> {
    known_refs(missing, a, missing.entries@.len() as int)
}

/// The other authorities that have a missing header.
pub open spec fn knowers(missing: MissingHeaders, own_index: AuthorityIndex) -> Set<
    AuthorityIndex,
> {
    Set::new(|a: AuthorityIndex| a != own_index && refs_known_to(missing, a).len() > 0)
}

/// Is this, for each other authority that has any of the first `n` missing
/// headers, which ones it has?
spec fn is_known_by(
    known: SortedMap<AuthorityIndex, Vec<BlockRef>>,
    missing: MissingHeaders,
    own_index: AuthorityIndex,
    n: int,
) -> bool {
    &&& known.wf()
    &&& forall|a: AuthorityIndex| #[trigger]
        known@.dom().contains(a) <==> a != own_index && known_refs(missing, a, n).len() > 0
    &&& forall|a: AuthorityIndex| #[trigger]
        known@.dom().contains(a) ==> known@[a]@ == known_refs(missing, a, n)
}

/// Lists for each other authority the missing headers that it has.
pub fn headers_by_authority(missing: &MissingHeaders, own_index: AuthorityIndex) -> (known:
    SortedMap<AuthorityIndex, Vec<BlockRef>>)
    requires
        missing_wf(*missing),
    ensures
        known.wf(),
        known@.dom() == knowers(*missing, own_index),
        forall|a: AuthorityIndex| #[trigger]
            known@.dom().contains(a) ==> known@[a]@ == refs_known_to(*missing, a),
{
    let mut known: SortedMap<AuthorityIndex, Vec<BlockRef>> = SortedMap::new();
    let n: usize = missing.entries.len();
    let mut i: usize = 0;
    while i < n
        invariant
            missing_wf(*missing),
            n == missing.entries@.len(),
            i <= n,
            is_known_by(known, *missing, own_index, i as int),
        decreases n - i,
    {
        let block_ref = missing.entries[i].0;
        let authorities = &missing.entries[i].1;
        let m: usize = authorities.len();
        let ghost start = known;
        let mut j: usize = 0;
        while j < m
            invariant
                missing_wf(*missing),
                i < missing.entries@.len(),
                block_ref == missing.entries@[i as int].0,
                *authorities == missing.entries@[i as int].1,
                authorities.wf(),
                m == authorities.items().len(),
                j <= m,
                is_known_by(start, *missing, own_index, i as int),
                known.wf(),
                forall|a: AuthorityIndex| #[trigger]
                    known@.dom().contains(a) <==> start@.dom().contains(a) || (a != own_index
                        && authorities.items().take(j as int).contains(a)),
                forall|a: AuthorityIndex| #[trigger]
                    known@.dom().contains(a) ==> known@[a]@ == if authorities.items().take(
                        j as int,
                    ).contains(a) {
                        known_refs(*missing, a, i as int).push(block_ref)
                    } else {
                        known_refs(*missing, a, i as int)
                    },
            decreases m - j,
        {
            let author = authorities.at(j);
            let ghost before = known;
            let ghost items = authorities.items();
            proof {
                authorities.lemma_items();
                let was = items.take(j as int);
                let now = items.take(j + 1);
                assert(now =~= was.push(author));
                assert forall|a: AuthorityIndex| #[trigger]
                    now.contains(a) <==> was.contains(a) || a == author by {
                    if was.contains(a) {
                        let x = choose|x: int| 0 <= x < was.len() && was[x] == a;
                        assert(now[x] == a);
                    }
                    if a == author {
                        assert(now[j as int] == a);
                    }
                }
                assert(!was.contains(author)) by {
                    if was.contains(author) {
                        let x = choose|x: int| 0 <= x < was.len() && was[x] == author;
                        assert(items[x].rank() < items[j as int].rank());
                    }
                }
            }
            if author != own_index {
                match known.find(&author) {
                    Some(x) => {
                        known.entries[x].1.push(block_ref);
                        proof {
                            let changed = known.entries@[x as int].1;
                            known.lemma_set_value(before, x as int, changed);
                        }
                    },
                    None => {
                        let mut list: Vec<BlockRef> = Vec::new();
                        list.push(block_ref);
                        proof {
                            assert(!start@.dom().contains(author));
                            assert(known_refs(*missing, author, i as int) =~= Seq::empty());
                            assert(list@ =~= known_refs(*missing, author, i as int).push(
                                block_ref,
                            ));
                        }
                        known.insert(author, list);
                    },
                }
            }
            j = j + 1;
        }
        proof {
            authorities.lemma_items();
            assert(authorities.items().take(m as int) =~= authorities.items());
            assert forall|a: AuthorityIndex|
                authorities.items().contains(a) <==> authorities@.contains(a) by {
                assert(authorities.items().to_set().contains(a) <==> authorities@.contains(a));
            }
            assert forall|a: AuthorityIndex| #[trigger] known@.dom().contains(a) <==> a
                != own_index && known_refs(*missing, a, i + 1).len() > 0 by {
                assert(start@.dom().contains(a) <==> a != own_index && known_refs(
                    *missing,
                    a,
                    i as int,
                ).len() > 0);
            }
            assert(is_known_by(known, *missing, own_index, i + 1));
        }
        i = i + 1;
    }
    assert(known@.dom() =~= knowers(*missing, own_index));
    known
}

/// Picks some of the authorities at random, as many as asked for, or all where
/// there are fewer.
///
/// Calls `choose_multiple` of `rand::seq::IteratorRandom` with the thread's
/// random number generator. Each element of the list is picked at most once;
/// which ones, and their order, is left open.
#[verifier::external_body]
pub(crate) fn choose_authorities(list: Vec<AuthorityIndex>, amount: usize) -> (r: Vec<
    AuthorityIndex,
>)
    requires
        amount <= 256,
    ensures
        r@.to_multiset().subset_of(list@.to_multiset()),
        r@.len() == if amount <= list@.len() {
            amount as nat
        } else {
            list@.len()
        },
{
    list.into_iter().choose_multiple(&mut rand::thread_rng(), amount)
}

/// What comes of picking is of the list, each once.
proof fn lemma_chosen(list: Seq<AuthorityIndex>, r: Seq<AuthorityIndex>)
    requires
        list.no_duplicates(),
        r.to_multiset().subset_of(list.to_multiset()),
    ensures
        r.no_duplicates(),
        forall|a: AuthorityIndex| #[trigger] r.contains(a) ==> list.contains(a),
{
    broadcast use vstd::seq_lib::group_to_multiset_ensures;
    broadcast use vstd::multiset::group_multiset_axioms;

    list.to_multiset_ensures();
    r.to_multiset_ensures();
    list.lemma_multiset_has_no_duplicates();
    assert forall|a: AuthorityIndex| r.to_multiset().contains(a) implies r.to_multiset().count(a)
        == 1 by {
        assert(r.to_multiset().count(a) <= list.to_multiset().count(a));
        assert(list.to_multiset().contains(a));
    }
    r.lemma_multiset_has_no_duplicates_conv();
    assert forall|a: AuthorityIndex| #[trigger] r.contains(a) implies list.contains(a) by {
        assert(r.to_multiset().count(a) > 0);
        assert(r.to_multiset().count(a) <= list.to_multiset().count(a));
    }
}

/// Those of the list that are not among the others, in order.
pub open spec fn without(list: Seq<AuthorityIndex>, gone: Seq<AuthorityIndex>) -> Seq<
    AuthorityIndex,
>
    decreases list.len(),
{
    if list.len() == 0 {
        Seq::empty()
    } else if gone.contains(list.last()) {
        without(list.drop_last(), gone)
    } else {
        without(list.drop_last(), gone).push(list.last())
    }
}

proof fn lemma_without(list: Seq<AuthorityIndex>, gone: Seq<AuthorityIndex>)
    requires
        list.no_duplicates(),
    ensures
        without(list, gone).no_duplicates(),
        forall|a: AuthorityIndex| #[trigger]
            without(list, gone).contains(a) <==> list.contains(a) && !gone.contains(a),
    decreases list.len(),
{
    if list.len() > 0 {
        let init = list.drop_last();
        let last = list.last();
        lemma_without(init, gone);
        let rest = without(init, gone);
        let all = without(list, gone);
        assert(!init.contains(last));
        assert forall|a: AuthorityIndex| #[trigger] all.contains(a) <==> list.contains(a)
            && !gone.contains(a) by {
            assert(list.contains(a) <==> init.contains(a) || a == last) by {
                if init.contains(a) {
                    let i = choose|i: int| 0 <= i < init.len() && init[i] == a;
                    assert(list[i] == a);
                }
                if a == last {
                    assert(list[list.len() - 1] == a);
                }
                if list.contains(a) && a != last {
                    let i = choose|i: int| 0 <= i < list.len() && list[i] == a;
                    assert(init[i] == a);
                }
            }
            if !gone.contains(last) {
                if rest.contains(a) {
                    let i = choose|i: int| 0 <= i < rest.len() && rest[i] == a;
                    assert(all[i] == a);
                }
                if a == last {
                    assert(all[rest.len() as int] == a);
                }
                if all.contains(a) && a != last {
                    let i = choose|i: int| 0 <= i < all.len() && all[i] == a;
                    assert(rest[i] == a);
                }
            }
        }
        if !gone.contains(last) {
            assert(!rest.contains(last));
            assert forall|i: int, j: int|
                0 <= i < all.len() && 0 <= j < all.len() && i != j implies all[i] != all[j] by {
                if i < rest.len() && j < rest.len() {
                    assert(rest[i] != rest[j]);
                } else if i < rest.len() {
                    assert(rest.contains(rest[i]));
                } else {
                    assert(rest.contains(rest[j]));
                }
            }
        }
    }
}

fn contains_authority(list: &Vec<AuthorityIndex>, a: AuthorityIndex) -> (r: bool)
    ensures
        r == list@.contains(a),
{
    let mut i: usize = 0;
    while i < list.len()
        invariant
            i <= list@.len(),
            forall|k: int| 0 <= k < i ==> list@[k] != a,
        decreases list@.len() - i,
    {
        if list[i] == a {
            return true;
        }
        i = i + 1;
    }
    false
}

/// The other authorities that are not in the list, in order.
pub fn unchosen(
    committee_size: usize,
    own_index: AuthorityIndex,
    chosen: &Vec<AuthorityIndex>,
) -> (r: Vec<AuthorityIndex>)
    requires
        committee_size <= 256,
    ensures
        r@ == without(others(committee_size as int, own_index), chosen@),
{
    let all = other_authorities(committee_size, own_index);
    let mut r: Vec<AuthorityIndex> = Vec::new();
    let mut i: usize = 0;
    while i < all.len()
        invariant
            i <= all@.len(),
            r@ == without(all@.take(i as int), chosen@),
        decreases all@.len() - i,
    {
        proof {
            assert(all@.take(i + 1).drop_last() =~= all@.take(i as int));
        }
        if !contains_authority(chosen, all[i]) {
            r.push(all[i]);
        }
        i = i + 1;
    }
    assert(all@.take(i as int) =~= all@);
    r
}

/// Why a peer is asked.
#[derive(Clone, Copy, Debug, PartialEq, Eq, Structural)]
pub enum RequestLabel {
    /// It is known to have the headers.
    PeriodicKnown,
    /// It was picked at random.
    PeriodicRandom,
}

impl RequestLabel {
    pub open spec fn spec_as_str(&self) -> &'static str {
        match self {
            RequestLabel::PeriodicKnown => "periodic_known",
            RequestLabel::PeriodicRandom => "periodic_random",
        }
    }

    pub fn as_str(&self) -> (r: &'static str)
        ensures
            r == self.spec_as_str(),
    {
        match self {
            RequestLabel::PeriodicKnown => "periodic_known",
            RequestLabel::PeriodicRandom => "periodic_random",
        }
    }
}

/// What to ask of a peer.
#[derive(Debug)]
pub struct PlannedRequest {
    pub peer: AuthorityIndex,
    pub block_refs: Vec<BlockRef>,
    pub label: RequestLabel,
}

/// The first `max` of the headers.
pub open spec fn first_of(refs: Seq<BlockRef>, max: int) -> Seq<BlockRef> {
    if refs.len() <= max {
        refs
    } else {
        refs.take(max)
    }
}

/// How many of the peers picked at random there is something to ask of: one for
/// each chunk.
pub open spec fn random_count(random_peers: Seq<AuthorityIndex>, len: int, max: int) -> int {
    if random_peers.len() <= chunk_count(len, max) {
        random_peers.len() as int
    } else {
        chunk_count(len, max)
    }
}

/// Are these the requests: of each peer that is known to have missing headers,
/// the first of those, and of each of the other ones, a chunk of all?
pub open spec fn is_plan(
    missing: MissingHeaders,
    known_peers: Seq<AuthorityIndex>,
    random_peers: Seq<AuthorityIndex>,
    all_missing: Seq<BlockRef>,
    max: int,
    requests: Seq<PlannedRequest>,
) -> bool {
    let k = known_peers.len() as int;
    &&& requests.len() == k + random_count(random_peers, all_missing.len() as int, max)
    &&& forall|i: int|
        0 <= i < requests.len() ==> is_planned(
            missing,
            known_peers,
            random_peers,
            all_missing,
            max,
            i,
            #[trigger] requests[i],
        )
}

/// Is this the `i`-th request?
pub open spec fn is_planned(
    missing: MissingHeaders,
    known_peers: Seq<AuthorityIndex>,
    random_peers: Seq<AuthorityIndex>,
    all_missing: Seq<BlockRef>,
    max: int,
    i: int,
    request: PlannedRequest,
) -> bool {
    let k = known_peers.len() as int;
    if i < k {
        &&& request.peer == known_peers[i]
        &&& request.block_refs@ == first_of(refs_known_to(missing, known_peers[i]), max)
        &&& request.label == RequestLabel::PeriodicKnown
    } else {
        &&& request.peer == random_peers[i - k]
        &&& request.block_refs@ == chunk(all_missing, max, i - k)
        &&& request.label == RequestLabel::PeriodicRandom
    }
}

/// Plans the requests, once it is settled which peers to ask and in which order
/// to go through the missing headers.
pub fn plan_requests(
    missing: &MissingHeaders,
    own_index: AuthorityIndex,
    known_peers: &Vec<AuthorityIndex>,
    random_peers: &Vec<AuthorityIndex>,
    all_missing: &Vec<BlockRef>,
    max_headers_per_header_sync_fetch: usize,
) -> (requests: Vec<PlannedRequest>)
    requires
        missing_wf(*missing),
        max_headers_per_header_sync_fetch > 0,
        forall|i: int|
            0 <= i < known_peers@.len() ==> knowers(*missing, own_index).contains(
                #[trigger] known_peers@[i],
            ),
    ensures
        is_plan(
            *missing,
            known_peers@,
            random_peers@,
            all_missing@,
            max_headers_per_header_sync_fetch as int,
            requests@,
        ),
{
    let max: usize = max_headers_per_header_sync_fetch;
    let known = headers_by_authority(missing, own_index);
    let mut requests: Vec<PlannedRequest> = Vec::new();
    let mut i: usize = 0;
    while i < known_peers.len()
        invariant
            known.wf(),
            known@.dom() == knowers(*missing, own_index),
            forall|a: AuthorityIndex| #[trigger]
                known@.dom().contains(a) ==> known@[a]@ == refs_known_to(*missing, a),
            forall|i: int|
                0 <= i < known_peers@.len() ==> knowers(*missing, own_index).contains(
                    #[trigger] known_peers@[i],
                ),
            max == max_headers_per_header_sync_fetch,
            i <= known_peers@.len(),
            requests@.len() == i,
            forall|j: int|
                0 <= j < i ==> is_planned(
                    *missing,
                    known_peers@,
                    random_peers@,
                    all_missing@,
                    max as int,
                    j,
                    #[trigger] requests@[j],
                ),
        decreases known_peers@.len() - i,
    {
        let peer = known_peers[i];
        assert(knowers(*missing, own_index).contains(known_peers@[i as int]));
        assert(known@.dom().contains(peer));
        if let Some(list) = known.get(&peer) {
            let mut block_refs = list.clone();
            assert(block_refs@ =~= list@);
            if block_refs.len() > max {
                block_refs.truncate(max);
            }
            let request = PlannedRequest { peer, block_refs, label: RequestLabel::PeriodicKnown };
            assert(is_planned(
                *missing,
                known_peers@,
                random_peers@,
                all_missing@,
                max as int,
                i as int,
                request,
            ));
            requests.push(request);
        }
        i = i + 1;
    }
    let parts = chunks(all_missing, max);
    let ghost k = known_peers@.len() as int;
    let mut j: usize = 0;
    while j < random_peers.len() && j < parts.len()
        invariant
            max == max_headers_per_header_sync_fetch,
            k == known_peers@.len(),
            parts@.len() == chunk_count(all_missing@.len() as int, max as int),
            forall|i: int|
                0 <= i < parts@.len() ==> (#[trigger] parts@[i])@ == chunk(
                    all_missing@,
                    max as int,
                    i,
                ),
            j <= random_peers@.len(),
            j <= parts@.len(),
            requests@.len() == k + j,
            forall|i: int|
                0 <= i < k + j ==> is_planned(
                    *missing,
                    known_peers@,
                    random_peers@,
                    all_missing@,
                    max as int,
                    i,
                    #[trigger] requests@[i],
                ),
        decreases parts@.len() - j,
    {
        let block_refs = parts[j].clone();
        assert(block_refs@ =~= parts@[j as int]@);
        let request = PlannedRequest {
            peer: random_peers[j],
            block_refs,
            label: RequestLabel::PeriodicRandom,
        };
        assert(is_planned(
            *missing,
            known_peers@,
            random_peers@,
            all_missing@,
            max as int,
            k + j,
            request,
        ));
        requests.push(request);
        j = j + 1;
    }
    requests
}

/// The peers of the requests.
pub open spec fn peers_of(requests: Seq<PlannedRequest>) -> Seq<AuthorityIndex> {
    requests.map_values(|r: PlannedRequest| r.peer)
}

/// `a` or `b`, whichever is less.
pub open spec fn lesser(a: nat, b: nat) -> nat {
    if a <= b {
        a
    } else {
        b
    }
}

/// Can these have been picked: a few of the peers that are known to have missing
/// headers, a few of the others, and the missing headers in any order?
pub open spec fn are_choices(
    missing: MissingHeaders,
    committee_size: usize,
    own_index: AuthorityIndex,
    known_peers: Seq<AuthorityIndex>,
    random_peers: Seq<AuthorityIndex>,
    all_missing: Seq<BlockRef>,
) -> bool {
    let rest = without(others(committee_size as int, own_index), known_peers);
    &&& known_peers.no_duplicates()
    &&& forall|i: int|
        0 <= i < known_peers.len() ==> knowers(missing, own_index).contains(
            #[trigger] known_peers[i],
        )
    &&& known_peers.len() == lesser(
        (MAX_PERIODIC_SYNC_PEERS - MAX_PERIODIC_SYNC_RANDOM_PEERS) as nat,
        knowers(missing, own_index).len(),
    )
    &&& random_peers.no_duplicates()
    &&& forall|i: int| 0 <= i < random_peers.len() ==> rest.contains(#[trigger] random_peers[i])
    &&& random_peers.len() == lesser(MAX_PERIODIC_SYNC_RANDOM_PEERS as nat, rest.len())
    &&& all_missing.to_multiset() == missing.keys().to_multiset()
}

/// The requests of one run of the periodic synchronizer, and whom to ask where
/// one of them fails.
#[derive(Debug)]
pub struct PeriodicPlan {
    pub requests: Vec<PlannedRequest>,
    pub remaining_peers: Vec<AuthorityIndex>,
}

/// Decides at random whom to ask for missing headers: some of the peers that are
/// known to have any, and some of the others, and the rest where that fails.
pub fn plan_periodic_sync(
    missing: &MissingHeaders,
    committee_size: usize,
    own_index: AuthorityIndex,
    max_headers_per_header_sync_fetch: usize,
) -> (plan: PeriodicPlan)
    requires
        missing_wf(*missing),
        committee_size <= 256,
        max_headers_per_header_sync_fetch > 0,
    ensures
        exists|
            known_peers: Seq<AuthorityIndex>,
            random_peers: Seq<AuthorityIndex>,
            all_missing: Seq<BlockRef>,
        |
            {
                &&& are_choices(
                    *missing,
                    committee_size,
                    own_index,
                    known_peers,
                    random_peers,
                    all_missing,
                )
                &&& #[trigger] is_plan(
                    *missing,
                    known_peers,
                    random_peers,
                    all_missing,
                    max_headers_per_header_sync_fetch as int,
                    plan.requests@,
                )
            },
        plan.remaining_peers@.to_multiset() == without(
            others(committee_size as int, own_index),
            peers_of(plan.requests@),
        ).to_multiset(),
{
    let known = headers_by_authority(missing, own_index);
    let mut candidates: Vec<AuthorityIndex> = Vec::new();
    let mut i: usize = 0;
    while i < known.entries.len()
        invariant
            i <= known.entries@.len(),
            candidates@ == known.keys().take(i as int),
        decreases known.entries@.len() - i,
    {
        candidates.push(known.entries[i].0);
        i = i + 1;
        assert(candidates@ =~= known.keys().take(i as int));
    }
    let ghost listed = candidates@;
    proof {
        assert(listed =~= known.keys());
        known.lemma_keys();
    }
    let known_peers = choose_authorities(
        candidates,
        MAX_PERIODIC_SYNC_PEERS - MAX_PERIODIC_SYNC_RANDOM_PEERS,
    );
    proof {
        lemma_chosen(listed, known_peers@);
        assert forall|i: int| 0 <= i < known_peers@.len() implies knowers(
            *missing,
            own_index,
        ).contains(#[trigger] known_peers@[i]) by {
            assert(known_peers@.contains(known_peers@[i]));
            assert(listed.to_set().contains(known_peers@[i]));
        }
    }
    let random_candidates = unchosen(committee_size, own_index, &known_peers);
    let ghost rest = random_candidates@;
    let random_peers = choose_authorities(random_candidates, MAX_PERIODIC_SYNC_RANDOM_PEERS);
    proof {
        lemma_others(committee_size as int, own_index);
        lemma_without(others(committee_size as int, own_index), known_peers@);
        lemma_chosen(rest, random_peers@);
        assert forall|i: int| 0 <= i < random_peers@.len() implies rest.contains(
            #[trigger] random_peers@[i],
        ) by {
            assert(random_peers@.contains(random_peers@[i]));
        }
    }
    let mut all_missing: Vec<BlockRef> = Vec::new();
    let mut i: usize = 0;
    while i < missing.entries.len()
        invariant
            i <= missing.entries@.len(),
            all_missing@ == missing.keys().take(i as int),
        decreases missing.entries@.len() - i,
    {
        all_missing.push(missing.entries[i].0);
        i = i + 1;
        assert(all_missing@ =~= missing.keys().take(i as int));
    }
    let ghost in_order = all_missing@;
    shuffle_list(&mut all_missing);
    proof {
        assert(in_order =~= missing.keys());
        in_order.to_multiset_ensures();
        all_missing@.to_multiset_ensures();
    }
    let requests = plan_requests(
        missing,
        own_index,
        &known_peers,
        &random_peers,
        &all_missing,
        max_headers_per_header_sync_fetch,
    );
    let mut chosen: Vec<AuthorityIndex> = Vec::new();
    let mut i: usize = 0;
    while i < requests.len()
        invariant
            i <= requests@.len(),
            chosen@ == peers_of(requests@).take(i as int),
        decreases requests@.len() - i,
    {
        chosen.push(requests[i].peer);
        i = i + 1;
        assert(chosen@ =~= peers_of(requests@).take(i as int));
    }
    assert(chosen@ =~= peers_of(requests@));
    let mut remaining_peers = unchosen(committee_size, own_index, &chosen);
    shuffle_list(&mut remaining_peers);
    proof {
        assert(are_choices(
            *missing,
            committee_size,
            own_index,
            known_peers@,
            random_peers@,
            all_missing@,
        ));
    }
    let plan = PeriodicPlan { requests, remaining_peers };
    assert(is_plan(
        *missing,
        known_peers@,
        random_peers@,
        all_missing@,
        max_headers_per_header_sync_fetch as int,
        plan.requests@,
    ));
    plan
}

/// A run asks no peer twice and not this node itself, no more peers than it may,
/// none for nothing and none for more than it may ask for at a time.
pub proof fn law_plan_is_modest(
    missing: MissingHeaders,
    committee_size: usize,
    own_index: AuthorityIndex,
    known_peers: Seq<AuthorityIndex>,
    random_peers: Seq<AuthorityIndex>,
    all_missing: Seq<BlockRef>,
    max: int,
    requests: Seq<PlannedRequest>,
)
    requires
        committee_size <= 256,
        max > 0,
        are_choices(missing, committee_size, own_index, known_peers, random_peers, all_missing),
        is_plan(missing, known_peers, random_peers, all_missing, max, requests),
    ensures
        requests.len() <= MAX_PERIODIC_SYNC_PEERS,
        forall|i: int, j: int|
            0 <= i < j < requests.len() ==> (#[trigger] requests[i]).peer != (
            #[trigger] requests[j]).peer,
        forall|i: int|
            0 <= i < requests.len() ==> (#[trigger] requests[i]).peer != own_index && 0
                < requests[i].block_refs@.len() <= max,
{
    let all = others(committee_size as int, own_index);
    let rest = without(all, known_peers);
    let k = known_peers.len() as int;
    let c = chunk_count(all_missing.len() as int, max);
    lemma_others(committee_size as int, own_index);
    lemma_without(all, known_peers);
    assert forall|i: int| 0 <= i < requests.len() implies (#[trigger] requests[i]).peer
        != own_index && 0 < requests[i].block_refs@.len() <= max by {
        assert(is_planned(
            missing,
            known_peers,
            random_peers,
            all_missing,
            max,
            i,
            requests[i],
        ));
        if i < k {
            assert(knowers(missing, own_index).contains(known_peers[i]));
        } else {
            assert(rest.contains(random_peers[i - k]));
            let j = i - k;
            let l = all_missing.len() as int;
            assert(j < c);
            assert(j * max < l) by (nonlinear_arith)
                requires
                    j < (l + max - 1) / max,
                    max > 0,
            ;
            assert(0 <= j * max) by (nonlinear_arith)
                requires
                    0 <= j,
                    max > 0,
            ;
            assert((j + 1) * max == j * max + max) by (nonlinear_arith);
        }
    }
    assert forall|i: int, j: int| 0 <= i < j < requests.len() implies (#[trigger] requests[i]).peer
        != (#[trigger] requests[j]).peer by {
        assert(is_planned(
            missing,
            known_peers,
            random_peers,
            all_missing,
            max,
            i,
            requests[i],
        ));
        assert(is_planned(
            missing,
            known_peers,
            random_peers,
            all_missing,
            max,
            j,
            requests[j],
        ));
        if j < k {
            assert(known_peers[i] != known_peers[j]);
        } else if i >= k {
            assert(random_peers[i - k] != random_peers[j - k]);
        } else {
            assert(rest.contains(random_peers[j - k]));
            assert(known_peers.contains(known_peers[i]));
        }
    }
}

/// Where the missing headers are no more than may be asked for at a time, and
/// there is a peer to pick, one peer is asked for all of them.
pub proof fn law_few_missing_are_all_asked_for(
    missing: MissingHeaders,
    committee_size: usize,
    own_index: AuthorityIndex,
    known_peers: Seq<AuthorityIndex>,
    random_peers: Seq<AuthorityIndex>,
    all_missing: Seq<BlockRef>,
    max: int,
    requests: Seq<PlannedRequest>,
)
    requires
        0 < all_missing.len() <= max,
        are_choices(missing, committee_size, own_index, known_peers, random_peers, all_missing),
        is_plan(missing, known_peers, random_peers, all_missing, max, requests),
        without(others(committee_size as int, own_index), known_peers).len() > 0,
    ensures
        requests.len() == known_peers.len() + 1,
        requests.last().block_refs@.to_multiset() == missing.keys().to_multiset(),
{
    let k = known_peers.len() as int;
    let l = all_missing.len() as int;
    assert(chunk_count(l, max) == 1) by (nonlinear_arith)
        requires
            0 < l <= max,
            chunk_count(l, max) == (l + max - 1) / max,
    ;
    assert(is_planned(
        missing,
        known_peers,
        random_peers,
        all_missing,
        max,
        k,
        requests[k],
    ));
    assert(0 * max == 0 && 1 * max == max);
    assert(chunk(all_missing, max, 0) =~= all_missing);
}

/// The headers that a request can get a lock on.
pub open spec fn taken_from(locks: Locks, request: PlannedRequest) -> Set<BlockRef> {
    lockable(locks, request.block_refs@.to_set(), request.peer, SyncMethod::Periodic)
}

/// The locks once the first `n` requests have taken theirs.
pub open spec fn locks_after(locks: Locks, requests: Seq<PlannedRequest>, n: int) -> Locks
    decreases n,
{
    if n <= 0 {
        locks
    } else {
        let before = locks_after(locks, requests, n - 1);
        locked(before, taken_from(before, requests[n - 1]), requests[n - 1].peer)
    }
}

/// The headers that the `i`-th request gets a lock on.
pub open spec fn taken_by(locks: Locks, requests: Seq<PlannedRequest>, i: int) -> Set<BlockRef> {
    taken_from(locks_after(locks, requests, i), requests[i])
}

/// Which of the first `n` requests get a lock on anything.
pub open spec fn granted(locks: Locks, requests: Seq<PlannedRequest>, n: int) -> Seq<int>
    decreases n,
{
    if n <= 0 {
        Seq::empty()
    } else {
        let before = granted(locks, requests, n - 1);
        if taken_by(locks, requests, n - 1) == Set::<BlockRef>::empty() {
            before
        } else {
            before.push(n - 1)
        }
    }
}

/// Is this the guard of a request?
pub open spec fn is_guard(guard: BlocksGuard, peer: AuthorityIndex, refs: Set<BlockRef>) -> bool {
    &&& guard.block_refs.wf()
    &&& guard.block_refs@ == refs
    &&& guard.peer == peer
    &&& guard.method == SyncMethod::Periodic
}

/// Locks the headers of the requests one after the other. A request that gets a
/// lock on nothing is dropped.
pub fn lock_requests(
    inflight: &mut InflightBlockHeadersMap,
    requests: &Vec<PlannedRequest>,
) -> (guards: Vec<BlocksGuard>)
    requires
        old(inflight).wf(),
    ensures
        final(inflight).wf(),
        final(inflight)@ == locks_after(old(inflight)@, requests@, requests@.len() as int),
        ({
            let who = granted(old(inflight)@, requests@, requests@.len() as int);
            &&& guards@.len() == who.len()
            &&& forall|i: int|
                0 <= i < guards@.len() ==> is_guard(
                    #[trigger] guards@[i],
                    requests@[who[i]].peer,
                    taken_by(old(inflight)@, requests@, who[i]),
                )
        }),
        forall|i: int|
            0 <= i < guards@.len() ==> holds_all(
                final(inflight)@,
                (#[trigger] guards@[i]).block_refs@,
                guards@[i].peer,
            ),
{
    let ghost locks = inflight@;
    let mut guards: Vec<BlocksGuard> = Vec::new();
    let mut n: usize = 0;
    while n < requests.len()
        invariant
            locks == old(inflight)@,
            inflight.wf(),
            n <= requests@.len(),
            inflight@ == locks_after(locks, requests@, n as int),
            guards@.len() == granted(locks, requests@, n as int).len(),
            forall|i: int|
                0 <= i < guards@.len() ==> is_guard(
                    #[trigger] guards@[i],
                    requests@[granted(locks, requests@, n as int)[i]].peer,
                    taken_by(locks, requests@, granted(locks, requests@, n as int)[i]),
                ),
            forall|i: int|
                0 <= i < guards@.len() ==> holds_all(
                    inflight@,
                    (#[trigger] guards@[i]).block_refs@,
                    guards@[i].peer,
                ),
        decreases requests@.len() - n,
    {
        let ghost before = inflight@;
        let ghost guards0 = guards@;
        let refs = SortedSet::from_vec(&requests[n].block_refs);
        match inflight.lock_headers(&refs, requests[n].peer, SyncMethod::Periodic) {
            Some(guard) => {
                guards.push(guard);
            },
            None => {},
        }
        proof {
            assert forall|i: int| 0 <= i < guards0.len() implies holds_all(
                inflight@,
                (#[trigger] guards@[i]).block_refs@,
                guards@[i].peer,
            ) by {
                assert(guards@[i] == guards0[i]);
                assert(holds_all(before, guards0[i].block_refs@, guards0[i].peer));
                assert forall|r: BlockRef| #[trigger]
                    guards@[i].block_refs@.contains(r) implies holders(inflight@, r).contains(
                    guards@[i].peer,
                ) by {
                    assert(holders(before, r).contains(guards0[i].peer));
                }
            }
            let was = granted(locks, requests@, n as int);
            let now = granted(locks, requests@, n + 1);
            assert forall|i: int| 0 <= i < guards@.len() implies is_guard(
                #[trigger] guards@[i],
                requests@[now[i]].peer,
                taken_by(locks, requests@, now[i]),
            ) by {
                if i < guards0.len() {
                    assert(guards@[i] == guards0[i]);
                    assert(now[i] == was[i]);
                }
            }
        }
        n = n + 1;
    }
    guards
}

/// A request has failed: its headers are asked of the next of the remaining
/// peers, as far as they can be. Where no peer is left, they are unlocked.
pub fn on_failed_request(
    inflight: &mut InflightBlockHeadersMap,
    remaining_peers: &mut Vec<AuthorityIndex>,
    guard: BlocksGuard,
) -> (r: Option<BlocksGuard>)
    requires
        old(inflight).wf(),
        guard.block_refs.wf(),
        holds_all(old(inflight)@, guard.block_refs@, guard.peer),
    ensures
        final(inflight).wf(),
        ({
            let refs = guard.block_refs@;
            let freed = unlocked(old(inflight)@, refs, guard.peer);
            if old(remaining_peers)@.len() == 0 {
                &&& r is None
                &&& final(remaining_peers)@ == old(remaining_peers)@
                &&& final(inflight)@ == freed
            } else {
                let next = old(remaining_peers)@[0];
                let taken = lockable(freed, refs, next, guard.method);
                &&& final(remaining_peers)@ == old(remaining_peers)@.drop_first()
                &&& final(inflight)@ == locked(freed, taken, next)
                &&& match r {
                    None => taken == Set::<BlockRef>::empty(),
                    Some(again) => {
                        &&& taken != Set::<BlockRef>::empty()
                        &&& again.block_refs.wf()
                        &&& again.block_refs@ == taken
                        &&& again.peer == next
                        &&& again.method == guard.method
                        &&& holds_all(final(inflight)@, taken, next)
                    },
                }
            }
        }),
{
    if remaining_peers.len() == 0 {
        inflight.unlock_headers(&guard.block_refs, guard.peer);
        return None;
    }
    let ghost before = remaining_peers@;
    let next_peer = remaining_peers.remove(0);
    assert(remaining_peers@ =~= before.drop_first());
    inflight.swap_locks(guard, next_peer)
}

/// Is this the last round of the authority's headers in memory? It is genesis
/// where there are none.
pub open spec fn is_last_round(dag_state: DagState, a: AuthorityIndex, round: Round) -> bool {
    let q = dag_state.refs_in_range(
        a,
        dag_state@.evicted_rounds[a as int] + 1,
        Round::MAX as int,
    );
    if q == Set::<BlockRef>::empty() {
        round == GENESIS_ROUND
    } else {
        &&& exists|r: BlockRef| #[trigger] q.contains(r) && r.round == round
        &&& forall|r: BlockRef| #[trigger] q.contains(r) ==> r.round <= round
    }
}

/// Lists the round of the last header of each authority that was accepted.
pub fn get_highest_accepted_rounds(dag_state: &DagState) -> (r: Vec<Round>)
    requires
        dag_state.wf(),
        forall|a: int|
            0 <= a < dag_state.config.size() ==> (#[trigger] dag_state@.evicted_rounds[a])
                < Round::MAX - 1,
    ensures
        r@.len() == dag_state.config.size(),
        forall|a: int|
            0 <= a < r@.len() ==> is_last_round(*dag_state, a as AuthorityIndex, #[trigger] r@[a]),
{
    let headers = dag_state.get_last_cached_block_header_per_authority(Round::MAX);
    let mut r: Vec<Round> = Vec::new();
    let mut i: usize = 0;
    while i < headers.len()
        invariant
            dag_state.wf(),
            headers@.len() == dag_state.config.size(),
            forall|a: int|
                0 <= a < headers@.len() ==> dag_state.last_with_equivocations(
                    a as AuthorityIndex,
                    Round::MAX,
                    (#[trigger] headers@[a]).0,
                    headers@[a].1@,
                ),
            i <= headers@.len(),
            r@.len() == i,
            forall|a: int| 0 <= a < i ==> #[trigger] r@[a] == headers@[a].0.reference.round,
        decreases headers@.len() - i,
    {
        r.push(headers[i].0.reference.round);
        i = i + 1;
    }
    proof {
        assert forall|a: int| 0 <= a < r@.len() implies is_last_round(
            *dag_state,
            a as AuthorityIndex,
            #[trigger] r@[a],
        ) by {
            let h = headers@[a].0;
            assert(dag_state.last_with_equivocations(
                a as AuthorityIndex,
                Round::MAX,
                h,
                headers@[a].1@,
            ));
            let q = dag_state.refs_in_range(
                a as AuthorityIndex,
                dag_state@.evicted_rounds[a] + 1,
                Round::MAX as int,
            );
            if q == Set::<BlockRef>::empty() {
                assert(dag_state.genesis.entries@[a].0.round == GENESIS_ROUND);
            } else {
                lemma_greatest_is_last(q, h.reference);
                assert(q.contains(h.reference));
            }
        }
    }
    r
}

} // verus!
