//! What is asked of whom, and what is taken in, in terms of what is missing and what
//! came back.
use vstd::prelude::*;

use crate::commit_syncer::regular::chunk;
use crate::commit_syncer::verify::Rejection;
use crate::dag_state::state::DagState;
use crate::error::ConsensusError;
use crate::header::{Bytes, VerifiedBlockHeader};
use crate::header_synchronizer::commands::first_refs;
use crate::header_synchronizer::inflight::{
    holders, holds_all, lockable, locked, unlocked, BlocksGuard, Locks, SyncMethod,
};
use crate::header_synchronizer::own::{
    are_outcomes, highest_told, is_own, latest_round, own_fault, valid_headers,
};
use crate::header_synchronizer::periodic::{
    are_choices, first_of, granted, is_guard, is_last_round, is_plan, is_planned, known_refs,
    knowers, locks_after, peers_of, refs_known_to, taken_by, without, MissingHeaders,
    PlannedRequest, RequestLabel,
};
use crate::header_synchronizer::recent::{added, digest_key, used};
use crate::header_synchronizer::verify::{
    are_checks, at_most, checked, is_passed_over, verified_as, HeaderCheck,
};
use crate::refs::{AuthorityIndex, BlockRef, Digest, Key, Round};
use crate::sorted::SortedSet;
use crate::unordered::ItemKey;

verus! {

/// A header may be fetched from one peer at a time where it is asked for live, and from
/// three where the periodic synchronizer asks; never twice from the same one.
pub proof fn law_lock_limits(
    locks: Locks,
    refs: Set<BlockRef>,
    peer: AuthorityIndex,
    r: BlockRef,
)
    ensures
        lockable(locks, refs, peer, SyncMethod::Live).contains(r) <==> refs.contains(r)
            && (locks.dom().contains(r) ==> locks[r].len() < 1 && !locks[r].contains(peer)),
        lockable(locks, refs, peer, SyncMethod::Periodic).contains(r) <==> refs.contains(r)
            && (locks.dom().contains(r) ==> locks[r].len() < 3 && !locks[r].contains(peer)),
{
    assert(Set::<AuthorityIndex>::empty().len() == 0);
}

/// Locking adds the peer to the holders of exactly the headers locked. Unlocking takes
/// it away from exactly those, and a header that nobody holds is no longer locked.
pub proof fn law_locking(
    locks: Locks,
    refs: Set<BlockRef>,
    peer: AuthorityIndex,
    r: BlockRef,
    a: AuthorityIndex,
)
    ensures
        holders(locks, r).contains(a) <==> locks.dom().contains(r) && locks[r].contains(a),
        holders(locked(locks, refs, peer), r).contains(a) <==> holders(locks, r).contains(a) || (
        refs.contains(r) && a == peer),
        locked(locks, refs, peer).dom().contains(r) <==> locks.dom().contains(r) || refs.contains(
            r,
        ),
        holders(unlocked(locks, refs, peer), r).contains(a) <==> holders(locks, r).contains(a) && !(
        refs.contains(r) && a == peer),
        refs.contains(r) && unlocked(locks, refs, peer).dom().contains(r) ==> exists|
            other: AuthorityIndex,
        | other != peer && #[trigger] locks[r].contains(other),
        !refs.contains(r) ==> (unlocked(locks, refs, peer).dom().contains(r)
            <==> locks.dom().contains(r)),
        holds_all(locks, refs, peer) && refs.contains(r) ==> locks.dom().contains(r)
            && locks[r].contains(peer),
{
    let end = unlocked(locks, refs, peer);
    if refs.contains(r) && locks.dom().contains(r) {
        let rest = locks[r].remove(peer);
        if rest != Set::<AuthorityIndex>::empty() {
            assert(exists|x: AuthorityIndex| rest.contains(x)) by {
                if forall|x: AuthorityIndex| !rest.contains(x) {
                    assert(rest =~= Set::empty());
                }
            }
            let x = choose|x: AuthorityIndex| rest.contains(x);
            assert(locks[r].contains(x));
        } else {
            assert(!rest.contains(a));
        }
    }
}

/// No more is asked for than may be, and what is asked for are the first of the missing
/// headers.
pub proof fn law_first_refs(missing: SortedSet<BlockRef>, max: usize, r: BlockRef, q: BlockRef)
    requires
        missing.wf(),
    ensures
        first_refs(missing, max).contains(r) ==> missing@.contains(r),
        missing@.contains(r) && missing.items().len() <= max ==> first_refs(missing, max).contains(
            r,
        ),
        first_refs(missing, max).contains(r) && missing@.contains(q) && !first_refs(
            missing,
            max,
        ).contains(q) ==> r.rank() < q.rank(),
        first_refs(missing, max).finite(),
        first_refs(missing, max).len() <= max,
        missing.items().len() >= max ==> first_refs(missing, max).len() == max,
{
    let items = missing.items();
    let n = if items.len() <= max {
        items.len() as int
    } else {
        max as int
    };
    let first = items.take(n);
    assert(items.take(items.len() as int) =~= items);
    assert(first_refs(missing, max) == first.to_set());
    vstd::seq_lib::seq_to_set_is_finite(first);
    assert(first.no_duplicates()) by {
        assert forall|i: int, j: int|
            0 <= i < first.len() && 0 <= j < first.len() && i != j implies first[i]
            != first[j] by {
            if i < j {
                assert(items[i].rank() < items[j].rank());
            } else {
                assert(items[j].rank() < items[i].rank());
            }
        }
    }
    first.unique_seq_to_set();
    if first.contains(r) {
        let i = choose|i: int| 0 <= i < first.len() && first[i] == r;
        missing.lemma_item(i);
        if missing@.contains(q) && !first.contains(q) {
            let j = missing.lemma_position(q);
            if j < n {
                assert(first[j] == q);
            }
            assert(items[i].rank() < items[j].rank());
        }
    }
    if missing@.contains(r) && items.len() <= max {
        let j = missing.lemma_position(r);
        assert(first[j] == r);
    }
}

/// The latest round is that of one of the headers, and none is later; without headers
/// it is genesis.
pub proof fn law_latest_round(headers: Seq<VerifiedBlockHeader>)
    ensures
        headers.len() == 0 ==> latest_round(headers) == 0,
        forall|i: int|
            0 <= i < headers.len() ==> (#[trigger] headers[i]).reference.round <= latest_round(
                headers,
            ),
        latest_round(headers) == 0 || exists|i: int|
            0 <= i < headers.len() && (#[trigger] headers[i]).reference.round == latest_round(
                headers,
            ),
    decreases headers.len(),
{
    if headers.len() > 0 {
        let d = headers.drop_last();
        law_latest_round(d);
        let n = headers.len() - 1;
        assert forall|i: int| 0 <= i < headers.len() implies (#[trigger] headers[i]).reference.round
            <= latest_round(headers) by {
            if i < n {
                assert(d[i] == headers[i]);
            }
        }
        if latest_round(headers) == headers[n].reference.round {
        } else if latest_round(d) > 0 {
            let i = choose|i: int|
                0 <= i < d.len() && (#[trigger] d[i]).reference.round == latest_round(d);
            assert(headers[i] == d[i]);
        }
    }
}

/// The highest round told is one that some reply tells.
pub proof fn law_highest_told(replies: Seq<Seq<VerifiedBlockHeader>>)
    ensures
        highest_told(replies) == 0 || exists|k: int, i: int|
            0 <= k < replies.len() && 0 <= i < replies[k].len() && (
            #[trigger] replies[k][i]).reference.round == highest_told(replies),
        forall|k: int, i: int|
            0 <= k < replies.len() && 0 <= i < replies[k].len() ==> (
            #[trigger] replies[k][i]).reference.round <= highest_told(replies),
    decreases replies.len(),
{
    if replies.len() > 0 {
        let d = replies.drop_last();
        let n = replies.len() - 1;
        law_highest_told(d);
        law_latest_round(replies.last());
        assert forall|k: int, i: int|
            0 <= k < replies.len() && 0 <= i < replies[k].len() implies (
        #[trigger] replies[k][i]).reference.round <= highest_told(replies) by {
            if k < n {
                assert(d[k][i] == replies[k][i]);
            } else {
                assert(replies.last()[i] == replies[k][i]);
            }
        }
        let h = highest_told(replies);
        if h > 0 {
            if h == latest_round(replies.last()) {
                let last = replies.last();
                let i = choose|i: int|
                    0 <= i < last.len() && (#[trigger] last[i]).reference.round == h;
                assert(replies[n][i].reference.round == h);
            } else {
                let (k, i) = choose|k: int, i: int|
                    0 <= k < d.len() && 0 <= i < d[k].len() && (
                    #[trigger] d[k][i]).reference.round == h;
                assert(replies[k][i].reference.round == h);
            }
        }
    }
}

/// A header counts as this node's own exactly where it is valid and this node made it.
/// A valid one of somebody else is the peer's fault, and nobody is put on record; one
/// that is not valid is its author's, or the peer's where that is not known.
pub proof fn law_own_headers(
    checks: Seq<HeaderCheck>,
    own_index: AuthorityIndex,
    peer: AuthorityIndex,
    i: int,
    rejection: Rejection,
)
    requires
        0 <= i < checks.len(),
    ensures
        is_own(checks[i], own_index) <==> (checks[i] matches HeaderCheck::Valid(h)
            && h.reference.author == own_index),
        own_fault(checks, own_index, peer, i, rejection) ==> !is_own(checks[i], own_index),
        own_fault(checks, own_index, peer, i, rejection) ==> match checks[i] {
            HeaderCheck::Valid(h) => rejection.faulty_header_author is None && rejection.error == (
            ConsensusError::UnexpectedLastOwnHeader { index: peer, block_ref: h.reference }),
            HeaderCheck::Malformed(e) => rejection.faulty_header_author == Some(peer)
                && rejection.error == e,
            HeaderCheck::Invalid { author, error } => rejection.faulty_header_author == Some(
                author,
            ) && rejection.error == error,
        },
        checks[i] matches HeaderCheck::Valid(h) ==> valid_headers(checks)[i] == h,
        valid_headers(checks).len() == checks.len(),
{
}

/// An authority is known to have exactly those missing headers that it is listed for,
/// and they are told in the order in which they are missing.
pub proof fn law_known_to(missing: MissingHeaders, a: AuthorityIndex, r: BlockRef)
    requires
        missing.wf(),
    ensures
        refs_known_to(missing, a).contains(r) <==> exists|i: int|
            0 <= i < missing.entries@.len() && (#[trigger] missing.entries@[i]).0 == r
                && missing.entries@[i].1@.contains(a),
        forall|i: int, j: int|
            0 <= i < j < refs_known_to(missing, a).len() ==> (#[trigger] refs_known_to(
                missing,
                a,
            )[i]).rank() < (#[trigger] refs_known_to(missing, a)[j]).rank(),
{
    lemma_known(missing, a, missing.entries@.len() as int);
}

proof fn lemma_known(missing: MissingHeaders, a: AuthorityIndex, n: int)
    requires
        missing.wf(),
        0 <= n <= missing.entries@.len(),
    ensures
        forall|r: BlockRef| #[trigger]
            known_refs(missing, a, n).contains(r) <==> exists|i: int|
                0 <= i < n && (#[trigger] missing.entries@[i]).0 == r
                    && missing.entries@[i].1@.contains(a),
        forall|i: int, j: int|
            0 <= i < j < known_refs(missing, a, n).len() ==> (#[trigger] known_refs(
                missing,
                a,
                n,
            )[i]).rank() < (#[trigger] known_refs(missing, a, n)[j]).rank(),
    decreases n,
{
    if n > 0 {
        lemma_known(missing, a, n - 1);
        let rest = known_refs(missing, a, n - 1);
        let all = known_refs(missing, a, n);
        let last = missing.entries@[n - 1].0;
        assert forall|r: BlockRef| #[trigger] all.contains(r) <==> exists|i: int|
            0 <= i < n && (#[trigger] missing.entries@[i]).0 == r
                && missing.entries@[i].1@.contains(a) by {
            if all.contains(r) {
                let z = choose|z: int| 0 <= z < all.len() && all[z] == r;
                if z < rest.len() {
                    assert(rest[z] == r);
                    assert(rest.contains(r));
                    let i = choose|i: int|
                        0 <= i < n - 1 && (#[trigger] missing.entries@[i]).0 == r
                            && missing.entries@[i].1@.contains(a);
                    assert(missing.entries@[i].0 == r);
                } else {
                    assert(missing.entries@[n - 1].0 == r);
                }
            }
            if exists|i: int|
                0 <= i < n && (#[trigger] missing.entries@[i]).0 == r
                    && missing.entries@[i].1@.contains(a) {
                let i = choose|i: int|
                    0 <= i < n && (#[trigger] missing.entries@[i]).0 == r
                        && missing.entries@[i].1@.contains(a);
                if i < n - 1 {
                    assert(rest.contains(r));
                    let z = choose|z: int| 0 <= z < rest.len() && rest[z] == r;
                    assert(all[z] == r);
                } else {
                    assert(all[rest.len() as int] == r);
                }
            }
        }
        assert forall|i: int, j: int| 0 <= i < j < all.len() implies (#[trigger] all[i]).rank() < (
        #[trigger] all[j]).rank() by {
            assert(all[i] == rest[i]);
            if j < rest.len() {
                assert(all[j] == rest[j]);
            } else {
                assert(rest.contains(rest[i]));
                let x = choose|x: int|
                    0 <= x < n - 1 && (#[trigger] missing.entries@[x]).0 == rest[i]
                        && missing.entries@[x].1@.contains(a);
                assert(missing.keys()[x].rank() < missing.keys()[n - 1].rank());
            }
        }
    }
}

/// Somebody else may be asked as a knower exactly where it is listed for a missing
/// header.
pub proof fn law_knowers(missing: MissingHeaders, own_index: AuthorityIndex, a: AuthorityIndex)
    requires
        missing.wf(),
    ensures
        knowers(missing, own_index).contains(a) <==> a != own_index && exists|i: int|
            0 <= i < missing.entries@.len() && (#[trigger] missing.entries@[i]).1@.contains(a),
{
    lemma_known(missing, a, missing.entries@.len() as int);
    let refs = refs_known_to(missing, a);
    if refs.len() > 0 {
        assert(refs.contains(refs[0]));
    }
    if exists|i: int|
        0 <= i < missing.entries@.len() && (#[trigger] missing.entries@[i]).1@.contains(a) {
        let i = choose|i: int|
            0 <= i < missing.entries@.len() && (#[trigger] missing.entries@[i]).1@.contains(a);
        assert(refs.contains(missing.entries@[i].0));
    }
}

/// Leaving some out keeps the others, in order.
pub proof fn law_without(
    a: Seq<AuthorityIndex>,
    b: Seq<AuthorityIndex>,
    gone: Seq<AuthorityIndex>,
    x: AuthorityIndex,
)
    ensures
        without(a + b, gone) == without(a, gone) + without(b, gone),
        without(seq![x], gone) == if gone.contains(x) {
            Seq::empty()
        } else {
            seq![x]
        },
    decreases b.len(),
{
    reveal_with_fuel(without, 2);
    assert(seq![x].drop_last() =~= Seq::empty());
    assert(without(seq![x], gone) =~= if gone.contains(x) {
        Seq::empty()
    } else {
        seq![x]
    });
    if b.len() == 0 {
        assert(a + b =~= a);
        assert(without(a, gone) + without(b, gone) =~= without(a, gone));
    } else {
        law_without(a, b.drop_last(), gone, x);
        assert((a + b).drop_last() =~= a + b.drop_last());
        assert((a + b).last() == b.last());
        assert(without(a + b, gone) =~= without(a, gone) + without(b, gone));
    }
}

/// Up to two peers that have missing headers are picked, and up to two others; there
/// are fewer only where there are no more.
pub proof fn law_how_many_are_picked(
    missing: MissingHeaders,
    committee_size: usize,
    own_index: AuthorityIndex,
    known_peers: Seq<AuthorityIndex>,
    random_peers: Seq<AuthorityIndex>,
    all_missing: Seq<BlockRef>,
)
    requires
        are_choices(missing, committee_size, own_index, known_peers, random_peers, all_missing),
    ensures
        known_peers.len() <= 2,
        random_peers.len() <= 2,
        known_peers.len() < 2 ==> known_peers.len() == knowers(missing, own_index).len(),
        random_peers.len() < 2 ==> random_peers.len() == without(
            crate::commit_syncer::shared::others(committee_size as int, own_index),
            known_peers,
        ).len(),
        all_missing.to_multiset() == missing.keys().to_multiset(),
{
}

/// A peer that has missing headers is asked for the first of those that it has. The
/// others are asked for different parts of all that is missing.
pub proof fn law_what_peers_are_asked_for(
    missing: MissingHeaders,
    known_peers: Seq<AuthorityIndex>,
    random_peers: Seq<AuthorityIndex>,
    all_missing: Seq<BlockRef>,
    max: int,
    requests: Seq<PlannedRequest>,
    i: int,
    x: int,
)
    requires
        missing.wf(),
        max > 0,
        is_plan(missing, known_peers, random_peers, all_missing, max, requests),
        0 <= i < requests.len(),
        0 <= x < requests[i].block_refs@.len(),
    ensures
        i < known_peers.len() ==> {
            let r = requests[i].block_refs@[x];
            &&& requests[i].peer == known_peers[i]
            &&& requests[i].label == RequestLabel::PeriodicKnown
            &&& exists|e: int|
                0 <= e < missing.entries@.len() && (#[trigger] missing.entries@[e]).0 == r
                    && missing.entries@[e].1@.contains(known_peers[i])
            &&& x < max
        },
        i >= known_peers.len() ==> {
            let j = i - known_peers.len();
            &&& requests[i].peer == random_peers[j]
            &&& requests[i].label == RequestLabel::PeriodicRandom
            &&& x < max
            &&& 0 <= j * max + x < all_missing.len()
            &&& requests[i].block_refs@[x] == all_missing[j * max + x]
        },
{
    assert(is_planned(
        missing,
        known_peers,
        random_peers,
        all_missing,
        max,
        i,
        requests[i],
    ));
    let k = known_peers.len() as int;
    if i < k {
        let refs = refs_known_to(missing, known_peers[i]);
        let r = requests[i].block_refs@[x];
        assert(refs[x] == r);
        assert(refs.contains(r));
        law_known_to(missing, known_peers[i], r);
    } else {
        let j = i - k;
        assert((j + 1) * max == j * max + max) by (nonlinear_arith);
        assert(0 <= j * max) by (nonlinear_arith)
            requires
                0 <= j,
                max > 0,
        ;
        crate::commit_syncer::laws::law_chunk_sizes(all_missing, max, j);
        let c = chunk(all_missing, max, j);
        assert(requests[i].block_refs@ == c);
        let end = if (j + 1) * max < all_missing.len() {
            (j + 1) * max
        } else {
            all_missing.len() as int
        };
        let l = all_missing.len() as int;
        assert(j * max < l) by (nonlinear_arith)
            requires
                j < (l + max - 1) / max,
                max > 0,
        ;
        assert(c == all_missing.subrange(j * max, end));
        assert(c.len() == end - j * max);
        assert(c[x] == all_missing[j * max + x]);
    }
}

/// A list that is too long is cut at its end.
pub proof fn law_cut_at_the_end(refs: Seq<BlockRef>, max: int, serialized: Seq<Bytes>, n: usize)
    requires
        max >= 0,
    ensures
        first_of(refs, max).len() <= max,
        refs.len() <= max ==> first_of(refs, max) == refs,
        refs.len() > max ==> first_of(refs, max).len() == max,
        forall|i: int|
            0 <= i < first_of(refs, max).len() ==> #[trigger] first_of(refs, max)[i] == refs[i],
        at_most(serialized, n).len() <= n,
        serialized.len() <= n ==> at_most(serialized, n) == serialized,
        serialized.len() > n ==> at_most(serialized, n).len() == n,
        forall|i: int|
            0 <= i < at_most(serialized, n).len() ==> #[trigger] at_most(serialized, n)[i]
                == serialized[i],
{
}

/// Requests take their locks one after the other. A request is granted exactly where
/// there is a header of its own that it may lock: one that its peer is not asked for
/// and that fewer than three are.
pub proof fn law_granted(locks: Locks, requests: Seq<PlannedRequest>, n: int, i: int)
    requires
        0 <= n <= requests.len(),
    ensures
        granted(locks, requests, n).contains(i) <==> 0 <= i < n && exists|r: BlockRef|
            {
                let now = holders(locks_after(locks, requests, i), r);
                &&& #[trigger] requests[i].block_refs@.contains(r)
                &&& !now.contains(requests[i].peer)
                &&& now.len() < 3
            },
        forall|x: int, y: int|
            0 <= x < y < granted(locks, requests, n).len() ==> #[trigger] granted(
                locks,
                requests,
                n,
            )[x] < #[trigger] granted(locks, requests, n)[y],
        locks_after(locks, requests, 0) == locks,
        n > 0 ==> locks_after(locks, requests, n) == locked(
            locks_after(locks, requests, n - 1),
            taken_by(locks, requests, n - 1),
            requests[n - 1].peer,
        ),
    decreases n,
{
    if n > 0 {
        law_granted(locks, requests, n - 1, i);
        lemma_granted_below(locks, requests, n - 1);
        let before = granted(locks, requests, n - 1);
        let all = granted(locks, requests, n);
        let taken = taken_by(locks, requests, n - 1);
        let refs = requests[n - 1].block_refs@;
        let now = locks_after(locks, requests, n - 1);
        if taken != Set::<BlockRef>::empty() {
            assert(exists|r: BlockRef| taken.contains(r)) by {
                if forall|r: BlockRef| !taken.contains(r) {
                    assert(taken =~= Set::empty());
                }
            }
            let r = choose|r: BlockRef| taken.contains(r);
            assert(refs.contains(r));
            assert(all == before.push(n - 1));
            assert(all[before.len() as int] == n - 1);
            assert(forall|x: int| #[trigger] all.contains(x) <==> before.contains(x) || x == n - 1) by {
                assert forall|x: int| #[trigger] all.contains(x) <==> before.contains(x) || x == n
                    - 1 by {
                    if before.contains(x) {
                        let z = choose|z: int| 0 <= z < before.len() && before[z] == x;
                        assert(all[z] == x);
                    }
                }
            }
        } else if exists|r: BlockRef|
            {
                &&& #[trigger] refs.contains(r)
                &&& !holders(now, r).contains(requests[n - 1].peer)
                &&& holders(now, r).len() < 3
            } {
            let r = choose|r: BlockRef|
                {
                    &&& #[trigger] refs.contains(r)
                    &&& !holders(now, r).contains(requests[n - 1].peer)
                    &&& holders(now, r).len() < 3
                };
            assert(refs.to_set().contains(r));
            assert(taken.contains(r));
        }
        assert forall|x: int, y: int| 0 <= x < y < all.len() implies #[trigger] all[x]
            < #[trigger] all[y] by {
            if y < before.len() {
                assert(all[x] == before[x]);
                assert(all[y] == before[y]);
            } else {
                assert(all[x] == before[x]);
                assert(before[x] < n - 1);
            }
        }
    }
}

proof fn lemma_granted_below(locks: Locks, requests: Seq<PlannedRequest>, n: int)
    ensures
        forall|x: int|
            0 <= x < granted(locks, requests, n).len() ==> 0 <= #[trigger] granted(
                locks,
                requests,
                n,
            )[x] < n,
    decreases n,
{
    if n > 0 {
        lemma_granted_below(locks, requests, n - 1);
        let before = granted(locks, requests, n - 1);
        let all = granted(locks, requests, n);
        assert forall|x: int| 0 <= x < all.len() implies 0 <= #[trigger] all[x] < n by {
            if x < before.len() {
                assert(all[x] == before[x]);
            }
        }
    }
}

/// A guard is for exactly the headers that were locked for its peer.
pub proof fn law_guards(
    guard: BlocksGuard,
    peer: AuthorityIndex,
    refs: Set<BlockRef>,
    requests: Seq<PlannedRequest>,
    i: int,
)
    ensures
        is_guard(guard, peer, refs) ==> guard.peer == peer && guard.block_refs@ == refs
            && guard.method == SyncMethod::Periodic,
        0 <= i < requests.len() ==> peers_of(requests)[i] == requests[i].peer,
        peers_of(requests).len() == requests.len(),
{
}

/// The last round of an authority is that of a header in memory, and none there is
/// later; without any it is genesis.
pub proof fn law_last_round_of(s: DagState, a: AuthorityIndex, round: Round, r: BlockRef)
    requires
        is_last_round(s, a, round),
    ensures
        s@.headers.dom().contains(r) && r.author == a && r.round < Round::MAX && r.round
            > s@.evicted_rounds[a as int] ==> r.round <= round && exists|q: BlockRef| #[trigger]
            s@.headers.dom().contains(q) && q.author == a && q.round == round,
        (forall|q: BlockRef|
            !(#[trigger] s@.headers.dom().contains(q) && q.author == a)) ==> round == 0,
{
    let q = s.refs_in_range(a, s@.evicted_rounds[a as int] + 1, Round::MAX as int);
    if q.contains(r) {
        let b = choose|b: BlockRef| #[trigger] q.contains(b) && b.round == round;
        assert(s@.headers.dom().contains(b));
    }
    if forall|b: BlockRef| !(#[trigger] s@.headers.dom().contains(b) && b.author == a) {
        assert(q =~= Set::empty());
    }
}

/// A key that is put in is there, as the one used last. The others stay, but for the
/// one that was not used for the longest time, where there is no room for it. Using a
/// key only moves it to the front.
pub proof fn law_remembering(keys: Seq<ItemKey>, key: ItemKey, limit: nat, other: ItemKey)
    requires
        keys.no_duplicates(),
        0 < limit,
        keys.len() <= limit,
    ensures
        added(keys, key, limit)[0] == key,
        added(keys, key, limit).len() <= limit,
        other != key && added(keys, key, limit).contains(other) ==> keys.contains(other),
        other != key && keys.contains(other) && !added(keys, key, limit).contains(other)
            ==> keys.len() == limit && !keys.contains(key) && other == keys.last(),
        !keys.contains(key) && keys.len() == limit && keys.last() == other ==> !added(
            keys,
            key,
            limit,
        ).contains(other),
        used(keys, key).contains(other) <==> keys.contains(other),
        keys.contains(key) ==> used(keys, key)[0] == key,
        used(keys, key).len() == keys.len(),
{
    lemma_moved(keys, key, other);
    let a = added(keys, key, limit);
    if !keys.contains(key) {
        let rest = if keys.len() == limit {
            keys.drop_last()
        } else {
            keys
        };
        assert(a == seq![key] + rest);
        assert(a[0] == key);
        if rest.contains(other) {
            let i = choose|i: int| 0 <= i < rest.len() && rest[i] == other;
            assert(a[i + 1] == other);
            assert(keys[i] == other);
        }
        if a.contains(other) && other != key {
            let i = choose|i: int| 0 <= i < a.len() && a[i] == other;
            assert(rest[i - 1] == other);
            assert(keys[i - 1] == other);
        }
        if keys.contains(other) && !rest.contains(other) {
            let i = choose|i: int| 0 <= i < keys.len() && keys[i] == other;
            if i < rest.len() {
                assert(rest[i] == other);
            }
            assert(keys.last() == keys[keys.len() - 1]);
        }
        if keys.len() == limit && keys.last() == other && rest.contains(other) {
            let i = choose|i: int| 0 <= i < rest.len() && rest[i] == other;
            assert(keys[i] == keys[keys.len() - 1]);
        }
    }
}

proof fn lemma_moved(keys: Seq<ItemKey>, key: ItemKey, other: ItemKey)
    requires
        keys.no_duplicates(),
    ensures
        used(keys, key).contains(other) <==> keys.contains(other),
        keys.contains(key) ==> used(keys, key)[0] == key,
        used(keys, key).len() == keys.len(),
{
    if keys.contains(key) {
        let p = keys.index_of(key);
        assert(0 <= p < keys.len() && keys[p] == key);
        let rest = keys.remove(p);
        let u = used(keys, key);
        assert(u == seq![key] + rest);
        assert(u[0] == key);
        if keys.contains(other) {
            let i = choose|i: int| 0 <= i < keys.len() && keys[i] == other;
            if i < p {
                assert(u[i + 1] == other);
            } else if i > p {
                assert(u[i] == other);
            }
        }
        if u.contains(other) {
            let i = choose|i: int| 0 <= i < u.len() && u[i] == other;
            if i > 0 {
                let j = i - 1;
                if j < p {
                    assert(keys[j] == other);
                } else {
                    assert(keys[j + 1] == other);
                }
            }
        }
    }
}

/// Without an order to keep, using or adding a key brings in no other.
proof fn lemma_no_other(keys: Seq<ItemKey>, key: ItemKey, limit: nat, other: ItemKey)
    requires
        limit > 0,
    ensures
        used(keys, key).contains(other) ==> keys.contains(other),
        added(keys, key, limit).contains(other) ==> keys.contains(other) || other == key,
{
    let u = used(keys, key);
    let a = added(keys, key, limit);
    if u.contains(other) && keys.contains(key) {
        let p = keys.index_of(key);
        assert(0 <= p < keys.len() && keys[p] == key);
        let i = choose|i: int| 0 <= i < u.len() && u[i] == other;
        if i > 0 {
            if i - 1 < p {
                assert(keys[i - 1] == other);
            } else {
                assert(keys[i] == other);
            }
        }
    }
    if a.contains(other) && !keys.contains(key) {
        let i = choose|i: int| 0 <= i < a.len() && a[i] == other;
        if i > 0 {
            assert(keys[i - 1] == other);
        }
    }
}

proof fn lemma_checked(
    keys: Seq<ItemKey>,
    limit: nat,
    digests: Seq<Digest>,
    checks: Seq<HeaderCheck>,
    n: int,
)
    requires
        limit > 0,
        0 <= n <= digests.len(),
        checks.len() == digests.len(),
    ensures
        forall|key: ItemKey| #[trigger]
            checked(keys, limit, digests, checks, n).0.contains(key) ==> keys.contains(key)
                || exists|j: int| 0 <= j < n && digest_key(#[trigger] digests[j]) == key,
        forall|h: VerifiedBlockHeader| #[trigger]
            checked(keys, limit, digests, checks, n).1.contains(h) <==> exists|j: int|
                0 <= j < n && #[trigger] checks[j] == HeaderCheck::Valid(h) && !is_passed_over(
                    keys,
                    limit,
                    digests,
                    checks,
                    j,
                ),
    decreases n,
{
    if n > 0 {
        lemma_checked(keys, limit, digests, checks, n - 1);
        let (before, valid) = checked(keys, limit, digests, checks, n - 1);
        let (after, all) = checked(keys, limit, digests, checks, n);
        let key = digest_key(digests[n - 1]);
        assert forall|x: ItemKey| #[trigger] after.contains(x) implies keys.contains(x) || exists|
            j: int,
        | 0 <= j < n && digest_key(#[trigger] digests[j]) == x by {
            lemma_no_other(before, key, limit, x);
            if before.contains(x) {
                if !keys.contains(x) {
                    let j = choose|j: int|
                        0 <= j < n - 1 && digest_key(#[trigger] digests[j]) == x;
                    assert(digest_key(digests[j]) == x);
                }
            } else {
                assert(digest_key(digests[n - 1]) == x);
            }
        }
        assert forall|h: VerifiedBlockHeader| #[trigger] all.contains(h) <==> exists|j: int|
            0 <= j < n && #[trigger] checks[j] == HeaderCheck::Valid(h) && !is_passed_over(
                keys,
                limit,
                digests,
                checks,
                j,
            ) by {
            if all.contains(h) {
                let z = choose|z: int| 0 <= z < all.len() && all[z] == h;
                if z < valid.len() {
                    assert(valid[z] == h);
                    assert(valid.contains(h));
                    let j = choose|j: int|
                        0 <= j < n - 1 && #[trigger] checks[j] == HeaderCheck::Valid(h)
                            && !is_passed_over(keys, limit, digests, checks, j);
                    assert(checks[j] == HeaderCheck::Valid(h));
                } else {
                    assert(checks[n - 1] == HeaderCheck::Valid(h));
                }
            }
            if exists|j: int|
                0 <= j < n && #[trigger] checks[j] == HeaderCheck::Valid(h) && !is_passed_over(
                    keys,
                    limit,
                    digests,
                    checks,
                    j,
                ) {
                let j = choose|j: int|
                    0 <= j < n && #[trigger] checks[j] == HeaderCheck::Valid(h) && !is_passed_over(
                        keys,
                        limit,
                        digests,
                        checks,
                        j,
                    );
                if j < n - 1 {
                    assert(valid.contains(h));
                    let z = choose|z: int| 0 <= z < valid.len() && valid[z] == h;
                    assert(all[z] == h);
                } else {
                    assert(all[valid.len() as int] == h);
                }
            }
        }
    }
}

/// Where headers are accepted, each of them was checked and found valid; and each that
/// came in is among them, unless its digest was remembered or came in before it. Where
/// they are not, one of them was found invalid, and its author is to blame, or the peer
/// where the author is not known.
pub proof fn law_what_is_verified<
    D: Fn(Bytes) -> Digest,
    V: Fn(Bytes, Digest) -> HeaderCheck,
>(
    serialized: Seq<Bytes>,
    digest_of: &D,
    check: &V,
    peer: AuthorityIndex,
    keys: Seq<ItemKey>,
    limit: nat,
    keys_after: Seq<ItemKey>,
    r: Result<Vec<VerifiedBlockHeader>, Rejection>,
    i: int,
)
    requires
        limit > 0,
        verified_as(serialized, digest_of, check, peer, keys, limit, keys_after, r),
        0 <= i < serialized.len(),
    ensures
        match r {
            Ok(headers) => {
                &&& forall|h: VerifiedBlockHeader| #[trigger]
                    headers@.contains(h) ==> exists|j: int, d: Digest|
                        {
                            &&& 0 <= j < serialized.len()
                            &&& #[trigger] digest_of.ensures((serialized[j],), d)
                            &&& check.ensures((serialized[j], d), HeaderCheck::Valid(h))
                        }
                &&& (forall|d: Digest| #[trigger]
                    digest_of.ensures((serialized[i],), d) ==> !keys.contains((d.hi, d.lo))
                        && forall|j: int|
                        0 <= j < i ==> !digest_of.ensures((#[trigger] serialized[j],), d))
                    ==> exists|h: VerifiedBlockHeader, d: Digest|
                    {
                        &&& #[trigger] check.ensures((serialized[i], d), HeaderCheck::Valid(h))
                        &&& digest_of.ensures((serialized[i],), d)
                        &&& headers@.contains(h)
                    }
            },
            Err(rejection) => exists|j: int, d: Digest, c: HeaderCheck|
                {
                    &&& 0 <= j < serialized.len()
                    &&& digest_of.ensures((serialized[j],), d)
                    &&& #[trigger] check.ensures((serialized[j], d), c)
                    &&& match c {
                        HeaderCheck::Valid(_) => false,
                        HeaderCheck::Malformed(e) => rejection.error == e
                            && rejection.faulty_header_author == Some(peer),
                        HeaderCheck::Invalid { author, error } => rejection.error == error
                            && rejection.faulty_header_author == Some(author),
                    }
                },
        },
{
    let (digests, checks) = choose|digests: Seq<Digest>, checks: Seq<HeaderCheck>|
        {
            let n = digests.len() as int;
            &&& #[trigger] are_checks(serialized, digest_of, check, keys, limit, digests, checks)
            &&& match r {
                Ok(headers) => {
                    &&& n == serialized.len()
                    &&& crate::header_synchronizer::verify::are_fine(
                        keys,
                        limit,
                        digests,
                        checks,
                        n,
                    )
                    &&& headers@ == checked(keys, limit, digests, checks, n).1
                    &&& keys_after == checked(keys, limit, digests, checks, n).0
                },
                Err(rejection) => {
                    &&& n > 0
                    &&& crate::header_synchronizer::verify::are_fine(
                        keys,
                        limit,
                        digests,
                        checks,
                        n - 1,
                    )
                    &&& !is_passed_over(keys, limit, digests, checks, n - 1)
                    &&& checks[n - 1].rejected_as(peer, rejection)
                    &&& keys_after == checked(keys, limit, digests, checks, n - 1).0
                },
            }
        };
    let n = digests.len() as int;
    match r {
        Ok(headers) => {
            lemma_checked(keys, limit, digests, checks, n);
            assert forall|h: VerifiedBlockHeader| #[trigger] headers@.contains(h) implies exists|
                j: int,
                d: Digest,
            |
                {
                    &&& 0 <= j < serialized.len()
                    &&& #[trigger] digest_of.ensures((serialized[j],), d)
                    &&& check.ensures((serialized[j], d), HeaderCheck::Valid(h))
                } by {
                let j = choose|j: int|
                    0 <= j < n && #[trigger] checks[j] == HeaderCheck::Valid(h) && !is_passed_over(
                        keys,
                        limit,
                        digests,
                        checks,
                        j,
                    );
                assert(digest_of.ensures((serialized[j],), digests[j]));
                assert(check.ensures((serialized[j], digests[j]), checks[j]));
            }
            let d = digests[i];
            assert(digest_of.ensures((serialized[i],), d));
            if forall|d: Digest| #[trigger]
                digest_of.ensures((serialized[i],), d) ==> !keys.contains((d.hi, d.lo)) && forall|
                    j: int,
                | 0 <= j < i ==> !digest_of.ensures((#[trigger] serialized[j],), d) {
                lemma_checked(keys, limit, digests, checks, i);
                if is_passed_over(keys, limit, digests, checks, i) {
                    let j = choose|j: int|
                        0 <= j < i && digest_key(#[trigger] digests[j]) == digest_key(d);
                    assert(digests[j] == d);
                    assert(digest_of.ensures((serialized[j],), digests[j]));
                }
                assert(checks[i] is Valid);
                let h = checks[i]->Valid_0;
                assert(checks[i] == HeaderCheck::Valid(h));
                assert(check.ensures((serialized[i], d), checks[i]));
                assert(headers@.contains(h));
            }
        },
        Err(rejection) => {
            let j = n - 1;
            assert(digest_of.ensures((serialized[j],), digests[j]));
            assert(check.ensures((serialized[j], digests[j]), checks[j]));
        },
    }
}

/// One request goes to each peer that has missing headers, and one to each of the
/// others, as long as there is a part of what is missing for it.
pub proof fn law_how_many_requests(
    missing: MissingHeaders,
    known_peers: Seq<AuthorityIndex>,
    random_peers: Seq<AuthorityIndex>,
    all_missing: Seq<BlockRef>,
    max: int,
    requests: Seq<PlannedRequest>,
)
    requires
        max > 0,
        is_plan(missing, known_peers, random_peers, all_missing, max, requests),
    ensures
        known_peers.len() <= requests.len() <= known_peers.len() + random_peers.len(),
        requests.len() < known_peers.len() + random_peers.len() ==> (requests.len()
            - known_peers.len()) * max >= all_missing.len(),
{
    let l = all_missing.len() as int;
    let c = (l + max - 1) / max;
    assert(c >= 0 && c * max >= l) by (nonlinear_arith)
        requires
            c == (l + max - 1) / max,
            l >= 0,
            max > 0,
    ;
}

/// Each header of a reply is checked in turn, up to the first that does not count.
pub proof fn law_own_replies<V: Fn(Bytes) -> HeaderCheck>(
    serialized: Seq<Bytes>,
    check: &V,
    checks: Seq<HeaderCheck>,
    i: int,
)
    requires
        are_outcomes(serialized, check, checks),
        0 <= i < checks.len(),
    ensures
        checks.len() <= serialized.len(),
        check.ensures((serialized[i],), checks[i]),
{
}

/// The methods of asking, and the kinds of requests, are told apart by their names.
pub proof fn law_names_differ(a: SyncMethod, b: SyncMethod, x: RequestLabel, y: RequestLabel)
    ensures
        a.spec_as_str()@ == b.spec_as_str()@ ==> a == b,
        x.spec_as_str()@ == y.spec_as_str()@ ==> x == y,
{
    reveal_strlit("live");
    reveal_strlit("periodic");
    reveal_strlit("periodic_known");
    reveal_strlit("periodic_random");
    assert("live"@.len() == 4);
    assert("periodic"@.len() == 8);
    assert("periodic_known"@.len() == 14);
    assert("periodic_random"@.len() == 15);
}

} // verus!
