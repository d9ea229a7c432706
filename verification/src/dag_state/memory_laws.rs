//! What comes into memory, what stays there and what is handed out, in terms of
//! rounds and references.
use vstd::prelude::*;

use crate::commit::{CommitInfo, TrustedCommit};
use crate::dag_state::accept::{commit_info_index, in_commits, recent_commits};
use crate::dag_state::laws::lemma_rounds_have_last;
use crate::dag_state::model::{
    is_last, last_round, lemma_last_round, sat_sub, DagConfig, DagView, PendingWrites,
};
use crate::dag_state::source::DataSource;
use crate::header::{Bytes, VerifiedBlockHeader, VerifiedTransactions};
use crate::refs::{
    lemma_refs_finite, AuthorityIndex, BlockRef, CommitIndex, CommitRef, CommitmentKey,
    GenericTransactionRef, Key, Round, TransactionRef,
};
use crate::sorted::ascending;

verus! {

/// Rounds are counted back, but not below zero.
pub proof fn law_counting_back(a: Round, b: Round, x: Round)
    ensures
        x <= sat_sub(a, b) <==> x == 0 || x + b <= a,
{
}

/// The last round in a set is that of one of its references, and of none is there a
/// later one; of an empty set it is genesis.
pub proof fn law_last_round(s: Set<BlockRef>, r: BlockRef)
    ensures
        s.contains(r) ==> r.round <= last_round(s),
        s.contains(r) ==> exists|b: BlockRef| s.contains(b) && #[trigger] b.round == last_round(s),
        (forall|b: BlockRef| !s.contains(b)) ==> last_round(s) == 0,
{
    if s.contains(r) {
        lemma_rounds_have_last(s);
        let b = choose|b: BlockRef| is_last(s, b);
        lemma_last_round(s, b);
        assert(s.contains(b) && b.round == last_round(s));
    } else if forall|b: BlockRef| !s.contains(b) {
        assert(s =~= Set::empty());
    }
}

/// The last commit is told by its leader's round and its index; without one both are
/// zero. What two times the depth or more before the leader is out of reach.
pub proof fn law_reach(cfg: DagConfig, v: DagView, x: Round)
    requires
        cfg.wf(),
    ensures
        v.last_commit is None ==> v.last_commit_round() == 0 && v.last_commit_index() == 0,
        v.last_commit matches Some(c) ==> v.last_commit_round() == c.commit.leader.round
            && v.last_commit_index() == c.commit.index,
        forall|round: Round|
            x <= #[trigger] cfg.gc_round(round) <==> x == 0 || x + cfg.gc_depth + cfg.gc_depth
                <= round,
        x <= v.solid_gc_round(cfg) <==> x == 0 || (v.last_solid_subdag_base matches Some(s) && x
            + cfg.gc_depth + cfg.gc_depth <= s.leader.round),
{
}

/// A round of an authority can go exactly where the last commit no longer reaches it
/// and the authority has a header in memory at least as many rounds further on as are
/// to be kept.
pub proof fn law_which_rounds_can_go(cfg: DagConfig, v: DagView, a: AuthorityIndex, x: Round)
    requires
        cfg.wf(),
    ensures
        x <= v.eviction_round(cfg, a) <==> x == 0 || {
            &&& v.last_commit matches Some(c)
            &&& x + cfg.gc_depth + cfg.gc_depth <= c.commit.leader.round
            &&& exists|r: BlockRef| #[trigger]
                v.headers.dom().contains(r) && r.author == a && x + cfg.cached_rounds <= r.round
        },
{
    let s = v.refs_of(a);
    let last = last_round(s);
    law_counting_back(last, cfg.cached_rounds, x);
    law_counting_back(v.last_commit_round(), (cfg.gc_depth * 2) as Round, x);
    if exists|r: BlockRef| #[trigger]
        v.headers.dom().contains(r) && r.author == a && x + cfg.cached_rounds <= r.round {
        let r = choose|r: BlockRef| #[trigger]
            v.headers.dom().contains(r) && r.author == a && x + cfg.cached_rounds <= r.round;
        law_last_round(s, r);
    }
    if x > 0 && x + cfg.cached_rounds <= last {
        assert(s != Set::<BlockRef>::empty());
        let b = s.choose();
        assert(s.contains(b)) by {
            if forall|q: BlockRef| !s.contains(q) {
                assert(s =~= Set::empty());
            }
        }
        law_last_round(s, b);
        let t = choose|t: BlockRef| s.contains(t) && #[trigger] t.round == last;
        assert(v.headers.dom().contains(t));
    }
}

/// Of an authority without headers in memory, or with fewer, no more can go.
proof fn lemma_fewer_go(cfg: DagConfig, v: DagView, a: AuthorityIndex)
    requires
        cfg.wf(),
    ensures
        v.evict_headers(cfg).eviction_round(cfg, a) <= v.eviction_round(cfg, a),
{
    let w = v.evict_headers(cfg);
    let x = w.eviction_round(cfg, a);
    law_which_rounds_can_go(cfg, w, a, x);
    law_which_rounds_can_go(cfg, v, a, x);
    if x > 0 {
        let r = choose|r: BlockRef| #[trigger]
            w.headers.dom().contains(r) && r.author == a && x + cfg.cached_rounds <= r.round;
        assert(v.headers.dom().contains(r));
    }
}

/// Dropping headers drops exactly those of rounds that can go, and notes which rounds
/// those are.
pub proof fn law_dropped_headers(cfg: DagConfig, v: DagView, r: BlockRef, a: AuthorityIndex)
    requires
        a < cfg.size(),
    ensures
        ({
            let w = v.evict_headers(cfg);
            &&& w.headers.dom().contains(r) <==> v.headers.dom().contains(r) && r.round
                > v.eviction_round(cfg, r.author)
            &&& w.headers.dom().contains(r) ==> w.headers[r] == v.headers[r]
            &&& w.evicted_rounds[a as int] == v.eviction_round(cfg, a)
            &&& v.eviction_rounds(cfg)[a as int] == v.eviction_round(cfg, a)
            &&& v.eviction_rounds(cfg).len() == cfg.size()
            &&& w == (DagView {
                headers: w.headers,
                evicted_rounds: w.evicted_rounds,
                ..v
            })
        }),
{
}

/// An own shard is in memory once it is added, with its bytes, and no other changes.
pub proof fn law_added_shard_is_there(
    v: DagView,
    k: GenericTransactionRef,
    shard: Bytes,
    other: GenericTransactionRef,
)
    requires
        k.spec_author() < v.shards.len(),
        other.spec_author() < v.shards.len(),
        other != k,
    ensures
        ({
            let w = v.add_shard(k, shard);
            let m = w.shards[other.spec_author() as int];
            let n = v.shards[other.spec_author() as int];
            &&& w.shards[k.spec_author() as int].dom().contains(k)
            &&& w.shards[k.spec_author() as int][k] == shard
            &&& m.dom().contains(other) <==> n.dom().contains(other)
            &&& n.dom().contains(other) ==> m[other] == n[other]
            &&& w == (DagView { shards: w.shards, ..v })
        }),
{
}

/// Own shards stay in memory, with the same bytes, while their round is above the
/// evicted round of their author. Those at or below a round that can go are dropped.
/// A shard is named as transactions are.
pub proof fn law_recent_shards_stay(cfg: DagConfig, v: DagView, k: GenericTransactionRef)
    requires
        cfg.wf(),
        v.inv(cfg),
        k.spec_author() < cfg.size(),
        k is TransactionRef <==> cfg.consensus_fast_commit_sync,
    ensures
        ({
            let a = k.spec_author() as int;
            let w = v.evict(cfg);
            &&& v.shards[a].dom().contains(k) && k.spec_round() > w.evicted_rounds[a]
                ==> w.shards[a].dom().contains(k) && w.shards[a][k] == v.shards[a][k]
            &&& w.shards[a].dom().contains(k) ==> v.shards[a].dom().contains(k)
        }),
        ({
            let a = k.spec_author() as int;
            let w = v.evict_shards(cfg);
            &&& w.shards[a].dom().contains(k) <==> v.shards[a].dom().contains(k) && k.spec_round()
                > v.eviction_round(cfg, k.spec_author())
            &&& w.shards[a].dom().contains(k) ==> w.shards[a][k] == v.shards[a][k]
            &&& w == (DagView { shards: w.shards, ..v })
        }),
{
    let a = k.spec_author();
    lemma_fewer_go(cfg, v, a);
    let e = v.evict_headers(cfg);
    let x = e.evict_shards(cfg);
    let w = v.evict(cfg);
    assert(w.shards == x.shards);
    assert(w.evicted_rounds[a as int] == v.eviction_round(cfg, a));
    lemma_round_below_max(cfg, v, a);
}

/// Transactions are dropped exactly where commits that are not solid yet do not reach
/// them and, unless fast synchronization is under way, their header can go too.
pub proof fn law_dropped_transactions(cfg: DagConfig, v: DagView, k: GenericTransactionRef)
    requires
        cfg.wf(),
        v.inv(cfg),
        k.spec_author() < cfg.size(),
        k is TransactionRef <==> cfg.consensus_fast_commit_sync,
    ensures
        ({
            let a = k.spec_author() as int;
            let w = v.evict_transactions(cfg);
            let stays = v.solid_gc_round(cfg) <= k.spec_round() || (!v.fast_sync_ongoing
                && v.eviction_round(cfg, k.spec_author()) < k.spec_round());
            &&& w.transactions[a].dom().contains(k) <==> v.transactions[a].dom().contains(k)
                && stays
            &&& w.transactions[a].dom().contains(k) ==> w.transactions[a][k]
                == v.transactions[a][k]
            &&& w == (DagView { transactions: w.transactions, ..v })
        }),
{
    lemma_round_below_max(cfg, v, k.spec_author());
}

proof fn lemma_round_below_max(cfg: DagConfig, v: DagView, a: AuthorityIndex)
    requires
        cfg.wf(),
        v.inv(cfg),
    ensures
        v.eviction_round(cfg, a) < Round::MAX,
{
    law_which_rounds_can_go(cfg, v, a, v.eviction_round(cfg, a));
}

/// With the transactions goes what tells their header from their commitment, and
/// nothing else of it.
pub proof fn law_dropped_digests(cfg: DagConfig, v: DagView, a: AuthorityIndex, k: CommitmentKey)
    requires
        cfg.wf(),
        v.inv(cfg),
        a < cfg.size(),
    ensures
        ({
            let w = v.evict_digests(cfg);
            let stays = v.solid_gc_round(cfg) <= k.round || (!v.fast_sync_ongoing
                && v.eviction_round(cfg, a) < k.round);
            &&& w.digests[a as int].dom().contains(k) <==> v.digests[a as int].dom().contains(k)
                && stays
            &&& w.digests[a as int].dom().contains(k) ==> w.digests[a as int][k]
                == v.digests[a as int][k]
            &&& w == (DagView { digests: w.digests, ..v })
        }),
{
    lemma_round_below_max(cfg, v, a);
}

/// Acknowledgments are forgotten once the clock is further on than they may reach
/// back, and no earlier.
pub proof fn law_old_acknowledgments_go(cfg: DagConfig, v: DagView, r: BlockRef)
    ensures
        v.evict_acknowledgments(cfg).pending_acknowledgments.contains(r)
            <==> v.pending_acknowledgments.contains(r) && v.clock.round <= r.round + cfg.gc_depth,
        v.evict_acknowledgments(cfg) == (DagView {
            pending_acknowledgments: v.evict_acknowledgments(cfg).pending_acknowledgments,
            ..v
        }),
{
}

/// An acknowledgment that is pending, of a round below the clock's and not too old, is
/// handed out where there is room; one of the clock's round or later never is. Of
/// those that are due, the first ones go first.
pub proof fn law_due_acknowledgments_are_handed_out(
    cfg: DagConfig,
    v: DagView,
    limit: nat,
    due: Seq<BlockRef>,
    out: Seq<BlockRef>,
    r: BlockRef,
)
    requires
        ascending(due),
        due.to_set() == v.evict_acknowledgments(cfg).ripe_acknowledgments(),
        out == if limit < due.len() {
            due.take(limit as int)
        } else {
            due
        },
    ensures
        v.pending_acknowledgments.contains(r) && v.clock.round <= r.round + cfg.gc_depth && r.round
            < v.clock.round && limit >= v.pending_acknowledgments.len() ==> out.contains(r),
        out.contains(r) ==> v.pending_acknowledgments.contains(r) && r.round < v.clock.round
            && v.clock.round <= r.round + cfg.gc_depth,
        out.len() <= limit,
        out.no_duplicates(),
        v.pending_acknowledgments.contains(r) && v.clock.round <= r.round + cfg.gc_depth && r.round
            < v.clock.round && !out.contains(r) ==> forall|i: int|
            0 <= i < out.len() ==> (#[trigger] out[i]).rank() < r.rank(),
{
    let kept = v.evict_acknowledgments(cfg);
    let ripe = kept.ripe_acknowledgments();
    let pending = v.pending_acknowledgments;
    assert(due.contains(r) <==> due.to_set().contains(r));
    assert(due.no_duplicates()) by {
        assert forall|i: int, j: int|
            0 <= i < due.len() && 0 <= j < due.len() && i != j implies due[i] != due[j] by {
            if i < j {
                assert(due[i].rank() < due[j].rank());
            } else {
                assert(due[j].rank() < due[i].rank());
            }
        }
    }
    lemma_refs_finite(pending);
    due.unique_seq_to_set();
    assert(ripe.subset_of(pending));
    vstd::set_lib::lemma_len_subset(ripe, pending);
    if out.contains(r) {
        let i = choose|i: int| 0 <= i < out.len() && out[i] == r;
        assert(due[i] == r);
        assert(due.to_set().contains(r));
    }
    if due.contains(r) {
        let j = choose|j: int| 0 <= j < due.len() && due[j] == r;
        if j < out.len() {
            assert(out[j] == r);
        } else {
            assert forall|i: int| 0 <= i < out.len() implies (#[trigger] out[i]).rank()
                < r.rank() by {
                assert(out[i] == due[i]);
            }
        }
    }
}

/// Transactions that come in, and that are neither empty nor too old, call for an
/// acknowledgment of their block: by the digest that came with them, or by the one
/// that memory has for their commitment.
pub proof fn law_what_is_acknowledged(cfg: DagConfig, v: DagView, t: VerifiedTransactions)
    ensures
        ({
            let r = t.transaction_ref;
            let fits = t.transactions@.len() > 0 && v.clock.round <= r.round + cfg.gc_depth;
            let k = CommitmentKey {
                round: r.round,
                transactions_commitment: r.transactions_commitment,
            };
            match v.due_acknowledgment(cfg, t) {
                Some(b) => {
                    &&& fits
                    &&& b.round == r.round
                    &&& b.author == r.author
                    &&& t.block_digest matches Some(d) ==> b.digest == d
                    &&& t.block_digest is None ==> v.digests[r.author as int].dom().contains(k)
                        && b.digest == v.digests[r.author as int][k]
                },
                None => !fits || (t.block_digest is None
                    && !v.digests[r.author as int].dom().contains(k)),
            }
        }),
{
}

/// Transactions are kept under the name in use. Where they are asked to be, they are
/// acknowledged; nothing else changes.
pub proof fn law_transactions_taken_in(
    cfg: DagConfig,
    v: DagView,
    t: VerifiedTransactions,
    acknowledge: bool,
    other: GenericTransactionRef,
)
    requires
        t.transaction_ref.author < v.transactions.len(),
        other.spec_author() < v.transactions.len(),
    ensures
        ({
            let w = v.insert_transactions(cfg, t, acknowledge);
            let a = t.transaction_ref.author as int;
            let named = cfg.consensus_fast_commit_sync || t.block_digest is Some;
            let k = if cfg.consensus_fast_commit_sync {
                GenericTransactionRef::TransactionRef(t.transaction_ref)
            } else {
                GenericTransactionRef::BlockRef(
                    BlockRef {
                        round: t.transaction_ref.round,
                        author: t.transaction_ref.author,
                        digest: t.block_digest->Some_0,
                    },
                )
            };
            let m = w.transactions[other.spec_author() as int];
            let n = v.transactions[other.spec_author() as int];
            &&& !named ==> w == v
            &&& named ==> w.transactions[a].dom().contains(k) && w.transactions[a][k] == t
            &&& other != k ==> (m.dom().contains(other) <==> n.dom().contains(other)) && (
            n.dom().contains(other) ==> m[other] == n[other])
            &&& forall|r: BlockRef| #[trigger]
                w.pending_acknowledgments.contains(r) <==> v.pending_acknowledgments.contains(r)
                    || (named && acknowledge && v.due_acknowledgment(cfg, t) == Some(r))
            &&& w == (DagView {
                transactions: w.transactions,
                pending_acknowledgments: w.pending_acknowledgments,
                ..v
            })
        }),
{
}

/// Transactions are added once: they are then in memory and wait to be written, and
/// adding them again changes nothing.
pub proof fn law_transactions_are_added_once(
    cfg: DagConfig,
    v: DagView,
    t: VerifiedTransactions,
    k: GenericTransactionRef,
    acknowledge: bool,
    again: bool,
)
    requires
        k.spec_author() < v.transactions.len(),
        k == if cfg.consensus_fast_commit_sync {
            GenericTransactionRef::TransactionRef(t.transaction_ref)
        } else {
            GenericTransactionRef::BlockRef(
                BlockRef {
                    round: t.transaction_ref.round,
                    author: t.transaction_ref.author,
                    digest: t.block_digest->Some_0,
                },
            )
        },
        cfg.consensus_fast_commit_sync || t.block_digest is Some,
    ensures
        ({
            let a = k.spec_author() as int;
            let w = v.add_transactions(cfg, t, acknowledge);
            &&& w.transactions[a].dom().contains(k)
            &&& v.transactions[a].dom().contains(k) ==> w == v
            &&& !v.transactions[a].dom().contains(k) ==> w.transactions[a][k] == t
                && w.writes.transactions == v.writes.transactions.push(t)
            &&& w.writes == (PendingWrites { transactions: w.writes.transactions, ..v.writes })
            &&& w.headers == v.headers
            &&& w.add_transactions(cfg, t, again) == w
        }),
{
}

/// A header that is taken in is in memory, counts for the clock and for the highest
/// round, and its commitment tells its digest. An accepted one waits to be written.
pub proof fn law_header_taken_in(cfg: DagConfig, v: DagView, h: VerifiedBlockHeader, r: BlockRef)
    requires
        h.reference.author < v.digests.len(),
    ensures
        ({
            let w = v.insert_header(cfg, h);
            let x = v.accept_header(cfg, h);
            let k = CommitmentKey {
                round: h.reference.round,
                transactions_commitment: h.transactions_commitment,
            };
            &&& w.headers.dom().contains(r) <==> v.headers.dom().contains(r) || r == h.reference
            &&& w.headers[h.reference] == h
            &&& r != h.reference && v.headers.dom().contains(r) ==> w.headers[r] == v.headers[r]
            &&& w.digests[h.reference.author as int][k] == h.reference.digest
            &&& w.digests[h.reference.author as int].dom().contains(k)
            &&& w.highest_accepted_round >= h.reference.round
            &&& w.highest_accepted_round >= v.highest_accepted_round
            &&& w.highest_accepted_round == h.reference.round || w.highest_accepted_round
                == v.highest_accepted_round
            &&& w.clock == v.clock.add_header(
                cfg.committee,
                h.reference.round,
                h.reference.author,
            )
            &&& w.writes == v.writes
            &&& w.transactions == v.transactions
            &&& w.shards == v.shards
            &&& w.pending_acknowledgments == v.pending_acknowledgments
            &&& x.headers == w.headers
            &&& x.clock == w.clock
            &&& x.highest_accepted_round == w.highest_accepted_round
            &&& x.writes.block_headers == v.writes.block_headers.push(h)
            &&& x.writes.transactions == v.writes.transactions
            &&& x.writes.commits == v.writes.commits
        }),
{
}

/// A commitment leads to the header whose digest memory has for it.
pub proof fn law_resolve(v: DagView, t: TransactionRef)
    ensures
        ({
            let m = v.digests[t.author as int];
            let k = CommitmentKey {
                round: t.round,
                transactions_commitment: t.transactions_commitment,
            };
            &&& v.resolve(t) is Some <==> m.dom().contains(k)
            &&& v.resolve(t) matches Some(r) ==> r.round == t.round && r.author == t.author
                && r.digest == m[k]
        }),
{
}

/// The next commit becomes the last one and waits to be written; one that is in
/// already changes nothing.
pub proof fn law_commit_added(v: DagView, c: TrustedCommit)
    ensures
        ({
            let w = v.add_commit(c);
            let known = v.last_commit matches Some(last) && c.commit.index <= last.commit.index;
            &&& known ==> w == v
            &&& !known ==> w.last_commit == Some(c) && w.writes.commits == v.writes.commits.push(c)
            &&& w.headers == v.headers
            &&& w.writes.block_headers == v.writes.block_headers
            &&& w.last_solid_subdag_base == v.last_solid_subdag_base
        }),
{
}

/// Handing over what waits to be written leaves nothing waiting, and memory as it is;
/// what is told of fast synchronization then holds.
pub proof fn law_handed_over(v: DagView)
    ensures
        ({
            let w = v.hand_over_writes();
            &&& w.writes.transactions.len() == 0
            &&& w.writes.block_headers.len() == 0
            &&& w.writes.commits.len() == 0
            &&& w.writes.commit_info.len() == 0
            &&& w.writes.voting_block_headers.len() == 0
            &&& w.writes.fast_sync_ongoing is None
            &&& w.fast_sync_ongoing == if v.writes.fast_sync_ongoing is Some {
                v.writes.fast_sync_ongoing->Some_0
            } else {
                v.fast_sync_ongoing
            }
            &&& w == (DagView {
                writes: w.writes,
                fast_sync_ongoing: w.fast_sync_ongoing,
                ..v
            })
        }),
{
}

/// What comes with commits or out of storage is no news to peers, and calls for no
/// acknowledgment; headers from fast synchronization are news, its transactions are
/// not acknowledged. All else is both.
pub proof fn law_sources(source: DataSource)
    ensures
        source.is_news() <==> match source {
            DataSource::CommitSyncer | DataSource::Recover => false,
            _ => true,
        },
        source.calls_for_acknowledgment() <==> match source {
            DataSource::FastCommitSyncer | DataSource::CommitSyncer | DataSource::Recover => false,
            _ => true,
        },
{
}

/// The recent commits are those up to the last one, as many as asked for or as there
/// are.
pub proof fn law_recent_commits(last: CommitIndex, num_commits: u32, i: CommitIndex)
    requires
        num_commits > 0,
        last > 0,
    ensures
        ({
            let range = recent_commits(last, num_commits);
            range.start <= i <= range.end <==> 0 < i <= last && last < i + num_commits
        }),
{
}

/// A header is in some commits exactly where one of them lists it.
pub proof fn law_in_commits(commits: Seq<TrustedCommit>, r: BlockRef)
    ensures
        in_commits(commits, r) <==> exists|i: int, j: int|
            0 <= i < commits.len() && 0 <= j < commits[i].commit.block_headers@.len()
                && #[trigger] commits[i].commit.block_headers@[j] == r,
{
    if in_commits(commits, r) {
        let i = choose|i: int|
            0 <= i < commits.len() && (#[trigger] commits[i]).commit.block_headers@.contains(r);
        let list = commits[i].commit.block_headers@;
        let j = choose|j: int| 0 <= j < list.len() && list[j] == r;
        assert(commits[i].commit.block_headers@[j] == r);
    }
    if exists|i: int, j: int|
        0 <= i < commits.len() && 0 <= j < commits[i].commit.block_headers@.len()
            && #[trigger] commits[i].commit.block_headers@[j] == r {
        let (i, j) = choose|i: int, j: int|
            0 <= i < commits.len() && 0 <= j < commits[i].commit.block_headers@.len()
                && #[trigger] commits[i].commit.block_headers@[j] == r;
        assert(commits[i].commit.block_headers@.contains(r));
    }
}

/// Commit info reaches up to the end of the commits that were scored, or to its own
/// commit where none were; without it nothing is reached.
pub proof fn law_commit_info_index(info: Option<(CommitRef, CommitInfo)>)
    ensures
        info is None ==> commit_info_index(info) == 0,
        info matches Some((commit_ref, i)) ==> commit_info_index(info)
            == if i.reputation_scores.commit_range.end > 0 {
            i.reputation_scores.commit_range.end
        } else {
            commit_ref.index
        },
{
}

} // verus!
