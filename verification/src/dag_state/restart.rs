//! What a restart brings back.
use vstd::prelude::*;

use crate::commit::{CommitInfo, SubDagBase, TrustedCommit};
use crate::dag_state::accept::commit_info_index;
use crate::dag_state::laws::{covered, header_at, transactions_at, StoreView};
use crate::dag_state::model::{
    max_of, raise_rounds, sat_sub, DagConfig, DagView, PendingWrites,
};
use crate::dag_state::recover::{
    raise_rounds_by, recovered, stored_rounds, subdags_of, unscored_commits,
};
use crate::dag_state::state::commit_in_range;
use crate::header::{VerifiedBlockHeader, VerifiedTransactions};
use crate::refs::{
    AuthorityIndex, BlockRef, CommitIndex, CommitRange, CommitRef, GenericTransactionRef, Round,
};

verus! {

/// The commits in storage, in order, and the last commit info.
pub ghost struct CommitLog {
    pub commits: Seq<TrustedCommit>,
    pub info: Option<(CommitRef, CommitInfo)>,
}

impl CommitLog {
    /// What storage holds after the batch has been written.
    pub open spec fn write(self, writes: PendingWrites) -> CommitLog {
        CommitLog {
            commits: self.commits + writes.commits,
            info: if writes.commit_info.len() > 0 {
                Some(writes.commit_info.last())
            } else {
                self.info
            },
        }
    }

    /// The last commit.
    pub open spec fn last(self) -> Option<TrustedCommit> {
        if self.commits.len() == 0 {
            None
        } else {
            Some(self.commits.last())
        }
    }
}

/// The highest round of `a` among the references; 0 where there is none.
pub open spec fn top_round(refs: Seq<BlockRef>, a: AuthorityIndex) -> Round
    decreases refs.len(),
{
    if refs.len() == 0 {
        0
    } else {
        let rest = top_round(refs.drop_last(), a);
        if refs.last().author == a {
            max_of(rest, refs.last().round)
        } else {
            rest
        }
    }
}

/// The highest round of `a` that the commits take in; 0 where there is none.
pub open spec fn top_committed(commits: Seq<TrustedCommit>, a: AuthorityIndex) -> Round
    decreases commits.len(),
{
    if commits.len() == 0 {
        0
    } else {
        max_of(
            top_committed(commits.drop_last(), a),
            top_round(commits.last().commit.block_headers@, a),
        )
    }
}

/// For each authority, the highest round that the commits take in.
pub open spec fn committed_rounds(cfg: DagConfig, commits: Seq<TrustedCommit>) -> Seq<Round> {
    Seq::new(cfg.size(), |a: int| top_committed(commits, a as AuthorityIndex))
}

/// Does the commit info say what the commits up to its own take in, and does what
/// was scored not reach beyond it?
pub open spec fn info_fits(
    cfg: DagConfig,
    commits: Seq<TrustedCommit>,
    info: (CommitRef, CommitInfo),
) -> bool {
    &&& info.0.index <= commits.len()
    &&& info.1.committed_rounds@ == committed_rounds(cfg, commits.take(info.0.index as int))
    &&& info.1.reputation_scores.commit_range.end <= info.0.index
}

/// Is the state that of the commits in storage and of those that wait to be
/// written?
pub open spec fn in_step(cfg: DagConfig, v: DagView, log: CommitLog) -> bool {
    let after = log.write(v.writes);
    &&& after.commits.len() <= CommitIndex::MAX
    &&& forall|i: int|
        0 <= i < after.commits.len() ==> (#[trigger] after.commits[i]).commit.index == i + 1
            && commit_in_range(cfg, after.commits[i])
    &&& v.last_commit == after.last()
    &&& v.last_committed_rounds == committed_rounds(cfg, after.commits)
    &&& after.info is Some ==> info_fits(cfg, after.commits, after.info->Some_0)
}

proof fn lemma_raise(rounds: Seq<Round>, refs: Seq<BlockRef>, a: AuthorityIndex)
    requires
        forall|i: int| 0 <= i < refs.len() ==> (#[trigger] refs[i]).author < rounds.len(),
        a < rounds.len(),
    ensures
        raise_rounds(rounds, refs).len() == rounds.len(),
        raise_rounds(rounds, refs)[a as int] == max_of(rounds[a as int], top_round(refs, a)),
    decreases refs.len(),
{
    if refs.len() > 0 {
        let d = refs.drop_last();
        assert forall|i: int| 0 <= i < d.len() implies (#[trigger] d[i]).author < rounds.len() by {
            assert(refs[i].author < rounds.len());
        }
        lemma_raise(rounds, d, a);
        assert(refs[refs.len() - 1].author < rounds.len());
    }
}

/// The commits without what they take in.
pub open spec fn commits_of(pairs: Seq<(TrustedCommit, SubDagBase)>) -> Seq<TrustedCommit> {
    pairs.map_values(|c: (TrustedCommit, SubDagBase)| c.0)
}

proof fn lemma_raise_by(
    cfg: DagConfig,
    rounds: Seq<Round>,
    pairs: Seq<(TrustedCommit, SubDagBase)>,
    a: AuthorityIndex,
)
    requires
        rounds.len() == cfg.size(),
        forall|i: int| 0 <= i < pairs.len() ==> commit_in_range(cfg, (#[trigger] pairs[i]).0),
        a < cfg.size(),
    ensures
        raise_rounds_by(rounds, pairs).len() == rounds.len(),
        raise_rounds_by(rounds, pairs)[a as int] == max_of(
            rounds[a as int],
            top_committed(commits_of(pairs), a),
        ),
    decreases pairs.len(),
{
    if pairs.len() > 0 {
        let d = pairs.drop_last();
        assert forall|i: int| 0 <= i < d.len() implies commit_in_range(
            cfg,
            (#[trigger] d[i]).0,
        ) by {
            assert(commit_in_range(cfg, pairs[i].0));
        }
        lemma_raise_by(cfg, rounds, d, a);
        assert(commits_of(pairs).drop_last() =~= commits_of(d));
        let c = pairs[pairs.len() - 1].0;
        assert(commit_in_range(cfg, c));
        let refs = c.commit.block_headers@;
        assert forall|i: int| 0 <= i < refs.len() implies (#[trigger] refs[i]).author
            < cfg.size() by {
            assert(cfg.committee.is_valid_index(refs[i].author));
        }
        lemma_raise(raise_rounds_by(rounds, d), refs, a);
    }
}

/// The commits from a place on, put after those before it, take in what all do.
proof fn lemma_top_split(commits: Seq<TrustedCommit>, n: int, a: AuthorityIndex)
    requires
        0 <= n <= commits.len(),
    ensures
        top_committed(commits, a) == max_of(
            top_committed(commits.take(n), a),
            top_committed(commits.skip(n), a),
        ),
    decreases commits.len(),
{
    if n == commits.len() {
        assert(commits.take(n) =~= commits);
        assert(commits.skip(n) =~= Seq::empty());
    } else {
        let d = commits.drop_last();
        lemma_top_split(d, n, a);
        assert(d.take(n) =~= commits.take(n));
        assert(commits.skip(n).drop_last() =~= d.skip(n));
        assert(commits.skip(n).last() == commits.last());
    }
}

/// Adding the next commit keeps the state that of the commits.
pub proof fn law_add_commit_keeps_in_step(
    cfg: DagConfig,
    v: DagView,
    log: CommitLog,
    c: TrustedCommit,
)
    requires
        cfg.wf(),
        in_step(cfg, v, log),
        commit_in_range(cfg, c),
        c.commit.index <= v.last_commit_index() + 1,
        v.last_commit is None ==> c.commit.index == 1,
    ensures
        in_step(cfg, v.add_commit(c), log),
{
    let w = v.add_commit(c);
    let before = log.write(v.writes);
    let after = log.write(w.writes);
    if w != v {
        assert(after.commits =~= before.commits.push(c));
        assert(after.commits.drop_last() =~= before.commits);
        assert(before.commits.len() == v.last_commit_index()) by {
            if before.commits.len() > 0 {
                assert(before.commits[before.commits.len() - 1].commit.index
                    == before.commits.len());
            }
        }
        assert forall|i: int| 0 <= i < after.commits.len() implies (
        #[trigger] after.commits[i]).commit.index == i + 1 && commit_in_range(
            cfg,
            after.commits[i],
        ) by {
            if i < before.commits.len() {
                assert(after.commits[i] == before.commits[i]);
            }
        }
        let refs = c.commit.block_headers@;
        assert forall|i: int| 0 <= i < refs.len() implies (#[trigger] refs[i]).author
            < cfg.size() by {
            assert(cfg.committee.is_valid_index(refs[i].author));
        }
        let goal = committed_rounds(cfg, after.commits);
        lemma_raise(v.last_committed_rounds, refs, cfg.own_index);
        assert forall|a: int| 0 <= a < cfg.size() implies #[trigger] w.last_committed_rounds[a]
            == goal[a] by {
            lemma_raise(v.last_committed_rounds, refs, a as AuthorityIndex);
        }
        assert(w.last_committed_rounds =~= goal);
        if after.info is Some {
            let info = after.info->Some_0;
            assert(after.commits.take(info.0.index as int) =~= before.commits.take(
                info.0.index as int,
            ));
        }
    }
}

/// Commit info on the last commit, about scores that do not reach beyond it, keeps
/// the state that of the commits.
pub proof fn law_add_commit_info_keeps_in_step(
    cfg: DagConfig,
    v: DagView,
    log: CommitLog,
    info: (CommitRef, CommitInfo),
)
    requires
        in_step(cfg, v, log),
        v.last_commit is Some,
        info.0 == v.last_commit->Some_0.spec_reference(),
        info.1.committed_rounds@ == v.last_committed_rounds,
        info.1.reputation_scores.commit_range.end <= v.last_commit_index(),
    ensures
        in_step(
            cfg,
            DagView {
                writes: PendingWrites {
                    commit_info: v.writes.commit_info.push(info),
                    ..v.writes
                },
                ..v
            },
            log,
        ),
{
    let before = log.write(v.writes);
    let n = before.commits.len() as int;
    assert(before.commits[n - 1].commit.index == n);
    assert(before.commits.take(n) =~= before.commits);
}

/// A flush whose batch is written keeps the state that of the commits.
pub proof fn law_flush_keeps_in_step(cfg: DagConfig, v: DagView, log: CommitLog)
    requires
        in_step(cfg, v, log),
    ensures
        in_step(cfg, v.hand_over_writes().evict(cfg), log.write(v.writes)),
{
    let w = v.hand_over_writes().evict(cfg);
    let after = log.write(v.writes);
    assert(after.write(w.writes).commits =~= after.commits);
}

/// What loading from storage leaves alone.
proof fn lemma_load_keeps(
    v: DagView,
    cfg: DagConfig,
    rounds: Seq<Round>,
    hs: Seq<Vec<VerifiedBlockHeader>>,
    ts: Seq<Vec<VerifiedTransactions>>,
    n: nat,
)
    ensures
        v.load_first(cfg, rounds, hs, ts, n).last_commit == v.last_commit,
        v.load_first(cfg, rounds, hs, ts, n).last_committed_rounds == v.last_committed_rounds,
        v.load_first(cfg, rounds, hs, ts, n).writes == v.writes,
    decreases n,
{
    if n > 0 {
        lemma_load_keeps(v, cfg, rounds, hs, ts, (n - 1) as nat);
        let w = v.load_first(cfg, rounds, hs, ts, (n - 1) as nat);
        let x = DagView {
            evicted_rounds: w.evicted_rounds.update(
                ((n - 1) as AuthorityIndex) as int,
                sat_sub(rounds[n - 1], cfg.cached_rounds),
            ),
            ..w
        };
        lemma_headers_keep(x, cfg, hs[n - 1]@);
        lemma_transactions_keep(x.insert_headers(cfg, hs[n - 1]@), cfg, ts[n - 1]@);
    }
}

proof fn lemma_headers_keep(v: DagView, cfg: DagConfig, hs: Seq<VerifiedBlockHeader>)
    ensures
        v.insert_headers(cfg, hs).last_commit == v.last_commit,
        v.insert_headers(cfg, hs).last_committed_rounds == v.last_committed_rounds,
        v.insert_headers(cfg, hs).writes == v.writes,
        v.insert_headers(cfg, hs).transactions == v.transactions,
    decreases hs.len(),
{
    if hs.len() > 0 {
        lemma_headers_keep(v, cfg, hs.drop_last());
    }
}

proof fn lemma_transactions_keep(v: DagView, cfg: DagConfig, ts: Seq<VerifiedTransactions>)
    ensures
        v.insert_all_transactions(cfg, ts).last_commit == v.last_commit,
        v.insert_all_transactions(cfg, ts).last_committed_rounds == v.last_committed_rounds,
        v.insert_all_transactions(cfg, ts).writes == v.writes,
        v.insert_all_transactions(cfg, ts).headers == v.headers,
    decreases ts.len(),
{
    if ts.len() > 0 {
        lemma_transactions_keep(v, cfg, ts.drop_last());
    }
}

/// A restart after everything has been written brings back the last commit and
/// the rounds that have been committed.
pub proof fn law_restart_restores_commits<
    S: Fn(CommitRange) -> Vec<(TrustedCommit, SubDagBase)>,
    H: Fn(AuthorityIndex, Round) -> Vec<VerifiedBlockHeader>,
    T: Fn(AuthorityIndex, Round) -> Vec<VerifiedTransactions>,
>(
    cfg: DagConfig,
    v: DagView,
    log: CommitLog,
    scan_commits: &S,
    scan_headers: &H,
    scan_transactions: &T,
    out: DagView,
    commits: Vec<(TrustedCommit, SubDagBase)>,
    hs: Seq<Vec<VerifiedBlockHeader>>,
    ts: Seq<Vec<VerifiedTransactions>>,
)
    requires
        cfg.wf(),
        in_step(cfg, v, log),
        v.writes == PendingWrites::none(),
        log.commits.len() < CommitIndex::MAX,
        recovered(
            cfg,
            log.last(),
            log.info,
            false,
            scan_commits,
            scan_headers,
            scan_transactions,
            out,
            commits,
            hs,
            ts,
        ),
        unscored_commits(log.last(), log.info) is Some ==> commits_of(commits@)
            == log.commits.skip(commit_info_index(log.info) as int),
    ensures
        out.last_commit == v.last_commit,
        out.last_committed_rounds == v.last_committed_rounds,
{
    let after = log.write(v.writes);
    assert(after.commits =~= log.commits);
    let rounds0 = stored_rounds(cfg, log.info);
    let rounds = raise_rounds_by(rounds0, commits@);
    let fresh = DagView::fresh(
        cfg,
        log.last(),
        rounds,
        subdags_of(commits@),
        false,
    );
    lemma_load_keeps(fresh, cfg, rounds, hs, ts, cfg.size());
    let len = log.commits.len() as int;
    let m = commit_info_index(log.info) as int;
    if len > 0 {
        assert(log.commits[len - 1].commit.index == len);
    }
    // Which commits the stored rounds are of.
    let n: int = match log.info {
        Some(info) => info.0.index as int,
        None => 0,
    };
    assert(m <= n <= len);
    assert(rounds0 =~= committed_rounds(cfg, log.commits.take(n))) by {
        if log.info is None {
            assert(log.commits.take(0) =~= Seq::empty());
        }
    }
    assert(unscored_commits(log.last(), log.info) is Some <==> m < len);
    assert(commits_of(commits@) =~= log.commits.skip(m)) by {
        if m == len {
            assert(commits@.len() == 0);
        }
    }
    assert forall|i: int| 0 <= i < commits@.len() implies commit_in_range(
        cfg,
        (#[trigger] commits@[i]).0,
    ) by {
        assert(commits_of(commits@)[i] == log.commits[m + i]);
        assert(commit_in_range(cfg, after.commits[m + i]));
    }
    assert forall|a: int| 0 <= a < cfg.size() implies rounds.len() == cfg.size()
        && #[trigger] rounds[a] == v.last_committed_rounds[a] by {
        let x = a as AuthorityIndex;
        lemma_raise_by(cfg, rounds0, commits@, x);
        lemma_top_split(log.commits, n, x);
        lemma_top_split(log.commits, m, x);
        lemma_top_split(log.commits.take(n), m, x);
        assert(log.commits.take(n).take(m) =~= log.commits.take(m));
    }
    assert(cfg.size() > 0);
    assert(rounds[0] == v.last_committed_rounds[0]);
    assert(rounds =~= v.last_committed_rounds);
}

/// Does storage hold these headers?
pub open spec fn holds_headers(st: StoreView, hs: Seq<VerifiedBlockHeader>) -> bool {
    forall|i: int|
        0 <= i < hs.len() ==> st.headers.dom().contains((#[trigger] hs[i]).reference)
            && st.headers[hs[i].reference] == hs[i]
}

/// Does storage hold these transactions, under the names that commits use?
pub open spec fn holds_transactions(
    cfg: DagConfig,
    st: StoreView,
    ts: Seq<VerifiedTransactions>,
) -> bool {
    forall|i: int|
        0 <= i < ts.len() ==> match (#[trigger] ts[i]).spec_generic_ref(
            cfg.consensus_fast_commit_sync,
        ) {
            Some(k) => st.transactions.dom().contains(k) && st.transactions[k] == ts[i]
                && ts[i].transaction_ref.author < cfg.size(),
            None => true,
        }
}

/// Is everything in memory in storage?
spec fn within(cfg: DagConfig, v: DagView, st: StoreView) -> bool {
    &&& v.transactions.len() == cfg.size()
    &&& forall|r: BlockRef| #[trigger]
        v.headers.dom().contains(r) ==> st.headers.dom().contains(r) && st.headers[r]
            == v.headers[r]
    &&& forall|a: int, k: GenericTransactionRef|
        0 <= a < cfg.size() && (#[trigger] v.transactions[a].dom().contains(k))
            ==> st.transactions.dom().contains(k) && st.transactions[k] == v.transactions[a][k]
}

proof fn lemma_headers_within(
    v: DagView,
    cfg: DagConfig,
    st: StoreView,
    hs: Seq<VerifiedBlockHeader>,
)
    requires
        within(cfg, v, st),
        holds_headers(st, hs),
    ensures
        within(cfg, v.insert_headers(cfg, hs), st),
    decreases hs.len(),
{
    if hs.len() > 0 {
        let d = hs.drop_last();
        assert(holds_headers(st, d)) by {
            assert forall|i: int| 0 <= i < d.len() implies st.headers.dom().contains(
                (#[trigger] d[i]).reference,
            ) && st.headers[d[i].reference] == d[i] by {
                assert(d[i] == hs[i]);
            }
        }
        lemma_headers_within(v, cfg, st, d);
        let h = hs[hs.len() - 1];
        assert(st.headers.dom().contains(h.reference));
    }
}

proof fn lemma_transactions_within(
    v: DagView,
    cfg: DagConfig,
    st: StoreView,
    ts: Seq<VerifiedTransactions>,
)
    requires
        within(cfg, v, st),
        holds_transactions(cfg, st, ts),
    ensures
        within(cfg, v.insert_all_transactions(cfg, ts), st),
    decreases ts.len(),
{
    if ts.len() > 0 {
        let d = ts.drop_last();
        assert(holds_transactions(cfg, st, d)) by {
            assert forall|i: int| 0 <= i < d.len() implies match (
            #[trigger] d[i]).spec_generic_ref(cfg.consensus_fast_commit_sync) {
                Some(k) => st.transactions.dom().contains(k) && st.transactions[k] == d[i]
                    && d[i].transaction_ref.author < cfg.size(),
                None => true,
            } by {
                assert(d[i] == ts[i]);
            }
        }
        lemma_transactions_within(v, cfg, st, d);
        let before = v.insert_all_transactions(cfg, d);
        let after = v.insert_all_transactions(cfg, ts);
        let t = ts[ts.len() - 1];
        assert forall|a: int, k: GenericTransactionRef|
            0 <= a < cfg.size() && (#[trigger] after.transactions[a].dom().contains(
                k,
            )) implies st.transactions.dom().contains(k) && st.transactions[k]
            == after.transactions[a][k] by {
            match t.spec_generic_ref(cfg.consensus_fast_commit_sync) {
                Some(name) => {
                    if !(a == t.transaction_ref.author && k == name) {
                        assert(before.transactions[a].dom().contains(k));
                    }
                },
                None => {
                    assert(before.transactions[a].dom().contains(k));
                },
            }
        }
    }
}

proof fn lemma_load_within(
    v: DagView,
    cfg: DagConfig,
    st: StoreView,
    rounds: Seq<Round>,
    hs: Seq<Vec<VerifiedBlockHeader>>,
    ts: Seq<Vec<VerifiedTransactions>>,
    n: nat,
)
    requires
        within(cfg, v, st),
        n <= hs.len(),
        n <= ts.len(),
        forall|a: int| 0 <= a < n ==> holds_headers(st, (#[trigger] hs[a])@),
        forall|a: int| 0 <= a < n ==> holds_transactions(cfg, st, (#[trigger] ts[a])@),
    ensures
        within(cfg, v.load_first(cfg, rounds, hs, ts, n), st),
    decreases n,
{
    if n > 0 {
        lemma_load_within(v, cfg, st, rounds, hs, ts, (n - 1) as nat);
        let w = v.load_first(cfg, rounds, hs, ts, (n - 1) as nat);
        let x = DagView {
            evicted_rounds: w.evicted_rounds.update(
                ((n - 1) as AuthorityIndex) as int,
                sat_sub(rounds[n - 1], cfg.cached_rounds),
            ),
            ..w
        };
        assert(within(cfg, x, st));
        assert(holds_headers(st, hs[n - 1]@));
        assert(holds_transactions(cfg, st, ts[n - 1]@));
        lemma_headers_within(x, cfg, st, hs[n - 1]@);
        lemma_transactions_within(x.insert_headers(cfg, hs[n - 1]@), cfg, st, ts[n - 1]@);
    }
}

/// A restart after everything has been written loses nothing: each header and each
/// block's transactions can be looked up after it just as before it.
pub proof fn law_restart_loses_nothing<
    S: Fn(CommitRange) -> Vec<(TrustedCommit, SubDagBase)>,
    H: Fn(AuthorityIndex, Round) -> Vec<VerifiedBlockHeader>,
    T: Fn(AuthorityIndex, Round) -> Vec<VerifiedTransactions>,
>(
    cfg: DagConfig,
    v: DagView,
    st: StoreView,
    last_commit: Option<TrustedCommit>,
    commit_info: Option<(CommitRef, CommitInfo)>,
    fast_sync_ongoing: bool,
    scan_commits: &S,
    scan_headers: &H,
    scan_transactions: &T,
    out: DagView,
    commits: Vec<(TrustedCommit, SubDagBase)>,
    hs: Seq<Vec<VerifiedBlockHeader>>,
    ts: Seq<Vec<VerifiedTransactions>>,
)
    requires
        cfg.wf(),
        v.inv(cfg),
        covered(cfg, v, st),
        v.writes == PendingWrites::none(),
        recovered(
            cfg,
            last_commit,
            commit_info,
            fast_sync_ongoing,
            scan_commits,
            scan_headers,
            scan_transactions,
            out,
            commits,
            hs,
            ts,
        ),
        forall|a: int| 0 <= a < cfg.size() ==> holds_headers(st, (#[trigger] hs[a])@),
        forall|a: int| 0 <= a < cfg.size() ==> holds_transactions(cfg, st, (#[trigger] ts[a])@),
    ensures
        forall|r: BlockRef| #[trigger] header_at(out, st, r) == header_at(v, st, r),
        forall|k: GenericTransactionRef|
            k.spec_author() < cfg.size() ==> #[trigger] transactions_at(out, st, k)
                == transactions_at(v, st, k),
{
    let rounds = raise_rounds_by(stored_rounds(cfg, commit_info), commits@);
    let fresh = DagView::fresh(
        cfg,
        last_commit,
        rounds,
        subdags_of(commits@),
        fast_sync_ongoing,
    );
    assert(within(cfg, fresh, st));
    lemma_load_within(fresh, cfg, st, rounds, hs, ts, cfg.size());
    let after = st.write(cfg, v.writes);
    assert(after.headers == st.headers);
    assert(after.transactions == st.transactions);
    assert forall|r: BlockRef| #[trigger] header_at(out, st, r) == header_at(v, st, r) by {
        if v.headers.dom().contains(r) {
            assert(st.headers.dom().contains(r));
        }
    }
    assert forall|k: GenericTransactionRef| k.spec_author() < cfg.size() implies
        #[trigger] transactions_at(out, st, k) == transactions_at(v, st, k) by {
        let a = k.spec_author() as int;
        if v.has_transactions(k) {
            assert(v.transactions[a].dom().contains(k));
        }
        if out.has_transactions(k) {
            assert(out.transactions[a].dom().contains(k));
        }
    }
}

} // verus!
