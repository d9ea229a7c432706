//! What holds of the state as a whole.
use vstd::prelude::*;

use crate::committee::{ClockView, Committee};
use crate::dag_state::model::{
    is_last, last_round, lemma_last_round, raise_rounds, survives, DagConfig, DagView,
    PendingWrites,
};
use crate::cordial_knowledge::messages::CordialKnowledgeMessage;
use crate::dag_state::accept::accepted;
use crate::dag_state::ranges::{is_greatest, lemma_greatest_is_last};
use crate::dag_state::source::DataSource;
use crate::dag_state::state::{acceptable_ref, DagState};
use crate::header::{VerifiedBlockHeader, VerifiedTransactions};
use crate::refs::{
    AuthorityIndex, BlockRef, CommitmentKey, GenericTransactionRef, Key, Round,
};

verus! {

/// What storage holds.
pub ghost struct StoreView {
    pub headers: Map<BlockRef, VerifiedBlockHeader>,
    pub transactions: Map<GenericTransactionRef, VerifiedTransactions>,
}

impl StoreView {
    /// The headers after these have been written too.
    pub open spec fn headers_with(self, hs: Seq<VerifiedBlockHeader>) -> Map<
        BlockRef,
        VerifiedBlockHeader,
    >
        decreases hs.len(),
    {
        if hs.len() == 0 {
            self.headers
        } else {
            self.headers_with(hs.drop_last()).insert(hs.last().reference, hs.last())
        }
    }

    /// The transactions after these have been written too, under the names that
    /// commits use.
    pub open spec fn transactions_with(
        self,
        ts: Seq<VerifiedTransactions>,
        by_commitment: bool,
    ) -> Map<GenericTransactionRef, VerifiedTransactions>
        decreases ts.len(),
    {
        if ts.len() == 0 {
            self.transactions
        } else {
            let before = self.transactions_with(ts.drop_last(), by_commitment);
            match ts.last().spec_generic_ref(by_commitment) {
                Some(k) => before.insert(k, ts.last()),
                None => before,
            }
        }
    }

    /// What storage holds after the batch has been written.
    pub open spec fn write(self, cfg: DagConfig, writes: PendingWrites) -> StoreView {
        StoreView {
            headers: self.headers_with(writes.block_headers),
            transactions: self.transactions_with(
                writes.transactions,
                cfg.consensus_fast_commit_sync,
            ),
        }
    }
}

/// How commits name the transactions.
pub open spec fn name_of(t: VerifiedTransactions, by_commitment: bool) -> Option<
    GenericTransactionRef,
> {
    t.spec_generic_ref(by_commitment)
}

/// The header at `r`: in memory, or else in storage.
pub open spec fn header_at(v: DagView, st: StoreView, r: BlockRef) -> Option<VerifiedBlockHeader> {
    if v.headers.dom().contains(r) {
        Some(v.headers[r])
    } else if st.headers.dom().contains(r) {
        Some(st.headers[r])
    } else {
        None
    }
}

/// The transactions that `k` names: in memory, or else in storage.
pub open spec fn transactions_at(v: DagView, st: StoreView, k: GenericTransactionRef) -> Option<
    VerifiedTransactions,
> {
    if v.has_transactions(k) {
        Some(v.transactions[k.spec_author() as int][k])
    } else if st.transactions.dom().contains(k) {
        Some(st.transactions[k])
    } else {
        None
    }
}

/// Is everything in memory also in storage, once what waits to be written has
/// been written?
pub open spec fn covered(cfg: DagConfig, v: DagView, st: StoreView) -> bool {
    let after = st.write(cfg, v.writes);
    &&& forall|r: BlockRef| #[trigger]
        v.headers.dom().contains(r) ==> after.headers.dom().contains(r) && after.headers[r]
            == v.headers[r]
    &&& forall|r: BlockRef| #[trigger]
        after.headers.dom().contains(r) ==> v.headers.dom().contains(r)
            || st.headers.dom().contains(r) && st.headers[r] == after.headers[r]
    &&& forall|a: int, k: GenericTransactionRef|
        0 <= a < cfg.size() && (#[trigger] v.transactions[a].dom().contains(k))
            ==> after.transactions.dom().contains(k) && after.transactions[k]
            == v.transactions[a][k]
    &&& forall|k: GenericTransactionRef| #[trigger]
        after.transactions.dom().contains(k) ==> (k.spec_author() < cfg.size()
            && v.has_transactions(k)) || st.transactions.dom().contains(k)
            && st.transactions[k] == after.transactions[k]
}

/// Accepting a header keeps memory covered by storage and what waits to be
/// written.
pub proof fn law_accept_keeps_covered(
    cfg: DagConfig,
    v: DagView,
    st: StoreView,
    h: VerifiedBlockHeader,
)
    requires
        cfg.wf(),
        v.inv(cfg),
        covered(cfg, v, st),
        acceptable_ref(cfg, h.reference),
    ensures
        covered(cfg, v.accept_header(cfg, h), st),
{
    let w = v.accept_header(cfg, h);
    let after = st.write(cfg, v.writes);
    let next = st.write(cfg, w.writes);
    assert(w.writes.block_headers.drop_last() =~= v.writes.block_headers);
    assert(next.headers == after.headers.insert(h.reference, h));
    assert(next.transactions == after.transactions);
}

/// Adding transactions keeps memory covered by storage and what waits to be
/// written.
pub proof fn law_add_transactions_keeps_covered(
    cfg: DagConfig,
    v: DagView,
    st: StoreView,
    t: VerifiedTransactions,
    acknowledge: bool,
)
    requires
        cfg.wf(),
        v.inv(cfg),
        covered(cfg, v, st),
        cfg.committee.is_valid_index(t.transaction_ref.author),
    ensures
        covered(cfg, v.add_transactions(cfg, t, acknowledge), st),
{
    let w = v.add_transactions(cfg, t, acknowledge);
    let name = name_of(t, cfg.consensus_fast_commit_sync);
    if name is Some && !v.has_transactions(name->Some_0) {
        let k = name->Some_0;
        let after = st.write(cfg, v.writes);
        let next = st.write(cfg, w.writes);
        assert(w.writes.transactions.drop_last() =~= v.writes.transactions);
        assert(next.transactions == after.transactions.insert(k, t));
        assert(next.headers == after.headers);
        let a = t.transaction_ref.author as int;
        assert forall|b: int, q: GenericTransactionRef|
            0 <= b < cfg.size() && (#[trigger] w.transactions[b].dom().contains(
                q,
            )) implies next.transactions.dom().contains(q) && next.transactions[q]
            == w.transactions[b][q] by {
            if b == a && q == k {
            } else {
                assert(v.transactions[b].dom().contains(q));
            }
        }
        assert forall|q: GenericTransactionRef| #[trigger]
            next.transactions.dom().contains(q) implies (q.spec_author() < cfg.size()
            && w.has_transactions(q)) || st.transactions.dom().contains(q)
            && st.transactions[q] == next.transactions[q] by {
            if q == k {
                assert(w.transactions[a].dom().contains(k));
            } else {
                assert(after.transactions.dom().contains(q));
                if q.spec_author() < cfg.size() && v.has_transactions(q) {
                    assert(w.transactions[q.spec_author() as int].dom().contains(q));
                }
            }
        }
    }
}

/// A flush whose batch is written loses nothing: each header and each block's
/// transactions can be looked up after it just as before it, and memory is then
/// covered by storage alone.
pub proof fn law_flush_loses_nothing(cfg: DagConfig, v: DagView, st: StoreView)
    requires
        cfg.wf(),
        v.inv(cfg),
        covered(cfg, v, st),
    ensures
        ({
            let w = v.hand_over_writes().evict(cfg);
            let after = st.write(cfg, v.writes);
            &&& covered(cfg, w, after)
            &&& w.writes == PendingWrites::none()
            &&& forall|r: BlockRef| #[trigger]
                header_at(w, after, r) == header_at(v, st, r)
            &&& forall|k: GenericTransactionRef|
                k.spec_author() < cfg.size() ==> #[trigger] transactions_at(w, after, k)
                    == transactions_at(v, st, k)
        }),
{
    let w = v.hand_over_writes().evict(cfg);
    let after = st.write(cfg, v.writes);
    let again = after.write(cfg, w.writes);
    assert(again.headers == after.headers);
    assert(again.transactions == after.transactions);
    assert forall|a: int, k: GenericTransactionRef|
        0 <= a < cfg.size() && (#[trigger] w.transactions[a].dom().contains(k)) implies
        v.transactions[a].dom().contains(k) && w.transactions[a][k] == v.transactions[a][k] by {}
    assert forall|r: BlockRef| #[trigger] w.headers.dom().contains(r) implies
        v.headers.dom().contains(r) && w.headers[r] == v.headers[r] by {}
    assert forall|r: BlockRef| #[trigger] header_at(w, after, r) == header_at(v, st, r) by {
        if v.headers.dom().contains(r) {
            assert(after.headers.dom().contains(r));
        } else {
            if after.headers.dom().contains(r) {
                assert(st.headers.dom().contains(r));
            }
            if st.headers.dom().contains(r) {
                lemma_headers_with_keeps(st, v.writes.block_headers, r);
            }
        }
    }
    assert forall|k: GenericTransactionRef| k.spec_author() < cfg.size() implies
        #[trigger] transactions_at(w, after, k) == transactions_at(v, st, k) by {
        let a = k.spec_author() as int;
        if v.has_transactions(k) {
            assert(v.transactions[a].dom().contains(k));
            assert(after.transactions.dom().contains(k));
            if w.has_transactions(k) {
                assert(w.transactions[a].dom().contains(k));
            }
        } else {
            if w.has_transactions(k) {
                assert(w.transactions[a].dom().contains(k));
            }
            if after.transactions.dom().contains(k) {
                assert(st.transactions.dom().contains(k));
            }
            if st.transactions.dom().contains(k) {
                lemma_transactions_with_keeps(
                    st,
                    v.writes.transactions,
                    cfg.consensus_fast_commit_sync,
                    k,
                );
            }
        }
    }
}

proof fn lemma_headers_with_keeps(st: StoreView, hs: Seq<VerifiedBlockHeader>, r: BlockRef)
    requires
        st.headers.dom().contains(r),
    ensures
        st.headers_with(hs).dom().contains(r),
    decreases hs.len(),
{
    if hs.len() > 0 {
        lemma_headers_with_keeps(st, hs.drop_last(), r);
    }
}

proof fn lemma_transactions_with_keeps(
    st: StoreView,
    ts: Seq<VerifiedTransactions>,
    by_commitment: bool,
    k: GenericTransactionRef,
)
    requires
        st.transactions.dom().contains(k),
    ensures
        st.transactions_with(ts, by_commitment).dom().contains(k),
    decreases ts.len(),
{
    if ts.len() > 0 {
        lemma_transactions_with_keeps(st, ts.drop_last(), by_commitment, k);
    }
}

/// After an eviction exactly the headers above their author's evicted round are
/// left in memory, and that round is never above the reach of the last commit.
pub proof fn law_evicted_rounds(cfg: DagConfig, v: DagView)
    requires
        cfg.wf(),
        v.inv(cfg),
    ensures
        ({
            let w = v.evict(cfg);
            &&& forall|r: BlockRef| #[trigger]
                w.headers.dom().contains(r) <==> v.headers.dom().contains(r) && r.round
                    > w.evicted_rounds[r.author as int]
            &&& forall|r: BlockRef| #[trigger]
                w.headers.dom().contains(r) ==> w.headers[r] == v.headers[r]
            &&& forall|a: int|
                0 <= a < cfg.size() ==> #[trigger] w.evicted_rounds[a] <= cfg.gc_round(
                    v.last_commit_round(),
                )
        }),
{
    let w = v.evict(cfg);
    assert forall|r: BlockRef| #[trigger] v.headers.dom().contains(r) implies
        w.evicted_rounds[r.author as int] == v.eviction_round(cfg, r.author) by {}
}

/// Headers that no commit has reached yet stay in memory.
pub proof fn law_uncommitted_headers_stay(cfg: DagConfig, v: DagView, r: BlockRef)
    requires
        cfg.wf(),
        v.inv(cfg),
        v.headers.dom().contains(r),
        r.round > v.last_commit_round(),
    ensures
        v.evict(cfg).headers.dom().contains(r),
{
    law_evicted_rounds(cfg, v);
}

/// Transactions that commits which are not solid yet can reach stay in memory.
pub proof fn law_unsolid_transactions_stay(cfg: DagConfig, v: DagView, k: GenericTransactionRef)
    requires
        cfg.wf(),
        v.inv(cfg),
        k.spec_author() < cfg.size(),
        v.has_transactions(k),
        k.spec_round() >= v.solid_gc_round(cfg),
    ensures
        v.evict(cfg).has_transactions(k),
{
    let a = k.spec_author() as int;
    assert(v.transactions[a].dom().contains(k));
    let w = v.evict_headers(cfg).evict_shards(cfg);
    assert(w.first_kept_round(cfg, k.spec_author()) <= w.solid_gc_round(cfg));
    assert(w.solid_gc_round(cfg) == v.solid_gc_round(cfg));
    assert(survives(
        k,
        cfg.consensus_fast_commit_sync,
        w.first_kept_round(cfg, k.spec_author()),
    ));
    assert(w.evict_transactions(cfg).transactions[a].dom().contains(k));
}

/// While at least one round is to be kept, the last header of each authority
/// stays, and evicting again changes nothing.
pub proof fn law_eviction_settles(cfg: DagConfig, v: DagView)
    requires
        cfg.wf(),
        v.inv(cfg),
        cfg.cached_rounds > 0,
    ensures
        forall|a: AuthorityIndex|
            last_round(#[trigger] v.evict_headers(cfg).refs_of(a)) == last_round(v.refs_of(a)),
        v.evict_headers(cfg).evict_headers(cfg) == v.evict_headers(cfg),
{
    let w = v.evict_headers(cfg);
    assert forall|a: AuthorityIndex| last_round(#[trigger] w.refs_of(a)) == last_round(
        v.refs_of(a),
    ) by {
        lemma_last_header_stays(cfg, v, a);
    }
    assert forall|a: AuthorityIndex| #[trigger] w.eviction_round(cfg, a) == v.eviction_round(
        cfg,
        a,
    ) by {
        assert(last_round(w.refs_of(a)) == last_round(v.refs_of(a)));
    }
    let u = w.evict_headers(cfg);
    assert(u.headers =~= w.headers) by {
        assert forall|r: BlockRef| #[trigger] w.headers.dom().contains(r) implies
            u.headers.dom().contains(r) by {
            assert(w.eviction_round(cfg, r.author) == v.eviction_round(cfg, r.author));
        }
    }
    assert(u.evicted_rounds =~= w.evicted_rounds) by {
        assert forall|a: int| 0 <= a < cfg.size() implies #[trigger] u.evicted_rounds[a]
            == w.evicted_rounds[a] by {
            assert(w.eviction_round(cfg, a as AuthorityIndex) == v.eviction_round(
                cfg,
                a as AuthorityIndex,
            ));
        }
    }
}

proof fn lemma_last_header_stays(cfg: DagConfig, v: DagView, a: AuthorityIndex)
    requires
        cfg.cached_rounds > 0,
        forall|r: BlockRef| #[trigger] v.headers.dom().contains(r) ==> r.round > 0,
    ensures
        last_round(v.evict_headers(cfg).refs_of(a)) == last_round(v.refs_of(a)),
{
    let w = v.evict_headers(cfg);
    let s = v.refs_of(a);
    let t = w.refs_of(a);
    if s == Set::<BlockRef>::empty() {
        assert(t =~= s) by {
            assert forall|r: BlockRef| !t.contains(r) by {
                if t.contains(r) {
                    assert(s.contains(r));
                }
            }
        }
    } else if exists|b: BlockRef| is_last(s, b) {
        let b = choose|b: BlockRef| is_last(s, b);
        lemma_last_round(s, b);
        assert(v.headers.dom().contains(b));
        assert(b.round > v.eviction_round(cfg, a));
        assert(w.headers.dom().contains(b));
        assert(t.contains(b));
        assert(is_last(t, b)) by {
            assert forall|c: BlockRef| #[trigger] t.contains(c) implies c.round <= b.round by {
                assert(s.contains(c));
            }
        }
        lemma_last_round(t, b);
    } else {
        lemma_rounds_have_last(s);
    }
}

/// Rounds are bounded, so a set that is not empty has a last reference.
pub(crate) proof fn lemma_rounds_have_last(s: Set<BlockRef>)
    requires
        s != Set::<BlockRef>::empty(),
    ensures
        exists|b: BlockRef| is_last(s, b),
{
    let x = s.choose();
    assert(s.contains(x)) by {
        if forall|b: BlockRef| !s.contains(b) {
            assert(s =~= Set::empty());
        }
    }
    lemma_climb(s, x);
}

proof fn lemma_climb(s: Set<BlockRef>, x: BlockRef)
    requires
        s.contains(x),
    ensures
        exists|b: BlockRef| is_last(s, b),
    decreases Round::MAX - x.round,
{
    if exists|c: BlockRef| s.contains(c) && c.round > x.round {
        let c = choose|c: BlockRef| s.contains(c) && c.round > x.round;
        lemma_climb(s, c);
    } else {
        assert(is_last(s, x));
    }
}

/// Is each header in memory found from what it commits to?
pub open spec fn resolvable(cfg: DagConfig, v: DagView) -> bool {
    forall|r: BlockRef| #[trigger]
        v.headers.dom().contains(r) ==> v.resolve(v.headers[r].spec_transaction_ref()) is Some
}

/// Taking in a header keeps the headers in memory resolvable, and the header
/// taken in is found from what it commits to.
pub proof fn law_insert_resolves(cfg: DagConfig, v: DagView, h: VerifiedBlockHeader)
    requires
        cfg.wf(),
        v.inv(cfg),
        resolvable(cfg, v),
        acceptable_ref(cfg, h.reference),
    ensures
        resolvable(cfg, v.insert_header(cfg, h)),
        v.insert_header(cfg, h).resolve(h.spec_transaction_ref()) == Some(h.reference),
{
    let w = v.insert_header(cfg, h);
    assert forall|r: BlockRef| #[trigger] w.headers.dom().contains(r) implies w.resolve(
        w.headers[r].spec_transaction_ref(),
    ) is Some by {
        if r != h.reference {
            assert(v.headers.dom().contains(r));
            assert(v.resolve(v.headers[r].spec_transaction_ref()) is Some);
        }
    }
}

/// Evicting keeps the headers in memory resolvable, unless fast synchronization
/// is under way.
pub proof fn law_evict_resolves(cfg: DagConfig, v: DagView)
    requires
        cfg.wf(),
        v.inv(cfg),
        resolvable(cfg, v),
        !v.fast_sync_ongoing,
    ensures
        resolvable(cfg, v.evict(cfg)),
{
    let e = v.evict_headers(cfg);
    let w = v.evict(cfg);
    assert forall|r: BlockRef| #[trigger] w.headers.dom().contains(r) implies w.resolve(
        w.headers[r].spec_transaction_ref(),
    ) is Some by {
        assert(v.headers.dom().contains(r));
        assert(v.resolve(v.headers[r].spec_transaction_ref()) is Some);
        let a = r.author;
        let s = v.refs_of(a);
        let t = e.refs_of(a);
        assert(t.contains(r));
        // The last header of the author is later than `r`, so it stays as well.
        lemma_rounds_have_last(t);
        let b = choose|b: BlockRef| is_last(t, b);
        lemma_last_round(t, b);
        assert(r.round <= b.round);
        assert(s.contains(b));
        lemma_rounds_have_last(s);
        let c = choose|c: BlockRef| is_last(s, c);
        lemma_last_round(s, c);
        assert(s.contains(c));
        assert(c.round >= b.round);
        assert(e.headers.dom().contains(c));
        assert(t.contains(c));
        assert(last_round(t) == last_round(s));
        assert(e.eviction_round(cfg, a) == v.eviction_round(cfg, a));
        let x = e.evict_shards(cfg).evict_transactions(cfg);
        assert(x.refs_of(a) =~= t);
        assert(x.first_kept_round(cfg, a) <= r.round);
        let k = CommitmentKey {
            round: r.round,
            transactions_commitment: v.headers[r].transactions_commitment,
        };
        assert(v.digests[a as int].dom().contains(k));
        assert(w.digests[a as int].dom().contains(k));
    }
}

/// The clock never goes back.
pub proof fn law_clock_monotone(
    committee: Committee,
    clock: ClockView,
    round: Round,
    author: AuthorityIndex,
)
    requires
        round < Round::MAX,
    ensures
        clock.add_header(committee, round, author).round >= clock.round,
        clock.add_header(committee, round, author).round >= round,
{
}

/// A commit raises each authority's committed round to that of its latest
/// header in the commit, and lowers none.
pub proof fn law_committed_rounds(rounds: Seq<Round>, refs: Seq<BlockRef>, a: AuthorityIndex)
    requires
        forall|i: int| 0 <= i < refs.len() ==> (#[trigger] refs[i]).author < rounds.len(),
        a < rounds.len(),
    ensures
        raise_rounds(rounds, refs).len() == rounds.len(),
        raise_rounds(rounds, refs)[a as int] >= rounds[a as int],
        forall|i: int|
            0 <= i < refs.len() && (#[trigger] refs[i]).author == a ==> raise_rounds(
                rounds,
                refs,
            )[a as int] >= refs[i].round,
        raise_rounds(rounds, refs)[a as int] == rounds[a as int] || exists|i: int|
            0 <= i < refs.len() && (#[trigger] refs[i]).author == a && refs[i].round
                == raise_rounds(rounds, refs)[a as int],
    decreases refs.len(),
{
    if refs.len() > 0 {
        let d = refs.drop_last();
        assert forall|i: int| 0 <= i < d.len() implies (#[trigger] d[i]).author < rounds.len() by {
            assert(refs[i].author < rounds.len());
        }
        law_committed_rounds(rounds, d, a);
        let before = raise_rounds(rounds, d);
        let after = raise_rounds(rounds, refs);
        let r = refs.last();
        assert(refs[refs.len() - 1].author < rounds.len());
        assert forall|i: int| 0 <= i < refs.len() && (#[trigger] refs[i]).author == a implies after[a as int]
            >= refs[i].round by {
            if i < d.len() {
                assert(d[i] == refs[i]);
            }
        }
        if after[a as int] == before[a as int] {
            if before[a as int] != rounds[a as int] {
                let i = choose|i: int|
                    0 <= i < d.len() && (#[trigger] d[i]).author == a && d[i].round
                        == before[a as int];
                assert(refs[i] == d[i]);
            }
        } else {
            assert(refs[refs.len() - 1] == r);
        }
    }
}

/// Is no header in memory above the highest accepted round?
pub open spec fn bounded_by_highest(v: DagView) -> bool {
    forall|r: BlockRef| #[trigger]
        v.headers.dom().contains(r) ==> r.round <= v.highest_accepted_round
}

/// The highest accepted round bounds the rounds of all headers in memory, and
/// never goes down.
pub proof fn law_highest_accepted_round(cfg: DagConfig, v: DagView, h: VerifiedBlockHeader)
    requires
        bounded_by_highest(v),
    ensures
        bounded_by_highest(v.insert_header(cfg, h)),
        bounded_by_highest(v.evict(cfg)),
        v.insert_header(cfg, h).highest_accepted_round >= v.highest_accepted_round,
        v.evict(cfg).highest_accepted_round == v.highest_accepted_round,
{
    let w = v.evict(cfg);
    assert forall|r: BlockRef| #[trigger] w.headers.dom().contains(r) implies r.round
        <= w.highest_accepted_round by {
        assert(v.headers.dom().contains(r));
    }
}

/// Do memory and storage hold no other header under the reference of `h`, and does
/// storage keep what it has?
pub open spec fn holds_no_other<
    C: Fn(BlockRef) -> bool,
    F: Fn(BlockRef) -> Option<VerifiedBlockHeader>,
>(state: DagState, contains: &C, read: &F, h: VerifiedBlockHeader) -> bool {
    let r = h.reference;
    &&& state@.headers.dom().contains(r) ==> state@.headers[r] == h
    &&& contains.ensures((r,), true) ==> {
        &&& !contains.ensures((r,), false)
        &&& forall|out: Option<VerifiedBlockHeader>| #[trigger]
            read.ensures((r,), out) ==> out == Some(h)
    }
}

/// A header up to whose round there are headers of its author in memory is not
/// above the highest accepted round.
proof fn lemma_not_above_highest(state: DagState, r: BlockRef)
    requires
        state.wf(),
        state.config.committee.is_valid_index(r.author),
        state@.refs_of(r.author) != Set::<BlockRef>::empty(),
        r.round <= last_round(state@.refs_of(r.author)),
    ensures
        r.round <= state@.highest_accepted_round,
{
    let s = state.recent_headers_refs_by_authority@[r.author as int];
    let q = state@.refs_of(r.author);
    assert(s.wf() && s@ == q);
    if s.items().len() == 0 {
        assert forall|b: BlockRef| !q.contains(b) by {
            if q.contains(b) {
                let k = s.lemma_position(b);
            }
        }
        assert(q =~= Set::<BlockRef>::empty());
    }
    let n = s.items().len() as int;
    let last = s.items()[n - 1];
    s.lemma_item(n - 1);
    assert(is_greatest(q, last)) by {
        assert forall|b: BlockRef| #[trigger] q.contains(b) implies b.rank() <= last.rank() by {
            let k = s.lemma_position(b);
            if k < n - 1 {
                assert(s.items()[k].rank() < s.items()[n - 1].rank());
            }
        }
    }
    lemma_greatest_is_last(q, last);
    assert(state@.headers.dom().contains(last));
}

/// A header that has just been accepted is found, and is not above the highest
/// accepted round. Accepting it again changes nothing and is no news.
pub proof fn law_accepted_header_is_found<
    C: Fn(BlockRef) -> bool,
    F: Fn(BlockRef) -> Option<VerifiedBlockHeader>,
>(
    before: DagState,
    after: DagState,
    h: VerifiedBlockHeader,
    source: DataSource,
    contains: &C,
    read: &F,
    news: Option<CordialKnowledgeMessage>,
)
    requires
        before.wf(),
        holds_no_other(before, contains, read, h),
        acceptable_ref(before.config, h.reference),
        after.same_setup(before),
        accepted(before, after, h, source, contains, read, news),
    ensures
        forall|out: Option<VerifiedBlockHeader>| #[trigger]
            after.found_header(read, h.reference, out) ==> out == Some(h),
        h.reference.round <= after@.highest_accepted_round,
        holds_no_other(after, contains, read, h),
        !after.known_header(contains, h.reference, false),
        forall|again: DagState, later: DataSource, more: Option<CordialKnowledgeMessage>| #[trigger]
            accepted(after, again, h, later, contains, read, more) ==> again@ == after@
                && more is None,
{
    let r = h.reference;
    let known = choose|known: bool|
        {
            &&& #[trigger] before.known_header(contains, r, known)
            &&& known ==> after@ == before@ && news is None
            &&& !known ==> after@ == before@.accept_header(before.config, h)
                && after.is_header_news(h, source, read, news)
        };
    assert(!before.genesis@.dom().contains(r));
    if known && !before@.headers.dom().contains(r) {
        lemma_not_above_highest(before, r);
    }
}

} // verus!
