//! The last headers of the authorities, the ancestors of a header, and the last
//! quorum.
use vstd::prelude::*;

use crate::committee::StakeAggregator;
use crate::dag_state::ranges::{is_greatest, lists};
use crate::dag_state::state::DagState;
use crate::header::{share, VerifiedBlock, VerifiedBlockHeader};
use crate::refs::{
    lemma_refs_finite, lemma_triple_rank, AuthorityIndex, BlockRef, Digest, Key, Round, GENESIS_ROUND,
};
use crate::sorted::{ascending, SortedSet};

verus! {

/// Do the references descend?
pub open spec fn descending(s: Seq<BlockRef>) -> bool {
    forall|i: int, j: int| 0 <= i < j < s.len() ==> #[trigger] s[i].rank() > #[trigger] s[j].rank()
}

/// The references that are not in a set.
spec fn unseen(s: Set<BlockRef>) -> Set<BlockRef> {
    Set::new(|r: BlockRef| !s.contains(r))
}

/// What stands before the last element of a stretch, back to where the round
/// changes, is what shares its round with it.
proof fn lemma_equivocations(
    s: SortedSet<BlockRef>,
    q: Set<BlockRef>,
    lo: int,
    i: int,
    hi: int,
    others: Seq<BlockRef>,
)
    requires
        s.wf(),
        0 <= lo <= i < hi <= s.items().len(),
        forall|r: BlockRef| #[trigger] q.contains(r) ==> s@.contains(r),
        forall|k: int|
            0 <= k < s.items().len() ==> (q.contains(#[trigger] s.items()[k]) <==> lo <= k < hi),
        forall|k: int| i <= k < hi ==> (#[trigger] s.items()[k]).round == s.items()[hi - 1].round,
        i == lo || s.items()[i - 1].round != s.items()[hi - 1].round,
        others.len() == hi - 1 - i,
        forall|k: int| 0 <= k < others.len() ==> #[trigger] others[k] == s.items()[hi - 2 - k],
    ensures
        descending(others),
        others.to_set() == q.filter(
            |r: BlockRef| r.round == s.items()[hi - 1].round,
        ).remove(s.items()[hi - 1]),
{
    let last = s.items()[hi - 1];
    assert forall|x: int, y: int| 0 <= x < y < others.len() implies #[trigger] others[x].rank()
        > #[trigger] others[y].rank() by {
        assert(s.items()[hi - 2 - y].rank() < s.items()[hi - 2 - x].rank());
    }
    let same = q.filter(|r: BlockRef| r.round == last.round).remove(last);
    assert forall|r: BlockRef| others.to_set().contains(r) implies same.contains(r) by {
        let k = choose|k: int| 0 <= k < others.len() && others[k] == r;
        assert(s.items()[hi - 2 - k] == r);
        assert(s.items()[hi - 2 - k].rank() < s.items()[hi - 1].rank());
    }
    assert forall|r: BlockRef| same.contains(r) implies others.to_set().contains(r) by {
        let k = s.lemma_position(r);
        assert(lo <= k < hi);
        assert(k != hi - 1);
        if k < i {
            let e = s.items()[i - 1];
            if k < i - 1 {
                assert(s.items()[k].rank() < s.items()[i - 1].rank());
            }
            assert(s.items()[i - 1].rank() < s.items()[hi - 1].rank());
            lemma_triple_rank(r.round, r.author, r.digest, e.round, e.author, e.digest);
            lemma_triple_rank(
                e.round,
                e.author,
                e.digest,
                last.round,
                last.author,
                last.digest,
            );
        }
        assert(others[hi - 2 - k] == r);
    }
    assert(others.to_set() =~= same);
}

impl DagState {
    /// Is `out` the last header of `a` in memory below `end_round`, with the
    /// other headers that `a` made in the same round, latest first? Where there
    /// is none it is the genesis header.
    pub open spec fn last_with_equivocations(
        self,
        a: AuthorityIndex,
        end_round: Round,
        header: VerifiedBlockHeader,
        others: Seq<BlockRef>,
    ) -> bool {
        let q = self.refs_in_range(a, self@.evicted_rounds[a as int] + 1, end_round as int);
        if q == Set::<BlockRef>::empty() {
            header == self.genesis_header(a) && others == Seq::<BlockRef>::empty()
        } else {
            &&& is_greatest(q, header.reference)
            &&& self@.headers[header.reference] == header
            &&& descending(others)
            &&& others.to_set() == q.filter(
                |r: BlockRef| r.round == header.reference.round,
            ).remove(header.reference)
        }
    }

    /// Gets the last header of one authority below `end_round`, with the other
    /// ones that it made in that round.
    fn get_last_cached_of(&self, a: AuthorityIndex, end_round: Round) -> (out: (
        VerifiedBlockHeader,
        Vec<BlockRef>,
    ))
        requires
            self.wf(),
            self.config.committee.is_valid_index(a),
            end_round > self@.evicted_rounds[a as int],
        ensures
            self.last_with_equivocations(a, end_round, out.0, out.1@),
    {
        let evicted: Round = self.evicted_rounds[a as usize];
        let ghost q = self.refs_in_range(a, evicted + 1, end_round as int);
        let (lo, hi) = self.round_positions(a, evicted + 1, end_round);
        let s = &self.recent_headers_refs_by_authority[a as usize];
        assert(s@ == self@.refs_of(a));
        let mut others: Vec<BlockRef> = Vec::new();
        if lo == hi {
            proof {
                assert(q =~= Set::<BlockRef>::empty()) by {
                    assert forall|r: BlockRef| !q.contains(r) by {
                        if q.contains(r) {
                            let k = s.lemma_position(r);
                        }
                    }
                }
                assert(others@ =~= Seq::<BlockRef>::empty());
            }
            return (share(&self.genesis.entries[a as usize].1.verified_block_header), others);
        }
        let last = s.at(hi - 1);
        proof {
            assert(s.items()[hi - 1] == last);
            assert(q.contains(last));
            assert forall|c: BlockRef| #[trigger] q.contains(c) implies c.rank()
                <= last.rank() by {
                let k = s.lemma_position(c);
                if k < hi - 1 {
                    assert(s.items()[k].rank() < s.items()[hi - 1].rank());
                }
            }
        }
        let mut i: usize = hi - 1;
        while i > lo && s.at(i - 1).round == last.round
            invariant
                self.wf(),
                self.config.committee.is_valid_index(a),
                *s == self.recent_headers_refs_by_authority@[a as int],
                lo <= i < hi <= s.items().len(),
                others@.len() == hi - 1 - i,
                forall|k: int|
                    0 <= k < others@.len() ==> #[trigger] others@[k] == s.items()[hi - 2 - k],
                forall|k: int| i <= k < hi ==> (#[trigger] s.items()[k]).round == last.round,
            decreases i,
        {
            let r = s.at(i - 1);
            others.push(r);
            i = i - 1;
        }
        proof {
            assert forall|k: int| 0 <= k < s.items().len() implies (q.contains(
                #[trigger] s.items()[k],
            ) <==> lo <= k < hi) by {
                s.lemma_item(k);
            }
            lemma_equivocations(*s, q, lo as int, i as int, hi as int, others@);
        }
        match self.recent_block_headers.get(&last) {
            Some(header) => (share(header), others),
            None => {
                assert(false);
                (share(&self.genesis.entries[a as usize].1.verified_block_header), others)
            },
        }
    }

    /// Gets the last header of each authority below `end_round`, with the
    /// references of the other headers that it made in the same round.
    pub fn get_last_cached_block_header_per_authority(&self, end_round: Round) -> (out: Vec<
        (VerifiedBlockHeader, Vec<BlockRef>),
    >)
        requires
            self.wf(),
            end_round > GENESIS_ROUND,
            forall|a: int|
                0 <= a < self.config.size() ==> end_round == GENESIS_ROUND + 1 || (
                #[trigger] self@.evicted_rounds[a]) < end_round - 1,
        ensures
            out@.len() == self.config.size(),
            forall|a: int|
                0 <= a < out@.len() ==> self.last_with_equivocations(
                    a as AuthorityIndex,
                    end_round,
                    (#[trigger] out@[a]).0,
                    out@[a].1@,
                ),
    {
        let n: usize = self.config.committee.size();
        let mut out: Vec<(VerifiedBlockHeader, Vec<BlockRef>)> = Vec::new();
        let mut i: usize = 0;
        while i < n
            invariant
                self.wf(),
                end_round > GENESIS_ROUND,
                forall|a: int|
                    0 <= a < self.config.size() ==> end_round == GENESIS_ROUND + 1 || (
                    #[trigger] self@.evicted_rounds[a]) < end_round - 1,
                n == self.config.size(),
                i <= n,
                out@.len() == i,
                forall|a: int|
                    0 <= a < out@.len() ==> self.last_with_equivocations(
                        a as AuthorityIndex,
                        end_round,
                        (#[trigger] out@[a]).0,
                        out@[a].1@,
                    ),
            decreases n - i,
        {
            if end_round == GENESIS_ROUND + 1 {
                let others: Vec<BlockRef> = Vec::new();
                proof {
                    let q = self.refs_in_range(
                        i as AuthorityIndex,
                        self@.evicted_rounds[i as int] + 1,
                        end_round as int,
                    );
                    assert(q =~= Set::<BlockRef>::empty());
                    assert(others@ =~= Seq::<BlockRef>::empty());
                }
                out.push((share(&self.genesis.entries[i].1.verified_block_header), others));
            } else {
                assert(self@.evicted_rounds[i as int] < end_round - 1);
                let last = self.get_last_cached_of(i as AuthorityIndex, end_round);
                out.push(last);
            }
            i = i + 1;
        }
        out
    }

    /// Is there a way from `top` down to `r` in at most `n` further steps, each
    /// from a header above `floor` to an ancestor not below it?
    pub open spec fn linked_in<F: Fn(BlockRef) -> Option<VerifiedBlockHeader>>(
        self,
        read: &F,
        top: VerifiedBlockHeader,
        floor: Round,
        n: nat,
        r: BlockRef,
    ) -> bool
        decreases n,
    {
        if n == 0 {
            top.ancestors@.contains(r)
        } else {
            ||| self.linked_in(read, top, floor, (n - 1) as nat, r)
            ||| exists|q: BlockRef, h: VerifiedBlockHeader|
                {
                    &&& self.linked_in(read, top, floor, (n - 1) as nat, q)
                    &&& q.round > floor
                    &&& #[trigger] self.found_header(read, q, Some(h))
                    &&& #[trigger] h.ancestors@.contains(r)
                    &&& r.round >= floor
                }
        }
    }

    /// Is `r` an ancestor of `top`, or linked to one, as far down as `floor`?
    pub open spec fn linked<F: Fn(BlockRef) -> Option<VerifiedBlockHeader>>(
        self,
        read: &F,
        top: VerifiedBlockHeader,
        floor: Round,
        r: BlockRef,
    ) -> bool {
        exists|n: nat| self.linked_in(read, top, floor, n, r)
    }

    /// Can the history of `top` be walked down to `floor`? Each header on the
    /// way has to be found, the same one each time.
    pub open spec fn walkable<F: Fn(BlockRef) -> Option<VerifiedBlockHeader>>(
        self,
        read: &F,
        top: VerifiedBlockHeader,
        floor: Round,
    ) -> bool {
        &&& forall|q: BlockRef, a: Option<VerifiedBlockHeader>, b: Option<VerifiedBlockHeader>|
            #![trigger self.found_header(read, q, a), self.found_header(read, q, b)]
            self.found_header(read, q, a) && self.found_header(read, q, b) ==> a == b
        &&& forall|q: BlockRef, a: Option<VerifiedBlockHeader>|
            self.linked(read, top, floor, q) && q.round >= floor && #[trigger] self.found_header(
                read,
                q,
                a,
            ) ==> a is Some
    }

    proof fn lemma_linked_step<F: Fn(BlockRef) -> Option<VerifiedBlockHeader>>(
        self,
        read: &F,
        top: VerifiedBlockHeader,
        floor: Round,
        q: BlockRef,
        h: VerifiedBlockHeader,
        r: BlockRef,
    )
        requires
            self.linked(read, top, floor, q),
            q.round > floor,
            self.found_header(read, q, Some(h)),
            h.ancestors@.contains(r),
            r.round >= floor,
        ensures
            self.linked(read, top, floor, r),
    {
        let n = choose|n: nat| self.linked_in(read, top, floor, n, q);
        assert(self.linked_in(read, top, floor, n + 1, r));
    }

    /// A set that holds the ancestors of `top` and is closed under the steps
    /// holds everything linked.
    proof fn lemma_linked_closed<F: Fn(BlockRef) -> Option<VerifiedBlockHeader>>(
        self,
        read: &F,
        top: VerifiedBlockHeader,
        floor: Round,
        s: Set<BlockRef>,
        n: nat,
        r: BlockRef,
    )
        requires
            forall|i: int|
                0 <= i < top.ancestors@.len() ==> s.contains(#[trigger] top.ancestors@[i]),
            forall|q: BlockRef, h: VerifiedBlockHeader, i: int|
                s.contains(q) && q.round > floor && (#[trigger] self.found_header(
                    read,
                    q,
                    Some(h),
                )) && 0 <= i < h.ancestors@.len() && h.ancestors@[i].round >= floor ==> s.contains(
                    #[trigger] h.ancestors@[i],
                ),
            self.linked_in(read, top, floor, n, r),
        ensures
            s.contains(r),
        decreases n,
    {
        if n == 0 {
            let i = choose|i: int| 0 <= i < top.ancestors@.len() && top.ancestors@[i] == r;
            assert(s.contains(top.ancestors@[i]));
        } else if self.linked_in(read, top, floor, (n - 1) as nat, r) {
            self.lemma_linked_closed(read, top, floor, s, (n - 1) as nat, r);
        } else {
            let (q, h) = choose|q: BlockRef, h: VerifiedBlockHeader|
                {
                    &&& self.linked_in(read, top, floor, (n - 1) as nat, q)
                    &&& q.round > floor
                    &&& #[trigger] self.found_header(read, q, Some(h))
                    &&& #[trigger] h.ancestors@.contains(r)
                    &&& r.round >= floor
                };
            self.lemma_linked_closed(read, top, floor, s, (n - 1) as nat, q);
            let i = choose|i: int| 0 <= i < h.ancestors@.len() && h.ancestors@[i] == r;
            assert(s.contains(h.ancestors@[i]));
        }
    }

    /// Gets the headers at `earlier_round` in the history of a header, in the
    /// order of their references.
    pub fn ancestors_at_round<F: Fn(BlockRef) -> Option<VerifiedBlockHeader>>(
        &self,
        later_block: &VerifiedBlockHeader,
        earlier_round: Round,
        read: &F,
    ) -> (out: Vec<VerifiedBlockHeader>)
        requires
            self.wf(),
            forall|r: BlockRef| #[trigger] read.requires((r,)),
            self.walkable(read, *later_block, earlier_round),
        ensures
            exists|refs: Seq<BlockRef>|
                {
                    &&& #[trigger] ascending(refs)
                    &&& forall|r: BlockRef| #[trigger]
                        refs.contains(r) <==> (self.linked(read, *later_block, earlier_round, r)
                            && r.round == earlier_round)
                    &&& out@.len() == refs.len()
                    &&& forall|i: int|
                        0 <= i < refs.len() ==> self.found_header(
                            read,
                            refs[i],
                            Some(#[trigger] out@[i]),
                        )
                },
    {
        let ghost top = *later_block;
        let mut todo = SortedSet::from_vec(&later_block.ancestors);
        let mut seen: SortedSet<BlockRef> = SortedSet::new();
        proof {
            assert forall|r: BlockRef| #[trigger] todo@.contains(r) implies self.linked(
                read,
                top,
                earlier_round,
                r,
            ) by {
                assert(self.linked_in(read, top, earlier_round, 0, r));
            }
        }
        loop
            invariant
                self.wf(),
                forall|r: BlockRef| #[trigger] read.requires((r,)),
                self.walkable(read, top, earlier_round),
                todo.wf(),
                seen.wf(),
                forall|r: BlockRef| #[trigger] todo@.contains(r) ==> !seen@.contains(r),
                top == *later_block,
                forall|r: BlockRef| #[trigger]
                    todo@.contains(r) ==> self.linked(read, top, earlier_round, r),
                forall|r: BlockRef| #[trigger] seen@.contains(r) ==> r.round > earlier_round,
                forall|i: int|
                    0 <= i < top.ancestors@.len() ==> todo@.union(seen@).contains(
                        #[trigger] top.ancestors@[i],
                    ),
                forall|q: BlockRef, h: VerifiedBlockHeader, i: int|
                    seen@.contains(q) && (#[trigger] self.found_header(read, q, Some(h))) && 0 <= i
                        < h.ancestors@.len() && h.ancestors@[i].round >= earlier_round
                        ==> todo@.union(seen@).contains(#[trigger] h.ancestors@[i]),
            ensures
                forall|r: BlockRef| #[trigger] todo@.contains(r) ==> r.round <= earlier_round,
            decreases unseen(seen@).len(),
        {
            let n: usize = todo.len();
            if n == 0 {
                proof {
                    assert forall|r: BlockRef| #[trigger] todo@.contains(r) implies r.round
                        <= earlier_round by {
                        let k = todo.lemma_position(r);
                    }
                }
                break;
            }
            let last = todo.at(n - 1);
            proof {
                assert forall|r: BlockRef| #[trigger] todo@.contains(r) implies r.rank()
                    <= last.rank() by {
                    let k = todo.lemma_position(r);
                    if k < n - 1 {
                        assert(todo.items()[k].rank() < todo.items()[n - 1].rank());
                    }
                }
            }
            if last.round <= earlier_round {
                proof {
                    assert forall|r: BlockRef| #[trigger] todo@.contains(r) implies r.round
                        <= earlier_round by {
                        lemma_triple_rank(
                            last.round,
                            last.author,
                            last.digest,
                            r.round,
                            r.author,
                            r.digest,
                        );
                    }
                }
                break;
            }
            let ghost before = todo;
            let ghost seen_before = seen@;
            todo.remove(&last);
            seen.insert(last);
            proof {
                assert(before@.contains(last)) by {
                    before.lemma_item(n - 1);
                }
                assert(before@.union(seen_before) =~= todo@.union(seen@));
                lemma_refs_finite(unseen(seen_before));
                assert(unseen(seen@) =~= unseen(seen_before).remove(last));
            }
            let found = self.get_verified_block_header(&last, read);
            match found {
                Some(header) => {
                    let ghost base = todo@;
                    let m: usize = header.ancestors.len();
                    let mut i: usize = 0;
                    while i < m
                        invariant
                            todo.wf(),
                            seen.wf(),
                            m == header.ancestors@.len(),
                            i <= m,
                            last.round > earlier_round,
                            self.linked(read, top, earlier_round, last),
                            self.found_header(read, last, Some(header)),
                            self.walkable(read, top, earlier_round),
                            base.subset_of(todo@),
                            forall|r: BlockRef| #[trigger]
                                todo@.contains(r) ==> self.linked(read, top, earlier_round, r)
                                    && !seen@.contains(r),
                            forall|k: int|
                                0 <= k < i && header.ancestors@[k].round >= earlier_round
                                    ==> todo@.union(seen@).contains(
                                    #[trigger] header.ancestors@[k],
                                ),
                        decreases m - i,
                    {
                        let r = header.ancestors[i];
                        if r.round >= earlier_round && !seen.contains(&r) {
                            proof {
                                assert(header.ancestors@[i as int] == r);
                                assert(header.ancestors@.contains(r));
                                self.lemma_linked_step(
                                    read,
                                    top,
                                    earlier_round,
                                    last,
                                    header,
                                    r,
                                );
                            }
                            todo.insert(r);
                        }
                        i = i + 1;
                    }
                    proof {
                        assert(base.union(seen@).subset_of(todo@.union(seen@)));
                        assert forall|q: BlockRef, h: VerifiedBlockHeader, i: int|
                            seen@.contains(q) && (#[trigger] self.found_header(read, q, Some(h)))
                                && 0 <= i < h.ancestors@.len() && h.ancestors@[i].round
                                >= earlier_round implies todo@.union(seen@).contains(
                            #[trigger] h.ancestors@[i],
                        ) by {
                            if q == last {
                                assert(Some(h) == Some(header));
                            } else {
                                assert(seen_before.contains(q));
                                assert(before@.union(seen_before).contains(h.ancestors@[i]));
                            }
                        }
                        assert forall|i: int| 0 <= i < top.ancestors@.len() implies todo@.union(
                            seen@,
                        ).contains(#[trigger] top.ancestors@[i]) by {
                            assert(before@.union(seen_before).contains(top.ancestors@[i]));
                        }
                    }
                },
                None => {
                    assert(self.linked(read, top, earlier_round, last));
                    assert(false);
                },
            }
        }
        let ghost all = todo@.union(seen@);
        let ghost reached = todo@;
        let first = BlockRef::new(earlier_round, 0, Digest::min());
        let at_round = todo.split_off(&first);
        let refs = at_round.to_vec();
        proof {
            at_round.lemma_items();
            assert forall|r: BlockRef| #[trigger] refs@.contains(r) <==> (self.linked(
                read,
                top,
                earlier_round,
                r,
            ) && r.round == earlier_round) by {
                lemma_triple_rank(
                    first.round,
                    first.author,
                    first.digest,
                    r.round,
                    r.author,
                    r.digest,
                );
                if refs@.contains(r) {
                    assert(refs@.to_set().contains(r));
                    assert(at_round@.contains(r));
                    assert(reached.contains(r));
                }
                if self.linked(read, top, earlier_round, r) && r.round == earlier_round {
                    let n = choose|n: nat| self.linked_in(read, top, earlier_round, n, r);
                    assert forall|q: BlockRef, h: VerifiedBlockHeader, i: int|
                        all.contains(q) && q.round > earlier_round && (
                        #[trigger] self.found_header(read, q, Some(h))) && 0 <= i
                            < h.ancestors@.len() && h.ancestors@[i].round
                            >= earlier_round implies all.contains(#[trigger] h.ancestors@[i]) by {
                        assert(seen@.contains(q));
                    }
                    self.lemma_linked_closed(read, top, earlier_round, all, n, r);
                    assert(reached.contains(r));
                    assert(at_round@.contains(r));
                    assert(refs@.to_set().contains(r));
                }
            }
        }
        let mut out: Vec<VerifiedBlockHeader> = Vec::new();
        let mut i: usize = 0;
        while i < refs.len()
            invariant
                self.wf(),
                forall|r: BlockRef| #[trigger] read.requires((r,)),
                self.walkable(read, top, earlier_round),
                forall|r: BlockRef| #[trigger]
                    refs@.contains(r) <==> (self.linked(read, top, earlier_round, r) && r.round
                        == earlier_round),
                i <= refs@.len(),
                out@.len() == i,
                forall|k: int|
                    0 <= k < i ==> self.found_header(read, refs@[k], Some(#[trigger] out@[k])),
            decreases refs@.len() - i,
        {
            let found = self.get_verified_block_header(&refs[i], read);
            assert(refs@.contains(refs@[i as int]));
            match found {
                Some(header) => out.push(header),
                None => {
                    assert(false);
                },
            }
            i = i + 1;
        }
        assert(ascending(refs@));
        out
    }

    /// The authorities with a header in memory at `round`.
    pub open spec fn authors_at(self, round: Round) -> Set<AuthorityIndex> {
        Set::new(
            |a: AuthorityIndex|
                exists|r: BlockRef| #[trigger]
                    self@.headers.dom().contains(r) && r.round == round && r.author == a,
        )
    }

    /// Do the headers in memory at `round` form a quorum?
    pub open spec fn has_quorum_at(self, round: Round) -> bool {
        self.config.committee.is_quorum(self.authors_at(round))
    }

    /// Do the authors of these headers, which are those of the round, form a
    /// quorum?
    fn is_quorum_of(&self, headers: &Vec<VerifiedBlockHeader>, round: Round) -> (out: bool)
        requires
            self.wf(),
            lists(headers@, self@.headers, |r: BlockRef| r.round == round),
        ensures
            out == self.has_quorum_at(round),
    {
        let mut quorum = StakeAggregator::new();
        let mut i: usize = 0;
        while i < headers.len()
            invariant
                self.wf(),
                lists(headers@, self@.headers, |r: BlockRef| r.round == round),
                i <= headers@.len(),
                quorum.wf(self.config.committee),
                forall|a: AuthorityIndex| #[trigger]
                    quorum@.contains(a) <==> exists|k: int|
                        0 <= k < i && (#[trigger] headers@[k]).reference.author == a,
            decreases headers@.len() - i,
        {
            let ghost before = quorum@;
            assert(self@.headers.dom().contains(headers@[i as int].reference));
            quorum.add(headers[i].reference.author, &self.config.committee);
            proof {
                assert forall|a: AuthorityIndex| #[trigger] quorum@.contains(a) <==> exists|k: int|
                    0 <= k < i + 1 && (#[trigger] headers@[k]).reference.author == a by {
                    if before.contains(a) {
                        let k = choose|k: int|
                            0 <= k < i && (#[trigger] headers@[k]).reference.author == a;
                        assert(headers@[k].reference.author == a);
                    }
                    if a == headers@[i as int].reference.author {
                        assert(quorum@.contains(a));
                    }
                }
            }
            i = i + 1;
        }
        proof {
            assert(quorum@ =~= self.authors_at(round)) by {
                assert forall|a: AuthorityIndex| quorum@.contains(a) <==> self.authors_at(
                    round,
                ).contains(a) by {
                    if quorum@.contains(a) {
                        let k = choose|k: int|
                            0 <= k < i && (#[trigger] headers@[k]).reference.author == a;
                        assert(self@.headers.dom().contains(headers@[k].reference));
                    }
                    if self.authors_at(round).contains(a) {
                        let r = choose|r: BlockRef| #[trigger]
                            self@.headers.dom().contains(r) && r.round == round && r.author == a;
                        let k = choose|k: int|
                            0 <= k < headers@.len() && (#[trigger] headers@[k]).reference == r;
                        assert(headers@[k].reference.author == a);
                    }
                }
            }
        }
        quorum.reached_threshold(&self.config.committee)
    }

    /// The genesis headers, in the order of the authorities.
    pub open spec fn spec_genesis_headers(self) -> Seq<VerifiedBlockHeader> {
        Seq::new(self.config.size(), |a: int| self.genesis_header(a as AuthorityIndex))
    }

    /// Gets the genesis headers.
    pub fn genesis_block_headers(&self) -> (out: Vec<VerifiedBlockHeader>)
        requires
            self.wf(),
        ensures
            out@ == self.spec_genesis_headers(),
    {
        let mut out: Vec<VerifiedBlockHeader> = Vec::new();
        let mut i: usize = 0;
        while i < self.genesis.entries.len()
            invariant
                self.wf(),
                i <= self.genesis.entries@.len(),
                out@ == self.spec_genesis_headers().take(i as int),
            decreases self.genesis.entries@.len() - i,
        {
            out.push(share(&self.genesis.entries[i].1.verified_block_header));
            i = i + 1;
            assert(out@ =~= self.spec_genesis_headers().take(i as int));
        }
        assert(out@ =~= self.spec_genesis_headers());
        out
    }

    /// Gets the genesis blocks, in the order of the authorities.
    pub fn genesis_blocks(&self) -> (out: Vec<VerifiedBlock>)
        requires
            self.wf(),
        ensures
            out@.len() == self.config.size(),
            forall|a: int|
                0 <= a < out@.len() ==> #[trigger] out@[a] == self.genesis.entries@[a].1,
    {
        let mut out: Vec<VerifiedBlock> = Vec::new();
        let mut i: usize = 0;
        while i < self.genesis.entries.len()
            invariant
                self.wf(),
                i <= self.genesis.entries@.len(),
                out@.len() == i,
                forall|a: int|
                    0 <= a < out@.len() ==> #[trigger] out@[a] == self.genesis.entries@[a].1,
            decreases self.genesis.entries@.len() - i,
        {
            let block = &self.genesis.entries[i].1;
            out.push(
                VerifiedBlock::new(
                    share(&block.verified_block_header),
                    share(&block.verified_transactions),
                ),
            );
            i = i + 1;
        }
        out
    }

    /// Can the headers at `round` be asked for?
    pub open spec fn is_open_round(self, round: int) -> bool {
        round > self@.last_commit_round()
    }

    /// Gets the headers of the round that forms the last quorum: the highest
    /// round accepted, or the one before it; genesis forms one too.
    pub fn last_quorum(&self) -> (out: Vec<VerifiedBlockHeader>)
        requires
            self.wf(),
            ({
                let top = self@.highest_accepted_round;
                top == GENESIS_ROUND || (self.is_open_round(top as int) && (self.has_quorum_at(top)
                    || top - 1 == GENESIS_ROUND || (self.is_open_round(top - 1)
                    && self.has_quorum_at((top - 1) as Round))))
            }),
        ensures
            ({
                let top = self@.highest_accepted_round;
                if top > GENESIS_ROUND && self.has_quorum_at(top) {
                    lists(out@, self@.headers, |r: BlockRef| r.round == top)
                } else if top <= GENESIS_ROUND + 1 {
                    out@ == self.spec_genesis_headers()
                } else {
                    lists(out@, self@.headers, |r: BlockRef| r.round == (top - 1) as Round)
                }
            }),
    {
        let top: Round = self.highest_accepted_round;
        if top == GENESIS_ROUND {
            return self.genesis_block_headers();
        }
        let headers = self.get_uncommitted_block_headers_at_round(top);
        if self.is_quorum_of(&headers, top) {
            return headers;
        }
        if top == GENESIS_ROUND + 1 {
            return self.genesis_block_headers();
        }
        self.get_uncommitted_block_headers_at_round(top - 1)
    }
}

} // verus!
