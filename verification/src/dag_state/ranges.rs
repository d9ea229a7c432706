//! Looking up the headers of a slot, of a round or of an authority.
use vstd::prelude::*;

use crate::dag_state::model::{is_last, last_round, lemma_last_round};
use crate::dag_state::state::DagState;
use crate::header::{share, VerifiedBlock, VerifiedBlockHeader};
use crate::refs::{
    lemma_triple_rank, AuthorityIndex, BlockRef, Digest, Key, Round, Slot, GENESIS_ROUND,
};

verus! {

/// Does `hs` list the headers of `m` whose references satisfy `p`, in the
/// ascending order of their references?
pub open spec fn lists(
    hs: Seq<VerifiedBlockHeader>,
    m: Map<BlockRef, VerifiedBlockHeader>,
    p: spec_fn(BlockRef) -> bool,
) -> bool {
    &&& forall|i: int, j: int|
        0 <= i < j < hs.len() ==> (#[trigger] hs[i]).reference.rank() < (
        #[trigger] hs[j]).reference.rank()
    &&& forall|i: int|
        0 <= i < hs.len() ==> m.dom().contains((#[trigger] hs[i]).reference)
            && m[hs[i].reference] == hs[i] && p(hs[i].reference)
    &&& forall|r: BlockRef| #[trigger]
        m.dom().contains(r) && p(r) ==> exists|i: int|
            0 <= i < hs.len() && (#[trigger] hs[i]).reference == r
}

/// References of an authority with `start <= round < end`.
pub open spec fn of_author_in(a: AuthorityIndex, start: Round, end: Round) -> spec_fn(
    BlockRef,
) -> bool {
    |r: BlockRef| r.author == a && start <= r.round < end
}

/// References of an authority with `start <= round`.
pub open spec fn of_author_since(a: AuthorityIndex, start: Round) -> spec_fn(BlockRef) -> bool {
    |r: BlockRef| r.author == a && start <= r.round
}

/// Is `r` the greatest of the references in `s`?
pub open spec fn is_greatest(s: Set<BlockRef>, r: BlockRef) -> bool {
    s.contains(r) && forall|c: BlockRef| #[trigger] s.contains(c) ==> c.rank() <= r.rank()
}

/// The greatest reference is one of the last round.
pub proof fn lemma_greatest_is_last(s: Set<BlockRef>, r: BlockRef)
    requires
        is_greatest(s, r),
    ensures
        is_last(s, r),
        last_round(s) == r.round,
{
    assert forall|c: BlockRef| #[trigger] s.contains(c) implies c.round <= r.round by {
        lemma_triple_rank(c.round, c.author, c.digest, r.round, r.author, r.digest);
        lemma_triple_rank(r.round, r.author, r.digest, c.round, c.author, c.digest);
    }
    lemma_last_round(s, r);
}

impl DagState {
    /// The entries from `lo` to `hi` list what they are told apart by.
    proof fn lemma_lists(
        self,
        lo: int,
        hi: int,
        out: Seq<VerifiedBlockHeader>,
        p: spec_fn(BlockRef) -> bool,
    )
        requires
            self.wf(),
            0 <= lo <= hi <= self.recent_block_headers.entries@.len(),
            out.len() == hi - lo,
            forall|i: int|
                0 <= i < out.len() ==> #[trigger] out[i] == self.recent_block_headers.entries@[lo
                    + i].1,
            forall|i: int|
                0 <= i < self.recent_block_headers.entries@.len() ==> (p(
                    (#[trigger] self.recent_block_headers.entries@[i]).0,
                ) <==> lo <= i < hi),
        ensures
            lists(out, self@.headers, p),
    {
        let m = self.recent_block_headers;
        assert forall|i: int| 0 <= i < out.len() implies m@.dom().contains(
            (#[trigger] out[i]).reference,
        ) && m@[out[i].reference] == out[i] && p(out[i].reference) && out[i].reference
            == m.entries@[lo + i].0 by {
            m.lemma_entry(lo + i);
            assert(self@.headers.dom().contains(m.entries@[lo + i].0));
        }
        assert forall|i: int, j: int| 0 <= i < j < out.len() implies (
        #[trigger] out[i]).reference.rank() < (#[trigger] out[j]).reference.rank() by {
            assert(m.keys()[lo + i].rank() < m.keys()[lo + j].rank());
        }
        assert forall|r: BlockRef| #[trigger] m@.dom().contains(r) && p(r) implies exists|i: int|
            0 <= i < out.len() && (#[trigger] out[i]).reference == r by {
            let k = m.lemma_key(r);
            assert(m.entries@[k].0 == r);
            assert(out[k - lo].reference == r);
        }
    }

    /// Positions of an authority's references list what they are told apart
    /// by.
    proof fn lemma_lists_of(
        self,
        a: AuthorityIndex,
        lo: int,
        hi: int,
        out: Seq<VerifiedBlockHeader>,
        p: spec_fn(BlockRef) -> bool,
    )
        requires
            self.wf(),
            a < self.config.size(),
            0 <= lo <= hi <= self.recent_headers_refs_by_authority@[a as int].items().len(),
            out.len() == hi - lo,
            forall|i: int|
                0 <= i < out.len() ==> #[trigger] out[i]
                    == self@.headers[self.recent_headers_refs_by_authority@[a as int].items()[lo
                    + i]],
            forall|i: int|
                0 <= i < self.recent_headers_refs_by_authority@[a as int].items().len() ==> (p(
                    #[trigger] self.recent_headers_refs_by_authority@[a as int].items()[i],
                ) <==> lo <= i < hi),
            forall|r: BlockRef| #[trigger] p(r) ==> r.author == a,
        ensures
            lists(out, self@.headers, p),
    {
        let s = self.recent_headers_refs_by_authority@[a as int];
        assert(s@ == self@.refs_of(a));
        assert forall|i: int| 0 <= i < out.len() implies self@.headers.dom().contains(
            (#[trigger] out[i]).reference,
        ) && self@.headers[out[i].reference] == out[i] && p(out[i].reference) && out[i].reference
            == s.items()[lo + i] by {
            s.lemma_item(lo + i);
            assert(self@.refs_of(a).contains(s.items()[lo + i]));
        }
        assert forall|i: int, j: int| 0 <= i < j < out.len() implies (
        #[trigger] out[i]).reference.rank() < (#[trigger] out[j]).reference.rank() by {
            assert(s.items()[lo + i].rank() < s.items()[lo + j].rank());
        }
        assert forall|r: BlockRef| #[trigger] self@.headers.dom().contains(r) && p(r) implies exists|
            i: int,
        |
            0 <= i < out.len() && (#[trigger] out[i]).reference == r by {
            assert(self@.refs_of(a).contains(r));
            let k = s.lemma_position(r);
            assert(out[k - lo].reference == r);
        }
    }

    /// The last reference of an authority's headers in memory.
    pub fn last_ref(&self, authority: AuthorityIndex) -> (out: Option<BlockRef>)
        requires
            self.wf(),
            self.config.committee.is_valid_index(authority),
        ensures
            match out {
                Some(r) => is_greatest(self@.refs_of(authority), r) && last_round(
                    self@.refs_of(authority),
                ) == r.round && self@.headers.dom().contains(r) && r.author == authority,
                None => self@.refs_of(authority) == Set::<BlockRef>::empty(),
            },
    {
        let s = &self.recent_headers_refs_by_authority[authority as usize];
        let n: usize = s.len();
        if s.is_empty() {
            None
        } else {
            let r = s.at(n - 1);
            proof {
                assert forall|c: BlockRef| #[trigger] s@.contains(c) implies c.rank()
                    <= r.rank() by {
                    let k = s.lemma_position(c);
                    if k < n - 1 {
                        assert(s.items()[k].rank() < s.items()[n - 1].rank());
                    }
                }
                lemma_greatest_is_last(s@, r);
            }
            Some(r)
        }
    }

    /// Is `out` what is known of whether the header at `r` has been accepted?
    /// Of a round beyond the last one in memory there can be no header in
    /// storage.
    pub open spec fn known_header<F: Fn(BlockRef) -> bool>(
        self,
        contains: &F,
        r: BlockRef,
        out: bool,
    ) -> bool {
        if self@.headers.dom().contains(r) || self.genesis@.dom().contains(r) {
            out
        } else if self@.refs_of(r.author) == Set::<BlockRef>::empty() || last_round(
            self@.refs_of(r.author),
        ) < r.round {
            !out
        } else {
            contains.ensures((r,), out)
        }
    }

    /// Checks whether a header has been accepted.
    pub fn contains_block_header<F: Fn(BlockRef) -> bool>(
        &self,
        block_ref: &BlockRef,
        contains: &F,
    ) -> (out: bool)
        requires
            self.wf(),
            self.config.committee.is_valid_index(block_ref.author),
            contains.requires((*block_ref,)),
        ensures
            self.known_header(contains, *block_ref, out),
    {
        let recent = &self.recent_headers_refs_by_authority[block_ref.author as usize];
        assert(recent@ == self@.refs_of(block_ref.author));
        if recent.contains(block_ref) || self.genesis.contains_key(block_ref) {
            return true;
        }
        match self.last_ref(block_ref.author) {
            None => false,
            Some(last) => if last.round < block_ref.round {
                false
            } else {
                contains(*block_ref)
            },
        }
    }

    /// Checks which headers have been accepted.
    pub fn contains_block_headers<F: Fn(BlockRef) -> bool>(
        &self,
        block_refs: &[BlockRef],
        contains: &F,
    ) -> (out: Vec<bool>)
        requires
            self.wf(),
            forall|i: int|
                0 <= i < block_refs@.len() ==> self.config.committee.is_valid_index(
                    (#[trigger] block_refs@[i]).author,
                ),
            forall|r: BlockRef| #[trigger] contains.requires((r,)),
        ensures
            out@.len() == block_refs@.len(),
            forall|i: int|
                0 <= i < out@.len() ==> self.known_header(
                    contains,
                    block_refs@[i],
                    #[trigger] out@[i],
                ),
    {
        let mut out: Vec<bool> = Vec::new();
        let mut i: usize = 0;
        while i < block_refs.len()
            invariant
                self.wf(),
                forall|j: int|
                    0 <= j < block_refs@.len() ==> self.config.committee.is_valid_index(
                        (#[trigger] block_refs@[j]).author,
                    ),
                forall|r: BlockRef| #[trigger] contains.requires((r,)),
                i <= block_refs@.len(),
                out@.len() == i,
                forall|j: int|
                    0 <= j < i ==> self.known_header(contains, block_refs@[j], #[trigger] out@[j]),
            decreases block_refs@.len() - i,
        {
            let found = self.contains_block_header(&block_refs[i], contains);
            out.push(found);
            i = i + 1;
        }
        out
    }

    /// Copies of the headers from position `lo` to position `hi`.
    fn headers_between(&self, lo: usize, hi: usize) -> (out: Vec<VerifiedBlockHeader>)
        requires
            lo <= hi <= self.recent_block_headers.entries@.len(),
        ensures
            out@.len() == hi - lo,
            forall|i: int|
                0 <= i < out@.len() ==> #[trigger] out@[i] == self.recent_block_headers.entries@[lo
                    + i].1,
    {
        let mut out: Vec<VerifiedBlockHeader> = Vec::new();
        let mut i: usize = lo;
        while i < hi
            invariant
                lo <= i <= hi <= self.recent_block_headers.entries@.len(),
                out@.len() == i - lo,
                forall|k: int|
                    0 <= k < out@.len() ==> #[trigger] out@[k]
                        == self.recent_block_headers.entries@[lo + k].1,
            decreases hi - i,
        {
            out.push(share(&self.recent_block_headers.entries[i].1));
            i = i + 1;
        }
        out
    }

    /// Gets the headers in memory of a slot.
    pub fn get_uncommitted_block_headers_at_slot(&self, slot: Slot) -> (out: Vec<
        VerifiedBlockHeader,
    >)
        requires
            self.wf(),
        ensures
            lists(
                out@,
                self@.headers,
                |r: BlockRef| r.round == slot.round && r.author == slot.authority,
            ),
    {
        let first = BlockRef::new(slot.round, slot.authority, Digest::min());
        let lo: usize = self.recent_block_headers.lower_bound(&first);
        let n: usize = self.recent_block_headers.entries.len();
        let mut hi: usize = lo;
        while hi < n && self.recent_block_headers.entries[hi].0.round == slot.round
            && self.recent_block_headers.entries[hi].0.author == slot.authority
            invariant
                n == self.recent_block_headers.entries@.len(),
                lo <= hi <= n,
                forall|i: int|
                    lo <= i < hi ==> (#[trigger] self.recent_block_headers.entries@[i]).0.round
                        == slot.round && self.recent_block_headers.entries@[i].0.author
                        == slot.authority,
            decreases n - hi,
        {
            hi = hi + 1;
        }
        let out = self.headers_between(lo, hi);
        proof {
            let p = |r: BlockRef| r.round == slot.round && r.author == slot.authority;
            let m = self.recent_block_headers;
            assert forall|i: int| 0 <= i < m.entries@.len() implies (p(
                (#[trigger] m.entries@[i]).0,
            ) <==> lo <= i < hi) by {
                let k = m.entries@[i].0;
                lemma_triple_rank(
                    k.round,
                    k.author,
                    k.digest,
                    first.round,
                    first.author,
                    first.digest,
                );
                if i >= hi {
                    let e = m.entries@[hi as int].0;
                    if i > hi {
                        assert(m.keys()[hi as int].rank() < m.keys()[i].rank());
                    }
                    lemma_triple_rank(e.round, e.author, e.digest, k.round, k.author, k.digest);
                    lemma_triple_rank(
                        e.round,
                        e.author,
                        e.digest,
                        first.round,
                        first.author,
                        first.digest,
                    );
                }
            }
            self.lemma_lists(lo as int, hi as int, out@, p);
        }
        out
    }

    /// Gets the headers of a round that no commit has reached yet.
    pub fn get_uncommitted_block_headers_at_round(&self, round: Round) -> (out: Vec<
        VerifiedBlockHeader,
    >)
        requires
            self.wf(),
            self@.last_commit_round() < round < Round::MAX,
        ensures
            lists(out@, self@.headers, |r: BlockRef| r.round == round),
    {
        let first = BlockRef::new(round, 0, Digest::min());
        let next = BlockRef::new(round + 1, 0, Digest::min());
        let lo: usize = self.recent_block_headers.lower_bound(&first);
        let hi: usize = self.recent_block_headers.lower_bound(&next);
        proof {
            lemma_triple_rank(
                first.round,
                first.author,
                first.digest,
                next.round,
                next.author,
                next.digest,
            );
            if hi < lo {
                assert(self.recent_block_headers.entries@[hi as int].0.rank() < first.rank());
            }
        }
        let out = self.headers_between(lo, hi);
        proof {
            let p = |r: BlockRef| r.round == round;
            let m = self.recent_block_headers;
            assert forall|i: int| 0 <= i < m.entries@.len() implies (p(
                (#[trigger] m.entries@[i]).0,
            ) <==> lo <= i < hi) by {
                let k = m.entries@[i].0;
                lemma_triple_rank(
                    k.round,
                    k.author,
                    k.digest,
                    first.round,
                    first.author,
                    first.digest,
                );
                lemma_triple_rank(
                    k.round,
                    k.author,
                    k.digest,
                    next.round,
                    next.author,
                    next.digest,
                );
            }
            self.lemma_lists(lo as int, hi as int, out@, p);
        }
        out
    }

    /// The positions of the authority's references with `start <= round < end`.
    pub(crate) fn round_positions(&self, authority: AuthorityIndex, start: Round, end: Round) -> (out: (
        usize,
        usize,
    ))
        requires
            self.wf(),
            self.config.committee.is_valid_index(authority),
            start <= end,
        ensures
            out.0 <= out.1
                <= self.recent_headers_refs_by_authority@[authority as int].items().len(),
            forall|i: int|
                0 <= i < self.recent_headers_refs_by_authority@[authority as int].items().len()
                    ==> (start <= (
                #[trigger] self.recent_headers_refs_by_authority@[authority as int].items()[i]).round
                    < end <==> out.0 <= i < out.1),
    {
        let s = &self.recent_headers_refs_by_authority[authority as usize];
        let first = BlockRef::new(start, authority, Digest::min());
        let next = BlockRef::new(end, authority, Digest::min());
        let lo: usize = s.map.lower_bound(&first);
        let hi: usize = s.map.lower_bound(&next);
        proof {
            assert(s@ == self@.refs_of(authority));
            assert forall|i: int| 0 <= i < s.items().len() implies (start <= (
            #[trigger] s.items()[i]).round < end <==> lo <= i < hi) by {
                s.lemma_item(i);
                let k = s.items()[i];
                assert(self@.refs_of(authority).contains(k));
                assert(s.map.entries@[i].0 == k);
                lemma_triple_rank(
                    k.round,
                    k.author,
                    k.digest,
                    first.round,
                    first.author,
                    first.digest,
                );
                lemma_triple_rank(
                    k.round,
                    k.author,
                    k.digest,
                    next.round,
                    next.author,
                    next.digest,
                );
            }
            if hi < lo {
                let k = s.map.entries@[hi as int].0;
                lemma_triple_rank(
                    first.round,
                    first.author,
                    first.digest,
                    next.round,
                    next.author,
                    next.digest,
                );
                assert(k.rank() < first.rank());
                assert(k.rank() >= next.rank());
            }
        }
        (lo, hi)
    }

    /// Gets the headers of an authority in memory with
    /// `start_round <= round < end_round`, the first `limit` of them at most.
    pub fn get_cached_block_headers_in_range(
        &self,
        authority: AuthorityIndex,
        start_round: Round,
        end_round: Round,
        limit: usize,
    ) -> (out: Vec<VerifiedBlockHeader>)
        requires
            self.wf(),
            self.config.committee.is_valid_index(authority),
        ensures
            exists|all: Seq<VerifiedBlockHeader>|
                {
                    &&& #[trigger] lists(
                        all,
                        self@.headers,
                        of_author_in(authority, start_round, end_round),
                    )
                    &&& out@ == if limit < all.len() {
                        all.take(limit as int)
                    } else {
                        all
                    }
                },
    {
        let ghost p = of_author_in(authority, start_round, end_round);
        let mut out: Vec<VerifiedBlockHeader> = Vec::new();
        if start_round >= end_round {
            proof {
                assert(lists(Seq::<VerifiedBlockHeader>::empty(), self@.headers, p));
                assert(out@ =~= Seq::<VerifiedBlockHeader>::empty());
            }
            return out;
        }
        let (lo, hi) = self.round_positions(authority, start_round, end_round);
        let s = &self.recent_headers_refs_by_authority[authority as usize];
        let ghost all = Seq::new((hi - lo) as nat, |i: int| self@.headers[s.items()[lo + i]]);
        proof {
            assert forall|i: int| 0 <= i < s.items().len() implies (p(
                #[trigger] s.items()[i],
            ) <==> lo <= i < hi) by {
                s.lemma_item(i);
                assert(self@.refs_of(authority).contains(s.items()[i]));
            }
            self.lemma_lists_of(authority, lo as int, hi as int, all, p);
        }
        let mut i: usize = lo;
        while i < hi && out.len() < limit
            invariant
                self.wf(),
                self.config.committee.is_valid_index(authority),
                *s == self.recent_headers_refs_by_authority@[authority as int],
                lo <= i <= hi <= s.items().len(),
                out@.len() == i - lo,
                out@.len() <= limit,
                all == Seq::new((hi - lo) as nat, |i: int| self@.headers[s.items()[lo + i]]),
                out@ == all.take(i - lo),
            decreases hi - i,
        {
            let r = s.at(i);
            assert(s@ == self@.refs_of(authority));
            assert(self@.refs_of(authority).contains(r));
            match self.recent_block_headers.get(&r) {
                Some(header) => {
                    out.push(share(header));
                },
                None => {
                    assert(false);
                },
            }
            i = i + 1;
            assert(out@ =~= all.take(i - lo));
        }
        proof {
            if limit < all.len() {
                assert(i - lo == limit);
            } else {
                assert(out@ =~= all);
            }
            assert(lists(all, self@.headers, p));
        }
        out
    }

    /// Gets the headers of an authority in memory of round `start` or later.
    pub fn get_cached_block_headers_since_round(
        &self,
        authority: AuthorityIndex,
        start: Round,
    ) -> (out: Vec<VerifiedBlockHeader>)
        requires
            self.wf(),
            self.config.committee.is_valid_index(authority),
        ensures
            lists(out@, self@.headers, of_author_since(authority, start)),
    {
        let out = self.get_cached_block_headers_in_range(authority, start, Round::MAX, usize::MAX);
        proof {
            let p = of_author_in(authority, start, Round::MAX);
            let q = of_author_since(authority, start);
            let all = choose|all: Seq<VerifiedBlockHeader>|
                {
                    &&& #[trigger] lists(all, self@.headers, p)
                    &&& out@ == if usize::MAX < all.len() {
                        all.take(usize::MAX as int)
                    } else {
                        all
                    }
                };
            // There are no more headers than positions.
            if usize::MAX < all.len() {
                self.lemma_list_bound(all, p);
            }
            assert(lists(out@, self@.headers, p));
            assert forall|r: BlockRef| #[trigger] self@.headers.dom().contains(r) implies p(r)
                == q(r) by {}
            assert forall|i: int| 0 <= i < out@.len() implies q((#[trigger] out@[i]).reference) by {
                assert(p(out@[i].reference));
            }
            assert(lists(out@, self@.headers, q));
        }
        out
    }

    /// A list of headers in memory is no longer than what memory holds.
    proof fn lemma_list_bound(
        self,
        hs: Seq<VerifiedBlockHeader>,
        p: spec_fn(BlockRef) -> bool,
    )
        requires
            self.wf(),
            lists(hs, self@.headers, p),
        ensures
            hs.len() <= usize::MAX,
    {
        let refs = hs.map_values(|h: VerifiedBlockHeader| h.reference);
        self.recent_block_headers.lemma_keys();
        let dom = self@.headers.dom();
        assert(refs.no_duplicates()) by {
            assert forall|i: int, j: int|
                0 <= i < refs.len() && 0 <= j < refs.len() && i != j implies refs[i] != refs[j] by {
                if i < j {
                    assert(hs[i].reference.rank() < hs[j].reference.rank());
                } else {
                    assert(hs[j].reference.rank() < hs[i].reference.rank());
                }
            }
        }
        refs.unique_seq_to_set();
        assert(refs.to_set().subset_of(dom)) by {
            assert forall|r: BlockRef| refs.to_set().contains(r) implies dom.contains(r) by {
                let i = choose|i: int| 0 <= i < refs.len() && refs[i] == r;
                assert(hs[i].reference == r);
            }
        }
        vstd::set_lib::lemma_len_subset(refs.to_set(), dom);
        assert(self.recent_block_headers.entries.len() <= usize::MAX);
    }

    /// The authority's headers in memory with `start <= round < end`.
    pub open spec fn refs_in_range(self, a: AuthorityIndex, start: int, end: int) -> Set<BlockRef> {
        self@.refs_of(a).filter(|r: BlockRef| start <= r.round < end)
    }

    /// Gets the last header of an authority in memory with
    /// `start_round <= round < end_round`.
    pub fn get_last_cached_block_header_in_range(
        &self,
        authority: AuthorityIndex,
        start_round: Round,
        end_round: Round,
    ) -> (out: Option<VerifiedBlockHeader>)
        requires
            self.wf(),
            self.config.committee.is_valid_index(authority),
        ensures
            match out {
                Some(h) => is_greatest(
                    self.refs_in_range(authority, start_round as int, end_round as int),
                    h.reference,
                ) && self@.headers[h.reference] == h,
                None => self.refs_in_range(authority, start_round as int, end_round as int)
                    == Set::<BlockRef>::empty(),
            },
    {
        let ghost q = self.refs_in_range(authority, start_round as int, end_round as int);
        if start_round >= end_round {
            assert(q =~= Set::<BlockRef>::empty());
            return None;
        }
        let (lo, hi) = self.round_positions(authority, start_round, end_round);
        let s = &self.recent_headers_refs_by_authority[authority as usize];
        assert(s@ == self@.refs_of(authority));
        if lo == hi {
            proof {
                assert(q =~= Set::<BlockRef>::empty()) by {
                    assert forall|r: BlockRef| !q.contains(r) by {
                        if q.contains(r) {
                            let k = s.lemma_position(r);
                        }
                    }
                }
            }
            return None;
        }
        let r = s.at(hi - 1);
        proof {
            assert(self@.refs_of(authority).contains(r));
            assert(s.items()[hi - 1] == r);
            assert forall|c: BlockRef| #[trigger] q.contains(c) implies c.rank() <= r.rank() by {
                let k = s.lemma_position(c);
                if k < hi - 1 {
                    assert(s.items()[k].rank() < s.items()[hi - 1].rank());
                }
            }
        }
        match self.recent_block_headers.get(&r) {
            Some(header) => Some(share(header)),
            None => {
                assert(false);
                None
            },
        }
    }

    /// Is there a header in memory, or of genesis, in the slot?
    pub fn contains_cached_block_header_at_slot(&self, slot: Slot) -> (out: bool)
        requires
            self.wf(),
            slot.round == GENESIS_ROUND || (self.config.committee.is_valid_index(slot.authority)
                && slot.round > self@.evicted_rounds[slot.authority as int]),
        ensures
            out == (slot.round == GENESIS_ROUND || exists|r: BlockRef| #[trigger]
                self@.headers.dom().contains(r) && r.round == slot.round && r.author
                    == slot.authority),
    {
        if slot.round == GENESIS_ROUND {
            return true;
        }
        let headers = self.get_uncommitted_block_headers_at_slot(slot);
        proof {
            if headers@.len() > 0 {
                assert(self@.headers.dom().contains(headers@[0].reference));
            }
        }
        headers.len() > 0
    }

    /// The genesis header of an authority.
    pub open spec fn genesis_header(self, a: AuthorityIndex) -> VerifiedBlockHeader {
        self.genesis.entries@[a as int].1.verified_block_header
    }

    /// Gets the last header accepted from an authority, or else its genesis
    /// header.
    pub fn get_last_block_header_for_authority(&self, authority: AuthorityIndex) -> (out:
        VerifiedBlockHeader)
        requires
            self.wf(),
            self.config.committee.is_valid_index(authority),
        ensures
            if self@.refs_of(authority) == Set::<BlockRef>::empty() {
                out == self.genesis_header(authority)
            } else {
                is_greatest(self@.refs_of(authority), out.reference)
                    && self@.headers[out.reference] == out
            },
    {
        match self.last_ref(authority) {
            Some(last) => match self.recent_block_headers.get(&last) {
                Some(header) => {
                    return share(header);
                },
                None => {
                    assert(false);
                },
            },
            None => {},
        }
        share(&self.genesis.entries[authority as usize].1.verified_block_header)
    }

    /// Gets the last header proposed by this node, or else its genesis header.
    pub fn get_last_proposed_block_header(&self) -> (out: VerifiedBlockHeader)
        requires
            self.wf(),
        ensures
            if self@.refs_of(self.config.own_index) == Set::<BlockRef>::empty() {
                out == self.genesis_header(self.config.own_index)
            } else {
                is_greatest(self@.refs_of(self.config.own_index), out.reference)
                    && self@.headers[out.reference] == out
            },
    {
        self.get_last_block_header_for_authority(self.config.own_index)
    }

    /// The block of `h`, where its transactions are in memory.
    pub open spec fn block_of(self, h: VerifiedBlockHeader) -> Option<VerifiedBlock> {
        let k = h.spec_generic_ref(self.config.consensus_fast_commit_sync);
        if self@.has_transactions(k) {
            Some(
                VerifiedBlock {
                    verified_block_header: h,
                    verified_transactions: self@.transactions[h.reference.author as int][k],
                },
            )
        } else {
            None
        }
    }

    fn get_block_of(&self, header: &VerifiedBlockHeader) -> (out: Option<VerifiedBlock>)
        requires
            self.wf(),
            self.config.committee.is_valid_index(header.reference.author),
        ensures
            out == self.block_of(*header),
    {
        let k = header.generic_ref(self.config.consensus_fast_commit_sync);
        match self.recent_transactions_by_authority[header.reference.author as usize].get(&k) {
            Some(t) => Some(VerifiedBlock::new(share(header), share(t))),
            None => None,
        }
    }

    /// Gets the last block proposed by this node, where both its header and its
    /// transactions are in memory.
    pub fn get_last_own_non_genesis_block(&self) -> (out: Option<VerifiedBlock>)
        requires
            self.wf(),
        ensures
            match out {
                Some(b) => is_greatest(
                    self@.refs_of(self.config.own_index),
                    b.verified_block_header.reference,
                ) && self.block_of(self@.headers[b.verified_block_header.reference]) == Some(b),
                None => forall|r: BlockRef| #[trigger]
                    is_greatest(self@.refs_of(self.config.own_index), r) ==> self.block_of(
                        self@.headers[r],
                    ) is None,
            },
    {
        match self.last_ref(self.config.own_index) {
            Some(last) => match self.recent_block_headers.get(&last) {
                Some(header) => {
                    proof {
                        assert forall|r: BlockRef| #[trigger]
                            is_greatest(self@.refs_of(self.config.own_index), r) implies r
                            == last by {
                            BlockRef::lemma_rank_injective(r, last);
                        }
                    }
                    self.get_block_of(header)
                },
                None => {
                    assert(false);
                    None
                },
            },
            None => None,
        }
    }

    /// The blocks of those headers whose transactions are in memory.
    pub open spec fn blocks_of(self, hs: Seq<VerifiedBlockHeader>) -> Seq<VerifiedBlock>
        decreases hs.len(),
    {
        if hs.len() == 0 {
            Seq::empty()
        } else {
            match self.block_of(hs.last()) {
                Some(b) => self.blocks_of(hs.drop_last()).push(b),
                None => self.blocks_of(hs.drop_last()),
            }
        }
    }

    /// Gets this node's blocks in memory of round `start` or later; blocks with
    /// no transactions in memory are left out.
    pub fn get_own_cached_blocks(&self, start: Round) -> (out: Vec<VerifiedBlock>)
        requires
            self.wf(),
        ensures
            exists|hs: Seq<VerifiedBlockHeader>|
                {
                    &&& #[trigger] lists(
                        hs,
                        self@.headers,
                        of_author_since(self.config.own_index, start),
                    )
                    &&& out@ == self.blocks_of(hs)
                },
    {
        let headers = self.get_cached_block_headers_since_round(self.config.own_index, start);
        let mut out: Vec<VerifiedBlock> = Vec::new();
        let mut i: usize = 0;
        while i < headers.len()
            invariant
                self.wf(),
                i <= headers@.len(),
                out@ == self.blocks_of(headers@.take(i as int)),
                lists(headers@, self@.headers, of_author_since(self.config.own_index, start)),
            decreases headers@.len() - i,
        {
            assert(self@.headers.dom().contains(headers@[i as int].reference));
            assert(headers@.take(i + 1).drop_last() =~= headers@.take(i as int));
            match self.get_block_of(&headers[i]) {
                Some(block) => out.push(block),
                None => {},
            }
            i = i + 1;
        }
        assert(headers@.take(i as int) =~= headers@);
        out
    }
}

} // verus!
