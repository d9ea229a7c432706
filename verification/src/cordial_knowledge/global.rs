//! Which authority knows which recent headers, as their own headers show.
use std::sync::Arc;

use ahash::AHashMap;
use vstd::prelude::*;

use crate::cordial_knowledge::messages::{ConnectionKnowledgeMessage, CordialKnowledgeMessage};
use crate::header::{share, VerifiedBlockHeader};
use crate::refs::{
    lemma_refs_finite, AuthorityIndex, BlockHeaderDigest, BlockRef, Digest, GenericTransactionRef,
    Key, Round, TransactionRef, TransactionsCommitment,
};
use crate::sorted::{SortedMap, SortedSet};
use crate::unordered::{entries_of, find_entry, insert_entry, new_entry_map, ItemKey};

verus! {

/// What is kept of a header: its ancestors, and who knows it.
pub ghost struct KnownView {
    pub ancestors: Seq<BlockRef>,
    pub who: Set<AuthorityIndex>,
}

#[derive(Debug)]
pub struct Known {
    pub digest: BlockHeaderDigest,
    pub ancestors: Arc<Vec<BlockRef>>,
    pub who: SortedSet<AuthorityIndex>,
}

impl Known {
    pub open spec fn view(self) -> KnownView {
        KnownView { ancestors: self.ancestors@, who: self.who@ }
    }
}

/// The key of a digest.
pub open spec fn key_of(d: Digest) -> ItemKey {
    (d.hi, d.lo)
}

/// What is kept of the headers of one authority in one round.
#[derive(Debug)]
pub struct RoundKnowledge {
    /// Where the header with a given digest stands.
    pub index: AHashMap<ItemKey, usize>,
    pub headers: Vec<Known>,
}

impl RoundKnowledge {
    pub open spec fn wf(self) -> bool {
        let m = entries_of(self.index);
        &&& forall|k: ItemKey| #[trigger]
            m.dom().contains(k) ==> m[k] < self.headers@.len() && key_of(
                self.headers@[m[k] as int].digest,
            ) == k
        &&& forall|i: int|
            0 <= i < self.headers@.len() ==> (#[trigger] self.headers@[i]).who.wf()
                && m.dom().contains(key_of(self.headers@[i].digest)) && m[key_of(
                self.headers@[i].digest,
            )] == i
    }

    pub open spec fn view(self) -> Map<BlockHeaderDigest, KnownView> {
        let m = entries_of(self.index);
        Map::new(
            |d: Digest| m.dom().contains(key_of(d)),
            |d: Digest| self.headers@[m[key_of(d)] as int]@,
        )
    }

    fn new() -> (r: Self)
        ensures
            r.wf(),
            r@ == Map::<Digest, KnownView>::empty(),
    {
        let r = RoundKnowledge { index: new_entry_map(), headers: Vec::new() };
        assert(r@ =~= Map::<Digest, KnownView>::empty());
        r
    }

    fn find(&self, d: &BlockHeaderDigest) -> (r: Option<usize>)
        requires
            self.wf(),
        ensures
            match r {
                Some(i) => i < self.headers@.len() && self@.dom().contains(*d) && self@[*d]
                    == self.headers@[i as int]@ && self.headers@[i as int].digest == *d,
                None => !self@.dom().contains(*d),
            },
    {
        find_entry(&self.index, &(d.hi, d.lo))
    }

    fn insert(
        &mut self,
        d: BlockHeaderDigest,
        ancestors: Arc<Vec<BlockRef>>,
        who: SortedSet<AuthorityIndex>,
    )
        requires
            old(self).wf(),
            !old(self)@.dom().contains(d),
            who.wf(),
        ensures
            final(self).wf(),
            final(self)@ == old(self)@.insert(d, KnownView { ancestors: ancestors@, who: who@ }),
    {
        let ghost before = *self;
        let i: usize = self.headers.len();
        insert_entry(&mut self.index, (d.hi, d.lo), i);
        self.headers.push(Known { digest: d, ancestors, who });
        proof {
            let m0 = entries_of(before.index);
            let m = entries_of(self.index);
            assert forall|k: ItemKey| #[trigger] m.dom().contains(k) implies m[k]
                < self.headers@.len() && key_of(self.headers@[m[k] as int].digest) == k by {
                if k != key_of(d) {
                    assert(m0.dom().contains(k));
                }
            }
            assert forall|j: int| 0 <= j < self.headers@.len() implies (
            #[trigger] self.headers@[j]).who.wf() && m.dom().contains(
                key_of(self.headers@[j].digest),
            ) && m[key_of(self.headers@[j].digest)] == j by {
                if j < i {
                    assert(self.headers@[j] == before.headers@[j]);
                    assert(key_of(before.headers@[j].digest) != key_of(d));
                }
            }
            let target = before@.insert(d, KnownView { ancestors: ancestors@, who: who@ });
            assert forall|q: Digest| #[trigger] self@.dom().contains(q)
                <==> target.dom().contains(q) by {
                assert(key_of(q) == key_of(d) ==> q == d);
            }
            assert forall|q: Digest| #[trigger] self@.dom().contains(q) implies self@[q]
                == target[q] by {
                if q != d {
                    assert(key_of(q) != key_of(d));
                    assert(before@.dom().contains(q));
                    assert(m0.dom().contains(key_of(q)));
                    assert(self.headers@[m0[key_of(q)] as int]
                        == before.headers@[m0[key_of(q)] as int]);
                }
            }
            assert(self@ =~= target);
        }
    }

    /// Notes that `author` knows the header at position `i`; is that new?
    fn mark(&mut self, i: usize, author: AuthorityIndex) -> (r: bool)
        requires
            old(self).wf(),
            i < old(self).headers@.len(),
        ensures
            final(self).wf(),
            ({
                let d = old(self).headers@[i as int].digest;
                let k = old(self).headers@[i as int]@;
                &&& final(self)@ == old(self)@.insert(
                    d,
                    KnownView { who: k.who.insert(author), ..k },
                )
                &&& r == !k.who.contains(author)
            }),
    {
        let ghost before = *self;
        let r = self.headers[i].who.insert(author);
        proof {
            let d = before.headers@[i as int].digest;
            let k = before.headers@[i as int]@;
            let m = entries_of(before.index);
            assert forall|j: int| 0 <= j < self.headers@.len() implies (
            #[trigger] self.headers@[j]).who.wf() && m.dom().contains(
                key_of(self.headers@[j].digest),
            ) && m[key_of(self.headers@[j].digest)] == j by {
                assert(before.headers@[j].who.wf());
            }
            let target = before@.insert(d, KnownView { who: k.who.insert(author), ..k });
            assert(m.dom().contains(key_of(d)));
            assert forall|q: Digest| #[trigger] self@.dom().contains(q)
                <==> target.dom().contains(q) by {}
            assert forall|q: Digest| #[trigger] self@.dom().contains(q) implies self@[q]
                == target[q] by {
                if q != d {
                    assert(key_of(q) != key_of(d));
                    assert(m.dom().contains(key_of(q)));
                    assert(key_of(before.headers@[m[key_of(q)] as int].digest) == key_of(q));
                    assert(m[key_of(q)] != i);
                }
            }
            assert(self@ =~= target);
        }
        r
    }
}

/// What is known of the headers, mathematically.
pub type Knowledge = Map<BlockRef, KnownView>;

/// The knowledge with one more header, known to its author and to this node.
pub open spec fn with_header(k: Knowledge, h: VerifiedBlockHeader, own: AuthorityIndex) -> Knowledge {
    k.insert(
        h.reference,
        KnownView {
            ancestors: h.ancestors@,
            who: Set::empty().insert(own).insert(h.reference.author),
        },
    )
}

/// Is `r` found by going back from `from` in at most `n` steps, each to a header
/// that is recorded and that `author` was not yet known to know?
pub open spec fn reached_in(
    k: Knowledge,
    author: AuthorityIndex,
    from: BlockRef,
    n: nat,
    r: BlockRef,
) -> bool
    decreases n,
{
    if n == 0 {
        r == from
    } else {
        ||| reached_in(k, author, from, (n - 1) as nat, r)
        ||| exists|q: BlockRef|
            {
                &&& reached_in(k, author, from, (n - 1) as nat, q)
                &&& k.dom().contains(q)
                &&& #[trigger] k[q].ancestors.contains(r)
                &&& is_news(k, author, r)
            }
    }
}

/// Is `r` recorded, and `author` not known to know it?
pub open spec fn is_news(k: Knowledge, author: AuthorityIndex, r: BlockRef) -> bool {
    k.dom().contains(r) && !k[r].who.contains(author)
}

/// The headers that `author` turns out to know when it has made `from`.
pub open spec fn newly_known(k: Knowledge, author: AuthorityIndex, from: BlockRef) -> Set<BlockRef> {
    Set::new(
        |r: BlockRef|
            is_news(k, author, r) && exists|n: nat| #[trigger] reached_in(k, author, from, n, r),
    )
}

/// The knowledge once `author` is known to know all of `s`.
pub open spec fn marked(k: Knowledge, author: AuthorityIndex, s: Set<BlockRef>) -> Knowledge {
    Map::new(
        |r: BlockRef| k.dom().contains(r),
        |r: BlockRef|
            if s.contains(r) {
                KnownView { who: k[r].who.insert(author), ..k[r] }
            } else {
                k[r]
            },
    )
}

/// The knowledge after a new header, which shows what its author knows.
pub open spec fn updated(k: Knowledge, h: VerifiedBlockHeader, own: AuthorityIndex) -> Knowledge {
    let w = with_header(k, h, own);
    marked(w, h.reference.author, newly_known(w, h.reference.author, h.reference))
}

/// The shard that an acknowledgment stands for, where it can be named.
pub open spec fn acknowledged_shard(
    by_commitment: bool,
    ack: BlockRef,
    commitment: Option<TransactionsCommitment>,
) -> Option<GenericTransactionRef> {
    if by_commitment {
        match commitment {
            Some(transactions_commitment) => Some(
                GenericTransactionRef::TransactionRef(
                    TransactionRef {
                        round: ack.round,
                        author: ack.author,
                        transactions_commitment,
                    },
                ),
            ),
            None => None,
        }
    } else {
        Some(GenericTransactionRef::BlockRef(ack))
    }
}

/// The shards that acknowledgments stand for, as messages. The lists are walked
/// side by side, as far as both reach.
pub open spec fn shard_removals(
    by_commitment: bool,
    acks: Seq<BlockRef>,
    commitments: Seq<Option<TransactionsCommitment>>,
    n: int,
) -> Seq<ConnectionKnowledgeMessage>
    decreases n,
{
    if n <= 0 {
        Seq::empty()
    } else {
        let before = shard_removals(by_commitment, acks, commitments, n - 1);
        match acknowledged_shard(by_commitment, acks[n - 1], commitments[n - 1]) {
            Some(gen_tx_ref) => before.push(
                ConnectionKnowledgeMessage::RemoveShard { gen_tx_ref },
            ),
            None => before,
        }
    }
}

/// The messages that these headers are known now.
pub open spec fn header_removals(refs: Seq<BlockRef>) -> Seq<ConnectionKnowledgeMessage> {
    refs.map_values(|block_ref: BlockRef| ConnectionKnowledgeMessage::RemoveHeader { block_ref })
}

/// Who knows which recent headers.
#[derive(Debug)]
pub struct CordialKnowledge {
    pub committee_size: usize,
    pub own_index: AuthorityIndex,
    pub consensus_fast_commit_sync: bool,
    /// For each authority, the last round in which its shards were of use.
    pub last_useful_shards_from_peer_round: Vec<Option<Round>>,
    /// For each authority and round, what is kept of its headers.
    pub cordial_knowledge: Vec<SortedMap<Round, RoundKnowledge>>,
}

impl CordialKnowledge {
    /// Is there a header at `r` among what is kept?
    pub open spec fn is_recorded(self, r: BlockRef) -> bool {
        let m = self.cordial_knowledge@[r.author as int]@;
        r.author < self.committee_size && m.dom().contains(r.round) && m[r.round]@.dom().contains(
            r.digest,
        )
    }

    pub open spec fn view(self) -> Knowledge {
        Map::new(
            |r: BlockRef| self.is_recorded(r),
            |r: BlockRef| self.cordial_knowledge@[r.author as int]@[r.round]@[r.digest],
        )
    }

    pub open spec fn wf(self) -> bool {
        &&& 0 < self.committee_size <= 256
        &&& self.own_index < self.committee_size
        &&& self.last_useful_shards_from_peer_round@.len() == self.committee_size
        &&& self.cordial_knowledge@.len() == self.committee_size
        &&& forall|a: int|
            0 <= a < self.committee_size ==> (#[trigger] self.cordial_knowledge@[a]).wf()
        &&& forall|a: int, round: Round|
            0 <= a < self.committee_size && (
            #[trigger] self.cordial_knowledge@[a]@.dom().contains(round))
                ==> self.cordial_knowledge@[a]@[round].wf()
        &&& self.authors_valid()
    }

    /// Are the authors of all ancestors in the committee?
    pub open spec fn authors_valid(self) -> bool {
        forall|r: BlockRef, i: int|
            #![trigger self@.dom().contains(r), self@[r].ancestors[i]]
            self@.dom().contains(r) && 0 <= i < self@[r].ancestors.len()
                ==> self@[r].ancestors[i].author < self.committee_size
    }

    /// What does not change while the node runs.
    pub open spec fn same_setup(self, other: Self) -> bool {
        &&& self.committee_size == other.committee_size
        &&& self.own_index == other.own_index
        &&& self.consensus_fast_commit_sync == other.consensus_fast_commit_sync
    }

    pub fn new(
        committee_size: usize,
        own_index: AuthorityIndex,
        consensus_fast_commit_sync: bool,
    ) -> (r: Self)
        requires
            0 < committee_size <= 256,
            own_index < committee_size,
        ensures
            r.wf(),
            r.committee_size == committee_size,
            r.own_index == own_index,
            r.consensus_fast_commit_sync == consensus_fast_commit_sync,
            r@ == Map::<BlockRef, KnownView>::empty(),
            r.last_useful_shards_from_peer_round@ == Seq::new(
                committee_size as nat,
                |a: int| None::<Round>,
            ),
    {
        let mut last: Vec<Option<Round>> = Vec::new();
        let mut tables: Vec<SortedMap<Round, RoundKnowledge>> = Vec::new();
        let mut i: usize = 0;
        while i < committee_size
            invariant
                i <= committee_size,
                last@.len() == i,
                tables@.len() == i,
                forall|a: int| 0 <= a < i ==> #[trigger] last@[a] is None,
                forall|a: int|
                    0 <= a < i ==> (#[trigger] tables@[a]).wf() && tables@[a]@ == Map::<
                        Round,
                        RoundKnowledge,
                    >::empty(),
            decreases committee_size - i,
        {
            last.push(None);
            tables.push(SortedMap::new());
            i = i + 1;
        }
        let r = CordialKnowledge {
            committee_size,
            own_index,
            consensus_fast_commit_sync,
            last_useful_shards_from_peer_round: last,
            cordial_knowledge: tables,
        };
        assert(r@ =~= Map::<BlockRef, KnownView>::empty());
        assert(last@ =~= Seq::new(committee_size as nat, |a: int| None::<Round>));
        r
    }

    /// The ancestors of a recorded header.
    fn ancestors_of(&self, r: &BlockRef) -> (out: Option<Arc<Vec<BlockRef>>>)
        requires
            self.wf(),
            r.author < self.committee_size,
        ensures
            match out {
                Some(ancestors) => self@.dom().contains(*r) && ancestors@ == self@[*r].ancestors,
                None => !self@.dom().contains(*r),
            },
    {
        let table = &self.cordial_knowledge[r.author as usize];
        match table.get(&r.round) {
            Some(round) => match round.find(&r.digest) {
                Some(i) => Some(share(&round.headers[i].ancestors)),
                None => None,
            },
            None => None,
        }
    }

    /// One round's table of one authority has changed, and nothing else.
    proof fn lemma_table_changed(
        self,
        before: Self,
        a: AuthorityIndex,
        round: Round,
        table: RoundKnowledge,
        d: Digest,
        v: KnownView,
    )
        requires
            before.wf(),
            self.same_setup(before),
            self.last_useful_shards_from_peer_round == before.last_useful_shards_from_peer_round,
            a < before.committee_size,
            self.cordial_knowledge@.len() == before.cordial_knowledge@.len(),
            forall|b: int|
                0 <= b < before.committee_size && b != a ==> #[trigger] self.cordial_knowledge@[b]
                    == before.cordial_knowledge@[b],
            self.cordial_knowledge@[a as int].wf(),
            self.cordial_knowledge@[a as int]@ == before.cordial_knowledge@[a as int]@.insert(
                round,
                table,
            ),
            table.wf(),
            table@ == (if before.cordial_knowledge@[a as int]@.dom().contains(round) {
                before.cordial_knowledge@[a as int]@[round]@
            } else {
                Map::empty()
            }).insert(d, v),
            forall|i: int| 0 <= i < v.ancestors.len() ==> (#[trigger] v.ancestors[i]).author
                < before.committee_size,
        ensures
            self.wf(),
            self@ == before@.insert(BlockRef { round, author: a, digest: d }, v),
    {
        let r = BlockRef { round, author: a, digest: d };
        let target = before@.insert(r, v);
        assert forall|q: BlockRef| #[trigger] self@.dom().contains(q) <==> target.dom().contains(
            q,
        ) by {
            if q.author != a {
                if q.author < before.committee_size {
                    assert(self.cordial_knowledge@[q.author as int]
                        == before.cordial_knowledge@[q.author as int]);
                }
            }
        }
        assert forall|q: BlockRef| #[trigger] self@.dom().contains(q) implies self@[q]
            == target[q] by {
            if q.author != a {
                assert(self.cordial_knowledge@[q.author as int]
                    == before.cordial_knowledge@[q.author as int]);
            }
        }
        assert(self@ =~= target);
        assert forall|b: int| 0 <= b < self.committee_size implies (
        #[trigger] self.cordial_knowledge@[b]).wf() by {
            if b != a {
                assert(self.cordial_knowledge@[b] == before.cordial_knowledge@[b]);
            }
        }
        assert forall|b: int, x: Round|
            0 <= b < self.committee_size && (
            #[trigger] self.cordial_knowledge@[b]@.dom().contains(
                x,
            )) implies self.cordial_knowledge@[b]@[x].wf() by {
            if b != a {
                assert(self.cordial_knowledge@[b] == before.cordial_knowledge@[b]);
                assert(before.cordial_knowledge@[b]@.dom().contains(x));
            } else if x != round {
                assert(before.cordial_knowledge@[b]@.dom().contains(x));
            }
        }
        assert forall|q: BlockRef, i: int|
            #![trigger self@.dom().contains(q), self@[q].ancestors[i]]
            self@.dom().contains(q) && 0 <= i
                < self@[q].ancestors.len() implies self@[q].ancestors[i].author
            < self.committee_size by {
            if q != r {
                assert(before@.dom().contains(q));
                assert(before@[q].ancestors[i].author < before.committee_size);
            }
        }
    }

    /// Records a new header.
    fn record(&mut self, header: &VerifiedBlockHeader)
        requires
            old(self).wf(),
            header.reference.author < old(self).committee_size,
            !old(self)@.dom().contains(header.reference),
            forall|i: int|
                0 <= i < header.ancestors@.len() ==> (#[trigger] header.ancestors@[i]).author
                    < old(self).committee_size,
        ensures
            final(self).wf(),
            final(self).same_setup(*old(self)),
            final(self).last_useful_shards_from_peer_round == old(
                self,
            ).last_useful_shards_from_peer_round,
            final(self)@ == with_header(old(self)@, *header, old(self).own_index),
    {
        let ghost before = *self;
        let r = header.reference;
        let a: usize = r.author as usize;
        let ancestors_copy = header.ancestors.clone();
        assert(ancestors_copy@ =~= header.ancestors@);
        let ancestors: Arc<Vec<BlockRef>> = Arc::new(ancestors_copy);
        let mut who: SortedSet<AuthorityIndex> = SortedSet::new();
        who.insert(self.own_index);
        who.insert(r.author);
        let ghost v = KnownView { ancestors: header.ancestors@, who: who@ };
        match self.cordial_knowledge[a].find(&r.round) {
            Some(i) => {
                let ghost table = self.cordial_knowledge@[a as int];
                assert(self.cordial_knowledge@[a as int]@.dom().contains(r.round));
                self.cordial_knowledge[a].entries[i].1.insert(r.digest, ancestors, who);
                proof {
                    let after = self.cordial_knowledge@[a as int];
                    let changed = after.entries@[i as int].1;
                    after.lemma_set_value(table, i as int, changed);
                    self.lemma_table_changed(before, r.author, r.round, changed, r.digest, v);
                }
            },
            None => {
                let mut round = RoundKnowledge::new();
                round.insert(r.digest, ancestors, who);
                let ghost changed = round;
                self.cordial_knowledge[a].insert(r.round, round);
                proof {
                    self.lemma_table_changed(before, r.author, r.round, changed, r.digest, v);
                }
            },
        }
    }

    /// Notes that `author` knows the header at `r`, where it is recorded; is
    /// that new?
    fn mark(&mut self, r: &BlockRef, author: AuthorityIndex) -> (out: bool)
        requires
            old(self).wf(),
            r.author < old(self).committee_size,
        ensures
            final(self).wf(),
            final(self).same_setup(*old(self)),
            final(self).last_useful_shards_from_peer_round == old(
                self,
            ).last_useful_shards_from_peer_round,
            out == is_news(old(self)@, author, *r),
            final(self)@ == if old(self)@.dom().contains(*r) {
                old(self)@.insert(
                    *r,
                    KnownView { who: old(self)@[*r].who.insert(author), ..old(self)@[*r] },
                )
            } else {
                old(self)@
            },
    {
        let ghost before = *self;
        let a: usize = r.author as usize;
        match self.cordial_knowledge[a].find(&r.round) {
            Some(i) => {
                let ghost table = self.cordial_knowledge@[a as int];
                assert(table@.dom().contains(r.round));
                match self.cordial_knowledge[a].entries[i].1.find(&r.digest) {
                    Some(j) => {
                        assert(self@.dom().contains(*r));
                        let out = self.cordial_knowledge[a].entries[i].1.mark(j, author);
                        proof {
                            let after = self.cordial_knowledge@[a as int];
                            let changed = after.entries@[i as int].1;
                            let v = KnownView {
                                who: before@[*r].who.insert(author),
                                ..before@[*r]
                            };
                            after.lemma_set_value(table, i as int, changed);
                            assert forall|x: int| 0 <= x < v.ancestors.len() implies (
                            #[trigger] v.ancestors[x]).author < before.committee_size by {
                                assert(before@[*r].ancestors[x].author < before.committee_size);
                            }
                            self.lemma_table_changed(
                                before,
                                r.author,
                                r.round,
                                changed,
                                r.digest,
                                v,
                            );
                        }
                        out
                    },
                    None => false,
                }
            },
            None => false,
        }
    }
}

/// One more step back.
pub(crate) proof fn lemma_step_back(
    k: Knowledge,
    author: AuthorityIndex,
    from: BlockRef,
    q: BlockRef,
    r: BlockRef,
)
    requires
        q == from || newly_known(k, author, from).contains(q),
        k.dom().contains(q),
        k[q].ancestors.contains(r),
        is_news(k, author, r),
    ensures
        newly_known(k, author, from).contains(r),
{
    let n = if q == from {
        0
    } else {
        choose|n: nat| #[trigger] reached_in(k, author, from, n, q)
    };
    assert(reached_in(k, author, from, n, q));
    assert(reached_in(k, author, from, n + 1, r));
}

/// What is closed under the steps back holds everything that they reach.
pub(crate) proof fn lemma_closed_under_steps(
    k: Knowledge,
    author: AuthorityIndex,
    from: BlockRef,
    s: Set<BlockRef>,
    n: nat,
    r: BlockRef,
)
    requires
        s.contains(from),
        forall|q: BlockRef, p: BlockRef|
            #![trigger s.contains(q), k[q].ancestors.contains(p)]
            s.contains(q) && k.dom().contains(q) && k[q].ancestors.contains(p) && is_news(
                k,
                author,
                p,
            ) ==> s.contains(p),
        reached_in(k, author, from, n, r),
    ensures
        s.contains(r),
    decreases n,
{
    if n > 0 {
        if reached_in(k, author, from, (n - 1) as nat, r) {
            lemma_closed_under_steps(k, author, from, s, (n - 1) as nat, r);
        } else {
            let q = choose|q: BlockRef|
                {
                    &&& reached_in(k, author, from, (n - 1) as nat, q)
                    &&& k.dom().contains(q)
                    &&& #[trigger] k[q].ancestors.contains(r)
                    &&& is_news(k, author, r)
                };
            lemma_closed_under_steps(k, author, from, s, (n - 1) as nat, q);
        }
    }
}

/// What is left to find out.
pub open spec fn still_unknown(k: Knowledge, author: AuthorityIndex, done: Set<BlockRef>) -> Set<
    BlockRef,
> {
    k.dom().filter(|r: BlockRef| is_news(k, author, r) && !done.contains(r))
}

/// Of the first `n` of `parents`, those that are news and are not among `done`, each
/// once and in the order given.
pub open spec fn news_among(
    k: Knowledge,
    author: AuthorityIndex,
    done: Set<BlockRef>,
    parents: Seq<BlockRef>,
    n: int,
) -> Seq<BlockRef>
    decreases n,
{
    if n <= 0 {
        Seq::empty()
    } else {
        let found = news_among(k, author, done, parents, n - 1);
        let p = parents[n - 1];
        if is_news(k, author, p) && !done.contains(p) && !found.contains(p) {
            found.push(p)
        } else {
            found
        }
    }
}

/// The order in which the news is found, `done` having been found before: the
/// headers to go back from wait on `stack`, the next one last, and the news among
/// the ancestors of one is found together.
pub open spec fn order_found(
    k: Knowledge,
    author: AuthorityIndex,
    done: Set<BlockRef>,
    stack: Seq<BlockRef>,
) -> Seq<BlockRef>
    decreases still_unknown(k, author, done).len(), stack.len(),
    via order_found_ends
{
    if stack.len() == 0 {
        Seq::empty()
    } else {
        let parents = k[stack.last()].ancestors;
        let found = news_among(k, author, done, parents, parents.len() as int);
        found + order_found(k, author, done.union(found.to_set()), stack.drop_last() + found)
    }
}

#[via_fn]
proof fn order_found_ends(
    k: Knowledge,
    author: AuthorityIndex,
    done: Set<BlockRef>,
    stack: Seq<BlockRef>,
) {
    if stack.len() > 0 {
        let parents = k[stack.last()].ancestors;
        let found = news_among(k, author, done, parents, parents.len() as int);
        lemma_news_among(k, author, done, parents, parents.len() as int);
        let u0 = still_unknown(k, author, done);
        let u1 = still_unknown(k, author, done.union(found.to_set()));
        lemma_refs_finite(u0);
        if found.len() == 0 {
            assert(done.union(found.to_set()) =~= done);
            assert(stack.drop_last() + found =~= stack.drop_last());
        } else {
            let p = found[0];
            assert(found.to_set().contains(p));
            assert(u0.contains(p));
            assert(u1.subset_of(u0.remove(p)));
            vstd::set_lib::lemma_len_subset(u1, u0.remove(p));
        }
    }
}

/// What is found among some parents is news, and was not found before.
pub(crate) proof fn lemma_news_among(
    k: Knowledge,
    author: AuthorityIndex,
    done: Set<BlockRef>,
    parents: Seq<BlockRef>,
    n: int,
)
    ensures
        forall|i: int|
            0 <= i < news_among(k, author, done, parents, n).len() ==> is_news(
                k,
                author,
                #[trigger] news_among(k, author, done, parents, n)[i],
            ) && !done.contains(news_among(k, author, done, parents, n)[i]),
    decreases n,
{
    if n > 0 {
        lemma_news_among(k, author, done, parents, n - 1);
        let found = news_among(k, author, done, parents, n - 1);
        let all = news_among(k, author, done, parents, n);
        assert forall|i: int| 0 <= i < all.len() implies is_news(k, author, #[trigger] all[i])
            && !done.contains(all[i]) by {
            if i < found.len() {
                assert(all[i] == found[i]);
            }
        }
    }
}

proof fn lemma_pushed(s: Seq<BlockRef>, p: BlockRef)
    ensures
        s.push(p).to_set() == s.to_set().insert(p),
{
    assert forall|r: BlockRef| #[trigger] s.push(p).to_set().contains(r) <==> s.to_set().insert(
        p,
    ).contains(r) by {
        if s.contains(r) {
            let z = choose|z: int| 0 <= z < s.len() && s[z] == r;
            assert(s.push(p)[z] == r);
        }
        assert(s.push(p)[s.len() as int] == p);
        assert(s.push(p).contains(r) <==> (s.contains(r) || r == p));
    }
    assert(s.push(p).to_set() =~= s.to_set().insert(p));
}

fn empty_messages(n: usize) -> (r: Vec<Vec<ConnectionKnowledgeMessage>>)
    ensures
        r@.len() == n,
        forall|a: int| 0 <= a < n ==> (#[trigger] r@[a])@ == Seq::<
            ConnectionKnowledgeMessage,
        >::empty(),
{
    let mut r: Vec<Vec<ConnectionKnowledgeMessage>> = Vec::new();
    let mut i: usize = 0;
    while i < n
        invariant
            i <= n,
            r@.len() == i,
            forall|a: int| 0 <= a < i ==> (#[trigger] r@[a])@ == Seq::<
                ConnectionKnowledgeMessage,
            >::empty(),
        decreases n - i,
    {
        r.push(Vec::new());
        i = i + 1;
    }
    r
}

/// Are these the messages to the connections about a new header? Those to third
/// parties tell of it; that to its author tells of what the author knows.
pub open spec fn are_header_messages(
    own: AuthorityIndex,
    block_ref: BlockRef,
    removals: Seq<ConnectionKnowledgeMessage>,
    messages: Seq<Vec<ConnectionKnowledgeMessage>>,
) -> bool {
    forall|a: int|
        0 <= a < messages.len() ==> (#[trigger] messages[a])@ == if a == block_ref.author {
            removals
        } else if a == own {
            Seq::empty()
        } else {
            seq![ConnectionKnowledgeMessage::NewHeader { block_ref }]
        }
}

/// Does taking in a header lead from `before` to `after`, with these messages?
pub open spec fn header_processed(
    before: CordialKnowledge,
    header: VerifiedBlockHeader,
    commitments: Seq<Option<TransactionsCommitment>>,
    after: CordialKnowledge,
    r: Option<Vec<Vec<ConnectionKnowledgeMessage>>>,
) -> bool {
    match r {
        None => before@.dom().contains(header.reference) && after == before,
        Some(messages) => {
            &&& !before@.dom().contains(header.reference)
            &&& after@ == updated(before@, header, before.own_index)
            &&& after.last_useful_shards_from_peer_round
                == before.last_useful_shards_from_peer_round
            &&& messages@.len() == before.committee_size
            &&& tells_header(before, header, commitments, told_order(before, header), messages@)
        },
    }
}

/// The headers that the author of a new one turns out to know, in the order found.
pub open spec fn told_order(before: CordialKnowledge, header: VerifiedBlockHeader) -> Seq<BlockRef> {
    order_found(
        with_header(before@, header, before.own_index),
        header.reference.author,
        Set::empty(),
        seq![header.reference],
    )
}

/// Are these the messages about a new header, with the headers that its author
/// turns out to know in this order?
pub open spec fn tells_header(
    before: CordialKnowledge,
    header: VerifiedBlockHeader,
    commitments: Seq<Option<TransactionsCommitment>>,
    order: Seq<BlockRef>,
    messages: Seq<Vec<ConnectionKnowledgeMessage>>,
) -> bool {
    let acks = header.acknowledgments@;
    let n = if acks.len() <= commitments.len() {
        acks.len() as int
    } else {
        commitments.len() as int
    };
    let shards = shard_removals(before.consensus_fast_commit_sync, acks, commitments, n);
    &&& order.no_duplicates()
    &&& order.to_set() == newly_known(
        with_header(before@, header, before.own_index),
        header.reference.author,
        header.reference,
    )
    &&& are_header_messages(
        before.own_index,
        header.reference,
        shards + header_removals(order),
        messages,
    )
}

impl CordialKnowledge {
    /// The walk back from a new header, which is recorded already: its causal
    /// past is known to its author. Gives the headers for which that is news.
    fn mark_causal_past(&mut self, block_ref: BlockRef) -> (order: Vec<BlockRef>)
        requires
            old(self).wf(),
            block_ref.author < old(self).committee_size,
            old(self)@.dom().contains(block_ref),
            old(self)@[block_ref].who.contains(block_ref.author),
        ensures
            final(self).wf(),
            final(self).same_setup(*old(self)),
            final(self).last_useful_shards_from_peer_round == old(
                self,
            ).last_useful_shards_from_peer_round,
            order@.no_duplicates(),
            order@.to_set() == newly_known(old(self)@, block_ref.author, block_ref),
            order@ == order_found(
                old(self)@,
                block_ref.author,
                Set::empty(),
                seq![block_ref],
            ),
            final(self)@ == marked(
                old(self)@,
                block_ref.author,
                newly_known(old(self)@, block_ref.author, block_ref),
            ),
    {
        let ghost before = *self;
        let ghost k = self@;
        let author = block_ref.author;
        let ghost mut done: Set<BlockRef> = Set::empty();
        let ghost mut processed: Set<BlockRef> = Set::empty();
        let ghost whole = order_found(k, author, done, seq![block_ref]);
        let mut order: Vec<BlockRef> = Vec::new();
        let mut stack: Vec<BlockRef> = Vec::new();
        stack.push(block_ref);
        proof {
            assert(marked(k, author, done) =~= k);
            assert(order@.to_set() =~= done);
            assert(stack@ =~= seq![block_ref]);
            assert(stack@[0] == block_ref);
            assert(order@ + whole =~= whole);
        }
        while stack.len() > 0
            invariant
                order@ + order_found(k, author, done, stack@) == whole,
                self.wf(),
                self.same_setup(before),
                self.last_useful_shards_from_peer_round
                    == before.last_useful_shards_from_peer_round,
                before.wf(),
                k == before@,
                author == block_ref.author,
                author < before.committee_size,
                k.dom().contains(block_ref),
                k[block_ref].who.contains(author),
                self@ == marked(k, author, done),
                done.subset_of(newly_known(k, author, block_ref)),
                order@.no_duplicates(),
                order@.to_set() == done,
                forall|i: int|
                    0 <= i < stack@.len() ==> (#[trigger] stack@[i]) == block_ref
                        || done.contains(stack@[i]),
                forall|r: BlockRef|
                    (r == block_ref || #[trigger] done.contains(r)) ==> processed.contains(r)
                        || stack@.contains(r),
                processed.contains(block_ref) || stack@.contains(block_ref),
                forall|q: BlockRef, p: BlockRef|
                    #![trigger processed.contains(q), k[q].ancestors.contains(p)]
                    processed.contains(q) && k.dom().contains(q) && k[q].ancestors.contains(p)
                        && is_news(k, author, p) ==> done.contains(p),
            decreases still_unknown(k, author, done).len(), stack@.len(),
        {
            let ghost stack_before = stack@;
            let ghost done_before = done;
            let ghost processed_before = processed;
            let ghost order_before = order@;
            let current = match stack.pop() {
                Some(r) => r,
                None => {
                    assert(false);
                    block_ref
                },
            };
            let ghost rest = stack@;
            proof {
                assert(stack_before.last() == current);
                assert(stack_before[stack_before.len() - 1] == current);
                assert(k.dom().contains(current));
                assert(current.author < before.committee_size);
            }
            let parents = match self.ancestors_of(&current) {
                Some(parents) => parents,
                None => {
                    assert(false);
                    Arc::new(Vec::new())
                },
            };
            assert(parents@ == k[current].ancestors);
            proof {
                lemma_refs_finite(still_unknown(k, author, done));
            }
            let m: usize = parents.len();
            let mut i: usize = 0;
            proof {
                let found = news_among(k, author, done_before, parents@, 0);
                assert(done =~= done_before.union(found.to_set()));
                assert(order@ =~= order_before + found);
                assert(stack@ =~= rest + found);
            }
            while i < m
                invariant
                    done == done_before.union(
                        news_among(k, author, done_before, parents@, i as int).to_set(),
                    ),
                    order@ == order_before + news_among(
                        k,
                        author,
                        done_before,
                        parents@,
                        i as int,
                    ),
                    stack@ == rest + news_among(k, author, done_before, parents@, i as int),
                    self.wf(),
                    self.same_setup(before),
                    self.last_useful_shards_from_peer_round
                        == before.last_useful_shards_from_peer_round,
                    before.wf(),
                    k == before@,
                    author == block_ref.author,
                    author < before.committee_size,
                    k.dom().contains(current),
                    current == block_ref || newly_known(k, author, block_ref).contains(current),
                    parents@ == k[current].ancestors,
                    m == parents@.len(),
                    i <= m,
                    self@ == marked(k, author, done),
                    done_before.subset_of(done),
                    done.subset_of(newly_known(k, author, block_ref)),
                    order@.no_duplicates(),
                    order@.to_set() == done,
                    forall|x: int|
                        0 <= x < stack@.len() ==> (#[trigger] stack@[x]) == block_ref
                            || done.contains(stack@[x]),
                    forall|r: BlockRef| #[trigger] rest.contains(r) ==> stack@.contains(r),
                    forall|r: BlockRef| #[trigger]
                        done.contains(r) && !done_before.contains(r) ==> stack@.contains(r),
                    forall|x: int|
                        0 <= x < i && is_news(k, author, #[trigger] parents@[x]) ==> done.contains(
                            parents@[x],
                        ),
                    still_unknown(k, author, done).finite(),
                    still_unknown(k, author, done).len() <= still_unknown(
                        k,
                        author,
                        done_before,
                    ).len(),
                    done == done_before ==> stack@ == rest,
                    done != done_before ==> still_unknown(k, author, done).len() < still_unknown(
                        k,
                        author,
                        done_before,
                    ).len(),
                decreases m - i,
            {
                let parent = parents[i];
                proof {
                    assert(k[current].ancestors[i as int].author < before.committee_size) by {
                        assert(before@.dom().contains(current));
                        assert(before@[current].ancestors[i as int].author
                            < before.committee_size);
                    }
                    assert(k[current].ancestors.contains(parent));
                }
                let ghost view_before = self@;
                let ghost done_mid = done;
                let ghost order_mid = order@;
                let ghost stack_mid = stack@;
                let ghost found_mid = news_among(k, author, done_before, parents@, i as int);
                let ghost found = news_among(k, author, done_before, parents@, i + 1);
                assert(found_mid.contains(parent) <==> found_mid.to_set().contains(parent));
                let fresh = self.mark(&parent, author);
                if fresh {
                    order.push(parent);
                    stack.push(parent);
                    proof {
                        assert(view_before.dom().contains(parent));
                        assert(k.dom().contains(parent));
                        assert(is_news(k, author, parent));
                        assert(!done.contains(parent));
                        lemma_step_back(k, author, block_ref, current, parent);
                        done = done.insert(parent);
                        assert(found == found_mid.push(parent));
                        lemma_pushed(found_mid, parent);
                        assert(done =~= done_before.union(found.to_set()));
                        assert(order@ =~= order_before + found);
                        assert(stack@ =~= rest + found);
                        assert(self@ =~= marked(k, author, done));
                        assert(!order_mid.contains(parent)) by {
                            assert(order_mid.contains(parent) <==> order_mid.to_set().contains(
                                parent,
                            ));
                        }
                        assert(order@.no_duplicates()) by {
                            assert forall|x: int, y: int|
                                0 <= x < order@.len() && 0 <= y < order@.len() && x
                                    != y implies order@[x] != order@[y] by {
                                if x < order_mid.len() && y < order_mid.len() {
                                    assert(order_mid[x] != order_mid[y]);
                                } else if x < order_mid.len() {
                                    assert(order_mid.contains(order_mid[x]));
                                } else {
                                    assert(order_mid.contains(order_mid[y]));
                                }
                            }
                        }
                        assert(order@.to_set() =~= done) by {
                            assert forall|r: BlockRef| order@.contains(r) <==> (
                            order_mid.contains(r) || r == parent) by {
                                if order_mid.contains(r) {
                                    let z = choose|z: int|
                                        0 <= z < order_mid.len() && order_mid[z] == r;
                                    assert(order@[z] == r);
                                }
                                assert(order@[order_mid.len() as int] == parent);
                            }
                            assert forall|r: BlockRef| order@.to_set().contains(r)
                                <==> done.contains(r) by {
                                assert(order_mid.contains(r) <==> order_mid.to_set().contains(r));
                            }
                        }
                        assert forall|r: BlockRef| stack_mid.contains(r) implies #[trigger]
                        stack@.contains(r) by {
                            let z = choose|z: int|
                                0 <= z < stack_mid.len() && stack_mid[z] == r;
                            assert(stack@[z] == r);
                        }
                        assert(stack@[stack_mid.len() as int] == parent);
                        let u0 = still_unknown(k, author, done_mid);
                        let u1 = still_unknown(k, author, done);
                        assert(u0.contains(parent));
                        assert(u1 =~= u0.remove(parent));
                        assert forall|x: int| 0 <= x < stack@.len() implies (
                        #[trigger] stack@[x]) == block_ref || done.contains(stack@[x]) by {
                            if x < stack_mid.len() {
                                assert(stack@[x] == stack_mid[x]);
                            }
                        }
                    }
                } else {
                    proof {
                        assert(self@ =~= marked(k, author, done)) by {
                            if view_before.dom().contains(parent) {
                                assert(view_before[parent].who.insert(author)
                                    =~= view_before[parent].who);
                            }
                        }
                        assert(found == found_mid);
                    }
                }
                i = i + 1;
            }
            proof {
                let found = news_among(k, author, done_before, parents@, m as int);
                assert(stack_before.drop_last() =~= rest);
                assert(order_found(k, author, done_before, stack_before) == found + order_found(
                    k,
                    author,
                    done,
                    stack@,
                ));
                assert(order@ + order_found(k, author, done, stack@) =~= whole);
                processed = processed.insert(current);
                lemma_refs_finite(still_unknown(k, author, done));
                assert forall|q: BlockRef, p: BlockRef|
                    #![trigger processed.contains(q), k[q].ancestors.contains(p)]
                    processed.contains(q) && k.dom().contains(q) && k[q].ancestors.contains(p)
                        && is_news(k, author, p) implies done.contains(p) by {
                    if q == current {
                        let x = choose|x: int|
                            0 <= x < k[q].ancestors.len() && k[q].ancestors[x] == p;
                        assert(parents@[x] == p);
                    } else {
                        assert(processed_before.contains(q));
                    }
                }
                assert forall|r: BlockRef| (r == block_ref || #[trigger] done.contains(
                    r,
                )) implies processed.contains(r) || stack@.contains(r) by {
                    if r == current {
                    } else if r == block_ref || done_before.contains(r) {
                        if !processed_before.contains(r) {
                            assert(stack_before.contains(r));
                            let z = choose|z: int|
                                0 <= z < stack_before.len() && stack_before[z] == r;
                            assert(rest[z] == r);
                            assert(rest.contains(r));
                        }
                    }
                }
                assert(processed.contains(block_ref) || stack@.contains(block_ref)) by {
                    if block_ref != current && !processed_before.contains(block_ref) {
                        let z = choose|z: int|
                            0 <= z < stack_before.len() && stack_before[z] == block_ref;
                        assert(rest[z] == block_ref);
                        assert(rest.contains(block_ref));
                    }
                }
            }
        }
        proof {
            assert(processed.contains(block_ref));
            let all = newly_known(k, author, block_ref);
            let closed = done.insert(block_ref);
            assert forall|q: BlockRef, p: BlockRef|
                #![trigger closed.contains(q), k[q].ancestors.contains(p)]
                closed.contains(q) && k.dom().contains(q) && k[q].ancestors.contains(p) && is_news(
                    k,
                    author,
                    p,
                ) implies closed.contains(p) by {
                if q != block_ref {
                    assert(done.contains(q));
                }
                assert(processed.contains(q));
            }
            assert forall|r: BlockRef| all.contains(r) implies done.contains(r) by {
                let n = choose|n: nat| #[trigger] reached_in(k, author, block_ref, n, r);
                lemma_closed_under_steps(k, author, block_ref, closed, n, r);
            }
            assert(done =~= all);
            assert(order@ =~= whole);
        }
        order
    }

    /// Takes in a new header: records it, and that its author knows its causal
    /// past and what it acknowledges. Gives the messages to the connections;
    /// where the header is recorded already, nothing changes and there are none.
    pub fn update_cordial_knowledge(
        &mut self,
        header: &VerifiedBlockHeader,
        ack_transactions_commitments: &Vec<Option<TransactionsCommitment>>,
    ) -> (r: Option<Vec<Vec<ConnectionKnowledgeMessage>>>)
        requires
            old(self).wf(),
            header.reference.author < old(self).committee_size,
            forall|i: int|
                0 <= i < header.ancestors@.len() ==> (#[trigger] header.ancestors@[i]).author
                    < old(self).committee_size,
        ensures
            final(self).wf(),
            final(self).same_setup(*old(self)),
            final(self).last_useful_shards_from_peer_round == old(
                self,
            ).last_useful_shards_from_peer_round,
            header_processed(
                *old(self),
                *header,
                ack_transactions_commitments@,
                *final(self),
                r,
            ),
    {
        let ghost before = *self;
        let block_ref = header.reference;
        if self.ancestors_of(&block_ref).is_some() {
            return None;
        }
        self.record(header);
        let mut removals: Vec<ConnectionKnowledgeMessage> = Vec::new();
        let acks = &header.acknowledgments;
        let m: usize = if acks.len() <= ack_transactions_commitments.len() {
            acks.len()
        } else {
            ack_transactions_commitments.len()
        };
        let by_commitment = self.consensus_fast_commit_sync;
        let mut i: usize = 0;
        while i < m
            invariant
                i <= m,
                m <= acks@.len(),
                m <= ack_transactions_commitments@.len(),
                removals@ == shard_removals(
                    by_commitment,
                    acks@,
                    ack_transactions_commitments@,
                    i as int,
                ),
            decreases m - i,
        {
            let ack = acks[i];
            if by_commitment {
                match ack_transactions_commitments[i] {
                    Some(commitment) => {
                        let gen_tx_ref = GenericTransactionRef::TransactionRef(
                            TransactionRef::new(ack, commitment),
                        );
                        removals.push(ConnectionKnowledgeMessage::RemoveShard { gen_tx_ref });
                    },
                    None => {},
                }
            } else {
                let gen_tx_ref = GenericTransactionRef::BlockRef(ack);
                removals.push(ConnectionKnowledgeMessage::RemoveShard { gen_tx_ref });
            }
            i = i + 1;
        }
        let ghost shards = removals@;
        let order = self.mark_causal_past(block_ref);
        let mut i: usize = 0;
        assert(shards + header_removals(order@.take(0)) =~= shards);
        while i < order.len()
            invariant
                i <= order@.len(),
                removals@ == shards + header_removals(order@.take(i as int)),
            decreases order@.len() - i,
        {
            removals.push(ConnectionKnowledgeMessage::RemoveHeader { block_ref: order[i] });
            i = i + 1;
            assert(removals@ =~= shards + header_removals(order@.take(i as int)));
        }
        assert(order@.take(i as int) =~= order@);
        let ghost all_removals = removals@;
        let n: usize = self.committee_size;
        let mut messages: Vec<Vec<ConnectionKnowledgeMessage>> = Vec::new();
        let mut to_author = removals;
        let mut a: usize = 0;
        while a < n
            invariant
                a <= n,
                n == self.committee_size,
                messages@.len() == a,
                a <= block_ref.author ==> to_author@ == all_removals,
                forall|b: int|
                    0 <= b < a ==> (#[trigger] messages@[b])@ == if b == block_ref.author {
                        all_removals
                    } else if b == self.own_index {
                        Seq::empty()
                    } else {
                        seq![ConnectionKnowledgeMessage::NewHeader { block_ref }]
                    },
            decreases n - a,
        {
            let mut list: Vec<ConnectionKnowledgeMessage> = Vec::new();
            if a == block_ref.author as usize {
                core::mem::swap(&mut list, &mut to_author);
            } else if a != self.own_index as usize {
                list.push(ConnectionKnowledgeMessage::NewHeader { block_ref });
                assert(list@ =~= seq![ConnectionKnowledgeMessage::NewHeader { block_ref }]);
            } else {
                assert(list@ =~= Seq::empty());
            }
            messages.push(list);
            a = a + 1;
        }
        proof {
            assert(tells_header(
                before,
                *header,
                ack_transactions_commitments@,
                order@,
                messages@,
            ));
        }
        let r = Some(messages);
        assert(header_processed(before, *header, ack_transactions_commitments@, *self, r));
        r
    }
}

/// The later of a round and another one that may be there.
pub open spec fn later(old_round: Option<Round>, new_round: Round) -> Option<Round> {
    match old_round {
        Some(r) => if r >= new_round {
            Some(r)
        } else {
            Some(new_round)
        },
        None => Some(new_round),
    }
}

/// The rounds, each raised where there is a later one for it.
pub open spec fn raised(
    rounds: Seq<Option<Round>>,
    updates: Map<AuthorityIndex, Round>,
) -> Seq<Option<Round>> {
    Seq::new(
        rounds.len(),
        |a: int|
            if a <= AuthorityIndex::MAX && updates.dom().contains(a as AuthorityIndex) {
                later(rounds[a], updates[a as AuthorityIndex])
            } else {
                rounds[a]
            },
    )
}

/// Raising the rounds again changes nothing, and what was not raised is as it was.
pub proof fn law_raising_again_changes_nothing(
    rounds: Seq<Option<Round>>,
    updates: Map<AuthorityIndex, Round>,
)
    ensures
        raised(raised(rounds, updates), updates) == raised(rounds, updates),
        raised(rounds, updates).len() == rounds.len(),
        forall|a: AuthorityIndex|
            a < rounds.len() && !(#[trigger] updates.dom().contains(a)) ==> raised(
                rounds,
                updates,
            )[a as int] == rounds[a as int],
        forall|a: int|
            AuthorityIndex::MAX < a < rounds.len() ==> (#[trigger] raised(rounds, updates)[a])
                == rounds[a],
{
    assert(raised(raised(rounds, updates), updates) =~= raised(rounds, updates));
}

/// Raises the rounds of the authorities for which there is a later one; has any
/// changed?
pub fn update_authority_rounds_if_greater(
    target: &mut Vec<Option<Round>>,
    updates: &SortedMap<AuthorityIndex, Round>,
) -> (changed: bool)
    requires
        updates.wf(),
        forall|a: AuthorityIndex| #[trigger]
            updates@.dom().contains(a) ==> a < old(target)@.len(),
    ensures
        final(target)@ == raised(old(target)@, updates@),
        changed == (final(target)@ != old(target)@),
{
    let ghost before = target@;
    let n: usize = updates.entries.len();
    let mut changed = false;
    let mut i: usize = 0;
    while i < n
        invariant
            updates.wf(),
            n == updates.entries@.len(),
            i <= n,
            forall|a: AuthorityIndex| #[trigger]
                updates@.dom().contains(a) ==> a < before.len(),
            target@.len() == before.len(),
            forall|a: int|
                0 <= a < before.len() ==> #[trigger] target@[a] == if exists|j: int|
                    0 <= j < i && (#[trigger] updates.entries@[j]).0 == a {
                    later(before[a], updates@[a as AuthorityIndex])
                } else {
                    before[a]
                },
            changed == (target@ != before),
        decreases n - i,
    {
        let (authority, new_round) = updates.entries[i];
        let ghost mid = target@;
        let ghost was_changed = changed;
        proof {
            updates.lemma_entry(i as int);
            assert(authority < before.len());
            assert(target@[authority as int] == before[authority as int]) by {
                if exists|j: int| 0 <= j < i && (#[trigger] updates.entries@[j]).0 == authority {
                    let j = choose|j: int|
                        0 <= j < i && (#[trigger] updates.entries@[j]).0 == authority;
                    assert(updates.keys()[j].rank() < updates.keys()[i as int].rank());
                }
            }
        }
        let slot: usize = authority as usize;
        let later_round = match target[slot] {
            Some(existing) => new_round > existing,
            None => true,
        };
        if later_round {
            target.set(slot, Some(new_round));
            changed = true;
        }
        proof {
            assert forall|a: int| 0 <= a < before.len() implies #[trigger] target@[a]
                == if exists|j: int|
                0 <= j < i + 1 && (#[trigger] updates.entries@[j]).0 == a {
                later(before[a], updates@[a as AuthorityIndex])
            } else {
                before[a]
            } by {
                if a == authority {
                    assert(updates.entries@[i as int].0 == a);
                } else {
                    assert(target@[a] == mid[a]);
                    if exists|j: int| 0 <= j < i && (#[trigger] updates.entries@[j]).0 == a {
                        let j = choose|j: int|
                            0 <= j < i && (#[trigger] updates.entries@[j]).0 == a;
                        assert(updates.entries@[j].0 == a);
                    } else if exists|j: int|
                        0 <= j < i + 1 && (#[trigger] updates.entries@[j]).0 == a {
                        let j = choose|j: int|
                            0 <= j < i + 1 && (#[trigger] updates.entries@[j]).0 == a;
                        assert(j < i);
                    }
                }
            }
            if later_round {
                assert(target@[authority as int] != before[authority as int]);
            }
        }
        i = i + 1;
    }
    proof {
        let goal = raised(before, updates@);
        assert forall|a: int| 0 <= a < before.len() implies #[trigger] target@[a] == goal[a] by {
            let x = a as AuthorityIndex;
            if a <= AuthorityIndex::MAX && updates@.dom().contains(x) {
                let j = updates.lemma_key(x);
                assert(updates.entries@[j].0 == a);
            } else if exists|j: int| 0 <= j < i && (#[trigger] updates.entries@[j]).0 == a {
                let j = choose|j: int| 0 <= j < i && (#[trigger] updates.entries@[j]).0 == a;
                updates.lemma_entry(j);
            }
        }
        assert(target@ =~= goal);
    }
    changed
}

/// A copy of the rounds.
pub(crate) fn copy_options(rounds: &Vec<Option<Round>>) -> (r: Vec<Option<Round>>)
    ensures
        r@ == rounds@,
{
    let mut r: Vec<Option<Round>> = Vec::new();
    let mut i: usize = 0;
    while i < rounds.len()
        invariant
            i <= rounds@.len(),
            r@ == rounds@.take(i as int),
        decreases rounds@.len() - i,
    {
        r.push(rounds[i]);
        i = i + 1;
        assert(r@ =~= rounds@.take(i as int));
    }
    assert(r@ =~= rounds@);
    r
}

/// Is this the message that shards of these rounds are of use?
pub open spec fn tells_useful_shards(
    m: ConnectionKnowledgeMessage,
    rounds: Seq<Option<Round>>,
) -> bool {
    match m {
        ConnectionKnowledgeMessage::UsefulAuthors {
            useful_headers_to_peer,
            useful_shards_to_peer,
            useful_headers_from_peer,
            useful_shards_from_peer,
        } => {
            &&& useful_headers_to_peer.wf() && useful_headers_to_peer@ == Map::<
                AuthorityIndex,
                Round,
            >::empty()
            &&& useful_shards_to_peer.wf() && useful_shards_to_peer@ == Map::<
                AuthorityIndex,
                Round,
            >::empty()
            &&& useful_headers_from_peer.wf() && useful_headers_from_peer@ == Map::<
                AuthorityIndex,
                Round,
            >::empty()
            &&& useful_shards_from_peer@ == rounds
        },
        _ => false,
    }
}

/// Does the news of useful shards lead from `before` to `after`, with these
/// messages? All peers but the node itself are told, where anything changed.
pub open spec fn useful_shards_processed(
    before: CordialKnowledge,
    updates: Map<AuthorityIndex, Round>,
    after: CordialKnowledge,
    r: Option<Vec<Vec<ConnectionKnowledgeMessage>>>,
) -> bool {
    let rounds = raised(before.last_useful_shards_from_peer_round@, updates);
    &&& after@ == before@
    &&& after.cordial_knowledge == before.cordial_knowledge
    &&& after.last_useful_shards_from_peer_round@ == rounds
    &&& match r {
        None => rounds == before.last_useful_shards_from_peer_round@,
        Some(messages) => {
            &&& rounds != before.last_useful_shards_from_peer_round@
            &&& messages@.len() == before.committee_size
            &&& forall|a: int|
                0 <= a < messages@.len() ==> if a == before.own_index {
                    (#[trigger] messages@[a])@.len() == 0
                } else {
                    messages@[a]@.len() == 1 && tells_useful_shards(messages@[a]@[0], rounds)
                }
        },
    }
}

/// Are these the messages about a new own shard? Its author and the node itself
/// are not told.
pub open spec fn shard_processed(
    before: CordialKnowledge,
    k: GenericTransactionRef,
    r: Option<Vec<Vec<ConnectionKnowledgeMessage>>>,
) -> bool {
    match r {
        None => false,
        Some(messages) => {
            &&& messages@.len() == before.committee_size
            &&& forall|a: int|
                0 <= a < messages@.len() ==> (#[trigger] messages@[a])@ == if a == k.spec_author()
                    || a == before.own_index {
                    Seq::empty()
                } else {
                    seq![ConnectionKnowledgeMessage::NewShard { gen_tx_ref: k }]
                }
        },
    }
}

/// Can the message be processed? What it names has to be of the committee.
pub open spec fn is_processable(m: CordialKnowledgeMessage, committee_size: usize) -> bool {
    match m {
        CordialKnowledgeMessage::NewHeader { header, .. } => {
            &&& header.reference.author < committee_size
            &&& forall|i: int|
                0 <= i < header.ancestors@.len() ==> (#[trigger] header.ancestors@[i]).author
                    < committee_size
        },
        CordialKnowledgeMessage::NewShard(_) => true,
        CordialKnowledgeMessage::UsefulShardsFromPeers(updates) => {
            &&& updates.wf()
            &&& forall|a: AuthorityIndex| #[trigger]
                updates@.dom().contains(a) ==> a < committee_size
        },
    }
}

/// Does processing the message lead from `before` to `after`, with these
/// messages to the connections?
pub open spec fn processed(
    before: CordialKnowledge,
    m: CordialKnowledgeMessage,
    after: CordialKnowledge,
    r: Option<Vec<Vec<ConnectionKnowledgeMessage>>>,
) -> bool {
    match m {
        CordialKnowledgeMessage::NewHeader {
            header,
            ack_transactions_commitments,
        } => header_processed(before, header, ack_transactions_commitments@, after, r),
        CordialKnowledgeMessage::NewShard(k) => after == before && shard_processed(before, k, r),
        CordialKnowledgeMessage::UsefulShardsFromPeers(updates) => useful_shards_processed(
            before,
            updates@,
            after,
            r,
        ),
    }
}

/// How many messages are processed before the next look at what can be dropped.
pub const EVICTION_CHECK_INTERVAL: usize = 10_000;

impl CordialKnowledge {
    /// Takes in whose shards have turned out useful.
    pub fn handle_useful_shards_from(
        &mut self,
        useful_shards_from_peer: &SortedMap<AuthorityIndex, Round>,
    ) -> (r: Option<Vec<Vec<ConnectionKnowledgeMessage>>>)
        requires
            old(self).wf(),
            useful_shards_from_peer.wf(),
            forall|a: AuthorityIndex| #[trigger]
                useful_shards_from_peer@.dom().contains(a) ==> a < old(self).committee_size,
        ensures
            final(self).wf(),
            final(self).same_setup(*old(self)),
            useful_shards_processed(*old(self), useful_shards_from_peer@, *final(self), r),
    {
        let ghost before = *self;
        let changed = update_authority_rounds_if_greater(
            &mut self.last_useful_shards_from_peer_round,
            useful_shards_from_peer,
        );
        assert(self@ =~= before@);
        if changed {
            Some(self.prepare_useful_shards_from_peers_msgs())
        } else {
            None
        }
    }

    /// The messages to the connections about useful shards.
    fn prepare_useful_shards_from_peers_msgs(&self) -> (messages: Vec<
        Vec<ConnectionKnowledgeMessage>,
    >)
        requires
            self.wf(),
        ensures
            messages@.len() == self.committee_size,
            forall|a: int|
                0 <= a < messages@.len() ==> if a == self.own_index {
                    (#[trigger] messages@[a])@.len() == 0
                } else {
                    messages@[a]@.len() == 1 && tells_useful_shards(
                        messages@[a]@[0],
                        self.last_useful_shards_from_peer_round@,
                    )
                },
    {
        let n: usize = self.committee_size;
        let mut messages: Vec<Vec<ConnectionKnowledgeMessage>> = Vec::new();
        let mut a: usize = 0;
        while a < n
            invariant
                self.wf(),
                n == self.committee_size,
                a <= n,
                messages@.len() == a,
                forall|b: int|
                    0 <= b < a ==> if b == self.own_index {
                        (#[trigger] messages@[b])@.len() == 0
                    } else {
                        messages@[b]@.len() == 1 && tells_useful_shards(
                            messages@[b]@[0],
                            self.last_useful_shards_from_peer_round@,
                        )
                    },
            decreases n - a,
        {
            let mut list: Vec<ConnectionKnowledgeMessage> = Vec::new();
            if a != self.own_index as usize {
                list.push(
                    ConnectionKnowledgeMessage::UsefulAuthors {
                        useful_headers_to_peer: SortedMap::new(),
                        useful_shards_to_peer: SortedMap::new(),
                        useful_headers_from_peer: SortedMap::new(),
                        useful_shards_from_peer: copy_options(
                            &self.last_useful_shards_from_peer_round,
                        ),
                    },
                );
                assert(tells_useful_shards(list@[0], self.last_useful_shards_from_peer_round@));
            }
            let ghost last = list@;
            messages.push(list);
            proof {
                assert(messages@[a as int]@ == last);
            }
            a = a + 1;
        }
        messages
    }

    /// The messages to the connections about a new own shard.
    pub fn prepare_new_shard_msgs(&self, gen_transaction_ref: GenericTransactionRef) -> (r: Option<
        Vec<Vec<ConnectionKnowledgeMessage>>,
    >)
        requires
            self.wf(),
        ensures
            shard_processed(*self, gen_transaction_ref, r),
    {
        let n: usize = self.committee_size;
        let author: usize = gen_transaction_ref.author() as usize;
        let mut messages: Vec<Vec<ConnectionKnowledgeMessage>> = Vec::new();
        let mut a: usize = 0;
        while a < n
            invariant
                self.wf(),
                n == self.committee_size,
                author == gen_transaction_ref.spec_author(),
                a <= n,
                messages@.len() == a,
                forall|b: int|
                    0 <= b < a ==> (#[trigger] messages@[b])@ == if b == author || b
                        == self.own_index {
                        Seq::empty()
                    } else {
                        seq![
                            ConnectionKnowledgeMessage::NewShard {
                                gen_tx_ref: gen_transaction_ref,
                            },
                        ]
                    },
            decreases n - a,
        {
            let mut list: Vec<ConnectionKnowledgeMessage> = Vec::new();
            if a != author && a != self.own_index as usize {
                list.push(
                    ConnectionKnowledgeMessage::NewShard { gen_tx_ref: gen_transaction_ref },
                );
                assert(list@ =~= seq![
                    ConnectionKnowledgeMessage::NewShard { gen_tx_ref: gen_transaction_ref },
                ]);
            } else {
                assert(list@ =~= Seq::empty());
            }
            messages.push(list);
            a = a + 1;
        }
        Some(messages)
    }

    /// Processes a message.
    pub fn process_message(&mut self, message: &CordialKnowledgeMessage) -> (r: Option<
        Vec<Vec<ConnectionKnowledgeMessage>>,
    >)
        requires
            old(self).wf(),
            is_processable(*message, old(self).committee_size),
        ensures
            final(self).wf(),
            final(self).same_setup(*old(self)),
            processed(*old(self), *message, *final(self), r),
    {
        match message {
            CordialKnowledgeMessage::NewHeader {
                header,
                ack_transactions_commitments,
            } => self.update_cordial_knowledge(header, ack_transactions_commitments),
            CordialKnowledgeMessage::NewShard(gen_tx_ref) => self.prepare_new_shard_msgs(
                *gen_tx_ref,
            ),
            CordialKnowledgeMessage::UsefulShardsFromPeers(
                useful_shards_from_peer,
            ) => self.handle_useful_shards_from(useful_shards_from_peer),
        }
    }

    /// Drops the headers of rounds up to the given ones, and tells the
    /// connections.
    pub fn handle_evict_below(&mut self, evicted_rounds: &Vec<Round>) -> (messages: Vec<
        Vec<ConnectionKnowledgeMessage>,
    >)
        requires
            old(self).wf(),
            evicted_rounds@.len() == old(self).committee_size,
            forall|a: int|
                0 <= a < evicted_rounds@.len() ==> (#[trigger] evicted_rounds@[a]) < Round::MAX,
        ensures
            final(self).wf(),
            final(self).same_setup(*old(self)),
            final(self).last_useful_shards_from_peer_round == old(
                self,
            ).last_useful_shards_from_peer_round,
            final(self)@ == old(self)@.restrict(
                old(self)@.dom().filter(
                    |r: BlockRef| r.round > evicted_rounds@[r.author as int],
                ),
            ),
            messages@.len() == old(self).committee_size,
            forall|a: int|
                0 <= a < messages@.len() ==> (#[trigger] messages@[a])@.len() == 1
                    && tells_eviction(messages@[a]@[0], evicted_rounds@),
    {
        let ghost before = *self;
        let n: usize = self.committee_size;
        let mut i: usize = 0;
        while i < n
            invariant
                before.wf(),
                self.same_setup(before),
                self.last_useful_shards_from_peer_round
                    == before.last_useful_shards_from_peer_round,
                n == before.committee_size,
                evicted_rounds@.len() == n,
                forall|a: int|
                    0 <= a < evicted_rounds@.len() ==> (#[trigger] evicted_rounds@[a])
                        < Round::MAX,
                i <= n,
                self.cordial_knowledge@.len() == n,
                forall|a: int| i <= a < n ==> #[trigger] self.cordial_knowledge@[a]
                    == before.cordial_knowledge@[a],
                forall|a: int|
                    0 <= a < i ==> (#[trigger] self.cordial_knowledge@[a]).wf()
                        && self.cordial_knowledge@[a]@ == before.cordial_knowledge@[a]@.restrict(
                        before.cordial_knowledge@[a]@.dom().filter(
                            |q: Round| q > evicted_rounds@[a],
                        ),
                    ),
            decreases n - i,
        {
            let split_round: Round = evicted_rounds[i] + 1;
            let kept = self.cordial_knowledge[i].split_off(&split_round);
            proof {
                let old_table = before.cordial_knowledge@[i as int]@;
                assert(kept@ =~= old_table.restrict(
                    old_table.dom().filter(|q: Round| q > evicted_rounds@[i as int]),
                ));
            }
            self.cordial_knowledge[i] = kept;
            i = i + 1;
        }
        proof {
            let target = before@.restrict(
                before@.dom().filter(|r: BlockRef| r.round > evicted_rounds@[r.author as int]),
            );
            assert forall|r: BlockRef| #[trigger] self@.dom().contains(r)
                <==> target.dom().contains(r) by {
                if r.author < n {
                    let t = self.cordial_knowledge@[r.author as int];
                    assert(t.wf());
                }
            }
            assert forall|r: BlockRef| #[trigger] self@.dom().contains(r) implies self@[r]
                == target[r] by {
                let t = self.cordial_knowledge@[r.author as int];
                assert(t.wf());
            }
            assert(self@ =~= target);
            assert forall|a: int, round: Round|
                0 <= a < n && (#[trigger] self.cordial_knowledge@[a]@.dom().contains(
                    round,
                )) implies self.cordial_knowledge@[a]@[round].wf() by {
                assert(self.cordial_knowledge@[a].wf());
                assert(before.cordial_knowledge@[a]@.dom().contains(round));
            }
            assert forall|q: BlockRef, x: int|
                #![trigger self@.dom().contains(q), self@[q].ancestors[x]]
                self@.dom().contains(q) && 0 <= x
                    < self@[q].ancestors.len() implies self@[q].ancestors[x].author
                < self.committee_size by {
                assert(before@.dom().contains(q));
                assert(before@[q].ancestors[x].author < before.committee_size);
            }
        }
        self.prepare_evict_msgs(evicted_rounds)
    }

    /// The messages to the connections about what can be dropped.
    fn prepare_evict_msgs(&self, rounds: &Vec<Round>) -> (messages: Vec<
        Vec<ConnectionKnowledgeMessage>,
    >)
        ensures
            messages@.len() == self.committee_size,
            forall|a: int|
                0 <= a < messages@.len() ==> (#[trigger] messages@[a])@.len() == 1
                    && tells_eviction(messages@[a]@[0], rounds@),
    {
        let n: usize = self.committee_size;
        let mut messages: Vec<Vec<ConnectionKnowledgeMessage>> = Vec::new();
        let mut a: usize = 0;
        while a < n
            invariant
                a <= n,
                messages@.len() == a,
                forall|b: int|
                    0 <= b < a ==> (#[trigger] messages@[b])@.len() == 1 && tells_eviction(
                        messages@[b]@[0],
                        rounds@,
                    ),
            decreases n - a,
        {
            let copy = crate::dag_state::accept::copy_rounds(rounds);
            let mut list: Vec<ConnectionKnowledgeMessage> = Vec::new();
            list.push(ConnectionKnowledgeMessage::EvictBelow(copy));
            let ghost last = list@;
            messages.push(list);
            proof {
                assert(messages@[a as int]@ == last);
            }
            a = a + 1;
        }
        messages
    }

    /// Drops what can be dropped, if the rounds are those of the whole committee
    /// (others are passed over), and adds the messages about it.
    pub fn append_eviction_msgs(
        &mut self,
        evicted_rounds: &Vec<Round>,
        messages: &mut Vec<Vec<ConnectionKnowledgeMessage>>,
    )
        requires
            old(self).wf(),
            old(messages)@.len() == old(self).committee_size,
            forall|a: int|
                0 <= a < evicted_rounds@.len() ==> (#[trigger] evicted_rounds@[a]) < Round::MAX,
        ensures
            final(self).wf(),
            final(self).same_setup(*old(self)),
            final(messages)@.len() == old(messages)@.len(),
            if evicted_rounds@.len() != old(self).committee_size {
                *final(self) == *old(self) && final(messages)@ == old(messages)@
            } else {
                &&& final(self).last_useful_shards_from_peer_round == old(
                    self,
                ).last_useful_shards_from_peer_round
                &&& final(self)@ == old(self)@.restrict(
                    old(self)@.dom().filter(
                        |r: BlockRef| r.round > evicted_rounds@[r.author as int],
                    ),
                )
                &&& forall|a: int|
                    0 <= a < final(messages)@.len() ==> (#[trigger] final(messages)@[a])@.len()
                        == old(messages)@[a]@.len() + 1 && final(messages)@[a]@.drop_last()
                        == old(messages)@[a]@ && tells_eviction(
                        final(messages)@[a]@.last(),
                        evicted_rounds@,
                    )
            },
    {
        if evicted_rounds.len() != self.committee_size {
            return;
        }
        let mut added = self.handle_evict_below(evicted_rounds);
        let ghost before = messages@;
        let ghost news = added@;
        let n: usize = messages.len();
        let mut a: usize = 0;
        while a < n
            invariant
                n == before.len(),
                n == news.len(),
                n == messages@.len(),
                n == added@.len(),
                a <= n,
                forall|b: int|
                    0 <= b < n ==> (#[trigger] news[b])@.len() == 1 && tells_eviction(
                        news[b]@[0],
                        evicted_rounds@,
                    ),
                forall|b: int| a <= b < n ==> #[trigger] messages@[b] == before[b],
                forall|b: int| a <= b < n ==> #[trigger] added@[b] == news[b],
                forall|b: int|
                    0 <= b < a ==> (#[trigger] messages@[b])@.len() == before[b]@.len() + 1
                        && messages@[b]@.drop_last() == before[b]@ && tells_eviction(
                        messages@[b]@.last(),
                        evicted_rounds@,
                    ),
            decreases n - a,
        {
            let ghost list = added@[a as int]@;
            let ghost was = messages@[a as int]@;
            messages[a].append(&mut added[a]);
            proof {
                let now = messages@[a as int]@;
                assert(now == was + list);
                assert(news[a as int]@.len() == 1);
                assert(now.drop_last() =~= was);
                assert(now.last() == list[0]);
            }
            a = a + 1;
        }
    }

    /// Processes messages one by one, and gathers the messages to each
    /// connection.
    pub fn process_batch(&mut self, batch: &Vec<CordialKnowledgeMessage>) -> (out: Vec<
        Vec<ConnectionKnowledgeMessage>,
    >)
        requires
            old(self).wf(),
            forall|i: int|
                0 <= i < batch@.len() ==> is_processable(
                    #[trigger] batch@[i],
                    old(self).committee_size,
                ),
        ensures
            final(self).wf(),
            final(self).same_setup(*old(self)),
            out@.len() == old(self).committee_size,
            exists|steps: Seq<(CordialKnowledge, Option<Vec<Vec<ConnectionKnowledgeMessage>>>)>|
                {
                    &&& #[trigger] batch_steps(*old(self), batch@, steps)
                    &&& *final(self) == if steps.len() == 0 {
                        *old(self)
                    } else {
                        steps.last().0
                    }
                    &&& forall|a: int|
                        0 <= a < out@.len() ==> (#[trigger] out@[a])@ == gathered(steps, a)
                },
    {
        let ghost start = *self;
        let ghost mut steps: Seq<
            (CordialKnowledge, Option<Vec<Vec<ConnectionKnowledgeMessage>>>),
        > = Seq::empty();
        let n: usize = self.committee_size;
        let mut out = empty_messages(n);
        let mut i: usize = 0;
        while i < batch.len()
            invariant
                self.wf(),
                self.same_setup(start),
                n == start.committee_size,
                forall|i: int|
                    0 <= i < batch@.len() ==> is_processable(
                        #[trigger] batch@[i],
                        start.committee_size,
                    ),
                i <= batch@.len(),
                batch_steps(start, batch@.take(i as int), steps),
                *self == if steps.len() == 0 {
                    start
                } else {
                    steps.last().0
                },
                out@.len() == n,
                forall|a: int| 0 <= a < n ==> (#[trigger] out@[a])@ == gathered(steps, a),
            decreases batch@.len() - i,
        {
            let ghost before = *self;
            let ghost steps0 = steps;
            let r = self.process_message(&batch[i]);
            proof {
                steps = steps.push((*self, r));
                assert(steps.drop_last() =~= steps0);
                assert(batch@.take(i + 1).drop_last() =~= batch@.take(i as int));
                assert(batch_steps(start, batch@.take(i + 1), steps)) by {
                    assert forall|k: int| 0 <= k < steps.len() implies processed(
                        if k == 0 {
                            start
                        } else {
                            steps[k - 1].0
                        },
                        batch@.take(i + 1)[k],
                        (#[trigger] steps[k]).0,
                        steps[k].1,
                    ) by {
                        if k < steps0.len() {
                            assert(steps[k] == steps0[k]);
                            assert(batch@.take(i + 1)[k] == batch@.take(i as int)[k]);
                            if k > 0 {
                                assert(steps[k - 1] == steps0[k - 1]);
                            }
                        } else if k > 0 {
                            assert(steps[k - 1] == steps0[k - 1]);
                        }
                    }
                }
            }
            match r {
                Some(lists) => {
                    let mut lists = lists;
                    let ghost added = lists@;
                    let ghost sofar = out@;
                    proof {
                        lemma_processed_len(before, batch@[i as int], *self, r);
                    }
                    let mut a: usize = 0;
                    while a < n
                        invariant
                            n == sofar.len(),
                            n == added.len(),
                            n == out@.len(),
                            n == lists@.len(),
                            a <= n,
                            forall|b: int| a <= b < n ==> #[trigger] out@[b] == sofar[b],
                            forall|b: int| a <= b < n ==> #[trigger] lists@[b] == added[b],
                            forall|b: int|
                                0 <= b < a ==> (#[trigger] out@[b])@ == sofar[b]@ + added[b]@,
                        decreases n - a,
                    {
                        out[a].append(&mut lists[a]);
                        a = a + 1;
                    }
                },
                None => {},
            }
            i = i + 1;
        }
        assert(batch@.take(i as int) =~= batch@);
        out
    }

    /// Is it time to look at what can be dropped, after so many messages?
    pub fn is_eviction_check_due(processed_since_eviction: usize) -> (r: bool)
        ensures
            r == (processed_since_eviction >= EVICTION_CHECK_INTERVAL),
    {
        processed_since_eviction >= EVICTION_CHECK_INTERVAL
    }
}

/// There is a list of messages for each connection.
proof fn lemma_processed_len(
    before: CordialKnowledge,
    m: CordialKnowledgeMessage,
    after: CordialKnowledge,
    r: Option<Vec<Vec<ConnectionKnowledgeMessage>>>,
)
    requires
        processed(before, m, after, r),
        r is Some,
    ensures
        r->Some_0@.len() == before.committee_size,
{
}

/// Is this the message that the data up to these rounds is gone?
pub open spec fn tells_eviction(m: ConnectionKnowledgeMessage, rounds: Seq<Round>) -> bool {
    match m {
        ConnectionKnowledgeMessage::EvictBelow(told) => told@ == rounds,
        _ => false,
    }
}

/// Do the messages of the batch lead from one state to the next?
pub open spec fn batch_steps(
    start: CordialKnowledge,
    batch: Seq<CordialKnowledgeMessage>,
    steps: Seq<(CordialKnowledge, Option<Vec<Vec<ConnectionKnowledgeMessage>>>)>,
) -> bool {
    &&& steps.len() == batch.len()
    &&& forall|i: int|
        0 <= i < steps.len() ==> processed(
            if i == 0 {
                start
            } else {
                steps[i - 1].0
            },
            batch[i],
            (#[trigger] steps[i]).0,
            steps[i].1,
        )
}

/// The messages to one connection along the way.
pub open spec fn gathered(
    steps: Seq<(CordialKnowledge, Option<Vec<Vec<ConnectionKnowledgeMessage>>>)>,
    a: int,
) -> Seq<ConnectionKnowledgeMessage>
    decreases steps.len(),
{
    if steps.len() == 0 {
        Seq::empty()
    } else {
        match steps.last().1 {
            Some(lists) => gathered(steps.drop_last(), a) + lists@[a]@,
            None => gathered(steps.drop_last(), a),
        }
    }
}

/// Does everybody who knows a header know its recorded ancestors?
pub open spec fn is_closed(k: Knowledge) -> bool {
    forall|r: BlockRef, p: BlockRef, a: AuthorityIndex|
        #![trigger k[r].ancestors.contains(p), k[r].who.contains(a)]
        k.dom().contains(r) && k.dom().contains(p) && k[r].ancestors.contains(p)
            && k[r].who.contains(a) ==> k[p].who.contains(a)
}

/// Does this node know everything that is recorded?
pub open spec fn own_knows_all(k: Knowledge, own: AuthorityIndex) -> bool {
    forall|r: BlockRef| #[trigger] k.dom().contains(r) ==> k[r].who.contains(own)
}

/// A new header that comes before its descendants keeps the knowledge closed:
/// its author turns out to know its whole recorded causal past, and this node
/// knows everything.
pub proof fn law_author_knows_causal_past(
    k: Knowledge,
    h: VerifiedBlockHeader,
    own: AuthorityIndex,
)
    requires
        is_closed(k),
        own_knows_all(k, own),
        !k.dom().contains(h.reference),
        forall|r: BlockRef| #[trigger]
            k.dom().contains(r) ==> !k[r].ancestors.contains(h.reference),
    ensures
        is_closed(updated(k, h, own)),
        own_knows_all(updated(k, h, own), own),
        updated(k, h, own)[h.reference].who.contains(h.reference.author),
        forall|p: BlockRef| #[trigger]
            k.dom().contains(p) && h.ancestors@.contains(p) ==> updated(k, h, own)[p].who.contains(
                h.reference.author,
            ),
{
    let author = h.reference.author;
    let from = h.reference;
    let w = with_header(k, h, own);
    let m = newly_known(w, author, from);
    let u = updated(k, h, own);
    assert forall|r: BlockRef, p: BlockRef, a: AuthorityIndex|
        #![trigger u[r].ancestors.contains(p), u[r].who.contains(a)]
        u.dom().contains(r) && u.dom().contains(p) && u[r].ancestors.contains(p)
            && u[r].who.contains(a) implies u[p].who.contains(a) by {
        if p == from {
            assert(r == from);
        } else {
            assert(k.dom().contains(p));
            if a == author {
                if !w[p].who.contains(author) {
                    assert(is_news(w, author, p));
                    if r == from || m.contains(r) {
                        assert(w[r].ancestors.contains(p));
                        lemma_step_back(w, author, from, r, p);
                    } else {
                        assert(k.dom().contains(r));
                        assert(k[r].ancestors.contains(p));
                        assert(k[r].who.contains(author));
                    }
                }
            } else {
                if r == from {
                    assert(a == own);
                } else {
                    assert(k.dom().contains(r));
                    assert(k[r].ancestors.contains(p));
                    assert(k[r].who.contains(a));
                }
            }
        }
    }
    assert forall|p: BlockRef| #[trigger]
        k.dom().contains(p) && h.ancestors@.contains(p) implies u[p].who.contains(author) by {
        assert(u[from].ancestors.contains(p));
        assert(u[from].who.contains(author));
    }
}

} // verus!
