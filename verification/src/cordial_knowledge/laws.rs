//! How the knowledge of the whole and that of the connections fit together.
use vstd::prelude::*;

use crate::cordial_knowledge::connection::{
    informed, informed_by, is_acceptable, ConnectionView,
};
use crate::cordial_knowledge::global::{
    batch_steps, gathered, header_processed, header_removals, is_news, is_processable,
    lemma_closed_under_steps, lemma_news_among, lemma_step_back, newly_known, news_among,
    order_found, processed, reached_in, shard_processed, shard_removals, still_unknown,
    tells_useful_shards, told_order, updated, useful_shards_processed, with_header,
    CordialKnowledge, Knowledge,
};
use crate::cordial_knowledge::messages::{ConnectionKnowledgeMessage, CordialKnowledgeMessage};
use crate::header::VerifiedBlockHeader;
use crate::refs::{
    lemma_refs_finite, AuthorityIndex, BlockRef, GenericTransactionRef, Round,
    TransactionsCommitment,
};

verus! {

/// Are the transactions that the message names of the committee's authorities?
pub open spec fn names_committee(m: CordialKnowledgeMessage, committee_size: usize) -> bool {
    match m {
        CordialKnowledgeMessage::NewHeader { header, .. } => forall|i: int|
            0 <= i < header.acknowledgments@.len() ==> (#[trigger] header.acknowledgments@[i]).author
                < committee_size,
        CordialKnowledgeMessage::NewShard(k) => k.spec_author() < committee_size,
        CordialKnowledgeMessage::UsefulShardsFromPeers(_) => true,
    }
}

proof fn lemma_shard_removals(
    by_commitment: bool,
    acks: Seq<BlockRef>,
    commitments: Seq<Option<TransactionsCommitment>>,
    n: int,
    size: usize,
)
    requires
        n <= acks.len(),
        n <= commitments.len(),
        forall|i: int| 0 <= i < acks.len() ==> (#[trigger] acks[i]).author < size,
    ensures
        forall|i: int|
            0 <= i < shard_removals(by_commitment, acks, commitments, n).len() ==> is_acceptable(
                #[trigger] shard_removals(by_commitment, acks, commitments, n)[i],
                size,
            ),
    decreases n,
{
    if n > 0 {
        lemma_shard_removals(by_commitment, acks, commitments, n - 1, size);
        let rest = shard_removals(by_commitment, acks, commitments, n - 1);
        let all = shard_removals(by_commitment, acks, commitments, n);
        assert(acks[n - 1].author < size);
        assert forall|i: int| 0 <= i < all.len() implies is_acceptable(#[trigger] all[i], size) by {
            if i < rest.len() {
                assert(all[i] == rest[i]);
            }
        }
    }
}

/// Every message to a connection that comes of a message about the committee can
/// be taken in there.
pub proof fn law_messages_fit(
    before: CordialKnowledge,
    m: CordialKnowledgeMessage,
    after: CordialKnowledge,
    messages: Vec<Vec<ConnectionKnowledgeMessage>>,
)
    requires
        before.wf(),
        is_processable(m, before.committee_size),
        names_committee(m, before.committee_size),
        processed(before, m, after, Some(messages)),
    ensures
        forall|a: int, i: int|
            0 <= a < messages@.len() && 0 <= i < messages@[a]@.len() ==> is_acceptable(
                #[trigger] messages@[a]@[i],
                before.committee_size,
            ),
{
    let n = before.committee_size;
    assert forall|a: int, i: int|
        0 <= a < messages@.len() && 0 <= i < messages@[a]@.len() implies is_acceptable(
        #[trigger] messages@[a]@[i],
        n,
    ) by {
        match m {
            CordialKnowledgeMessage::NewHeader { header, ack_transactions_commitments } => {
                let commitments = ack_transactions_commitments@;
                let acks = header.acknowledgments@;
                let order = told_order(before, header);
                let k = if acks.len() <= commitments.len() {
                    acks.len() as int
                } else {
                    commitments.len() as int
                };
                let fast = before.consensus_fast_commit_sync;
                let shards = shard_removals(fast, acks, commitments, k);
                lemma_shard_removals(fast, acks, commitments, k, n);
                let list = messages@[a]@;
                if a == header.reference.author {
                    if i < shards.len() {
                        assert(list[i] == shards[i]);
                    } else {
                        let r = order[i - shards.len()];
                        assert(list[i] == header_removals(order)[i - shards.len()]);
                        assert(order.to_set().contains(r));
                        let w = with_header(before@, header, before.own_index);
                        assert(newly_known(w, header.reference.author, header.reference).contains(
                            r,
                        ));
                        assert(w.dom().contains(r));
                    }
                }
            },
            CordialKnowledgeMessage::NewShard(_) => {},
            CordialKnowledgeMessage::UsefulShardsFromPeers(_) => {
                assert(tells_useful_shards(
                    messages@[a]@[0],
                    after.last_useful_shards_from_peer_round@,
                ));
            },
        }
    }
}

/// The news that the peer knows a header undoes the news of that header, where it
/// was not among the unknown ones before; on its own it changes nothing there.
pub proof fn law_remove_undoes_insert(v: ConnectionView, block_ref: BlockRef)
    requires
        !v.headers.contains(GenericTransactionRef::BlockRef(block_ref)),
    ensures
        informed(
            informed(v, ConnectionKnowledgeMessage::NewHeader { block_ref }),
            ConnectionKnowledgeMessage::RemoveHeader { block_ref },
        ) == v,
        informed(v, ConnectionKnowledgeMessage::RemoveHeader { block_ref }) == v,
{
    let g = GenericTransactionRef::BlockRef(block_ref);
    assert(v.headers.insert(g).remove(g) =~= v.headers);
    assert(v.headers.remove(g) =~= v.headers);
}

/// News about headers changes nothing but the headers that the peer does not know.
pub proof fn law_header_news_is_about_headers(v: ConnectionView, block_ref: BlockRef)
    ensures
        ({
            let w = informed(v, ConnectionKnowledgeMessage::NewHeader { block_ref });
            w == (ConnectionView { headers: w.headers, ..v })
        }),
        ({
            let w = informed(v, ConnectionKnowledgeMessage::RemoveHeader { block_ref });
            w == (ConnectionView { headers: w.headers, ..v })
        }),
{
}

/// Messages one after the other.
proof fn lemma_informed_concat(
    v: ConnectionView,
    x: Seq<ConnectionKnowledgeMessage>,
    y: Seq<ConnectionKnowledgeMessage>,
)
    ensures
        informed_by(v, x + y) == informed_by(informed_by(v, x), y),
    decreases y.len(),
{
    if y.len() == 0 {
        assert(x + y =~= x);
    } else {
        assert((x + y).drop_last() =~= x + y.drop_last());
        lemma_informed_concat(v, x, y.drop_last());
    }
}

/// News about shards says nothing of headers.
proof fn lemma_shard_removals_keep_headers(
    v: ConnectionView,
    by_commitment: bool,
    acks: Seq<BlockRef>,
    commitments: Seq<Option<TransactionsCommitment>>,
    n: int,
)
    ensures
        informed_by(v, shard_removals(by_commitment, acks, commitments, n)).headers == v.headers,
    decreases n,
{
    if n > 0 {
        lemma_shard_removals_keep_headers(v, by_commitment, acks, commitments, n - 1);
        let rest = shard_removals(by_commitment, acks, commitments, n - 1);
        let all = shard_removals(by_commitment, acks, commitments, n);
        if all.len() > rest.len() {
            assert(all.drop_last() =~= rest);
        }
    }
}

/// The references, each as one that may also be one to transactions.
pub open spec fn generic_set(refs: Set<BlockRef>) -> Set<GenericTransactionRef> {
    Set::new(
        |g: GenericTransactionRef|
            match g {
                GenericTransactionRef::BlockRef(b) => refs.contains(b),
                GenericTransactionRef::TransactionRef(_) => false,
            },
    )
}

proof fn lemma_header_removals(v: ConnectionView, order: Seq<BlockRef>)
    ensures
        informed_by(v, header_removals(order)).headers == v.headers.difference(
            generic_set(order.to_set()),
        ),
    decreases order.len(),
{
    let goal = v.headers.difference(generic_set(order.to_set()));
    if order.len() == 0 {
        assert(goal =~= v.headers);
    } else {
        let d = order.drop_last();
        let last = order.last();
        lemma_header_removals(v, d);
        assert(header_removals(order).drop_last() =~= header_removals(d));
        let before = informed_by(v, header_removals(d));
        let g = GenericTransactionRef::BlockRef(last);
        assert forall|r: BlockRef| order.to_set().contains(r) <==> d.to_set().contains(r) || r
            == last by {
            if d.contains(r) {
                let i = choose|i: int| 0 <= i < d.len() && d[i] == r;
                assert(order[i] == r);
            }
            if r == last {
                assert(order[order.len() - 1] == r);
            }
            if order.contains(r) && r != last {
                let i = choose|i: int| 0 <= i < order.len() && order[i] == r;
                assert(d[i] == r);
            }
        }
        assert(before.headers.remove(g) =~= goal);
    }
}

/// A new header becomes unknown to each peer but its author, and what its author
/// turns out to know is no longer unknown to it.
pub proof fn law_new_header_reaches_connections(
    before: CordialKnowledge,
    header: VerifiedBlockHeader,
    commitments: Seq<Option<TransactionsCommitment>>,
    after: CordialKnowledge,
    messages: Vec<Vec<ConnectionKnowledgeMessage>>,
    a: int,
    v: ConnectionView,
)
    requires
        header_processed(before, header, commitments, after, Some(messages)),
        0 <= a < messages@.len(),
        a != before.own_index,
    ensures
        informed_by(v, messages@[a]@).headers == if a == header.reference.author {
            v.headers.difference(
                generic_set(
                    newly_known(
                        with_header(before@, header, before.own_index),
                        header.reference.author,
                        header.reference,
                    ),
                ),
            )
        } else {
            v.headers.insert(GenericTransactionRef::BlockRef(header.reference))
        },
{
    let order = told_order(before, header);
    let acks = header.acknowledgments@;
    let k = if acks.len() <= commitments.len() {
        acks.len() as int
    } else {
        commitments.len() as int
    };
    let fast = before.consensus_fast_commit_sync;
    let shards = shard_removals(fast, acks, commitments, k);
    let list = messages@[a]@;
    if a == header.reference.author {
        assert(list == shards + header_removals(order));
        lemma_informed_concat(v, shards, header_removals(order));
        lemma_shard_removals_keep_headers(v, fast, acks, commitments, k);
        lemma_header_removals(informed_by(v, shards), order);
    } else {
        assert(list.drop_last() =~= Seq::empty());
        assert(list.last() == ConnectionKnowledgeMessage::NewHeader {
            block_ref: header.reference,
        });
        assert(informed_by(v, list.drop_last()) == v);
    }
}

/// A header is taken in once: when it comes again, nothing changes and nobody is
/// told.
pub proof fn law_header_is_taken_in_once(
    before: CordialKnowledge,
    header: VerifiedBlockHeader,
    commitments: Seq<Option<TransactionsCommitment>>,
    after: CordialKnowledge,
    messages: Vec<Vec<ConnectionKnowledgeMessage>>,
    commitments_again: Seq<Option<TransactionsCommitment>>,
    again: CordialKnowledge,
    r: Option<Vec<Vec<ConnectionKnowledgeMessage>>>,
)
    requires
        header_processed(before, header, commitments, after, Some(messages)),
        header_processed(after, header, commitments_again, again, r),
    ensures
        r is None,
        again == after,
{
    assert(with_header(before@, header, before.own_index).dom().contains(header.reference));
    assert(after@.dom().contains(header.reference));
}

/// What is acknowledged tells of no header.
proof fn lemma_shard_removals_are_removals(
    by_commitment: bool,
    acks: Seq<BlockRef>,
    commitments: Seq<Option<TransactionsCommitment>>,
    n: int,
)
    requires
        n <= acks.len(),
        n <= commitments.len(),
    ensures
        forall|i: int|
            0 <= i < shard_removals(by_commitment, acks, commitments, n).len() ==> (
            #[trigger] shard_removals(by_commitment, acks, commitments, n)[i]) is RemoveShard,
    decreases n,
{
    if n > 0 {
        lemma_shard_removals_are_removals(by_commitment, acks, commitments, n - 1);
        let rest = shard_removals(by_commitment, acks, commitments, n - 1);
        let all = shard_removals(by_commitment, acks, commitments, n);
        assert forall|i: int| 0 <= i < all.len() implies (#[trigger] all[i]) is RemoveShard by {
            if i < rest.len() {
                assert(all[i] == rest[i]);
            }
        }
    }
}

/// Each peer but the author of a new header is told of it once. The author is told
/// of removals alone: of no header twice, and of each recorded ancestor that it was
/// not known to know.
pub proof fn law_who_is_told_of_a_header(
    before: CordialKnowledge,
    header: VerifiedBlockHeader,
    commitments: Seq<Option<TransactionsCommitment>>,
    after: CordialKnowledge,
    messages: Vec<Vec<ConnectionKnowledgeMessage>>,
)
    requires
        header_processed(before, header, commitments, after, Some(messages)),
        header.reference.author < before.committee_size,
    ensures
        messages@.len() == before.committee_size,
        forall|a: int|
            0 <= a < messages@.len() && a != header.reference.author ==> (
            #[trigger] messages@[a])@ == if a == before.own_index {
                Seq::empty()
            } else {
                seq![ConnectionKnowledgeMessage::NewHeader { block_ref: header.reference }]
            },
        ({
            let list = messages@[header.reference.author as int]@;
            &&& forall|i: int|
                0 <= i < list.len() ==> (#[trigger] list[i]) is RemoveHeader
                    || list[i] is RemoveShard
            &&& forall|i: int, j: int|
                0 <= i < j < list.len() && (#[trigger] list[i]) is RemoveHeader
                    ==> #[trigger] list[j] != list[i]
            &&& forall|p: BlockRef| #[trigger]
                header.ancestors@.contains(p) && before@.dom().contains(p)
                    && !before@[p].who.contains(header.reference.author) ==> list.contains(
                    ConnectionKnowledgeMessage::RemoveHeader { block_ref: p },
                )
        }),
{
    let author = header.reference.author;
    let list = messages@[author as int]@;
    let order = told_order(before, header);
    let acks = header.acknowledgments@;
    let k = if acks.len() <= commitments.len() {
        acks.len() as int
    } else {
        commitments.len() as int
    };
    let fast = before.consensus_fast_commit_sync;
    let shards = shard_removals(fast, acks, commitments, k);
    let n = shards.len() as int;
    lemma_shard_removals_are_removals(fast, acks, commitments, k);
    assert(list == shards + header_removals(order));
    assert forall|i: int| 0 <= i < list.len() implies (#[trigger] list[i]) is RemoveHeader
        || list[i] is RemoveShard by {
        if i < n {
            assert(list[i] == shards[i]);
        }
    }
    assert forall|i: int, j: int|
        0 <= i < j < list.len() && (#[trigger] list[i]) is RemoveHeader implies #[trigger] list[j]
        != list[i] by {
        if i < n {
            assert(list[i] == shards[i]);
        } else {
            assert(list[i] == header_removals(order)[i - n]);
            assert(list[j] == header_removals(order)[j - n]);
            assert(order[i - n] != order[j - n]);
        }
    }
    let w = with_header(before@, header, before.own_index);
    assert forall|p: BlockRef| #[trigger]
        header.ancestors@.contains(p) && before@.dom().contains(p) && !before@[p].who.contains(
            author,
        ) implies list.contains(ConnectionKnowledgeMessage::RemoveHeader { block_ref: p }) by {
        assert(p != header.reference);
        assert(reached_in(w, author, header.reference, 0, header.reference));
        assert(w[header.reference].ancestors.contains(p));
        assert(is_news(w, author, p));
        assert(reached_in(w, author, header.reference, 1, p));
        assert(newly_known(w, author, header.reference).contains(p));
        assert(order.to_set().contains(p));
        let x = choose|x: int| 0 <= x < order.len() && order[x] == p;
        assert(list[n + x] == header_removals(order)[x]);
    }
}

/// A new header is known to its author and to this node. Of the others, the author is
/// now known to know what it turns out to know, and nothing else changes.
pub proof fn law_what_a_header_tells(
    k: Knowledge,
    h: VerifiedBlockHeader,
    own: AuthorityIndex,
    r: BlockRef,
    a: AuthorityIndex,
)
    requires
        !k.dom().contains(h.reference),
    ensures
        ({
            let u = updated(k, h, own);
            let author = h.reference.author;
            let found = newly_known(with_header(k, h, own), author, h.reference);
            &&& u.dom().contains(r) <==> k.dom().contains(r) || r == h.reference
            &&& u[h.reference].ancestors == h.ancestors@
            &&& u[h.reference].who.contains(a) <==> a == own || a == author
            &&& k.dom().contains(r) ==> u[r].ancestors == k[r].ancestors
            &&& k.dom().contains(r) ==> (u[r].who.contains(a) <==> k[r].who.contains(a) || (a
                == author && found.contains(r)))
        }),
{
    let w = with_header(k, h, own);
    assert(w[h.reference].who.contains(h.reference.author));
}

/// The author of a new header turns out to know the ancestors that it lists, and the
/// ancestors of what it turns out to know, as far as they are recorded and it was not
/// known to know them; and nothing more.
pub proof fn law_what_an_author_turns_out_to_know(
    k: Knowledge,
    h: VerifiedBlockHeader,
    own: AuthorityIndex,
    s: Set<BlockRef>,
)
    requires
        !k.dom().contains(h.reference),
    ensures
        ({
            let author = h.reference.author;
            let found = newly_known(with_header(k, h, own), author, h.reference);
            &&& forall|r: BlockRef| #[trigger]
                found.contains(r) ==> k.dom().contains(r) && !k[r].who.contains(author)
            &&& forall|r: BlockRef| #[trigger]
                h.ancestors@.contains(r) && k.dom().contains(r) && !k[r].who.contains(author)
                    ==> found.contains(r)
            &&& forall|q: BlockRef, r: BlockRef|
                found.contains(q) && #[trigger] k[q].ancestors.contains(r) && k.dom().contains(r)
                    && !k[r].who.contains(author) ==> found.contains(r)
            &&& (forall|r: BlockRef| #[trigger]
                h.ancestors@.contains(r) && k.dom().contains(r) && !k[r].who.contains(author)
                    ==> s.contains(r)) && (forall|q: BlockRef, r: BlockRef|
                s.contains(q) && k.dom().contains(q) && #[trigger] k[q].ancestors.contains(r)
                    && k.dom().contains(r) && !k[r].who.contains(author) ==> s.contains(r))
                ==> found.subset_of(s)
        }),
{
    let author = h.reference.author;
    let from = h.reference;
    let w = with_header(k, h, own);
    let found = newly_known(w, author, from);
    assert(w[from].who.contains(author));
    assert(!is_news(w, author, from));
    assert forall|r: BlockRef| #[trigger]
        h.ancestors@.contains(r) && k.dom().contains(r) && !k[r].who.contains(author) implies found.contains(
        r,
    ) by {
        assert(r != from);
        assert(w[from].ancestors.contains(r));
        assert(is_news(w, author, r));
        lemma_step_back(w, author, from, from, r);
    }
    assert forall|q: BlockRef, r: BlockRef|
        found.contains(q) && #[trigger] k[q].ancestors.contains(r) && k.dom().contains(r)
            && !k[r].who.contains(author) implies found.contains(r) by {
        assert(q != from);
        assert(r != from);
        assert(w[q].ancestors.contains(r));
        assert(is_news(w, author, r));
        lemma_step_back(w, author, from, q, r);
    }
    if (forall|r: BlockRef| #[trigger]
        h.ancestors@.contains(r) && k.dom().contains(r) && !k[r].who.contains(author)
            ==> s.contains(r)) && (forall|q: BlockRef, r: BlockRef|
        s.contains(q) && k.dom().contains(q) && #[trigger] k[q].ancestors.contains(r)
            && k.dom().contains(r) && !k[r].who.contains(author) ==> s.contains(r)) {
        let closed = s.insert(from);
        assert forall|q: BlockRef, p: BlockRef|
            #![trigger closed.contains(q), w[q].ancestors.contains(p)]
            closed.contains(q) && w.dom().contains(q) && w[q].ancestors.contains(p) && is_news(
                w,
                author,
                p,
            ) implies closed.contains(p) by {
            if p != from {
                assert(k.dom().contains(p));
                if q == from {
                    assert(h.ancestors@.contains(p));
                } else {
                    assert(k[q].ancestors.contains(p));
                }
            }
        }
        assert forall|r: BlockRef| found.contains(r) implies s.contains(r) by {
            let n = choose|n: nat| #[trigger] reached_in(w, author, from, n, r);
            lemma_closed_under_steps(w, author, from, closed, n, r);
        }
    }
}

/// An acknowledgment tells that the author has the shard: by the commitment, where
/// commits name transactions so and it can be told, and by the header otherwise.
pub proof fn law_acknowledged_shards(
    by_commitment: bool,
    acks: Seq<BlockRef>,
    commitments: Seq<Option<TransactionsCommitment>>,
    n: int,
    g: GenericTransactionRef,
)
    requires
        0 <= n <= acks.len(),
        n <= commitments.len(),
    ensures
        shard_removals(by_commitment, acks, commitments, n).contains(
            ConnectionKnowledgeMessage::RemoveShard { gen_tx_ref: g },
        ) <==> exists|i: int|
            0 <= i < n && #[trigger] is_shard_of(by_commitment, acks[i], commitments[i], g),
        !by_commitment ==> shard_removals(by_commitment, acks, commitments, n).len() == n,
        forall|i: int|
            0 <= i < n && !by_commitment ==> #[trigger] shard_removals(
                by_commitment,
                acks,
                commitments,
                n,
            )[i] == (ConnectionKnowledgeMessage::RemoveShard {
                gen_tx_ref: GenericTransactionRef::BlockRef(acks[i]),
            }),
    decreases n,
{
    if n > 0 {
        law_acknowledged_shards(by_commitment, acks, commitments, n - 1, g);
        let rest = shard_removals(by_commitment, acks, commitments, n - 1);
        let all = shard_removals(by_commitment, acks, commitments, n);
        let m = ConnectionKnowledgeMessage::RemoveShard { gen_tx_ref: g };
        if rest.contains(m) {
            let i = choose|i: int| 0 <= i < rest.len() && rest[i] == m;
            assert(all[i] == m);
        }
        if is_shard_of(by_commitment, acks[n - 1], commitments[n - 1], g) {
            assert(all == rest.push(m));
            assert(all[rest.len() as int] == m);
        }
        if all.contains(m) {
            let i = choose|i: int| 0 <= i < all.len() && all[i] == m;
            if i < rest.len() {
                assert(rest[i] == m);
                assert(rest.contains(m));
            } else {
                assert(is_shard_of(by_commitment, acks[n - 1], commitments[n - 1], g));
            }
        }
    }
}

/// Does `g` name the transactions of the block, in the way in use?
pub open spec fn is_shard_of(
    by_commitment: bool,
    ack: BlockRef,
    commitment: Option<TransactionsCommitment>,
    g: GenericTransactionRef,
) -> bool {
    match g {
        GenericTransactionRef::BlockRef(b) => !by_commitment && b == ack,
        GenericTransactionRef::TransactionRef(t) => by_commitment && commitment == Some(
            t.transactions_commitment,
        ) && t.round == ack.round && t.author == ack.author,
    }
}

/// A new own shard is told to each peer but its author, once; this node is not told.
pub proof fn law_who_is_told_of_a_shard(
    before: CordialKnowledge,
    k: GenericTransactionRef,
    messages: Vec<Vec<ConnectionKnowledgeMessage>>,
    a: int,
)
    requires
        shard_processed(before, k, Some(messages)),
        0 <= a < before.committee_size,
    ensures
        messages@.len() == before.committee_size,
        a == before.own_index || a == k.spec_author() ==> messages@[a]@.len() == 0,
        a != before.own_index && a != k.spec_author() ==> messages@[a]@.len() == 1
            && messages@[a]@[0] == (ConnectionKnowledgeMessage::NewShard { gen_tx_ref: k }),
        !shard_processed(before, k, None),
{
}

/// News of useful shards raises the rounds of those it names. Exactly where one has
/// risen, each peer is told all rounds, and this node is not.
pub proof fn law_who_is_told_of_useful_shards(
    before: CordialKnowledge,
    updates: Map<AuthorityIndex, Round>,
    after: CordialKnowledge,
    r: Option<Vec<Vec<ConnectionKnowledgeMessage>>>,
    a: AuthorityIndex,
)
    requires
        useful_shards_processed(before, updates, after, r),
        before.last_useful_shards_from_peer_round@.len() == before.committee_size <= 256,
        a < before.committee_size,
    ensures
        after@ == before@,
        ({
            let was = before.last_useful_shards_from_peer_round@;
            let now = after.last_useful_shards_from_peer_round@;
            let rises = |x: int|
                updates.dom().contains(x as AuthorityIndex) && (was[x] is None || was[x]->Some_0
                    < updates[x as AuthorityIndex]);
            &&& now.len() == was.len()
            &&& now[a as int] == if rises(a as int) {
                Some(updates[a])
            } else {
                was[a as int]
            }
            &&& r is Some <==> exists|x: int| 0 <= x < was.len() && #[trigger] rises(x)
            &&& r matches Some(messages) ==> messages@.len() == before.committee_size && if a
                == before.own_index {
                messages@[a as int]@.len() == 0
            } else {
                &&& messages@[a as int]@.len() == 1
                &&& messages@[a as int]@[0] matches ConnectionKnowledgeMessage::UsefulAuthors {
                    useful_headers_to_peer,
                    useful_shards_to_peer,
                    useful_headers_from_peer,
                    useful_shards_from_peer,
                }
                &&& useful_shards_from_peer@ == now
                &&& useful_headers_to_peer@.dom() == Set::<AuthorityIndex>::empty()
                &&& useful_shards_to_peer@.dom() == Set::<AuthorityIndex>::empty()
                &&& useful_headers_from_peer@.dom() == Set::<AuthorityIndex>::empty()
            }
        }),
{
    let was = before.last_useful_shards_from_peer_round@;
    let now = after.last_useful_shards_from_peer_round@;
    let rises = |x: int|
        updates.dom().contains(x as AuthorityIndex) && (was[x] is None || was[x]->Some_0
            < updates[x as AuthorityIndex]);
    assert forall|x: int| 0 <= x < was.len() implies #[trigger] now[x] == if rises(x) {
        Some(updates[x as AuthorityIndex])
    } else {
        was[x]
    } by {}
    if exists|x: int| 0 <= x < was.len() && #[trigger] rises(x) {
        let x = choose|x: int| 0 <= x < was.len() && #[trigger] rises(x);
        assert(now[x] != was[x]);
    } else {
        assert forall|x: int| 0 <= x < was.len() implies #[trigger] now[x] == was[x] by {
            assert(!rises(x));
        }
        assert(now =~= was);
    }
    if let Some(messages) = r {
        assert(messages@[a as int]@.len() <= 1);
        assert(Map::<AuthorityIndex, Round>::empty().dom() =~= Set::<AuthorityIndex>::empty());
    }
}

/// A connection gets the messages of the steps one after the other.
pub proof fn law_gathered(
    a: Seq<(CordialKnowledge, Option<Vec<Vec<ConnectionKnowledgeMessage>>>)>,
    b: Seq<(CordialKnowledge, Option<Vec<Vec<ConnectionKnowledgeMessage>>>)>,
    step: (CordialKnowledge, Option<Vec<Vec<ConnectionKnowledgeMessage>>>),
    x: int,
)
    ensures
        gathered(a + b, x) == gathered(a, x) + gathered(b, x),
        gathered(seq![step], x) == match step.1 {
            Some(lists) => lists@[x]@,
            None => Seq::empty(),
        },
    decreases b.len(),
{
    reveal_with_fuel(gathered, 2);
    assert(seq![step].drop_last() =~= Seq::empty());
    assert(gathered(seq![step], x) =~= match step.1 {
        Some(lists) => lists@[x]@,
        None => Seq::empty(),
    });
    if b.len() == 0 {
        assert(a + b =~= a);
        assert(gathered(a, x) + gathered(b, x) =~= gathered(a, x));
    } else {
        law_gathered(a, b.drop_last(), step, x);
        assert((a + b).drop_last() =~= a + b.drop_last());
        assert((a + b).last() == b.last());
        assert(gathered(a + b, x) =~= gathered(a, x) + gathered(b, x));
    }
}

/// The messages of a batch are processed in order, each on what the one before left.
pub proof fn law_batch_in_order(
    start: CordialKnowledge,
    batch: Seq<CordialKnowledgeMessage>,
    steps: Seq<(CordialKnowledge, Option<Vec<Vec<ConnectionKnowledgeMessage>>>)>,
    i: int,
)
    requires
        batch_steps(start, batch, steps),
        0 <= i < batch.len(),
    ensures
        steps.len() == batch.len(),
        i == 0 ==> processed(start, batch[0], steps[0].0, steps[0].1),
        i > 0 ==> processed(steps[i - 1].0, batch[i], steps[i].0, steps[i].1),
        match batch[i] {
            CordialKnowledgeMessage::NewHeader { header, ack_transactions_commitments } =>
                header_processed(
                if i == 0 {
                    start
                } else {
                    steps[i - 1].0
                },
                header,
                ack_transactions_commitments@,
                steps[i].0,
                steps[i].1,
            ),
            CordialKnowledgeMessage::NewShard(k) => steps[i].0 == (if i == 0 {
                start
            } else {
                steps[i - 1].0
            }) && shard_processed(
                if i == 0 {
                    start
                } else {
                    steps[i - 1].0
                },
                k,
                steps[i].1,
            ),
            CordialKnowledgeMessage::UsefulShardsFromPeers(updates) => useful_shards_processed(
                if i == 0 {
                    start
                } else {
                    steps[i - 1].0
                },
                updates@,
                steps[i].0,
                steps[i].1,
            ),
        },
{
    assert(processed(
        if i == 0 {
            start
        } else {
            steps[i - 1].0
        },
        batch[i],
        steps[i].0,
        steps[i].1,
    ));
}

/// The author is told first of the ancestors that the header lists, in the order of
/// the list, and of what is further back after them.
pub proof fn law_ancestors_are_told_first(
    before: CordialKnowledge,
    header: VerifiedBlockHeader,
    i: int,
    j: int,
)
    requires
        !before@.dom().contains(header.reference),
        told_order(before, header).no_duplicates(),
        0 <= i < j < told_order(before, header).len(),
    ensures
        ({
            let order = told_order(before, header);
            &&& header.ancestors@.contains(order[j]) ==> header.ancestors@.contains(order[i])
                && first_place(header.ancestors@, order[i]) < first_place(
                header.ancestors@,
                order[j],
            )
        }),
{
    let w = with_header(before@, header, before.own_index);
    let author = header.reference.author;
    let parents = header.ancestors@;
    let n = parents.len() as int;
    let done = Set::<BlockRef>::empty();
    let stack = seq![header.reference];
    let found = news_among(w, author, done, parents, n);
    let order = told_order(before, header);
    assert(w[stack.last()].ancestors == parents);
    let rest = order_found(w, author, done.union(found.to_set()), stack.drop_last() + found);
    assert(order == found + rest);
    lemma_news_in_order(w, author, done, parents, n);
    if parents.contains(order[j]) {
        if j >= found.len() {
            let x = choose|x: int| 0 <= x < parents.len() && parents[x] == order[j];
            lemma_order_is_news(
                w,
                author,
                done.union(found.to_set()),
                stack.drop_last() + found,
                order[j],
            );
            assert(rest[j - found.len()] == order[j]);
            assert(rest.contains(order[j]));
            assert(is_news(w, author, parents[x]));
            assert(found.contains(parents[x]));
            assert(found.to_set().contains(order[j]));
        }
        assert(order[i] == found[i]);
        assert(order[j] == found[j]);
    }
}

/// Where an element stands first.
pub open spec fn first_place(s: Seq<BlockRef>, r: BlockRef) -> int {
    choose|i: int| 0 <= i < s.len() && s[i] == r && forall|j: int| 0 <= j < i ==> s[j] != r
}

proof fn lemma_first_place(s: Seq<BlockRef>, r: BlockRef, i: int)
    requires
        0 <= i < s.len(),
        s[i] == r,
        forall|j: int| 0 <= j < i ==> s[j] != r,
    ensures
        first_place(s, r) == i,
{
    let p = first_place(s, r);
    assert(0 <= p < s.len() && s[p] == r && forall|j: int| 0 <= j < p ==> s[j] != r);
}

/// The news among some parents is all of it, in the order of where it stands first.
proof fn lemma_news_in_order(
    k: Knowledge,
    author: AuthorityIndex,
    done: Set<BlockRef>,
    parents: Seq<BlockRef>,
    n: int,
)
    requires
        0 <= n <= parents.len(),
    ensures
        ({
            let found = news_among(k, author, done, parents, n);
            &&& forall|x: int|
                0 <= x < n && is_news(k, author, #[trigger] parents[x]) && !done.contains(
                    parents[x],
                ) ==> found.contains(parents[x])
            &&& forall|i: int|
                0 <= i < found.len() ==> {
                    let p = first_place(parents, #[trigger] found[i]);
                    0 <= p < n && parents[p] == found[i]
                }
            &&& forall|i: int, j: int|
                0 <= i < j < found.len() ==> first_place(parents, #[trigger] found[i])
                    < first_place(parents, #[trigger] found[j])
            &&& forall|i: int| 0 <= i < found.len() ==> parents.contains(#[trigger] found[i])
        }),
    decreases n,
{
    if n > 0 {
        lemma_news_in_order(k, author, done, parents, n - 1);
        let rest = news_among(k, author, done, parents, n - 1);
        let found = news_among(k, author, done, parents, n);
        let p = parents[n - 1];
        if is_news(k, author, p) && !done.contains(p) && !rest.contains(p) {
            assert(found == rest.push(p));
            assert forall|j: int| 0 <= j < n - 1 implies parents[j] != p by {
                if parents[j] == p {
                    assert(rest.contains(parents[j]));
                }
            }
            lemma_first_place(parents, p, n - 1);
            assert forall|x: int|
                0 <= x < n && is_news(k, author, #[trigger] parents[x]) && !done.contains(
                    parents[x],
                ) implies found.contains(parents[x]) by {
                if x < n - 1 {
                    let z = choose|z: int| 0 <= z < rest.len() && rest[z] == parents[x];
                    assert(found[z] == parents[x]);
                } else {
                    assert(found[rest.len() as int] == p);
                }
            }
            assert forall|i: int, j: int| 0 <= i < j < found.len() implies first_place(
                parents,
                #[trigger] found[i],
            ) < first_place(parents, #[trigger] found[j]) by {
                assert(found[i] == rest[i]);
                if j < rest.len() {
                    assert(found[j] == rest[j]);
                }
            }
            assert forall|i: int| 0 <= i < found.len() implies {
                let q = first_place(parents, #[trigger] found[i]);
                0 <= q < n && parents[q] == found[i]
            } by {
                if i < rest.len() {
                    assert(found[i] == rest[i]);
                }
            }
            assert forall|i: int| 0 <= i < found.len() implies parents.contains(
                #[trigger] found[i],
            ) by {
                if i < rest.len() {
                    assert(found[i] == rest[i]);
                }
            }
        }
    }
}

/// What is found later is news, and was not found before.
proof fn lemma_order_is_news(
    k: Knowledge,
    author: AuthorityIndex,
    done: Set<BlockRef>,
    stack: Seq<BlockRef>,
    r: BlockRef,
)
    ensures
        order_found(k, author, done, stack).contains(r) ==> is_news(k, author, r) && !done.contains(
            r,
        ),
    decreases still_unknown(k, author, done).len(), stack.len(),
{
    if stack.len() > 0 {
        let parents = k[stack.last()].ancestors;
        let found = news_among(k, author, done, parents, parents.len() as int);
        let next = done.union(found.to_set());
        let rest = order_found(k, author, next, stack.drop_last() + found);
        lemma_news_among(k, author, done, parents, parents.len() as int);
        let u0 = still_unknown(k, author, done);
        let u1 = still_unknown(k, author, next);
        lemma_refs_finite(u0);
        if found.len() == 0 {
            assert(next =~= done);
            assert(stack.drop_last() + found =~= stack.drop_last());
        } else {
            let p = found[0];
            assert(found.to_set().contains(p));
            assert(u0.contains(p));
            assert(u1.subset_of(u0.remove(p)));
            vstd::set_lib::lemma_len_subset(u1, u0.remove(p));
        }
        lemma_order_is_news(k, author, next, stack.drop_last() + found, r);
        if (found + rest).contains(r) {
            let z = choose|z: int| 0 <= z < (found + rest).len() && (found + rest)[z] == r;
            if z < found.len() {
                assert(found[z] == r);
            } else {
                assert(rest[z - found.len()] == r);
                assert(rest.contains(r));
            }
        }
    }
}

} // verus!
