//! Where headers and transactions are found, and which ones are listed.
use vstd::prelude::*;

use crate::commit::{CommitInfo, SubDagBase, TrustedCommit};
use crate::committee::stake_of;
use crate::cordial_knowledge::messages::CordialKnowledgeMessage;
use crate::dag_state::accept::{accepted, news_of};
use crate::dag_state::model::{DagConfig, DagView};
use crate::dag_state::ranges::{lists, of_author_in, of_author_since};
use crate::dag_state::read::{all_or_missing, found_commitment, missing_refs, present};
use crate::dag_state::recover::{
    all_headers, is_news_of_last, loading_news, raise_rounds_by, recovered, scanned,
    stored_rounds, subdags_of, unscored_commits, with_headers,
};
use crate::dag_state::source::DataSource;
use crate::dag_state::state::DagState;
use crate::header::{Bytes, VerifiedBlockHeader, VerifiedTransactions};
use crate::refs::{
    lemma_triple_rank, AuthorityIndex, BlockRef, CommitIndex, CommitRange, CommitRef, Digest,
    GenericTransactionRef, Key, Round, TransactionRef, TransactionsCommitment,
};

verus! {

/// A header of genesis is found in genesis and nowhere else, one in memory is found
/// there, and of all others storage tells. What is found serialized is the same.
pub proof fn law_where_headers_are_found<
    F: Fn(BlockRef) -> Option<VerifiedBlockHeader>,
    G: Fn(BlockRef) -> Option<Bytes>,
>(
    s: DagState,
    read: &F,
    read_bytes: &G,
    r: BlockRef,
    out: Option<VerifiedBlockHeader>,
    bytes: Option<Bytes>,
)
    ensures
        r.round == 0 && s.genesis@.dom().contains(r) ==> (s.found_header(read, r, out) <==> out
            == Some(s.genesis@[r].verified_block_header)) && (s.found_serialized_header(
            read_bytes,
            r,
            bytes,
        ) <==> bytes == Some(s.genesis@[r].verified_block_header.serialized)),
        r.round == 0 && !s.genesis@.dom().contains(r) ==> (s.found_header(read, r, out)
            <==> out is None) && (s.found_serialized_header(read_bytes, r, bytes)
            <==> bytes is None),
        r.round > 0 && s@.headers.dom().contains(r) ==> (s.found_header(read, r, out) <==> out
            == Some(s@.headers[r])) && (s.found_serialized_header(read_bytes, r, bytes)
            <==> bytes == Some(s@.headers[r].serialized)),
        r.round > 0 && !s@.headers.dom().contains(r) ==> (s.found_header(read, r, out)
            <==> read.ensures((r,), out)) && (s.found_serialized_header(read_bytes, r, bytes)
            <==> read_bytes.ensures((r,), bytes)),
        s.cached_header(r) == if r.round == 0 && s.genesis@.dom().contains(r) {
            Some(s.genesis@[r].verified_block_header)
        } else if r.round > 0 && s@.headers.dom().contains(r) {
            Some(s@.headers[r])
        } else {
            None
        },
{
}

/// The commitment of a header is that of the header that is found; genesis has none.
pub proof fn law_found_commitment<F: Fn(BlockRef) -> Option<VerifiedBlockHeader>>(
    headers: Map<BlockRef, VerifiedBlockHeader>,
    read: &F,
    r: BlockRef,
    out: Option<TransactionsCommitment>,
)
    ensures
        r.round == 0 ==> (found_commitment(headers, read, r, out) <==> out is None),
        r.round > 0 && headers.dom().contains(r) ==> (found_commitment(headers, read, r, out)
            <==> out == Some(headers[r].transactions_commitment)),
        r.round > 0 && !headers.dom().contains(r) ==> (found_commitment(headers, read, r, out)
            <==> (out is None && read.ensures((r,), None)) || exists|h: VerifiedBlockHeader|
            #[trigger] read.ensures((r,), Some(h)) && out == Some(h.transactions_commitment)),
{
    if r.round > 0 && !headers.dom().contains(r) && found_commitment(headers, read, r, out) {
        let h = choose|h: Option<VerifiedBlockHeader>| #[trigger]
            read.ensures((r,), h) && out == match h {
                Some(h) => Some(h.transactions_commitment),
                None => None,
            };
        if let Some(x) = h {
            assert(read.ensures((r,), Some(x)));
        }
    }
}

/// Whether a header has been accepted: it has where it is in memory or of genesis. It
/// has not where it is of a later round than all of its author's in memory. Of the
/// others storage tells.
pub proof fn law_which_headers_are_known<C: Fn(BlockRef) -> bool>(
    s: DagState,
    contains: &C,
    r: BlockRef,
    out: bool,
)
    requires
        s.known_header(contains, r, out),
    ensures
        s@.headers.dom().contains(r) || s.genesis@.dom().contains(r) ==> out,
        !s@.headers.dom().contains(r) && !s.genesis@.dom().contains(r) ==> {
            ||| !out && forall|q: BlockRef| #[trigger]
                s@.headers.dom().contains(q) && q.author == r.author ==> q.round < r.round
            ||| contains.ensures((r,), out) && exists|q: BlockRef| #[trigger]
                s@.headers.dom().contains(q) && q.author == r.author && q.round >= r.round
        },
{
    let all = s@.refs_of(r.author);
    if !s@.headers.dom().contains(r) && !s.genesis@.dom().contains(r) {
        if exists|q: BlockRef| #[trigger]
            s@.headers.dom().contains(q) && q.author == r.author && q.round >= r.round {
            let q = choose|q: BlockRef| #[trigger]
                s@.headers.dom().contains(q) && q.author == r.author && q.round >= r.round;
            assert(all.contains(q));
            crate::dag_state::memory_laws::law_last_round(all, q);
        } else if all != Set::<BlockRef>::empty() {
            let x = all.choose();
            assert(all.contains(x)) by {
                if forall|b: BlockRef| !all.contains(b) {
                    assert(all =~= Set::empty());
                }
            }
            crate::dag_state::memory_laws::law_last_round(all, x);
            let b = choose|b: BlockRef|
                all.contains(b) && #[trigger] b.round == crate::dag_state::model::last_round(all);
            assert(s@.headers.dom().contains(b));
        }
    }
}

/// Transactions of genesis are found in genesis and nowhere else, those in memory are
/// found there, and of all others storage tells.
pub proof fn law_where_transactions_are_found<
    F: Fn(GenericTransactionRef) -> Option<VerifiedTransactions>,
    G: Fn(GenericTransactionRef) -> Option<Bytes>,
    C: Fn(GenericTransactionRef) -> bool,
>(
    s: DagState,
    read: &F,
    read_bytes: &G,
    contains: &C,
    k: GenericTransactionRef,
    out: Option<VerifiedTransactions>,
    bytes: Option<Bytes>,
    known: bool,
)
    ensures
        k.spec_round() == 0 ==> match s.genesis_named(k) {
            Some(b) => (s.found_transactions(read, k, out) <==> out == Some(
                b.verified_transactions,
            )) && (s.found_serialized_transactions(read_bytes, k, bytes) <==> bytes == Some(
                b.verified_transactions.serialized,
            )) && (s.known_transactions(contains, k, known) <==> known),
            None => (s.found_transactions(read, k, out) <==> out is None) && (
            s.found_serialized_transactions(read_bytes, k, bytes) <==> bytes is None) && (
            s.known_transactions(contains, k, known) <==> !known),
        },
        k.spec_round() > 0 && s@.transactions[k.spec_author() as int].dom().contains(k) ==> {
            let t = s@.transactions[k.spec_author() as int][k];
            &&& s.found_transactions(read, k, out) <==> out == Some(t)
            &&& s.found_serialized_transactions(read_bytes, k, bytes) <==> bytes == Some(
                t.serialized,
            )
            &&& s.known_transactions(contains, k, known) <==> known
        },
        k.spec_round() > 0 && !s@.transactions[k.spec_author() as int].dom().contains(k) ==> {
            &&& s.found_transactions(read, k, out) <==> read.ensures((k,), out)
            &&& s.found_serialized_transactions(read_bytes, k, bytes) <==> read_bytes.ensures(
                (k,),
                bytes,
            )
            &&& s.known_transactions(contains, k, known) <==> contains.ensures((k,), known)
        },
{
}

/// A genesis block is found by its reference, or by its author and its commitment.
pub proof fn law_genesis_is_found(s: DagState, k: GenericTransactionRef)
    requires
        s.wf(),
    ensures
        s.genesis_named(k) is Some <==> match k {
            GenericTransactionRef::BlockRef(b) => exists|i: int|
                0 <= i < s.genesis.entries@.len() && (#[trigger] s.genesis.entries@[i]).0 == b,
            GenericTransactionRef::TransactionRef(t) => exists|i: int|
                {
                    &&& 0 <= i < s.genesis.entries@.len()
                    &&& (#[trigger] s.genesis.entries@[i]).0.author == t.author
                    &&& t.round == 0
                    &&& s.genesis.entries@[i].1.verified_block_header.transactions_commitment
                        == t.transactions_commitment
                },
        },
        s.genesis_named(k) matches Some(b) ==> b.verified_block_header.reference.author
            == k.spec_author() && b.verified_block_header.reference.round == 0,
{
    match k {
        GenericTransactionRef::BlockRef(b) => {
            if s.genesis@.dom().contains(b) {
                let i = s.genesis.lemma_key(b);
                assert(s.genesis.entries@[i].0 == b);
                s.genesis.lemma_entry(i);
            }
            if exists|i: int|
                0 <= i < s.genesis.entries@.len() && (#[trigger] s.genesis.entries@[i]).0 == b {
                let i = choose|i: int|
                    0 <= i < s.genesis.entries@.len() && (#[trigger] s.genesis.entries@[i]).0 == b;
                s.genesis.lemma_entry(i);
            }
        },
        GenericTransactionRef::TransactionRef(t) => {
            if s.genesis_of(t) is Some {
                assert(s.genesis.entries@[t.author as int].0.author == t.author);
            }
            if exists|i: int|
                {
                    &&& 0 <= i < s.genesis.entries@.len()
                    &&& (#[trigger] s.genesis.entries@[i]).0.author == t.author
                    &&& t.round == 0
                    &&& s.genesis.entries@[i].1.verified_block_header.transactions_commitment
                        == t.transactions_commitment
                } {
                let i = choose|i: int|
                    {
                        &&& 0 <= i < s.genesis.entries@.len()
                        &&& (#[trigger] s.genesis.entries@[i]).0.author == t.author
                        &&& t.round == 0
                        &&& s.genesis.entries@[i].1.verified_block_header.transactions_commitment
                            == t.transactions_commitment
                    };
                assert(i == t.author);
            }
        },
    }
}

/// The header of some transactions is the one in memory that their commitment leads
/// to; storage is asked only for a header that memory has a digest for.
pub proof fn law_headers_of_transactions<C: Fn(BlockRef) -> bool>(
    s: DagState,
    contains: &C,
    t: TransactionRef,
    known: bool,
)
    requires
        t.round > 0,
        t.author < s.config.committee.stakes@.len(),
    ensures
        s.cached_header_of(t) == match s@.resolve(t) {
            Some(r) => if s@.headers.dom().contains(r) {
                Some(s@.headers[r])
            } else {
                None
            },
            None => None,
        },
        s@.resolve(t) is None ==> (s.known_header_of(contains, t, known) <==> !known),
        s@.resolve(t) matches Some(r) ==> (s.known_header_of(contains, t, known) <==> if s@.headers.dom().contains(
        r) {
            known
        } else {
            contains.ensures((r,), known)
        }),
{
}

/// An own shard is found exactly where it is in memory.
pub proof fn law_cached_shard(s: DagState, k: GenericTransactionRef)
    ensures
        s.cached_shard(k) is Some <==> s@.shards[k.spec_author() as int].dom().contains(k),
        s.cached_shard(k) matches Some(b) ==> b == s@.shards[k.spec_author() as int][k],
{
}

/// Either all transactions are there, in order, or exactly the references of those
/// that are not are told, in order.
pub proof fn law_all_or_missing(
    refs: Seq<GenericTransactionRef>,
    found: Seq<Option<VerifiedTransactions>>,
)
    requires
        refs.len() == found.len(),
    ensures
        all_or_missing(refs, found) is Ok <==> forall|i: int|
            0 <= i < found.len() ==> (#[trigger] found[i]) is Some,
        all_or_missing(refs, found) matches Ok(ts) ==> ts.len() == refs.len() && forall|i: int|
            0 <= i < ts.len() ==> #[trigger] found[i] == Some(ts[i]),
        all_or_missing(refs, found) matches Err(lost) ==> {
            &&& forall|i: int|
                0 <= i < found.len() && (#[trigger] found[i]) is None ==> lost.contains(refs[i])
            &&& forall|r: GenericTransactionRef| #[trigger]
                lost.contains(r) ==> exists|i: int|
                    0 <= i < found.len() && (#[trigger] found[i]) is None && refs[i] == r
        },
{
    lemma_missing(refs, found);
    if forall|i: int| 0 <= i < found.len() ==> (#[trigger] found[i]) is Some {
        lemma_all_present(found);
        if missing_refs(refs, found).len() > 0 {
            let r = missing_refs(refs, found)[0];
            assert(missing_refs(refs, found).contains(r));
        }
    }
}

proof fn lemma_missing(
    refs: Seq<GenericTransactionRef>,
    found: Seq<Option<VerifiedTransactions>>,
)
    requires
        refs.len() == found.len(),
    ensures
        forall|i: int|
            0 <= i < found.len() && (#[trigger] found[i]) is None ==> missing_refs(
                refs,
                found,
            ).contains(refs[i]),
        forall|r: GenericTransactionRef| #[trigger]
            missing_refs(refs, found).contains(r) ==> exists|i: int|
                0 <= i < found.len() && (#[trigger] found[i]) is None && refs[i] == r,
    decreases found.len(),
{
    if found.len() > 0 {
        let a = refs.drop_last();
        let b = found.drop_last();
        lemma_missing(a, b);
        let before = missing_refs(a, b);
        let all = missing_refs(refs, found);
        let n = found.len() - 1;
        assert forall|i: int| 0 <= i < found.len() && (
        #[trigger] found[i]) is None implies all.contains(refs[i]) by {
            if i < n {
                assert(b[i] is None);
                assert(before.contains(a[i]));
                let z = choose|z: int| 0 <= z < before.len() && before[z] == a[i];
                assert(all[z] == refs[i]);
            } else {
                assert(all[before.len() as int] == refs[i]);
            }
        }
        assert forall|r: GenericTransactionRef| #[trigger] all.contains(r) implies exists|i: int|
            0 <= i < found.len() && (#[trigger] found[i]) is None && refs[i] == r by {
            let z = choose|z: int| 0 <= z < all.len() && all[z] == r;
            if z < before.len() {
                assert(before[z] == r);
                assert(before.contains(r));
                let i = choose|i: int| 0 <= i < b.len() && (#[trigger] b[i]) is None && a[i] == r;
                assert(found[i] is None && refs[i] == r);
            } else {
                assert(found[n] is None && refs[n] == r);
            }
        }
    }
}

proof fn lemma_all_present(found: Seq<Option<VerifiedTransactions>>)
    requires
        forall|i: int| 0 <= i < found.len() ==> (#[trigger] found[i]) is Some,
    ensures
        present(found).len() == found.len(),
        forall|i: int| 0 <= i < found.len() ==> #[trigger] found[i] == Some(present(found)[i]),
    decreases found.len(),
{
    if found.len() > 0 {
        let d = found.drop_last();
        assert forall|i: int| 0 <= i < d.len() implies (#[trigger] d[i]) is Some by {
            assert(found[i] is Some);
        }
        lemma_all_present(d);
        assert(found[found.len() - 1] is Some);
        assert forall|i: int| 0 <= i < found.len() implies #[trigger] found[i] == Some(
            present(found)[i],
        ) by {
            if i < d.len() {
                assert(d[i] == found[i]);
            }
        }
    }
}

/// What is listed is exactly what is in memory and asked for, each header once, by
/// round, then by author, then by digest.
pub proof fn law_lists(
    hs: Seq<VerifiedBlockHeader>,
    m: Map<BlockRef, VerifiedBlockHeader>,
    p: spec_fn(BlockRef) -> bool,
    r: BlockRef,
)
    requires
        lists(hs, m, p),
    ensures
        m.dom().contains(r) && p(r) ==> hs.contains(m[r]),
        forall|i: int|
            0 <= i < hs.len() ==> m.dom().contains((#[trigger] hs[i]).reference) && p(
                hs[i].reference,
            ) && m[hs[i].reference] == hs[i],
        forall|i: int, j: int|
            0 <= i < j < hs.len() ==> {
                let a = (#[trigger] hs[i]).reference;
                let b = (#[trigger] hs[j]).reference;
                a.round < b.round || (a.round == b.round && a.author < b.author) || (a.round
                    == b.round && a.author == b.author && a.digest.rank() < b.digest.rank())
            },
{
    if m.dom().contains(r) && p(r) {
        let i = choose|i: int| 0 <= i < hs.len() && (#[trigger] hs[i]).reference == r;
        assert(m[hs[i].reference] == hs[i]);
        assert(hs[i] == m[r]);
    }
    assert forall|i: int, j: int| 0 <= i < j < hs.len() implies {
        let a = (#[trigger] hs[i]).reference;
        let b = (#[trigger] hs[j]).reference;
        a.round < b.round || (a.round == b.round && a.author < b.author) || (a.round == b.round
            && a.author == b.author && a.digest.rank() < b.digest.rank())
    } by {
        let a = hs[i].reference;
        let b = hs[j].reference;
        lemma_triple_rank(a.round, a.author, a.digest, b.round, b.author, b.digest);
        lemma_triple_rank(b.round, b.author, b.digest, a.round, a.author, a.digest);
    }
}

/// A range of an authority goes from its first round up to, but not including, the
/// round at its end.
pub proof fn law_ranges(
    s: DagState,
    a: AuthorityIndex,
    start: Round,
    end: Round,
    r: BlockRef,
)
    ensures
        of_author_in(a, start, end)(r) <==> r.author == a && start <= r.round && r.round < end,
        of_author_since(a, start)(r) <==> r.author == a && start <= r.round,
        s.refs_in_range(a, start as int, end as int).contains(r) <==> s@.headers.dom().contains(r)
            && r.author == a && start <= r.round && r.round < end,
        s@.refs_of(a).contains(r) <==> s@.headers.dom().contains(r) && r.author == a,
{
}

/// The last header of an authority below a round is in memory, of no earlier round than
/// any other there, and the others of its round are told, each once, later ones first.
/// Without any it is that of genesis.
pub proof fn law_last_with_equivocations(
    s: DagState,
    a: AuthorityIndex,
    end_round: Round,
    header: VerifiedBlockHeader,
    others: Seq<BlockRef>,
    r: BlockRef,
)
    requires
        s.wf(),
        a < s.config.committee.stakes@.len(),
        s.last_with_equivocations(a, end_round, header, others),
    ensures
        ({
            let counts = s@.headers.dom().contains(r) && r.author == a && r.round < end_round
                && r.round > s@.evicted_rounds[a as int];
            &&& counts ==> header.reference.author == a && header.reference.round < end_round
                && header.reference.round >= r.round && s@.headers.dom().contains(header.reference)
                && s@.headers[header.reference] == header
            &&& counts && r.round == header.reference.round && r != header.reference
                ==> others.contains(r)
            &&& others.contains(r) ==> counts && r.round == header.reference.round && r
                != header.reference
            &&& (forall|q: BlockRef|
                !(#[trigger] s@.headers.dom().contains(q) && q.author == a && q.round < end_round
                    && q.round > s@.evicted_rounds[a as int])) ==> header
                == s.genesis.entries@[a as int].1.verified_block_header && others.len() == 0
        }),
        forall|i: int, j: int|
            0 <= i < j < others.len() ==> (#[trigger] others[i]).rank() > (
            #[trigger] others[j]).rank(),
{
    let q = s.refs_in_range(a, s@.evicted_rounds[a as int] + 1, end_round as int);
    if q.contains(r) {
        let h = header.reference;
        lemma_triple_rank(r.round, r.author, r.digest, h.round, h.author, h.digest);
        lemma_triple_rank(h.round, h.author, h.digest, r.round, r.author, r.digest);
    }
    assert(others.contains(r) <==> others.to_set().contains(r));
    if forall|b: BlockRef|
        !(#[trigger] s@.headers.dom().contains(b) && b.author == a && b.round < end_round && b.round
            > s@.evicted_rounds[a as int]) {
        assert(q =~= Set::empty());
    }
}

/// The history of a header down to a round holds its ancestors, and with a header above
/// that round also that header's ancestors that are not below it; and nothing more.
pub proof fn law_history<F: Fn(BlockRef) -> Option<VerifiedBlockHeader>>(
    s: DagState,
    read: &F,
    top: VerifiedBlockHeader,
    floor: Round,
    all: Set<BlockRef>,
)
    ensures
        forall|r: BlockRef| #[trigger]
            top.ancestors@.contains(r) ==> s.linked(read, top, floor, r),
        forall|q: BlockRef, h: VerifiedBlockHeader, r: BlockRef|
            s.linked(read, top, floor, q) && q.round > floor && #[trigger] s.found_header(
                read,
                q,
                Some(h),
            ) && #[trigger] h.ancestors@.contains(r) && r.round >= floor ==> s.linked(
                read,
                top,
                floor,
                r,
            ),
        (forall|r: BlockRef| #[trigger] top.ancestors@.contains(r) ==> all.contains(r)) && (forall|
            q: BlockRef,
            h: VerifiedBlockHeader,
            r: BlockRef,
        |
            all.contains(q) && q.round > floor && #[trigger] s.found_header(read, q, Some(h))
                && #[trigger] h.ancestors@.contains(r) && r.round >= floor ==> all.contains(r))
            ==> forall|r: BlockRef| #[trigger] s.linked(read, top, floor, r) ==> all.contains(r),
{
    assert forall|r: BlockRef| #[trigger] top.ancestors@.contains(r) implies s.linked(
        read,
        top,
        floor,
        r,
    ) by {
        assert(s.linked_in(read, top, floor, 0, r));
    }
    assert forall|q: BlockRef, h: VerifiedBlockHeader, r: BlockRef|
        s.linked(read, top, floor, q) && q.round > floor && #[trigger] s.found_header(
            read,
            q,
            Some(h),
        ) && #[trigger] h.ancestors@.contains(r) && r.round >= floor implies s.linked(
        read,
        top,
        floor,
        r,
    ) by {
        let n = choose|n: nat| s.linked_in(read, top, floor, n, q);
        assert(s.linked_in(read, top, floor, n + 1, r));
    }
    if (forall|r: BlockRef| #[trigger] top.ancestors@.contains(r) ==> all.contains(r)) && (forall|
        q: BlockRef,
        h: VerifiedBlockHeader,
        r: BlockRef,
    |
        all.contains(q) && q.round > floor && #[trigger] s.found_header(read, q, Some(h))
            && #[trigger] h.ancestors@.contains(r) && r.round >= floor ==> all.contains(r)) {
        assert forall|r: BlockRef| #[trigger] s.linked(read, top, floor, r) implies all.contains(
            r,
        ) by {
            let n = choose|n: nat| s.linked_in(read, top, floor, n, r);
            lemma_history(s, read, top, floor, all, n, r);
        }
    }
}

proof fn lemma_history<F: Fn(BlockRef) -> Option<VerifiedBlockHeader>>(
    s: DagState,
    read: &F,
    top: VerifiedBlockHeader,
    floor: Round,
    all: Set<BlockRef>,
    n: nat,
    r: BlockRef,
)
    requires
        forall|r: BlockRef| #[trigger] top.ancestors@.contains(r) ==> all.contains(r),
        forall|q: BlockRef, h: VerifiedBlockHeader, r: BlockRef|
            all.contains(q) && q.round > floor && #[trigger] s.found_header(read, q, Some(h))
                && #[trigger] h.ancestors@.contains(r) && r.round >= floor ==> all.contains(r),
        s.linked_in(read, top, floor, n, r),
    ensures
        all.contains(r),
    decreases n,
{
    if n == 0 {
        assert(top.ancestors@.contains(r));
    } else if s.linked_in(read, top, floor, (n - 1) as nat, r) {
        lemma_history(s, read, top, floor, all, (n - 1) as nat, r);
    } else {
        let (q, h) = choose|q: BlockRef, h: VerifiedBlockHeader|
            {
                &&& s.linked_in(read, top, floor, (n - 1) as nat, q)
                &&& q.round > floor
                &&& #[trigger] s.found_header(read, q, Some(h))
                &&& #[trigger] h.ancestors@.contains(r)
                &&& r.round >= floor
            };
        lemma_history(s, read, top, floor, all, (n - 1) as nat, q);
    }
}

/// A round has a quorum exactly where the authors with a header in memory there have
/// the stake of one.
pub proof fn law_quorum_at(s: DagState, round: Round, a: AuthorityIndex)
    ensures
        s.authors_at(round).contains(a) <==> exists|r: BlockRef| #[trigger]
            s@.headers.dom().contains(r) && r.round == round && r.author == a,
        s.has_quorum_at(round) <==> stake_of(s.config.committee.stakes@, s.authors_at(round))
            >= s.config.committee.quorum_threshold,
        s.spec_genesis_headers().len() == s.config.committee.stakes@.len(),
        a < s.config.committee.stakes@.len() ==> s.spec_genesis_headers()[a as int]
            == s.genesis.entries@[a as int].1.verified_block_header,
        s.genesis_header(a) == s.genesis.entries@[a as int].1.verified_block_header,
{
}

/// A block is its header with its transactions, where those are in memory; a header
/// without is passed over.
pub proof fn law_blocks(
    s: DagState,
    a: Seq<VerifiedBlockHeader>,
    b: Seq<VerifiedBlockHeader>,
    h: VerifiedBlockHeader,
)
    ensures
        s.blocks_of(a + b) == s.blocks_of(a) + s.blocks_of(b),
        s.blocks_of(seq![h]) == match s.block_of(h) {
            Some(x) => seq![x],
            None => Seq::empty(),
        },
        ({
            let k = if s.config.consensus_fast_commit_sync {
                GenericTransactionRef::TransactionRef(
                    TransactionRef {
                        round: h.reference.round,
                        author: h.reference.author,
                        transactions_commitment: h.transactions_commitment,
                    },
                )
            } else {
                GenericTransactionRef::BlockRef(h.reference)
            };
            let m = s@.transactions[h.reference.author as int];
            &&& s.block_of(h) is Some <==> m.dom().contains(k)
            &&& s.block_of(h) matches Some(x) ==> x.verified_block_header == h
                && x.verified_transactions == m[k]
        }),
    decreases b.len(),
{
    assert(seq![h].drop_last() =~= Seq::empty());
    assert(s.blocks_of(Seq::empty()) =~= Seq::empty());
    assert(s.blocks_of(seq![h]) =~= match s.block_of(h) {
        Some(x) => seq![x],
        None => Seq::empty(),
    });
    if b.len() == 0 {
        assert(a + b =~= a);
        assert(s.blocks_of(a) + s.blocks_of(b) =~= s.blocks_of(a));
    } else {
        law_blocks(s, a, b.drop_last(), h);
        assert((a + b).drop_last() =~= a + b.drop_last());
        assert((a + b).last() == b.last());
        assert(s.blocks_of(a + b) =~= s.blocks_of(a) + s.blocks_of(b));
    }
}

/// A header that is accepted is news exactly where somebody listens and its source is
/// one that peers hear of. The news is the header, with what it acknowledges by
/// commitment where commits name transactions so.
pub proof fn law_header_news<F: Fn(BlockRef) -> Option<VerifiedBlockHeader>>(
    s: DagState,
    h: VerifiedBlockHeader,
    source: DataSource,
    read: &F,
    out: Option<CordialKnowledgeMessage>,
)
    requires
        s.is_header_news(h, source, read, out),
    ensures
        out is Some <==> s@.has_listener && source != DataSource::CommitSyncer && source
            != DataSource::Recover,
        out matches Some(m) ==> {
            &&& m matches CordialKnowledgeMessage::NewHeader {
                header,
                ack_transactions_commitments,
            }
            &&& header == h
            &&& ack_transactions_commitments@.len() == h.acknowledgments@.len()
            &&& forall|i: int|
                0 <= i < h.acknowledgments@.len() ==> if s.config.consensus_fast_commit_sync {
                    found_commitment(
                        s@.headers,
                        read,
                        h.acknowledgments@[i],
                        #[trigger] ack_transactions_commitments@[i],
                    )
                } else {
                    ack_transactions_commitments@[i] is None
                }
        },
{
}

/// The news of some steps is told one after the other.
pub proof fn law_news_in_order(
    a: Seq<(DagState, Option<CordialKnowledgeMessage>)>,
    b: Seq<(DagState, Option<CordialKnowledgeMessage>)>,
    step: (DagState, Option<CordialKnowledgeMessage>),
)
    ensures
        news_of(a + b) == news_of(a) + news_of(b),
        news_of(seq![step]) == match step.1 {
            Some(m) => seq![m],
            None => Seq::empty(),
        },
    decreases b.len(),
{
    reveal_with_fuel(news_of, 2);
    assert(seq![step].drop_last() =~= Seq::empty());
    assert(news_of(seq![step]) =~= match step.1 {
        Some(m) => seq![m],
        None => Seq::empty(),
    });
    if b.len() == 0 {
        assert(a + b =~= a);
        assert(news_of(a) + news_of(b) =~= news_of(a));
    } else {
        law_news_in_order(a, b.drop_last(), step);
        assert((a + b).drop_last() =~= a + b.drop_last());
        assert((a + b).last() == b.last());
        assert(news_of(a + b) =~= news_of(a) + news_of(b));
    }
}

/// The commits since the last ones that were scored are those after them, up to the
/// last commit; there may be none.
pub proof fn law_unscored_commits(
    last_commit: Option<TrustedCommit>,
    info: Option<(CommitRef, CommitInfo)>,
    i: CommitIndex,
)
    requires
        crate::dag_state::accept::commit_info_index(info) < CommitIndex::MAX,
    ensures
        ({
            let range = unscored_commits(last_commit, info);
            let after = crate::dag_state::accept::commit_info_index(info);
            (range matches Some(r) && r.start <= i <= r.end) <==> (last_commit matches Some(c) && i
                <= c.commit.index && i > after)
        }),
        last_commit is None ==> unscored_commits(last_commit, info) is None,
{
}

/// The rounds that storage has are those of the commit info, or all zero without one.
pub proof fn law_stored_rounds(cfg: DagConfig, info: Option<(CommitRef, CommitInfo)>, a: int)
    ensures
        info matches Some((_, i)) ==> stored_rounds(cfg, info) == i.committed_rounds@,
        info is None ==> stored_rounds(cfg, info).len() == cfg.committee.stakes@.len(),
        info is None && 0 <= a < cfg.committee.stakes@.len() ==> stored_rounds(cfg, info)[a] == 0,
{
}

/// Commits raise the rounds one after the other, and each has its sub-DAG.
pub proof fn law_rounds_of_commits(
    rounds: Seq<Round>,
    a: Seq<(TrustedCommit, SubDagBase)>,
    b: Seq<(TrustedCommit, SubDagBase)>,
    c: (TrustedCommit, SubDagBase),
)
    ensures
        raise_rounds_by(rounds, a + b) == raise_rounds_by(raise_rounds_by(rounds, a), b),
        raise_rounds_by(rounds, seq![c]) == crate::dag_state::model::raise_rounds(
            rounds,
            c.0.commit.block_headers@,
        ),
        subdags_of(a).len() == a.len(),
        forall|i: int| 0 <= i < a.len() ==> #[trigger] subdags_of(a)[i] == a[i].1,
    decreases b.len(),
{
    reveal_with_fuel(raise_rounds_by, 2);
    assert(seq![c].drop_last() =~= Seq::empty());
    if b.len() == 0 {
        assert(a + b =~= a);
    } else {
        law_rounds_of_commits(rounds, a, b.drop_last(), c);
        assert((a + b).drop_last() =~= a + b.drop_last());
        assert((a + b).last() == b.last());
    }
}

/// A state that starts anew has nothing in memory and nothing to write, its clock is at
/// the first round, and it has the commits that it is given.
pub proof fn law_fresh_state(
    cfg: DagConfig,
    last_commit: Option<TrustedCommit>,
    rounds: Seq<Round>,
    subdags: Seq<SubDagBase>,
    flag: bool,
    a: int,
)
    requires
        0 <= a < cfg.committee.stakes@.len(),
    ensures
        ({
            let v = DagView::fresh(cfg, last_commit, rounds, subdags, flag);
            &&& v.headers.dom() == Set::<BlockRef>::empty()
            &&& v.transactions.len() == cfg.committee.stakes@.len()
            &&& v.transactions[a].dom() == Set::<GenericTransactionRef>::empty()
            &&& v.shards.len() == cfg.committee.stakes@.len()
            &&& v.shards[a].dom() == Set::<GenericTransactionRef>::empty()
            &&& v.digests.len() == cfg.committee.stakes@.len()
            &&& v.clock.round == 1
            &&& v.clock.votes == Set::<AuthorityIndex>::empty()
            &&& v.evicted_rounds[a] == 0
            &&& v.highest_accepted_round == 0
            &&& v.last_commit == last_commit
            &&& v.last_solid_subdag_base is None
            &&& v.last_committed_rounds == rounds
            &&& v.scoring_subdags == subdags
            &&& v.pending_commit_votes.len() == 0
            &&& v.pending_acknowledgments == Set::<BlockRef>::empty()
            &&& v.writes.block_headers.len() == 0
            &&& v.writes.transactions.len() == 0
            &&& v.writes.commits.len() == 0
            &&& v.fast_sync_ongoing == flag
            &&& !v.has_listener
        }),
{
    assert(Map::<BlockRef, VerifiedBlockHeader>::empty().dom() =~= Set::empty());
    assert(Map::<GenericTransactionRef, VerifiedTransactions>::empty().dom() =~= Set::empty());
    assert(Map::<GenericTransactionRef, Bytes>::empty().dom() =~= Set::empty());
}

/// Emptying the caches leaves nothing in memory; the clock keeps its round, and what is
/// known of commits and what waits to be written stays.
pub proof fn law_emptied_state(cfg: DagConfig, v: DagView, a: int)
    requires
        0 <= a < cfg.committee.stakes@.len(),
    ensures
        ({
            let w = v.emptied(cfg);
            &&& w.headers.dom() == Set::<BlockRef>::empty()
            &&& w.transactions[a].dom() == Set::<GenericTransactionRef>::empty()
            &&& w.shards[a].dom() == Set::<GenericTransactionRef>::empty()
            &&& w.clock.round == v.clock.round
            &&& w.clock.votes == Set::<AuthorityIndex>::empty()
            &&& w.scoring_subdags.len() == 0
            &&& w.pending_commit_votes.len() == 0
            &&& w.pending_acknowledgments == Set::<BlockRef>::empty()
            &&& w.last_commit == v.last_commit
            &&& w.last_committed_rounds == v.last_committed_rounds
            &&& w.last_solid_subdag_base == v.last_solid_subdag_base
            &&& w.writes == v.writes
            &&& w.highest_accepted_round == v.highest_accepted_round
            &&& w.has_listener == v.has_listener
            &&& w.fast_sync_ongoing == v.fast_sync_ongoing
        }),
{
    assert(Map::<BlockRef, VerifiedBlockHeader>::empty().dom() =~= Set::empty());
    assert(Map::<GenericTransactionRef, VerifiedTransactions>::empty().dom() =~= Set::empty());
    assert(Map::<GenericTransactionRef, Bytes>::empty().dom() =~= Set::empty());
}

/// Headers of some authorities, one authority after the other; and headers taken into
/// memory, later ones before earlier ones of the same reference.
pub proof fn law_headers_in_order(
    a: Seq<Vec<VerifiedBlockHeader>>,
    b: Seq<Vec<VerifiedBlockHeader>>,
    hs: Vec<VerifiedBlockHeader>,
    base: Map<BlockRef, VerifiedBlockHeader>,
    x: Seq<VerifiedBlockHeader>,
    h: VerifiedBlockHeader,
)
    ensures
        all_headers(a + b) == all_headers(a) + all_headers(b),
        all_headers(seq![hs]) == hs@,
        with_headers(base, Seq::empty()) == base,
        with_headers(base, x.push(h)) == with_headers(base, x).insert(h.reference, h),
    decreases b.len(),
{
    reveal_with_fuel(all_headers, 2);
    assert(seq![hs].drop_last() =~= Seq::empty());
    assert(all_headers(seq![hs]) =~= hs@);
    assert(x.push(h).drop_last() =~= x);
    if b.len() == 0 {
        assert(a + b =~= a);
        assert(all_headers(a) + all_headers(b) =~= all_headers(a));
    } else {
        law_headers_in_order(a, b.drop_last(), hs, base, x, h);
        assert((a + b).drop_last() =~= a + b.drop_last());
        assert((a + b).last() == b.last());
        assert(all_headers(a + b) =~= all_headers(a) + all_headers(b));
    }
}

/// Of each authority, what storage has after its committed round less the rounds to
/// keep is looked for.
pub proof fn law_what_is_scanned<
    H: Fn(AuthorityIndex, Round) -> Vec<VerifiedBlockHeader>,
    T: Fn(AuthorityIndex, Round) -> Vec<VerifiedTransactions>,
>(
    cfg: DagConfig,
    rounds: Seq<Round>,
    scan_headers: &H,
    scan_transactions: &T,
    headers: Seq<Vec<VerifiedBlockHeader>>,
    transactions: Seq<Vec<VerifiedTransactions>>,
    a: AuthorityIndex,
    from: Round,
)
    requires
        scanned(cfg, rounds, scan_headers, scan_transactions, headers, transactions),
        a < headers.len(),
        rounds[a as int] >= cfg.cached_rounds ==> from == rounds[a as int] - cfg.cached_rounds + 1,
        rounds[a as int] < cfg.cached_rounds ==> from == 1,
    ensures
        scan_headers.ensures((a, from), headers[a as int]),
        scan_transactions.ensures((a, from), transactions[a as int]),
{
}

/// Loading an authority notes up to which round it is not loaded, and takes in its
/// headers and transactions: each header is then in memory.
pub proof fn law_loaded_authority(
    cfg: DagConfig,
    v: DagView,
    a: AuthorityIndex,
    committed_round: Round,
    headers: Seq<VerifiedBlockHeader>,
    transactions: Seq<VerifiedTransactions>,
    r: BlockRef,
)
    requires
        a < v.evicted_rounds.len(),
    ensures
        ({
            let w = v.load_authority(cfg, a, committed_round, headers, transactions);
            &&& w.evicted_rounds.len() == v.evicted_rounds.len()
            &&& w.evicted_rounds[a as int] == if committed_round >= cfg.cached_rounds {
                committed_round - cfg.cached_rounds
            } else {
                0
            }
            &&& w.headers.dom().contains(r) <==> v.headers.dom().contains(r) || exists|i: int|
                0 <= i < headers.len() && (#[trigger] headers[i]).reference == r
            &&& w.writes == v.writes
            &&& w.last_commit == v.last_commit
            &&& w.pending_acknowledgments == v.pending_acknowledgments
        }),
{
    let e = DagView {
        evicted_rounds: v.evicted_rounds.update(
            a as int,
            crate::dag_state::model::sat_sub(committed_round, cfg.cached_rounds),
        ),
        ..v
    };
    lemma_inserted(cfg, e, headers, r);
    lemma_all_inserted(cfg, e.insert_headers(cfg, headers), transactions);
}

proof fn lemma_inserted(cfg: DagConfig, v: DagView, hs: Seq<VerifiedBlockHeader>, r: BlockRef)
    ensures
        ({
            let w = v.insert_headers(cfg, hs);
            &&& w.headers.dom().contains(r) <==> v.headers.dom().contains(r) || exists|i: int|
                0 <= i < hs.len() && (#[trigger] hs[i]).reference == r
            &&& w.writes == v.writes
            &&& w.last_commit == v.last_commit
            &&& w.evicted_rounds == v.evicted_rounds
            &&& w.pending_acknowledgments == v.pending_acknowledgments
        }),
    decreases hs.len(),
{
    if hs.len() > 0 {
        let d = hs.drop_last();
        let n = hs.len() - 1;
        lemma_inserted(cfg, v, d, r);
        if exists|i: int| 0 <= i < d.len() && (#[trigger] d[i]).reference == r {
            let i = choose|i: int| 0 <= i < d.len() && (#[trigger] d[i]).reference == r;
            assert(hs[i].reference == r);
        }
        if exists|i: int| 0 <= i < hs.len() && (#[trigger] hs[i]).reference == r {
            let i = choose|i: int| 0 <= i < hs.len() && (#[trigger] hs[i]).reference == r;
            if i < n {
                assert(d[i].reference == r);
            }
        }
        if hs.last().reference == r {
            assert(hs[n].reference == r);
        }
    }
}

proof fn lemma_all_inserted(cfg: DagConfig, v: DagView, ts: Seq<VerifiedTransactions>)
    ensures
        ({
            let w = v.insert_all_transactions(cfg, ts);
            &&& w.headers == v.headers
            &&& w.writes == v.writes
            &&& w.last_commit == v.last_commit
            &&& w.evicted_rounds == v.evicted_rounds
            &&& w.pending_acknowledgments == v.pending_acknowledgments
        }),
    decreases ts.len(),
{
    if ts.len() > 0 {
        lemma_all_inserted(cfg, v, ts.drop_last());
    }
}

/// Headers that are loaded are news exactly where somebody is to be told: one message
/// for each, in order, of the header itself.
pub proof fn law_loading_news<F: Fn(BlockRef) -> Option<VerifiedBlockHeader>>(
    by_commitment: bool,
    base: Map<BlockRef, VerifiedBlockHeader>,
    told: bool,
    read: &F,
    news: Seq<CordialKnowledgeMessage>,
    headers: Seq<VerifiedBlockHeader>,
    i: int,
)
    requires
        loading_news(by_commitment, base, told, read, news, headers),
    ensures
        !told ==> news.len() == 0,
        told ==> news.len() == headers.len(),
        told && 0 <= i < headers.len() ==> {
            &&& news[i] matches CordialKnowledgeMessage::NewHeader {
                header,
                ack_transactions_commitments,
            }
            &&& header == headers[i]
            &&& ack_transactions_commitments@.len() == header.acknowledgments@.len()
            &&& forall|x: int|
                0 <= x < header.acknowledgments@.len() && !by_commitment
                    ==> #[trigger] ack_transactions_commitments@[x] is None
        },
{
    if told && 0 <= i < headers.len() {
        assert(headers.take(i + 1).last() == headers[i]);
        assert(is_news_of_last(by_commitment, base, headers.take(i + 1), read, news[i]));
    }
}

/// What is loaded of the authorities is loaded one authority after the other, and the
/// headers of the recent rounds are then in memory; what waits to be written stays.
pub proof fn law_loaded_authorities(
    cfg: DagConfig,
    v: DagView,
    rounds: Seq<Round>,
    headers: Seq<Vec<VerifiedBlockHeader>>,
    transactions: Seq<Vec<VerifiedTransactions>>,
    n: nat,
    r: BlockRef,
)
    requires
        n <= headers.len(),
        n <= 256,
        v.evicted_rounds.len() >= n,
    ensures
        ({
            let w = v.load_first(cfg, rounds, headers, transactions, n);
            &&& w.headers.dom().contains(r) <==> v.headers.dom().contains(r) || exists|
                a: int,
                i: int,
            |
                0 <= a < n && 0 <= i < headers[a]@.len() && (
                #[trigger] headers[a]@[i]).reference == r
            &&& w.writes == v.writes
            &&& w.last_commit == v.last_commit
            &&& w.pending_acknowledgments == v.pending_acknowledgments
            &&& w.evicted_rounds.len() == v.evicted_rounds.len()
            &&& forall|a: int|
                0 <= a < n ==> #[trigger] w.evicted_rounds[a] == if rounds[a] >= cfg.cached_rounds {
                    rounds[a] - cfg.cached_rounds
                } else {
                    0
                }
        }),
    decreases n,
{
    if n > 0 {
        let m = (n - 1) as nat;
        law_loaded_authorities(cfg, v, rounds, headers, transactions, m, r);
        let w = v.load_first(cfg, rounds, headers, transactions, m);
        let a = (n - 1) as AuthorityIndex;
        law_loaded_authority(cfg, w, a, rounds[n - 1], headers[n - 1]@, transactions[n - 1]@, r);
        lemma_other_rounds(cfg, w, a, rounds[n - 1], headers[n - 1]@, transactions[n - 1]@);
        let hs = headers[n - 1]@;
        if exists|i: int| 0 <= i < hs.len() && (#[trigger] hs[i]).reference == r {
            let i = choose|i: int| 0 <= i < hs.len() && (#[trigger] hs[i]).reference == r;
            assert(headers[n - 1]@[i].reference == r);
        }
        if exists|b: int, i: int|
            0 <= b < n && 0 <= i < headers[b]@.len() && (
            #[trigger] headers[b]@[i]).reference == r {
            let (b, i) = choose|b: int, i: int|
                0 <= b < n && 0 <= i < headers[b]@.len() && (
                #[trigger] headers[b]@[i]).reference == r;
            if b == n - 1 {
                assert(hs[i].reference == r);
            }
        }
    }
}

proof fn lemma_other_rounds(
    cfg: DagConfig,
    v: DagView,
    a: AuthorityIndex,
    committed_round: Round,
    headers: Seq<VerifiedBlockHeader>,
    transactions: Seq<VerifiedTransactions>,
)
    requires
        a < v.evicted_rounds.len(),
    ensures
        forall|b: int|
            0 <= b < v.evicted_rounds.len() && b != a ==> #[trigger] v.load_authority(
                cfg,
                a,
                committed_round,
                headers,
                transactions,
            ).evicted_rounds[b] == v.evicted_rounds[b],
{
    let e = DagView {
        evicted_rounds: v.evicted_rounds.update(
            a as int,
            crate::dag_state::model::sat_sub(committed_round, cfg.cached_rounds),
        ),
        ..v
    };
    lemma_inserted(cfg, e, headers, BlockRef { round: 0, author: 0, digest: Digest { hi: 0, lo: 0 } });
    lemma_all_inserted(cfg, e.insert_headers(cfg, headers), transactions);
}

/// A state that is recovered has the last commit of storage, the rounds of its commit
/// info raised by the commits since, their sub-DAGs to be scored, and exactly the
/// headers that storage gave in memory.
pub proof fn law_recovered_state<
    S: Fn(CommitRange) -> Vec<(TrustedCommit, SubDagBase)>,
    H: Fn(AuthorityIndex, Round) -> Vec<VerifiedBlockHeader>,
    T: Fn(AuthorityIndex, Round) -> Vec<VerifiedTransactions>,
>(
    cfg: DagConfig,
    last_commit: Option<TrustedCommit>,
    commit_info: Option<(CommitRef, CommitInfo)>,
    fast_sync_ongoing: bool,
    scan_commits: &S,
    scan_headers: &H,
    scan_transactions: &T,
    out: DagView,
    commits: Vec<(TrustedCommit, SubDagBase)>,
    hs: Seq<Vec<VerifiedBlockHeader>>,
    ts: Seq<Vec<VerifiedTransactions>>,
    r: BlockRef,
)
    requires
        cfg.wf(),
        recovered(
            cfg,
            last_commit,
            commit_info,
            fast_sync_ongoing,
            scan_commits,
            scan_headers,
            scan_transactions,
            out,
            commits,
            hs,
            ts,
        ),
    ensures
        out.last_commit == last_commit,
        out.headers.dom().contains(r) <==> exists|a: int, i: int|
            0 <= a < hs.len() && 0 <= i < hs[a]@.len() && (#[trigger] hs[a]@[i]).reference == r,
        hs.len() == cfg.committee.stakes@.len(),
        fast_sync_ongoing ==> commits@.len() == 0,
        !fast_sync_ongoing && unscored_commits(last_commit, commit_info) is Some
            ==> scan_commits.ensures(
            (unscored_commits(last_commit, commit_info)->Some_0,),
            commits,
        ),
        out.pending_acknowledgments == Set::<BlockRef>::empty(),
        out.writes.block_headers.len() == 0,
        out.writes.commits.len() == 0,
{
    let rounds = raise_rounds_by(stored_rounds(cfg, commit_info), commits@);
    let v = DagView::fresh(cfg, last_commit, rounds, subdags_of(commits@), fast_sync_ongoing);
    law_loaded_authorities(cfg, v, rounds, hs, ts, cfg.size(), r);
}

} // verus!
