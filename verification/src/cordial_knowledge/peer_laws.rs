//! What is known of one peer, and what goes along with a block to it, in terms of
//! what came in.
use vstd::prelude::*;

use crate::cordial_knowledge::connection::{
    all_at, as_generic, authors_of, informed, informed_by, is_bundle, is_still_useful,
    latest_rounds, lemma_useful_among, may_go_along, prepared, present, raised_each, useful_among,
    useful_authors, BlockBundle, ConnectionView,
};
use crate::cordial_knowledge::global::{later, raised};
use crate::cordial_knowledge::messages::ConnectionKnowledgeMessage;
use crate::cordial_knowledge::unknown::{are_first_eligible, is_eligible};
use crate::dag_state::state::DagState;
use crate::header::{VerifiedBlock, VerifiedBlockHeader};
use crate::refs::{AuthorityIndex, BlockRef, GenericTransactionRef, Round};

verus! {

/// An author is useful at the round of a block exactly where it was useful before and
/// the block is at most forty rounds further on. All useful authors are listed, in
/// ascending order.
pub proof fn law_useful_authors(rounds: Seq<Option<Round>>, block_round: Round, a: AuthorityIndex)
    requires
        rounds.len() <= 256,
    ensures
        useful_authors(rounds, block_round).contains(a) <==> {
            &&& a < rounds.len()
            &&& rounds[a as int] matches Some(last)
            &&& block_round - last <= 40
        },
        forall|i: int, j: int|
            0 <= i < j < useful_authors(rounds, block_round).len() ==> #[trigger] useful_authors(
                rounds,
                block_round,
            )[i] < #[trigger] useful_authors(rounds, block_round)[j],
{
    lemma_useful_among(rounds, block_round, rounds.len() as int);
    lemma_useful_ascend(rounds, block_round, rounds.len() as int);
}

proof fn lemma_useful_ascend(rounds: Seq<Option<Round>>, block_round: Round, n: int)
    requires
        0 <= n <= rounds.len() <= 256,
    ensures
        forall|i: int, j: int|
            0 <= i < j < useful_among(rounds, block_round, n).len() ==> #[trigger] useful_among(
                rounds,
                block_round,
                n,
            )[i] < #[trigger] useful_among(rounds, block_round, n)[j],
    decreases n,
{
    if n > 0 {
        lemma_useful_ascend(rounds, block_round, n - 1);
        lemma_useful_among(rounds, block_round, n - 1);
        let rest = useful_among(rounds, block_round, n - 1);
        let all = useful_among(rounds, block_round, n);
        assert forall|i: int, j: int| 0 <= i < j < all.len() implies #[trigger] all[i]
            < #[trigger] all[j] by {
            assert(all[i] == rest[i]);
            if j < rest.len() {
                assert(all[j] == rest[j]);
            }
        }
    }
}

/// How long an author stays useful does not depend on the round: moving both rounds on
/// changes nothing. Who was useful in the round before still is.
pub proof fn law_usefulness_is_about_distance(last: Round, block_round: Round, d: Round)
    requires
        last + d <= Round::MAX,
        block_round + d <= Round::MAX,
    ensures
        is_still_useful(Some(last), block_round) == is_still_useful(
            Some((last + d) as Round),
            (block_round + d) as Round,
        ),
        block_round <= last + 1 ==> is_still_useful(Some(last), block_round),
        !is_still_useful(None, block_round),
{
}

/// What is taken is known, of useful authors and of earlier rounds, and nothing twice.
/// Early rounds go first: what is left is of no earlier round than what is taken, and
/// nothing is left while there is room.
pub proof fn law_what_is_taken(
    known: Set<GenericTransactionRef>,
    upper: Round,
    useful: Seq<AuthorityIndex>,
    max_take: nat,
    taken: Seq<GenericTransactionRef>,
    g: GenericTransactionRef,
)
    requires
        are_first_eligible(known, upper, useful, max_take, taken),
    ensures
        taken.no_duplicates(),
        taken.len() <= max_take,
        taken.contains(g) ==> known.contains(g) && g.spec_round() < upper && useful.contains(
            g.spec_author(),
        ),
        known.contains(g) && g.spec_round() < upper && useful.contains(g.spec_author())
            && taken.len() < max_take ==> taken.contains(g),
        known.contains(g) && g.spec_round() < upper && useful.contains(g.spec_author())
            && !taken.contains(g) ==> forall|i: int|
            0 <= i < taken.len() ==> (#[trigger] taken[i]).spec_round() <= g.spec_round(),
        forall|i: int, j: int|
            0 <= i < j < taken.len() ==> (#[trigger] taken[i]).spec_round() <= (
            #[trigger] taken[j]).spec_round(),
        forall|i: int, j: int|
            0 <= i < j < taken.len() && (#[trigger] taken[i]).spec_round() == (
            #[trigger] taken[j]).spec_round() ==> useful.index_of(taken[i].spec_author())
                <= useful.index_of(taken[j].spec_author()),
{
    if taken.contains(g) {
        let i = choose|i: int| 0 <= i < taken.len() && taken[i] == g;
        assert(is_eligible(known, upper, useful, taken[i]));
    }
}

/// When a block is about to go to a peer, the peer may not know what it did not know
/// before nor the ancestors of the block; genesis it knows, and of this node all up to
/// the block.
pub proof fn law_prepared(
    v: ConnectionView,
    own: AuthorityIndex,
    block_round: Round,
    ancestors: Seq<BlockRef>,
    g: GenericTransactionRef,
)
    requires
        g.spec_author() < v.headers_to.len(),
    ensures
        ({
            let p = prepared(v, own, block_round, ancestors);
            let news = g.spec_round() > 0 && (g.spec_author() == own ==> g.spec_round()
                > block_round);
            &&& p.headers.contains(g) <==> news && (v.headers.contains(g) || (
            g matches GenericTransactionRef::BlockRef(b) && ancestors.contains(b)))
            &&& p.shards.contains(g) <==> news && v.shards.contains(g)
            &&& p.headers_to == v.headers_to
            &&& p.shards_to == v.shards_to
            &&& p.headers_from == v.headers_from
            &&& p.shards_from == v.shards_from
        }),
{
    let list = as_generic(ancestors);
    if list.contains(g) {
        let i = choose|i: int| 0 <= i < list.len() && list[i] == g;
        assert(ancestors[i] == g->BlockRef_0);
        assert(ancestors.contains(g->BlockRef_0));
    }
    if let GenericTransactionRef::BlockRef(b) = g {
        if ancestors.contains(b) {
            let i = choose|i: int| 0 <= i < ancestors.len() && ancestors[i] == b;
            assert(list[i] == g);
        }
    }
}

/// A list without its gaps, piece by piece.
pub proof fn law_present<T>(a: Seq<Option<T>>, b: Seq<Option<T>>, x: Option<T>)
    ensures
        present(a + b) == present(a) + present(b),
        present(seq![x]) == match x {
            Some(y) => seq![y],
            None => Seq::empty(),
        },
    decreases b.len(),
{
    reveal_with_fuel(present, 2);
    assert(seq![x].drop_last() =~= Seq::empty());
    assert(present(seq![x]) =~= match x {
        Some(y) => seq![y],
        None => Seq::empty(),
    });
    if b.len() == 0 {
        assert(a + b =~= a);
        assert(present(a) + present(b) =~= present(a));
    } else {
        law_present(a, b.drop_last(), x);
        assert((a + b).drop_last() =~= a + b.drop_last());
        assert((a + b).last() == b.last());
        assert(present(a + b) =~= present(a) + present(b));
    }
}

proof fn lemma_present<T>(s: Seq<Option<T>>, x: T)
    ensures
        present(s).contains(x) <==> s.contains(Some(x)),
    decreases s.len(),
{
    if s.len() > 0 {
        let d = s.drop_last();
        lemma_present(d, x);
        let p = present(d);
        let q = present(s);
        if p.contains(x) {
            let i = choose|i: int| 0 <= i < p.len() && p[i] == x;
            assert(q[i] == x);
            let j = choose|j: int| 0 <= j < d.len() && d[j] == Some(x);
            assert(s[j] == Some(x));
        }
        if s.last() == Some(x) {
            assert(q[p.len() as int] == x);
            assert(s[s.len() - 1] == Some(x));
        }
        if s.contains(Some(x)) {
            let j = choose|j: int| 0 <= j < s.len() && s[j] == Some(x);
            if j < d.len() {
                assert(d[j] == Some(x));
            }
        }
        if q.contains(x) {
            let i = choose|i: int| 0 <= i < q.len() && q[i] == x;
            if i < p.len() {
                assert(p[i] == x);
            }
        }
    }
}

/// The bundle holds the block. It holds each header in memory that the peer may lack
/// and whose author was useful to it within forty rounds, as long as there is room, and
/// no other header; with shards it is the same. It tells whose headers and shards
/// have been useful to this node within forty rounds.
pub proof fn law_what_is_in_a_bundle(
    v: ConnectionView,
    own: AuthorityIndex,
    dag: DagState,
    block: VerifiedBlock,
    max_headers: nat,
    max_shards: nat,
    headers: Seq<BlockRef>,
    shards: Seq<GenericTransactionRef>,
    bundle: BlockBundle,
    r: BlockRef,
    g: GenericTransactionRef,
    a: AuthorityIndex,
)
    requires
        v.headers_to.len() <= 256,
        v.shards_to.len() == v.headers_to.len(),
        v.headers_from.len() == v.headers_to.len(),
        v.shards_from.len() == v.headers_to.len(),
        may_go_along(
            prepared(
                v,
                own,
                block.verified_block_header.reference.round,
                block.verified_block_header.ancestors@,
            ),
            block.verified_block_header.reference.round,
            max_headers,
            max_shards,
            headers,
            shards,
        ),
        is_bundle(v, dag, block, headers, shards, bundle),
    ensures
        bundle.verified_block == block,
        ({
            let round = block.verified_block_header.reference.round;
            let lacking = v.headers.contains(GenericTransactionRef::BlockRef(r))
                || block.verified_block_header.ancestors@.contains(r);
            let due = lacking && 0 < r.round < round && r.author < v.headers_to.len() && r.author
                != own && (v.headers_to[r.author as int] matches Some(last) && round - last <= 40);
            &&& due && headers.len() < max_headers && dag@.headers.dom().contains(r)
                ==> bundle.verified_headers@.contains(dag@.headers[r])
            &&& headers.contains(r) && r.author < v.headers_to.len() ==> due
            &&& forall|h: VerifiedBlockHeader| #[trigger]
                bundle.verified_headers@.contains(h) ==> exists|q: BlockRef| #[trigger]
                    headers.contains(q) && (q.round > 0 ==> dag@.headers.dom().contains(q)
                        && dag@.headers[q] == h)
        }),
        ({
            let round = block.verified_block_header.reference.round;
            let due = v.shards.contains(g) && 0 < g.spec_round() < round && g.spec_author()
                < v.shards_to.len() && g.spec_author() != own && (
            v.shards_to[g.spec_author() as int] matches Some(last) && round - last <= 40);
            &&& due && shards.len() < max_shards && dag@.shards[g.spec_author() as int].dom().contains(
                g,
            ) ==> bundle.serialized_shards@.contains(dag@.shards[g.spec_author() as int][g])
            &&& shards.contains(g) && g.spec_author() < v.shards_to.len() ==> due
        }),
        ({
            let round = block.verified_block_header.reference.round;
            &&& bundle.useful_headers_authors@.contains(a) <==> a < v.headers_from.len() && (
            v.headers_from[a as int] matches Some(last) && round - last <= 40)
            &&& bundle.useful_shards_authors@.contains(a) <==> a < v.shards_from.len() && (
            v.shards_from[a as int] matches Some(last) && round - last <= 40)
        }),
{
    let round = block.verified_block_header.reference.round;
    let ancestors = block.verified_block_header.ancestors@;
    let p = prepared(v, own, round, ancestors);
    let b = GenericTransactionRef::BlockRef(r);
    law_useful_authors(v.headers_to, round, r.author);
    law_useful_authors(v.shards_to, round, g.spec_author());
    law_useful_authors(v.headers_from, round, a);
    law_useful_authors(v.shards_from, round, a);
    let list = as_generic(headers);
    assert(headers.contains(r) <==> list.contains(b)) by {
        if headers.contains(r) {
            let i = choose|i: int| 0 <= i < headers.len() && headers[i] == r;
            assert(list[i] == b);
        }
        if list.contains(b) {
            let i = choose|i: int| 0 <= i < list.len() && list[i] == b;
            assert(headers[i] == r);
        }
    }
    law_what_is_taken(p.headers, round, useful_authors(v.headers_to, round), max_headers, list, b);
    law_what_is_taken(p.shards, round, useful_authors(v.shards_to, round), max_shards, shards, g);
    if r.author < v.headers_to.len() {
        law_prepared(v, own, round, ancestors, b);
    }
    if g.spec_author() < v.shards_to.len() {
        law_prepared(v, own, round, ancestors, g);
    }
    let found = headers.map_values(|r: BlockRef| dag.cached_header(r));
    if headers.contains(r) && r.round > 0 && dag@.headers.dom().contains(r) {
        let i = choose|i: int| 0 <= i < headers.len() && headers[i] == r;
        assert(found[i] == Some(dag@.headers[r]));
        lemma_present(found, dag@.headers[r]);
    }
    assert forall|h: VerifiedBlockHeader| #[trigger]
        bundle.verified_headers@.contains(h) implies exists|q: BlockRef| #[trigger]
        headers.contains(q) && (q.round > 0 ==> dag@.headers.dom().contains(q) && dag@.headers[q]
            == h) by {
        lemma_present(found, h);
        let i = choose|i: int| 0 <= i < found.len() && found[i] == Some(h);
        assert(headers.contains(headers[i]));
    }
    let got = shards.map_values(|k: GenericTransactionRef| dag.cached_shard(k));
    if shards.contains(g) && dag@.shards[g.spec_author() as int].dom().contains(g) {
        let i = choose|i: int| 0 <= i < shards.len() && shards[i] == g;
        let bytes = dag@.shards[g.spec_author() as int][g];
        assert(got[i] == Some(bytes));
        lemma_present(got, bytes);
    }
}

/// Is `new` the later of the two, where the first may be missing?
pub open spec fn is_later_of(old_round: Option<Round>, update: Round, new: Option<Round>) -> bool {
    &&& new matches Some(n)
    &&& n >= update
    &&& old_round matches Some(o) ==> n >= o
    &&& n == update || old_round == Some(n)
}

/// Rounds only rise, to exactly the later of the old and the new one.
pub proof fn law_rounds_only_rise(
    rounds: Seq<Option<Round>>,
    updates: Map<AuthorityIndex, Round>,
    each: Seq<Option<Round>>,
    a: AuthorityIndex,
)
    requires
        a < rounds.len(),
    ensures
        raised(rounds, updates).len() == rounds.len(),
        updates.dom().contains(a) ==> is_later_of(
            rounds[a as int],
            updates[a],
            raised(rounds, updates)[a as int],
        ),
        !updates.dom().contains(a) ==> raised(rounds, updates)[a as int] == rounds[a as int],
        raised_each(rounds, each).len() == rounds.len(),
        a < each.len() && each[a as int] is Some ==> is_later_of(
            rounds[a as int],
            each[a as int]->Some_0,
            raised_each(rounds, each)[a as int],
        ),
        a >= each.len() || each[a as int] is None ==> raised_each(rounds, each)[a as int]
            == rounds[a as int],
{
}

/// A message about a header changes what is unknown by that header alone, one about
/// a shard by that shard alone. An eviction forgets exactly what is up to the rounds
/// told. Useful authors raise the rounds of each kind with what is told of that kind.
pub proof fn law_what_messages_do(
    v: ConnectionView,
    m: ConnectionKnowledgeMessage,
    g: GenericTransactionRef,
)
    ensures
        match m {
            ConnectionKnowledgeMessage::NewHeader { block_ref } => {
                &&& informed(v, m).headers.contains(g) <==> v.headers.contains(g) || g
                    == GenericTransactionRef::BlockRef(block_ref)
                &&& informed(v, m).shards == v.shards
            },
            ConnectionKnowledgeMessage::RemoveHeader { block_ref } => {
                &&& informed(v, m).headers.contains(g) <==> v.headers.contains(g) && g
                    != GenericTransactionRef::BlockRef(block_ref)
                &&& informed(v, m).shards == v.shards
            },
            ConnectionKnowledgeMessage::NewShard { gen_tx_ref } => {
                &&& informed(v, m).shards.contains(g) <==> v.shards.contains(g) || g == gen_tx_ref
                &&& informed(v, m).headers == v.headers
            },
            ConnectionKnowledgeMessage::RemoveShard { gen_tx_ref } => {
                &&& informed(v, m).shards.contains(g) <==> v.shards.contains(g) && g != gen_tx_ref
                &&& informed(v, m).headers == v.headers
            },
            ConnectionKnowledgeMessage::UsefulAuthors {
                useful_headers_to_peer,
                useful_shards_to_peer,
                useful_headers_from_peer,
                useful_shards_from_peer,
            } => {
                &&& informed(v, m).headers == v.headers
                &&& informed(v, m).shards == v.shards
                &&& informed(v, m).headers_to == raised(v.headers_to, useful_headers_to_peer@)
                &&& informed(v, m).shards_to == raised(v.shards_to, useful_shards_to_peer@)
                &&& informed(v, m).headers_from == raised(
                    v.headers_from,
                    useful_headers_from_peer@,
                )
                &&& informed(v, m).shards_from == raised_each(
                    v.shards_from,
                    useful_shards_from_peer@,
                )
            },
            ConnectionKnowledgeMessage::EvictBelow(rounds) => {
                &&& informed(v, m).headers.contains(g) <==> v.headers.contains(g) && g.spec_round()
                    > rounds@[g.spec_author() as int]
                &&& informed(v, m).shards.contains(g) <==> v.shards.contains(g) && g.spec_round()
                    > rounds@[g.spec_author() as int]
            },
        },
        !(m is UsefulAuthors) ==> informed(v, m).headers_to == v.headers_to && informed(
            v,
            m,
        ).shards_to == v.shards_to && informed(v, m).headers_from == v.headers_from && informed(
            v,
            m,
        ).shards_from == v.shards_from,
{
}

/// Messages are taken in one after the other.
pub proof fn law_messages_in_order(
    v: ConnectionView,
    a: Seq<ConnectionKnowledgeMessage>,
    b: Seq<ConnectionKnowledgeMessage>,
    m: ConnectionKnowledgeMessage,
)
    ensures
        informed_by(v, Seq::empty()) == v,
        informed_by(v, seq![m]) == informed(v, m),
        informed_by(v, a + b) == informed_by(informed_by(v, a), b),
    decreases b.len(),
{
    reveal_with_fuel(informed_by, 2);
    assert(seq![m].drop_last() =~= Seq::empty());
    if b.len() == 0 {
        assert(a + b =~= a);
    } else {
        law_messages_in_order(v, a, b.drop_last(), m);
        assert((a + b).drop_last() =~= a + b.drop_last());
        assert((a + b).last() == b.last());
    }
}

/// Each author of a header is listed with the latest of the rounds of its headers, and
/// nobody else is.
pub proof fn law_latest_rounds(headers: Seq<VerifiedBlockHeader>, a: AuthorityIndex)
    ensures
        latest_rounds(headers).dom().contains(a) <==> exists|i: int|
            0 <= i < headers.len() && (#[trigger] headers[i]).reference.author == a,
        latest_rounds(headers).dom().contains(a) ==> {
            &&& exists|i: int|
                0 <= i < headers.len() && (#[trigger] headers[i]).reference.author == a
                    && headers[i].reference.round == latest_rounds(headers)[a]
            &&& forall|i: int|
                0 <= i < headers.len() && (#[trigger] headers[i]).reference.author == a
                    ==> headers[i].reference.round <= latest_rounds(headers)[a]
        },
    decreases headers.len(),
{
    if headers.len() > 0 {
        let d = headers.drop_last();
        let n = headers.len() - 1;
        law_latest_rounds(d, a);
        let rest = latest_rounds(d);
        let all = latest_rounds(headers);
        if rest.dom().contains(a) {
            let i = choose|i: int|
                0 <= i < d.len() && (#[trigger] d[i]).reference.author == a
                    && d[i].reference.round == rest[a];
            assert(headers[i] == d[i]);
        }
        if headers[n].reference.author == a {
            assert(all.dom().contains(a));
        }
        if exists|i: int|
            0 <= i < headers.len() && (#[trigger] headers[i]).reference.author == a {
            let i = choose|i: int|
                0 <= i < headers.len() && (#[trigger] headers[i]).reference.author == a;
            if i < n {
                assert(d[i].reference.author == a);
            }
        }
        assert forall|i: int|
            0 <= i < headers.len() && (
            #[trigger] headers[i]).reference.author == a implies headers[i].reference.round
            <= all[a] by {
            if i < n {
                assert(d[i] == headers[i]);
            }
        }
    }
}

/// The authors that a bundle brought news of are those of its headers and of the
/// ancestors that are missing; each gets the same round.
pub proof fn law_authors_of(
    headers: Seq<VerifiedBlockHeader>,
    missing: Set<BlockRef>,
    round: Round,
    a: AuthorityIndex,
)
    ensures
        all_at(authors_of(headers, missing), round).dom().contains(a) <==> (exists|i: int|
            0 <= i < headers.len() && (#[trigger] headers[i]).reference.author == a) || (exists|
            b: BlockRef,
        | #[trigger] missing.contains(b) && b.author == a),
        all_at(authors_of(headers, missing), round).dom().contains(a) ==> all_at(
            authors_of(headers, missing),
            round,
        )[a] == round,
{
}

} // verus!
