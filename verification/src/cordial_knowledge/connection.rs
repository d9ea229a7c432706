//! What is known of one peer: which headers and shards it has not got, and
//! whose it finds useful.
use vstd::prelude::*;

use crate::cordial_knowledge::global::{raised, update_authority_rounds_if_greater};
use crate::cordial_knowledge::messages::{ConnectionKnowledgeMessage, CordialKnowledgeMessage};
use crate::cordial_knowledge::unknown::{
    are_first_eligible, is_eligible, UnknownRefs,
};
use crate::dag_state::state::DagState;
use crate::header::{Bytes, VerifiedBlock, VerifiedBlockHeader};
use crate::refs::{AuthorityIndex, BlockRef, GenericTransactionRef, Round};
use crate::sorted::{SortedMap, SortedSet};

verus! {

/// For how many rounds an author stays useful.
pub const MAX_ROUND_GAP_FOR_USEFUL_PARTS: Round = 40;

/// A block with the headers and shards that go to a peer along with it.
pub struct BlockBundle {
    pub verified_block: VerifiedBlock,
    pub verified_headers: Vec<VerifiedBlockHeader>,
    pub serialized_shards: Vec<Bytes>,
    /// Whose headers from the peer would be useful.
    pub useful_headers_authors: SortedSet<AuthorityIndex>,
    /// Whose shards from the peer would be useful.
    pub useful_shards_authors: SortedSet<AuthorityIndex>,
}

/// What is known of a peer.
pub struct ConnectionView {
    /// The headers that it does not know yet.
    pub headers: Set<GenericTransactionRef>,
    /// The shards that it does not know yet.
    pub shards: Set<GenericTransactionRef>,
    /// When an author's headers were last useful to it.
    pub headers_to: Seq<Option<Round>>,
    /// When an author's shards were last useful to it.
    pub shards_to: Seq<Option<Round>>,
    /// When an author's headers from it were last useful.
    pub headers_from: Seq<Option<Round>>,
    /// When an author's shards from it were last useful.
    pub shards_from: Seq<Option<Round>>,
}

/// The rounds, each raised where there is a later one at its place.
pub open spec fn raised_each(
    rounds: Seq<Option<Round>>,
    updates: Seq<Option<Round>>,
) -> Seq<Option<Round>> {
    Seq::new(
        rounds.len(),
        |a: int|
            if a < updates.len() && updates[a] is Some {
                crate::cordial_knowledge::global::later(rounds[a], updates[a]->Some_0)
            } else {
                rounds[a]
            },
    )
}

/// The references of rounds after those given for their authors.
pub open spec fn after_rounds(
    refs: Set<GenericTransactionRef>,
    rounds: Seq<Round>,
) -> Set<GenericTransactionRef> {
    refs.filter(|g: GenericTransactionRef| g.spec_round() > rounds[g.spec_author() as int])
}

/// What is known of the peer after a message.
pub open spec fn informed(v: ConnectionView, m: ConnectionKnowledgeMessage) -> ConnectionView {
    match m {
        ConnectionKnowledgeMessage::NewHeader { block_ref } => ConnectionView {
            headers: v.headers.insert(GenericTransactionRef::BlockRef(block_ref)),
            ..v
        },
        ConnectionKnowledgeMessage::RemoveHeader { block_ref } => ConnectionView {
            headers: v.headers.remove(GenericTransactionRef::BlockRef(block_ref)),
            ..v
        },
        ConnectionKnowledgeMessage::NewShard { gen_tx_ref } => ConnectionView {
            shards: v.shards.insert(gen_tx_ref),
            ..v
        },
        ConnectionKnowledgeMessage::RemoveShard { gen_tx_ref } => ConnectionView {
            shards: v.shards.remove(gen_tx_ref),
            ..v
        },
        ConnectionKnowledgeMessage::UsefulAuthors {
            useful_headers_to_peer,
            useful_shards_to_peer,
            useful_headers_from_peer,
            useful_shards_from_peer,
        } => ConnectionView {
            headers_to: raised(v.headers_to, useful_headers_to_peer@),
            shards_to: raised(v.shards_to, useful_shards_to_peer@),
            headers_from: raised(v.headers_from, useful_headers_from_peer@),
            shards_from: raised_each(v.shards_from, useful_shards_from_peer@),
            ..v
        },
        ConnectionKnowledgeMessage::EvictBelow(rounds) => ConnectionView {
            headers: after_rounds(v.headers, rounds@),
            shards: after_rounds(v.shards, rounds@),
            ..v
        },
    }
}

/// What is known of the peer after some messages.
pub open spec fn informed_by(
    v: ConnectionView,
    messages: Seq<ConnectionKnowledgeMessage>,
) -> ConnectionView
    decreases messages.len(),
{
    if messages.len() == 0 {
        v
    } else {
        informed(informed_by(v, messages.drop_last()), messages.last())
    }
}

/// Is the map well formed, and about the first `n` authorities only?
pub open spec fn is_about(m: SortedMap<AuthorityIndex, Round>, n: usize) -> bool {
    &&& m.wf()
    &&& forall|a: AuthorityIndex| #[trigger] m@.dom().contains(a) ==> a < n
}

/// Can the message be taken in? What it names has to be of the committee.
pub open spec fn is_acceptable(m: ConnectionKnowledgeMessage, n: usize) -> bool {
    match m {
        ConnectionKnowledgeMessage::NewHeader { block_ref } => block_ref.author < n,
        ConnectionKnowledgeMessage::RemoveHeader { block_ref } => block_ref.author < n,
        ConnectionKnowledgeMessage::NewShard { gen_tx_ref } => gen_tx_ref.spec_author() < n,
        ConnectionKnowledgeMessage::RemoveShard { gen_tx_ref } => gen_tx_ref.spec_author() < n,
        ConnectionKnowledgeMessage::UsefulAuthors {
            useful_headers_to_peer,
            useful_shards_to_peer,
            useful_headers_from_peer,
            useful_shards_from_peer,
        } => {
            &&& is_about(useful_headers_to_peer, n)
            &&& is_about(useful_shards_to_peer, n)
            &&& is_about(useful_headers_from_peer, n)
            &&& forall|i: int|
                n <= i < useful_shards_from_peer@.len()
                    ==> #[trigger] useful_shards_from_peer@[i] is None
        },
        ConnectionKnowledgeMessage::EvictBelow(rounds) => {
            &&& rounds@.len() >= n
            &&& forall|a: int| 0 <= a < n ==> (#[trigger] rounds@[a]) < Round::MAX
        },
    }
}

/// Is an author that was last useful in that round still so at the round of a
/// block?
pub open spec fn is_still_useful(last: Option<Round>, block_round: Round) -> bool {
    match last {
        Some(round) => round + MAX_ROUND_GAP_FOR_USEFUL_PARTS >= block_round,
        None => false,
    }
}

/// Those of the first `n` authors that are still useful, in ascending order.
pub open spec fn useful_among(rounds: Seq<Option<Round>>, block_round: Round, n: int) -> Seq<
    AuthorityIndex,
>
    decreases n,
{
    if n <= 0 {
        Seq::empty()
    } else {
        let rest = useful_among(rounds, block_round, n - 1);
        if is_still_useful(rounds[n - 1], block_round) {
            rest.push((n - 1) as AuthorityIndex)
        } else {
            rest
        }
    }
}

/// The authors that are still useful, in ascending order.
pub open spec fn useful_authors(rounds: Seq<Option<Round>>, block_round: Round) -> Seq<
    AuthorityIndex,
> {
    useful_among(rounds, block_round, rounds.len() as int)
}

/// The useful authors are listed, each once, all of them and no others.
pub proof fn lemma_useful_among(rounds: Seq<Option<Round>>, block_round: Round, n: int)
    requires
        0 <= n <= rounds.len(),
        n <= 256,
    ensures
        useful_among(rounds, block_round, n).no_duplicates(),
        forall|i: int|
            0 <= i < useful_among(rounds, block_round, n).len() ==> (#[trigger] useful_among(
                rounds,
                block_round,
                n,
            )[i]) < n,
        forall|a: AuthorityIndex| #[trigger]
            useful_among(rounds, block_round, n).contains(a) <==> a < n && is_still_useful(
                rounds[a as int],
                block_round,
            ),
    decreases n,
{
    if n > 0 {
        lemma_useful_among(rounds, block_round, n - 1);
        let rest = useful_among(rounds, block_round, n - 1);
        let all = useful_among(rounds, block_round, n);
        let last = (n - 1) as AuthorityIndex;
        assert forall|a: AuthorityIndex| #[trigger] all.contains(a) <==> a < n && is_still_useful(
            rounds[a as int],
            block_round,
        ) by {
            assert(rest.contains(a) <==> a < n - 1 && is_still_useful(
                rounds[a as int],
                block_round,
            ));
            if is_still_useful(rounds[n - 1], block_round) {
                if a == last {
                    assert(all[rest.len() as int] == a);
                }
                if rest.contains(a) {
                    let i = choose|i: int| 0 <= i < rest.len() && rest[i] == a;
                    assert(all[i] == a);
                }
                if all.contains(a) && a != last {
                    let i = choose|i: int| 0 <= i < all.len() && all[i] == a;
                    assert(rest[i] == a);
                }
            }
        }
    }
}

/// The authors that are still useful, as a list.
fn list_useful(rounds: &Vec<Option<Round>>, block_round: Round) -> (r: Vec<AuthorityIndex>)
    requires
        rounds@.len() <= 256,
    ensures
        r@ == useful_authors(rounds@, block_round),
{
    let mut r: Vec<AuthorityIndex> = Vec::new();
    let mut i: usize = 0;
    while i < rounds.len()
        invariant
            rounds@.len() <= 256,
            i <= rounds@.len(),
            r@ == useful_among(rounds@, block_round, i as int),
        decreases rounds@.len() - i,
    {
        let still_useful = match rounds[i] {
            Some(round) => round.saturating_add(MAX_ROUND_GAP_FOR_USEFUL_PARTS) >= block_round,
            None => false,
        };
        if still_useful {
            r.push(i as AuthorityIndex);
        }
        i = i + 1;
    }
    r
}

/// What is there of a list.
pub open spec fn present<T>(s: Seq<Option<T>>) -> Seq<T>
    decreases s.len(),
{
    if s.len() == 0 {
        Seq::empty()
    } else {
        match s.last() {
            Some(x) => present(s.drop_last()).push(x),
            None => present(s.drop_last()),
        }
    }
}

/// Keeps what is there.
fn flatten<T>(list: Vec<Option<T>>) -> (r: Vec<T>)
    ensures
        r@ == present(list@),
{
    let ghost all = list@;
    let mut rest: Vec<Option<T>> = list;
    let mut reversed: Vec<T> = Vec::new();
    while rest.len() > 0
        invariant
            rest@.len() <= all.len(),
            rest@ == all.take(rest@.len() as int),
            present(all) == present(rest@) + reversed@.reverse(),
        decreases rest@.len(),
    {
        let ghost was = rest@;
        let ghost tail = reversed@.reverse();
        let last = rest.pop();
        proof {
            assert(rest@ =~= was.drop_last());
            assert(rest@ =~= all.take(rest@.len() as int));
        }
        match last {
            Some(Some(x)) => {
                reversed.push(x);
                proof {
                    assert(reversed@.reverse() =~= seq![x] + tail);
                    assert(present(was) + tail =~= present(rest@) + (seq![x] + tail));
                }
            },
            _ => {},
        }
    }
    let mut r: Vec<T> = Vec::new();
    let ghost goal = reversed@.reverse();
    let ghost back = reversed@;
    assert(goal =~= present(all));
    assert(r@ + reversed@.reverse() =~= goal);
    while reversed.len() > 0
        invariant
            r@ + reversed@.reverse() == goal,
        decreases reversed@.len(),
    {
        let ghost was = reversed@;
        let ghost sofar = r@;
        match reversed.pop() {
            Some(x) => {
                r.push(x);
                proof {
                    assert(was.reverse() =~= seq![x] + reversed@.reverse());
                    assert(sofar + (seq![x] + reversed@.reverse()) =~= r@ + reversed@.reverse());
                }
            },
            None => {},
        }
    }
    assert(r@ =~= goal);
    r
}

/// The headers, each by a reference that may also be one to transactions.
pub open spec fn as_generic(refs: Seq<BlockRef>) -> Seq<GenericTransactionRef> {
    refs.map_values(|r: BlockRef| GenericTransactionRef::BlockRef(r))
}

/// Up to which round a peer that gets a block of this node knows the others.
pub open spec fn known_rounds(n: nat, own: AuthorityIndex, block_round: Round) -> Seq<Round> {
    Seq::new(
        n,
        |a: int|
            if a == own {
                block_round
            } else {
                0
            },
    )
}

/// What is known of the peer once a block is about to go to it: its ancestors
/// may be unknown, and the node's own headers and shards up to it are known, as
/// is genesis.
pub open spec fn prepared(
    v: ConnectionView,
    own: AuthorityIndex,
    block_round: Round,
    ancestors: Seq<BlockRef>,
) -> ConnectionView {
    let rounds = known_rounds(v.headers_to.len(), own, block_round);
    ConnectionView {
        headers: after_rounds(v.headers.union(as_generic(ancestors).to_set()), rounds),
        shards: after_rounds(v.shards, rounds),
        ..v
    }
}

/// Are these the headers and shards to go along with a block?
pub open spec fn may_go_along(
    v: ConnectionView,
    block_round: Round,
    max_headers: nat,
    max_shards: nat,
    headers: Seq<BlockRef>,
    shards: Seq<GenericTransactionRef>,
) -> bool {
    &&& are_first_eligible(
        v.headers,
        block_round,
        useful_authors(v.headers_to, block_round),
        max_headers,
        as_generic(headers),
    )
    &&& are_first_eligible(
        v.shards,
        block_round,
        useful_authors(v.shards_to, block_round),
        max_shards,
        shards,
    )
}

/// Is this the bundle of a block with these headers and shards, as far as they
/// are still in memory?
pub open spec fn is_bundle(
    v: ConnectionView,
    dag: DagState,
    block: VerifiedBlock,
    headers: Seq<BlockRef>,
    shards: Seq<GenericTransactionRef>,
    bundle: BlockBundle,
) -> bool {
    let block_round = block.verified_block_header.reference.round;
    &&& bundle.verified_block == block
    &&& bundle.verified_headers@ == present(headers.map_values(|r: BlockRef| dag.cached_header(r)))
    &&& bundle.serialized_shards@ == present(
        shards.map_values(|k: GenericTransactionRef| dag.cached_shard(k)),
    )
    &&& bundle.useful_headers_authors.wf()
    &&& bundle.useful_headers_authors@ == useful_authors(v.headers_from, block_round).to_set()
    &&& bundle.useful_shards_authors.wf()
    &&& bundle.useful_shards_authors@ == useful_authors(v.shards_from, block_round).to_set()
}

/// What is known of the peer of one connection.
pub struct ConnectionKnowledge {
    pub own_index: AuthorityIndex,
    pub peer: AuthorityIndex,
    pub committee_size: usize,
    pub max_headers_per_bundle: usize,
    pub max_shards_per_bundle: usize,
    pub headers_not_known: UnknownRefs,
    pub shards_not_known: UnknownRefs,
    pub last_useful_shards_to_peer_round: Vec<Option<Round>>,
    pub last_useful_headers_to_peer_round: Vec<Option<Round>>,
    pub last_useful_shards_from_peer_round: Vec<Option<Round>>,
    pub last_useful_headers_from_peer_round: Vec<Option<Round>>,
}

impl ConnectionKnowledge {
    pub open spec fn view(self) -> ConnectionView {
        ConnectionView {
            headers: self.headers_not_known@,
            shards: self.shards_not_known@,
            headers_to: self.last_useful_headers_to_peer_round@,
            shards_to: self.last_useful_shards_to_peer_round@,
            headers_from: self.last_useful_headers_from_peer_round@,
            shards_from: self.last_useful_shards_from_peer_round@,
        }
    }

    pub open spec fn wf(self) -> bool {
        let n = self.committee_size;
        &&& n <= 256
        &&& self.own_index < n
        &&& self.headers_not_known.wf()
        &&& self.headers_not_known.maps@.len() == n
        &&& forall|g: GenericTransactionRef| #[trigger]
            self.headers_not_known@.contains(g) ==> g is BlockRef
        &&& self.shards_not_known.wf()
        &&& self.shards_not_known.maps@.len() == n
        &&& self.last_useful_shards_to_peer_round@.len() == n
        &&& self.last_useful_headers_to_peer_round@.len() == n
        &&& self.last_useful_shards_from_peer_round@.len() == n
        &&& self.last_useful_headers_from_peer_round@.len() == n
    }

    /// Is it about the same peer, with the same limits?
    pub open spec fn same_peer(self, other: Self) -> bool {
        &&& self.own_index == other.own_index
        &&& self.peer == other.peer
        &&& self.committee_size == other.committee_size
        &&& self.max_headers_per_bundle == other.max_headers_per_bundle
        &&& self.max_shards_per_bundle == other.max_shards_per_bundle
    }

    /// Nothing is known of the peer.
    pub fn new(
        own_index: AuthorityIndex,
        peer: AuthorityIndex,
        committee_size: usize,
        max_headers_per_bundle: usize,
        max_shards_per_bundle: usize,
    ) -> (r: Self)
        requires
            own_index < committee_size <= 256,
        ensures
            r.wf(),
            r.own_index == own_index,
            r.peer == peer,
            r.committee_size == committee_size,
            r.max_headers_per_bundle == max_headers_per_bundle,
            r.max_shards_per_bundle == max_shards_per_bundle,
            r@ == ({
                let never = Seq::new(committee_size as nat, |a: int| None);
                ConnectionView {
                    headers: Set::empty(),
                    shards: Set::empty(),
                    headers_to: never,
                    shards_to: never,
                    headers_from: never,
                    shards_from: never,
                }
            }),
    {
        ConnectionKnowledge {
            own_index,
            peer,
            committee_size,
            max_headers_per_bundle,
            max_shards_per_bundle,
            headers_not_known: UnknownRefs::new(committee_size),
            shards_not_known: UnknownRefs::new(committee_size),
            last_useful_shards_to_peer_round: no_rounds(committee_size),
            last_useful_headers_to_peer_round: no_rounds(committee_size),
            last_useful_shards_from_peer_round: no_rounds(committee_size),
            last_useful_headers_from_peer_round: no_rounds(committee_size),
        }
    }

    /// A header that the peer may not know.
    pub fn handle_new_header(&mut self, block_ref: BlockRef)
        requires
            old(self).wf(),
            block_ref.author < old(self).committee_size,
        ensures
            final(self).wf(),
            final(self).same_peer(*old(self)),
            final(self)@ == informed(
                old(self)@,
                ConnectionKnowledgeMessage::NewHeader { block_ref },
            ),
    {
        self.headers_not_known.insert(&GenericTransactionRef::BlockRef(block_ref));
    }

    /// A header that the peer knows now.
    pub fn handle_remove_header(&mut self, block_ref: BlockRef)
        requires
            old(self).wf(),
            block_ref.author < old(self).committee_size,
        ensures
            final(self).wf(),
            final(self).same_peer(*old(self)),
            final(self)@ == informed(
                old(self)@,
                ConnectionKnowledgeMessage::RemoveHeader { block_ref },
            ),
    {
        self.headers_not_known.remove(&GenericTransactionRef::BlockRef(block_ref));
    }

    /// A shard that the peer may not know.
    pub fn handle_new_shard(&mut self, gen_tx_ref: GenericTransactionRef)
        requires
            old(self).wf(),
            gen_tx_ref.spec_author() < old(self).committee_size,
        ensures
            final(self).wf(),
            final(self).same_peer(*old(self)),
            final(self)@ == informed(
                old(self)@,
                ConnectionKnowledgeMessage::NewShard { gen_tx_ref },
            ),
    {
        self.shards_not_known.insert(&gen_tx_ref);
    }

    /// A shard that the peer has no use for now.
    pub fn handle_remove_shard(&mut self, gen_tx_ref: GenericTransactionRef)
        requires
            old(self).wf(),
            gen_tx_ref.spec_author() < old(self).committee_size,
        ensures
            final(self).wf(),
            final(self).same_peer(*old(self)),
            final(self)@ == informed(
                old(self)@,
                ConnectionKnowledgeMessage::RemoveShard { gen_tx_ref },
            ),
    {
        self.shards_not_known.remove(&gen_tx_ref);
    }

    /// Forgets the headers and shards of rounds up to those given.
    pub fn evict_below(&mut self, evicted_rounds: &Vec<Round>)
        requires
            old(self).wf(),
            evicted_rounds@.len() >= old(self).committee_size,
            forall|a: int|
                0 <= a < old(self).committee_size ==> (#[trigger] evicted_rounds@[a]) < Round::MAX,
        ensures
            final(self).wf(),
            final(self).same_peer(*old(self)),
            final(self)@ == (ConnectionView {
                headers: after_rounds(old(self)@.headers, evicted_rounds@),
                shards: after_rounds(old(self)@.shards, evicted_rounds@),
                ..old(self)@
            }),
    {
        self.headers_not_known.evict_below(evicted_rounds);
        self.shards_not_known.evict_below(evicted_rounds);
    }

    /// Raises the rounds in which shards from the peer were useful.
    pub fn handle_useful_shards_from(&mut self, useful_shards_from_peer_round: &Vec<Option<Round>>)
        requires
            old(self).wf(),
            forall|i: int|
                old(self).committee_size <= i < useful_shards_from_peer_round@.len()
                    ==> #[trigger] useful_shards_from_peer_round@[i] is None,
        ensures
            final(self).wf(),
            final(self).same_peer(*old(self)),
            final(self)@ == (ConnectionView {
                shards_from: raised_each(old(self)@.shards_from, useful_shards_from_peer_round@),
                ..old(self)@
            }),
    {
        let ghost before = *self;
        let n: usize = self.committee_size;
        let mut i: usize = 0;
        assert(raised_each(before@.shards_from, useful_shards_from_peer_round@.take(0))
            =~= before@.shards_from);
        while i < useful_shards_from_peer_round.len()
            invariant
                before.wf(),
                self.wf(),
                self.same_peer(before),
                n == self.committee_size,
                forall|i: int|
                    n <= i < useful_shards_from_peer_round@.len()
                        ==> #[trigger] useful_shards_from_peer_round@[i] is None,
                i <= useful_shards_from_peer_round@.len(),
                self@ == (ConnectionView {
                    shards_from: raised_each(
                        before@.shards_from,
                        useful_shards_from_peer_round@.take(i as int),
                    ),
                    ..before@
                }),
            decreases useful_shards_from_peer_round@.len() - i,
        {
            let ghost mid = *self;
            if let Some(new_round) = useful_shards_from_peer_round[i] {
                let raise = match self.last_useful_shards_from_peer_round[i] {
                    Some(old_round) => old_round < new_round,
                    None => true,
                };
                if raise {
                    self.last_useful_shards_from_peer_round.set(i, Some(new_round));
                }
            }
            proof {
                let was = useful_shards_from_peer_round@.take(i as int);
                let now = useful_shards_from_peer_round@.take(i + 1);
                let goal = raised_each(before@.shards_from, now);
                assert forall|a: int| 0 <= a < n implies #[trigger] self@.shards_from[a]
                    == goal[a] by {
                    assert(mid@.shards_from[a] == raised_each(before@.shards_from, was)[a]);
                    if a != i {
                        assert(self@.shards_from[a] == mid@.shards_from[a]);
                    }
                }
                assert(self@.shards_from =~= goal);
            }
            i = i + 1;
        }
        assert(useful_shards_from_peer_round@.take(i as int) =~= useful_shards_from_peer_round@);
    }

    /// Raises the rounds in which headers from the peer were useful.
    pub fn handle_useful_headers_from(
        &mut self,
        authorities_with_round: &SortedMap<AuthorityIndex, Round>,
    )
        requires
            old(self).wf(),
            is_about(*authorities_with_round, old(self).committee_size),
        ensures
            final(self).wf(),
            final(self).same_peer(*old(self)),
            final(self)@ == (ConnectionView {
                headers_from: raised(old(self)@.headers_from, authorities_with_round@),
                ..old(self)@
            }),
    {
        update_authority_rounds_if_greater(
            &mut self.last_useful_headers_from_peer_round,
            authorities_with_round,
        );
    }

    /// Raises the rounds in which shards were useful to the peer.
    pub fn handle_useful_shards_to(
        &mut self,
        authorities_with_round: &SortedMap<AuthorityIndex, Round>,
    )
        requires
            old(self).wf(),
            is_about(*authorities_with_round, old(self).committee_size),
        ensures
            final(self).wf(),
            final(self).same_peer(*old(self)),
            final(self)@ == (ConnectionView {
                shards_to: raised(old(self)@.shards_to, authorities_with_round@),
                ..old(self)@
            }),
    {
        update_authority_rounds_if_greater(
            &mut self.last_useful_shards_to_peer_round,
            authorities_with_round,
        );
    }

    /// Raises the rounds in which headers were useful to the peer.
    pub fn handle_useful_headers_to(
        &mut self,
        authorities_with_round: &SortedMap<AuthorityIndex, Round>,
    )
        requires
            old(self).wf(),
            is_about(*authorities_with_round, old(self).committee_size),
        ensures
            final(self).wf(),
            final(self).same_peer(*old(self)),
            final(self)@ == (ConnectionView {
                headers_to: raised(old(self)@.headers_to, authorities_with_round@),
                ..old(self)@
            }),
    {
        update_authority_rounds_if_greater(
            &mut self.last_useful_headers_to_peer_round,
            authorities_with_round,
        );
    }

    /// Takes in a message.
    pub fn process_one_message(&mut self, message: &ConnectionKnowledgeMessage)
        requires
            old(self).wf(),
            is_acceptable(*message, old(self).committee_size),
        ensures
            final(self).wf(),
            final(self).same_peer(*old(self)),
            final(self)@ == informed(old(self)@, *message),
    {
        match message {
            ConnectionKnowledgeMessage::NewHeader { block_ref } => {
                self.handle_new_header(*block_ref);
            },
            ConnectionKnowledgeMessage::RemoveHeader { block_ref } => {
                self.handle_remove_header(*block_ref);
            },
            ConnectionKnowledgeMessage::NewShard { gen_tx_ref } => {
                self.handle_new_shard(*gen_tx_ref);
            },
            ConnectionKnowledgeMessage::RemoveShard { gen_tx_ref } => {
                self.handle_remove_shard(*gen_tx_ref);
            },
            ConnectionKnowledgeMessage::EvictBelow(rounds) => {
                self.evict_below(rounds);
            },
            ConnectionKnowledgeMessage::UsefulAuthors {
                useful_headers_to_peer,
                useful_shards_to_peer,
                useful_headers_from_peer,
                useful_shards_from_peer,
            } => {
                self.handle_useful_headers_to(useful_headers_to_peer);
                self.handle_useful_shards_to(useful_shards_to_peer);
                self.handle_useful_headers_from(useful_headers_from_peer);
                self.handle_useful_shards_from(useful_shards_from_peer);
            },
        }
    }

    /// Takes in messages one by one.
    pub fn process_vec_messages(&mut self, msgs: &Vec<ConnectionKnowledgeMessage>)
        requires
            old(self).wf(),
            forall|i: int|
                0 <= i < msgs@.len() ==> is_acceptable(
                    #[trigger] msgs@[i],
                    old(self).committee_size,
                ),
        ensures
            final(self).wf(),
            final(self).same_peer(*old(self)),
            final(self)@ == informed_by(old(self)@, msgs@),
    {
        let ghost before = *self;
        let mut i: usize = 0;
        while i < msgs.len()
            invariant
                self.wf(),
                self.same_peer(before),
                forall|i: int|
                    0 <= i < msgs@.len() ==> is_acceptable(
                        #[trigger] msgs@[i],
                        before.committee_size,
                    ),
                i <= msgs@.len(),
                self@ == informed_by(before@, msgs@.take(i as int)),
            decreases msgs@.len() - i,
        {
            self.process_one_message(&msgs[i]);
            i = i + 1;
            assert(msgs@.take(i as int).drop_last() =~= msgs@.take(i - 1));
        }
        assert(msgs@.take(i as int) =~= msgs@);
    }

    /// How many headers and how many shards the peer does not know yet.
    pub fn sizes(&self) -> (r: (usize, usize))
        requires
            self.wf(),
        ensures
            self@.headers.len() <= usize::MAX ==> r.0 == self@.headers.len(),
            self@.shards.len() <= usize::MAX ==> r.1 == self@.shards.len(),
    {
        (self.headers_not_known.count(), self.shards_not_known.count())
    }

    /// Takes the headers that may go to the peer.
    fn take_useful_header_block_refs_round(
        &mut self,
        round_upper_bound_exclusive: Round,
        useful_authorities: &Vec<AuthorityIndex>,
    ) -> (r: Vec<BlockRef>)
        requires
            old(self).wf(),
            forall|i: int|
                0 <= i < useful_authorities@.len() ==> (#[trigger] useful_authorities@[i]) < old(
                    self,
                ).committee_size,
            useful_authorities@.no_duplicates(),
        ensures
            final(self).wf(),
            final(self).same_peer(*old(self)),
            are_first_eligible(
                old(self)@.headers,
                round_upper_bound_exclusive,
                useful_authorities@,
                old(self).max_headers_per_bundle as nat,
                as_generic(r@),
            ),
            final(self)@ == (ConnectionView {
                headers: old(self)@.headers.difference(as_generic(r@).to_set()),
                ..old(self)@
            }),
    {
        let ghost before = *self;
        let taken = self.headers_not_known.take_useful_refs_round(
            round_upper_bound_exclusive,
            useful_authorities,
            self.max_headers_per_bundle,
        );
        let mut r: Vec<BlockRef> = Vec::new();
        let mut i: usize = 0;
        while i < taken.len()
            invariant
                before.wf(),
                forall|j: int|
                    0 <= j < taken@.len() ==> before.headers_not_known@.contains(
                        #[trigger] taken@[j],
                    ),
                i <= taken@.len(),
                r@.len() == i,
                forall|j: int|
                    0 <= j < i ==> #[trigger] taken@[j] == GenericTransactionRef::BlockRef(r@[j]),
            decreases taken@.len() - i,
        {
            assert(taken@[i as int] is BlockRef);
            if let GenericTransactionRef::BlockRef(b) = taken[i] {
                r.push(b);
            }
            i = i + 1;
        }
        assert(as_generic(r@) =~= taken@);
        r
    }

    /// Takes the shards that may go to the peer.
    fn take_useful_shard_block_refs_round(
        &mut self,
        round_upper_bound_exclusive: Round,
        useful_authorities: &Vec<AuthorityIndex>,
    ) -> (r: Vec<GenericTransactionRef>)
        requires
            old(self).wf(),
            forall|i: int|
                0 <= i < useful_authorities@.len() ==> (#[trigger] useful_authorities@[i]) < old(
                    self,
                ).committee_size,
            useful_authorities@.no_duplicates(),
        ensures
            final(self).wf(),
            final(self).same_peer(*old(self)),
            are_first_eligible(
                old(self)@.shards,
                round_upper_bound_exclusive,
                useful_authorities@,
                old(self).max_shards_per_bundle as nat,
                r@,
            ),
            final(self)@ == (ConnectionView {
                shards: old(self)@.shards.difference(r@.to_set()),
                ..old(self)@
            }),
    {
        self.shards_not_known.take_useful_refs_round(
            round_upper_bound_exclusive,
            useful_authorities,
            self.max_shards_per_bundle,
        )
    }

    /// Makes the bundle of a block for the peer: with headers and shards that
    /// it does not know and that are useful to it, which then count as known.
    pub fn create_bundle(&mut self, block: VerifiedBlock, dag_state: &DagState) -> (bundle:
        BlockBundle)
        requires
            old(self).wf(),
            dag_state.wf(),
            dag_state.config.committee.stakes@.len() == old(self).committee_size,
            block.verified_block_header.reference.round < Round::MAX,
            forall|i: int|
                0 <= i < block.verified_block_header.ancestors@.len() ==> (
                #[trigger] block.verified_block_header.ancestors@[i]).author < old(
                    self,
                ).committee_size,
        ensures
            final(self).wf(),
            final(self).same_peer(*old(self)),
            exists|headers: Seq<BlockRef>, shards: Seq<GenericTransactionRef>|
                {
                    let v = prepared(
                        old(self)@,
                        old(self).own_index,
                        block.verified_block_header.reference.round,
                        block.verified_block_header.ancestors@,
                    );
                    &&& may_go_along(
                        v,
                        block.verified_block_header.reference.round,
                        old(self).max_headers_per_bundle as nat,
                        old(self).max_shards_per_bundle as nat,
                        headers,
                        shards,
                    )
                    &&& #[trigger] is_bundle(
                        old(self)@,
                        *dag_state,
                        block,
                        headers,
                        shards,
                        bundle,
                    )
                    &&& final(self)@ == (ConnectionView {
                        headers: v.headers.difference(as_generic(headers).to_set()),
                        shards: v.shards.difference(shards.to_set()),
                        ..v
                    })
                },
    {
        let ghost before = *self;
        let ghost header = block.verified_block_header;
        let block_round = block.verified_block_header.reference.round;
        let n: usize = self.committee_size;
        let mut i: usize = 0;
        assert(before@.headers.union(as_generic(header.ancestors@.take(0)).to_set())
            =~= before@.headers);
        while i < block.verified_block_header.ancestors.len()
            invariant
                self.wf(),
                self.same_peer(before),
                header == block.verified_block_header,
                forall|i: int|
                    0 <= i < header.ancestors@.len() ==> (#[trigger] header.ancestors@[i]).author
                        < before.committee_size,
                i <= header.ancestors@.len(),
                self@ == (ConnectionView {
                    headers: before@.headers.union(
                        as_generic(header.ancestors@.take(i as int)).to_set(),
                    ),
                    ..before@
                }),
            decreases header.ancestors@.len() - i,
        {
            let ancestor = block.verified_block_header.ancestors[i];
            self.handle_new_header(ancestor);
            proof {
                let was = as_generic(header.ancestors@.take(i as int));
                let now = as_generic(header.ancestors@.take(i + 1));
                assert(now =~= was.push(GenericTransactionRef::BlockRef(ancestor)));
                lemma_push_to_set(was, GenericTransactionRef::BlockRef(ancestor));
                assert(self@.headers =~= before@.headers.union(now.to_set()));
            }
            i = i + 1;
        }
        assert(header.ancestors@.take(i as int) =~= header.ancestors@);
        let mut rounds: Vec<Round> = Vec::new();
        let mut a: usize = 0;
        while a < n
            invariant
                a <= n,
                rounds@.len() == a,
                forall|b: int|
                    0 <= b < a ==> #[trigger] rounds@[b] == if b == self.own_index {
                        block_round
                    } else {
                        0
                    },
            decreases n - a,
        {
            rounds.push(
                if a == self.own_index as usize {
                    block_round
                } else {
                    0
                },
            );
            a = a + 1;
        }
        self.evict_below(&rounds);
        let ghost v = prepared(before@, before.own_index, block_round, header.ancestors@);
        proof {
            assert(rounds@ =~= known_rounds(
                before@.headers_to.len(),
                before.own_index,
                block_round,
            ));
            assert(self@ == v);
            lemma_useful_among(v.headers_to, block_round, n as int);
            lemma_useful_among(v.shards_to, block_round, n as int);
        }
        let headers_authors = list_useful(&self.last_useful_headers_to_peer_round, block_round);
        let header_refs = self.take_useful_header_block_refs_round(block_round, &headers_authors);
        let verified_headers = flatten(dag_state.get_cached_block_headers(header_refs.as_slice()));
        let shards_authors = list_useful(&self.last_useful_shards_to_peer_round, block_round);
        let ghost mid = *self;
        let shard_refs = self.take_useful_shard_block_refs_round(block_round, &shards_authors);
        proof {
            assert forall|j: int|
                0 <= j < shard_refs@.len() implies dag_state.config.committee.is_valid_index(
                (#[trigger] shard_refs@[j]).spec_author(),
            ) by {
                assert(is_eligible(v.shards, block_round, shards_authors@, shard_refs@[j]));
            }
        }
        let serialized_shards = flatten(dag_state.get_cached_shards(shard_refs.as_slice()));
        let headers_from = list_useful(&self.last_useful_headers_from_peer_round, block_round);
        let shards_from = list_useful(&self.last_useful_shards_from_peer_round, block_round);
        let bundle = BlockBundle {
            verified_block: block,
            verified_headers,
            serialized_shards,
            useful_headers_authors: SortedSet::from_vec(&headers_from),
            useful_shards_authors: SortedSet::from_vec(&shards_from),
        };
        proof {
            assert(may_go_along(
                v,
                block_round,
                before.max_headers_per_bundle as nat,
                before.max_shards_per_bundle as nat,
                header_refs@,
                shard_refs@,
            ));
            assert(is_bundle(before@, *dag_state, block, header_refs@, shard_refs@, bundle));
        }
        bundle
    }
}

/// The authors, each with the same round.
pub open spec fn all_at(authors: Set<AuthorityIndex>, round: Round) -> Map<AuthorityIndex, Round> {
    Map::new(|a: AuthorityIndex| authors.contains(a), |a: AuthorityIndex| round)
}

/// The authors of headers that came along with a block, and of ancestors that
/// are missing.
pub open spec fn authors_of(
    headers: Seq<VerifiedBlockHeader>,
    missing: Set<BlockRef>,
) -> Set<AuthorityIndex> {
    Set::new(
        |a: AuthorityIndex|
            {
                ||| exists|i: int|
                    0 <= i < headers.len() && (#[trigger] headers[i]).reference.author == a
                ||| exists|r: BlockRef| #[trigger] missing.contains(r) && r.author == a
            },
    )
}

/// The authors of the headers, each with the latest of its rounds there.
pub open spec fn latest_rounds(headers: Seq<VerifiedBlockHeader>) -> Map<AuthorityIndex, Round>
    decreases headers.len(),
{
    if headers.len() == 0 {
        Map::empty()
    } else {
        let rest = latest_rounds(headers.drop_last());
        let r = headers.last().reference;
        let earlier = if rest.dom().contains(r.author) {
            Some(rest[r.author])
        } else {
            None
        };
        rest.insert(
            r.author,
            crate::cordial_knowledge::global::later(earlier, r.round)->Some_0,
        )
    }
}

/// The authors of the set, each with the same round.
fn map_all(authors: &SortedSet<AuthorityIndex>, round: Round) -> (r: SortedMap<
    AuthorityIndex,
    Round,
>)
    requires
        authors.wf(),
    ensures
        r.wf(),
        r@ == all_at(authors@, round),
{
    let mut r: SortedMap<AuthorityIndex, Round> = SortedMap::new();
    let n: usize = authors.len();
    let mut i: usize = 0;
    assert(r@ =~= all_at(authors.items().take(0).to_set(), round));
    while i < n
        invariant
            authors.wf(),
            n == authors.items().len(),
            i <= n,
            r.wf(),
            r@ == all_at(authors.items().take(i as int).to_set(), round),
        decreases n - i,
    {
        let a = authors.at(i);
        r.insert(a, round);
        proof {
            let was = authors.items().take(i as int);
            let now = authors.items().take(i + 1);
            assert(now =~= was.push(a));
            lemma_push_to_set(was, a);
            assert(r@ =~= all_at(now.to_set(), round));
        }
        i = i + 1;
    }
    proof {
        assert(authors.items().take(i as int) =~= authors.items());
        authors.lemma_items();
    }
    r
}

impl ConnectionKnowledge {
    /// Takes in what a bundle from the peer has shown: whose headers and shards
    /// the peer asks for, and whose headers from it were news. Gives the message
    /// about useful shards, where there is one.
    pub fn report_useful_authors(
        &mut self,
        useful_headers_authors: &SortedSet<AuthorityIndex>,
        useful_shards_authors: &SortedSet<AuthorityIndex>,
        additional_block_headers: &Vec<VerifiedBlockHeader>,
        missing_ancestors: &SortedSet<BlockRef>,
        block_round: Round,
    ) -> (r: Option<CordialKnowledgeMessage>)
        requires
            old(self).wf(),
            useful_headers_authors.wf(),
            useful_shards_authors.wf(),
            missing_ancestors.wf(),
            forall|a: AuthorityIndex| #[trigger]
                useful_headers_authors@.contains(a) ==> a < old(self).committee_size,
            forall|a: AuthorityIndex| #[trigger]
                useful_shards_authors@.contains(a) ==> a < old(self).committee_size,
            forall|i: int|
                0 <= i < additional_block_headers@.len() ==> (
                #[trigger] additional_block_headers@[i]).reference.author < old(
                    self,
                ).committee_size,
            forall|b: BlockRef| #[trigger]
                missing_ancestors@.contains(b) ==> b.author < old(self).committee_size,
        ensures
            final(self).wf(),
            final(self).same_peer(*old(self)),
            final(self)@ == (ConnectionView {
                headers_to: raised(
                    old(self)@.headers_to,
                    all_at(useful_headers_authors@, block_round),
                ),
                shards_to: raised(old(self)@.shards_to, all_at(useful_shards_authors@, block_round)),
                headers_from: raised(
                    old(self)@.headers_from,
                    all_at(
                        authors_of(additional_block_headers@, missing_ancestors@),
                        block_round,
                    ),
                ),
                ..old(self)@
            }),
            match r {
                None => additional_block_headers@.len() == 0,
                Some(CordialKnowledgeMessage::UsefulShardsFromPeers(updates)) => {
                    &&& additional_block_headers@.len() > 0
                    &&& updates.wf()
                    &&& updates@ == latest_rounds(additional_block_headers@)
                },
                Some(_) => false,
            },
    {
        let ghost before = *self;
        let mut news_authors: SortedSet<AuthorityIndex> = SortedSet::new();
        let mut useful_shard_authors: SortedMap<AuthorityIndex, Round> = SortedMap::new();
        let mut i: usize = 0;
        while i < additional_block_headers.len()
            invariant
                news_authors.wf(),
                useful_shard_authors.wf(),
                i <= additional_block_headers@.len(),
                forall|a: AuthorityIndex| #[trigger]
                    news_authors@.contains(a) <==> exists|k: int|
                        0 <= k < i && (#[trigger] additional_block_headers@[k]).reference.author
                            == a,
                useful_shard_authors@ == latest_rounds(additional_block_headers@.take(i as int)),
                useful_shard_authors@.dom() == news_authors@,
            decreases additional_block_headers@.len() - i,
        {
            let ghost authors0 = news_authors@;
            let reference = additional_block_headers[i].reference;
            news_authors.insert(reference.author);
            proof {
                assert forall|a: AuthorityIndex| #[trigger]
                    news_authors@.contains(a) <==> exists|k: int|
                        0 <= k < i + 1 && (
                        #[trigger] additional_block_headers@[k]).reference.author == a by {
                    if authors0.contains(a) {
                        let k = choose|k: int|
                            0 <= k < i && (
                            #[trigger] additional_block_headers@[k]).reference.author == a;
                        assert(additional_block_headers@[k].reference.author == a);
                    }
                    if a == reference.author {
                        assert(additional_block_headers@[i as int].reference.author == a);
                    }
                }
                assert(additional_block_headers@.take(i + 1).drop_last()
                    =~= additional_block_headers@.take(i as int));
            }
            let round = match useful_shard_authors.get(&reference.author) {
                Some(earlier) => if *earlier >= reference.round {
                    *earlier
                } else {
                    reference.round
                },
                None => reference.round,
            };
            useful_shard_authors.insert(reference.author, round);
            proof {
                assert(useful_shard_authors@.dom() =~= news_authors@);
            }
            i = i + 1;
        }
        assert(additional_block_headers@.take(i as int) =~= additional_block_headers@);
        let nothing_useful = additional_block_headers.len() == 0;
        let ghost from_headers = news_authors@;
        let m: usize = missing_ancestors.len();
        let mut i: usize = 0;
        while i < m
            invariant
                missing_ancestors.wf(),
                news_authors.wf(),
                m == missing_ancestors.items().len(),
                i <= m,
                forall|a: AuthorityIndex| #[trigger]
                    news_authors@.contains(a) <==> from_headers.contains(a) || exists|k: int|
                        0 <= k < i && (#[trigger] missing_ancestors.items()[k]).author == a,
            decreases m - i,
        {
            let ghost authors0 = news_authors@;
            let b = missing_ancestors.at(i);
            news_authors.insert(b.author);
            proof {
                assert forall|a: AuthorityIndex| #[trigger]
                    news_authors@.contains(a) <==> from_headers.contains(a) || exists|k: int|
                        0 <= k < i + 1 && (#[trigger] missing_ancestors.items()[k]).author
                            == a by {
                    if authors0.contains(a) && !from_headers.contains(a) {
                        let k = choose|k: int|
                            0 <= k < i && (#[trigger] missing_ancestors.items()[k]).author == a;
                        assert(missing_ancestors.items()[k].author == a);
                    }
                    if a == b.author {
                        assert(missing_ancestors.items()[i as int].author == a);
                    }
                }
            }
            i = i + 1;
        }
        proof {
            let goal = authors_of(additional_block_headers@, missing_ancestors@);
            assert forall|a: AuthorityIndex| news_authors@.contains(a) <==> goal.contains(a) by {
                if news_authors@.contains(a) && !from_headers.contains(a) {
                    let k = choose|k: int|
                        0 <= k < m && (#[trigger] missing_ancestors.items()[k]).author == a;
                    missing_ancestors.lemma_item(k);
                }
                if exists|r: BlockRef| #[trigger] missing_ancestors@.contains(r) && r.author == a {
                    let r = choose|r: BlockRef| #[trigger]
                        missing_ancestors@.contains(r) && r.author == a;
                    let k = missing_ancestors.lemma_position(r);
                    assert(missing_ancestors.items()[k].author == a);
                }
            }
            assert(news_authors@ =~= goal);
        }
        let headers_from = map_all(&news_authors, block_round);
        let headers_to = map_all(useful_headers_authors, block_round);
        let shards_to = map_all(useful_shards_authors, block_round);
        let shards_from = no_rounds(self.committee_size);
        let message = ConnectionKnowledgeMessage::UsefulAuthors {
            useful_headers_to_peer: headers_to,
            useful_shards_to_peer: shards_to,
            useful_headers_from_peer: headers_from,
            useful_shards_from_peer: shards_from,
        };
        assert(raised_each(before@.shards_from, shards_from@) =~= before@.shards_from);
        self.process_one_message(&message);
        if nothing_useful {
            None
        } else {
            Some(CordialKnowledgeMessage::UsefulShardsFromPeers(useful_shard_authors))
        }
    }
}

/// What goes along with a block is of earlier rounds and not of the node itself,
/// and no two times the same.
pub proof fn law_bundle_is_of_the_past(
    v: ConnectionView,
    own: AuthorityIndex,
    block_round: Round,
    ancestors: Seq<BlockRef>,
    max_headers: nat,
    max_shards: nat,
    headers: Seq<BlockRef>,
    shards: Seq<GenericTransactionRef>,
)
    requires
        own < v.headers_to.len() <= 256,
        v.shards_to.len() == v.headers_to.len(),
        may_go_along(
            prepared(v, own, block_round, ancestors),
            block_round,
            max_headers,
            max_shards,
            headers,
            shards,
        ),
    ensures
        headers.no_duplicates(),
        shards.no_duplicates(),
        headers.len() <= max_headers,
        shards.len() <= max_shards,
        forall|i: int|
            0 <= i < headers.len() ==> 0 < (#[trigger] headers[i]).round < block_round
                && headers[i].author != own,
        forall|i: int|
            0 <= i < shards.len() ==> 0 < (#[trigger] shards[i]).spec_round() < block_round
                && shards[i].spec_author() != own,
{
    let p = prepared(v, own, block_round, ancestors);
    let n = v.headers_to.len() as int;
    lemma_useful_among(v.headers_to, block_round, n);
    lemma_useful_among(v.shards_to, block_round, n);
    assert forall|i: int, j: int|
        0 <= i < headers.len() && 0 <= j < headers.len() && i != j implies headers[i]
        != headers[j] by {
        assert(as_generic(headers)[i] != as_generic(headers)[j]);
    }
    assert forall|i: int| 0 <= i < headers.len() implies 0 < (#[trigger] headers[i]).round
        < block_round && headers[i].author != own by {
        let g = as_generic(headers)[i];
        assert(is_eligible(p.headers, block_round, useful_authors(v.headers_to, block_round), g));
        assert(g.spec_round() > known_rounds(n as nat, own, block_round)[g.spec_author() as int]);
    }
    assert forall|i: int| 0 <= i < shards.len() implies 0 < (#[trigger] shards[i]).spec_round()
        < block_round && shards[i].spec_author() != own by {
        let g = shards[i];
        assert(is_eligible(p.shards, block_round, useful_authors(v.shards_to, block_round), g));
        assert(g.spec_round() > known_rounds(n as nat, own, block_round)[g.spec_author() as int]);
    }
}

/// One more element of a list is one more of its set.
proof fn lemma_push_to_set<T>(s: Seq<T>, x: T)
    ensures
        s.push(x).to_set() == s.to_set().insert(x),
{
    assert forall|y: T| s.push(x).to_set().contains(y) <==> s.to_set().insert(x).contains(y) by {
        if s.contains(y) {
            let i = choose|i: int| 0 <= i < s.len() && s[i] == y;
            assert(s.push(x)[i] == y);
        }
        if y == x {
            assert(s.push(x)[s.len() as int] == y);
        }
    }
    assert(s.push(x).to_set() =~= s.to_set().insert(x));
}

/// No round for any of `n` authorities.
fn no_rounds(n: usize) -> (r: Vec<Option<Round>>)
    ensures
        r@ == Seq::new(n as nat, |a: int| None::<Round>),
{
    let mut r: Vec<Option<Round>> = Vec::new();
    let mut i: usize = 0;
    while i < n
        invariant
            i <= n,
            r@ == Seq::new(i as nat, |a: int| None::<Round>),
        decreases n - i,
    {
        r.push(None);
        i = i + 1;
        assert(r@ =~= Seq::new(i as nat, |a: int| None::<Round>));
    }
    r
}

} // verus!
