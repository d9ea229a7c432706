//! Asking the peers for the last header that this node has made itself.
use vstd::prelude::*;

use crate::commit_syncer::verify::Rejection;
use crate::committee::{lemma_stake_insert, lemma_stake_monotone, stake_of, Committee, Stake};
use crate::error::ConsensusError;
use crate::header::{share, Bytes, VerifiedBlockHeader};
use crate::header_synchronizer::verify::HeaderCheck;
use crate::refs::{AuthorityIndex, Round, GENESIS_ROUND};

verus! {

/// How long to wait before a peer is asked again that could not be reached.
pub const FETCH_OWN_BLOCK_HEADER_RETRY_DELAY_MS: u64 = 1_000;

/// How long to wait at first before the peers are asked again.
pub const FIRST_RETRY_DELAY_STEP_MS: u64 = 500;

/// How long to wait at most before the peers are asked again.
pub const MAX_RETRY_DELAY_STEP_MS: u64 = 4_000;

/// The latest round of the headers; genesis where there are none.
pub open spec fn latest_round(headers: Seq<VerifiedBlockHeader>) -> Round
    decreases headers.len(),
{
    if headers.len() == 0 {
        GENESIS_ROUND
    } else {
        let rest = latest_round(headers.drop_last());
        let round = headers.last().reference.round;
        if round > rest {
            round
        } else {
            rest
        }
    }
}

/// What is wrong with a reply whose headers turn out to be as `checks` says:
/// where the first fault is, and what it is. Only headers of this node were
/// asked for.
pub open spec fn own_fault(
    checks: Seq<HeaderCheck>,
    own_index: AuthorityIndex,
    peer: AuthorityIndex,
    i: int,
    rejection: Rejection,
) -> bool {
    match checks[i] {
        HeaderCheck::Valid(header) => header.reference.author != own_index && rejection == (
        Rejection {
            error: ConsensusError::UnexpectedLastOwnHeader {
                index: peer,
                block_ref: header.reference,
            },
            faulty_header_author: None,
        }),
        _ => checks[i].rejected_as(peer, rejection),
    }
}

/// Is this header valid and of this node?
pub open spec fn is_own(check: HeaderCheck, own_index: AuthorityIndex) -> bool {
    match check {
        HeaderCheck::Valid(header) => header.reference.author == own_index,
        _ => false,
    }
}

/// Are these the outcomes of checking the first serialized headers?
pub open spec fn are_outcomes<V: Fn(Bytes) -> HeaderCheck>(
    serialized: Seq<Bytes>,
    check: &V,
    checks: Seq<HeaderCheck>,
) -> bool {
    &&& checks.len() <= serialized.len()
    &&& forall|i: int|
        0 <= i < checks.len() ==> check.ensures((#[trigger] serialized[i],), checks[i])
}

/// The headers that were found valid.
pub open spec fn valid_headers(checks: Seq<HeaderCheck>) -> Seq<VerifiedBlockHeader> {
    checks.map_values(|c: HeaderCheck| c->Valid_0)
}

/// Checks the reply of a peer that was asked for this node's last headers.
pub fn process_own_headers<V: Fn(Bytes) -> HeaderCheck>(
    block_headers: &Vec<Bytes>,
    own_index: AuthorityIndex,
    peer: AuthorityIndex,
    check: &V,
) -> (r: Result<Vec<VerifiedBlockHeader>, Rejection>)
    requires
        forall|b: Bytes| #[trigger] check.requires((b,)),
    ensures
        exists|checks: Seq<HeaderCheck>|
            {
                &&& #[trigger] are_outcomes(block_headers@, check, checks)
                &&& match r {
                    Ok(headers) => {
                        &&& checks.len() == block_headers@.len()
                        &&& forall|i: int|
                            0 <= i < checks.len() ==> is_own(#[trigger] checks[i], own_index)
                        &&& headers@ == valid_headers(checks)
                    },
                    Err(rejection) => {
                        &&& checks.len() > 0
                        &&& forall|i: int|
                            0 <= i < checks.len() - 1 ==> is_own(#[trigger] checks[i], own_index)
                        &&& own_fault(checks, own_index, peer, checks.len() - 1, rejection)
                    },
                }
            },
{
    let ghost mut checks: Seq<HeaderCheck> = Seq::empty();
    let mut result: Vec<VerifiedBlockHeader> = Vec::new();
    let mut i: usize = 0;
    assert(result@ =~= valid_headers(checks));
    while i < block_headers.len()
        invariant
            forall|b: Bytes| #[trigger] check.requires((b,)),
            i <= block_headers@.len(),
            checks.len() == i,
            are_outcomes(block_headers@, check, checks),
            forall|k: int| 0 <= k < checks.len() ==> is_own(#[trigger] checks[k], own_index),
            result@ == valid_headers(checks),
        decreases block_headers@.len() - i,
    {
        let outcome = check(share(&block_headers[i]));
        let ghost before = checks;
        let ghost c = outcome;
        proof {
            checks = checks.push(c);
            assert(are_outcomes(block_headers@, check, checks)) by {
                assert forall|k: int|
                    0 <= k < checks.len() implies check.ensures(
                    (#[trigger] block_headers@[k],),
                    checks[k],
                ) by {
                    if k < i {
                        assert(check.ensures((block_headers@[k],), before[k]));
                    }
                }
            }
            assert forall|k: int| 0 <= k < checks.len() - 1 implies is_own(
                #[trigger] checks[k],
                own_index,
            ) by {
                assert(is_own(before[k], own_index));
            }
        }
        match outcome {
            HeaderCheck::Malformed(error) => {
                return Err(Rejection { error, faulty_header_author: Some(peer) });
            },
            HeaderCheck::Invalid { author, error } => {
                return Err(Rejection { error, faulty_header_author: Some(author) });
            },
            HeaderCheck::Valid(header) => {
                if header.reference.author != own_index {
                    return Err(
                        Rejection {
                            error: ConsensusError::UnexpectedLastOwnHeader {
                                index: peer,
                                block_ref: header.reference,
                            },
                            faulty_header_author: None,
                        },
                    );
                }
                result.push(header);
                assert(result@ =~= valid_headers(checks));
            },
        }
        i = i + 1;
    }
    Ok(result)
}

/// The peers that have told this node's last header.
#[derive(Debug)]
pub struct OwnHeaderSync {
    pub own_index: AuthorityIndex,
    /// Who has replied. This node itself counts as one that has.
    pub received_response: Vec<bool>,
    pub total_stake: Stake,
    pub highest_round: Round,
}

impl OwnHeaderSync {
    /// Who has replied.
    pub open spec fn view(self) -> Set<AuthorityIndex> {
        Set::new(
            |a: AuthorityIndex|
                a < self.received_response@.len() && self.received_response@[a as int],
        )
    }

    pub open spec fn wf(self, committee: Committee) -> bool {
        &&& committee.wf()
        &&& self.received_response@.len() == committee.stakes@.len()
        &&& self.own_index < committee.stakes@.len()
        &&& self@.contains(self.own_index)
        &&& self.total_stake == stake_of(committee.stakes@, self@)
    }

    /// Nobody has replied yet.
    pub fn new(committee: &Committee, own_index: AuthorityIndex) -> (r: Self)
        requires
            committee.wf(),
            own_index < committee.stakes@.len(),
        ensures
            r.wf(*committee),
            r.own_index == own_index,
            r@ == set![own_index],
            r.highest_round == GENESIS_ROUND,
    {
        let n: usize = committee.size();
        let mut received_response: Vec<bool> = Vec::new();
        let mut i: usize = 0;
        while i < n
            invariant
                i <= n,
                received_response@.len() == i,
                forall|k: int|
                    0 <= k < i ==> #[trigger] received_response@[k] == (k == own_index),
            decreases n - i,
        {
            received_response.push(i == own_index as usize);
            i = i + 1;
        }
        let r = OwnHeaderSync {
            own_index,
            received_response,
            total_stake: committee.stakes[own_index as usize],
            highest_round: GENESIS_ROUND,
        };
        proof {
            lemma_nobody(committee.stakes@);
            lemma_stake_insert(committee.stakes@, Set::empty(), own_index);
            assert(r@ =~= set![own_index]);
            assert(set![own_index] =~= Set::<AuthorityIndex>::empty().insert(own_index));
        }
        r
    }

    /// The authorities that have not replied, in order.
    pub fn peers_to_ask(&self) -> (r: Vec<AuthorityIndex>)
        requires
            self.received_response@.len() <= 256,
        ensures
            forall|i: int, j: int| 0 <= i < j < r@.len() ==> r@[i] < r@[j],
            forall|a: AuthorityIndex| #[trigger]
                r@.contains(a) <==> a < self.received_response@.len() && !self@.contains(a),
    {
        let n: usize = self.received_response.len();
        let mut r: Vec<AuthorityIndex> = Vec::new();
        let mut i: usize = 0;
        while i < n
            invariant
                n == self.received_response@.len(),
                n <= 256,
                i <= n,
                forall|k: int| 0 <= k < r@.len() ==> (#[trigger] r@[k]) < i,
                forall|k: int, j: int| 0 <= k < j < r@.len() ==> r@[k] < r@[j],
                forall|a: AuthorityIndex| #[trigger]
                    r@.contains(a) <==> a < i && !self@.contains(a),
            decreases n - i,
        {
            let ghost before = r@;
            if !self.received_response[i] {
                r.push(i as AuthorityIndex);
            }
            proof {
                assert forall|a: AuthorityIndex| #[trigger] r@.contains(a) <==> a < i + 1
                    && !self@.contains(a) by {
                    assert(before.contains(a) <==> a < i && !self@.contains(a));
                    if before.contains(a) {
                        let k = choose|k: int| 0 <= k < before.len() && before[k] == a;
                        assert(r@[k] == a);
                    }
                    if r@.contains(a) && !before.contains(a) {
                        let k = choose|k: int| 0 <= k < r@.len() && r@[k] == a;
                        if k < before.len() {
                            assert(before[k] == a);
                        }
                    }
                    if a == i && !self@.contains(a) {
                        assert(r@[before.len() as int] == a);
                    }
                }
            }
            i = i + 1;
        }
        r
    }

    /// A peer has told this node's last headers.
    pub fn on_reply(
        &mut self,
        committee: &Committee,
        peer: AuthorityIndex,
        headers: &Vec<VerifiedBlockHeader>,
    )
        requires
            old(self).wf(*committee),
            peer < committee.stakes@.len(),
            !old(self)@.contains(peer),
        ensures
            final(self).wf(*committee),
            final(self).own_index == old(self).own_index,
            final(self)@ == old(self)@.insert(peer),
            final(self).highest_round == if latest_round(headers@) > old(self).highest_round {
                latest_round(headers@)
            } else {
                old(self).highest_round
            },
    {
        let ghost before = *self;
        let mut max_round: Round = GENESIS_ROUND;
        let mut i: usize = 0;
        while i < headers.len()
            invariant
                i <= headers@.len(),
                max_round == latest_round(headers@.take(i as int)),
            decreases headers@.len() - i,
        {
            let round = headers[i].reference.round;
            if round > max_round {
                max_round = round;
            }
            i = i + 1;
            assert(headers@.take(i as int).drop_last() =~= headers@.take(i - 1));
        }
        assert(headers@.take(i as int) =~= headers@);
        if max_round > self.highest_round {
            self.highest_round = max_round;
        }
        self.received_response.set(peer as usize, true);
        proof {
            assert(self@ =~= before@.insert(peer));
            lemma_stake_insert(committee.stakes@, before@, peer);
            lemma_stake_monotone(committee.stakes@, self@, Set::full());
        }
        self.total_stake = self.total_stake + committee.stakes[peer as usize];
    }

    /// Have enough replied?
    pub fn is_done(&self, committee: &Committee) -> (r: bool)
        requires
            self.wf(*committee),
        ensures
            r == committee.is_quorum(self@),
    {
        self.total_stake >= committee.quorum_threshold
    }

    /// The round to go on from where there is no peer to ask: that of the last
    /// header that the node has made.
    pub fn round_of_single_node(committee: &Committee, last_proposed_round: Round) -> (r: Option<
        Round,
    >)
        ensures
            r == if committee.stakes@.len() == 1 {
                Some(last_proposed_round)
            } else {
                None
            },
    {
        if committee.size() == 1 {
            Some(last_proposed_round)
        } else {
            None
        }
    }
}

/// Nobody has no stake.
proof fn lemma_nobody(stakes: Seq<Stake>)
    ensures
        stake_of(stakes, Set::empty()) == 0,
    decreases stakes.len(),
{
    if stakes.len() > 0 {
        lemma_nobody(stakes.drop_last());
    }
}

/// The replies of several peers, one after the other, as this node counts them.
pub open spec fn highest_told(replies: Seq<Seq<VerifiedBlockHeader>>) -> Round
    decreases replies.len(),
{
    if replies.len() == 0 {
        GENESIS_ROUND
    } else {
        let rest = highest_told(replies.drop_last());
        let told = latest_round(replies.last());
        if told > rest {
            told
        } else {
            rest
        }
    }
}

/// No header of this node that any of the replies tells is of a later round than
/// the highest one told.
pub proof fn law_no_told_round_is_later(
    replies: Seq<Seq<VerifiedBlockHeader>>,
    k: int,
    i: int,
)
    requires
        0 <= k < replies.len(),
        0 <= i < replies[k].len(),
    ensures
        replies[k][i].reference.round <= highest_told(replies),
    decreases replies.len(),
{
    if k == replies.len() - 1 {
        lemma_latest(replies[k], i);
    } else {
        law_no_told_round_is_later(replies.drop_last(), k, i);
        assert(replies.drop_last()[k] == replies[k]);
    }
}

/// No header is of a later round than the latest.
proof fn lemma_latest(headers: Seq<VerifiedBlockHeader>, i: int)
    requires
        0 <= i < headers.len(),
    ensures
        headers[i].reference.round <= latest_round(headers),
    decreases headers.len(),
{
    if i < headers.len() - 1 {
        lemma_latest(headers.drop_last(), i);
        assert(headers.drop_last()[i] == headers[i]);
    }
}

} // verus!
