//! The committee, the stake behind a set of its members, and the clock that
//! quorums of headers drive.
use vstd::prelude::*;

use crate::refs::{AuthorityIndex, BlockRef, Round};
use crate::sorted::SortedSet;

verus! {

/// Voting power.
pub type Stake = u64;

/// The stake of those authorities of `votes` that `stakes` lists.
pub open spec fn stake_of(stakes: Seq<Stake>, votes: Set<AuthorityIndex>) -> int
    decreases stakes.len(),
{
    if stakes.len() == 0 {
        0
    } else {
        stake_of(stakes.drop_last(), votes) + if votes.contains(
            (stakes.len() - 1) as AuthorityIndex,
        ) {
            stakes.last() as int
        } else {
            0
        }
    }
}

/// The stake of a set never exceeds the stake of a larger one.
pub proof fn lemma_stake_monotone(
    stakes: Seq<Stake>,
    a: Set<AuthorityIndex>,
    b: Set<AuthorityIndex>,
)
    requires
        a.subset_of(b),
    ensures
        0 <= stake_of(stakes, a) <= stake_of(stakes, b),
    decreases stakes.len(),
{
    if stakes.len() > 0 {
        lemma_stake_monotone(stakes.drop_last(), a, b);
    }
}

/// A new member adds its own stake, and only that.
pub proof fn lemma_stake_insert(
    stakes: Seq<Stake>,
    votes: Set<AuthorityIndex>,
    author: AuthorityIndex,
)
    requires
        stakes.len() <= 256,
        !votes.contains(author),
    ensures
        stake_of(stakes, votes.insert(author)) == stake_of(stakes, votes) + if author
            < stakes.len() {
            stakes[author as int] as int
        } else {
            0
        },
    decreases stakes.len(),
{
    if stakes.len() > 0 {
        lemma_stake_insert(stakes.drop_last(), votes, author);
    }
}

/// The authorities and their stakes.
#[derive(Debug)]
pub struct Committee {
    pub stakes: Vec<Stake>,
    /// The stake that makes a quorum (2f+1 by stake).
    pub quorum_threshold: Stake,
}

impl Committee {
    pub open spec fn wf(self) -> bool {
        &&& 0 < self.stakes@.len() <= 256
        &&& stake_of(self.stakes@, Set::full()) <= Stake::MAX
        &&& self.quorum_threshold > 0
    }

    /// Is there an authority at this index?
    pub open spec fn spec_is_valid_index(&self, index: AuthorityIndex) -> bool {
        index < self.stakes@.len()
    }

    pub fn size(&self) -> (r: usize)
        ensures
            r == self.stakes@.len(),
    {
        self.stakes.len()
    }

    #[verifier::when_used_as_spec(spec_is_valid_index)]
    pub fn is_valid_index(&self, index: AuthorityIndex) -> (r: bool)
        ensures
            r == self.is_valid_index(index),
    {
        (index as usize) < self.stakes.len()
    }

    /// Do these authorities form a quorum?
    pub open spec fn is_quorum(self, votes: Set<AuthorityIndex>) -> bool {
        stake_of(self.stakes@, votes) >= self.quorum_threshold
    }
}

/// Who has voted, and the stake behind those votes.
#[derive(Debug)]
pub struct StakeAggregator {
    pub votes: SortedSet<AuthorityIndex>,
    pub stake: Stake,
}

impl StakeAggregator {
    pub open spec fn wf(self, committee: Committee) -> bool {
        &&& self.votes.wf()
        &&& self.stake == stake_of(committee.stakes@, self.votes@)
    }

    pub open spec fn view(self) -> Set<AuthorityIndex> {
        self.votes@
    }

    pub fn new() -> (r: Self)
        ensures
            forall|committee: Committee| #[trigger] r.wf(committee),
            r@ == Set::<AuthorityIndex>::empty(),
    {
        let r = StakeAggregator { votes: SortedSet::new(), stake: 0 };
        proof {
            assert forall|committee: Committee| #[trigger] r.wf(committee) by {
                lemma_no_votes(committee.stakes@);
            }
        }
        r
    }

    /// Counts the vote of `author`, once. Do the votes form a quorum now?
    pub fn add(&mut self, author: AuthorityIndex, committee: &Committee) -> (r: bool)
        requires
            committee.wf(),
            committee.is_valid_index(author),
            old(self).wf(*committee),
        ensures
            final(self).wf(*committee),
            final(self)@ == old(self)@.insert(author),
            r == committee.is_quorum(final(self)@),
    {
        let ghost before = self@;
        if self.votes.insert(author) {
            proof {
                lemma_stake_insert(committee.stakes@, before, author);
                lemma_stake_monotone(committee.stakes@, before.insert(author), Set::full());
            }
            self.stake = self.stake + committee.stakes[author as usize];
        } else {
            assert(before.insert(author) =~= before);
        }
        self.stake >= committee.quorum_threshold
    }

    /// Do the votes form a quorum?
    pub fn reached_threshold(&self, committee: &Committee) -> (r: bool)
        requires
            self.wf(*committee),
        ensures
            r == committee.is_quorum(self@),
    {
        self.stake >= committee.quorum_threshold
    }
}

/// No votes carry no stake.
pub proof fn lemma_no_votes(stakes: Seq<Stake>)
    ensures
        stake_of(stakes, Set::<AuthorityIndex>::empty()) == 0,
    decreases stakes.len(),
{
    if stakes.len() > 0 {
        lemma_no_votes(stakes.drop_last());
    }
}

/// What the threshold clock has seen.
pub ghost struct ClockView {
    pub round: Round,
    pub votes: Set<AuthorityIndex>,
}

impl ClockView {
    /// The clock after a header of `author` at `round`. Headers of rounds gone
    /// by do not matter; the first one of a later round moves the clock there;
    /// a quorum of authors at the clock's round moves it one round on.
    pub open spec fn add_header(
        self,
        committee: Committee,
        round: Round,
        author: AuthorityIndex,
    ) -> ClockView {
        if round < self.round {
            self
        } else {
            let base = if round > self.round {
                Set::empty()
            } else {
                self.votes
            };
            if committee.is_quorum(base.insert(author)) {
                ClockView { round: (round + 1) as Round, votes: Set::empty() }
            } else {
                ClockView { round, votes: base.insert(author) }
            }
        }
    }
}

/// Tells the round to propose at: one above the highest round with a quorum of
/// headers, or the highest round seen, if that is higher.
#[derive(Debug)]
pub struct ThresholdClock {
    pub round: Round,
    pub aggregator: StakeAggregator,
}

impl ThresholdClock {
    pub open spec fn wf(self, committee: Committee) -> bool {
        self.aggregator.wf(committee)
    }

    pub open spec fn view(self) -> ClockView {
        ClockView { round: self.round, votes: self.aggregator@ }
    }

    pub fn new(round: Round) -> (r: Self)
        ensures
            forall|committee: Committee| #[trigger] r.wf(committee),
            r@ == (ClockView { round, votes: Set::empty() }),
    {
        let r = ThresholdClock { round, aggregator: StakeAggregator::new() };
        assert forall|committee: Committee| #[trigger] r.wf(committee) by {
            assert(r.aggregator.wf(committee));
        }
        r
    }

    pub fn add_block_header(&mut self, block_ref: BlockRef, committee: &Committee)
        requires
            committee.wf(),
            committee.is_valid_index(block_ref.author),
            block_ref.round < Round::MAX,
            old(self).wf(*committee),
        ensures
            final(self).wf(*committee),
            final(self)@ == old(self)@.add_header(*committee, block_ref.round, block_ref.author),
    {
        if block_ref.round < self.round {
            return;
        }
        if block_ref.round > self.round {
            self.aggregator = StakeAggregator::new();
        }
        if self.aggregator.add(block_ref.author, committee) {
            self.aggregator = StakeAggregator::new();
            self.round = block_ref.round + 1;
        } else {
            self.round = block_ref.round;
        }
    }

    pub fn get_round(&self) -> (r: Round)
        ensures
            r == self@.round,
    {
        self.round
    }
}

/// Each member counts once, with its own stake; strangers count nothing. Those whose
/// stake reaches the threshold form a quorum, and no others do.
pub proof fn law_stakes_add_up(
    committee: Committee,
    votes: Set<AuthorityIndex>,
    author: AuthorityIndex,
)
    requires
        committee.stakes@.len() <= 256,
    ensures
        stake_of(committee.stakes@, Set::empty()) == 0,
        !votes.contains(author) && author < committee.stakes@.len() ==> stake_of(
            committee.stakes@,
            votes.insert(author),
        ) == stake_of(committee.stakes@, votes) + committee.stakes@[author as int],
        votes.contains(author) ==> stake_of(committee.stakes@, votes.insert(author)) == stake_of(
            committee.stakes@,
            votes,
        ),
        author >= committee.stakes@.len() ==> stake_of(committee.stakes@, votes.insert(author))
            == stake_of(committee.stakes@, votes),
        committee.is_quorum(votes) <==> committee.quorum_threshold <= stake_of(
            committee.stakes@,
            votes,
        ),
        committee.is_valid_index(author) <==> author < committee.stakes@.len(),
{
    lemma_no_votes(committee.stakes@);
    if votes.contains(author) {
        assert(votes.insert(author) =~= votes);
    } else {
        lemma_stake_insert(committee.stakes@, votes, author);
    }
}

/// A header of a round gone by does not move the clock. One of a later round moves it
/// there, and one round on where its author alone has the stake of a quorum. One of
/// the clock's round counts its author in, and moves the clock one round on exactly
/// where that makes a quorum.
pub proof fn law_clock(
    committee: Committee,
    clock: ClockView,
    round: Round,
    author: AuthorityIndex,
)
    requires
        committee.stakes@.len() <= 256,
        author < committee.stakes@.len(),
        round < Round::MAX,
    ensures
        ({
            let after = clock.add_header(committee, round, author);
            let stake = committee.stakes@[author as int];
            &&& round < clock.round ==> after == clock
            &&& round > clock.round && stake >= committee.quorum_threshold ==> after.round == round
                + 1 && after.votes == Set::<AuthorityIndex>::empty()
            &&& round > clock.round && stake < committee.quorum_threshold ==> after.round == round
                && after.votes == Set::<AuthorityIndex>::empty().insert(author)
            &&& round == clock.round && !clock.votes.contains(author) ==> {
                if stake_of(committee.stakes@, clock.votes) + stake >= committee.quorum_threshold {
                    after.round == round + 1 && after.votes == Set::<AuthorityIndex>::empty()
                } else {
                    after.round == round && after.votes == clock.votes.insert(author)
                }
            }
            &&& round == clock.round && clock.votes.contains(author) && stake_of(
                committee.stakes@,
                clock.votes,
            ) < committee.quorum_threshold ==> after == clock
        }),
{
    lemma_no_votes(committee.stakes@);
    lemma_stake_insert(committee.stakes@, Set::empty(), author);
    if clock.votes.contains(author) {
        assert(clock.votes.insert(author) =~= clock.votes);
    } else {
        lemma_stake_insert(committee.stakes@, clock.votes, author);
    }
}

} // verus!
