//! Checking what a peer has returned.
use std::sync::Arc;

use vstd::prelude::*;

use crate::commit::{CertifiedContent, Commit, CommitVersion, TrustedCommit};
use crate::commit_syncer::shared::MAX_COMMIT_VOTE_HEADERS_PER_AUTHORITY;
use crate::commit_syncer::wire::{bcs_byte_lists, contents, decode_transactions};
use crate::committee::{Committee, StakeAggregator};
use crate::error::{ConsensusError, ConsensusResult};
use crate::header::{share, BlockTransactions, Bytes, VerifiedBlockHeader, VerifiedTransactions};
use crate::refs::{
    AuthorityIndex, BlockRef, CommitDigest, CommitIndex, CommitRange, CommitRef,
    GenericTransactionRef, TransactionRef, TransactionsCommitment, GENESIS_ROUND,
};
use crate::sorted::SortedMap;

verus! {

/// Is `out` what checking `bytes` against the requested reference gives?
pub open spec fn checked_header<F: Fn(Bytes) -> ConsensusResult<VerifiedBlockHeader>>(
    parse: &F,
    peer: AuthorityIndex,
    requested: BlockRef,
    bytes: Bytes,
    out: ConsensusResult<VerifiedBlockHeader>,
) -> bool {
    exists|parsed: ConsensusResult<VerifiedBlockHeader>| #[trigger]
        parse.ensures((bytes,), parsed) && out == match parsed {
            Ok(header) => if header.reference == requested {
                Ok(header)
            } else {
                Err(
                    ConsensusError::UnexpectedBlockHeaderForCommit {
                        peer,
                        requested,
                        received: header.reference,
                    },
                )
            },
            Err(e) => Err(e),
        }
}

/// Does `bytes` pass as the requested header?
pub open spec fn header_passes<F: Fn(Bytes) -> ConsensusResult<VerifiedBlockHeader>>(
    parse: &F,
    peer: AuthorityIndex,
    requested: BlockRef,
    bytes: Bytes,
) -> bool {
    exists|h: VerifiedBlockHeader| checked_header(parse, peer, requested, bytes, Ok(h))
}

/// The references of headers, in order.
pub open spec fn header_refs(headers: Seq<VerifiedBlockHeader>) -> Seq<BlockRef> {
    headers.map_values(|h: VerifiedBlockHeader| h.reference)
}

/// Checks that fetched headers are those requested, in the order requested. The
/// first one that is not is the error. `parse` decodes a header.
pub fn verify_fetched_headers<F: Fn(Bytes) -> ConsensusResult<VerifiedBlockHeader>>(
    peer: AuthorityIndex,
    request_block_refs: &[BlockRef],
    serialized_block_headers: &Vec<Bytes>,
    parse: &F,
) -> (r: ConsensusResult<Vec<VerifiedBlockHeader>>)
    requires
        forall|b: Bytes| #[trigger] parse.requires((b,)),
    ensures
        if request_block_refs@.len() != serialized_block_headers@.len() {
            r == Err::<Vec<VerifiedBlockHeader>, _>(
                ConsensusError::UnexpectedNumberOfHeadersFetched {
                    authority: peer,
                    requested: request_block_refs@.len() as usize,
                    received_headers: serialized_block_headers@.len() as usize,
                },
            )
        } else {
            match r {
                Ok(headers) => {
                    &&& header_refs(headers@) == request_block_refs@
                    &&& headers@.len() == request_block_refs@.len()
                    &&& forall|i: int|
                        0 <= i < headers@.len() ==> checked_header(
                            parse,
                            peer,
                            request_block_refs@[i],
                            serialized_block_headers@[i],
                            Ok(#[trigger] headers@[i]),
                        )
                },
                Err(e) => exists|j: int|
                    {
                        &&& 0 <= j < request_block_refs@.len()
                        &&& checked_header(
                            parse,
                            peer,
                            request_block_refs@[j],
                            #[trigger] serialized_block_headers@[j],
                            Err(e),
                        )
                        &&& forall|i: int|
                            0 <= i < j ==> header_passes(
                                parse,
                                peer,
                                request_block_refs@[i],
                                #[trigger] serialized_block_headers@[i],
                            )
                    },
            }
        },
{
    if request_block_refs.len() != serialized_block_headers.len() {
        return Err(
            ConsensusError::UnexpectedNumberOfHeadersFetched {
                authority: peer,
                requested: request_block_refs.len(),
                received_headers: serialized_block_headers.len(),
            },
        );
    }
    let mut headers: Vec<VerifiedBlockHeader> = Vec::new();
    let mut i: usize = 0;
    while i < request_block_refs.len()
        invariant
            forall|b: Bytes| #[trigger] parse.requires((b,)),
            request_block_refs@.len() == serialized_block_headers@.len(),
            i <= request_block_refs@.len(),
            headers@.len() == i,
            forall|k: int|
                0 <= k < i ==> checked_header(
                    parse,
                    peer,
                    request_block_refs@[k],
                    serialized_block_headers@[k],
                    Ok(#[trigger] headers@[k]),
                ),
        decreases request_block_refs@.len() - i,
    {
        let requested = request_block_refs[i];
        let bytes = share(&serialized_block_headers[i]);
        let parsed = parse(bytes);
        proof {
            assert forall|k: int| 0 <= k < i implies header_passes(
                parse,
                peer,
                request_block_refs@[k],
                #[trigger] serialized_block_headers@[k],
            ) by {
                assert(checked_header(
                    parse,
                    peer,
                    request_block_refs@[k],
                    serialized_block_headers@[k],
                    Ok(headers@[k]),
                ));
            }
            assert(serialized_block_headers@[i as int] == bytes);
            assert(parse.ensures((bytes,), parsed));
        }
        match parsed {
            Ok(header) => {
                if header.reference != requested {
                    let error = ConsensusError::UnexpectedBlockHeaderForCommit {
                        peer,
                        requested,
                        received: header.reference,
                    };
                    assert(checked_header(
                        parse,
                        peer,
                        request_block_refs@[i as int],
                        serialized_block_headers@[i as int],
                        Err(error),
                    ));
                    return Err(error);
                }
                assert(checked_header(parse, peer, requested, bytes, Ok(header)));
                headers.push(header);
            },
            Err(e) => {
                assert(checked_header(
                    parse,
                    peer,
                    request_block_refs@[i as int],
                    serialized_block_headers@[i as int],
                    Err(e),
                ));
                return Err(e);
            },
        }
        i = i + 1;
    }
    Ok(headers)
}

/// The name of a commit's layout.
pub open spec fn version_name(version: CommitVersion) -> &'static str {
    match version {
        CommitVersion::V1 => "V1",
        CommitVersion::V2 => "V2",
        CommitVersion::V3 => "V3",
    }
}

/// Is the layout the one in use?
pub open spec fn version_fits(version: CommitVersion, starfish_speed: bool) -> bool {
    if starfish_speed {
        version == CommitVersion::V3
    } else {
        version == CommitVersion::V2
    }
}

/// Rejects a commit in another layout than the one in use.
pub fn check_commit_version_matches_flags(commit: &Commit, starfish_speed: bool) -> (r:
    ConsensusResult<()>)
    ensures
        r == if version_fits(commit.version, starfish_speed) {
            Ok::<(), ConsensusError>(())
        } else {
            Err(
                ConsensusError::WrongCommitVersionForFlags {
                    actual: version_name(commit.version),
                    starfish_speed,
                },
            )
        },
{
    let fits = match commit.version {
        CommitVersion::V1 => false,
        CommitVersion::V2 => !starfish_speed,
        CommitVersion::V3 => starfish_speed,
    };
    if fits {
        return Ok(());
    }
    let actual = match commit.version {
        CommitVersion::V1 => "V1",
        CommitVersion::V2 => "V2",
        CommitVersion::V3 => "V3",
    };
    Err(ConsensusError::WrongCommitVersionForFlags { actual, starfish_speed })
}

/// The authorities that a commit names, in the order in which they are checked.
pub open spec fn named_authorities(commit: Commit) -> Seq<AuthorityIndex> {
    seq![commit.leader.author] + commit.block_headers@.map_values(|r: BlockRef| r.author)
        + commit.committed_transactions@.map_values(
        |t: GenericTransactionRef| t.spec_author(),
    ) + commit.reputation_scores@.map_values(|s: (AuthorityIndex, u64)| s.0)
}

/// The first of these that is not of the committee, as an error.
pub open spec fn first_invalid(
    committee: Committee,
    peer: AuthorityIndex,
    named: Seq<AuthorityIndex>,
) -> Option<ConsensusError>
    decreases named.len(),
{
    if named.len() == 0 {
        None
    } else {
        match first_invalid(committee, peer, named.drop_last()) {
            Some(e) => Some(e),
            None => if committee.is_valid_index(named.last()) {
                None
            } else {
                Some(
                    ConsensusError::InvalidAuthorityIndexRequested {
                        index: named.last(),
                        max: committee.stakes@.len() as usize,
                        peer,
                    },
                )
            },
        }
    }
}

/// Checks one more authority.
fn check_next(
    committee: &Committee,
    peer: AuthorityIndex,
    index: AuthorityIndex,
    Ghost(before): Ghost<Seq<AuthorityIndex>>,
) -> (r: ConsensusResult<()>)
    requires
        first_invalid(*committee, peer, before) is None,
    ensures
        match r {
            Ok(_) => first_invalid(*committee, peer, before.push(index)) is None,
            Err(e) => first_invalid(*committee, peer, before.push(index)) == Some(e),
        },
{
    assert(before.push(index).drop_last() =~= before);
    if !committee.is_valid_index(index) {
        return Err(
            ConsensusError::InvalidAuthorityIndexRequested { index, max: committee.size(), peer },
        );
    }
    Ok(())
}

/// Once something is invalid, it stays the first.
proof fn lemma_first_invalid_extends(
    committee: Committee,
    peer: AuthorityIndex,
    named: Seq<AuthorityIndex>,
    n: int,
)
    requires
        0 <= n <= named.len(),
        first_invalid(committee, peer, named.take(n)) is Some,
    ensures
        first_invalid(committee, peer, named) == first_invalid(committee, peer, named.take(n)),
    decreases named.len(),
{
    if n == named.len() {
        assert(named.take(n) =~= named);
    } else {
        assert(named.drop_last().take(n) =~= named.take(n));
        lemma_first_invalid_extends(committee, peer, named.drop_last(), n);
    }
}

/// Checks that each authority that a commit names is of the committee.
pub fn verify_commit_authority_indices(
    committee: &Committee,
    peer: AuthorityIndex,
    commit: &Commit,
) -> (r: ConsensusResult<()>)
    ensures
        match r {
            Ok(_) => first_invalid(*committee, peer, named_authorities(*commit)) is None,
            Err(e) => first_invalid(*committee, peer, named_authorities(*commit)) == Some(e),
        },
{
    let ghost all = named_authorities(*commit);
    let ghost h = commit.block_headers@.len() as int;
    let ghost t = commit.committed_transactions@.len() as int;
    let ghost s = commit.reputation_scores@.len() as int;
    proof {
        assert(all.len() == 1 + h + t + s);
        assert(all.take(0) =~= Seq::empty());
        assert(all.take(0).push(all[0]) =~= all.take(1));
    }
    match check_next(committee, peer, commit.leader.author, Ghost(all.take(0))) {
        Ok(_) => {},
        Err(e) => {
            proof {
                lemma_first_invalid_extends(*committee, peer, all, 1);
            }
            return Err(e);
        },
    }
    let mut i: usize = 0;
    while i < commit.block_headers.len()
        invariant
            all == named_authorities(*commit),
            h == commit.block_headers@.len(),
            i <= h,
            all.len() >= 1 + h,
            first_invalid(*committee, peer, all.take(1 + i)) is None,
        decreases h - i,
    {
        proof {
            assert(all.take(1 + i).push(all[1 + i]) =~= all.take(2 + i));
            assert(all[1 + i] == commit.block_headers@[i as int].author);
        }
        match check_next(
            committee,
            peer,
            commit.block_headers[i].author,
            Ghost(all.take(1 + i)),
        ) {
            Ok(_) => {},
            Err(e) => {
                proof {
                    lemma_first_invalid_extends(*committee, peer, all, 2 + i);
                }
                return Err(e);
            },
        }
        i = i + 1;
    }
    let mut i: usize = 0;
    while i < commit.committed_transactions.len()
        invariant
            all == named_authorities(*commit),
            h == commit.block_headers@.len(),
            t == commit.committed_transactions@.len(),
            i <= t,
            all.len() >= 1 + h + t,
            first_invalid(*committee, peer, all.take(1 + h + i)) is None,
        decreases t - i,
    {
        proof {
            assert(all.take(1 + h + i).push(all[1 + h + i]) =~= all.take(2 + h + i));
            assert(all[1 + h + i] == commit.committed_transactions@[i as int].spec_author());
        }
        match check_next(
            committee,
            peer,
            commit.committed_transactions[i].author(),
            Ghost(all.take(1 + h + i)),
        ) {
            Ok(_) => {},
            Err(e) => {
                proof {
                    lemma_first_invalid_extends(*committee, peer, all, 2 + h + i);
                }
                return Err(e);
            },
        }
        i = i + 1;
    }
    let mut i: usize = 0;
    while i < commit.reputation_scores.len()
        invariant
            all == named_authorities(*commit),
            h == commit.block_headers@.len(),
            t == commit.committed_transactions@.len(),
            s == commit.reputation_scores@.len(),
            i <= s,
            all.len() == 1 + h + t + s,
            first_invalid(*committee, peer, all.take(1 + h + t + i)) is None,
        decreases s - i,
    {
        proof {
            assert(all.take(1 + h + t + i).push(all[1 + h + t + i]) =~= all.take(2 + h + t + i));
            assert(all[1 + h + t + i] == commit.reputation_scores@[i as int].0);
        }
        match check_next(
            committee,
            peer,
            commit.reputation_scores[i].0,
            Ghost(all.take(1 + h + t + i)),
        ) {
            Ok(_) => {},
            Err(e) => {
                proof {
                    lemma_first_invalid_extends(*committee, peer, all, 2 + h + t + i);
                }
                return Err(e);
            },
        }
        i = i + 1;
    }
    assert(all.take(1 + h + t + s) =~= all);
    Ok(())
}

/// A commit as it came in, with its digest and what it decodes to.
#[derive(Debug)]
pub struct CommitMessage {
    pub serialized: Bytes,
    pub digest: CommitDigest,
    pub decoded: Result<Arc<Commit>, bcs::Error>,
}

/// A header with votes as it came in: what it decodes to, and what the verifier
/// of headers says of it.
#[derive(Debug)]
pub struct VoteMessage {
    pub decoded: Result<VerifiedBlockHeader, bcs::Error>,
    pub verdict: ConsensusResult<()>,
}

/// Why a response was not accepted, and whose faulty header is to be put on
/// record for it, if any.
#[derive(Debug)]
pub struct Rejection {
    pub error: ConsensusError,
    pub faulty_header_author: Option<AuthorityIndex>,
}

/// What is wrong with the `i`-th commit, given that those before it are fine.
pub open spec fn commit_fault(
    committee: Committee,
    starfish_speed: bool,
    peer: AuthorityIndex,
    start: CommitIndex,
    messages: Seq<CommitMessage>,
    i: int,
) -> Option<ConsensusError> {
    match messages[i].decoded {
        Err(e) => Some(ConsensusError::MalformedCommit(e)),
        Ok(commit) => if !version_fits(commit.version, starfish_speed) {
            Some(
                ConsensusError::WrongCommitVersionForFlags {
                    actual: version_name(commit.version),
                    starfish_speed,
                },
            )
        } else if first_invalid(committee, peer, named_authorities(*commit)) is Some {
            first_invalid(committee, peer, named_authorities(*commit))
        } else if i == 0 {
            if commit.index != start {
                Some(ConsensusError::UnexpectedStartCommit { peer, start, commit })
            } else {
                None
            }
        } else {
            let prev = messages[i - 1];
            let prev_commit = prev.decoded->Ok_0;
            if commit.index != prev_commit.index + 1 || commit.previous_digest != prev.digest {
                Some(
                    ConsensusError::UnexpectedCommitSequence {
                        peer,
                        prev_commit,
                        curr_commit: commit,
                    },
                )
            } else {
                None
            }
        },
    }
}

/// Are the first `n` commits fine?
pub open spec fn commits_fine(
    committee: Committee,
    starfish_speed: bool,
    peer: AuthorityIndex,
    start: CommitIndex,
    messages: Seq<CommitMessage>,
    n: int,
) -> bool {
    forall|i: int|
        0 <= i < n ==> (#[trigger] commit_fault(
            committee,
            starfish_speed,
            peer,
            start,
            messages,
            i,
        )) is None
}

/// What is wrong with a header with votes, and who is to blame: its author, or
/// the peer where it cannot be decoded.
pub open spec fn vote_fault(peer: AuthorityIndex, m: VoteMessage) -> Option<Rejection> {
    match m.decoded {
        Err(e) => Some(
            Rejection {
                error: ConsensusError::MalformedHeader(e),
                faulty_header_author: Some(peer),
            },
        ),
        Ok(h) => match m.verdict {
            Err(e) => Some(
                Rejection { error: e, faulty_header_author: Some(h.reference.author) },
            ),
            Ok(_) => None,
        },
    }
}

/// The authors of the headers that vote for `target`.
pub open spec fn voters(votes: Seq<VoteMessage>, target: CommitRef) -> Set<AuthorityIndex>
    decreases votes.len(),
{
    if votes.len() == 0 {
        Set::empty()
    } else {
        let before = voters(votes.drop_last(), target);
        let h = votes.last().decoded->Ok_0;
        if votes.last().decoded is Ok && h.commit_votes@.contains(target) {
            before.insert(h.reference.author)
        } else {
            before
        }
    }
}

/// The reference of the last commit.
pub open spec fn end_ref(messages: Seq<CommitMessage>) -> CommitRef {
    CommitRef {
        index: messages.last().decoded->Ok_0.index,
        digest: messages.last().digest,
    }
}

/// How many headers with votes a response may hold.
pub open spec fn max_vote_headers(committee: Committee) -> int {
    committee.stakes@.len() * MAX_COMMIT_VOTE_HEADERS_PER_AUTHORITY
}

/// Do the commits form a chain from `start` that a quorum certifies?
pub open spec fn is_certified_chain(
    committee: Committee,
    starfish_speed: bool,
    peer: AuthorityIndex,
    start: CommitIndex,
    messages: Seq<CommitMessage>,
    votes: Seq<VoteMessage>,
    max_commits: int,
) -> bool {
    &&& 0 < messages.len() <= max_commits
    &&& votes.len() <= max_vote_headers(committee)
    &&& commits_fine(committee, starfish_speed, peer, start, messages, messages.len() as int)
    &&& forall|i: int| 0 <= i < votes.len() ==> vote_fault(peer, #[trigger] votes[i]) is None
    &&& committee.is_quorum(voters(votes, end_ref(messages)))
}

/// Is this why the response is not accepted? Sizes are looked at first, then the
/// commits in their order, then the votes in theirs, and last whether they are
/// enough.
pub open spec fn is_rejection(
    committee: Committee,
    starfish_speed: bool,
    peer: AuthorityIndex,
    start: CommitIndex,
    messages: Seq<CommitMessage>,
    votes: Seq<VoteMessage>,
    max_commits: int,
    r: Rejection,
) -> bool {
    if messages.len() > max_commits {
        r == (Rejection {
            error: ConsensusError::TooManyCommitsFromPeer {
                peer,
                count: messages.len() as CommitIndex,
                limit: max_commits as CommitIndex,
            },
            faulty_header_author: None,
        })
    } else if votes.len() > max_vote_headers(committee) {
        r == (Rejection {
            error: ConsensusError::TooManyCommitVoteHeaders {
                peer,
                count: votes.len() as usize,
                limit: max_vote_headers(committee) as usize,
            },
            faulty_header_author: None,
        })
    } else if !commits_fine(
        committee,
        starfish_speed,
        peer,
        start,
        messages,
        messages.len() as int,
    ) {
        exists|j: int|
            {
                &&& 0 <= j < messages.len()
                &&& commits_fine(committee, starfish_speed, peer, start, messages, j)
                &&& Some(r.error) == #[trigger] commit_fault(
                    committee,
                    starfish_speed,
                    peer,
                    start,
                    messages,
                    j,
                )
                &&& r.faulty_header_author is None
            }
    } else if messages.len() == 0 {
        r == (Rejection {
            error: ConsensusError::NoCommitReceived { peer },
            faulty_header_author: None,
        })
    } else if exists|j: int| 0 <= j < votes.len() && vote_fault(peer, #[trigger] votes[j]) is Some {
        exists|j: int|
            {
                &&& 0 <= j < votes.len()
                &&& vote_fault(peer, #[trigger] votes[j]) == Some(r)
                &&& forall|i: int| 0 <= i < j ==> vote_fault(peer, #[trigger] votes[i]) is None
            }
    } else {
        &&& !committee.is_quorum(voters(votes, end_ref(messages)))
        &&& r == (Rejection {
            error: ConsensusError::NotEnoughCommitVotes {
                stake: crate::committee::stake_of(
                    committee.stakes@,
                    voters(votes, end_ref(messages)),
                ) as u64,
                peer,
                commit: messages.last().decoded->Ok_0,
            },
            faulty_header_author: None,
        })
    }
}

/// Rejects a response that is too long, before any of it is decoded.
pub fn check_response_sizes(
    committee: &Committee,
    peer: AuthorityIndex,
    num_commits: usize,
    num_vote_headers: usize,
    max_commits: usize,
) -> (r: ConsensusResult<()>)
    requires
        committee.wf(),
    ensures
        r == if num_commits > max_commits {
            Err(
                ConsensusError::TooManyCommitsFromPeer {
                    peer,
                    count: num_commits as CommitIndex,
                    limit: max_commits as CommitIndex,
                },
            )
        } else if num_vote_headers > max_vote_headers(*committee) {
            Err(
                ConsensusError::TooManyCommitVoteHeaders {
                    peer,
                    count: num_vote_headers,
                    limit: max_vote_headers(*committee) as usize,
                },
            )
        } else {
            Ok::<(), ConsensusError>(())
        },
{
    if num_commits > max_commits {
        return Err(
            ConsensusError::TooManyCommitsFromPeer {
                peer,
                count: #[verifier::truncate] (num_commits as CommitIndex),
                limit: #[verifier::truncate] (max_commits as CommitIndex),
            },
        );
    }
    let limit: usize = committee.size() * MAX_COMMIT_VOTE_HEADERS_PER_AUTHORITY;
    if num_vote_headers > limit {
        return Err(
            ConsensusError::TooManyCommitVoteHeaders { peer, count: num_vote_headers, limit },
        );
    }
    Ok(())
}

/// Checks one commit against the one before it.
fn check_commit(
    committee: &Committee,
    starfish_speed: bool,
    peer: AuthorityIndex,
    start: CommitIndex,
    last: &Option<TrustedCommit>,
    commit: &Arc<Commit>,
    Ghost(messages): Ghost<Seq<CommitMessage>>,
    Ghost(i): Ghost<int>,
) -> (r: ConsensusResult<()>)
    requires
        0 <= i < messages.len(),
        messages[i].decoded == Ok::<Arc<Commit>, bcs::Error>(*commit),
        i == 0 <==> last is None,
        i > 0 ==> messages[i - 1].decoded == Ok::<Arc<Commit>, bcs::Error>(
            last->Some_0.commit,
        ) && messages[i - 1].digest == last->Some_0.digest,
    ensures
        match r {
            Ok(_) => commit_fault(*committee, starfish_speed, peer, start, messages, i) is None,
            Err(e) => commit_fault(*committee, starfish_speed, peer, start, messages, i) == Some(e),
        },
{
    match check_commit_version_matches_flags(commit, starfish_speed) {
        Ok(_) => {},
        Err(e) => {
            return Err(e);
        },
    }
    match verify_commit_authority_indices(committee, peer, commit) {
        Ok(_) => {},
        Err(e) => {
            return Err(e);
        },
    }
    match last {
        None => {
            if commit.index != start {
                return Err(
                    ConsensusError::UnexpectedStartCommit { peer, start, commit: share(commit) },
                );
            }
        },
        Some(prev) => {
            if prev.commit.index == CommitIndex::MAX || commit.index != prev.commit.index + 1
                || commit.previous_digest != prev.digest {
                return Err(
                    ConsensusError::UnexpectedCommitSequence {
                        peer,
                        prev_commit: share(&prev.commit),
                        curr_commit: share(commit),
                    },
                );
            }
        },
    }
    Ok(())
}

/// Is `target` among the votes?
fn has_vote(votes: &Vec<CommitRef>, target: &CommitRef) -> (r: bool)
    ensures
        r == votes@.contains(*target),
{
    let mut i: usize = 0;
    while i < votes.len()
        invariant
            i <= votes@.len(),
            forall|k: int| 0 <= k < i ==> votes@[k] != *target,
        decreases votes@.len() - i,
    {
        if votes[i] == *target {
            assert(votes@[i as int] == *target);
            return true;
        }
        i = i + 1;
    }
    false
}

/// The commit of a message, now trusted.
pub open spec fn is_trusted(m: CommitMessage, c: TrustedCommit) -> bool {
    &&& m.decoded == Ok::<Arc<Commit>, bcs::Error>(c.commit)
    &&& c.digest == m.digest
    &&& c.serialized == m.serialized
}

/// Checks that commits form a chain from the start of the range, and that the
/// votes certify the last of them, which certifies all of them.
pub fn verify_commits(
    committee: &Committee,
    starfish_speed: bool,
    peer: AuthorityIndex,
    commit_range: CommitRange,
    messages: Vec<CommitMessage>,
    votes: Vec<VoteMessage>,
    max_commits: usize,
) -> (r: Result<(Vec<TrustedCommit>, Vec<VerifiedBlockHeader>), Rejection>)
    requires
        committee.wf(),
        forall|i: int|
            0 <= i < votes@.len() && (#[trigger] votes@[i]).decoded is Ok && votes@[i].verdict is Ok
                ==> committee.is_valid_index(votes@[i].decoded->Ok_0.reference.author),
    ensures
        match r {
            Ok((commits, headers)) => {
                &&& is_certified_chain(
                    *committee,
                    starfish_speed,
                    peer,
                    commit_range.start,
                    messages@,
                    votes@,
                    max_commits as int,
                )
                &&& commits@.len() == messages@.len()
                &&& forall|i: int|
                    0 <= i < commits@.len() ==> is_trusted(messages@[i], #[trigger] commits@[i])
                &&& headers@.len() == votes@.len()
                &&& forall|i: int|
                    0 <= i < headers@.len() ==> votes@[i].decoded == Ok::<
                        VerifiedBlockHeader,
                        bcs::Error,
                    >(#[trigger] headers@[i])
            },
            Err(rejection) => {
                &&& is_rejection(
                    *committee,
                    starfish_speed,
                    peer,
                    commit_range.start,
                    messages@,
                    votes@,
                    max_commits as int,
                    rejection,
                )
                &&& !is_certified_chain(
                    *committee,
                    starfish_speed,
                    peer,
                    commit_range.start,
                    messages@,
                    votes@,
                    max_commits as int,
                )
            },
        },
{
    let start = commit_range.start;
    match check_response_sizes(committee, peer, messages.len(), votes.len(), max_commits) {
        Ok(_) => {},
        Err(error) => {
            return Err(Rejection { error, faulty_header_author: None });
        },
    }
    let ghost all = messages@;
    let ghost all_votes = votes@;
    let mut queue = messages;
    let mut ballots = votes;
    let mut commits: Vec<TrustedCommit> = Vec::new();
    let mut last: Option<TrustedCommit> = None;
    let n: usize = queue.len();
    let mut i: usize = 0;
    assert(all.skip(0) =~= all);
    while i < n
        invariant
            all == messages@,
            all_votes == votes@,
            start == commit_range.start,
            all.len() <= max_commits,
            all_votes.len() <= max_vote_headers(*committee),
            n == all.len(),
            i <= n,
            queue@ == all.skip(i as int),
            commits@.len() == i,
            forall|k: int|
                0 <= k < i ==> is_trusted(all[k], #[trigger] commits@[k]),
            last == if i == 0 {
                None
            } else {
                Some(commits@[i - 1])
            },
            commits_fine(*committee, starfish_speed, peer, start, all, i as int),
        decreases n - i,
    {
        let message = queue.remove(0);
        proof {
            assert(message == all[i as int]);
            assert(queue@ =~= all.skip(i + 1));
            if i > 0 {
                assert(is_trusted(all[i - 1], commits@[i - 1]));
            }
        }
        match message.decoded {
            Err(e) => {
                assert(commit_fault(*committee, starfish_speed, peer, start, all, i as int)
                    is Some);
                return Err(
                    Rejection {
                        error: ConsensusError::MalformedCommit(e),
                        faulty_header_author: None,
                    },
                );
            },
            Ok(commit) => {
                match check_commit(
                    committee,
                    starfish_speed,
                    peer,
                    start,
                    &last,
                    &commit,
                    Ghost(all),
                    Ghost(i as int),
                ) {
                    Ok(_) => {},
                    Err(error) => {
                        return Err(Rejection { error, faulty_header_author: None });
                    },
                }
                let trusted = Arc::new(
                    CertifiedContent {
                        commit,
                        digest: message.digest,
                        serialized: message.serialized,
                    },
                );
                last = Some(share(&trusted));
                commits.push(trusted);
            },
        }
        i = i + 1;
    }
    let end = match last {
        None => {
            return Err(
                Rejection {
                    error: ConsensusError::NoCommitReceived { peer },
                    faulty_header_author: None,
                },
            );
        },
        Some(end) => end,
    };
    let target = end.reference();
    assert(is_trusted(all[n - 1], commits@[n - 1]));
    assert(target == end_ref(all));
    let mut aggregator = StakeAggregator::new();
    let mut headers: Vec<VerifiedBlockHeader> = Vec::new();
    let m: usize = ballots.len();
    let mut i: usize = 0;
    assert(all_votes.skip(0) =~= all_votes);
    assert(all_votes.take(0) =~= Seq::empty());
    while i < m
        invariant
            all == messages@,
            all_votes == votes@,
            start == commit_range.start,
            committee.wf(),
            m == all_votes.len(),
            i <= m,
            0 < all.len() <= max_commits,
            all_votes.len() <= max_vote_headers(*committee),
            commits_fine(*committee, starfish_speed, peer, start, all, all.len() as int),
            target == end_ref(all),
            ballots@ == all_votes.skip(i as int),
            forall|k: int|
                0 <= k < m && (#[trigger] all_votes[k]).decoded is Ok && all_votes[k].verdict is Ok
                    ==> committee.is_valid_index(all_votes[k].decoded->Ok_0.reference.author),
            forall|k: int| 0 <= k < i ==> vote_fault(peer, #[trigger] all_votes[k]) is None,
            aggregator.wf(*committee),
            aggregator@ == voters(all_votes.take(i as int), target),
            headers@.len() == i,
            forall|k: int|
                0 <= k < i ==> all_votes[k].decoded == Ok::<VerifiedBlockHeader, bcs::Error>(
                    #[trigger] headers@[k],
                ),
        decreases m - i,
    {
        let vote = ballots.remove(0);
        proof {
            assert(vote == all_votes[i as int]);
            assert(ballots@ =~= all_votes.skip(i + 1));
            assert(all_votes.take(i + 1).drop_last() =~= all_votes.take(i as int));
            assert(all_votes.take(i + 1).last() == vote);
        }
        match vote.decoded {
            Err(e) => {
                proof {
                    assert(vote_fault(peer, all_votes[i as int]) is Some);
                }
                return Err(
                    Rejection {
                        error: ConsensusError::MalformedHeader(e),
                        faulty_header_author: Some(peer),
                    },
                );
            },
            Ok(header) => {
                match vote.verdict {
                    Err(error) => {
                        proof {
                            assert(vote_fault(peer, all_votes[i as int]) is Some);
                        }
                        return Err(
                            Rejection {
                                error,
                                faulty_header_author: Some(header.reference.author),
                            },
                        );
                    },
                    Ok(_) => {},
                }
                assert(all_votes[i as int].decoded is Ok);
                if has_vote(&header.commit_votes, &target) {
                    aggregator.add(header.reference.author, committee);
                }
                headers.push(header);
            },
        }
        i = i + 1;
    }
    assert(all_votes.take(i as int) =~= all_votes);
    if !aggregator.reached_threshold(committee) {
        return Err(
            Rejection {
                error: ConsensusError::NotEnoughCommitVotes {
                    stake: aggregator.stake,
                    peer,
                    commit: share(&end.commit),
                },
                faulty_header_author: None,
            },
        );
    }
    Ok((commits, headers))
}

/// Accepted commits start where they were asked for, follow one another by index
/// and by digest, and are certified by a quorum.
pub proof fn law_accepted_commits_are_chained(
    committee: Committee,
    starfish_speed: bool,
    peer: AuthorityIndex,
    start: CommitIndex,
    messages: Seq<CommitMessage>,
    votes: Seq<VoteMessage>,
    max_commits: int,
    commits: Seq<TrustedCommit>,
)
    requires
        is_certified_chain(
            committee,
            starfish_speed,
            peer,
            start,
            messages,
            votes,
            max_commits,
        ),
        commits.len() == messages.len(),
        forall|i: int|
            0 <= i < commits.len() ==> is_trusted(messages[i], #[trigger] commits[i]),
    ensures
        commits[0].commit.index == start,
        forall|i: int, j: int|
            0 <= i < commits.len() && j == i + 1 && j < commits.len() ==> (
            #[trigger] commits[j]).commit.index == (#[trigger] commits[i]).commit.index + 1
                && commits[j].commit.previous_digest == commits[i].digest,
        committee.is_quorum(
            voters(votes, commits.last().spec_reference()),
        ),
        forall|i: int|
            0 <= i < commits.len() ==> committee.is_valid_index(
                (#[trigger] commits[i]).commit.leader.author,
            ) && version_fits(commits[i].commit.version, starfish_speed),
{
    assert forall|i: int| 0 <= i < commits.len() implies committee.is_valid_index(
        (#[trigger] commits[i]).commit.leader.author,
    ) && version_fits(commits[i].commit.version, starfish_speed) by {
        lemma_fine_commit(committee, starfish_speed, peer, start, messages, commits[i], i);
    }
    lemma_chain(committee, starfish_speed, peer, start, messages, commits, commits.len() - 1);
    assert forall|i: int, j: int|
        0 <= i < commits.len() && j == i + 1 && j < commits.len() implies (
    #[trigger] commits[j]).commit.index == (#[trigger] commits[i]).commit.index + 1
        && commits[j].commit.previous_digest == commits[i].digest by {
        lemma_chain(committee, starfish_speed, peer, start, messages, commits, i);
        lemma_chain(committee, starfish_speed, peer, start, messages, commits, j);
    }
    assert(is_trusted(messages.last(), commits[commits.len() - 1]));
    assert(commits.last().spec_reference() == end_ref(messages));
}

/// The authorities that a trusted commit names.
spec fn named_in(commit: TrustedCommit) -> Seq<AuthorityIndex> {
    named_authorities(*commit.commit)
}

proof fn lemma_fine_commit(
    committee: Committee,
    starfish_speed: bool,
    peer: AuthorityIndex,
    start: CommitIndex,
    messages: Seq<CommitMessage>,
    commit: TrustedCommit,
    i: int,
)
    requires
        commits_fine(committee, starfish_speed, peer, start, messages, messages.len() as int),
        0 <= i < messages.len(),
        is_trusted(messages[i], commit),
    ensures
        committee.is_valid_index(commit.commit.leader.author),
        version_fits(commit.commit.version, starfish_speed),
{
    assert(commit_fault(committee, starfish_speed, peer, start, messages, i) is None);
    let named = named_in(commit);
    if first_invalid(committee, peer, named.take(1)) is Some {
        lemma_first_invalid_extends(committee, peer, named, 1);
    }
    assert(named.take(1).drop_last() =~= Seq::empty());
    assert(named.take(1).last() == commit.commit.leader.author);
}

proof fn lemma_chain(
    committee: Committee,
    starfish_speed: bool,
    peer: AuthorityIndex,
    start: CommitIndex,
    messages: Seq<CommitMessage>,
    commits: Seq<TrustedCommit>,
    i: int,
)
    requires
        commits_fine(committee, starfish_speed, peer, start, messages, messages.len() as int),
        commits.len() == messages.len(),
        forall|i: int|
            0 <= i < commits.len() ==> is_trusted(messages[i], #[trigger] commits[i]),
        0 <= i < commits.len(),
    ensures
        commits[i].commit.index == start + i,
        i > 0 ==> commits[i].commit.previous_digest == commits[i - 1].digest,
        commits[0].commit.index == start,
    decreases i,
{
    assert(commit_fault(committee, starfish_speed, peer, start, messages, i) is None);
    assert(commit_fault(committee, starfish_speed, peer, start, messages, 0) is None);
    assert(is_trusted(messages[i], commits[i]));
    assert(is_trusted(messages[0], commits[0]));
    if i > 0 {
        assert(is_trusted(messages[i - 1], commits[i - 1]));
        lemma_chain(committee, starfish_speed, peer, start, messages, commits, i - 1);
    }
}

impl GenericTransactionRef {
    /// The reference by commitment, or an error where it is one by header.
    pub fn expect_transaction_ref(&self) -> (r: ConsensusResult<TransactionRef>)
        ensures
            r == match *self {
                GenericTransactionRef::TransactionRef(t) => Ok::<TransactionRef, ConsensusError>(t),
                GenericTransactionRef::BlockRef(_) => Err(unexpected_block_ref()),
            },
    {
        match self {
            GenericTransactionRef::TransactionRef(t) => Ok(*t),
            GenericTransactionRef::BlockRef(_) => Err(
                ConsensusError::TransactionRefVariantMismatch {
                    protocol_flag_enabled: true,
                    expected_variant: "TransactionRef",
                    received_variant: "BlockRef",
                },
            ),
        }
    }
}

/// The error for a reference by header where one by commitment is due.
pub open spec fn unexpected_block_ref() -> ConsensusError {
    ConsensusError::TransactionRefVariantMismatch {
        protocol_flag_enabled: true,
        expected_variant: "TransactionRef",
        received_variant: "BlockRef",
    }
}

/// Are these the transactions that `bytes` holds, under the reference `t`?
pub open spec fn holds_transactions(
    v: VerifiedTransactions,
    t: TransactionRef,
    bytes: Bytes,
) -> bool {
    &&& bcs_byte_lists(bytes@) == Some(contents(v.transactions@))
    &&& v.transaction_ref == t
    &&& v.block_digest is None
    &&& v.serialized == bytes
}

/// Is `out` what checking the transactions sent as those of `k` gives? Their
/// author and round are looked at first, then their size, then what they commit
/// to, and last what they decode to.
pub open spec fn checked_transactions<F: Fn(Bytes) -> ConsensusResult<TransactionsCommitment>>(
    committee: Committee,
    peer: AuthorityIndex,
    size_limit: usize,
    commitment_of: &F,
    k: GenericTransactionRef,
    bytes: Bytes,
    out: ConsensusResult<VerifiedTransactions>,
) -> bool {
    match k {
        GenericTransactionRef::BlockRef(_) => out == Err::<VerifiedTransactions, _>(
            unexpected_block_ref(),
        ),
        GenericTransactionRef::TransactionRef(t) => if !committee.is_valid_index(t.author) {
            out == Err::<VerifiedTransactions, _>(
                ConsensusError::InvalidAuthorityIndexRequested {
                    index: t.author,
                    max: committee.stakes@.len() as usize,
                    peer,
                },
            )
        } else if t.round == GENESIS_ROUND {
            out == Err::<VerifiedTransactions, _>(
                ConsensusError::UnexpectedGenesisRequested { peer },
            )
        } else if bytes@.len() > size_limit {
            out == Err::<VerifiedTransactions, _>(
                ConsensusError::SerializedTransactionsTooLarge {
                    size: bytes@.len() as usize,
                    limit: size_limit,
                },
            )
        } else {
            exists|c: ConsensusResult<TransactionsCommitment>|
                (#[trigger] commitment_of.ensures((bytes,), c)) && match c {
                    Err(e) => out == Err::<VerifiedTransactions, _>(e),
                    Ok(d) => if d != t.transactions_commitment {
                        out == Err::<VerifiedTransactions, _>(
                            ConsensusError::TransactionCommitmentFailure {
                                round: t.round,
                                author: t.author,
                                peer,
                            },
                        )
                    } else {
                        match out {
                            Ok(v) => holds_transactions(v, t, bytes),
                            Err(e) => e is MalformedTransactions && bcs_byte_lists(
                                bytes@,
                            ) is None,
                        }
                    },
                }
        },
    }
}

/// Do the transactions sent as those of `k` pass?
pub open spec fn transactions_pass<F: Fn(Bytes) -> ConsensusResult<TransactionsCommitment>>(
    committee: Committee,
    peer: AuthorityIndex,
    size_limit: usize,
    commitment_of: &F,
    k: GenericTransactionRef,
    bytes: Bytes,
) -> bool {
    exists|v: VerifiedTransactions|
        checked_transactions(committee, peer, size_limit, commitment_of, k, bytes, Ok(v))
}

/// Checks the transactions sent as those of `k`.
fn check_transactions<F: Fn(Bytes) -> ConsensusResult<TransactionsCommitment>>(
    committee: &Committee,
    peer: AuthorityIndex,
    size_limit: usize,
    commitment_of: &F,
    k: &GenericTransactionRef,
    bytes: &Bytes,
) -> (r: ConsensusResult<VerifiedTransactions>)
    requires
        forall|b: Bytes| #[trigger] commitment_of.requires((b,)),
    ensures
        checked_transactions(*committee, peer, size_limit, commitment_of, *k, *bytes, r),
        r is Ok ==> *k is TransactionRef,
{
    let t = match k.expect_transaction_ref() {
        Ok(t) => t,
        Err(e) => {
            return Err(e);
        },
    };
    if !committee.is_valid_index(t.author) {
        return Err(
            ConsensusError::InvalidAuthorityIndexRequested {
                index: t.author,
                max: committee.size(),
                peer,
            },
        );
    }
    if t.round == GENESIS_ROUND {
        return Err(ConsensusError::UnexpectedGenesisRequested { peer });
    }
    if bytes.len() > size_limit {
        return Err(
            ConsensusError::SerializedTransactionsTooLarge { size: bytes.len(), limit: size_limit },
        );
    }
    let c = commitment_of(share(bytes));
    assert(commitment_of.ensures((*bytes,), c));
    match c {
        Err(e) => {
            return Err(e);
        },
        Ok(d) => {
            if d != t.transactions_commitment {
                return Err(
                    ConsensusError::TransactionCommitmentFailure {
                        round: t.round,
                        author: t.author,
                        peer,
                    },
                );
            }
        },
    }
    match decode_transactions(bytes) {
        Err(e) => {
            Err(ConsensusError::MalformedTransactions(e))
        },
        Ok(transactions) => {
            let v = Arc::new(
                BlockTransactions {
                    transactions,
                    transaction_ref: t,
                    block_digest: None,
                    serialized: share(bytes),
                },
            );
            assert(holds_transactions(v, t, *bytes));
            Ok(v)
        },
    }
}

/// Checks transactions, in the order of their references, and returns them by
/// their references. The first ones that do not pass are the error.
/// `commitment_of` computes what serialized transactions commit to.
pub fn verify_transactions_with_transactions_refs<
    F: Fn(Bytes) -> ConsensusResult<TransactionsCommitment>,
>(
    committee: &Committee,
    peer: AuthorityIndex,
    size_limit: usize,
    serialized_transactions: &SortedMap<GenericTransactionRef, Bytes>,
    commitment_of: &F,
) -> (r: ConsensusResult<SortedMap<GenericTransactionRef, VerifiedTransactions>>)
    requires
        serialized_transactions.wf(),
        forall|b: Bytes| #[trigger] commitment_of.requires((b,)),
    ensures
        match r {
            Ok(verified) => {
                &&& verified.wf()
                &&& verified@.dom() == serialized_transactions@.dom()
                &&& forall|k: GenericTransactionRef| #[trigger]
                    verified@.dom().contains(k) ==> checked_transactions(
                        *committee,
                        peer,
                        size_limit,
                        commitment_of,
                        k,
                        serialized_transactions@[k],
                        Ok(verified@[k]),
                    )
            },
            Err(e) => exists|k: GenericTransactionRef|
                {
                    &&& #[trigger] serialized_transactions@.dom().contains(k)
                    &&& checked_transactions(
                        *committee,
                        peer,
                        size_limit,
                        commitment_of,
                        k,
                        serialized_transactions@[k],
                        Err(e),
                    )
                    &&& forall|q: GenericTransactionRef|
                        (#[trigger] serialized_transactions@.dom().contains(q))
                            && crate::refs::Key::rank(q) < crate::refs::Key::rank(k)
                            ==> transactions_pass(
                            *committee,
                            peer,
                            size_limit,
                            commitment_of,
                            q,
                            serialized_transactions@[q],
                        )
                },
        },
{
    let mut verified: SortedMap<GenericTransactionRef, VerifiedTransactions> = SortedMap::new();
    let n: usize = serialized_transactions.entries.len();
    let mut i: usize = 0;
    while i < n
        invariant
            serialized_transactions.wf(),
            forall|b: Bytes| #[trigger] commitment_of.requires((b,)),
            n == serialized_transactions.entries@.len(),
            i <= n,
            verified.wf(),
            forall|k: GenericTransactionRef| #[trigger]
                verified@.dom().contains(k) <==> exists|j: int|
                    0 <= j < i && (#[trigger] serialized_transactions.entries@[j]).0 == k,
            forall|k: GenericTransactionRef| #[trigger]
                verified@.dom().contains(k) ==> checked_transactions(
                    *committee,
                    peer,
                    size_limit,
                    commitment_of,
                    k,
                    serialized_transactions@[k],
                    Ok(verified@[k]),
                ),
        decreases n - i,
    {
        let ghost before = verified@;
        let entry = &serialized_transactions.entries[i];
        proof {
            serialized_transactions.lemma_entry(i as int);
        }
        match check_transactions(committee, peer, size_limit, commitment_of, &entry.0, &entry.1) {
            Err(e) => {
                proof {
                    let k = entry.0;
                    assert(serialized_transactions@.dom().contains(k));
                    assert forall|q: GenericTransactionRef|
                        (#[trigger] serialized_transactions@.dom().contains(q))
                            && crate::refs::Key::rank(q) < crate::refs::Key::rank(
                            k,
                        ) implies transactions_pass(
                        *committee,
                        peer,
                        size_limit,
                        commitment_of,
                        q,
                        serialized_transactions@[q],
                    ) by {
                        let j = serialized_transactions.lemma_key(q);
                        if j > i {
                            assert(crate::refs::Key::rank(serialized_transactions.keys()[i as int])
                                < crate::refs::Key::rank(serialized_transactions.keys()[j]));
                        }
                        assert(serialized_transactions.entries@[j].0 == q);
                        assert(verified@.dom().contains(q));
                    }
                }
                return Err(e);
            },
            Ok(v) => {
                verified.insert(entry.0, v);
            },
        }
        proof {
            assert forall|k: GenericTransactionRef| #[trigger]
                verified@.dom().contains(k) <==> exists|j: int|
                0 <= j < i + 1 && (#[trigger] serialized_transactions.entries@[j]).0 == k by {
                if before.dom().contains(k) {
                    let j = choose|j: int|
                        0 <= j < i && (#[trigger] serialized_transactions.entries@[j]).0 == k;
                    assert(serialized_transactions.entries@[j].0 == k);
                }
                assert(serialized_transactions.entries@[i as int].0 == entry.0);
            }
        }
        i = i + 1;
    }
    proof {
        assert(verified@.dom() =~= serialized_transactions@.dom()) by {
            assert forall|k: GenericTransactionRef| verified@.dom().contains(k)
                <==> serialized_transactions@.dom().contains(k) by {
                if verified@.dom().contains(k) {
                    let j = choose|j: int|
                        0 <= j < i && (#[trigger] serialized_transactions.entries@[j]).0 == k;
                    serialized_transactions.lemma_entry(j);
                }
                if serialized_transactions@.dom().contains(k) {
                    let j = serialized_transactions.lemma_key(k);
                    assert(serialized_transactions.entries@[j].0 == k);
                }
            }
        }
    }
    Ok(verified)
}

} // verus!
