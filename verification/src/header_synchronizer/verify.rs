//! Checking headers that a peer has sent.
use vstd::prelude::*;

use crate::commit_syncer::verify::Rejection;
use crate::error::ConsensusError;
use crate::header::{share, Bytes, VerifiedBlockHeader};
use crate::header_synchronizer::recent::{added, digest_key, used, VerifiedHeaders};
use crate::refs::{AuthorityIndex, BlockRef, Digest, GenericTransactionRef, Round};
use crate::sorted::SortedSet;
use crate::unordered::ItemKey;

verus! {

/// What a serialized header turns out to be.
#[derive(Debug)]
pub enum HeaderCheck {
    /// It cannot be read.
    Malformed(ConsensusError),
    /// It can be read, and its author is known, but it is not valid.
    Invalid { author: AuthorityIndex, error: ConsensusError },
    /// It is valid.
    Valid(VerifiedBlockHeader),
}

impl HeaderCheck {
    /// Does the rejection say what is wrong? A header that cannot be read is the
    /// fault of the peer, as its author is not known.
    pub open spec fn rejected_as(self, peer: AuthorityIndex, rejection: Rejection) -> bool {
        match self {
            HeaderCheck::Malformed(error) => rejection == (Rejection {
                error,
                faulty_header_author: Some(peer),
            }),
            HeaderCheck::Invalid { author, error } => rejection == (Rejection {
                error,
                faulty_header_author: Some(author),
            }),
            HeaderCheck::Valid(_) => false,
        }
    }
}

/// The remembered keys and the headers that were checked and found valid, after
/// the first `n` serialized headers. What is remembered is passed over.
pub open spec fn checked(
    keys: Seq<ItemKey>,
    limit: nat,
    digests: Seq<Digest>,
    checks: Seq<HeaderCheck>,
    n: int,
) -> (Seq<ItemKey>, Seq<VerifiedBlockHeader>)
    decreases n,
{
    if n <= 0 {
        (keys, Seq::empty())
    } else {
        let (before, valid) = checked(keys, limit, digests, checks, n - 1);
        let key = digest_key(digests[n - 1]);
        if before.contains(key) {
            (used(before, key), valid)
        } else {
            match checks[n - 1] {
                HeaderCheck::Valid(header) => (added(before, key, limit), valid.push(header)),
                _ => (before, valid),
            }
        }
    }
}

/// Is the `i`-th header passed over?
pub open spec fn is_passed_over(
    keys: Seq<ItemKey>,
    limit: nat,
    digests: Seq<Digest>,
    checks: Seq<HeaderCheck>,
    i: int,
) -> bool {
    checked(keys, limit, digests, checks, i).0.contains(digest_key(digests[i]))
}

/// Are these the digests of the first serialized headers, and what came of
/// checking those that were not passed over?
pub open spec fn are_checks<
    D: Fn(Bytes) -> Digest,
    V: Fn(Bytes, Digest) -> HeaderCheck,
>(
    serialized: Seq<Bytes>,
    digest_of: &D,
    check: &V,
    keys: Seq<ItemKey>,
    limit: nat,
    digests: Seq<Digest>,
    checks: Seq<HeaderCheck>,
) -> bool {
    &&& digests.len() <= serialized.len()
    &&& checks.len() == digests.len()
    &&& forall|i: int|
        0 <= i < digests.len() ==> digest_of.ensures((#[trigger] serialized[i],), digests[i])
    &&& forall|i: int|
        0 <= i < digests.len() ==> is_passed_over(
            keys,
            limit,
            digests,
            checks,
            i,
        ) || check.ensures(
            (#[trigger] serialized[i], digests[i]),
            checks[i],
        )
}

/// Are the first `n` headers valid, as far as they are not passed over?
pub open spec fn are_fine(
    keys: Seq<ItemKey>,
    limit: nat,
    digests: Seq<Digest>,
    checks: Seq<HeaderCheck>,
    n: int,
) -> bool {
    forall|i: int|
        0 <= i < n ==> is_passed_over(keys, limit, digests, checks, i) || (
        #[trigger] checks[i]) is Valid
}

/// Does `r` say what comes of the serialized headers: all that are not passed
/// over, where they are valid, or else the first fault?
pub open spec fn verified_as<
    D: Fn(Bytes) -> Digest,
    V: Fn(Bytes, Digest) -> HeaderCheck,
>(
    serialized: Seq<Bytes>,
    digest_of: &D,
    check: &V,
    peer: AuthorityIndex,
    keys: Seq<ItemKey>,
    limit: nat,
    keys_after: Seq<ItemKey>,
    r: Result<Vec<VerifiedBlockHeader>, Rejection>,
) -> bool {
    exists|digests: Seq<Digest>, checks: Seq<HeaderCheck>|
        {
            let n = digests.len() as int;
            &&& #[trigger] are_checks(serialized, digest_of, check, keys, limit, digests, checks)
            &&& match r {
                Ok(headers) => {
                    &&& n == serialized.len()
                    &&& are_fine(keys, limit, digests, checks, n)
                    &&& headers@ == checked(keys, limit, digests, checks, n).1
                    &&& keys_after == checked(keys, limit, digests, checks, n).0
                },
                Err(rejection) => {
                    &&& n > 0
                    &&& are_fine(keys, limit, digests, checks, n - 1)
                    &&& !is_passed_over(keys, limit, digests, checks, n - 1)
                    &&& checks[n - 1].rejected_as(peer, rejection)
                    &&& keys_after == checked(keys, limit, digests, checks, n - 1).0
                },
            }
        }
}

/// What was checked does not depend on what comes after.
proof fn lemma_checked_prefix(
    keys: Seq<ItemKey>,
    limit: nat,
    digests: Seq<Digest>,
    checks: Seq<HeaderCheck>,
    d: Digest,
    c: HeaderCheck,
    n: int,
)
    requires
        0 <= n <= digests.len(),
        digests.len() == checks.len(),
    ensures
        checked(keys, limit, digests.push(d), checks.push(c), n) == checked(
            keys,
            limit,
            digests,
            checks,
            n,
        ),
    decreases n,
{
    if n > 0 {
        lemma_checked_prefix(keys, limit, digests, checks, d, c, n - 1);
    }
}

proof fn lemma_one_more<
    D: Fn(Bytes) -> Digest,
    V: Fn(Bytes, Digest) -> HeaderCheck,
>(
    serialized: Seq<Bytes>,
    digest_of: &D,
    check: &V,
    keys: Seq<ItemKey>,
    limit: nat,
    digests: Seq<Digest>,
    checks: Seq<HeaderCheck>,
    d: Digest,
    c: HeaderCheck,
    n: int,
)
    requires
        0 <= n < serialized.len(),
        n == digests.len(),
        are_checks(serialized, digest_of, check, keys, limit, digests, checks),
        are_fine(keys, limit, digests, checks, n),
        digest_of.ensures((serialized[n],), d),
        checked(keys, limit, digests, checks, n).0.contains(digest_key(d)) || check.ensures(
            (serialized[n], d),
            c,
        ),
    ensures
        are_checks(
            serialized,
            digest_of,
            check,
            keys,
            limit,
            digests.push(d),
            checks.push(c),
        ),
        are_fine(keys, limit, digests.push(d), checks.push(c), n),
        checked(keys, limit, digests.push(d), checks.push(c), n) == checked(
            keys,
            limit,
            digests,
            checks,
            n,
        ),
        is_passed_over(keys, limit, digests.push(d), checks.push(c), n) == checked(
            keys,
            limit,
            digests,
            checks,
            n,
        ).0.contains(digest_key(d)),
{
    let digests1 = digests.push(d);
    let checks1 = checks.push(c);
    lemma_checked_prefix(keys, limit, digests, checks, d, c, n);
    assert forall|i: int| 0 <= i < n implies is_passed_over(
        keys,
        limit,
        digests1,
        checks1,
        i,
    ) == is_passed_over(keys, limit, digests, checks, i) by {
        lemma_checked_prefix(keys, limit, digests, checks, d, c, i);
    }
    assert forall|i: int|
        0 <= i < n + 1 implies digest_of.ensures((#[trigger] serialized[i],), digests1[i]) by {
        if i < n {
            assert(digest_of.ensures((serialized[i],), digests[i]));
        }
    }
    assert forall|i: int|
        0 <= i < n + 1 implies is_passed_over(keys, limit, digests1, checks1, i) || check.ensures(
        (#[trigger] serialized[i], digests1[i]),
        checks1[i],
    ) by {
        if i < n {
            assert(is_passed_over(keys, limit, digests, checks, i) || check.ensures(
                (serialized[i], digests[i]),
                checks[i],
            ));
        }
    }
    assert forall|i: int| 0 <= i < n implies is_passed_over(
        keys,
        limit,
        digests1,
        checks1,
        i,
    ) || (#[trigger] checks1[i]) is Valid by {
        assert(is_passed_over(keys, limit, digests, checks, i) || checks[i] is Valid);
    }
}

/// Checks serialized headers from a peer, all that were not found valid lately.
/// `digest_of` gives the digest of a serialized header, and `check` reads and
/// verifies it.
pub fn verify_block_headers<
    D: Fn(Bytes) -> Digest,
    V: Fn(Bytes, Digest) -> HeaderCheck,
>(
    serialized_block_headers: &Vec<Bytes>,
    verified_cache: &mut VerifiedHeaders,
    peer_index: AuthorityIndex,
    digest_of: &D,
    check: &V,
) -> (r: Result<Vec<VerifiedBlockHeader>, Rejection>)
    requires
        old(verified_cache).wf(),
        forall|b: Bytes| #[trigger] digest_of.requires((b,)),
        forall|b: Bytes, d: Digest| #[trigger] check.requires((b, d)),
    ensures
        final(verified_cache).wf(),
        final(verified_cache).limit() == old(verified_cache).limit(),
        verified_as(
            serialized_block_headers@,
            digest_of,
            check,
            peer_index,
            old(verified_cache)@,
            old(verified_cache).limit(),
            final(verified_cache)@,
            r,
        ),
{
    let ghost keys = verified_cache@;
    let ghost limit = verified_cache.limit();
    let ghost serialized = serialized_block_headers@;
    let ghost mut digests: Seq<Digest> = Seq::empty();
    let ghost mut checks: Seq<HeaderCheck> = Seq::empty();
    let mut verified_block_headers: Vec<VerifiedBlockHeader> = Vec::new();
    let mut i: usize = 0;
    while i < serialized_block_headers.len()
        invariant
            verified_cache.wf(),
            verified_cache.limit() == limit,
            limit == old(verified_cache).limit(),
            keys == old(verified_cache)@,
            serialized == serialized_block_headers@,
            forall|b: Bytes| #[trigger] digest_of.requires((b,)),
            forall|b: Bytes, d: Digest| #[trigger] check.requires((b, d)),
            i <= serialized.len(),
            i == digests.len(),
            are_checks(serialized, digest_of, check, keys, limit, digests, checks),
            are_fine(keys, limit, digests, checks, i as int),
            verified_cache@ == checked(keys, limit, digests, checks, i as int).0,
            verified_block_headers@ == checked(keys, limit, digests, checks, i as int).1,
        decreases serialized.len() - i,
    {
        let digest = digest_of(share(&serialized_block_headers[i]));
        let ghost before = checked(keys, limit, digests, checks, i as int).0;
        if verified_cache.check(&digest) {
            proof {
                let c = arbitrary::<HeaderCheck>();
                lemma_one_more(
                    serialized,
                    digest_of,
                    check,
                    keys,
                    limit,
                    digests,
                    checks,
                    digest,
                    c,
                    i as int,
                );
                digests = digests.push(digest);
                checks = checks.push(c);
            }
            i = i + 1;
            continue;
        }
        let checked_header = check(share(&serialized_block_headers[i]), digest);
        let ghost outcome = checked_header;
        proof {
            lemma_one_more(
                serialized,
                digest_of,
                check,
                keys,
                limit,
                digests,
                checks,
                digest,
                outcome,
                i as int,
            );
            digests = digests.push(digest);
            checks = checks.push(outcome);
            assert(verified_cache@ == before);
        }
        match checked_header {
            HeaderCheck::Malformed(error) => {
                return Err(Rejection { error, faulty_header_author: Some(peer_index) });
            },
            HeaderCheck::Invalid { author, error } => {
                return Err(Rejection { error, faulty_header_author: Some(author) });
            },
            HeaderCheck::Valid(header) => {
                verified_cache.remember(&digest);
                verified_block_headers.push(header);
            },
        }
        i = i + 1;
    }
    Ok(verified_block_headers)
}

/// At most `max` of the serialized headers.
pub open spec fn at_most(serialized: Seq<Bytes>, max: usize) -> Seq<Bytes> {
    if serialized.len() <= max {
        serialized
    } else {
        serialized.take(max as int)
    }
}

/// Checks what a peer has sent on a request for headers: no more of it than may
/// be asked for. There is nothing to go on with where it is empty.
pub fn process_fetched_headers<
    D: Fn(Bytes) -> Digest,
    V: Fn(Bytes, Digest) -> HeaderCheck,
>(
    serialized_headers: Vec<Bytes>,
    max_headers_per_header_sync_fetch: usize,
    verified_cache: &mut VerifiedHeaders,
    peer_index: AuthorityIndex,
    digest_of: &D,
    check: &V,
) -> (r: Result<Option<Vec<VerifiedBlockHeader>>, Rejection>)
    requires
        old(verified_cache).wf(),
        forall|b: Bytes| #[trigger] digest_of.requires((b,)),
        forall|b: Bytes, d: Digest| #[trigger] check.requires((b, d)),
    ensures
        final(verified_cache).wf(),
        final(verified_cache).limit() == old(verified_cache).limit(),
        if serialized_headers@.len() == 0 {
            r == Ok::<_, Rejection>(None::<Vec<VerifiedBlockHeader>>) && final(verified_cache)@
                == old(verified_cache)@
        } else {
            &&& r is Ok ==> r->Ok_0 is Some
            &&& verified_as(
                at_most(serialized_headers@, max_headers_per_header_sync_fetch),
                digest_of,
                check,
                peer_index,
                old(verified_cache)@,
                old(verified_cache).limit(),
                final(verified_cache)@,
                match r {
                    Ok(headers) => Ok(headers->Some_0),
                    Err(rejection) => Err(rejection),
                },
            )
        },
{
    let mut serialized: Vec<Bytes> = serialized_headers;
    if serialized.len() == 0 {
        return Ok(None);
    }
    if serialized.len() > max_headers_per_header_sync_fetch {
        serialized.truncate(max_headers_per_header_sync_fetch);
    }
    match verify_block_headers(&serialized, verified_cache, peer_index, digest_of, check) {
        Ok(headers) => Ok(Some(headers)),
        Err(rejection) => Err(rejection),
    }
}

/// Drops the headers of rounds above the ceiling, which could not be connected
/// with what there is.
pub fn drop_far_future(headers: Vec<VerifiedBlockHeader>, ceiling: Round) -> (r: Vec<
    VerifiedBlockHeader,
>)
    ensures
        r@ == headers@.filter(|h: VerifiedBlockHeader| h.reference.round <= ceiling),
{
    let ghost p = |h: VerifiedBlockHeader| h.reference.round <= ceiling;
    let mut r: Vec<VerifiedBlockHeader> = Vec::new();
    let mut i: usize = 0;
    proof {
        reveal(Seq::filter);
        assert(headers@.take(0).filter(p) =~= Seq::empty());
    }
    while i < headers.len()
        invariant
            p == (|h: VerifiedBlockHeader| h.reference.round <= ceiling),
            i <= headers@.len(),
            r@ == headers@.take(i as int).filter(p),
        decreases headers@.len() - i,
    {
        proof {
            reveal(Seq::filter);
            assert(headers@.take(i + 1).drop_last() =~= headers@.take(i as int));
        }
        if headers[i].reference.round <= ceiling {
            r.push(share(&headers[i]));
        }
        i = i + 1;
    }
    assert(headers@.take(i as int) =~= headers@);
    r
}

/// What is left to do once headers from a peer were accepted.
#[derive(Clone, Copy, Debug, PartialEq, Eq, Structural)]
pub struct FollowUp {
    /// Ancestors are missing: the periodic synchronizer is to run at once.
    pub kick_off_scheduler: bool,
    /// Transactions that were committed are missing: they are to be fetched.
    pub fetch_transactions: bool,
}

impl FollowUp {
    pub fn new(
        missing_blocks: &SortedSet<BlockRef>,
        missing_committed_txns: &SortedSet<GenericTransactionRef>,
    ) -> (r: Self)
        requires
            missing_blocks.wf(),
            missing_committed_txns.wf(),
        ensures
            r.kick_off_scheduler == (missing_blocks@ != Set::<BlockRef>::empty()),
            r.fetch_transactions == (missing_committed_txns@ != Set::<
                GenericTransactionRef,
            >::empty()),
    {
        FollowUp {
            kick_off_scheduler: !missing_blocks.is_empty(),
            fetch_transactions: !missing_committed_txns.is_empty(),
        }
    }
}

} // verus!
