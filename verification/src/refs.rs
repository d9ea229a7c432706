//! References to headers, transactions and commits, and the total order on
//! them.
use vstd::prelude::*;

verus! {

/// A round of the DAG.
pub type Round = u32;

/// The position of an authority in the committee.
pub type AuthorityIndex = u8;

/// The position of a commit in the sequence of commits.
pub type CommitIndex = u32;

/// Milliseconds since the Unix epoch.
pub type BlockTimestampMs = u64;

/// The round that the genesis headers belong to.
pub const GENESIS_ROUND: Round = 0;

/// The index of the (virtual) commit before the first one.
pub const GENESIS_COMMIT_INDEX: CommitIndex = 0;

/// A key with a total order, given by an injective rank among the integers.
pub trait Key: Copy + Sized {
    /// Where the key stands in the order.
    spec fn rank(self) -> int;

    /// Keys of one rank are the same key.
    proof fn lemma_rank_injective(a: Self, b: Self)
        requires
            a.rank() == b.rank(),
        ensures
            a == b,
    ;

    /// Does `self` come before `other`?
    fn precedes(&self, other: &Self) -> (r: bool)
        ensures
            r == (self.rank() < other.rank()),
    ;
}

impl Key for u32 {
    open spec fn rank(self) -> int {
        self as int
    }

    proof fn lemma_rank_injective(a: Self, b: Self) {
    }

    fn precedes(&self, other: &Self) -> (r: bool) {
        *self < *other
    }
}

impl Key for u8 {
    open spec fn rank(self) -> int {
        self as int
    }

    proof fn lemma_rank_injective(a: Self, b: Self) {
    }

    fn precedes(&self, other: &Self) -> (r: bool) {
        *self < *other
    }
}

/// A 32-byte digest, held as its first and its last 16 bytes, each read as a
/// big-endian number. The order of digests is then that of their bytes.
#[derive(Clone, Copy, Debug, PartialEq, Eq, PartialOrd, Ord, Hash, Structural)]
pub struct Digest {
    pub hi: u128,
    pub lo: u128,
}

/// The digest of a block header.
pub type BlockHeaderDigest = Digest;

/// The commitment to the transactions of a block.
pub type TransactionsCommitment = Digest;

/// The digest of a commit.
pub type CommitDigest = Digest;

impl Digest {
    pub open spec fn spec_min() -> Digest {
        Digest { hi: 0, lo: 0 }
    }

    pub open spec fn spec_max() -> Digest {
        Digest { hi: u128::MAX, lo: u128::MAX }
    }

    /// The least digest.
    #[verifier::when_used_as_spec(spec_min)]
    pub fn min() -> (r: Self)
        ensures
            r == Self::spec_min(),
    {
        Digest { hi: 0, lo: 0 }
    }

    /// The greatest digest.
    #[verifier::when_used_as_spec(spec_max)]
    pub fn max() -> (r: Self)
        ensures
            r == Self::spec_max(),
    {
        Digest { hi: u128::MAX, lo: u128::MAX }
    }
}

impl Key for Digest {
    open spec fn rank(self) -> int {
        self.hi * 0x1_0000_0000_0000_0000_0000_0000_0000_0000int + self.lo
    }

    proof fn lemma_rank_injective(a: Self, b: Self) {
    }

    fn precedes(&self, other: &Self) -> (r: bool) {
        self.hi < other.hi || (self.hi == other.hi && self.lo < other.lo)
    }
}

/// The key under which the digest of an authority's header is found from what
/// it commits to.
#[derive(Clone, Copy, Debug, PartialEq, Eq, PartialOrd, Ord, Hash, Structural)]
pub struct CommitmentKey {
    pub round: Round,
    pub transactions_commitment: TransactionsCommitment,
}

impl Key for CommitmentKey {
    open spec fn rank(self) -> int {
        self.round * digest_count() + self.transactions_commitment.rank()
    }

    proof fn lemma_rank_injective(a: Self, b: Self) {
        let d = a.transactions_commitment;
        let e = b.transactions_commitment;
        assert(0 <= d.rank() < digest_count());
        assert(0 <= e.rank() < digest_count());
        if d.rank() == e.rank() {
            Digest::lemma_rank_injective(d, e);
        }
    }

    fn precedes(&self, other: &Self) -> (r: bool) {
        proof {
            assert(0 <= self.transactions_commitment.rank() < digest_count());
            assert(0 <= other.transactions_commitment.rank() < digest_count());
        }
        self.round < other.round || (self.round == other.round
            && self.transactions_commitment.precedes(&other.transactions_commitment))
    }
}

/// A reference to a block header.
#[derive(Clone, Copy, Debug, PartialEq, Eq, PartialOrd, Ord, Hash, Structural)]
pub struct BlockRef {
    pub round: Round,
    pub author: AuthorityIndex,
    pub digest: BlockHeaderDigest,
}

/// The number of different digests.
pub open spec fn digest_count() -> int {
    0x1_0000_0000_0000_0000_0000_0000_0000_0000_0000_0000_0000_0000_0000_0000_0000_0000int
}

/// Where a (round, author, digest) triple stands among all such triples.
pub open spec fn triple_rank(round: Round, author: AuthorityIndex, digest: Digest) -> int {
    (round * 256 + author) * digest_count() + digest.rank()
}

impl BlockRef {
    pub fn new(round: Round, author: AuthorityIndex, digest: BlockHeaderDigest) -> (r: Self)
        ensures
            r == (BlockRef { round, author, digest }),
    {
        BlockRef { round, author, digest }
    }
}

impl Key for BlockRef {
    open spec fn rank(self) -> int {
        triple_rank(self.round, self.author, self.digest)
    }

    proof fn lemma_rank_injective(a: Self, b: Self) {
        lemma_triple_rank(a.round, a.author, a.digest, b.round, b.author, b.digest);
    }

    fn precedes(&self, other: &Self) -> (r: bool) {
        proof {
            lemma_triple_rank(
                self.round,
                self.author,
                self.digest,
                other.round,
                other.author,
                other.digest,
            );
        }
        self.round < other.round || (self.round == other.round && (self.author < other.author || (
        self.author == other.author && self.digest.precedes(&other.digest))))
    }
}

/// Triples are ordered by round, then by author, then by digest.
pub proof fn lemma_triple_rank(
    r1: Round,
    a1: AuthorityIndex,
    d1: Digest,
    r2: Round,
    a2: AuthorityIndex,
    d2: Digest,
)
    ensures
        triple_rank(r1, a1, d1) < triple_rank(r2, a2, d2) <==> (r1 < r2 || (r1 == r2 && (a1 < a2
            || (a1 == a2 && d1.rank() < d2.rank())))),
        triple_rank(r1, a1, d1) == triple_rank(r2, a2, d2) <==> (r1 == r2 && a1 == a2 && d1 == d2),
        0 <= triple_rank(r1, a1, d1) < 0x100_0000_0000int * digest_count(),
{
    assert(0 <= d1.rank() < digest_count());
    assert(0 <= d2.rank() < digest_count());
    if d1.rank() == d2.rank() {
        Digest::lemma_rank_injective(d1, d2);
    }
    let s1 = r1 * 256 + a1;
    let s2 = r2 * 256 + a2;
    assert(s1 < s2 ==> s1 * digest_count() + digest_count() <= s2 * digest_count());
    assert(s2 < s1 ==> s2 * digest_count() + digest_count() <= s1 * digest_count());
}

/// A reference to the transactions of a block, by what the block commits to.
#[derive(Clone, Copy, Debug, PartialEq, Eq, PartialOrd, Ord, Hash, Structural)]
pub struct TransactionRef {
    pub round: Round,
    pub author: AuthorityIndex,
    pub transactions_commitment: TransactionsCommitment,
}

impl TransactionRef {
    /// The reference to the transactions that the block at `block_ref`
    /// commits to by `transactions_commitment`.
    pub fn new(block_ref: BlockRef, transactions_commitment: TransactionsCommitment) -> (r: Self)
        ensures
            r == (TransactionRef {
                round: block_ref.round,
                author: block_ref.author,
                transactions_commitment,
            }),
    {
        TransactionRef {
            round: block_ref.round,
            author: block_ref.author,
            transactions_commitment,
        }
    }
}

impl Key for TransactionRef {
    open spec fn rank(self) -> int {
        triple_rank(self.round, self.author, self.transactions_commitment)
    }

    proof fn lemma_rank_injective(a: Self, b: Self) {
        lemma_triple_rank(
            a.round,
            a.author,
            a.transactions_commitment,
            b.round,
            b.author,
            b.transactions_commitment,
        );
    }

    fn precedes(&self, other: &Self) -> (r: bool) {
        proof {
            lemma_triple_rank(
                self.round,
                self.author,
                self.transactions_commitment,
                other.round,
                other.author,
                other.transactions_commitment,
            );
        }
        self.round < other.round || (self.round == other.round && (self.author < other.author || (
        self.author == other.author && self.transactions_commitment.precedes(
            &other.transactions_commitment,
        ))))
    }
}

/// A reference to the transactions of a block: by the block's header where
/// commits name headers, by the commitment where they name transactions.
#[derive(Clone, Copy, Debug, PartialEq, Eq, PartialOrd, Ord, Hash, Structural)]
pub enum GenericTransactionRef {
    BlockRef(BlockRef),
    TransactionRef(TransactionRef),
}

impl GenericTransactionRef {
    pub open spec fn spec_round(self) -> Round {
        match self {
            GenericTransactionRef::BlockRef(b) => b.round,
            GenericTransactionRef::TransactionRef(t) => t.round,
        }
    }

    pub open spec fn spec_author(self) -> AuthorityIndex {
        match self {
            GenericTransactionRef::BlockRef(b) => b.author,
            GenericTransactionRef::TransactionRef(t) => t.author,
        }
    }

    pub fn round(&self) -> (r: Round)
        ensures
            r == self.spec_round(),
    {
        match self {
            GenericTransactionRef::BlockRef(b) => b.round,
            GenericTransactionRef::TransactionRef(t) => t.round,
        }
    }

    pub fn author(&self) -> (r: AuthorityIndex)
        ensures
            r == self.spec_author(),
    {
        match self {
            GenericTransactionRef::BlockRef(b) => b.author,
            GenericTransactionRef::TransactionRef(t) => t.author,
        }
    }
}

impl Key for GenericTransactionRef {
    open spec fn rank(self) -> int {
        match self {
            GenericTransactionRef::BlockRef(b) => b.rank(),
            GenericTransactionRef::TransactionRef(t) => 0x100_0000_0000int * digest_count()
                + t.rank(),
        }
    }

    proof fn lemma_rank_injective(a: Self, b: Self) {
        lemma_generic_rank(a, b);
    }

    fn precedes(&self, other: &Self) -> (r: bool) {
        proof {
            lemma_generic_rank(*self, *other);
        }
        match self {
            GenericTransactionRef::BlockRef(a) => match other {
                GenericTransactionRef::BlockRef(b) => a.precedes(b),
                GenericTransactionRef::TransactionRef(_) => true,
            },
            GenericTransactionRef::TransactionRef(a) => match other {
                GenericTransactionRef::BlockRef(_) => false,
                GenericTransactionRef::TransactionRef(b) => a.precedes(b),
            },
        }
    }
}

/// References by header come before references by commitment.
proof fn lemma_generic_rank(a: GenericTransactionRef, b: GenericTransactionRef)
    ensures
        a is BlockRef && b is TransactionRef ==> a.rank() < b.rank(),
        a is TransactionRef && b is BlockRef ==> a.rank() > b.rank(),
        a.rank() == b.rank() ==> a == b,
{
    match a {
        GenericTransactionRef::BlockRef(x) => {
            lemma_triple_rank(x.round, x.author, x.digest, x.round, x.author, x.digest);
            match b {
                GenericTransactionRef::BlockRef(y) => {
                    lemma_triple_rank(x.round, x.author, x.digest, y.round, y.author, y.digest);
                },
                GenericTransactionRef::TransactionRef(y) => {
                    lemma_triple_rank(
                        y.round,
                        y.author,
                        y.transactions_commitment,
                        y.round,
                        y.author,
                        y.transactions_commitment,
                    );
                },
            }
        },
        GenericTransactionRef::TransactionRef(x) => {
            lemma_triple_rank(
                x.round,
                x.author,
                x.transactions_commitment,
                x.round,
                x.author,
                x.transactions_commitment,
            );
            match b {
                GenericTransactionRef::BlockRef(y) => {
                    lemma_triple_rank(y.round, y.author, y.digest, y.round, y.author, y.digest);
                },
                GenericTransactionRef::TransactionRef(y) => {
                    lemma_triple_rank(
                        x.round,
                        x.author,
                        x.transactions_commitment,
                        y.round,
                        y.author,
                        y.transactions_commitment,
                    );
                },
            }
        },
    }
}

/// A place for one block of an honest authority.
#[derive(Clone, Copy, Debug, PartialEq, Eq, PartialOrd, Ord, Hash, Structural)]
pub struct Slot {
    pub round: Round,
    pub authority: AuthorityIndex,
}

impl Slot {
    pub fn new(round: Round, authority: AuthorityIndex) -> (r: Self)
        ensures
            r == (Slot { round, authority }),
    {
        Slot { round, authority }
    }
}

/// A reference to a commit.
#[derive(Clone, Copy, Debug, PartialEq, Eq, PartialOrd, Ord, Hash, Structural)]
pub struct CommitRef {
    pub index: CommitIndex,
    pub digest: CommitDigest,
}

impl CommitRef {
    pub fn new(index: CommitIndex, digest: CommitDigest) -> (r: Self)
        ensures
            r == (CommitRef { index, digest }),
    {
        CommitRef { index, digest }
    }
}

/// A vote of a header for a commit.
pub type CommitVote = CommitRef;

impl Key for CommitRef {
    open spec fn rank(self) -> int {
        self.index * digest_count() + self.digest.rank()
    }

    proof fn lemma_rank_injective(a: Self, b: Self) {
        assert(0 <= a.digest.rank() < digest_count());
        assert(0 <= b.digest.rank() < digest_count());
        if a.digest.rank() == b.digest.rank() {
            Digest::lemma_rank_injective(a.digest, b.digest);
        }
    }

    fn precedes(&self, other: &Self) -> (r: bool) {
        proof {
            assert(0 <= self.digest.rank() < digest_count());
            assert(0 <= other.digest.rank() < digest_count());
        }
        self.index < other.index || (self.index == other.index && self.digest.precedes(
            &other.digest,
        ))
    }
}

/// An inclusive range of commit indices.
#[derive(Clone, Copy, Debug, PartialEq, Eq, PartialOrd, Ord, Hash, Structural)]
pub struct CommitRange {
    pub start: CommitIndex,
    pub end: CommitIndex,
}

impl CommitRange {
    pub fn new(start: CommitIndex, end: CommitIndex) -> (r: Self)
        ensures
            r == (CommitRange { start, end }),
    {
        CommitRange { start, end }
    }
}

impl Key for CommitRange {
    open spec fn rank(self) -> int {
        self.start * 0x1_0000_0000int + self.end
    }

    proof fn lemma_rank_injective(a: Self, b: Self) {
    }

    fn precedes(&self, other: &Self) -> (r: bool) {
        self.start < other.start || (self.start == other.start && self.end < other.end)
    }
}

/// The references to headers are finitely many.
pub proof fn lemma_refs_finite(s: Set<BlockRef>)
    ensures
        s.finite(),
{
    let top = 0x100_0000_0000int * digest_count();
    let range = vstd::set_lib::set_int_range(0, top);
    vstd::set_lib::lemma_int_range(0, top);
    let f = |n: int| choose|r: BlockRef| r.rank() == n;
    range.lemma_map_finite(f);
    assert forall|r: BlockRef| s.contains(r) implies range.map(f).contains(r) by {
        lemma_triple_rank(
            r.round,
            r.author,
            r.digest,
            r.round,
            r.author,
            r.digest,
        );
        let n = r.rank();
        assert(range.contains(n));
        assert(exists|q: BlockRef| q.rank() == n);
        let q = f(n);
        assert(q.rank() == n);
        BlockRef::lemma_rank_injective(q, r);
    }
    vstd::set_lib::lemma_set_subset_finite(range.map(f), s);
}

/// References go by round, then by author, then by digest or commitment; digests by
/// their first half and then by their second. References to headers go before those
/// to transactions, commits by index and digest, and ranges by their start and end.
pub proof fn law_order_of_references(
    d: Digest,
    e: Digest,
    a: BlockRef,
    b: BlockRef,
    s: TransactionRef,
    t: TransactionRef,
    x: CommitRange,
    y: CommitRange,
)
    ensures
        d.rank() < e.rank() <==> d.hi < e.hi || (d.hi == e.hi && d.lo < e.lo),
        a.rank() < b.rank() <==> a.round < b.round || (a.round == b.round && (a.author < b.author
            || (a.author == b.author && a.digest.rank() < b.digest.rank()))),
        s.rank() < t.rank() <==> s.round < t.round || (s.round == t.round && (s.author < t.author
            || (s.author == t.author && s.transactions_commitment.rank()
            < t.transactions_commitment.rank()))),
        GenericTransactionRef::BlockRef(a).rank() < GenericTransactionRef::BlockRef(b).rank()
            <==> a.rank() < b.rank(),
        GenericTransactionRef::TransactionRef(s).rank() < GenericTransactionRef::TransactionRef(
            t,
        ).rank() <==> s.rank() < t.rank(),
        GenericTransactionRef::BlockRef(a).rank() < GenericTransactionRef::TransactionRef(t).rank(),
        x.rank() < y.rank() <==> x.start < y.start || (x.start == y.start && x.end < y.end),
{
    lemma_triple_rank(a.round, a.author, a.digest, b.round, b.author, b.digest);
    lemma_triple_rank(
        s.round,
        s.author,
        s.transactions_commitment,
        t.round,
        t.author,
        t.transactions_commitment,
    );
    lemma_triple_rank(
        t.round,
        t.author,
        t.transactions_commitment,
        s.round,
        s.author,
        s.transactions_commitment,
    );
}

/// A reference to transactions has the round and the author of what it refers to.
pub proof fn law_parts_of_references(b: BlockRef, t: TransactionRef)
    ensures
        GenericTransactionRef::BlockRef(b).spec_round() == b.round,
        GenericTransactionRef::BlockRef(b).spec_author() == b.author,
        GenericTransactionRef::TransactionRef(t).spec_round() == t.round,
        GenericTransactionRef::TransactionRef(t).spec_author() == t.author,
        Digest::spec_min().hi == 0,
        Digest::spec_min().lo == 0,
        Digest::spec_max().hi == u128::MAX,
        Digest::spec_max().lo == u128::MAX,
{
}

} // verus!
