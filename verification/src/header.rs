//! Block headers and the transactions that they commit to.
use std::sync::Arc;

use vstd::prelude::*;

use crate::refs::{
    BlockHeaderDigest, BlockRef, BlockTimestampMs, CommitVote, GenericTransactionRef,
    TransactionRef, TransactionsCommitment,
};

verus! {

/// Bytes with several owners.
pub type Bytes = Arc<Vec<u8>>;

/// One more owner of what `a` points to.
///
/// Calls `Arc::clone` of the standard library, which makes another pointer to
/// the same allocation: the two point to the same value.
#[verifier::external_body]
pub(crate) fn share<T>(a: &Arc<T>) -> (r: Arc<T>)
    ensures
        r == *a,
{
    Arc::clone(a)
}

/// A block header that has passed verification.
#[derive(Debug, PartialEq, Eq)]
pub struct BlockHeader {
    pub reference: BlockRef,
    pub timestamp_ms: BlockTimestampMs,
    /// The headers that this one builds on; the author's own comes first.
    pub ancestors: Vec<BlockRef>,
    /// The blocks whose transactions the author holds.
    pub acknowledgments: Vec<BlockRef>,
    pub commit_votes: Vec<CommitVote>,
    pub transactions_commitment: TransactionsCommitment,
    /// The header as it travels.
    pub serialized: Bytes,
}

pub type VerifiedBlockHeader = Arc<BlockHeader>;

impl BlockHeader {
    pub open spec fn spec_transaction_ref(self) -> TransactionRef {
        TransactionRef {
            round: self.reference.round,
            author: self.reference.author,
            transactions_commitment: self.transactions_commitment,
        }
    }

    /// The reference to the transactions of this header's block.
    pub fn transaction_ref(&self) -> (r: TransactionRef)
        ensures
            r == self.spec_transaction_ref(),
    {
        TransactionRef::new(self.reference, self.transactions_commitment)
    }

    /// How commits name the transactions of this header's block.
    pub open spec fn spec_generic_ref(self, by_commitment: bool) -> GenericTransactionRef {
        if by_commitment {
            GenericTransactionRef::TransactionRef(self.spec_transaction_ref())
        } else {
            GenericTransactionRef::BlockRef(self.reference)
        }
    }

    pub fn generic_ref(&self, by_commitment: bool) -> (r: GenericTransactionRef)
        ensures
            r == self.spec_generic_ref(by_commitment),
    {
        if by_commitment {
            GenericTransactionRef::TransactionRef(self.transaction_ref())
        } else {
            GenericTransactionRef::BlockRef(self.reference)
        }
    }
}

/// The transactions of one block, checked against what the block commits to.
#[derive(Debug, PartialEq, Eq)]
pub struct BlockTransactions {
    pub transactions: Vec<Vec<u8>>,
    pub transaction_ref: TransactionRef,
    /// The digest of the block's header, where it is known.
    pub block_digest: Option<BlockHeaderDigest>,
    /// The transactions as they travel.
    pub serialized: Bytes,
}

pub type VerifiedTransactions = Arc<BlockTransactions>;

impl BlockTransactions {
    pub open spec fn spec_block_ref(self) -> Option<BlockRef> {
        match self.block_digest {
            Some(digest) => Some(
                BlockRef {
                    round: self.transaction_ref.round,
                    author: self.transaction_ref.author,
                    digest,
                },
            ),
            None => None,
        }
    }

    /// The block's header, where its digest is known.
    pub fn block_ref(&self) -> (r: Option<BlockRef>)
        ensures
            r == self.spec_block_ref(),
    {
        match self.block_digest {
            Some(digest) => Some(
                BlockRef::new(self.transaction_ref.round, self.transaction_ref.author, digest),
            ),
            None => None,
        }
    }

    /// How commits name these transactions, where that is known.
    pub open spec fn spec_generic_ref(self, by_commitment: bool) -> Option<GenericTransactionRef> {
        if by_commitment {
            Some(GenericTransactionRef::TransactionRef(self.transaction_ref))
        } else {
            match self.spec_block_ref() {
                Some(b) => Some(GenericTransactionRef::BlockRef(b)),
                None => None,
            }
        }
    }

    pub fn generic_ref(&self, by_commitment: bool) -> (r: Option<GenericTransactionRef>)
        ensures
            r == self.spec_generic_ref(by_commitment),
    {
        if by_commitment {
            Some(GenericTransactionRef::TransactionRef(self.transaction_ref))
        } else {
            match self.block_ref() {
                Some(b) => Some(GenericTransactionRef::BlockRef(b)),
                None => None,
            }
        }
    }

    pub fn has_transactions(&self) -> (r: bool)
        ensures
            r == (self.transactions@.len() > 0),
    {
        self.transactions.len() > 0
    }
}

/// A header together with its transactions.
#[derive(Debug, PartialEq, Eq)]
pub struct VerifiedBlock {
    pub verified_block_header: VerifiedBlockHeader,
    pub verified_transactions: VerifiedTransactions,
}

impl VerifiedBlock {
    pub fn new(
        verified_block_header: VerifiedBlockHeader,
        verified_transactions: VerifiedTransactions,
    ) -> (r: Self)
        ensures
            r.verified_block_header == verified_block_header,
            r.verified_transactions == verified_transactions,
    {
        VerifiedBlock { verified_block_header, verified_transactions }
    }
}

/// The own shard of a block's transactions, with its proof.
#[derive(Debug, PartialEq, Eq)]
pub struct VerifiedOwnShard {
    pub gen_transaction_ref: GenericTransactionRef,
    pub serialized_shard: Bytes,
}

/// The transactions of a block are named by round, author and commitment, or by the
/// block's header; transactions alone can be named by the header only where its digest
/// is known.
pub proof fn law_names_of_transactions(h: VerifiedBlockHeader, t: VerifiedTransactions)
    ensures
        h.spec_generic_ref(false) == GenericTransactionRef::BlockRef(h.reference),
        h.spec_generic_ref(true) matches GenericTransactionRef::TransactionRef(r) && r.round
            == h.reference.round && r.author == h.reference.author && r.transactions_commitment
            == h.transactions_commitment,
        t.spec_generic_ref(true) == Some(GenericTransactionRef::TransactionRef(t.transaction_ref)),
        t.block_digest is None ==> t.spec_generic_ref(false) is None && t.spec_block_ref() is None,
        t.block_digest matches Some(d) ==> {
            &&& t.spec_generic_ref(false) matches Some(GenericTransactionRef::BlockRef(b))
            &&& t.spec_block_ref() == Some(b)
            &&& b.round == t.transaction_ref.round
            &&& b.author == t.transaction_ref.author
            &&& b.digest == d
        },
{
}

} // verus!
