//! What can go wrong.
use std::sync::Arc;

use fastcrypto::error::FastCryptoError;
use vstd::prelude::*;

use crate::commit::Commit;
use crate::committee::{Committee, Stake};
use crate::refs::{
    AuthorityIndex, BlockRef, CommitIndex, GenericTransactionRef, Round, TransactionRef,
    GENESIS_ROUND,
};

verus! {

/// `bcs::Error`: why bytes could not be decoded, or a value not encoded.
#[verifier::external_type_specification]
#[verifier::external_body]
pub struct ExBcsError(bcs::Error);

/// `fastcrypto::error::FastCryptoError`: why a signature was not accepted.
#[verifier::external_type_specification]
#[verifier::external_body]
pub struct ExFastCryptoError(FastCryptoError);

/// Errors that can occur when processing blocks, reading from storage, or
/// encountering shutdown.
#[allow(inconsistent_fields)]
#[derive(Debug)]
pub enum ConsensusError {
    /// Error deserializing block header: {0}
    MalformedHeader(bcs::Error),
    /// Error deserializing shard with proof: {0}
    MalformedShard(bcs::Error),
    /// Error deserializing block transactions: {0}
    MalformedTransactions(bcs::Error),
    /// Error deserializing commit: {0}
    MalformedCommit(bcs::Error),
    /// Error serializing: {0}
    SerializationFailure(bcs::Error),
    /// Error deserializing: {0}
    DeserializationFailure(bcs::Error),
    /// Block contains a transaction that is too large: {size} > {limit}
    TransactionTooLarge { size: usize, limit: usize },
    /// Block contains too many transactions: {count} > {limit}
    TooManyTransactions { count: usize, limit: usize },
    /// Block contains too many transaction bytes: {size} > {limit}
    TooManyTransactionBytes { size: usize, limit: usize },
    /// Unexpected block authority {0} from peer {1}
    UnexpectedAuthority(AuthorityIndex, AuthorityIndex),
    /// Block has wrong epoch: expected {expected}, actual {actual}
    WrongEpoch { expected: u64, actual: u64 },
    /// Genesis block headers should only be generated from Committee!
    UnexpectedGenesisHeader,
    /// Genesis block headers or transactions are requested from {peer}!
    UnexpectedGenesisRequested { peer: AuthorityIndex },
    /// Expected {requested} but received {received_headers} block headers from authority {authority}
    UnexpectedNumberOfHeadersFetched { authority: AuthorityIndex, requested: usize, received_headers: usize },
    /// Unexpected block header {block_ref} returned while fetching last own header from peer {index}
    UnexpectedLastOwnHeader { index: AuthorityIndex, block_ref: BlockRef },
    /// Too many transactions have been returned from authority {0} when requesting to fetch missing transactions
    TooManyFetchedTransactionsReturned(AuthorityIndex),
    /// Too many authorities have been provided from authority {0}
    TooManyAuthoritiesProvided(AuthorityIndex),
    /// Provided size of highest accepted rounds parameter, {0}, is different than committee size, {1}
    InvalidSizeOfHighestAcceptedRounds(usize, usize),
    /// Invalid authority index: {index} > {max}
    InvalidAuthorityIndex { index: AuthorityIndex, max: usize },
    /// Invalid authority index: {index} > {max} from peer {peer}
    InvalidAuthorityIndexRequested { index: AuthorityIndex, max: usize, peer: AuthorityIndex },
    /// Failed to deserialize signature: {0}
    MalformedSignature(FastCryptoError),
    /// Failed to verify the block's signature: {0}
    SignatureVerificationFailure(FastCryptoError),
    /// Wrong transaction commitment in B{round} by {author} received from {peer}
    TransactionCommitmentFailure { round: Round, author: AuthorityIndex, peer: AuthorityIndex },
    /// After reconstruction, the transaction commitment does not match the commitment in transaction ref {}
    TransactionCommitmentMismatch { transaction_ref: TransactionRef },
    /// Synchronizer for fetching blocks directly from {0} is saturated
    SynchronizerSaturated(AuthorityIndex),
    /// Transaction Synchronizer is saturated
    TransactionSynchronizerSaturated,
    /// Block {block_ref:?} rejected: {reason}
    BlockRejected { block_ref: BlockRef, reason: String },
    /// Ancestor is in wrong position: block {block_authority}, ancestor {ancestor_authority}, position {position}
    InvalidAncestorPosition { block_authority: AuthorityIndex, ancestor_authority: AuthorityIndex, position: usize },
    /// Ancestor's round ({ancestor}) should be lower than the block's round ({block})
    InvalidAncestorRound { ancestor: Round, block: Round },
    /// Ancestor {0} not found among genesis blocks!
    InvalidGenesisAncestor(BlockRef),
    /// Too many ancestors in the block: {0} > {1}
    TooManyAncestors(usize, usize),
    /// Merkle tree has no root (empty shard list)
    EmptyMerkleTree,
    /// Missing block header for {block_ref}
    MissingBlockHeader { block_ref: BlockRef },
    /// Invalid overlap indices: overlap_start={overlap_start}, overlap_end={overlap_end}, references_len={references_len}
    InvalidOverlapIndices { overlap_start: u8, overlap_end: u8, references_len: usize },
    /// Commit range exceeded limit after scanning during {sync_type} sync: {count} > {limit}
    CommitRangeExceededAfterScanning { count: CommitIndex, limit: CommitIndex, sync_type: &'static str },
    /// Peer {peer} sent too many commits: {count} > {limit}
    TooManyCommitsFromPeer { peer: AuthorityIndex, count: CommitIndex, limit: CommitIndex },
    /// Ancestors from the same authority {0}
    DuplicatedAncestorsAuthority(AuthorityIndex),
    /// Insufficient stake from parents: {parent_stakes} < {quorum}
    InsufficientParentStakes { parent_stakes: Stake, quorum: Stake },
    /// Invalid transaction: {0}
    InvalidTransaction(String),
    /// Received no commit from peer {peer}
    NoCommitReceived { peer: AuthorityIndex },
    /// Received unexpected start commit from peer {peer}: requested {start}, received {commit:?}
    UnexpectedStartCommit { peer: AuthorityIndex, start: CommitIndex, commit: Arc<Commit> },
    /// Received unexpected commit sequence from peer {peer}: {prev_commit:?}, {curr_commit:?}
    UnexpectedCommitSequence { peer: AuthorityIndex, prev_commit: Arc<Commit>, curr_commit: Arc<Commit> },
    /// Not enough votes ({stake}) on end commit from peer {peer}: {commit:?}
    NotEnoughCommitVotes { stake: Stake, peer: AuthorityIndex, commit: Arc<Commit> },
    /// Received unexpected block header from peer {peer}: {requested:?} vs {received:?}
    UnexpectedBlockHeaderForCommit { peer: AuthorityIndex, requested: BlockRef, received: BlockRef },
    /// Received unexpected transaction from peer {peer}: {received:?}
    UnexpectedTransactionForCommit { peer: AuthorityIndex, received: GenericTransactionRef },
    /// Fetched transactions from peer {peer} do not match committed transaction refs. Expected {expected} transactions, but received {received} transactions
    FetchedTransactionsMismatch { peer: AuthorityIndex, expected: usize, received: usize },
    /// RocksDB failure: {0}
    RocksDBFailure(String),
    /// Network config error: {0:?}
    NetworkConfig(String),
    /// Failed to connect as client: {0:?}
    NetworkClientConnection(String),
    /// Failed to send request: {0:?}
    NetworkRequest(String),
    /// Request timeout: {0:?}
    NetworkRequestTimeout(String),
    /// Accumulator sender has shut down!
    AccumulatorSenderClosed,
    /// Consensus has shut down!
    Shutdown,
    /// Shard encoder reset failed: {0}
    EncoderResetFailed(String),
    /// Failed to add original shard to encoder: {0}
    AddShardFailed(String),
    /// Reed-Solomon encoding failed in encoder: {0}
    ShardsEncodingFailed(String),
    /// Reed-Solomon decoding failed in decoder: {0}
    ShardsDecodingFailed(String),
    /// Shards collection does not contain enough valid shards for decoding: {0} found, at least {1} needed
    InsufficientShardsInDecoder(usize, usize),
    /// Vector of shards is too small: {0} bytes found, at least {1} bytes needed
    ShardsVecIsTooSmall(usize, usize),
    /// Round of the header in a bundle is greater or equal to the block round: {header_round} >= {block_round}
    TooBigHeaderRoundInABundle { header_round: Round, block_round: Round },
    /// Block bundle from {peer} contains shard from round {round} with incorrect proof
    IncorrectShardProof { peer: AuthorityIndex, round: Round },
    /// Round of the shard in a bundle is greater or equal to the block round: {shard_round} >= {block_round}
    TooBigShardRoundInABundle { shard_round: Round, block_round: Round },
    /// All GenericTransactionRef elements must have the same variant (BlockRef, TransactionRef, etc.) for batch operations.
    InconsistentTransactionRefVariants,
    /// Transaction reference variant is inconsistent with protocol flag consensus_fast_commit_sync={protocol_flag_enabled}. Expected {expected_variant}, but received {received_variant}
    TransactionRefVariantMismatch { protocol_flag_enabled: bool, expected_variant: &'static str, received_variant: &'static str },
    /// Failed to fetch {num_requested} block headers from any peer
    FailedToFetchBlockHeaders { num_requested: usize },
    /// Voting block header {block_ref:?} for commit certification was not found in storage
    MissingVotingBlockHeaderInStorage { block_ref: BlockRef },
    /// Fast commit sync is not enabled in the current protocol version
    FastCommitSyncNotEnabled,
    /// Commit variant {actual} does not match protocol flags (consensus_starfish_speed={starfish_speed})
    WrongCommitVersionForFlags { actual: &'static str, starfish_speed: bool },
    /// Peer {peer} sent too many commit vote headers: {count} > {limit}
    TooManyCommitVoteHeaders { peer: AuthorityIndex, count: usize, limit: usize },
    /// Commits from peer {peer} reference too many transactions: {count} > {limit}
    TooManyCommittedTransactionsInRange { peer: AuthorityIndex, count: usize, limit: usize },
    /// Serialized transactions are too large: {size} > {limit}
    SerializedTransactionsTooLarge { size: usize, limit: usize },
}

pub type ConsensusResult<T> = Result<T, ConsensusError>;

impl ConsensusError {
    pub open spec fn spec_name(&self) -> &'static str {
        match self {
            ConsensusError::MalformedHeader(..) => "MalformedHeader",
            ConsensusError::MalformedShard(..) => "MalformedShard",
            ConsensusError::MalformedTransactions(..) => "MalformedTransactions",
            ConsensusError::MalformedCommit(..) => "MalformedCommit",
            ConsensusError::SerializationFailure(..) => "SerializationFailure",
            ConsensusError::DeserializationFailure(..) => "DeserializationFailure",
            ConsensusError::TransactionTooLarge { .. } => "TransactionTooLarge",
            ConsensusError::TooManyTransactions { .. } => "TooManyTransactions",
            ConsensusError::TooManyTransactionBytes { .. } => "TooManyTransactionBytes",
            ConsensusError::UnexpectedAuthority(..) => "UnexpectedAuthority",
            ConsensusError::WrongEpoch { .. } => "WrongEpoch",
            ConsensusError::UnexpectedGenesisHeader => "UnexpectedGenesisHeader",
            ConsensusError::UnexpectedGenesisRequested { .. } => "UnexpectedGenesisRequested",
            ConsensusError::UnexpectedNumberOfHeadersFetched { .. } => "UnexpectedNumberOfHeadersFetched",
            ConsensusError::UnexpectedLastOwnHeader { .. } => "UnexpectedLastOwnHeader",
            ConsensusError::TooManyFetchedTransactionsReturned(..) => "TooManyFetchedTransactionsReturned",
            ConsensusError::TooManyAuthoritiesProvided(..) => "TooManyAuthoritiesProvided",
            ConsensusError::InvalidSizeOfHighestAcceptedRounds(..) => "InvalidSizeOfHighestAcceptedRounds",
            ConsensusError::InvalidAuthorityIndex { .. } => "InvalidAuthorityIndex",
            ConsensusError::InvalidAuthorityIndexRequested { .. } => "InvalidAuthorityIndexRequested",
            ConsensusError::MalformedSignature(..) => "MalformedSignature",
            ConsensusError::SignatureVerificationFailure(..) => "SignatureVerificationFailure",
            ConsensusError::TransactionCommitmentFailure { .. } => "TransactionCommitmentFailure",
            ConsensusError::TransactionCommitmentMismatch { .. } => "TransactionCommitmentMismatch",
            ConsensusError::SynchronizerSaturated(..) => "SynchronizerSaturated",
            ConsensusError::TransactionSynchronizerSaturated => "TransactionSynchronizerSaturated",
            ConsensusError::BlockRejected { .. } => "BlockRejected",
            ConsensusError::InvalidAncestorPosition { .. } => "InvalidAncestorPosition",
            ConsensusError::InvalidAncestorRound { .. } => "InvalidAncestorRound",
            ConsensusError::InvalidGenesisAncestor(..) => "InvalidGenesisAncestor",
            ConsensusError::TooManyAncestors(..) => "TooManyAncestors",
            ConsensusError::EmptyMerkleTree => "EmptyMerkleTree",
            ConsensusError::MissingBlockHeader { .. } => "MissingBlockHeader",
            ConsensusError::InvalidOverlapIndices { .. } => "InvalidOverlapIndices",
            ConsensusError::CommitRangeExceededAfterScanning { .. } => "CommitRangeExceededAfterScanning",
            ConsensusError::TooManyCommitsFromPeer { .. } => "TooManyCommitsFromPeer",
            ConsensusError::DuplicatedAncestorsAuthority(..) => "DuplicatedAncestorsAuthority",
            ConsensusError::InsufficientParentStakes { .. } => "InsufficientParentStakes",
            ConsensusError::InvalidTransaction(..) => "InvalidTransaction",
            ConsensusError::NoCommitReceived { .. } => "NoCommitReceived",
            ConsensusError::UnexpectedStartCommit { .. } => "UnexpectedStartCommit",
            ConsensusError::UnexpectedCommitSequence { .. } => "UnexpectedCommitSequence",
            ConsensusError::NotEnoughCommitVotes { .. } => "NotEnoughCommitVotes",
            ConsensusError::UnexpectedBlockHeaderForCommit { .. } => "UnexpectedBlockHeaderForCommit",
            ConsensusError::UnexpectedTransactionForCommit { .. } => "UnexpectedTransactionForCommit",
            ConsensusError::FetchedTransactionsMismatch { .. } => "FetchedTransactionsMismatch",
            ConsensusError::RocksDBFailure(..) => "RocksDBFailure",
            ConsensusError::NetworkConfig(..) => "NetworkConfig",
            ConsensusError::NetworkClientConnection(..) => "NetworkClientConnection",
            ConsensusError::NetworkRequest(..) => "NetworkRequest",
            ConsensusError::NetworkRequestTimeout(..) => "NetworkRequestTimeout",
            ConsensusError::AccumulatorSenderClosed => "AccumulatorSenderClosed",
            ConsensusError::Shutdown => "Shutdown",
            ConsensusError::EncoderResetFailed(..) => "EncoderResetFailed",
            ConsensusError::AddShardFailed(..) => "AddShardFailed",
            ConsensusError::ShardsEncodingFailed(..) => "ShardsEncodingFailed",
            ConsensusError::ShardsDecodingFailed(..) => "ShardsDecodingFailed",
            ConsensusError::InsufficientShardsInDecoder(..) => "InsufficientShardsInDecoder",
            ConsensusError::ShardsVecIsTooSmall(..) => "ShardsVecIsTooSmall",
            ConsensusError::TooBigHeaderRoundInABundle { .. } => "TooBigHeaderRoundInABundle",
            ConsensusError::IncorrectShardProof { .. } => "IncorrectShardProof",
            ConsensusError::TooBigShardRoundInABundle { .. } => "TooBigShardRoundInABundle",
            ConsensusError::InconsistentTransactionRefVariants => "InconsistentTransactionRefVariants",
            ConsensusError::TransactionRefVariantMismatch { .. } => "TransactionRefVariantMismatch",
            ConsensusError::FailedToFetchBlockHeaders { .. } => "FailedToFetchBlockHeaders",
            ConsensusError::MissingVotingBlockHeaderInStorage { .. } => "MissingVotingBlockHeaderInStorage",
            ConsensusError::FastCommitSyncNotEnabled => "FastCommitSyncNotEnabled",
            ConsensusError::WrongCommitVersionForFlags { .. } => "WrongCommitVersionForFlags",
            ConsensusError::TooManyCommitVoteHeaders { .. } => "TooManyCommitVoteHeaders",
            ConsensusError::TooManyCommittedTransactionsInRange { .. } => "TooManyCommittedTransactionsInRange",
            ConsensusError::SerializedTransactionsTooLarge { .. } => "SerializedTransactionsTooLarge",
        }
    }

    /// The name of the error, without its parameters.
    pub fn name(&self) -> (r: &'static str)
        ensures
            r == self.spec_name(),
    {
        match self {
            ConsensusError::MalformedHeader(..) => "MalformedHeader",
            ConsensusError::MalformedShard(..) => "MalformedShard",
            ConsensusError::MalformedTransactions(..) => "MalformedTransactions",
            ConsensusError::MalformedCommit(..) => "MalformedCommit",
            ConsensusError::SerializationFailure(..) => "SerializationFailure",
            ConsensusError::DeserializationFailure(..) => "DeserializationFailure",
            ConsensusError::TransactionTooLarge { .. } => "TransactionTooLarge",
            ConsensusError::TooManyTransactions { .. } => "TooManyTransactions",
            ConsensusError::TooManyTransactionBytes { .. } => "TooManyTransactionBytes",
            ConsensusError::UnexpectedAuthority(..) => "UnexpectedAuthority",
            ConsensusError::WrongEpoch { .. } => "WrongEpoch",
            ConsensusError::UnexpectedGenesisHeader => "UnexpectedGenesisHeader",
            ConsensusError::UnexpectedGenesisRequested { .. } => "UnexpectedGenesisRequested",
            ConsensusError::UnexpectedNumberOfHeadersFetched { .. } => "UnexpectedNumberOfHeadersFetched",
            ConsensusError::UnexpectedLastOwnHeader { .. } => "UnexpectedLastOwnHeader",
            ConsensusError::TooManyFetchedTransactionsReturned(..) => "TooManyFetchedTransactionsReturned",
            ConsensusError::TooManyAuthoritiesProvided(..) => "TooManyAuthoritiesProvided",
            ConsensusError::InvalidSizeOfHighestAcceptedRounds(..) => "InvalidSizeOfHighestAcceptedRounds",
            ConsensusError::InvalidAuthorityIndex { .. } => "InvalidAuthorityIndex",
            ConsensusError::InvalidAuthorityIndexRequested { .. } => "InvalidAuthorityIndexRequested",
            ConsensusError::MalformedSignature(..) => "MalformedSignature",
            ConsensusError::SignatureVerificationFailure(..) => "SignatureVerificationFailure",
            ConsensusError::TransactionCommitmentFailure { .. } => "TransactionCommitmentFailure",
            ConsensusError::TransactionCommitmentMismatch { .. } => "TransactionCommitmentMismatch",
            ConsensusError::SynchronizerSaturated(..) => "SynchronizerSaturated",
            ConsensusError::TransactionSynchronizerSaturated => "TransactionSynchronizerSaturated",
            ConsensusError::BlockRejected { .. } => "BlockRejected",
            ConsensusError::InvalidAncestorPosition { .. } => "InvalidAncestorPosition",
            ConsensusError::InvalidAncestorRound { .. } => "InvalidAncestorRound",
            ConsensusError::InvalidGenesisAncestor(..) => "InvalidGenesisAncestor",
            ConsensusError::TooManyAncestors(..) => "TooManyAncestors",
            ConsensusError::EmptyMerkleTree => "EmptyMerkleTree",
            ConsensusError::MissingBlockHeader { .. } => "MissingBlockHeader",
            ConsensusError::InvalidOverlapIndices { .. } => "InvalidOverlapIndices",
            ConsensusError::CommitRangeExceededAfterScanning { .. } => "CommitRangeExceededAfterScanning",
            ConsensusError::TooManyCommitsFromPeer { .. } => "TooManyCommitsFromPeer",
            ConsensusError::DuplicatedAncestorsAuthority(..) => "DuplicatedAncestorsAuthority",
            ConsensusError::InsufficientParentStakes { .. } => "InsufficientParentStakes",
            ConsensusError::InvalidTransaction(..) => "InvalidTransaction",
            ConsensusError::NoCommitReceived { .. } => "NoCommitReceived",
            ConsensusError::UnexpectedStartCommit { .. } => "UnexpectedStartCommit",
            ConsensusError::UnexpectedCommitSequence { .. } => "UnexpectedCommitSequence",
            ConsensusError::NotEnoughCommitVotes { .. } => "NotEnoughCommitVotes",
            ConsensusError::UnexpectedBlockHeaderForCommit { .. } => "UnexpectedBlockHeaderForCommit",
            ConsensusError::UnexpectedTransactionForCommit { .. } => "UnexpectedTransactionForCommit",
            ConsensusError::FetchedTransactionsMismatch { .. } => "FetchedTransactionsMismatch",
            ConsensusError::RocksDBFailure(..) => "RocksDBFailure",
            ConsensusError::NetworkConfig(..) => "NetworkConfig",
            ConsensusError::NetworkClientConnection(..) => "NetworkClientConnection",
            ConsensusError::NetworkRequest(..) => "NetworkRequest",
            ConsensusError::NetworkRequestTimeout(..) => "NetworkRequestTimeout",
            ConsensusError::AccumulatorSenderClosed => "AccumulatorSenderClosed",
            ConsensusError::Shutdown => "Shutdown",
            ConsensusError::EncoderResetFailed(..) => "EncoderResetFailed",
            ConsensusError::AddShardFailed(..) => "AddShardFailed",
            ConsensusError::ShardsEncodingFailed(..) => "ShardsEncodingFailed",
            ConsensusError::ShardsDecodingFailed(..) => "ShardsDecodingFailed",
            ConsensusError::InsufficientShardsInDecoder(..) => "InsufficientShardsInDecoder",
            ConsensusError::ShardsVecIsTooSmall(..) => "ShardsVecIsTooSmall",
            ConsensusError::TooBigHeaderRoundInABundle { .. } => "TooBigHeaderRoundInABundle",
            ConsensusError::IncorrectShardProof { .. } => "IncorrectShardProof",
            ConsensusError::TooBigShardRoundInABundle { .. } => "TooBigShardRoundInABundle",
            ConsensusError::InconsistentTransactionRefVariants => "InconsistentTransactionRefVariants",
            ConsensusError::TransactionRefVariantMismatch { .. } => "TransactionRefVariantMismatch",
            ConsensusError::FailedToFetchBlockHeaders { .. } => "FailedToFetchBlockHeaders",
            ConsensusError::MissingVotingBlockHeaderInStorage { .. } => "MissingVotingBlockHeaderInStorage",
            ConsensusError::FastCommitSyncNotEnabled => "FastCommitSyncNotEnabled",
            ConsensusError::WrongCommitVersionForFlags { .. } => "WrongCommitVersionForFlags",
            ConsensusError::TooManyCommitVoteHeaders { .. } => "TooManyCommitVoteHeaders",
            ConsensusError::TooManyCommittedTransactionsInRange { .. } => "TooManyCommittedTransactionsInRange",
            ConsensusError::SerializedTransactionsTooLarge { .. } => "SerializedTransactionsTooLarge",
        }
    }

    /// What is wrong with a request for something of `author` at `round`.
    pub open spec fn reference_fault(
        round: Round,
        author: AuthorityIndex,
        peer: AuthorityIndex,
        committee: &Committee,
    ) -> Option<ConsensusError> {
        if !committee.is_valid_index(author) {
            Some(
                ConsensusError::InvalidAuthorityIndexRequested {
                    index: author,
                    max: committee.stakes@.len() as usize,
                    peer,
                },
            )
        } else if round == GENESIS_ROUND {
            Some(ConsensusError::UnexpectedGenesisRequested { peer })
        } else {
            None
        }
    }

    /// Accepts a request for headers, unless one of them is of no authority of
    /// the committee or of genesis: then the first such one is the error.
    pub fn quick_validation_requested_block_refs(
        block_refs: &[BlockRef],
        peer: AuthorityIndex,
        committee: &Committee,
    ) -> (r: ConsensusResult<()>)
        ensures
            match r {
                Ok(_) => forall|i: int|
                    0 <= i < block_refs@.len() ==> Self::reference_fault(
                        (#[trigger] block_refs@[i]).round,
                        block_refs@[i].author,
                        peer,
                        committee,
                    ) is None,
                Err(e) => exists|j: int|
                    0 <= j < block_refs@.len() && Self::reference_fault(
                        (#[trigger] block_refs@[j]).round,
                        block_refs@[j].author,
                        peer,
                        committee,
                    ) == Some(e) && forall|i: int|
                        0 <= i < j ==> Self::reference_fault(
                            (#[trigger] block_refs@[i]).round,
                            block_refs@[i].author,
                            peer,
                            committee,
                        ) is None,
            },
    {
        let mut i: usize = 0;
        while i < block_refs.len()
            invariant
                i <= block_refs@.len(),
                forall|k: int|
                    0 <= k < i ==> Self::reference_fault(
                        (#[trigger] block_refs@[k]).round,
                        block_refs@[k].author,
                        peer,
                        committee,
                    ) is None,
            decreases block_refs@.len() - i,
        {
            let block = block_refs[i];
            if !committee.is_valid_index(block.author) {
                assert(block_refs@[i as int] == block);
                return Err(
                    ConsensusError::InvalidAuthorityIndexRequested {
                        index: block.author,
                        max: committee.size(),
                        peer,
                    },
                );
            }
            if block.round == GENESIS_ROUND {
                assert(block_refs@[i as int] == block);
                return Err(ConsensusError::UnexpectedGenesisRequested { peer });
            }
            i = i + 1;
        }
        Ok(())
    }

    /// Accepts a request for transactions, unless some of them are of no
    /// authority of the committee or of genesis: then the first such reference
    /// is the error.
    pub fn quick_validation_requested_tx_refs(
        gen_tx_refs: &[GenericTransactionRef],
        peer: AuthorityIndex,
        committee: &Committee,
    ) -> (r: ConsensusResult<()>)
        ensures
            match r {
                Ok(_) => forall|i: int|
                    0 <= i < gen_tx_refs@.len() ==> Self::reference_fault(
                        (#[trigger] gen_tx_refs@[i]).spec_round(),
                        gen_tx_refs@[i].spec_author(),
                        peer,
                        committee,
                    ) is None,
                Err(e) => exists|j: int|
                    0 <= j < gen_tx_refs@.len() && Self::reference_fault(
                        (#[trigger] gen_tx_refs@[j]).spec_round(),
                        gen_tx_refs@[j].spec_author(),
                        peer,
                        committee,
                    ) == Some(e) && forall|i: int|
                        0 <= i < j ==> Self::reference_fault(
                            (#[trigger] gen_tx_refs@[i]).spec_round(),
                            gen_tx_refs@[i].spec_author(),
                            peer,
                            committee,
                        ) is None,
            },
    {
        let mut i: usize = 0;
        while i < gen_tx_refs.len()
            invariant
                i <= gen_tx_refs@.len(),
                forall|k: int|
                    0 <= k < i ==> Self::reference_fault(
                        (#[trigger] gen_tx_refs@[k]).spec_round(),
                        gen_tx_refs@[k].spec_author(),
                        peer,
                        committee,
                    ) is None,
            decreases gen_tx_refs@.len() - i,
        {
            let gen_tx_ref = gen_tx_refs[i];
            if !committee.is_valid_index(gen_tx_ref.author()) {
                assert(gen_tx_refs@[i as int] == gen_tx_ref);
                return Err(
                    ConsensusError::InvalidAuthorityIndexRequested {
                        index: gen_tx_ref.author(),
                        max: committee.size(),
                        peer,
                    },
                );
            }
            if gen_tx_ref.round() == GENESIS_ROUND {
                assert(gen_tx_refs@[i as int] == gen_tx_ref);
                return Err(ConsensusError::UnexpectedGenesisRequested { peer });
            }
            i = i + 1;
        }
        Ok(())
    }

    /// Accepts a list of authorities, unless one of them is not of the
    /// committee: then the first such one is the error.
    pub fn quick_validation_authority_indices(
        authorities: &[AuthorityIndex],
        committee: &Committee,
    ) -> (r: ConsensusResult<()>)
        ensures
            match r {
                Ok(_) => forall|i: int|
                    0 <= i < authorities@.len() ==> committee.is_valid_index(
                        #[trigger] authorities@[i],
                    ),
                Err(e) => exists|j: int|
                    0 <= j < authorities@.len() && !committee.is_valid_index(
                        #[trigger] authorities@[j],
                    ) && e == (ConsensusError::InvalidAuthorityIndex {
                        index: authorities@[j],
                        max: committee.stakes@.len() as usize,
                    }) && forall|i: int|
                        0 <= i < j ==> committee.is_valid_index(#[trigger] authorities@[i]),
            },
    {
        let mut i: usize = 0;
        while i < authorities.len()
            invariant
                i <= authorities@.len(),
                forall|k: int|
                    0 <= k < i ==> committee.is_valid_index(#[trigger] authorities@[k]),
            decreases authorities@.len() - i,
        {
            let authority = authorities[i];
            if !committee.is_valid_index(authority) {
                assert(authorities@[i as int] == authority);
                return Err(
                    ConsensusError::InvalidAuthorityIndex {
                        index: authority,
                        max: committee.size(),
                    },
                );
            }
            i = i + 1;
        }
        Ok(())
    }
}

/// A request is refused exactly where it is for something of nobody in the committee,
/// or of genesis.
pub proof fn law_refused_references(
    round: Round,
    author: AuthorityIndex,
    peer: AuthorityIndex,
    committee: &Committee,
)
    ensures
        ConsensusError::reference_fault(round, author, peer, committee) is None <==> author
            < committee.stakes@.len() && round > 0,
        author >= committee.stakes@.len() ==> ConsensusError::reference_fault(
            round,
            author,
            peer,
            committee,
        )->Some_0 is InvalidAuthorityIndexRequested,
        author < committee.stakes@.len() && round == 0 ==> ConsensusError::reference_fault(
            round,
            author,
            peer,
            committee,
        ) == Some(ConsensusError::UnexpectedGenesisRequested { peer }),
{
}

} // verus!
