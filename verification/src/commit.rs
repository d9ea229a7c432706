//! Commits, and the sub-DAGs that they stand for.
use std::sync::Arc;

use vstd::prelude::*;

use crate::header::{Bytes, VerifiedBlockHeader, VerifiedTransactions};
use crate::refs::{
    AuthorityIndex, BlockRef, BlockTimestampMs, CommitDigest, CommitIndex, CommitRange, CommitRef,
    GenericTransactionRef, Round,
};

verus! {

/// The layout that a commit was made in.
#[derive(Clone, Copy, Debug, PartialEq, Eq, Structural)]
pub enum CommitVersion {
    V1,
    V2,
    V3,
}

/// What a commit says.
#[derive(Debug, PartialEq, Eq)]
pub struct Commit {
    pub version: CommitVersion,
    pub index: CommitIndex,
    pub previous_digest: CommitDigest,
    pub timestamp_ms: BlockTimestampMs,
    pub leader: BlockRef,
    /// The headers that the commit takes in.
    pub block_headers: Vec<BlockRef>,
    /// The transactions that the commit puts in order.
    pub committed_transactions: Vec<GenericTransactionRef>,
    /// The leader scores in force, highest first.
    pub reputation_scores: Vec<(AuthorityIndex, u64)>,
}

/// A commit that is known to be certified, with its digest.
#[derive(Debug, PartialEq, Eq)]
pub struct CertifiedContent {
    pub commit: Arc<Commit>,
    pub digest: CommitDigest,
    /// The commit as it travels.
    pub serialized: Bytes,
}

pub type TrustedCommit = Arc<CertifiedContent>;

impl CertifiedContent {
    pub open spec fn spec_reference(self) -> CommitRef {
        CommitRef { index: self.commit.index, digest: self.digest }
    }

    pub fn reference(&self) -> (r: CommitRef)
        ensures
            r == self.spec_reference(),
    {
        CommitRef::new(self.commit.index, self.digest)
    }
}

/// A commit with the sub-DAG that it takes in, before its transactions.
#[derive(Debug, PartialEq, Eq)]
pub struct SubDagContent {
    pub leader: BlockRef,
    pub headers: Vec<VerifiedBlockHeader>,
    pub committed_header_refs: Vec<BlockRef>,
    pub timestamp_ms: BlockTimestampMs,
    pub commit_ref: CommitRef,
    pub reputation_scores_desc: Vec<(AuthorityIndex, u64)>,
}

pub type SubDagBase = Arc<SubDagContent>;

/// How often each authority has been found at fault.
pub type MisbehaviorTotals = Arc<Vec<u64>>;

/// A sub-DAG with the transactions that its commit puts in order.
#[derive(Debug, PartialEq, Eq)]
pub struct CommittedSubDag {
    pub base: SubDagBase,
    pub transactions: Vec<VerifiedTransactions>,
    pub misbehavior_counts: MisbehaviorTotals,
}

/// Leader scores, and the commits that they were counted over.
#[derive(Debug, PartialEq, Eq)]
pub struct ReputationScores {
    pub scores_per_authority: Vec<u64>,
    pub commit_range: CommitRange,
}

/// What is kept of the commits at the end of a leader schedule window.
#[derive(Debug, PartialEq, Eq)]
pub struct CommitInfo {
    pub committed_rounds: Vec<Round>,
    pub reputation_scores: ReputationScores,
}

} // verus!
