//! Where data came from.
use vstd::prelude::*;

verus! {

/// Where a header or transactions came from.
#[derive(Clone, Copy, Debug, PartialEq, Eq, Hash, Structural)]
pub enum DataSource {
    /// Fetched as missing by the transaction synchronizer.
    TransactionSynchronizer,
    /// Put together from erasure-coded shards.
    ShardReconstructor,
    /// Received as an additional part of a streamed bundle.
    BlockBundleStream,
    /// Fetched by the live or periodic header synchronizer.
    HeaderSynchronizer,
    /// Loaded from storage when the node starts.
    Recover,
    /// Made by this node.
    OwnBlock,
    /// Streamed by the block's author.
    BlockStreaming,
    /// Fetched with the commits that take it in.
    CommitSyncer,
    /// Fetched by fast commit synchronization.
    FastCommitSyncer,
    /// Made up by a test.
    Test,
}

impl DataSource {
    pub open spec fn spec_as_str(&self) -> &'static str {
        match self {
            DataSource::TransactionSynchronizer => "Transactions synchronizer",
            DataSource::ShardReconstructor => "Shard reconstructor",
            DataSource::BlockBundleStream => "Block headers in streaming",
            DataSource::HeaderSynchronizer => "Header synchronizer",
            DataSource::Recover => "Recover",
            DataSource::OwnBlock => "Own block",
            DataSource::BlockStreaming => "Block streaming",
            DataSource::CommitSyncer => "Commit syncer",
            DataSource::FastCommitSyncer => "Fast commit syncer",
            DataSource::Test => "Test",
        }
    }

    /// The label used in metrics.
    pub fn as_str(&self) -> (r: &'static str)
        ensures
            r == self.spec_as_str(),
    {
        match self {
            DataSource::TransactionSynchronizer => "Transactions synchronizer",
            DataSource::ShardReconstructor => "Shard reconstructor",
            DataSource::BlockBundleStream => "Block headers in streaming",
            DataSource::HeaderSynchronizer => "Header synchronizer",
            DataSource::Recover => "Recover",
            DataSource::OwnBlock => "Own block",
            DataSource::BlockStreaming => "Block streaming",
            DataSource::CommitSyncer => "Commit syncer",
            DataSource::FastCommitSyncer => "Fast commit syncer",
            DataSource::Test => "Test",
        }
    }
}

/// The sources are told apart by their names.
pub proof fn law_source_names_differ(a: DataSource, b: DataSource)
    ensures
        a.spec_as_str()@ == b.spec_as_str()@ ==> a == b,
{
    reveal_strlit("Transactions synchronizer");
    reveal_strlit("Shard reconstructor");
    reveal_strlit("Block headers in streaming");
    reveal_strlit("Header synchronizer");
    reveal_strlit("Recover");
    reveal_strlit("Own block");
    reveal_strlit("Block streaming");
    reveal_strlit("Commit syncer");
    reveal_strlit("Fast commit syncer");
    reveal_strlit("Test");
    assert("Shard reconstructor"@[0] == 'S');
    assert("Header synchronizer"@[0] == 'H');
    assert("Transactions synchronizer"@.len() == 25);
    assert("Shard reconstructor"@.len() == 19);
    assert("Block headers in streaming"@.len() == 26);
    assert("Header synchronizer"@.len() == 19);
    assert("Recover"@.len() == 7);
    assert("Own block"@.len() == 9);
    assert("Block streaming"@.len() == 15);
    assert("Commit syncer"@.len() == 13);
    assert("Fast commit syncer"@.len() == 18);
    assert("Test"@.len() == 4);
}

} // verus!
