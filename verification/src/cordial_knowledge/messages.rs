//! The messages that carry news about headers and shards.
use vstd::prelude::*;

use crate::header::VerifiedBlockHeader;
use crate::refs::{
    AuthorityIndex, BlockRef, GenericTransactionRef, Round, TransactionsCommitment,
};
use crate::sorted::SortedMap;

verus! {

/// High-level news about the DAG.
#[derive(Debug)]
pub enum CordialKnowledgeMessage {
    /// A new verified header, with the transactions commitments of the blocks
    /// that it acknowledges, as far as they are known.
    NewHeader {
        header: VerifiedBlockHeader,
        ack_transactions_commitments: Vec<Option<TransactionsCommitment>>,
    },
    /// A new own shard.
    NewShard(GenericTransactionRef),
    /// The authors whose shards have turned out useful, and in which round.
    UsefulShardsFromPeers(SortedMap<AuthorityIndex, Round>),
}

impl CordialKnowledgeMessage {
    pub open spec fn spec_type_label(&self) -> &'static str {
        match self {
            CordialKnowledgeMessage::NewHeader { .. } => "New header",
            CordialKnowledgeMessage::NewShard(_) => "New shard",
            CordialKnowledgeMessage::UsefulShardsFromPeers(_) => "Useful authors for shards",
        }
    }

    /// What kind of message this is.
    pub fn type_label(&self) -> (r: &'static str)
        ensures
            r == self.spec_type_label(),
    {
        match self {
            CordialKnowledgeMessage::NewHeader { .. } => "New header",
            CordialKnowledgeMessage::NewShard(_) => "New shard",
            CordialKnowledgeMessage::UsefulShardsFromPeers(_) => "Useful authors for shards",
        }
    }
}

/// News for the connection to one peer.
#[derive(Debug)]
pub enum ConnectionKnowledgeMessage {
    /// A header has been added.
    NewHeader { block_ref: BlockRef },
    /// The peer knows this header now.
    RemoveHeader { block_ref: BlockRef },
    /// A shard has been added.
    NewShard { gen_tx_ref: GenericTransactionRef },
    /// The peer knows these transactions now.
    RemoveShard { gen_tx_ref: GenericTransactionRef },
    /// Whose headers and shards are useful to the peer, and whose from it.
    UsefulAuthors {
        useful_headers_to_peer: SortedMap<AuthorityIndex, Round>,
        useful_shards_to_peer: SortedMap<AuthorityIndex, Round>,
        useful_headers_from_peer: SortedMap<AuthorityIndex, Round>,
        useful_shards_from_peer: Vec<Option<Round>>,
    },
    /// The rounds up to which each authority's data is gone.
    EvictBelow(Vec<Round>),
}

/// The kinds of messages are told apart by their labels.
pub proof fn law_labels_differ(a: CordialKnowledgeMessage, b: CordialKnowledgeMessage)
    requires
        a.spec_type_label()@ == b.spec_type_label()@,
    ensures
        a is NewHeader <==> b is NewHeader,
        a is NewShard <==> b is NewShard,
{
    reveal_strlit("New header");
    reveal_strlit("New shard");
    reveal_strlit("Useful authors for shards");
    assert("New header"@.len() == 10);
    assert("New shard"@.len() == 9);
    assert("Useful authors for shards"@.len() == 25);
}

} // verus!
