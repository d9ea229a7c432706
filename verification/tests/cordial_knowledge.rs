//! Who knows which headers and shards, and what goes along with a block.
use std::sync::Arc;

use starfish_core::committee::Committee;
use starfish_core::cordial_knowledge::connection::{
    BlockBundle, ConnectionKnowledge, MAX_ROUND_GAP_FOR_USEFUL_PARTS,
};
use starfish_core::cordial_knowledge::global::{
    update_authority_rounds_if_greater, CordialKnowledge, EVICTION_CHECK_INTERVAL,
};
use starfish_core::cordial_knowledge::messages::{
    ConnectionKnowledgeMessage, CordialKnowledgeMessage,
};
use starfish_core::cordial_knowledge::unknown::UnknownRefs;
use starfish_core::dag_state::model::DagConfig;
use starfish_core::dag_state::source::DataSource;
use starfish_core::dag_state::state::DagState;
use starfish_core::header::{
    BlockHeader, BlockTransactions, VerifiedBlock, VerifiedBlockHeader, VerifiedOwnShard,
};
use starfish_core::refs::{
    AuthorityIndex, BlockRef, Digest, GenericTransactionRef, Round, TransactionRef, GENESIS_ROUND,
};
use starfish_core::sorted::{SortedMap, SortedSet};

fn header(
    round: Round,
    author: AuthorityIndex,
    ancestors: Vec<BlockRef>,
    acknowledgments: Vec<BlockRef>,
) -> VerifiedBlockHeader {
    Arc::new(BlockHeader {
        reference: BlockRef {
            round,
            author,
            digest: Digest { hi: (round as u128) << 8 | author as u128, lo: 5 },
        },
        timestamp_ms: round as u64,
        ancestors,
        acknowledgments,
        commit_votes: vec![],
        transactions_commitment: Digest { hi: 77, lo: (round as u128) << 8 | author as u128 },
        serialized: Arc::new(vec![round as u8, author]),
    })
}

fn block(header: &VerifiedBlockHeader) -> VerifiedBlock {
    VerifiedBlock {
        verified_block_header: header.clone(),
        verified_transactions: Arc::new(BlockTransactions {
            transactions: vec![],
            transaction_ref: TransactionRef::new(header.reference, header.transactions_commitment),
            block_digest: Some(header.reference.digest),
            serialized: Arc::new(vec![]),
        }),
    }
}

fn map_of(entries: &[(AuthorityIndex, Round)]) -> SortedMap<AuthorityIndex, Round> {
    let mut map = SortedMap::new();
    for (a, r) in entries {
        map.insert(*a, *r);
    }
    map
}

/// A node with what it knows of each peer.
struct Node {
    dag_state: DagState,
    knowledge: CordialKnowledge,
    connections: Vec<ConnectionKnowledge>,
}

impl Node {
    fn new(n: usize) -> Self {
        let mut genesis = SortedMap::new();
        for a in 0..n as AuthorityIndex {
            let h = header(GENESIS_ROUND, a, vec![], vec![]);
            genesis.insert(h.reference, block(&h));
        }
        let config = DagConfig {
            committee: Committee { stakes: vec![1; n], quorum_threshold: 2 * n as u64 / 3 + 1 },
            own_index: 0,
            cached_rounds: 500,
            gc_depth: 60,
            consensus_fast_commit_sync: false,
        };
        let mut dag_state = DagState::new(
            config,
            genesis,
            None,
            None,
            false,
            &|_| vec![],
            &|_, _| vec![],
            &|_, _| vec![],
            &|_| None,
        );
        dag_state.set_cordial_knowledge_senders();
        Node {
            dag_state,
            knowledge: CordialKnowledge::new(n, 0, false),
            connections: (0..n)
                .map(|a| ConnectionKnowledge::new(0, a as AuthorityIndex, n, 100, 100))
                .collect(),
        }
    }

    fn process(&mut self, message: Option<CordialKnowledgeMessage>) {
        if let Some(message) = message {
            let lists = self.knowledge.process_batch(&vec![message]);
            for (a, list) in lists.iter().enumerate() {
                self.connections[a].process_vec_messages(list);
            }
        }
    }

    fn accept(&mut self, h: &VerifiedBlockHeader) {
        let message =
            self.dag_state.accept_block_header(h, DataSource::Test, &|_| false, &|_| None);
        self.process(message);
    }

    fn add_shard(&mut self, h: &VerifiedBlockHeader) {
        let message = self.dag_state.add_shard(VerifiedOwnShard {
            gen_transaction_ref: GenericTransactionRef::BlockRef(h.reference),
            serialized_shard: Arc::new(vec![0u8; 32]),
        });
        self.process(message);
    }

    fn bundle(&mut self, peer: usize, h: &VerifiedBlockHeader) -> BlockBundle {
        self.connections[peer].create_bundle(block(h), &self.dag_state)
    }
}

fn useful_info() -> ConnectionKnowledgeMessage {
    ConnectionKnowledgeMessage::UsefulAuthors {
        useful_headers_to_peer: map_of(&[(2, GENESIS_ROUND), (3, GENESIS_ROUND)]),
        useful_shards_to_peer: map_of(&[(2, GENESIS_ROUND), (3, GENESIS_ROUND)]),
        useful_headers_from_peer: map_of(&[(1, GENESIS_ROUND), (3, GENESIS_ROUND)]),
        useful_shards_from_peer: vec![None, Some(GENESIS_ROUND), None, Some(GENESIS_ROUND)],
    }
}

#[test]
fn test_cordial_knowledge_bundle_with_byzantine() {
    let our_index = 0usize;
    let byzantine: AuthorityIndex = 3;
    let final_round: Round = 6;
    let mut node = Node::new(4);
    // Nobody builds on the headers of the last authority before round 6, when
    // this node does.
    let mut rounds: Vec<Vec<VerifiedBlockHeader>> =
        vec![(0..4).map(|a| header(0, a, vec![], vec![])).collect()];
    for round in 1..=final_round {
        let previous: Vec<BlockRef> =
            rounds[round as usize - 1].iter().map(|h| h.reference).collect();
        let layer = (0..4u8)
            .map(|a| {
                let sees_all =
                    round == 1 || a == byzantine || (round == final_round && a as usize == our_index);
                let ancestors = previous
                    .iter()
                    .filter(|r| sees_all || r.author != byzantine)
                    .cloned()
                    .collect();
                header(round, a, ancestors, vec![])
            })
            .collect();
        rounds.push(layer);
    }
    node.connections[1].process_one_message(&useful_info());
    for round in 1..=final_round - 1 {
        if round == final_round - 1 {
            for layer in &rounds.clone()[1..=final_round as usize - 1] {
                node.accept(&layer[byzantine as usize]);
                node.add_shard(&layer[byzantine as usize]);
            }
        }
        let mut news: Vec<VerifiedBlockHeader> = rounds[round as usize][1..3].to_vec();
        news.push(rounds[round as usize + 1][our_index].clone());
        for h in &news {
            node.accept(h);
            node.add_shard(h);
        }
        let own = rounds[round as usize + 1][our_index].clone();
        let bundle = node.bundle(1, &own);
        let headers = bundle.verified_headers;
        let shards = bundle.serialized_shards;
        if round < final_round - 1 {
            assert_eq!(headers.len(), 1, "round {round}");
            assert_eq!(headers[0].reference, rounds[round as usize][2].reference);
            assert_eq!(shards.len(), 1, "round {round}");
        } else {
            let of_byzantine =
                headers.iter().filter(|h| h.reference.author == byzantine).count();
            assert_eq!(of_byzantine, final_round as usize - 1);
            assert_eq!(headers.len(), final_round as usize);
            assert_eq!(shards.len(), final_round as usize);
        }
    }
}

fn add_layers(node: &mut Node, from: Round, to: Round) {
    for round in from..=to {
        let previous: Vec<BlockRef> =
            (0..4).map(|a| header(round - 1, a, vec![], vec![]).reference).collect();
        for a in 0..4 {
            node.accept(&header(round, a, previous.clone(), vec![]));
        }
    }
}

#[test]
fn test_connection_knowledge_take_additional_parts() {
    let final_round: Round = MAX_ROUND_GAP_FOR_USEFUL_PARTS / 2;
    let mut node = Node::new(4);
    node.connections[1].process_one_message(&useful_info());
    assert_eq!(node.connections[1].sizes(), (0, 0));
    add_layers(&mut node, 1, final_round);
    // Of each of the others the last header.
    assert_eq!(node.connections[1].sizes(), (3, 0));
    let own = header(final_round + 1, 0, vec![], vec![]);
    let bundle = node.bundle(1, &own);
    assert_eq!(bundle.verified_headers.len(), 2);
    assert!(bundle
        .verified_headers
        .iter()
        .all(|h| h.reference.author != 0 || h.reference.author == 1));
    assert_eq!(bundle.useful_headers_authors.to_vec(), vec![1, 3]);
    assert_eq!(bundle.useful_shards_authors.to_vec(), vec![1, 3]);
    let bundle = node.bundle(1, &own);
    assert_eq!(bundle.verified_headers.len(), 0);
    let last_round = final_round + MAX_ROUND_GAP_FOR_USEFUL_PARTS;
    add_layers(&mut node, final_round + 1, last_round);
    let bundle = node.bundle(1, &header(last_round + 1, 0, vec![], vec![]));
    assert!(bundle.verified_headers.is_empty());
    assert!(bundle.serialized_shards.is_empty());
    assert!(bundle.useful_headers_authors.is_empty());
    assert!(bundle.useful_shards_authors.is_empty());
}

fn block_ref(round: Round, author: AuthorityIndex, lo: u128) -> GenericTransactionRef {
    GenericTransactionRef::BlockRef(BlockRef { round, author, digest: Digest { hi: 1, lo } })
}

#[test]
fn early_rounds_and_first_authors_go_first() {
    let mut table = UnknownRefs::new(4);
    for (round, author, lo) in [(5, 1, 1), (3, 2, 1), (3, 1, 1), (3, 1, 2), (9, 1, 1), (2, 3, 1)] {
        table.insert(&block_ref(round, author, lo));
    }
    table.insert(&block_ref(3, 2, 1));
    assert_eq!(table.count(), 6);
    let taken = table.take_useful_refs_round(9, &vec![1, 2], 3);
    assert_eq!(taken.len(), 3);
    let mut first: Vec<GenericTransactionRef> = taken[..2].to_vec();
    first.sort();
    assert_eq!(first, vec![block_ref(3, 1, 1), block_ref(3, 1, 2)]);
    assert_eq!(taken[2], block_ref(3, 2, 1));
    let taken = table.take_useful_refs_round(9, &vec![1, 2], 3);
    assert_eq!(taken, vec![block_ref(5, 1, 1)]);
    assert!(table.take_useful_refs_round(9, &vec![1, 2], 3).is_empty());
    assert!(table.take_useful_refs_round(10, &vec![], 3).is_empty());
    assert!(table.take_useful_refs_round(10, &vec![1], 0).is_empty());
    assert_eq!(table.take_useful_refs_round(10, &vec![1, 3], 9).len(), 2);
}

#[test]
fn in_a_round_authors_go_in_the_order_listed() {
    let mut table = UnknownRefs::new(4);
    for (round, author) in [(3, 1), (3, 2), (2, 1), (3, 0)] {
        table.insert(&block_ref(round, author, 1));
    }
    let taken = table.take_useful_refs_round(9, &vec![2, 0, 1], 3);
    assert_eq!(taken, vec![block_ref(2, 1, 1), block_ref(3, 2, 1), block_ref(3, 0, 1)]);
    let taken = table.take_useful_refs_round(9, &vec![2, 0, 1], 3);
    assert_eq!(taken, vec![block_ref(3, 1, 1)]);
}

#[test]
fn evicted_rounds_are_forgotten() {
    let mut table = UnknownRefs::new(2);
    for round in 1..=4 {
        for author in 0..2 {
            table.insert(&block_ref(round, author, 1));
        }
    }
    table.evict_below(&vec![2, 3]);
    let left = table.take_useful_refs_round(100, &vec![0, 1], 100);
    assert_eq!(left, vec![block_ref(3, 0, 1), block_ref(4, 0, 1), block_ref(4, 1, 1)]);
}

#[test]
fn remove_undoes_insert() {
    let mut table = UnknownRefs::new(2);
    let commitment = GenericTransactionRef::TransactionRef(TransactionRef {
        round: 1,
        author: 1,
        transactions_commitment: Digest { hi: 1, lo: 1 },
    });
    table.insert(&block_ref(1, 1, 1));
    table.insert(&commitment);
    table.remove(&block_ref(1, 1, 1));
    table.remove(&block_ref(1, 1, 7));
    assert_eq!(table.take_useful_refs_round(2, &vec![1], 5), vec![commitment]);
}

#[test]
fn author_knows_its_causal_past() {
    let mut knowledge = CordialKnowledge::new(4, 0, false);
    let a1 = header(1, 1, vec![], vec![]);
    let b2 = header(2, 2, vec![a1.reference], vec![]);
    let d3 = header(3, 3, vec![b2.reference], vec![a1.reference]);
    let message = |h: &VerifiedBlockHeader| CordialKnowledgeMessage::NewHeader {
        header: h.clone(),
        ack_transactions_commitments: h.acknowledgments.iter().map(|_| None).collect(),
    };
    let lists = knowledge.process_message(&message(&a1)).unwrap();
    assert!(lists[0].is_empty());
    assert!(lists[1].is_empty());
    assert!(matches!(
        lists[2][..],
        [ConnectionKnowledgeMessage::NewHeader { block_ref }] if block_ref == a1.reference
    ));
    let lists = knowledge.process_message(&message(&b2)).unwrap();
    assert!(matches!(
        lists[2][..],
        [ConnectionKnowledgeMessage::RemoveHeader { block_ref }] if block_ref == a1.reference
    ));
    let lists = knowledge.process_message(&message(&d3)).unwrap();
    assert!(matches!(
        lists[3][0],
        ConnectionKnowledgeMessage::RemoveShard {
            gen_tx_ref: GenericTransactionRef::BlockRef(r)
        } if r == a1.reference
    ));
    let mut removed: Vec<BlockRef> = lists[3][1..]
        .iter()
        .map(|m| match m {
            ConnectionKnowledgeMessage::RemoveHeader { block_ref } => *block_ref,
            _ => panic!("a removal was expected"),
        })
        .collect();
    removed.sort();
    assert_eq!(removed, vec![a1.reference, b2.reference]);
    // A header that is known already changes nothing.
    assert!(knowledge.process_message(&message(&d3)).is_none());
}

#[test]
fn acknowledgments_count_by_commitment_where_commits_do() {
    let mut knowledge = CordialKnowledge::new(4, 0, true);
    let acks: Vec<BlockRef> = (1..4).map(|a| header(1, a, vec![], vec![]).reference).collect();
    let h = header(2, 2, vec![], acks.clone());
    let commitment = Digest { hi: 9, lo: 9 };
    let lists = knowledge
        .process_message(&CordialKnowledgeMessage::NewHeader {
            header: h,
            ack_transactions_commitments: vec![None, Some(commitment), None],
        })
        .unwrap();
    assert_eq!(lists[2].len(), 1);
    assert!(matches!(
        lists[2][0],
        ConnectionKnowledgeMessage::RemoveShard { gen_tx_ref }
            if gen_tx_ref
                == GenericTransactionRef::TransactionRef(TransactionRef::new(acks[1], commitment))
    ));
}

#[test]
fn new_shards_are_told_to_all_but_their_author() {
    let mut knowledge = CordialKnowledge::new(4, 0, false);
    let k = block_ref(7, 2, 1);
    let message = CordialKnowledgeMessage::NewShard(k);
    assert_eq!(message.type_label(), "New shard");
    let lists = knowledge.process_message(&message).unwrap();
    let told: Vec<usize> = lists.iter().map(|l| l.len()).collect();
    assert_eq!(told, vec![0, 1, 0, 1]);
}

#[test]
fn useful_rounds_only_rise() {
    let mut rounds = vec![None, Some(5), Some(7)];
    assert!(update_authority_rounds_if_greater(&mut rounds, &map_of(&[(0, 3), (1, 4), (2, 9)])));
    assert_eq!(rounds, vec![Some(3), Some(5), Some(9)]);
    assert!(!update_authority_rounds_if_greater(&mut rounds, &map_of(&[(0, 3), (1, 4)])));
    // No authority has an index beyond one byte: what stands there stays.
    let mut long: Vec<Option<Round>> = vec![Some(1); 300];
    assert!(update_authority_rounds_if_greater(&mut long, &map_of(&[(0, 3), (44, 5), (255, 9)])));
    let changed: Vec<usize> = (0..300).filter(|a| long[*a] != Some(1)).collect();
    assert_eq!(changed, vec![0, 44, 255]);
    let mut knowledge = CordialKnowledge::new(3, 0, false);
    let message = CordialKnowledgeMessage::UsefulShardsFromPeers(map_of(&[(2, 4)]));
    let lists = knowledge.process_message(&message).unwrap();
    assert_eq!(lists[0].len(), 0);
    assert_eq!(lists[1].len(), 1);
    assert!(knowledge.process_message(&message).is_none());
}

#[test]
fn eviction_is_told_to_all_connections() {
    let mut knowledge = CordialKnowledge::new(2, 0, false);
    let mut messages = vec![vec![], vec![]];
    knowledge.append_eviction_msgs(&vec![1], &mut messages);
    assert!(messages[0].is_empty());
    knowledge.append_eviction_msgs(&vec![1, 2], &mut messages);
    for list in &messages {
        assert!(matches!(
            &list[..],
            [ConnectionKnowledgeMessage::EvictBelow(rounds)] if *rounds == vec![1, 2]
        ));
    }
    assert!(!CordialKnowledge::is_eviction_check_due(EVICTION_CHECK_INTERVAL - 1));
    assert!(CordialKnowledge::is_eviction_check_due(EVICTION_CHECK_INTERVAL));
}

#[test]
fn reported_authors_become_useful() {
    let mut connection = ConnectionKnowledge::new(0, 1, 4, 10, 10);
    let headers = vec![
        header(4, 2, vec![], vec![]),
        header(6, 2, vec![], vec![]),
        header(5, 3, vec![], vec![]),
    ];
    let missing = SortedSet::from_vec(&vec![header(2, 1, vec![], vec![]).reference]);
    let message = connection
        .report_useful_authors(
            &SortedSet::from_vec(&vec![0, 2]),
            &SortedSet::from_vec(&vec![3]),
            &headers,
            &missing,
            8,
        )
        .unwrap();
    assert_eq!(
        connection.last_useful_headers_to_peer_round,
        vec![Some(8), None, Some(8), None]
    );
    assert_eq!(connection.last_useful_shards_to_peer_round, vec![None, None, None, Some(8)]);
    assert_eq!(
        connection.last_useful_headers_from_peer_round,
        vec![None, Some(8), Some(8), Some(8)]
    );
    assert_eq!(connection.last_useful_shards_from_peer_round, vec![None; 4]);
    match message {
        CordialKnowledgeMessage::UsefulShardsFromPeers(rounds) => {
            assert_eq!(rounds.entries, vec![(2, 6), (3, 5)]);
        }
        _ => panic!("useful shards were expected"),
    }
    assert!(connection
        .report_useful_authors(&SortedSet::new(), &SortedSet::new(), &vec![], &missing, 9)
        .is_none());
}

#[test]
fn news_is_told_in_the_order_found() {
    let mut knowledge = CordialKnowledge::new(4, 0, false);
    let a = header(1, 1, vec![], vec![]);
    let b = header(1, 2, vec![], vec![]);
    let c = header(2, 1, vec![a.reference], vec![]);
    let d = header(2, 2, vec![b.reference], vec![]);
    for h in [&a, &b, &c, &d] {
        assert!(knowledge.update_cordial_knowledge(h, &vec![]).is_some());
    }
    // The ancestors of the header come first, then those of its last ancestor.
    let e = header(3, 3, vec![c.reference, d.reference, c.reference], vec![]);
    let messages = knowledge.update_cordial_knowledge(&e, &vec![]).unwrap();
    let told: Vec<BlockRef> = messages[3]
        .iter()
        .map(|m| match m {
            ConnectionKnowledgeMessage::RemoveHeader { block_ref } => *block_ref,
            _ => panic!("only removals were expected"),
        })
        .collect();
    assert_eq!(told, vec![c.reference, d.reference, b.reference, a.reference]);
}
