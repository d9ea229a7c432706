//! Errors, what is shown of the DAG, and faults made on purpose.
use starfish_core::committee::Committee;
use starfish_core::dag_visualizer::{
    admit_stream, convert_event_to_proto, get_committee, wave_for_round, DagEvent,
    DagVisualizerEvent,
};
use starfish_core::error::ConsensusError;
use starfish_core::fault_injection::{
    authority_in_scope, deterministic_match, faults_on_receive, Config, DEFAULT_DET_MOD,
};
use starfish_core::refs::{BlockRef, Digest, GenericTransactionRef, TransactionRef};

#[test]
fn test_error_name() {
    let error = ConsensusError::InvalidAncestorRound { ancestor: 10, block: 11 };
    assert_eq!(error.name(), "InvalidAncestorRound");
    let error = ConsensusError::InvalidAuthorityIndex { index: 3, max: 10 };
    assert_eq!(error.name(), "InvalidAuthorityIndex");
    let error = ConsensusError::InsufficientParentStakes { parent_stakes: 5, quorum: 20 };
    assert_eq!(error.name(), "InsufficientParentStakes");
}

#[test]
fn requests_are_validated() {
    let committee = Committee { stakes: vec![1; 4], quorum_threshold: 3 };
    let r = |round, author| BlockRef::new(round, author, Digest::min());
    assert!(ConsensusError::quick_validation_requested_block_refs(
        &[r(1, 0), r(2, 3)],
        1,
        &committee
    )
    .is_ok());
    assert!(matches!(
        ConsensusError::quick_validation_requested_block_refs(&[r(1, 0), r(2, 4)], 1, &committee),
        Err(ConsensusError::InvalidAuthorityIndexRequested { index: 4, max: 4, peer: 1 })
    ));
    assert!(matches!(
        ConsensusError::quick_validation_requested_block_refs(&[r(0, 0)], 1, &committee),
        Err(ConsensusError::UnexpectedGenesisRequested { peer: 1 })
    ));
    let t = GenericTransactionRef::TransactionRef(TransactionRef {
        round: 0,
        author: 2,
        transactions_commitment: Digest::min(),
    });
    assert!(matches!(
        ConsensusError::quick_validation_requested_tx_refs(&[t], 3, &committee),
        Err(ConsensusError::UnexpectedGenesisRequested { peer: 3 })
    ));
    assert!(ConsensusError::quick_validation_authority_indices(&[0, 3], &committee).is_ok());
    assert!(matches!(
        ConsensusError::quick_validation_authority_indices(&[0, 9], &committee),
        Err(ConsensusError::InvalidAuthorityIndex { index: 9, max: 4 })
    ));
}

#[test]
fn convert_block_accepted_to_proto() {
    let event = DagVisualizerEvent::BlockAccepted {
        round: 10,
        author: 2,
        digest: [0xAB; 32],
        timestamp_ms: 5000,
        ancestors: vec![(9, 1, [0xCD; 32])],
        acknowledgments: vec![(8, 1, [0xEE; 32])],
    };
    match convert_event_to_proto(&event) {
        DagEvent::BlockAccepted {
            round,
            author,
            digest,
            timestamp_ms,
            ancestors,
            acknowledgments,
        } => {
            assert_eq!(round, 10);
            assert_eq!(author, 2);
            assert_eq!(digest, vec![0xAB; 32]);
            assert_eq!(timestamp_ms, 5000);
            assert_eq!(ancestors.len(), 1);
            assert_eq!(ancestors[0].round, 9);
            assert_eq!(ancestors[0].author, 1);
            assert_eq!(acknowledgments.len(), 1);
            assert_eq!(acknowledgments[0].round, 8);
            assert_eq!(acknowledgments[0].author, 1);
            assert_eq!(acknowledgments[0].digest, vec![0xEE; 32]);
        }
        _ => panic!("Expected BlockAccepted"),
    }
}

#[test]
fn convert_leader_decided_to_proto() {
    let committed = 1;
    let event = DagVisualizerEvent::LeaderDecided {
        wave: 3,
        leader_round: 7,
        leader_authority: 1,
        status: committed,
        block_digest: [0xFF; 32],
    };
    match convert_event_to_proto(&event) {
        DagEvent::LeaderDecided { wave, leader_round, leader_authority, status, .. } => {
            assert_eq!(wave, 3);
            assert_eq!(leader_round, 7);
            assert_eq!(leader_authority, 1);
            assert_eq!(status, committed);
        }
        _ => panic!("Expected LeaderDecided"),
    }
}

#[test]
fn convert_round_advanced_to_proto() {
    match convert_event_to_proto(&DagVisualizerEvent::RoundAdvanced { round: 42 }) {
        DagEvent::RoundAdvanced { round } => assert_eq!(round, 42),
        _ => panic!("Expected RoundAdvanced"),
    }
}

#[test]
fn waves_have_three_rounds() {
    let waves: Vec<u32> = (0..8).map(wave_for_round).collect();
    assert_eq!(waves, vec![0, 0, 0, 0, 1, 1, 1, 2]);
}

#[test]
fn committee_is_shown_in_order() {
    let committee = Committee { stakes: vec![5, 7, 9], quorum_threshold: 15 };
    let hosts = vec!["a".to_string(), "b".to_string(), "c".to_string()];
    let shown = get_committee(&committee, 8, &hosts);
    assert_eq!(shown.epoch, 8);
    assert_eq!(shown.total_stake, 21);
    assert_eq!(shown.quorum_threshold, 15);
    assert_eq!(shown.validators[2].index, 2);
    assert_eq!(shown.validators[2].hostname, "c");
    assert_eq!(shown.validators[2].stake, 9);
    assert_eq!(admit_stream(0), Some(1));
    assert_eq!(admit_stream(1), None);
}

#[test]
fn modes_are_listed_by_commas() {
    let config = Config::new(" header ,\tequivocation,,nothing , missed x", None, None);
    assert!(config.modes.header);
    assert!(config.modes.equivocation);
    assert!(!config.modes.missed);
    assert!(!config.modes.unprovable);
    assert!(!config.modes.invalid_report);
    assert!(config.any_enabled());
    assert!(!Config::new("", None, None).any_enabled());
    let config = Config::new("invalid_report\u{2003},unprovable\u{a0},missed", None, None);
    assert!(config.modes.invalid_report && config.modes.unprovable && config.modes.missed);
    assert!(!Config::new("head,er", None, None).any_enabled());
    assert!(!Config::new("Header", None, None).any_enabled());
}

#[test]
fn settings_have_defaults() {
    assert_eq!(Config::new("", None, None).det_mod, DEFAULT_DET_MOD);
    assert_eq!(DEFAULT_DET_MOD, 17);
    assert_eq!(Config::new("", None, Some(0)).det_mod, 17);
    let config = Config::new("", Some("".to_string()), Some(4));
    assert_eq!(config.det_mod, 4);
    assert!(authority_in_scope(&config, "anybody"));
    assert!(deterministic_match(&config, 8));
    assert!(!deterministic_match(&config, 9));
    let config = Config::new("", Some("host".to_string()), None);
    assert!(authority_in_scope(&config, "host"));
    assert!(!authority_in_scope(&config, "other"));
}

#[test]
fn faults_come_by_mode_target_and_dice() {
    let config = Config::new("unprovable", Some("bad".to_string()), None);
    let faults = faults_on_receive(&config, "bad", true, true);
    assert!(faults.unprovable && !faults.equivocation);
    assert!(!faults_on_receive(&config, "bad", false, true).unprovable);
    assert!(!faults_on_receive(&config, "good", true, true).unprovable);
    let config = Config::new("equivocation", None, None);
    assert!(faults_on_receive(&config, "good", false, true).equivocation);
}

#[test]
fn one_round_in_each_stretch_is_faulty() {
    let config = Config::new("missed", None, Some(5));
    for start in 0..20 {
        let count = (start..start + 5).filter(|r| deterministic_match(&config, *r)).count();
        assert_eq!(count, 1);
    }
}
