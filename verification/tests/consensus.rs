use hyle::model::consensus::{
    ConsensusNetMessage, ConsensusProposal, ConsensusProposalHash, NewValidatorCandidate, SignedConsensusNetMessage,
};
use hyle::model::crypto::{AggregateSignature, Signature, ValidatorSignature};
use hyle::model::mempool::{Cut, DataProposalHash};
use hyle::model::ValidatorPublicKey;

#[test]
fn test_consensus_proposal_hash() {
    let proposal = ConsensusProposal {
        slot: 1,
        view: 1,
        round_leader: ValidatorPublicKey(vec![1, 2, 3]),
        cut: Cut::default(),
        new_validators_to_bond: vec![],
        timestamp: 1,
        parent_hash: ConsensusProposalHash("".to_string()),
    };
    let hash = proposal.hash();
    assert_eq!(hash.0.len(), 64);
}

#[test]
fn test_consensus_proposal_hash_ignored_fields() {
    let mut a = ConsensusProposal {
        slot: 1,
        view: 1,
        round_leader: ValidatorPublicKey(vec![1, 2, 3]),
        cut: vec![(ValidatorPublicKey(vec![1]), DataProposalHash("propA".to_string()), AggregateSignature::default())],
        new_validators_to_bond: vec![NewValidatorCandidate {
            pubkey: ValidatorPublicKey(vec![1, 2, 3]),
            msg: SignedConsensusNetMessage {
                msg: ConsensusNetMessage::PrepareVote(ConsensusProposalHash("".to_string())),
                signature: ValidatorSignature {
                    signature: Signature(vec![1, 2, 3]),
                    validator: ValidatorPublicKey(vec![1, 2, 3]),
                },
            },
        }],
        timestamp: 1,
        parent_hash: ConsensusProposalHash("parent".to_string()),
    };
    let mut b = ConsensusProposal {
        slot: 1,
        view: 1,
        round_leader: ValidatorPublicKey(vec![1, 2, 3]),
        cut: vec![(
            ValidatorPublicKey(vec![1]),
            DataProposalHash("propA".to_string()),
            AggregateSignature { signature: Signature(vec![1, 2, 3]), validators: vec![ValidatorPublicKey(vec![1, 2, 3])] },
        )],
        new_validators_to_bond: vec![NewValidatorCandidate {
            pubkey: ValidatorPublicKey(vec![1, 2, 3]),
            msg: SignedConsensusNetMessage {
                msg: ConsensusNetMessage::PrepareVote(ConsensusProposalHash("differebt".to_string())),
                signature: ValidatorSignature { signature: Signature(vec![]), validator: ValidatorPublicKey(vec![]) },
            },
        }],
        timestamp: 1,
        parent_hash: ConsensusProposalHash("parent".to_string()),
    };
    assert_eq!(a.hash(), b.hash());
    a.timestamp = 2;
    assert_ne!(a.hash(), b.hash());
    b.timestamp = 2;
    assert_eq!(a.hash(), b.hash());

    a.slot = 2;
    assert_ne!(a.hash(), b.hash());
    b.slot = 2;
    assert_eq!(a.hash(), b.hash());

    a.view = 2;
    assert_ne!(a.hash(), b.hash());
    b.view = 2;
    assert_eq!(a.hash(), b.hash());

    a.round_leader = ValidatorPublicKey(vec![4, 5, 6]);
    assert_ne!(a.hash(), b.hash());
    b.round_leader = ValidatorPublicKey(vec![4, 5, 6]);
    assert_eq!(a.hash(), b.hash());

    a.parent_hash = ConsensusProposalHash("different".to_string());
    assert_ne!(a.hash(), b.hash());
    b.parent_hash = ConsensusProposalHash("different".to_string());
    assert_eq!(a.hash(), b.hash());
}

#[test]
fn hash_is_lower_case_hex() {
    let proposal = ConsensusProposal::default();
    let hash = proposal.hash();
    assert!(hash.0.chars().all(|c| c.is_ascii_digit() || ('a'..='f').contains(&c)));
}

#[test]
fn hash_depends_on_the_cut() {
    let mut a = ConsensusProposal::default();
    let b = ConsensusProposal::default();
    a.cut = vec![(ValidatorPublicKey(vec![9]), DataProposalHash("x".to_string()), AggregateSignature::default())];
    assert_ne!(a.hash(), b.hash());
}
