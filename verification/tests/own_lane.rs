use hyle::mempool::own_lane::{disseminate_data_proposals, DisseminateError, Dissemination, PendingEntry};
use hyle::model::mempool::DataProposalHash;
use hyle::model::ValidatorPublicKey;

fn key(b: u8) -> ValidatorPublicKey {
    ValidatorPublicKey(vec![b])
}

fn entry(hash: &str, signers: Vec<u8>, found: bool) -> PendingEntry {
    PendingEntry { dp_hash: DataProposalHash(hash.to_string()), signers: signers.into_iter().map(key).collect(), found }
}

#[test]
fn own_signature_only_is_broadcast_to_everyone() {
    let entries = vec![entry("dp1", vec![1], true)];
    let res = disseminate_data_proposals(&entries, &None, &key(1), &vec![key(1), key(2), key(3)]).unwrap();
    match res {
        Some(Dissemination::Broadcast(h)) => assert_eq!(h.0, "dp1"),
        other => panic!("unexpected {:?}", other),
    }
}

#[test]
fn missing_signers_get_the_proposal_again() {
    let entries = vec![entry("dp1", vec![1, 2], true)];
    let res = disseminate_data_proposals(&entries, &None, &key(1), &vec![key(1), key(2), key(3)]).unwrap();
    match res {
        Some(Dissemination::BroadcastOnlyFor(h, to)) => {
            assert_eq!(h.0, "dp1");
            assert_eq!(to, vec![key(3)]);
        },
        other => panic!("unexpected {:?}", other),
    }
}

#[test]
fn fully_signed_proposals_are_passed_over() {
    let entries = vec![entry("dp1", vec![1, 2], true), entry("dp2", vec![1], true)];
    let res = disseminate_data_proposals(&entries, &None, &key(1), &vec![key(1), key(2)]).unwrap();
    match res {
        Some(Dissemination::Broadcast(h)) => assert_eq!(h.0, "dp2"),
        other => panic!("unexpected {:?}", other),
    }
}

#[test]
fn a_single_bonded_validator_sends_nothing() {
    let entries = vec![entry("dp1", vec![1], true)];
    let res = disseminate_data_proposals(&entries, &None, &key(1), &vec![key(1)]).unwrap();
    assert!(res.is_none());
}

#[test]
fn only_the_named_proposal_is_considered() {
    let entries = vec![entry("dp1", vec![1], false), entry("dp2", vec![1], true)];
    let only = Some(DataProposalHash("dp2".to_string()));
    let res = disseminate_data_proposals(&entries, &only, &key(1), &vec![key(1), key(2)]).unwrap();
    match res {
        Some(Dissemination::Broadcast(h)) => assert_eq!(h.0, "dp2"),
        other => panic!("unexpected {:?}", other),
    }
}

#[test]
fn a_missing_proposal_is_an_error() {
    let entries = vec![entry("dp1", vec![1], false)];
    match disseminate_data_proposals(&entries, &None, &key(1), &vec![key(1), key(2)]) {
        Err(DisseminateError::MissingDataProposal(h)) => assert_eq!(h.0, "dp1"),
        other => panic!("unexpected {:?}", other),
    }
}
