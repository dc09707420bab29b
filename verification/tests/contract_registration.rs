use hyle::model::contract_registration::{
    has_item_for_all_parents, validate_contract_name_registration, validate_state_digest_size, ContractNameError,
    StateDigestError,
};
use hyle::model::{ContractName, StateDigest};

fn cn(s: &str) -> ContractName {
    ContractName::new(s)
}

#[test]
fn test_validate_contract_registration_valid_subdomain() {
    let owner = cn("example");
    let new_contract = cn("sub.example");
    assert!(validate_contract_name_registration(&owner, &new_contract).is_ok());
}

#[test]
fn test_validate_contract_registration_invalid_subdomain() {
    let owner = cn("example");
    let new_contract = cn("another.tld");
    assert!(validate_contract_name_registration(&owner, &new_contract).is_err());
}

#[test]
fn test_validate_contract_registration_invalid_format() {
    let owner = cn("example");
    let new_contract = cn("invalidname");
    assert!(validate_contract_name_registration(&owner, &new_contract).is_err());
}

#[test]
fn test_validate_contract_registration_self_registration() {
    let owner = cn("example");
    let new_contract = cn("example");
    assert!(validate_contract_name_registration(&owner, &new_contract).is_ok());
}

#[test]
fn test_validate_contract_registration_hyle_tld() {
    assert!(validate_contract_name_registration(&cn("hyle"), &cn("newtld")).is_ok());
    assert!(validate_contract_name_registration(&cn("hyle"), &cn("")).is_err());
    assert!(validate_contract_name_registration(&cn("hyle"), &cn(".")).is_err());
    assert!(validate_contract_name_registration(&cn("hyle"), &cn("hyle")).is_err());
}

#[test]
fn test_validate_contract_registration_hyle_with_subdomains() {
    let owner = cn("hyle");
    let new_contract = cn("sub.sub.hyle");
    assert!(validate_contract_name_registration(&owner, &new_contract).is_ok());
}

#[test]
fn test_validate_contract_registration_empty_strings() {
    assert!(validate_contract_name_registration(&cn(""), &cn("")).is_err());
    assert!(validate_contract_name_registration(&cn(""), &cn(".")).is_err());
    assert!(validate_contract_name_registration(&cn("a"), &cn("")).is_err());
    assert!(validate_contract_name_registration(&cn(""), &cn("a")).is_err());
    assert!(validate_contract_name_registration(&cn("a"), &cn(".")).is_err());
    assert!(validate_contract_name_registration(&cn(""), &cn("a.")).is_err());
    assert!(validate_contract_name_registration(&cn("a"), &cn(".a")).is_err());
    assert!(validate_contract_name_registration(&cn(""), &cn(".a")).is_err());
}

#[test]
fn test_validate_contract_registration_multiple_periods() {
    let owner = cn("example");
    let new_contract = cn("sub.sub.example");
    assert!(validate_contract_name_registration(&owner, &new_contract).is_ok());

    let invalid_contract = cn("sub..example");
    assert!(validate_contract_name_registration(&owner, &invalid_contract).is_err());

    let invalid_ending_period = cn("example.");
    assert!(validate_contract_name_registration(&owner, &invalid_ending_period).is_err());
}

#[test]
fn test_validate_contract_registration_multiple_periods_in_owner() {
    let owner = cn("example.hyle");
    let new_contract = cn("sub.sub.example.hyle");
    assert!(validate_contract_name_registration(&owner, &new_contract).is_ok());
}

#[test]
fn test_validate_contract_registration_case_sensitivity() {
    let owner = cn("Example");
    let new_contract = cn("sub.example");
    assert!(validate_contract_name_registration(&owner, &new_contract).is_err());
}

#[test]
fn test_validate_contract_registration_numeric_names() {
    let owner = cn("123");
    let new_contract = cn("456.123");
    assert!(validate_contract_name_registration(&owner, &new_contract).is_ok());

    let invalid_contract = cn("123.456");
    assert!(validate_contract_name_registration(&owner, &invalid_contract).is_err());
}

#[test]
fn test_validate_contract_registration_smiley() {
    assert!(validate_contract_name_registration(&cn("hyle"), &cn("🥷")).is_ok());
    assert!(validate_contract_name_registration(&cn("hyle"), &cn("💅🏻💅🏼💅🏽💅🏾💅🏿💅")).is_ok());
}

#[test]
fn test_validate_state_digest_size_ok() {
    let size = 10 * 1024 * 1024;
    let digest = StateDigest(vec![0; size]);
    assert!(validate_state_digest_size(&digest).is_ok());
}

#[test]
fn test_validate_state_digest_size_too_long() {
    let size = 10 * 1024 * 1024 + 1;
    let digest = StateDigest(vec![0; size]);
    assert!(validate_state_digest_size(&digest).is_err());
}

#[test]
fn test_tx_has_blobs_for_all_parents_all_present() {
    let contract_name = cn("sub.example.com");
    let blob_contract_names = vec![cn("com"), cn("example.com")];
    assert!(has_item_for_all_parents(&blob_contract_names, &contract_name));
}

#[test]
fn test_tx_has_blobs_for_all_parents_empty_blobs() {
    let contract_name = cn("sub.example.com");
    let blob_contract_names: Vec<ContractName> = vec![];
    assert!(!has_item_for_all_parents(&blob_contract_names, &contract_name));
}

#[test]
fn test_tx_has_blobs_for_all_parents_single_level() {
    let contract_name = cn("com");
    let blob_contract_names = vec![cn("com")];
    assert!(has_item_for_all_parents(&blob_contract_names, &contract_name));
}

#[test]
fn test_tx_has_blobs_for_all_parents_multiple_levels() {
    let contract_name = cn("sub.sub.example.com");
    let blob_contract_names = vec![cn("com"), cn("example.com"), cn("sub.example.com")];
    assert!(has_item_for_all_parents(&blob_contract_names, &contract_name));
}

#[test]
fn each_refusal_has_its_reason() {
    assert_eq!(validate_contract_name_registration(&cn(""), &cn("a")), Err(ContractNameError::EmptyOwner));
    assert_eq!(validate_contract_name_registration(&cn("hyle"), &cn("hyle")), Err(ContractNameError::CannotUpdateHyle));
    assert_eq!(validate_contract_name_registration(&cn("example"), &cn("another.tld")), Err(ContractNameError::NotASubdomain));
    assert_eq!(validate_contract_name_registration(&cn("example"), &cn("sub..example")), Err(ContractNameError::EmptySubdomain));
    assert_eq!(validate_contract_name_registration(&cn("example"), &cn("éexample")), Err(ContractNameError::NoSeparator));
    assert_eq!(validate_state_digest_size(&StateDigest(vec![0; 10 * 1024 * 1024 + 1])), Err(StateDigestError::TooLong));
}

#[test]
fn missing_middle_parent_fails() {
    let names = vec![cn("com"), cn("sub.example.com")];
    assert!(!has_item_for_all_parents(&names, &cn("sub.sub.example.com")));
}

#[test]
fn owner_must_follow_a_dot() {
    assert_eq!(validate_contract_name_registration(&cn("example"), &cn("subxexample")), Err(ContractNameError::NoSeparator));
    assert_eq!(validate_contract_name_registration(&cn("a"), &cn("xxa")), Err(ContractNameError::NoSeparator));
    assert!(validate_contract_name_registration(&cn("a"), &cn("x.a")).is_ok());
}
