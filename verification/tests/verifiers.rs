use hyle::model::verifiers::NativeVerifiers;
use hyle::model::{ProgramId, Verifier};

#[test]
fn native_verifiers_by_name() {
    assert_eq!(NativeVerifiers::try_from_verifier(&Verifier("blst".to_string())), Ok(NativeVerifiers::Blst));
    assert_eq!(NativeVerifiers::try_from_verifier(&Verifier("sha3_256".to_string())), Ok(NativeVerifiers::Sha3_256));
    assert_eq!(
        NativeVerifiers::try_from_verifier(&Verifier("hmac_sha256".to_string())),
        Ok(NativeVerifiers::HmacSha256)
    );
    assert_eq!(
        NativeVerifiers::try_from_verifier(&Verifier("risc0".to_string())),
        Err("Unknown native verifier: risc0".to_string())
    );
}

#[test]
fn program_ids_are_the_names() {
    assert_eq!(NativeVerifiers::Blst.program_id(), ProgramId(b"blst".to_vec()));
    assert_eq!(NativeVerifiers::Sha3_256.program_id(), ProgramId(b"sha3_256".to_vec()));
    assert_eq!(NativeVerifiers::HmacSha256.program_id(), ProgramId(b"hmac_sha256".to_vec()));
}
