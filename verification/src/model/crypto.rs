//! Signatures.

use crate::model::ValidatorPublicKey;
use vstd::prelude::*;

verus! {

/// A message with its signature.
#[derive(Debug, Clone, PartialEq, Eq)]
pub struct Signed<T, V> {
    pub msg: T,
    pub signature: V,
}

#[derive(Debug, Clone, Default, PartialEq, Eq, Hash)]
pub struct Signature(pub Vec<u8>);

/// A signature and the validator that made it.
#[derive(Debug, Clone, PartialEq, Eq, Hash)]
pub struct ValidatorSignature {
    pub signature: Signature,
    pub validator: ValidatorPublicKey,
}

/// A message signed by a validator.
pub type SignedByValidator<T> = Signed<T, ValidatorSignature>;

/// A signature aggregated over several validators.
#[derive(Debug, Clone, Default, PartialEq, Eq, Hash)]
pub struct AggregateSignature {
    pub signature: Signature,
    pub validators: Vec<ValidatorPublicKey>,
}

} // verus!
