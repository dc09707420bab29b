//! The chain's data model: names, hashes, heights and digests.

pub mod consensus;
pub mod contract_registration;
pub mod crypto;
pub mod hashing;
pub mod mempool;
pub mod transaction;
pub mod verifiers;

use vstd::prelude::*;

verus! {

/// Hash of a transaction, as a hex string.
#[derive(Debug, Clone, PartialEq, Eq, Hash, Default)]
pub struct TxHash(pub String);

/// Hash of the blobs of a blob transaction.
#[derive(Debug, Clone, PartialEq, Eq, Hash, Default)]
pub struct BlobsHash(pub String);

/// Name of a contract; subdomains are separated by '.'.
#[derive(Debug, Clone, PartialEq, Eq, Hash, Default)]
pub struct ContractName(pub String);

/// Identity of the sender of a transaction.
#[derive(Debug, Clone, PartialEq, Eq, Hash, Default)]
pub struct Identity(pub String);

/// Name of the verifier a contract's proofs are checked with.
#[derive(Debug, Clone, PartialEq, Eq, Hash, Default)]
pub struct Verifier(pub String);

/// Height of a block.
#[derive(Debug, Clone, Copy, PartialEq, Eq, Structural, Hash, Default)]
pub struct BlockHeight(pub u64);

/// Index of a blob in its transaction.
#[derive(Debug, Clone, Copy, PartialEq, Eq, Structural, Hash, Default)]
pub struct BlobIndex(pub usize);

/// Commitment to a contract's state.
#[derive(Debug, Clone, PartialEq, Eq, Hash, Default)]
pub struct StateDigest(pub Vec<u8>);

/// Identifier of the program a contract runs.
#[derive(Debug, Clone, PartialEq, Eq, Hash, Default)]
pub struct ProgramId(pub Vec<u8>);

/// Public key of a validator.
#[derive(Debug, Clone, PartialEq, Eq, Hash, Default)]
pub struct ValidatorPublicKey(pub Vec<u8>);

impl View for TxHash {
    type V = Seq<char>;

    open spec fn view(&self) -> Seq<char> {
        self.0@
    }
}

impl View for BlobsHash {
    type V = Seq<char>;

    open spec fn view(&self) -> Seq<char> {
        self.0@
    }
}

impl View for ContractName {
    type V = Seq<char>;

    open spec fn view(&self) -> Seq<char> {
        self.0@
    }
}

impl View for Identity {
    type V = Seq<char>;

    open spec fn view(&self) -> Seq<char> {
        self.0@
    }
}

impl View for Verifier {
    type V = Seq<char>;

    open spec fn view(&self) -> Seq<char> {
        self.0@
    }
}

impl View for StateDigest {
    type V = Seq<u8>;

    open spec fn view(&self) -> Seq<u8> {
        self.0@
    }
}

impl View for ProgramId {
    type V = Seq<u8>;

    open spec fn view(&self) -> Seq<u8> {
        self.0@
    }
}

impl View for ValidatorPublicKey {
    type V = Seq<u8>;

    open spec fn view(&self) -> Seq<u8> {
        self.0@
    }
}

impl TxHash {
    pub fn new(s: &str) -> (res: TxHash)
        ensures
            res@ == s@,
    {
        TxHash(s.to_owned())
    }
}

impl BlobsHash {
    pub fn new(s: &str) -> (res: BlobsHash)
        ensures
            res@ == s@,
    {
        BlobsHash(s.to_owned())
    }
}

impl ContractName {
    pub fn new(s: &str) -> (res: ContractName)
        ensures
            res@ == s@,
    {
        ContractName(s.to_owned())
    }
}

impl Identity {
    pub fn new(s: &str) -> (res: Identity)
        ensures
            res@ == s@,
    {
        Identity(s.to_owned())
    }
}

/// Copies a string, keeping its characters.
pub fn copy_string(s: &String) -> (res: String)
    ensures
        res@ == s@,
{
    s.clone()
}

/// Copies a byte vector, keeping its contents.
pub fn copy_bytes(v: &Vec<u8>) -> (res: Vec<u8>)
    ensures
        res@ == v@,
{
    v.clone()
}

impl TxHash {
    pub fn copy(&self) -> (res: TxHash)
        ensures
            res@ == self@,
    {
        TxHash(copy_string(&self.0))
    }
}

impl BlobsHash {
    pub fn copy(&self) -> (res: BlobsHash)
        ensures
            res@ == self@,
    {
        BlobsHash(copy_string(&self.0))
    }
}

impl ContractName {
    pub fn copy(&self) -> (res: ContractName)
        ensures
            res@ == self@,
    {
        ContractName(copy_string(&self.0))
    }
}

impl Identity {
    pub fn copy(&self) -> (res: Identity)
        ensures
            res@ == self@,
    {
        Identity(copy_string(&self.0))
    }
}

impl Verifier {
    pub fn copy(&self) -> (res: Verifier)
        ensures
            res@ == self@,
    {
        Verifier(copy_string(&self.0))
    }
}

impl StateDigest {
    pub fn copy(&self) -> (res: StateDigest)
        ensures
            res@ == self@,
    {
        StateDigest(copy_bytes(&self.0))
    }
}

impl ProgramId {
    pub fn copy(&self) -> (res: ProgramId)
        ensures
            res@ == self@,
    {
        ProgramId(copy_bytes(&self.0))
    }
}

/// Whether the characters of `s` are those of `lit`.
pub fn str_is(s: &str, lit: &str) -> (res: bool)
    ensures
        res == (s@ == lit@),
{
    let n = s.unicode_len();
    if n != lit.unicode_len() {
        return false;
    }
    let mut i: usize = 0;
    while i < n
        invariant
            n == s@.len(),
            n == lit@.len(),
            i <= n,
            forall|j: int| 0 <= j < i ==> s@[j] == lit@[j],
        decreases n - i,
    {
        if s.get_char(i) != lit.get_char(i) {
            return false;
        }
        i = i + 1;
    }
    assert(s@ =~= lit@);
    true
}

} // verus!
