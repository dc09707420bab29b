//! Stored contract registrations, found by the contract's name.

use crate::indexer::model::{decode_contract, enc_contract, encode_contract, Contract, ContractView};
use crate::indexer::blobs::item_values;
use crate::indexer::table::{lists_prefix, lists_range, values_of, IndexerError, Table};
use vstd::utf8::encode_utf8;
use crate::model::transaction::RegisterContractTransaction;
use crate::model::{copy_bytes, copy_string, BlockHeight};
use vstd::prelude::*;

verus! {

/// The record stored for a sequenced contract registration.
pub fn contract_cow(
    block_height: BlockHeight,
    tx_index: usize,
    tx_hash: &String,
    contract: &RegisterContractTransaction,
) -> (res: Contract)
    ensures
        res@ == (ContractView {
            owner: contract.owner@,
            verifier: contract.verifier@,
            program_id: contract.program_id@,
            state_digest: contract.state_digest@,
            contract_name: contract.contract_name@,
            block_height: block_height.0,
            tx_index,
            tx_hash: tx_hash@,
        }),
{
    Contract {
        owner: copy_string(&contract.owner),
        verifier: copy_string(&contract.verifier),
        program_id: copy_bytes(&contract.program_id),
        state_digest: contract.state_digest.copy(),
        contract_name: contract.contract_name.copy(),
        block_height: BlockHeight(block_height.0),
        tx_index,
        tx_hash: copy_string(tx_hash),
    }
}

/// Whether `bytes` are the bytes of a stored contract registration.
pub open spec fn is_stored_contract(bytes: Seq<u8>) -> bool {
    exists|v: ContractView| #[trigger] enc_contract(v) == bytes
}

/// A stored value read back as a contract registration: nothing stays
/// nothing, and bytes that are no stored registration are an error.
pub fn contract_from_store(stored: Option<Vec<u8>>) -> (res: Result<Option<Contract>, IndexerError>)
    ensures
        stored is None ==> res matches Ok(None),
        stored matches Some(bytes) ==> match res {
            Ok(Some(c)) => enc_contract(c@) == bytes@,
            Err(IndexerError::Corrupt) => !is_stored_contract(bytes@),
            _ => false,
        },
        stored matches Some(bytes) ==> forall|v: ContractView| #[trigger] enc_contract(v) == bytes@ ==> (res matches Ok(Some(c)) && c@ == v),
{
    match stored {
        None => Ok(None),
        Some(bytes) => match decode_contract(bytes.as_slice()) {
            Some(c) => Ok(Some(c)),
            None => Err(IndexerError::Corrupt),
        },
    }
}

/// Stored values read back as contract registrations, in order; an error
/// where one of them is no stored registration.
pub fn contracts_from_store(stored: &Vec<Vec<u8>>) -> (res: Result<Vec<Contract>, IndexerError>)
    ensures
        match res {
            Ok(cs) => cs.len() == stored.len() && forall|i: int| 0 <= i < cs.len() ==> enc_contract(#[trigger] cs[i]@) == stored[i]@,
            Err(IndexerError::Corrupt) => exists|i: int| 0 <= i < stored.len() && !is_stored_contract(#[trigger] stored[i]@),
            _ => false,
        },
{
    let mut out: Vec<Contract> = Vec::new();
    let mut i: usize = 0;
    while i < stored.len()
        invariant
            i <= stored.len(),
            out.len() == i,
            forall|j: int| 0 <= j < i ==> enc_contract(#[trigger] out[j]@) == stored[j]@,
        decreases stored.len() - i,
    {
        match decode_contract(stored[i].as_slice()) {
            Some(c) => out.push(c),
            None => {
                assert(!is_stored_contract(stored[i as int]@));
                return Err(IndexerError::Corrupt);
            },
        }
        i = i + 1;
    }
    Ok(out)
}

/// What a read of the key `k` of `c`, the stored registrations, gives
/// back: the registration stored there, nothing where there is none, an
/// error where the bytes are no stored registration (or sled failed).
pub open spec fn reads_contract(c: Map<Seq<u8>, Seq<u8>>, k: Seq<u8>, res: Result<Option<Contract>, IndexerError>) -> bool {
    &&& res matches Ok(Some(x)) ==> c.contains_key(k) && enc_contract(x@) == c[k]
    &&& res matches Ok(None) ==> !c.contains_key(k)
    &&& res matches Err(IndexerError::Corrupt) ==> c.contains_key(k) && !is_stored_contract(c[k])
    &&& forall|v: ContractView| c.contains_key(k) && #[trigger] enc_contract(v) == c[k] ==> match res {
        Ok(found) => found matches Some(x) && x@ == v,
        Err(e) => e is Storage,
    }
}

/// A contract read back from where it was stored is the contract stored there,
/// unless sled fails.
pub proof fn lemma_get_after_put_contract(c: Map<Seq<u8>, Seq<u8>>, k: Seq<u8>, v: ContractView, res: Result<Option<Contract>, IndexerError>)
    requires
        reads_contract(c.insert(k, enc_contract(v)), k, res),
    ensures
        match res {
            Ok(found) => found matches Some(x) && x@ == v,
            Err(e) => e is Storage,
        },
{
    assert(c.insert(k, enc_contract(v)).contains_key(k));
}

/// `cs` are the registrations stored as `vals`, in order.
pub open spec fn decodes_contracts(vals: Seq<Seq<u8>>, cs: Seq<Contract>) -> bool {
    cs.len() == vals.len() && forall|i: int| 0 <= i < cs.len() ==> enc_contract(#[trigger] cs[i]@) == vals[i]
}

/// The contract registrations of the indexer.
#[derive(Debug)]
pub struct Contracts {
    db: Table,
}

impl Contracts {
    /// The stored registrations' bytes, by the bytes of the contract's name.
    pub closed spec fn stored(&self) -> Map<Seq<u8>, Seq<u8>> {
        self.db.ord_contents()
    }

    /// Opens the contracts' tree.
    pub(crate) fn new(db: sled::Db) -> (res: Result<Contracts, IndexerError>)
        ensures
            res matches Err(e) ==> e is Storage,
    {
        let table = Table::new(db, "contracts_ord", None)?;
        Ok(Contracts { db: table })
    }

    /// Number of stored registrations: one per contract name, counted by a scan of the tree.
    pub fn len(&self) -> (res: Result<usize, IndexerError>)
        ensures
            res matches Ok(n) ==> self.stored().dom().finite() && n == self.stored().dom().len(),
            res matches Err(e) ==> e is Storage,
    {
        self.db.len()
    }

    /// Stores the registration `data`, of the transaction `tx_hash`
    /// sequenced at `block_height`, `tx_index`: its record
    /// (`contract_cow`) encoded (`encode_contract`) under the bytes of the
    /// contract's name.
    pub fn put(&mut self, block_height: BlockHeight, tx_index: usize, tx_hash: &String, data: &RegisterContractTransaction) -> (res: Result<(), IndexerError>)
        ensures
            res is Ok ==> final(self).stored() == old(self).stored().insert(
                encode_utf8(data.contract_name@),
                enc_contract(ContractView {
                    owner: data.owner@,
                    verifier: data.verifier@,
                    program_id: data.program_id@,
                    state_digest: data.state_digest@,
                    contract_name: data.contract_name@,
                    block_height: block_height.0,
                    tx_index,
                    tx_hash: tx_hash@,
                }),
            ),
            res matches Err(e) ==> e is Storage,
    {
        let record = contract_cow(block_height, tx_index, tx_hash, data);
        let value = encode_contract(&record);
        self.db.put(data.contract_name.0.as_str().as_bytes(), None, value.as_slice())
    }

    /// The registration of the contract `name`.
    pub fn get(&mut self, name: &str) -> (res: Result<Option<Contract>, IndexerError>)
        ensures
            *final(self) == *old(self),
            reads_contract(old(self).stored(), encode_utf8(name@), res),
    {
        let stored = self.db.ord_get(name.as_bytes())?;
        contract_from_store(stored)
    }

    /// The registrations whose names fall from "" (included) to "\x7f"
    /// (excluded), in name order.
    pub fn all(&mut self) -> (res: Result<Vec<Contract>, IndexerError>)
        ensures
            *final(self) == *old(self),
            res matches Ok(cs) ==> exists|items: Seq<(Vec<u8>, Vec<u8>)>|
                #[trigger] lists_range(old(self).stored(), items, Seq::<u8>::empty(), seq![127u8])
                && decodes_contracts(item_values(items), cs@),
            res matches Err(IndexerError::Corrupt) ==> exists|items: Seq<(Vec<u8>, Vec<u8>)>|
                #[trigger] lists_range(old(self).stored(), items, Seq::<u8>::empty(), seq![127u8])
                && exists|i: int| 0 <= i < items.len() && !is_stored_contract(#[trigger] items[i].1@),
    {
        let lo: Vec<u8> = Vec::new();
        let hi: Vec<u8> = vec![127u8];
        proof {
            assert(lo@ =~= Seq::<u8>::empty());
            assert(hi@ =~= seq![127u8]);
        }
        let pairs = self.db.ord_range(lo.as_slice(), hi.as_slice())?;
        let values = values_of(&pairs);
        let r = contracts_from_store(&values);
        proof {
            assert(lists_range(self.stored(), pairs@, lo@, hi@));
            if r is Ok {
                let xs = r->Ok_0;
                assert forall|i: int| 0 <= i < xs.len() implies enc_contract(#[trigger] xs[i]@) == item_values(pairs@)[i] by {
                    assert(values[i]@ == pairs@[i].1@);
                }
                assert(decodes_contracts(item_values(pairs@), xs@));
            }
            if r is Err {
                let i = choose|i: int| 0 <= i < values.len() && !is_stored_contract(#[trigger] values[i]@);
                assert(!is_stored_contract(pairs@[i].1@));
                assert(exists|j: int| 0 <= j < pairs@.len() && !is_stored_contract(#[trigger] pairs@[j].1@));
            }
        }
        r
    }

    /// The registrations whose names start with `prefix`, in name order.
    pub fn scan_prefix(&mut self, prefix: &str) -> (res: Result<Vec<Contract>, IndexerError>)
        ensures
            *final(self) == *old(self),
            res matches Ok(cs) ==> exists|items: Seq<(Vec<u8>, Vec<u8>)>|
                #[trigger] lists_prefix(old(self).stored(), items, encode_utf8(prefix@))
                && decodes_contracts(item_values(items), cs@),
            res matches Err(IndexerError::Corrupt) ==> exists|items: Seq<(Vec<u8>, Vec<u8>)>|
                #[trigger] lists_prefix(old(self).stored(), items, encode_utf8(prefix@))
                && exists|i: int| 0 <= i < items.len() && !is_stored_contract(#[trigger] items[i].1@),
    {
        let pairs = self.db.ord_scan_prefix(prefix.as_bytes())?;
        let values = values_of(&pairs);
        let r = contracts_from_store(&values);
        proof {
            assert(lists_prefix(self.stored(), pairs@, encode_utf8(prefix@)));
            if r is Ok {
                let xs = r->Ok_0;
                assert forall|i: int| 0 <= i < xs.len() implies enc_contract(#[trigger] xs[i]@) == item_values(pairs@)[i] by {
                    assert(values[i]@ == pairs@[i].1@);
                }
                assert(decodes_contracts(item_values(pairs@), xs@));
            }
            if r is Err {
                let i = choose|i: int| 0 <= i < values.len() && !is_stored_contract(#[trigger] values[i]@);
                assert(!is_stored_contract(pairs@[i].1@));
                assert(exists|j: int| 0 <= j < pairs@.len() && !is_stored_contract(#[trigger] pairs@[j].1@));
            }
        }
        r
    }
}

} // verus!
