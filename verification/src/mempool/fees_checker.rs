//! The fees of a blob transaction: each fee blob is run by its contract,
//! `hyfi` or `hydentity`, which names the identity that pays; all of them
//! must name the same identity, the one the fees name.
//!
//! The contracts themselves are not run here: the caller hands in what
//! running the contract of each fee blob gave, in blob order.

use crate::model::transaction::{Blob, Fees, Transaction, TransactionData};
use crate::model::{str_is, ContractName, Identity};
use vstd::prelude::*;

verus! {

/// Why running the contract of a fee blob gave no identity.
#[derive(Debug, Clone, Copy, PartialEq, Eq, Structural)]
pub enum FeeRunError {
    /// The blob's data is not a call of the contract.
    Decode,
    /// The contract refused the call.
    Failed,
}

/// Why the fees of a transaction are refused.
#[derive(Debug)]
pub enum FeesError {
    /// A fee blob is for a contract that cannot take fees.
    InvalidContractName(ContractName),
    /// Running the contract of a fee blob failed.
    Run(FeeRunError),
    /// The fee blobs do not all name the same identity.
    IdentitiesDiffer,
    /// The fee blobs name another identity than the fees.
    IdentityMismatch,
}

/// A refusal, with names as their characters.
pub ghost enum FeesErrorView {
    InvalidContractName(Seq<char>),
    Run(FeeRunError),
    IdentitiesDiffer,
    IdentityMismatch,
}

impl View for FeesError {
    type V = FeesErrorView;

    open spec fn view(&self) -> FeesErrorView {
        match self {
            FeesError::InvalidContractName(n) => FeesErrorView::InvalidContractName(n@),
            FeesError::Run(e) => FeesErrorView::Run(*e),
            FeesError::IdentitiesDiffer => FeesErrorView::IdentitiesDiffer,
            FeesError::IdentityMismatch => FeesErrorView::IdentityMismatch,
        }
    }
}

pub open spec fn hyfi_chars() -> Seq<char> {
    seq!['h', 'y', 'f', 'i']
}

pub open spec fn hydentity_chars() -> Seq<char> {
    seq!['h', 'y', 'd', 'e', 'n', 't', 'i', 't', 'y']
}

/// The contracts that can take fees.
pub open spec fn is_fee_contract(name: Seq<char>) -> bool {
    name == hyfi_chars() || name == hydentity_chars()
}

/// The identity one fee blob names, given what running its contract gave.
pub open spec fn spec_check_contract(blob: Blob, run: Result<Identity, FeeRunError>) -> Result<Seq<char>, FeesErrorView> {
    if !is_fee_contract(blob.contract_name@) {
        Err(FeesErrorView::InvalidContractName(blob.contract_name@))
    } else {
        match run {
            Ok(id) => Ok(id@),
            Err(e) => Err(FeesErrorView::Run(e)),
        }
    }
}

/// The identities the first `n` fee blobs name, or the refusal of the
/// first of them that names none.
pub open spec fn spec_fee_ids(blobs: Seq<Blob>, runs: Seq<Result<Identity, FeeRunError>>, n: int) -> Result<Seq<Seq<char>>, FeesErrorView>
    decreases n,
{
    if n <= 0 {
        Ok(Seq::empty())
    } else {
        match spec_fee_ids(blobs, runs, n - 1) {
            Err(e) => Err(e),
            Ok(ids) => match spec_check_contract(blobs[n - 1], runs[n - 1]) {
                Err(e) => Err(e),
                Ok(id) => Ok(ids.push(id)),
            },
        }
    }
}

/// The characters of each identity.
pub open spec fn ids_view(ids: Seq<Identity>) -> Seq<Seq<char>> {
    ids.map_values(|id: Identity| id@)
}

/// Each identity equals the next one.
pub open spec fn all_same(ids: Seq<Seq<char>>) -> bool {
    forall|i: int| 0 <= i < ids.len() - 1 ==> #[trigger] ids[i] == ids[i + 1]
}

/// The verdict on the fees of a blob transaction.
pub open spec fn spec_check_blob_fees(fees: Fees, runs: Seq<Result<Identity, FeeRunError>>) -> Result<(), FeesErrorView> {
    match spec_fee_ids(fees.blobs@, runs, fees.blobs@.len() as int) {
        Err(e) => Err(e),
        Ok(ids) => if !all_same(ids) {
            Err(FeesErrorView::IdentitiesDiffer)
        } else if fees.identity@ != ids[0] {
            Err(FeesErrorView::IdentityMismatch)
        } else {
            Ok(())
        },
    }
}

/// The verdict as a value of `Result` over views.
pub open spec fn verdict_view(res: Result<(), FeesError>) -> Result<(), FeesErrorView> {
    match res {
        Ok(()) => Ok(()),
        Err(e) => Err(e@),
    }
}

/// The identity one fee blob names, given what running its contract gave.
pub fn check_contract(blob: &Blob, run: &Result<Identity, FeeRunError>) -> (res: Result<Identity, FeesError>)
    ensures
        match res {
            Ok(id) => spec_check_contract(*blob, *run) == Ok::<Seq<char>, FeesErrorView>(id@),
            Err(e) => spec_check_contract(*blob, *run) == Err::<Seq<char>, FeesErrorView>(e@),
        },
{
    let hyfi = "hyfi";
    let hydentity = "hydentity";
    proof {
        reveal_strlit("hyfi");
        reveal_strlit("hydentity");
        assert(hyfi@ =~= hyfi_chars());
        assert(hydentity@ =~= hydentity_chars());
    }
    if !str_is(blob.contract_name.0.as_str(), hyfi) && !str_is(blob.contract_name.0.as_str(), hydentity) {
        return Err(FeesError::InvalidContractName(blob.contract_name.copy()));
    }
    match run {
        Ok(id) => Ok(id.copy()),
        Err(e) => Err(FeesError::Run(*e)),
    }
}

/// Checks the fees of a blob transaction.
pub fn check_blob_fees(fees: &Fees, runs: &Vec<Result<Identity, FeeRunError>>) -> (res: Result<(), FeesError>)
    requires
        fees.blobs@.len() > 0,
        runs@.len() == fees.blobs@.len(),
    ensures
        verdict_view(res) == spec_check_blob_fees(*fees, runs@),
{
    let mut ids: Vec<Identity> = Vec::new();
    let mut i: usize = 0;
    assert(ids_view(ids@) =~= Seq::<Seq<char>>::empty());
    while i < fees.blobs.len()
        invariant
            i <= fees.blobs@.len(),
            ids@.len() == i,
            runs@.len() == fees.blobs@.len(),
            spec_fee_ids(fees.blobs@, runs@, i as int) == Ok::<Seq<Seq<char>>, FeesErrorView>(ids_view(ids@)),
        decreases fees.blobs@.len() - i,
    {
        match check_contract(&fees.blobs[i], &runs[i]) {
            Ok(id) => {
                let ghost before = ids@;
                ids.push(id);
                proof {
                    assert(ids_view(ids@) =~= ids_view(before).push(ids@[i as int]@));
                }
            },
            Err(e) => {
                proof {
                    assert(spec_fee_ids(fees.blobs@, runs@, i + 1) == Err::<Seq<Seq<char>>, FeesErrorView>(e@));
                    lemma_fee_ids_err_stays(fees.blobs@, runs@, i + 1, fees.blobs@.len() as int);
                }
                return Err(e);
            },
        }
        i = i + 1;
    }
    let ghost view_ids = ids_view(ids@);
    let mut k: usize = 0;
    let n = ids.len();
    while k + 1 < n
        invariant
            n == ids@.len(),
            view_ids == ids_view(ids@),
            spec_fee_ids(fees.blobs@, runs@, fees.blobs@.len() as int) == Ok::<Seq<Seq<char>>, FeesErrorView>(view_ids),
            ids@.len() == fees.blobs@.len(),
            fees.blobs@.len() > 0,
            k < ids@.len(),
            forall|j: int| 0 <= j < k ==> #[trigger] view_ids[j] == view_ids[j + 1],
        decreases ids@.len() - k,
    {
        if ids[k].0 != ids[k + 1].0 {
            proof {
                assert(view_ids[k as int] != view_ids[k + 1]);
                assert(!all_same(view_ids));
            }
            return Err(FeesError::IdentitiesDiffer);
        }
        k = k + 1;
    }
    if fees.identity.0 != ids[0].0 {
        return Err(FeesError::IdentityMismatch);
    }
    Ok(())
}

/// Once the first `n` fee blobs are refused, so are any more of them.
proof fn lemma_fee_ids_err_stays(blobs: Seq<Blob>, runs: Seq<Result<Identity, FeeRunError>>, n: int, m: int)
    requires
        spec_fee_ids(blobs, runs, n) is Err,
        n <= m,
    ensures
        spec_fee_ids(blobs, runs, m) == spec_fee_ids(blobs, runs, n),
    decreases m - n,
{
    if n < m {
        lemma_fee_ids_err_stays(blobs, runs, n, m - 1);
    }
}

/// Checks the fees of a transaction: only blob transactions pay fees.
pub fn check_fees(tx: &Transaction, runs: &Vec<Result<Identity, FeeRunError>>) -> (res: Result<(), FeesError>)
    requires
        tx.transaction_data matches TransactionData::Blob(b) ==> b.fees.blobs@.len() > 0 && runs@.len() == b.fees.blobs@.len(),
    ensures
        verdict_view(res) == match tx.transaction_data {
            TransactionData::Blob(b) => spec_check_blob_fees(b.fees, runs@),
            _ => Ok(()),
        },
{
    match &tx.transaction_data {
        TransactionData::Blob(blob_tx) => check_blob_fees(&blob_tx.fees, runs),
        _ => Ok(()),
    }
}

/// The first `n` fee blobs name identities exactly when each of them is for
/// a fee contract whose run named an identity; those are the identities.
proof fn lemma_fee_ids_ok(blobs: Seq<Blob>, runs: Seq<Result<Identity, FeeRunError>>, n: int)
    requires
        0 <= n <= blobs.len(),
        n <= runs.len(),
    ensures
        spec_fee_ids(blobs, runs, n) is Ok <==> forall|i: int| 0 <= i < n ==> #[trigger] is_fee_contract(blobs[i].contract_name@) && runs[i] is Ok,
        spec_fee_ids(blobs, runs, n) matches Ok(ids) ==> ids.len() == n && forall|i: int| 0 <= i < n ==> #[trigger] ids[i] == runs[i]->Ok_0@,
    decreases n,
{
    if n > 0 {
        lemma_fee_ids_ok(blobs, runs, n - 1);
        if spec_fee_ids(blobs, runs, n - 1) is Ok && !(is_fee_contract(blobs[n - 1].contract_name@) && runs[n - 1] is Ok) {
            assert(!(is_fee_contract(blobs[n - 1].contract_name@) && runs[n - 1] is Ok));
        }
        if !(spec_fee_ids(blobs, runs, n - 1) is Ok) {
            let i = choose|i: int| 0 <= i < n - 1 && !(#[trigger] is_fee_contract(blobs[i].contract_name@) && runs[i] is Ok);
            assert(!(is_fee_contract(blobs[i].contract_name@) && runs[i] is Ok));
        }
    }
}

/// In identities that are all the same, each is the first.
proof fn lemma_all_same_first(ids: Seq<Seq<char>>, i: int)
    requires
        all_same(ids),
        0 <= i < ids.len(),
    ensures
        ids[i] == ids[0],
    decreases i,
{
    if i > 0 {
        lemma_all_same_first(ids, i - 1);
        assert(ids[i - 1] == ids[i]);
    }
}

/// Fees are accepted exactly when every fee blob is for `hyfi` or
/// `hydentity` and its run named the identity of the fees.
pub proof fn lemma_fees_accepted_iff(fees: Fees, runs: Seq<Result<Identity, FeeRunError>>)
    requires
        fees.blobs@.len() > 0,
        runs.len() == fees.blobs@.len(),
    ensures
        spec_check_blob_fees(fees, runs) is Ok <==> forall|i: int| 0 <= i < fees.blobs@.len() ==> {
            &&& #[trigger] is_fee_contract(fees.blobs@[i].contract_name@)
            &&& runs[i] is Ok
            &&& runs[i]->Ok_0@ == fees.identity@
        },
{
    let blobs = fees.blobs@;
    let n = blobs.len() as int;
    lemma_fee_ids_ok(blobs, runs, n);
    if spec_check_blob_fees(fees, runs) is Ok {
        let ids = spec_fee_ids(blobs, runs, n)->Ok_0;
        assert forall|i: int| 0 <= i < n implies #[trigger] ids[i] == ids[0] by {
            lemma_all_same_first(ids, i);
        }
        assert forall|i: int| 0 <= i < n implies {
            &&& #[trigger] is_fee_contract(blobs[i].contract_name@)
            &&& runs[i] is Ok
            &&& runs[i]->Ok_0@ == fees.identity@
        } by {
            assert(ids[i] == runs[i]->Ok_0@);
        }
    } else {
        if forall|i: int| 0 <= i < n ==> {
            &&& #[trigger] is_fee_contract(blobs[i].contract_name@)
            &&& runs[i] is Ok
            &&& runs[i]->Ok_0@ == fees.identity@
        } {
            assert forall|i: int| 0 <= i < n implies #[trigger] is_fee_contract(blobs[i].contract_name@) && runs[i] is Ok by {
                assert(is_fee_contract(blobs[i].contract_name@));
            }
            let ids = spec_fee_ids(blobs, runs, n)->Ok_0;
            assert forall|i: int| 0 <= i < ids.len() - 1 implies #[trigger] ids[i] == ids[i + 1] by {
                assert(is_fee_contract(blobs[i].contract_name@));
                assert(is_fee_contract(blobs[i + 1].contract_name@));
                assert(ids[i] == runs[i]->Ok_0@);
                assert(ids[i + 1] == runs[i + 1]->Ok_0@);
            }
            assert(is_fee_contract(blobs[0].contract_name@));
            assert(ids[0] == runs[0]->Ok_0@);
        }
    }
}

} // verus!
