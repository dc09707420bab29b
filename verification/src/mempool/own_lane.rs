//! Which data proposal of our own lane to send next, and to whom.
//!
//! The pending proposals of the lane, with the signatures each has
//! gathered, are handed in; the decision is what to send: the first pending
//! proposal that only we have signed goes to every validator (when there
//! are others), and otherwise the first one that some bonded validator has
//! not signed goes to those validators only.

use crate::model::mempool::DataProposalHash;
use crate::model::{copy_bytes, copy_string, ValidatorPublicKey};
use crate::node_state::settlement::bytes_equal;
use vstd::prelude::*;

verus! {

/// A data proposal of our lane that no cut holds yet.
#[derive(Debug)]
pub struct PendingEntry {
    pub dp_hash: DataProposalHash,
    /// The validators whose signatures the proposal has gathered, ours
    /// included.
    pub signers: Vec<ValidatorPublicKey>,
    /// Whether the lane holds the proposal itself.
    pub found: bool,
}

/// What to send.
#[derive(Debug)]
pub enum Dissemination {
    /// The proposal, to every validator.
    Broadcast(DataProposalHash),
    /// The proposal, to these validators only.
    BroadcastOnlyFor(DataProposalHash, Vec<ValidatorPublicKey>),
}

/// What to send, as plain values.
pub ghost enum DisseminationView {
    Broadcast(Seq<char>),
    BroadcastOnlyFor(Seq<char>, Seq<Seq<u8>>),
}

/// Why nothing can be sent: the lane lacks a pending proposal.
#[derive(Debug)]
pub enum DisseminateError {
    MissingDataProposal(DataProposalHash),
}

/// The keys of validators, as plain values.
pub open spec fn keys_view(v: Seq<ValidatorPublicKey>) -> Seq<Seq<u8>> {
    v.map_values(|k: ValidatorPublicKey| k@)
}

/// The bonded validators that have not signed, in order.
pub open spec fn not_signed(bonded: Seq<Seq<u8>>, signers: Seq<Seq<u8>>) -> Seq<Seq<u8>> {
    bonded.filter(|k: Seq<u8>| !signers.contains(k))
}

/// Some validator other than us takes part: we are not bonded, or at least
/// two validators are.
pub open spec fn others_exist(own: Seq<u8>, bonded: Seq<Seq<u8>>) -> bool {
    !bonded.contains(own) || bonded.len() >= 2
}

/// What to send for the pending proposals `es`, in order, when only the
/// proposal `only` (if any) is to be sent; an error names a pending
/// proposal that the lane lacks.
pub open spec fn spec_disseminate(
    es: Seq<PendingEntry>,
    only: Option<Seq<char>>,
    own: Seq<u8>,
    bonded: Seq<Seq<u8>>,
) -> Result<Option<DisseminationView>, Seq<char>>
    decreases es.len(),
{
    if es.len() == 0 {
        Ok(None)
    } else {
        let e = es[0];
        let rest = spec_disseminate(es.drop_first(), only, own, bonded);
        if only matches Some(h) && h != e.dp_hash@ {
            rest
        } else if !e.found {
            Err(e.dp_hash@)
        } else if e.signers.len() == 1 && others_exist(own, bonded) {
            Ok(Some(DisseminationView::Broadcast(e.dp_hash@)))
        } else if not_signed(bonded, keys_view(e.signers@)).len() == 0 {
            rest
        } else {
            Ok(Some(DisseminationView::BroadcastOnlyFor(e.dp_hash@, not_signed(bonded, keys_view(e.signers@)))))
        }
    }
}

/// The outcome of a dissemination, as plain values.
pub open spec fn dissemination_view(r: Result<Option<Dissemination>, DisseminateError>) -> Result<Option<DisseminationView>, Seq<char>> {
    match r {
        Ok(None) => Ok(None),
        Ok(Some(Dissemination::Broadcast(h))) => Ok(Some(DisseminationView::Broadcast(h@))),
        Ok(Some(Dissemination::BroadcastOnlyFor(h, to))) => Ok(Some(DisseminationView::BroadcastOnlyFor(h@, keys_view(to@)))),
        Err(DisseminateError::MissingDataProposal(h)) => Err(h@),
    }
}

/// Whether `v` holds the key `k`.
fn holds_key(v: &Vec<ValidatorPublicKey>, k: &ValidatorPublicKey) -> (res: bool)
    ensures
        res == keys_view(v@).contains(k@),
{
    let mut i: usize = 0;
    while i < v.len()
        invariant
            i <= v@.len(),
            forall|j: int| 0 <= j < i ==> v@[j]@ != k@,
        decreases v@.len() - i,
    {
        if bytes_equal(&v[i].0, &k.0) {
            assert(keys_view(v@)[i as int] == k@);
            return true;
        }
        i = i + 1;
    }
    proof {
        if keys_view(v@).contains(k@) {
            let j = choose|j: int| 0 <= j < keys_view(v@).len() && keys_view(v@)[j] == k@;
            assert(v@[j]@ == k@);
        }
    }
    false
}

/// The bonded validators that have not signed, in order.
fn not_signed_by(bonded: &Vec<ValidatorPublicKey>, signers: &Vec<ValidatorPublicKey>) -> (res: Vec<ValidatorPublicKey>)
    ensures
        keys_view(res@) == not_signed(keys_view(bonded@), keys_view(signers@)),
{
    let ghost sv = keys_view(signers@);
    let mut res: Vec<ValidatorPublicKey> = Vec::new();
    let mut i: usize = 0;
    while i < bonded.len()
        invariant
            sv == keys_view(signers@),
            i <= bonded@.len(),
            keys_view(res@) == not_signed(keys_view(bonded@).take(i as int), sv),
        decreases bonded@.len() - i,
    {
        let ghost before = res@;
        let ghost prefix = keys_view(bonded@).take(i as int);
        let ghost next = keys_view(bonded@).take(i + 1);
        proof {
            assert(next.drop_last() =~= prefix);
            assert(next.last() == bonded@[i as int]@);
            reveal(Seq::filter);
        }
        if !holds_key(signers, &bonded[i]) {
            res.push(ValidatorPublicKey(copy_bytes(&bonded[i].0)));
            proof {
                assert(keys_view(res@) =~= keys_view(before).push(bonded@[i as int]@));
            }
        } else {
            proof {
                assert(keys_view(res@) =~= keys_view(before));
            }
        }
        i = i + 1;
    }
    proof {
        assert(keys_view(bonded@).take(bonded@.len() as int) =~= keys_view(bonded@));
    }
    res
}

/// What to send among the pending proposals of our lane `entries`, in
/// order, for our key `own` and the bonded validators `bonded`; when
/// `only_dp_with_hash` is given, the other proposals are passed over.
pub fn disseminate_data_proposals(
    entries: &Vec<PendingEntry>,
    only_dp_with_hash: &Option<DataProposalHash>,
    own: &ValidatorPublicKey,
    bonded: &Vec<ValidatorPublicKey>,
) -> (res: Result<Option<Dissemination>, DisseminateError>)
    ensures
        dissemination_view(res) == spec_disseminate(
            entries@,
            match only_dp_with_hash {
                Some(h) => Some(h@),
                None => None,
            },
            own@,
            keys_view(bonded@),
        ),
{
    let ghost only = match only_dp_with_hash {
        Some(h) => Some(h@),
        None => None,
    };
    let ghost bv = keys_view(bonded@);
    let others = !holds_key(bonded, own) || bonded.len() >= 2;
    proof {
        assert(entries@.skip(0) =~= entries@);
    }
    let mut i: usize = 0;
    while i < entries.len()
        invariant
            i <= entries@.len(),
            only == match only_dp_with_hash {
                Some(h) => Some(h@),
                None => None,
            },
            bv == keys_view(bonded@),
            others == others_exist(own@, bv),
            spec_disseminate(entries@, only, own@, bv) == spec_disseminate(entries@.skip(i as int), only, own@, bv),
        decreases entries@.len() - i,
    {
        let e = &entries[i];
        proof {
            assert(entries@.skip(i as int)[0] == entries@[i as int]);
            assert(entries@.skip(i as int).drop_first() =~= entries@.skip(i + 1));
        }
        let skip = match only_dp_with_hash {
            Some(h) => h.0 != e.dp_hash.0,
            None => false,
        };
        if !skip {
            if !e.found {
                return Err(DisseminateError::MissingDataProposal(DataProposalHash(copy_string(&e.dp_hash.0))));
            }
            if e.signers.len() == 1 && others {
                return Ok(Some(Dissemination::Broadcast(DataProposalHash(copy_string(&e.dp_hash.0)))));
            }
            let only_for = not_signed_by(bonded, &e.signers);
            if only_for.len() > 0 {
                return Ok(Some(Dissemination::BroadcastOnlyFor(DataProposalHash(copy_string(&e.dp_hash.0)), only_for)));
            }
        }
        i = i + 1;
    }
    proof {
        assert(entries@.skip(entries@.len() as int) =~= Seq::<PendingEntry>::empty());
    }
    Ok(None)
}

} // verus!
