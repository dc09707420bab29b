//! Settlement of blob transactions: which proofs settle a transaction, and
//! how the contracts change when it settles.

use crate::model::contract_registration::{
    spec_validate_name, validate_contract_name_registration, validate_state_digest_size,
    ContractNameError, MAX_STATE_DIGEST_SIZE,
};
use crate::model::{BlobIndex, BlockHeight, ContractName, Identity, ProgramId, StateDigest, TxHash, Verifier};
use crate::model::transaction::Blob;
use crate::str_map::StrMap;
use vstd::prelude::*;
use vstd::string::StrSliceExecFns;

verus! {

/// After how many blocks an unsettled transaction of a contract times out.
#[derive(Debug, Clone, Copy, PartialEq, Eq, Structural)]
pub enum TimeoutWindow {
    NoTimeout,
    Timeout(BlockHeight),
}

/// A registered contract.
#[derive(Debug, Clone)]
pub struct Contract {
    pub name: ContractName,
    pub program_id: ProgramId,
    pub state: StateDigest,
    pub verifier: Verifier,
    pub timeout_window: TimeoutWindow,
}

/// A contract, as plain values.
pub ghost struct ContractView {
    pub name: Seq<char>,
    pub program_id: Seq<u8>,
    pub state: Seq<u8>,
    pub verifier: Seq<char>,
    pub timeout_window: TimeoutWindow,
}

impl View for Contract {
    type V = ContractView;

    open spec fn view(&self) -> ContractView {
        ContractView {
            name: self.name@,
            program_id: self.program_id@,
            state: self.state@,
            verifier: self.verifier@,
            timeout_window: self.timeout_window,
        }
    }
}

impl Contract {
    pub fn copy(&self) -> (res: Contract)
        ensures
            res@ == self@,
    {
        Contract {
            name: self.name.copy(),
            program_id: self.program_id.copy(),
            state: self.state.copy(),
            verifier: self.verifier.copy(),
            timeout_window: self.timeout_window,
        }
    }
}

/// The registration of a contract requested by a proof.
#[derive(Debug, Clone)]
pub struct RegisterContractEffect {
    pub verifier: Verifier,
    pub program_id: ProgramId,
    pub state_commitment: StateDigest,
    pub contract_name: ContractName,
    pub timeout_window: Option<TimeoutWindow>,
}

/// A change of the set of contracts requested by a proof.
#[derive(Debug, Clone)]
pub enum OnchainEffect {
    RegisterContract(RegisterContractEffect),
    DeleteContract(ContractName),
}

/// Where and when a blob transaction was sequenced.
#[derive(Debug, Clone, PartialEq, Eq)]
pub struct TxContext {
    pub lane_id: String,
    pub block_hash: String,
    pub block_height: BlockHeight,
    pub timestamp: u128,
    pub chain_id: u128,
}

/// What a proof states about one blob.
#[derive(Debug, Clone)]
pub struct HyleOutput {
    pub version: u32,
    pub initial_state: StateDigest,
    pub next_state: StateDigest,
    pub identity: Identity,
    pub index: BlobIndex,
    pub success: bool,
    pub tx_hash: TxHash,
    pub state_reads: Vec<(ContractName, StateDigest)>,
    pub onchain_effects: Vec<OnchainEffect>,
    pub program_outputs: Vec<u8>,
    /// The context of the transaction the proof was made for, if it says.
    pub tx_ctx: Option<TxContext>,
    /// The blobs of that transaction the proof saw, with their indices.
    pub blobs: Vec<(BlobIndex, Blob)>,
}

/// A change of one contract, recorded while settling a transaction.
#[derive(Debug, Clone)]
pub enum SideEffect {
    Register(Contract),
    UpdateState(Contract),
    Delete(ContractName),
}

/// A side effect, as plain values.
pub ghost enum SideEffectView {
    Register(ContractView),
    UpdateState(ContractView),
    Delete(Seq<char>),
}

impl View for SideEffect {
    type V = SideEffectView;

    open spec fn view(&self) -> SideEffectView {
        match self {
            SideEffect::Register(c) => SideEffectView::Register(c@),
            SideEffect::UpdateState(c) => SideEffectView::UpdateState(c@),
            SideEffect::Delete(n) => SideEffectView::Delete(n@),
        }
    }
}

/// `me` followed by `other`: an update of a registered contract keeps the
/// registration with the new state, an update after a deletion is dropped,
/// and otherwise the later effect wins.
pub open spec fn spec_apply(me: SideEffectView, other: SideEffectView) -> SideEffectView {
    match (me, other) {
        (SideEffectView::Register(reg), SideEffectView::UpdateState(c)) => SideEffectView::Register(
            ContractView { state: c.state, ..reg },
        ),
        (SideEffectView::Delete(n), SideEffectView::UpdateState(_)) => SideEffectView::Delete(n),
        (_, o) => o,
    }
}

impl SideEffect {
    pub fn copy(&self) -> (res: SideEffect)
        ensures
            res@ == self@,
    {
        match self {
            SideEffect::Register(c) => SideEffect::Register(c.copy()),
            SideEffect::UpdateState(c) => SideEffect::UpdateState(c.copy()),
            SideEffect::Delete(n) => SideEffect::Delete(n.copy()),
        }
    }

    /// Combines this effect with a later one on the same contract.
    pub fn apply(&mut self, other_effect: SideEffect)
        ensures
            final(self)@ == spec_apply(old(self)@, other_effect@),
    {
        match (&mut *self, other_effect) {
            (SideEffect::Register(reg), SideEffect::UpdateState(contract)) => {
                reg.state = contract.state;
            },
            (SideEffect::Delete(_), SideEffect::UpdateState(_)) => {},
            (_, other) => {
                *self = other;
            },
        }
    }
}

/// Contracts by name, as plain values.
pub open spec fn contracts_view(m: Map<Seq<char>, Contract>) -> Map<Seq<char>, ContractView> {
    m.map_values(|c: Contract| c@)
}

/// Side effects by contract name, as plain values.
pub open spec fn changes_view(m: Map<Seq<char>, SideEffect>) -> Map<Seq<char>, SideEffectView> {
    m.map_values(|e: SideEffect| e@)
}

/// The contract called `name` as seen during settlement: a registration or
/// state update recorded in `changes` first, otherwise the stored contract.
pub open spec fn spec_get_contract(
    contracts: Map<Seq<char>, ContractView>,
    changes: Map<Seq<char>, SideEffectView>,
    name: Seq<char>,
) -> Option<ContractView> {
    if changes.contains_key(name) && changes[name] is Register {
        Some(changes[name]->Register_0)
    } else if changes.contains_key(name) && changes[name] is UpdateState {
        Some(changes[name]->UpdateState_0)
    } else if contracts.contains_key(name) {
        Some(contracts[name])
    } else {
        None
    }
}

/// Looks a contract up in the recorded changes, then in the stored contracts.
pub fn get_contract<'a>(
    contracts: &'a StrMap<Contract>,
    contract_changes: &'a StrMap<SideEffect>,
    contract_name: &ContractName,
) -> (res: Option<&'a Contract>)
    requires
        contracts.wf(),
        contract_changes.wf(),
    ensures
        match res {
            Some(c) => spec_get_contract(contracts_view(contracts.view()), changes_view(contract_changes.view()), contract_name@) == Some(c@),
            None => spec_get_contract(contracts_view(contracts.view()), changes_view(contract_changes.view()), contract_name@) is None,
        },
{
    match contract_changes.get(&contract_name.0) {
        Some(SideEffect::Register(c)) => return Some(c),
        Some(SideEffect::UpdateState(c)) => return Some(c),
        _ => {},
    }
    contracts.get(&contract_name.0)
}

/// The timeout window of a transaction with blobs for `names`: folding over
/// the blobs whose contract is known, the first window is taken as is, two
/// timeouts give the smaller one, and any other pair gives no timeout.
pub open spec fn spec_timeout_window(contracts: Map<Seq<char>, ContractView>, names: Seq<Seq<char>>) -> TimeoutWindow
    decreases names.len(),
{
    if names.len() == 0 {
        TimeoutWindow::NoTimeout
    } else {
        let acc = spec_timeout_window(contracts, names.drop_last());
        if contracts.contains_key(names.last()) {
            combine_windows(acc, contracts[names.last()].timeout_window)
        } else {
            acc
        }
    }
}

pub open spec fn combine_windows(acc: TimeoutWindow, w: TimeoutWindow) -> TimeoutWindow {
    match (acc, w) {
        (TimeoutWindow::NoTimeout, w) => w,
        (TimeoutWindow::Timeout(a), TimeoutWindow::Timeout(b)) => TimeoutWindow::Timeout(
            if a.0 <= b.0 { a } else { b },
        ),
        _ => TimeoutWindow::NoTimeout,
    }
}

/// The contract of each blob.
pub open spec fn blob_names(blobs: Seq<Blob>) -> Seq<Seq<char>> {
    blobs.map_values(|b: Blob| b.contract_name@)
}

/// The timeout window of a transaction with the given blobs.
pub fn get_tx_timeout_window(contracts: &StrMap<Contract>, blobs: &Vec<Blob>) -> (res: TimeoutWindow)
    requires
        contracts.wf(),
    ensures
        res == spec_timeout_window(contracts_view(contracts.view()), blob_names(blobs@)),
{
    let ghost names = blob_names(blobs@);
    let ghost cv = contracts_view(contracts.view());
    let mut timeout = TimeoutWindow::NoTimeout;
    let mut i: usize = 0;
    while i < blobs.len()
        invariant
            contracts.wf(),
            i <= blobs@.len(),
            names == blob_names(blobs@),
            cv == contracts_view(contracts.view()),
            timeout == spec_timeout_window(cv, names.take(i as int)),
        decreases blobs@.len() - i,
    {
        proof {
            assert(names.take(i + 1).drop_last() =~= names.take(i as int));
            assert(names.take(i + 1).last() == blobs@[i as int].contract_name@);
        }
        if let Some(c) = contracts.get(&blobs[i].contract_name.0) {
            let w = c.timeout_window;
            timeout = match (timeout, w) {
                (TimeoutWindow::NoTimeout, w) => w,
                (TimeoutWindow::Timeout(a), TimeoutWindow::Timeout(b)) => TimeoutWindow::Timeout(
                    if a.0 <= b.0 { a } else { b },
                ),
                _ => TimeoutWindow::NoTimeout,
            };
        }
        i = i + 1;
    }
    proof {
        assert(names.take(blobs@.len() as int) =~= names);
    }
    timeout
}

/// Why a proof cannot be used to settle a blob.
#[derive(Debug, Clone, Copy, PartialEq, Eq)]
pub enum ProofError {
    /// The proven next state is longer than the maximum size.
    StateTooLong,
    /// The proven contract, or a contract whose state it reads, is not known.
    ContractNotFound,
    /// The proof starts from another state than the contract's.
    InitialStateMismatch,
    /// The proof was made by another program than the contract's.
    ProgramIdMismatch,
    /// A state the proof read differs from the contract's state.
    StateReadMismatch,
    /// A contract the proof registers or deletes has a name the proven
    /// contract may not use.
    InvalidContractName(ContractNameError),
    /// A contract the proof registers has a state longer than the maximum size.
    RegisteredStateTooLong,
}

/// The first state read that does not match, scanning in order.
pub open spec fn spec_first_bad_read(
    contracts: Map<Seq<char>, ContractView>,
    changes: Map<Seq<char>, SideEffectView>,
    reads: Seq<(ContractName, StateDigest)>,
) -> Option<ProofError>
    decreases reads.len(),
{
    if reads.len() == 0 {
        None
    } else {
        match spec_first_bad_read(contracts, changes, reads.drop_last()) {
            Some(e) => Some(e),
            None => match spec_get_contract(contracts, changes, reads.last().0@) {
                None => Some(ProofError::ContractNotFound),
                Some(o) => if reads.last().1@ != o.state {
                    Some(ProofError::StateReadMismatch)
                } else {
                    None
                },
            },
        }
    }
}

/// A bad read in a prefix of the reads is the first bad read of them all.
pub proof fn lemma_bad_read_prefix(
    contracts: Map<Seq<char>, ContractView>,
    changes: Map<Seq<char>, SideEffectView>,
    reads: Seq<(ContractName, StateDigest)>,
    k: int,
)
    requires
        0 <= k <= reads.len(),
        spec_first_bad_read(contracts, changes, reads.take(k)) is Some,
    ensures
        spec_first_bad_read(contracts, changes, reads) == spec_first_bad_read(contracts, changes, reads.take(k)),
    decreases reads.len() - k,
{
    if k < reads.len() {
        assert(reads.take(k + 1).drop_last() =~= reads.take(k));
        lemma_bad_read_prefix(contracts, changes, reads, k + 1);
    } else {
        assert(reads.take(k) =~= reads);
    }
}

/// A refused effect in a prefix of the effects refuses them all.
pub proof fn lemma_effects_prefix(
    owner: ContractView,
    changes: Map<Seq<char>, SideEffectView>,
    effects: Seq<OnchainEffect>,
    k: int,
)
    requires
        0 <= k <= effects.len(),
        spec_effects(owner, changes, effects.take(k)) is Err,
    ensures
        spec_effects(owner, changes, effects) == spec_effects(owner, changes, effects.take(k)),
    decreases effects.len() - k,
{
    if k < effects.len() {
        assert(effects.take(k + 1).drop_last() =~= effects.take(k));
        lemma_effects_prefix(owner, changes, effects, k + 1);
    } else {
        assert(effects.take(k) =~= effects);
    }
}

/// Records one on-chain effect of a proof for contract `owner`.
pub open spec fn spec_effect(
    owner: ContractView,
    changes: Map<Seq<char>, SideEffectView>,
    e: OnchainEffect,
) -> Result<Map<Seq<char>, SideEffectView>, ProofError> {
    match e {
        OnchainEffect::RegisterContract(eff) => match spec_validate_name(owner.name, eff.contract_name@) {
            Err(x) => Err(ProofError::InvalidContractName(x)),
            Ok(_) => if eff.state_commitment@.len() > MAX_STATE_DIGEST_SIZE {
                Err(ProofError::RegisteredStateTooLong)
            } else {
                Ok(changes.insert(eff.contract_name@, SideEffectView::Register(ContractView {
                    name: eff.contract_name@,
                    program_id: eff.program_id@,
                    state: eff.state_commitment@,
                    verifier: eff.verifier@,
                    timeout_window: match eff.timeout_window {
                        Some(t) => t,
                        None => owner.timeout_window,
                    },
                })))
            },
        },
        OnchainEffect::DeleteContract(cn) => match spec_validate_name(owner.name, cn@) {
            Err(x) => Err(ProofError::InvalidContractName(x)),
            Ok(_) => Ok(changes.insert(cn@, SideEffectView::Delete(cn@))),
        },
    }
}

/// Records the on-chain effects in order, stopping at the first refused one.
pub open spec fn spec_effects(
    owner: ContractView,
    changes: Map<Seq<char>, SideEffectView>,
    effects: Seq<OnchainEffect>,
) -> Result<Map<Seq<char>, SideEffectView>, ProofError>
    decreases effects.len(),
{
    if effects.len() == 0 {
        Ok(changes)
    } else {
        match spec_effects(owner, changes, effects.drop_last()) {
            Err(e) => Err(e),
            Ok(c2) => spec_effect(owner, c2, effects.last()),
        }
    }
}

/// Records that contract `c` moves to `next_state`.
pub open spec fn spec_record_update(
    changes: Map<Seq<char>, SideEffectView>,
    c: ContractView,
    next_state: Seq<u8>,
) -> Map<Seq<char>, SideEffectView> {
    let upd = SideEffectView::UpdateState(ContractView { state: next_state, ..c });
    if changes.contains_key(c.name) {
        changes.insert(c.name, spec_apply(changes[c.name], upd))
    } else {
        changes.insert(c.name, upd)
    }
}

/// The changes recorded once a proof for a blob of contract `name` is
/// accepted, or why it is refused: the next state must fit, the contract
/// must be known with the proof's initial state and program, every state
/// read must match, and every on-chain effect must be allowed.
pub open spec fn spec_process_proof(
    contracts: Map<Seq<char>, ContractView>,
    changes: Map<Seq<char>, SideEffectView>,
    name: Seq<char>,
    program_id: Seq<u8>,
    out: HyleOutput,
) -> Result<Map<Seq<char>, SideEffectView>, ProofError> {
    if out.next_state@.len() > MAX_STATE_DIGEST_SIZE {
        Err(ProofError::StateTooLong)
    } else {
        match spec_get_contract(contracts, changes, name) {
            None => Err(ProofError::ContractNotFound),
            Some(c) => if out.initial_state@ != c.state {
                Err(ProofError::InitialStateMismatch)
            } else if program_id != c.program_id {
                Err(ProofError::ProgramIdMismatch)
            } else {
                match spec_first_bad_read(contracts, changes, out.state_reads@) {
                    Some(e) => Err(e),
                    None => match spec_effects(c, changes, out.onchain_effects@) {
                        Err(e) => Err(e),
                        Ok(c2) => Ok(spec_record_update(c2, c, out.next_state@)),
                    },
                }
            },
        }
    }
}

/// A copy of the recorded changes.
pub fn copy_changes(m: &StrMap<SideEffect>) -> (res: StrMap<SideEffect>)
    requires
        m.wf(),
    ensures
        res.wf(),
        changes_view(res.view()) == changes_view(m.view()),
{
    let mut res: StrMap<SideEffect> = StrMap::new();
    let n = m.len();
    proof {
        m.lemma_dom();
    }
    let mut i: usize = 0;
    while i < n
        invariant
            m.wf(),
            res.wf(),
            n == m.key_seq().len(),
            i <= n,
            res.view().dom() == m.key_seq().take(i as int).to_set(),
            forall|k: Seq<char>| #[trigger] res.view().contains_key(k) ==> m.view().contains_key(k) && res.view()[k]@ == m.view()[k]@,
        decreases n - i,
    {
        let k = m.key_at(i);
        let v = m.val_at(i);
        proof {
            m.lemma_view_at(i as int);
        }
        let ghost kv = k@;
        res.insert(crate::model::copy_string(k), v.copy());
        proof {
            assert(m.key_seq().take(i + 1) =~= m.key_seq().take(i as int).push(kv));
            crate::node_state::model::lemma_push_to_set(m.key_seq().take(i as int), kv);
        }
        i = i + 1;
    }
    proof {
        assert(m.key_seq().take(n as int) =~= m.key_seq());
        assert(m.key_seq().to_set() =~= m.view().dom());
        assert(changes_view(res.view()) =~= changes_view(m.view()));
    }
    res
}

/// Checks a proof for a blob of `contract_name` against the contracts as
/// changed so far, and returns the changes once it is accepted.
pub fn process_proof(
    contracts: &StrMap<Contract>,
    contract_changes: &StrMap<SideEffect>,
    contract_name: &ContractName,
    proof_metadata: &(ProgramId, HyleOutput),
) -> (res: Result<StrMap<SideEffect>, ProofError>)
    requires
        contracts.wf(),
        contract_changes.wf(),
    ensures
        match res {
            Ok(m) => m.wf() && spec_process_proof(
                contracts_view(contracts.view()),
                changes_view(contract_changes.view()),
                contract_name@,
                proof_metadata.0@,
                proof_metadata.1,
            ) == Ok::<Map<Seq<char>, SideEffectView>, ProofError>(changes_view(m.view())),
            Err(e) => spec_process_proof(
                contracts_view(contracts.view()),
                changes_view(contract_changes.view()),
                contract_name@,
                proof_metadata.0@,
                proof_metadata.1,
            ) == Err::<Map<Seq<char>, SideEffectView>, ProofError>(e),
        },
{
    let ghost cs = contracts_view(contracts.view());
    let ghost ch = changes_view(contract_changes.view());
    let out = &proof_metadata.1;
    if validate_state_digest_size(&out.next_state).is_err() {
        return Err(ProofError::StateTooLong);
    }
    let contract = match get_contract(contracts, contract_changes, contract_name) {
        Some(c) => c.copy(),
        None => return Err(ProofError::ContractNotFound),
    };
    if !bytes_equal(&out.initial_state.0, &contract.state.0) {
        return Err(ProofError::InitialStateMismatch);
    }
    if !bytes_equal(&proof_metadata.0.0, &contract.program_id.0) {
        return Err(ProofError::ProgramIdMismatch);
    }
    let reads = &out.state_reads;
    let mut i: usize = 0;
    while i < reads.len()
        invariant
            contracts.wf(),
            reads == &proof_metadata.1.state_reads,
            out == &proof_metadata.1,
            out.next_state@.len() <= MAX_STATE_DIGEST_SIZE,
            spec_get_contract(cs, ch, contract_name@) == Some(contract@),
            out.initial_state@ == contract.state@,
            proof_metadata.0@ == contract.program_id@,

            contract_changes.wf(),
            cs == contracts_view(contracts.view()),
            ch == changes_view(contract_changes.view()),
            i <= reads@.len(),
            spec_first_bad_read(cs, ch, reads@.take(i as int)) is None,
        decreases reads@.len() - i,
    {
        proof {
            assert(reads@.take(i + 1).drop_last() =~= reads@.take(i as int));
            assert(reads@.take(i + 1).last() == reads@[i as int]);
        }
        let read = &reads[i];
        match get_contract(contracts, contract_changes, &read.0) {
            None => {
                proof {
                    lemma_bad_read_prefix(cs, ch, reads@, i + 1);
                }
                return Err(ProofError::ContractNotFound);
            },
            Some(other) => {
                if !bytes_equal(&read.1.0, &other.state.0) {
                    proof {
                        lemma_bad_read_prefix(cs, ch, reads@, i + 1);
                    }
                    return Err(ProofError::StateReadMismatch);
                }
            },
        }
        i = i + 1;
    }
    proof {
        assert(reads@.take(reads@.len() as int) =~= reads@);
    }
    let mut changes = copy_changes(contract_changes);
    let effects = &out.onchain_effects;
    let mut j: usize = 0;
    while j < effects.len()
        invariant
            changes.wf(),
            effects == &proof_metadata.1.onchain_effects,
            out == &proof_metadata.1,
            cs == contracts_view(contracts.view()),
            ch == changes_view(contract_changes.view()),
            spec_first_bad_read(cs, ch, out.state_reads@) is None,
            out.next_state@.len() <= MAX_STATE_DIGEST_SIZE,
            spec_get_contract(cs, ch, contract_name@) == Some(contract@),
            out.initial_state@ == contract.state@,
            proof_metadata.0@ == contract.program_id@,

            j <= effects@.len(),
            spec_effects(contract@, ch, effects@.take(j as int)) == Ok::<Map<Seq<char>, SideEffectView>, ProofError>(changes_view(changes.view())),
        decreases effects@.len() - j,
    {
        proof {
            assert(effects@.take(j + 1).drop_last() =~= effects@.take(j as int));
            assert(effects@.take(j + 1).last() == effects@[j as int]);
        }
        let ghost before = changes_view(changes.view());
        match &effects[j] {
            OnchainEffect::RegisterContract(effect) => {
                if let Err(x) = validate_contract_name_registration(&contract.name, &effect.contract_name) {
                    proof {
                        lemma_effects_prefix(contract@, ch, effects@, j + 1);
                    }
                    return Err(ProofError::InvalidContractName(x));
                }
                if validate_state_digest_size(&effect.state_commitment).is_err() {
                    proof {
                        lemma_effects_prefix(contract@, ch, effects@, j + 1);
                    }
                    return Err(ProofError::RegisteredStateTooLong);
                }
                let tw = match effect.timeout_window {
                    Some(t) => t,
                    None => contract.timeout_window,
                };
                let registered = Contract {
                    name: effect.contract_name.copy(),
                    program_id: effect.program_id.copy(),
                    state: effect.state_commitment.copy(),
                    verifier: effect.verifier.copy(),
                    timeout_window: tw,
                };
                changes.insert(effect.contract_name.copy().0, SideEffect::Register(registered));
                proof {
                    assert(changes_view(changes.view()) =~= before.insert(
                        effect.contract_name@,
                        SideEffectView::Register(registered@),
                    ));
                }
            },
            OnchainEffect::DeleteContract(cn) => {
                if let Err(x) = validate_contract_name_registration(&contract.name, cn) {
                    proof {
                        lemma_effects_prefix(contract@, ch, effects@, j + 1);
                    }
                    return Err(ProofError::InvalidContractName(x));
                }
                changes.insert(cn.copy().0, SideEffect::Delete(cn.copy()));
                proof {
                    assert(changes_view(changes.view()) =~= before.insert(cn@, SideEffectView::Delete(cn@)));
                }
            },
        }
        j = j + 1;
    }
    proof {
        assert(effects@.take(effects@.len() as int) =~= effects@);
    }
    let ghost c2 = changes_view(changes.view());
    let mut updated = contract.copy();
    updated.state = out.next_state.copy();
    let update = SideEffect::UpdateState(updated);
    let key = contract.name.copy();
    match changes.remove(&key.0) {
        Some(mut existing) => {
            existing.apply(update);
            changes.insert(key.0, existing);
        },
        None => {
            changes.insert(key.0, update);
        },
    }
    proof {
        assert(changes_view(changes.view()) =~= spec_record_update(c2, contract@, out.next_state@));
    }
    Ok(changes)
}

/// The contract action that a blob's data holds, when it holds one.
#[derive(Debug, Clone)]
pub enum BlobAction {
    RegisterContract(RegisterContractEffect),
    DeleteContract(ContractName),
}

/// A blob of an unsettled transaction with the proofs received for it, and
/// the contract action its data holds, as the data decodes.
#[derive(Debug, Clone)]
pub struct UnsettledBlobMetadata {
    pub blob: Blob,
    pub possible_proofs: Vec<(ProgramId, HyleOutput)>,
    pub action: Option<BlobAction>,
}

/// A blob of an unsettled transaction, as plain values: the blob, the
/// proofs received for it in order, and its contract action.
pub ghost struct BlobMeta {
    pub blob: Blob,
    pub proofs: Seq<(Seq<u8>, HyleOutput)>,
    pub action: Option<BlobAction>,
}

/// The proofs of a blob, with their program ids as bytes.
pub open spec fn proofs_view(p: Seq<(ProgramId, HyleOutput)>) -> Seq<(Seq<u8>, HyleOutput)> {
    p.map_values(|x: (ProgramId, HyleOutput)| (x.0@, x.1))
}

impl View for UnsettledBlobMetadata {
    type V = BlobMeta;

    open spec fn view(&self) -> BlobMeta {
        BlobMeta { blob: self.blob, proofs: proofs_view(self.possible_proofs@), action: self.action }
    }
}

/// The blobs of a transaction, as plain values.
pub open spec fn metas(blobs: Seq<UnsettledBlobMetadata>) -> Seq<BlobMeta> {
    blobs.map_values(|b: UnsettledBlobMetadata| b@)
}

/// How long, in blocks, transactions of a contract registered through
/// 'hyle' without a timeout of its own wait before they time out.
pub open spec fn default_timeout_blocks() -> u64 {
    100
}

/// The contract `name` exists once `changes` apply to `contracts`.
pub open spec fn exists_now(
    contracts: Map<Seq<char>, ContractView>,
    changes: Map<Seq<char>, SideEffectView>,
    name: Seq<char>,
) -> bool {
    if changes.contains_key(name) {
        !(changes[name] is Delete)
    } else {
        contracts.contains_key(name)
    }
}

/// How the 'hyle' contract settles one of its blobs, whose data holds
/// `action`: it registers a new contract under a name that 'hyle' may
/// give, with a state that fits (and, without a timeout of its own, the
/// default one), or deletes a contract that exists; anything else fails.
pub open spec fn spec_hyle_tld(
    contracts: Map<Seq<char>, ContractView>,
    changes: Map<Seq<char>, SideEffectView>,
    action: Option<BlobAction>,
) -> Result<Map<Seq<char>, SideEffectView>, ()> {
    match action {
        None => Err(()),
        Some(BlobAction::RegisterContract(e)) => if spec_validate_name(hyle_chars(), e.contract_name@) is Err
            || e.state_commitment@.len() > MAX_STATE_DIGEST_SIZE || exists_now(contracts, changes, e.contract_name@) {
            Err(())
        } else {
            Ok(changes.insert(e.contract_name@, SideEffectView::Register(ContractView {
                name: e.contract_name@,
                program_id: e.program_id@,
                state: e.state_commitment@,
                verifier: e.verifier@,
                timeout_window: match e.timeout_window {
                    Some(t) => t,
                    None => TimeoutWindow::Timeout(BlockHeight(default_timeout_blocks())),
                },
            })))
        },
        Some(BlobAction::DeleteContract(n)) => if exists_now(contracts, changes, n@) {
            Ok(changes.insert(n@, SideEffectView::Delete(n@)))
        } else {
            Err(())
        },
    }
}

/// Settles a blob of the 'hyle' contract, whose data holds `action`.
fn hyle_tld(
    contracts: &StrMap<Contract>,
    changes: StrMap<SideEffect>,
    action: &Option<BlobAction>,
) -> (res: Result<StrMap<SideEffect>, ()>)
    requires
        contracts.wf(),
        changes.wf(),
    ensures
        match res {
            Ok(n) => n.wf() && spec_hyle_tld(contracts_view(contracts.view()), changes_view(changes.view()), *action)
                == Ok::<Map<Seq<char>, SideEffectView>, ()>(changes_view(n.view())),
            Err(_) => spec_hyle_tld(contracts_view(contracts.view()), changes_view(changes.view()), *action) is Err,
        },
{
    let ghost before = changes_view(changes.view());
    let mut changes = changes;
    match action {
        None => Err(()),
        Some(BlobAction::RegisterContract(e)) => {
            let hyle = ContractName::new("hyle");
            proof {
                reveal_strlit("hyle");
                assert(hyle@ =~= hyle_chars());
            }
            if validate_contract_name_registration(&hyle, &e.contract_name).is_err() {
                return Err(());
            }
            if validate_state_digest_size(&e.state_commitment).is_err() {
                return Err(());
            }
            if contract_exists_now(contracts, &changes, &e.contract_name) {
                return Err(());
            }
            let tw = match e.timeout_window {
                Some(t) => t,
                None => TimeoutWindow::Timeout(BlockHeight(100)),
            };
            let registered = Contract {
                name: e.contract_name.copy(),
                program_id: e.program_id.copy(),
                state: e.state_commitment.copy(),
                verifier: e.verifier.copy(),
                timeout_window: tw,
            };
            changes.insert(e.contract_name.copy().0, SideEffect::Register(registered));
            proof {
                assert(changes_view(changes.view()) =~= before.insert(e.contract_name@, SideEffectView::Register(registered@)));
            }
            Ok(changes)
        },
        Some(BlobAction::DeleteContract(n)) => {
            if !contract_exists_now(contracts, &changes, n) {
                return Err(());
            }
            changes.insert(n.copy().0, SideEffect::Delete(n.copy()));
            proof {
                assert(changes_view(changes.view()) =~= before.insert(n@, SideEffectView::Delete(n@)));
            }
            Ok(changes)
        },
    }
}

/// Whether the contract `name` exists once `changes` apply to `contracts`.
fn contract_exists_now(contracts: &StrMap<Contract>, changes: &StrMap<SideEffect>, name: &ContractName) -> (res: bool)
    requires
        contracts.wf(),
        changes.wf(),
    ensures
        res == exists_now(contracts_view(contracts.view()), changes_view(changes.view()), name@),
{
    match changes.get(&name.0) {
        Some(SideEffect::Delete(_)) => false,
        Some(_) => true,
        None => contracts.contains_key(&name.0),
    }
}

/// The outcome of settling all blobs: the contract changes and, for each
/// blob, the index of the proof that settled it.
#[derive(Debug)]
pub struct SettlementResult {
    pub contract_changes: StrMap<SideEffect>,
    pub blob_proof_output_indices: Vec<usize>,
}

/// The characters of "hyle".
pub open spec fn hyle_chars() -> Seq<char> {
    seq!['h', 'y', 'l', 'e']
}

/// Number of proofs received for blob `k`.
pub open spec fn proof_count(blobs: Seq<BlobMeta>, k: int) -> int {
    if 0 <= k < blobs.len() {
        blobs[k].proofs.len() as int
    } else {
        0
    }
}

/// Settles blobs `k..` in order. `None` means the transaction cannot
/// settle yet; `Some(Err(()))` that an accepted proof proves a failure;
/// `Some(Ok(..))` gives the contract changes and the proof used for each
/// blob. A blob is settled by the first of its proofs, in order, that is
/// accepted and lets the remaining blobs settle. A blob of the 'hyle'
/// contract is settled by the rules of 'hyle' (`spec_hyle_tld`), with
/// proof index 0: when they refuse it, the transaction fails.
pub open spec fn spec_settle(
    contracts: Map<Seq<char>, ContractView>,
    changes: Map<Seq<char>, SideEffectView>,
    blobs: Seq<BlobMeta>,
    k: int,
    indices: Seq<usize>,
) -> Option<Result<(Map<Seq<char>, SideEffectView>, Seq<usize>), ()>>
    decreases blobs.len() - k, proof_count(blobs, k) + 1,
{
    if k < 0 || k >= blobs.len() {
        Some(Ok((changes, indices)))
    } else if blobs[k].blob.contract_name@ == hyle_chars() {
        match spec_hyle_tld(contracts, changes, blobs[k].action) {
            Ok(next) => spec_settle(contracts, next, blobs, k + 1, indices.push(0)),
            Err(_) => Some(Err(())),
        }
    } else {
        spec_try_proofs(contracts, changes, blobs, k, indices, 0)
    }
}

/// Tries the proofs of blob `k` from the `i`-th on.
pub open spec fn spec_try_proofs(
    contracts: Map<Seq<char>, ContractView>,
    changes: Map<Seq<char>, SideEffectView>,
    blobs: Seq<BlobMeta>,
    k: int,
    indices: Seq<usize>,
    i: int,
) -> Option<Result<(Map<Seq<char>, SideEffectView>, Seq<usize>), ()>>
    decreases blobs.len() - k, proof_count(blobs, k) - i,
{
    if k < 0 || k >= blobs.len() || i < 0 || i >= proof_count(blobs, k) {
        None
    } else {
        let proof = blobs[k].proofs[i];
        match spec_process_proof(contracts, changes, blobs[k].blob.contract_name@, proof.0, proof.1) {
            Err(_) => spec_try_proofs(contracts, changes, blobs, k, indices, i + 1),
            Ok(next) => if !proof.1.success {
                Some(Err(()))
            } else {
                match spec_settle(contracts, next, blobs, k + 1, indices.push(i as usize)) {
                    Some(r) => Some(r),
                    None => spec_try_proofs(contracts, changes, blobs, k, indices, i + 1),
                }
            },
        }
    }
}

/// The settlement outcome, as plain values.
pub open spec fn settlement_view(res: Option<Result<SettlementResult, ()>>) -> Option<Result<(Map<Seq<char>, SideEffectView>, Seq<usize>), ()>> {
    match res {
        None => None,
        Some(Err(())) => Some(Err(())),
        Some(Ok(r)) => Some(Ok((changes_view(r.contract_changes.view()), r.blob_proof_output_indices@))),
    }
}

pub(crate) fn is_hyle_name(name: &ContractName) -> (res: bool)
    ensures
        res == (name@ == hyle_chars()),
{
    let s = name.0.as_str();
    if s.unicode_len() != 4 {
        return false;
    }
    let res = s.get_char(0) == 'h' && s.get_char(1) == 'y' && s.get_char(2) == 'l' && s.get_char(3) == 'e';
    proof {
        if res {
            assert(name@ =~= hyle_chars());
        }
    }
    res
}

/// Settles the blobs of a transaction from the `k`-th on, given the contract
/// changes recorded by the earlier blobs and the proofs they used.
pub fn settle_blobs_recursively(
    contracts: &StrMap<Contract>,
    contract_changes: StrMap<SideEffect>,
    blobs: &Vec<UnsettledBlobMetadata>,
    k: usize,
    blob_proof_output_indices: Vec<usize>,
) -> (res: Option<Result<SettlementResult, ()>>)
    requires
        contracts.wf(),
        contract_changes.wf(),
        k <= blobs@.len(),
    ensures
        match res {
            Some(Ok(r)) => r.contract_changes.wf(),
            _ => true,
        },
        settlement_view(res) == spec_settle(
            contracts_view(contracts.view()),
            changes_view(contract_changes.view()),
            metas(blobs@),
            k as int,
            blob_proof_output_indices@,
        ),
    decreases blobs@.len() - k, proof_count(metas(blobs@), k as int) + 1,
{
    let ghost cs = contracts_view(contracts.view());
    let ghost ch = changes_view(contract_changes.view());
    let ghost ms = metas(blobs@);
    let n = blobs.len();
    if k == n {
        return Some(Ok(SettlementResult { contract_changes, blob_proof_output_indices }));
    }
    let current_blob = &blobs[k];
    assert(ms[k as int] == blobs@[k as int]@);
    if is_hyle_name(&current_blob.blob.contract_name) {
        return match hyle_tld(contracts, contract_changes, &current_blob.action) {
            Ok(next_changes) => {
                let mut indices = copy_indices(&blob_proof_output_indices);
                indices.push(0);
                settle_blobs_recursively(contracts, next_changes, blobs, k + 1, indices)
            },
            Err(_) => Some(Err(())),
        };
    }
    let proofs = &current_blob.possible_proofs;
    let mut i: usize = 0;
    while i < proofs.len()
        invariant
            contracts.wf(),
            contract_changes.wf(),
            cs == contracts_view(contracts.view()),
            ch == changes_view(contract_changes.view()),
            k < blobs@.len(),
            n == blobs@.len(),
            proofs == &blobs@[k as int].possible_proofs,
            current_blob == &blobs@[k as int],
            blobs@[k as int].blob.contract_name@ != hyle_chars(),
            ms == metas(blobs@),
            ms[k as int] == blobs@[k as int]@,
            i <= proofs@.len(),
            spec_settle(cs, ch, ms, k as int, blob_proof_output_indices@)
                == spec_try_proofs(cs, ch, ms, k as int, blob_proof_output_indices@, i as int),
        decreases proofs@.len() - i,
    {
        let proof_metadata = &proofs[i];
        match process_proof(contracts, &contract_changes, &current_blob.blob.contract_name, proof_metadata) {
            Err(_) => {},
            Ok(current_contracts) => {
                if !proof_metadata.1.success {
                    return Some(Err(()));
                }
                let mut indices = copy_indices(&blob_proof_output_indices);
                indices.push(i);
                let next = k + 1;
                match settle_blobs_recursively(contracts, current_contracts, blobs, next, indices) {
                    Some(r) => return Some(r),
                    None => {},
                }
            },
        }
        i = i + 1;
    }
    None
}

/// The contract an effect is about.
pub open spec fn effect_name(e: SideEffectView) -> Seq<char> {
    match e {
        SideEffectView::Register(c) => c.name,
        SideEffectView::UpdateState(c) => c.name,
        SideEffectView::Delete(n) => n,
    }
}

/// Every recorded effect is stored under the name of its contract.
pub open spec fn keyed_by_name(changes: Map<Seq<char>, SideEffectView>) -> bool {
    forall|k: Seq<char>| #[trigger] changes.contains_key(k) ==> effect_name(changes[k]) == k
}

/// The contracts once the changes of a settled transaction are applied:
/// deleted contracts leave, registered ones are stored as given, and state
/// updates of contracts still present replace their state.
pub open spec fn spec_apply_changes(
    contracts: Map<Seq<char>, ContractView>,
    changes: Map<Seq<char>, SideEffectView>,
) -> Map<Seq<char>, ContractView> {
    Map::new(
        |k: Seq<char>| if changes.contains_key(k) {
            match changes[k] {
                SideEffectView::Delete(_) => false,
                SideEffectView::Register(_) => true,
                SideEffectView::UpdateState(_) => contracts.contains_key(k),
            }
        } else {
            contracts.contains_key(k)
        },
        |k: Seq<char>| if changes.contains_key(k) {
            match changes[k] {
                SideEffectView::Register(c) => c,
                SideEffectView::UpdateState(c) => ContractView { state: c.state, ..contracts[k] },
                SideEffectView::Delete(_) => contracts[k],
            }
        } else {
            contracts[k]
        },
    )
}

/// Applies one effect, stored under its contract's name, to the contracts.
fn apply_one(contracts: &mut StrMap<Contract>, effect: &SideEffect)
    requires
        old(contracts).wf(),
    ensures
        final(contracts).wf(),
        contracts_view(final(contracts).view()) == spec_apply_changes(
            contracts_view(old(contracts).view()),
            Map::empty().insert(effect_name(effect@), effect@),
        ),
{
    let ghost before = contracts_view(contracts.view());
    let ghost single = Map::<Seq<char>, SideEffectView>::empty().insert(effect_name(effect@), effect@);
    match effect {
        SideEffect::Delete(contract_name) => {
            contracts.remove(&contract_name.0);
        },
        SideEffect::Register(contract) => {
            contracts.insert(contract.name.copy().0, contract.copy());
        },
        SideEffect::UpdateState(contract) => {
            match contracts.remove(&contract.name.0) {
                Some(mut existing) => {
                    existing.state = contract.state.copy();
                    contracts.insert(contract.name.copy().0, existing);
                },
                None => {},
            }
        },
    }
    proof {
        assert(contracts_view(contracts.view()) =~= spec_apply_changes(before, single));
    }
}

/// Applies the changes recorded while settling a transaction.
pub fn apply_contract_changes(contracts: &mut StrMap<Contract>, changes: &StrMap<SideEffect>)
    requires
        old(contracts).wf(),
        changes.wf(),
        keyed_by_name(changes_view(changes.view())),
    ensures
        final(contracts).wf(),
        contracts_view(final(contracts).view()) == spec_apply_changes(
            contracts_view(old(contracts).view()),
            changes_view(changes.view()),
        ),
{
    let ghost c0 = contracts_view(contracts.view());
    let ghost ch = changes_view(changes.view());
    let n = changes.len();
    proof {
        changes.lemma_dom();
    }
    let mut i: usize = 0;
    while i < n
        invariant
            contracts.wf(),
            changes.wf(),
            n == changes.key_seq().len(),
            ch == changes_view(changes.view()),
            keyed_by_name(ch),
            changes.key_seq().no_duplicates(),
            changes.view().dom() == changes.key_seq().to_set(),
            i <= n,
            contracts_view(contracts.view()) == spec_apply_changes(c0, ch.restrict(changes.key_seq().take(i as int).to_set())),
        decreases n - i,
    {
        let effect = changes.val_at(i);
        proof {
            changes.lemma_view_at(i as int);
        }
        let ghost k = changes.key_seq()[i as int];
        let ghost before = contracts_view(contracts.view());
        let ghost prev = ch.restrict(changes.key_seq().take(i as int).to_set());
        apply_one(contracts, effect);
        proof {
            assert(changes.view().contains_key(k));
            assert(ch.contains_key(k));
            assert(ch[k] == effect@);
            assert(effect_name(effect@) == k);
            assert(changes.key_seq().take(i + 1) =~= changes.key_seq().take(i as int).push(k));
            crate::node_state::model::lemma_push_to_set(changes.key_seq().take(i as int), k);
            assert(!changes.key_seq().take(i as int).to_set().contains(k)) by {
                if changes.key_seq().take(i as int).to_set().contains(k) {
                    let j = choose|j: int| 0 <= j < i && changes.key_seq().take(i as int)[j] == k;
                    assert(changes.key_seq()[j] == changes.key_seq()[i as int]);
                }
            }
            let next = ch.restrict(changes.key_seq().take(i + 1).to_set());
            assert(next =~= prev.insert(k, effect@));
            assert(contracts_view(contracts.view()) =~= spec_apply_changes(c0, next));
        }
        i = i + 1;
    }
    proof {
        assert(changes.key_seq().take(n as int) =~= changes.key_seq());
        assert(ch.restrict(changes.key_seq().to_set()) =~= ch);
    }
}

/// Accepting a proof keeps every recorded change stored under the name of
/// the contract it changes.
pub proof fn lemma_process_proof_keyed(
    contracts: Map<Seq<char>, ContractView>,
    changes: Map<Seq<char>, SideEffectView>,
    name: Seq<char>,
    program_id: Seq<u8>,
    out: HyleOutput,
)
    requires
        keyed_by_name(changes),
        spec_process_proof(contracts, changes, name, program_id, out) is Ok,
    ensures
        keyed_by_name(spec_process_proof(contracts, changes, name, program_id, out)->Ok_0),
{
    let c = spec_get_contract(contracts, changes, name)->Some_0;
    lemma_effects_keyed(c, changes, out.onchain_effects@);
    let c2 = spec_effects(c, changes, out.onchain_effects@)->Ok_0;
    let res = spec_record_update(c2, c, out.next_state@);
    assert forall|k: Seq<char>| #[trigger] res.contains_key(k) implies effect_name(res[k]) == k by {
        if k != c.name {
            assert(c2.contains_key(k));
        } else if c2.contains_key(k) {
            assert(effect_name(c2[k]) == k);
        }
    }
}

/// Recording on-chain effects keeps changes stored under their contract's name.
pub proof fn lemma_effects_keyed(owner: ContractView, changes: Map<Seq<char>, SideEffectView>, effects: Seq<OnchainEffect>)
    requires
        keyed_by_name(changes),
    ensures
        spec_effects(owner, changes, effects) is Ok ==> keyed_by_name(spec_effects(owner, changes, effects)->Ok_0),
    decreases effects.len(),
{
    if effects.len() > 0 {
        lemma_effects_keyed(owner, changes, effects.drop_last());
        if spec_effects(owner, changes, effects) is Ok {
            let c2 = spec_effects(owner, changes, effects.drop_last())->Ok_0;
            let r = spec_effects(owner, changes, effects)->Ok_0;
            assert forall|k: Seq<char>| #[trigger] r.contains_key(k) implies effect_name(r[k]) == k by {
                if c2.contains_key(k) {
                    assert(effect_name(c2[k]) == k);
                }
            }
        }
    }
}

/// A settled transaction has recorded its changes under the name of the
/// contract each one changes, and one proof index per blob.
pub proof fn lemma_settle_outcome(
    contracts: Map<Seq<char>, ContractView>,
    changes: Map<Seq<char>, SideEffectView>,
    blobs: Seq<BlobMeta>,
    k: int,
    indices: Seq<usize>,
)
    requires
        0 <= k <= blobs.len(),
        keyed_by_name(changes),
    ensures
        spec_settle(contracts, changes, blobs, k, indices) matches Some(Ok((c, idx)))
            ==> keyed_by_name(c) && idx.len() == indices.len() + blobs.len() - k,
    decreases blobs.len() - k, proof_count(blobs, k) + 1,
{
    if k < blobs.len() {
        if blobs[k].blob.contract_name@ != hyle_chars() {
            lemma_try_proofs_outcome(contracts, changes, blobs, k, indices, 0);
        } else {
            let r = spec_hyle_tld(contracts, changes, blobs[k].action);
            if r is Ok {
                lemma_hyle_tld_keyed(contracts, changes, blobs[k].action);
                lemma_settle_outcome(contracts, r->Ok_0, blobs, k + 1, indices.push(0));
            }
        }
    }
}

/// The rules of 'hyle' keep every recorded change under the name of the
/// contract it changes.
pub proof fn lemma_hyle_tld_keyed(
    contracts: Map<Seq<char>, ContractView>,
    changes: Map<Seq<char>, SideEffectView>,
    action: Option<BlobAction>,
)
    requires
        keyed_by_name(changes),
    ensures
        spec_hyle_tld(contracts, changes, action) matches Ok(c) ==> keyed_by_name(c),
{
}

/// The outcome of trying the proofs of blob `k` from the `i`-th on.
pub proof fn lemma_try_proofs_outcome(
    contracts: Map<Seq<char>, ContractView>,
    changes: Map<Seq<char>, SideEffectView>,
    blobs: Seq<BlobMeta>,
    k: int,
    indices: Seq<usize>,
    i: int,
)
    requires
        0 <= k < blobs.len(),
        0 <= i,
        keyed_by_name(changes),
    ensures
        spec_try_proofs(contracts, changes, blobs, k, indices, i) matches Some(Ok((c, idx)))
            ==> keyed_by_name(c) && idx.len() == indices.len() + blobs.len() - k,
    decreases blobs.len() - k, proof_count(blobs, k) - i,
{
    if i < proof_count(blobs, k) {
        let proof = blobs[k].proofs[i];
        lemma_try_proofs_outcome(contracts, changes, blobs, k, indices, i + 1);
        let r = spec_process_proof(contracts, changes, blobs[k].blob.contract_name@, proof.0, proof.1);
        if r is Ok {
            lemma_process_proof_keyed(contracts, changes, blobs[k].blob.contract_name@, proof.0, proof.1);
            lemma_settle_outcome(contracts, r->Ok_0, blobs, k + 1, indices.push(i as usize));
        }
    }
}

/// Why a blob transaction cannot be settled now.
#[derive(Debug, Clone, Copy, PartialEq, Eq)]
pub enum SettleError {
    /// A blob is for a contract that is not registered.
    UnregisteredContract,
    /// Some blob has no accepted proof that lets the transaction settle.
    NotReady,
    /// The transaction is not among the unsettled ones.
    NotFound,
}

/// Every blob is for a registered contract.
pub open spec fn all_registered(contracts: Map<Seq<char>, ContractView>, blobs: Seq<BlobMeta>) -> bool {
    forall|i: int| 0 <= i < blobs.len() ==> contracts.contains_key(#[trigger] blobs[i].blob.contract_name@)
}

/// Tries to settle a blob transaction against the registered contracts.
/// `Ok(Err(()))` means it settles as failed; `Ok(Ok(r))` gives the changes
/// to apply and the proof used for each blob.
pub fn try_to_settle_blob_tx(
    contracts: &StrMap<Contract>,
    blobs: &Vec<UnsettledBlobMetadata>,
) -> (res: Result<Result<SettlementResult, ()>, SettleError>)
    requires
        contracts.wf(),
    ensures
        !all_registered(contracts_view(contracts.view()), metas(blobs@)) <==> res == Err::<Result<SettlementResult, ()>, SettleError>(SettleError::UnregisteredContract),
        all_registered(contracts_view(contracts.view()), metas(blobs@)) ==> match res {
            Err(e) => e == SettleError::NotReady && spec_settle(contracts_view(contracts.view()), Map::empty(), metas(blobs@), 0, Seq::empty()) is None,
            Ok(r) => settlement_view(Some(r)) == spec_settle(contracts_view(contracts.view()), Map::empty(), metas(blobs@), 0, Seq::empty()),
        },
        res matches Ok(Ok(r)) ==> r.contract_changes.wf() && keyed_by_name(changes_view(r.contract_changes.view()))
            && r.blob_proof_output_indices@.len() == blobs@.len(),
{
    let ghost cs = contracts_view(contracts.view());
    let mut i: usize = 0;
    while i < blobs.len()
        invariant
            contracts.wf(),
            cs == contracts_view(contracts.view()),
            i <= blobs@.len(),
            forall|j: int| 0 <= j < i ==> cs.contains_key(#[trigger] blobs@[j].blob.contract_name@),
        decreases blobs@.len() - i,
    {
        if !contracts.contains_key(&blobs[i].blob.contract_name.0) {
            proof {
                assert(!cs.contains_key(blobs@[i as int].blob.contract_name@));
                assert(metas(blobs@)[i as int] == blobs@[i as int]@);
                assert(!cs.contains_key(metas(blobs@)[i as int].blob.contract_name@));
                assert(!all_registered(cs, metas(blobs@)));
            }
            return Err(SettleError::UnregisteredContract);
        }
        i = i + 1;
    }
    let empty: StrMap<SideEffect> = StrMap::new();
    proof {
        assert(changes_view(empty.view()) =~= Map::<Seq<char>, SideEffectView>::empty());
        assert forall|j: int| 0 <= j < metas(blobs@).len() implies cs.contains_key(#[trigger] metas(blobs@)[j].blob.contract_name@) by {
            assert(metas(blobs@)[j] == blobs@[j]@);
        }
        lemma_settle_outcome(cs, Map::empty(), metas(blobs@), 0, Seq::empty());
    }
    match settle_blobs_recursively(contracts, empty, blobs, 0, Vec::new()) {
        Some(r) => Ok(r),
        None => Err(SettleError::NotReady),
    }
}

fn copy_indices(v: &Vec<usize>) -> (res: Vec<usize>)
    ensures
        res@ == v@,
{
    let mut res: Vec<usize> = Vec::new();
    let mut i: usize = 0;
    while i < v.len()
        invariant
            i <= v@.len(),
            res@ == v@.take(i as int),
        decreases v@.len() - i,
    {
        res.push(v[i]);
        proof {
            assert(v@.take(i + 1) =~= v@.take(i as int).push(v@[i as int]));
        }
        i = i + 1;
    }
    assert(v@.take(v@.len() as int) =~= v@);
    res
}

pub fn bytes_equal(a: &Vec<u8>, b: &Vec<u8>) -> (res: bool)
    ensures
        res == (a@ == b@),
{
    if a.len() != b.len() {
        return false;
    }
    let mut i: usize = 0;
    while i < a.len()
        invariant
            a@.len() == b@.len(),
            i <= a@.len(),
            forall|j: int| 0 <= j < i ==> a@[j] == b@[j],
        decreases a@.len() - i,
    {
        if a[i] != b[i] {
            return false;
        }
        i = i + 1;
    }
    assert(a@ =~= b@);
    true
}

proof fn lemma_effects_follow_name_rule(owner: ContractView, changes: Map<Seq<char>, SideEffectView>, effects: Seq<OnchainEffect>)
    requires
        spec_effects(owner, changes, effects) is Ok,
    ensures
        forall|i: int| 0 <= i < effects.len() ==> match #[trigger] effects[i] {
            OnchainEffect::DeleteContract(cn) => spec_validate_name(owner.name, cn@) is Ok,
            OnchainEffect::RegisterContract(r) => spec_validate_name(owner.name, r.contract_name@) is Ok,
        },
    decreases effects.len(),
{
    if effects.len() > 0 {
        lemma_effects_follow_name_rule(owner, changes, effects.drop_last());
        assert forall|i: int| 0 <= i < effects.len() implies match #[trigger] effects[i] {
            OnchainEffect::DeleteContract(cn) => spec_validate_name(owner.name, cn@) is Ok,
            OnchainEffect::RegisterContract(r) => spec_validate_name(owner.name, r.contract_name@) is Ok,
        } by {
            if i < effects.len() - 1 {
                assert(effects[i] == effects.drop_last()[i]);
            }
        }
    }
}

/// A proof accepted for a blob of contract `name` only deletes and
/// registers contracts that `name` may register: for each of its on-chain
/// effects, the name rule holds between the proven contract's name and the
/// name the effect deletes or registers. A proof of one contract cannot
/// delete an unrelated one.
pub proof fn lemma_accepted_proof_respects_the_name_rule(
    contracts: Map<Seq<char>, ContractView>,
    changes: Map<Seq<char>, SideEffectView>,
    name: Seq<char>,
    program_id: Seq<u8>,
    out: HyleOutput,
)
    requires
        spec_process_proof(contracts, changes, name, program_id, out) is Ok,
    ensures
        spec_get_contract(contracts, changes, name) is Some,
        forall|i: int| 0 <= i < out.onchain_effects@.len() ==> match #[trigger] out.onchain_effects@[i] {
            OnchainEffect::DeleteContract(cn) => spec_validate_name(spec_get_contract(contracts, changes, name)->0.name, cn@) is Ok,
            OnchainEffect::RegisterContract(r) => spec_validate_name(
                spec_get_contract(contracts, changes, name)->0.name,
                r.contract_name@,
            ) is Ok,
        },
{
    let c = spec_get_contract(contracts, changes, name)->0;
    lemma_effects_follow_name_rule(c, changes, out.onchain_effects@);
}

/// The window of a transaction whose known contracts all have a timeout
/// window is the smallest of their windows: no larger than the window of
/// any of its known contracts, and equal to one of them. With no known
/// contract it has none.
pub proof fn lemma_timeout_window_is_the_smallest(contracts: Map<Seq<char>, ContractView>, names: Seq<Seq<char>>)
    requires
        forall|i: int| 0 <= i < names.len() && contracts.contains_key(#[trigger] names[i]) ==> contracts[names[i]].timeout_window is Timeout,
    ensures
        match spec_timeout_window(contracts, names) {
            TimeoutWindow::NoTimeout => forall|i: int| 0 <= i < names.len() ==> !contracts.contains_key(#[trigger] names[i]),
            TimeoutWindow::Timeout(w) => {
                &&& forall|i: int| 0 <= i < names.len() && contracts.contains_key(#[trigger] names[i])
                    ==> w.0 <= contracts[names[i]].timeout_window->Timeout_0.0
                &&& exists|i: int| 0 <= i < names.len() && contracts.contains_key(#[trigger] names[i])
                    && contracts[names[i]].timeout_window == TimeoutWindow::Timeout(w)
            },
        },
    decreases names.len(),
{
    if names.len() > 0 {
        let rest = names.drop_last();
        assert forall|i: int| 0 <= i < rest.len() && contracts.contains_key(#[trigger] rest[i]) implies contracts[rest[i]].timeout_window is Timeout by {
            assert(rest[i] == names[i]);
        }
        lemma_timeout_window_is_the_smallest(contracts, rest);
        let last = names.last();
        assert(last == names[names.len() - 1]);
        match spec_timeout_window(contracts, rest) {
            TimeoutWindow::NoTimeout => {
                assert forall|i: int| 0 <= i < rest.len() implies !contracts.contains_key(names[i]) by {
                    assert(rest[i] == names[i]);
                }
            },
            TimeoutWindow::Timeout(w) => {
                let j = choose|j: int| 0 <= j < rest.len() && contracts.contains_key(#[trigger] rest[j])
                    && contracts[rest[j]].timeout_window == TimeoutWindow::Timeout(w);
                assert(names[j] == rest[j]);
                assert forall|i: int| 0 <= i < rest.len() && contracts.contains_key(#[trigger] names[i])
                    implies w.0 <= contracts[names[i]].timeout_window->Timeout_0.0 by {
                    assert(rest[i] == names[i]);
                }
            },
        }
    }
}

/// A proof accepted for a blob of contract `name` starts from that
/// contract's current state, as settling sees it, was made by its program,
/// and ends in a state of allowed size.
pub proof fn lemma_accepted_proof_fits_the_contract(
    contracts: Map<Seq<char>, ContractView>,
    changes: Map<Seq<char>, SideEffectView>,
    name: Seq<char>,
    program_id: Seq<u8>,
    out: HyleOutput,
)
    requires
        spec_process_proof(contracts, changes, name, program_id, out) is Ok,
    ensures
        spec_get_contract(contracts, changes, name) is Some,
        out.initial_state@ == spec_get_contract(contracts, changes, name)->0.state,
        program_id == spec_get_contract(contracts, changes, name)->0.program_id,
        out.next_state@.len() <= MAX_STATE_DIGEST_SIZE,
{
}

} // verus!
