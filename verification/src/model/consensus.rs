//! Consensus proposals and messages.

use crate::model::crypto::{AggregateSignature, ValidatorSignature};
use crate::model::hashing::{hex_encode, hex_lower, lemma_hex_len, le_bytes, push_bytes, push_u64_le, sha3_256, sha3_256_digest};
use crate::model::mempool::{Cut, DataProposalHash, PoDA};
use crate::model::ValidatorPublicKey;
use vstd::prelude::*;
use vstd::utf8::encode_utf8;

verus! {

pub type Slot = u64;

pub type ViewNumber = u64;

#[derive(Debug, Clone, PartialEq, Eq, Hash)]
pub struct ValidatorCandidacy {
    pub pubkey: ValidatorPublicKey,
    pub peer_address: String,
}

/// A consensus message signed by a validator.
#[derive(Debug)]
pub struct SignedConsensusNetMessage {
    pub msg: ConsensusNetMessage,
    pub signature: ValidatorSignature,
}

/// A validator asking to be bonded, with its signed candidacy.
#[derive(Debug)]
pub struct NewValidatorCandidate {
    pub pubkey: ValidatorPublicKey,
    pub msg: SignedConsensusNetMessage,
}

#[derive(Debug, Clone, Default, PartialEq, Eq)]
pub struct QuorumCertificateHash(pub Vec<u8>);

pub type QuorumCertificate = AggregateSignature;

#[derive(Debug, Clone, PartialEq, Eq)]
pub struct TimeoutCertificate(pub ConsensusProposalHash, pub QuorumCertificate);

/// What allows a validator to send a valid prepare.
#[derive(Debug, Clone, PartialEq, Eq, Hash)]
pub enum Ticket {
    /// For the first cut, which has no quorum certificate.
    Genesis,
    CommitQC(QuorumCertificate),
    TimeoutQC(QuorumCertificate),
}

/// Hash of a consensus proposal, as a hex string.
#[derive(Debug, Clone, Default, PartialEq, Eq, Hash)]
pub struct ConsensusProposalHash(pub String);

impl View for ConsensusProposalHash {
    type V = Seq<char>;

    open spec fn view(&self) -> Seq<char> {
        self.0@
    }
}

/// A block proposal.
#[derive(Debug, Default)]
pub struct ConsensusProposal {
    pub slot: Slot,
    pub view: ViewNumber,
    pub round_leader: ValidatorPublicKey,
    pub cut: Cut,
    pub new_validators_to_bond: Vec<NewValidatorCandidate>,
    pub timestamp: u64,
    pub parent_hash: ConsensusProposalHash,
}

#[derive(Debug)]
pub enum ConsensusNetMessage {
    Prepare(ConsensusProposal, Ticket),
    PrepareVote(ConsensusProposalHash),
    Confirm(QuorumCertificate),
    ConfirmAck(ConsensusProposalHash),
    Commit(QuorumCertificate, ConsensusProposalHash),
    Timeout(Slot, ViewNumber),
    TimeoutCertificate(QuorumCertificate, Slot, ViewNumber),
    ValidatorCandidacy(ValidatorCandidacy),
}

/// For each lane of the cut: the validator's key, then the bytes of the
/// proposal hash.
pub open spec fn cut_bytes(cut: Seq<(ValidatorPublicKey, DataProposalHash, PoDA)>) -> Seq<u8>
    decreases cut.len(),
{
    if cut.len() == 0 {
        Seq::empty()
    } else {
        cut_bytes(cut.drop_last()) + cut.last().0@ + encode_utf8(cut.last().1@)
    }
}

/// The key of each validator to bond.
pub open spec fn bond_bytes(v: Seq<NewValidatorCandidate>) -> Seq<u8>
    decreases v.len(),
{
    if v.len() == 0 {
        Seq::empty()
    } else {
        bond_bytes(v.drop_last()) + v.last().pubkey@
    }
}

/// The bytes a proposal's hash is computed over: slot, view, leader, the
/// cut's keys and proposal hashes, the keys of the validators to bond,
/// timestamp and parent hash. Signatures are left out.
pub open spec fn proposal_hash_input(p: ConsensusProposal) -> Seq<u8> {
    le_bytes(p.slot as nat, 8) + le_bytes(p.view as nat, 8) + p.round_leader@ + cut_bytes(p.cut@)
        + bond_bytes(p.new_validators_to_bond@) + le_bytes(p.timestamp as nat, 8) + encode_utf8(p.parent_hash@)
}

/// The hash of a proposal: hex of the SHA3-256 digest of its hash input.
pub open spec fn spec_proposal_hash(p: ConsensusProposal) -> Seq<char> {
    hex_lower(sha3_256_digest(proposal_hash_input(p)))
}

impl ConsensusProposal {
    /// The hash validators sign; any consensus-critical field is in it.
    pub fn hash(&self) -> (res: ConsensusProposalHash)
        ensures
            res@ == spec_proposal_hash(*self),
            res@.len() == 64,
    {
        let mut input: Vec<u8> = Vec::new();
        push_u64_le(&mut input, self.slot);
        push_u64_le(&mut input, self.view);
        push_bytes(&mut input, self.round_leader.0.as_slice());
        let mut i: usize = 0;
        while i < self.cut.len()
            invariant
                i <= self.cut@.len(),
                input@ == le_bytes(self.slot as nat, 8) + le_bytes(self.view as nat, 8) + self.round_leader@
                    + cut_bytes(self.cut@.take(i as int)),
            decreases self.cut@.len() - i,
        {
            let ghost before = input@;
            push_bytes(&mut input, self.cut[i].0.0.as_slice());
            push_bytes(&mut input, self.cut[i].1.0.as_str().as_bytes());
            proof {
                assert(self.cut@.take(i + 1).drop_last() =~= self.cut@.take(i as int));
                assert(self.cut@.take(i + 1).last() == self.cut@[i as int]);
                assert(input@ =~= before + self.cut@[i as int].0@ + encode_utf8(self.cut@[i as int].1@));
            }
            i = i + 1;
        }
        proof {
            assert(self.cut@.take(self.cut@.len() as int) =~= self.cut@);
        }
        let ghost after_cut = input@;
        let mut j: usize = 0;
        while j < self.new_validators_to_bond.len()
            invariant
                j <= self.new_validators_to_bond@.len(),
                input@ == after_cut + bond_bytes(self.new_validators_to_bond@.take(j as int)),
            decreases self.new_validators_to_bond@.len() - j,
        {
            let ghost before = input@;
            push_bytes(&mut input, self.new_validators_to_bond[j].pubkey.0.as_slice());
            proof {
                assert(self.new_validators_to_bond@.take(j + 1).drop_last() =~= self.new_validators_to_bond@.take(j as int));
                assert(self.new_validators_to_bond@.take(j + 1).last() == self.new_validators_to_bond@[j as int]);
                assert(input@ =~= before + self.new_validators_to_bond@[j as int].pubkey@);
            }
            j = j + 1;
        }
        proof {
            assert(self.new_validators_to_bond@.take(self.new_validators_to_bond@.len() as int) =~= self.new_validators_to_bond@);
        }
        push_u64_le(&mut input, self.timestamp);
        push_bytes(&mut input, self.parent_hash.0.as_str().as_bytes());
        proof {
            assert(input@ =~= proposal_hash_input(*self));
        }
        let digest = sha3_256(input.as_slice());
        proof {
            lemma_hex_len(digest@);
        }
        ConsensusProposalHash(hex_encode(digest.as_slice()))
    }
}

/// The hash of a proposal depends only on its slot, view, leader, the
/// validator keys and proposal hashes of its cut, the keys of the
/// validators to bond, its timestamp and its parent hash: two proposals
/// that agree on these hash alike, whatever signatures they carry.
pub proof fn lemma_hash_ignores_signatures(a: ConsensusProposal, b: ConsensusProposal)
    requires
        a.slot == b.slot,
        a.view == b.view,
        a.round_leader@ == b.round_leader@,
        a.cut@.len() == b.cut@.len(),
        forall|i: int| 0 <= i < a.cut@.len() ==> (#[trigger] a.cut@[i]).0@ == b.cut@[i].0@ && a.cut@[i].1@ == b.cut@[i].1@,
        a.new_validators_to_bond@.len() == b.new_validators_to_bond@.len(),
        forall|i: int| 0 <= i < a.new_validators_to_bond@.len() ==> (#[trigger] a.new_validators_to_bond@[i]).pubkey@ == b.new_validators_to_bond@[i].pubkey@,
        a.timestamp == b.timestamp,
        a.parent_hash@ == b.parent_hash@,
    ensures
        spec_proposal_hash(a) == spec_proposal_hash(b),
{
    lemma_cut_bytes_eq(a.cut@, b.cut@);
    lemma_bond_bytes_eq(a.new_validators_to_bond@, b.new_validators_to_bond@);
}

proof fn lemma_cut_bytes_eq(a: Seq<(ValidatorPublicKey, DataProposalHash, PoDA)>, b: Seq<(ValidatorPublicKey, DataProposalHash, PoDA)>)
    requires
        a.len() == b.len(),
        forall|i: int| 0 <= i < a.len() ==> (#[trigger] a[i]).0@ == b[i].0@ && a[i].1@ == b[i].1@,
    ensures
        cut_bytes(a) == cut_bytes(b),
    decreases a.len(),
{
    if a.len() > 0 {
        lemma_cut_bytes_eq(a.drop_last(), b.drop_last());
        assert(a.last() == a[a.len() - 1]);
    }
}

proof fn lemma_bond_bytes_eq(a: Seq<NewValidatorCandidate>, b: Seq<NewValidatorCandidate>)
    requires
        a.len() == b.len(),
        forall|i: int| 0 <= i < a.len() ==> (#[trigger] a[i]).pubkey@ == b[i].pubkey@,
    ensures
        bond_bytes(a) == bond_bytes(b),
    decreases a.len(),
{
    if a.len() > 0 {
        lemma_bond_bytes_eq(a.drop_last(), b.drop_last());
        assert(a.last() == a[a.len() - 1]);
    }
}

proof fn lemma_cut_bytes_append(
    x: Seq<(ValidatorPublicKey, DataProposalHash, PoDA)>,
    y: Seq<(ValidatorPublicKey, DataProposalHash, PoDA)>,
)
    ensures
        cut_bytes(x + y) == cut_bytes(x) + cut_bytes(y),
    decreases y.len(),
{
    if y.len() == 0 {
        assert(x + y =~= x);
        assert(cut_bytes(x) + cut_bytes(y) =~= cut_bytes(x));
    } else {
        lemma_cut_bytes_append(x, y.drop_last());
        assert((x + y).drop_last() =~= x + y.drop_last());
        assert((x + y).last() == y.last());
        assert(cut_bytes(x + y) =~= cut_bytes(x) + cut_bytes(y));
    }
}

proof fn lemma_cut_bytes_at(s: Seq<(ValidatorPublicKey, DataProposalHash, PoDA)>, k: int)
    requires
        0 <= k < s.len(),
    ensures
        cut_bytes(s) == cut_bytes(s.take(k)) + s[k].0@ + encode_utf8(s[k].1@) + cut_bytes(s.skip(k + 1)),
{
    assert(s =~= s.take(k + 1) + s.skip(k + 1));
    lemma_cut_bytes_append(s.take(k + 1), s.skip(k + 1));
    assert(s.take(k + 1).drop_last() =~= s.take(k));
    assert(s.take(k + 1).last() == s[k]);
}

/// The bytes a proposal is hashed over depend on the proposal hash of each
/// lane of its cut: two proposals that agree on everything else but differ
/// in the proposal hash of one lane have different hash inputs.
#[verifier::spinoff_prover]
#[verifier::rlimit(40)]
pub proof fn lemma_hash_input_covers_each_lane_hash(a: ConsensusProposal, b: ConsensusProposal, k: int)
    requires
        a.slot == b.slot,
        a.view == b.view,
        a.round_leader@ == b.round_leader@,
        a.cut@.len() == b.cut@.len(),
        0 <= k < a.cut@.len(),
        forall|i: int| 0 <= i < a.cut@.len() ==> (#[trigger] a.cut@[i]).0@ == b.cut@[i].0@,
        forall|i: int| 0 <= i < a.cut@.len() && i != k ==> (#[trigger] a.cut@[i]).1@ == b.cut@[i].1@,
        a.cut@[k].1@ != b.cut@[k].1@,
        a.new_validators_to_bond@.len() == b.new_validators_to_bond@.len(),
        forall|i: int| 0 <= i < a.new_validators_to_bond@.len() ==> (#[trigger] a.new_validators_to_bond@[i]).pubkey@ == b.new_validators_to_bond@[i].pubkey@,
        a.timestamp == b.timestamp,
        a.parent_hash@ == b.parent_hash@,
    ensures
        proposal_hash_input(a) != proposal_hash_input(b),
{
    let ac = a.cut@;
    let bc = b.cut@;
    assert forall|i: int| 0 <= i < ac.take(k).len() implies (#[trigger] ac.take(k)[i]).0@ == bc.take(k)[i].0@ && ac.take(k)[i].1@ == bc.take(k)[i].1@ by {
        assert(ac.take(k)[i] == ac[i]);
        assert(bc.take(k)[i] == bc[i]);
    }
    lemma_cut_bytes_eq(ac.take(k), bc.take(k));
    assert forall|i: int| 0 <= i < ac.skip(k + 1).len() implies (#[trigger] ac.skip(k + 1)[i]).0@ == bc.skip(k + 1)[i].0@
        && ac.skip(k + 1)[i].1@ == bc.skip(k + 1)[i].1@ by {
        assert(ac.skip(k + 1)[i] == ac[i + k + 1]);
        assert(bc.skip(k + 1)[i] == bc[i + k + 1]);
    }
    lemma_cut_bytes_eq(ac.skip(k + 1), bc.skip(k + 1));
    lemma_bond_bytes_eq(a.new_validators_to_bond@, b.new_validators_to_bond@);
    lemma_cut_bytes_at(ac, k);
    lemma_cut_bytes_at(bc, k);
    let p = le_bytes(a.slot as nat, 8) + le_bytes(a.view as nat, 8) + a.round_leader@ + cut_bytes(ac.take(k)) + ac[k].0@;
    let q = cut_bytes(ac.skip(k + 1)) + bond_bytes(a.new_validators_to_bond@) + le_bytes(a.timestamp as nat, 8)
        + encode_utf8(a.parent_hash@);
    let ea = encode_utf8(ac[k].1@);
    let eb = encode_utf8(bc[k].1@);
    assert(proposal_hash_input(a) =~= p + ea + q);
    assert(proposal_hash_input(b) =~= p + eb + q);
    if proposal_hash_input(a) == proposal_hash_input(b) {
        assert(ea.len() == eb.len());
        assert(ea =~= (p + ea + q).subrange(p.len() as int, (p.len() + ea.len()) as int));
        assert(eb =~= (p + eb + q).subrange(p.len() as int, (p.len() + eb.len()) as int));
        vstd::utf8::encode_utf8_decode_utf8(ac[k].1@);
        vstd::utf8::encode_utf8_decode_utf8(bc[k].1@);
        assert(false);
    }
}

/// `256` to the power `n`.
pub open spec fn pow256(n: nat) -> nat
    decreases n,
{
    if n == 0 {
        1
    } else {
        256 * pow256((n - 1) as nat)
    }
}

proof fn lemma_div_mod_256(x: nat, p: nat)
    requires
        x < 256 * p,
    ensures
        x / 256 < p,
        x == 256 * (x / 256) + x % 256,
        x % 256 < 256,
{
    assert(x / 256 < p) by (nonlinear_arith)
        requires
            x < 256 * p,
    ;
    assert(x == 256 * (x / 256) + x % 256) by (nonlinear_arith);
    assert(x % 256 < 256) by (nonlinear_arith);
}

proof fn lemma_le_bytes_injective(x: nat, y: nat, n: nat)
    requires
        x < pow256(n),
        y < pow256(n),
        le_bytes(x, n) == le_bytes(y, n),
    ensures
        x == y,
    decreases n,
{
    if n > 0 {
        let m = (n - 1) as nat;
        let p = pow256(m);
        lemma_div_mod_256(x, p);
        lemma_div_mod_256(y, p);
        let a = le_bytes(x, n);
        let b = le_bytes(y, n);
        let hx = seq![(x % 256) as u8];
        let hy = seq![(y % 256) as u8];
        assert(a == hx + le_bytes(x / 256, m));
        assert(b == hy + le_bytes(y / 256, m));
        assert(a[0] == hx[0]);
        assert(b[0] == hy[0]);
        assert(x % 256 == y % 256);
        assert(a.subrange(1, a.len() as int) =~= le_bytes(x / 256, m));
        assert(b.subrange(1, b.len() as int) =~= le_bytes(y / 256, m));
        lemma_le_bytes_injective(x / 256, y / 256, m);
    }
}

proof fn lemma_le_bytes_len(x: nat, n: nat)
    ensures
        le_bytes(x, n).len() == n,
    decreases n,
{
    if n > 0 {
        lemma_le_bytes_len(x / 256, (n - 1) as nat);
    }
}

/// Two proposals hashed over the same bytes have the same slot and view,
/// and, when their parent hashes agree, the same timestamp: a signature on
/// one proposal does not cover another slot, view or time.
#[verifier::spinoff_prover]
#[verifier::rlimit(40)]
pub proof fn lemma_hash_input_fixes_slot_view_and_time(a: ConsensusProposal, b: ConsensusProposal)
    requires
        proposal_hash_input(a) == proposal_hash_input(b),
    ensures
        a.slot == b.slot,
        a.view == b.view,
        a.parent_hash@ == b.parent_hash@ ==> a.timestamp == b.timestamp,
{
    assert(pow256(8) == 0x1_0000_0000_0000_0000) by {
        reveal_with_fuel(pow256, 9);
    }
    let ia = proposal_hash_input(a);
    let ib = proposal_hash_input(b);
    lemma_le_bytes_len(a.slot as nat, 8);
    lemma_le_bytes_len(b.slot as nat, 8);
    lemma_le_bytes_len(a.view as nat, 8);
    lemma_le_bytes_len(b.view as nat, 8);
    lemma_le_bytes_len(a.timestamp as nat, 8);
    lemma_le_bytes_len(b.timestamp as nat, 8);
    let ra = a.round_leader@ + cut_bytes(a.cut@) + bond_bytes(a.new_validators_to_bond@) + le_bytes(a.timestamp as nat, 8)
        + encode_utf8(a.parent_hash@);
    let rb = b.round_leader@ + cut_bytes(b.cut@) + bond_bytes(b.new_validators_to_bond@) + le_bytes(b.timestamp as nat, 8)
        + encode_utf8(b.parent_hash@);
    assert(ia =~= le_bytes(a.slot as nat, 8) + le_bytes(a.view as nat, 8) + ra);
    assert(ib =~= le_bytes(b.slot as nat, 8) + le_bytes(b.view as nat, 8) + rb);
    assert(ia.subrange(0, 8) =~= le_bytes(a.slot as nat, 8));
    assert(ib.subrange(0, 8) =~= le_bytes(b.slot as nat, 8));
    lemma_le_bytes_injective(a.slot as nat, b.slot as nat, 8);
    assert(ia.subrange(8, 16) =~= le_bytes(a.view as nat, 8));
    assert(ib.subrange(8, 16) =~= le_bytes(b.view as nat, 8));
    lemma_le_bytes_injective(a.view as nat, b.view as nat, 8);
    if a.parent_hash@ == b.parent_hash@ {
        let e = encode_utf8(a.parent_hash@);
        let n = ia.len();
        let ta = le_bytes(a.timestamp as nat, 8);
        let tb = le_bytes(b.timestamp as nat, 8);
        let pa = le_bytes(a.slot as nat, 8) + le_bytes(a.view as nat, 8) + a.round_leader@ + cut_bytes(a.cut@) + bond_bytes(a.new_validators_to_bond@);
        let pb = le_bytes(b.slot as nat, 8) + le_bytes(b.view as nat, 8) + b.round_leader@ + cut_bytes(b.cut@) + bond_bytes(b.new_validators_to_bond@);
        assert(ia =~= pa + ta + e);
        assert(ib =~= pb + tb + e);
        assert(ia.subrange(n - e.len() - 8, n - e.len()) =~= ta);
        assert(ib.subrange(n - e.len() - 8, n - e.len()) =~= tb);
        lemma_le_bytes_injective(a.timestamp as nat, b.timestamp as nat, 8);
    }
}

} // verus!
