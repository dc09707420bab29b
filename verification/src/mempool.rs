//! The mempool's checks on incoming transactions, and the contracts it
//! knows.

pub mod fees_checker;
pub mod lanes;
pub mod own_lane;

use crate::model::{ContractName, ProgramId, Verifier};
use crate::str_map::StrMap;
use vstd::prelude::*;

verus! {

/// Verifier and program id of each contract the mempool knows, by name.
#[derive(Debug)]
pub struct KnownContracts(pub StrMap<(Verifier, ProgramId)>);

/// The known contracts, as plain values.
pub open spec fn known_view(m: Map<Seq<char>, (Verifier, ProgramId)>) -> Map<Seq<char>, (Seq<char>, Seq<u8>)> {
    m.map_values(|p: (Verifier, ProgramId)| (p.0@, p.1@))
}

impl KnownContracts {
    pub fn new() -> (res: KnownContracts)
        ensures
            res.0.wf(),
            known_view(res.0.view()) == Map::<Seq<char>, (Seq<char>, Seq<u8>)>::empty(),
    {
        let res = KnownContracts(StrMap::new());
        assert(known_view(res.0.view()) =~= Map::<Seq<char>, (Seq<char>, Seq<u8>)>::empty());
        res
    }

    /// Records (or replaces) the verifier and program id of a contract.
    pub fn register_contract(&mut self, contract_name: &ContractName, verifier: &Verifier, program_id: &ProgramId)
        requires
            old(self).0.wf(),
        ensures
            final(self).0.wf(),
            known_view(final(self).0.view()) == known_view(old(self).0.view()).insert(
                contract_name@,
                (verifier@, program_id@),
            ),
    {
        let ghost before = self.0.view();
        self.0.insert(contract_name.copy().0, (verifier.copy(), program_id.copy()));
        assert(known_view(self.0.view()) =~= known_view(before).insert(contract_name@, (verifier@, program_id@)));
    }

    /// The verifier and program id of a known contract.
    pub fn get(&self, contract_name: &ContractName) -> (res: Option<&(Verifier, ProgramId)>)
        requires
            self.0.wf(),
        ensures
            match res {
                Some(p) => known_view(self.0.view()).contains_key(contract_name@)
                    && known_view(self.0.view())[contract_name@] == (p.0@, p.1@),
                None => !known_view(self.0.view()).contains_key(contract_name@),
            },
    {
        self.0.get(&contract_name.0)
    }
}

} // verus!
