use vstd::prelude::*;

use crate::chain::Chain;
use crate::encoding::{enc_policy, policy_encodable};
use crate::ids::{contract_tag, tagged_hash, ContractId};
use crate::model::{BlindingReveal, TweakedOutput};
use crate::operations::Operation;
use crate::policy::Policy;

verus! {

/// A wallet contract: its id, derived from its policy, its name, its chain,
/// the pay-to-contract tweaks recorded on its outputs and the blinding
/// reveals of the outpoints it published to receive assets.
#[derive(Clone, Debug)]
pub struct Contract {
    pub id: ContractId,
    pub policy: Policy,
    pub name: String,
    pub chain: Chain,
    pub p2c_tweaks: Vec<TweakedOutput>,
    pub blinding_reveals: Vec<BlindingReveal>,
    /// The transfers made from the contract, oldest first.
    pub history: Vec<Operation>,
}

impl Contract {
    /// The id is the one of the policy.
    pub open spec fn wf(&self) -> bool {
        policy_encodable(self.policy@) && self.id.bytes@ == tagged_hash(contract_tag(), enc_policy(self.policy@))
    }

    /// A new contract with no recorded tweaks; `None` where the policy has
    /// no encoding, and so no id.
    pub fn with(policy: Policy, name: String, chain: Chain) -> (r: Option<Contract>)
        ensures
            r.is_some() == policy_encodable(policy@),
            r.is_some() ==> r.unwrap().wf() && r.unwrap().policy == policy && r.unwrap().name == name
                && r.unwrap().chain == chain && r.unwrap().p2c_tweaks@.len() == 0
                && r.unwrap().blinding_reveals@.len() == 0 && r.unwrap().history@.len() == 0,
    {
        match policy.id() {
            Some(id) => Some(
                Contract {
                    id,
                    policy,
                    name,
                    chain,
                    p2c_tweaks: Vec::new(),
                    blinding_reveals: Vec::new(),
                    history: Vec::new(),
                },
            ),
            None => None,
        }
    }
}

/// The contracts of a wallet, one per id.
#[derive(Clone, Debug)]
pub struct ContractStore {
    pub contracts: Vec<Contract>,
}

/// Whether a contract with id `id` is in the list.
pub open spec fn has_id(contracts: Seq<Contract>, id: Seq<u8>) -> bool {
    exists|k: int| 0 <= k < contracts.len() && (#[trigger] contracts[k]).id.bytes@ == id
}

impl ContractStore {
    /// Every contract is well formed and ids are distinct.
    pub open spec fn wf(&self) -> bool {
        &&& forall|k: int| 0 <= k < self.contracts@.len() ==> (#[trigger] self.contracts@[k]).wf()
        &&& forall|a: int, b: int|
            0 <= a < b < self.contracts@.len() ==> (#[trigger] self.contracts@[a]).id.bytes@
                != (#[trigger] self.contracts@[b]).id.bytes@
    }

    /// No contracts.
    pub fn new() -> (r: ContractStore)
        ensures
            r.wf(),
            r.contracts@.len() == 0,
    {
        ContractStore { contracts: Vec::new() }
    }

    /// The position of the contract with an id.
    pub fn find(&self, id: &ContractId) -> (r: Option<usize>)
        ensures
            r.is_some() ==> r.unwrap() < self.contracts@.len() && self.contracts@[r.unwrap() as int].id.bytes@
                == id.bytes@,
            r.is_none() ==> !has_id(self.contracts@, id.bytes@),
    {
        let mut k: usize = 0;
        while k < self.contracts.len()
            invariant
                0 <= k <= self.contracts@.len(),
                forall|j: int| 0 <= j < k ==> (#[trigger] self.contracts@[j]).id.bytes@ != id.bytes@,
            decreases self.contracts@.len() - k,
        {
            if self.contracts[k].id.same(id) {
                return Some(k);
            }
            k = k + 1;
        }
        None
    }

    /// Adds a contract; `false`, leaving the store as it is, where one with
    /// its id is already there.
    pub fn add_contract(&mut self, contract: Contract) -> (r: bool)
        requires
            old(self).wf(),
            contract.wf(),
        ensures
            final(self).wf(),
            r == !has_id(old(self).contracts@, contract.id.bytes@),
            r ==> final(self).contracts@ == old(self).contracts@.push(contract),
            !r ==> final(self).contracts@ == old(self).contracts@,
    {
        match self.find(&contract.id) {
            Some(_) => false,
            None => {
                let ghost before = self.contracts@;
                self.contracts.push(contract);
                proof {
                    assert forall|a: int, b: int| 0 <= a < b < self.contracts@.len() implies (
                    #[trigger] self.contracts@[a]).id.bytes@ != (#[trigger] self.contracts@[b]).id.bytes@ by {
                        assert(self.contracts@[a] == before[a]);
                        if b < before.len() {
                            assert(self.contracts@[b] == before[b]);
                        }
                    }
                    assert forall|k: int| 0 <= k < self.contracts@.len() implies (#[trigger] self.contracts@[k]).wf() by {
                        if k < before.len() {
                            assert(self.contracts@[k] == before[k]);
                        }
                    }
                }
                true
            },
        }
    }

    /// Renames the contract with an id; `false` where there is none.
    pub fn rename_contract(&mut self, id: &ContractId, name: String) -> (r: bool)
        requires
            old(self).wf(),
        ensures
            final(self).wf(),
            r == has_id(old(self).contracts@, id.bytes@),
            final(self).contracts@.len() == old(self).contracts@.len(),
            forall|k: int|
                0 <= k < final(self).contracts@.len() ==> if old(self).contracts@[k].id.bytes@ == id.bytes@ {
                    (#[trigger] final(self).contracts@[k]).name == name && final(self).contracts@[k].id
                        == old(self).contracts@[k].id && final(self).contracts@[k].policy
                        == old(self).contracts@[k].policy
                } else {
                    final(self).contracts@[k] == old(self).contracts@[k]
                },
    {
        match self.find(id) {
            Some(k) => {
                let ghost before = self.contracts@;
                self.contracts[k].name = name;
                proof {
                    assert forall|j: int| 0 <= j < self.contracts@.len() && j != k implies self.contracts@[j]
                        == before[j] by {}
                    assert forall|a: int, b: int| 0 <= a < b < self.contracts@.len() implies (
                    #[trigger] self.contracts@[a]).id.bytes@ != (#[trigger] self.contracts@[b]).id.bytes@ by {
                        assert(self.contracts@[a].id == before[a].id);
                        assert(self.contracts@[b].id == before[b].id);
                    }
                    assert forall|j: int| 0 <= j < self.contracts@.len() implies (#[trigger] self.contracts@[j]).wf() by {
                        assert(self.contracts@[j].id == before[j].id);
                        assert(self.contracts@[j].policy == before[j].policy);
                    }
                    assert forall|j: int| 0 <= j < self.contracts@.len() && j != k implies before[j].id.bytes@
                        != id.bytes@ by {
                        if j < k {
                            assert(before[j].id.bytes@ != before[k as int].id.bytes@);
                        } else {
                            assert(before[k as int].id.bytes@ != before[j].id.bytes@);
                        }
                    }
                }
                true
            },
            None => false,
        }
    }

    /// Deletes the contract with an id; `false` where there is none.
    pub fn delete_contract(&mut self, id: &ContractId) -> (r: bool)
        requires
            old(self).wf(),
        ensures
            final(self).wf(),
            r == has_id(old(self).contracts@, id.bytes@),
            !has_id(final(self).contracts@, id.bytes@),
            r ==> final(self).contracts@.len() == old(self).contracts@.len() - 1,
            !r ==> final(self).contracts@ == old(self).contracts@,
            forall|k: int|
                0 <= k < old(self).contracts@.len() && (#[trigger] old(self).contracts@[k]).id.bytes@ != id.bytes@
                    ==> final(self).contracts@.contains(old(self).contracts@[k]),
    {
        match self.find(id) {
            Some(k) => {
                let ghost before = self.contracts@;
                self.contracts.remove(k);
                proof {
                    assert forall|a: int, b: int| 0 <= a < b < self.contracts@.len() implies (
                    #[trigger] self.contracts@[a]).id.bytes@ != (#[trigger] self.contracts@[b]).id.bytes@ by {
                        let oa = if a < k { a } else { a + 1 };
                        let ob = if b < k { b } else { b + 1 };
                        assert(self.contracts@[a] == before[oa]);
                        assert(self.contracts@[b] == before[ob]);
                    }
                    assert forall|j: int| 0 <= j < self.contracts@.len() implies (#[trigger] self.contracts@[j]).wf() by {
                        let oj = if j < k { j } else { j + 1 };
                        assert(self.contracts@[j] == before[oj]);
                    }
                    assert forall|j: int| 0 <= j < self.contracts@.len() implies (#[trigger] self.contracts@[j]).id.bytes@
                        != id.bytes@ by {
                        let oj = if j < k { j } else { j + 1 };
                        assert(self.contracts@[j] == before[oj]);
                        if oj < k {
                            assert(before[oj].id.bytes@ != before[k as int].id.bytes@);
                        } else {
                            assert(before[k as int].id.bytes@ != before[oj].id.bytes@);
                        }
                    }
                    assert forall|i: int| 0 <= i < before.len() && (#[trigger] before[i]).id.bytes@ != id.bytes@ implies self.contracts@.contains(
                        before[i],
                    ) by {
                        if i < k {
                            assert(self.contracts@[i] == before[i]);
                        } else {
                            assert(self.contracts@[i - 1] == before[i]);
                        }
                    }
                }
                true
            },
            None => false,
        }
    }

    /// Records a pay-to-contract tweak on the contract with an id; `false`
    /// where there is none.
    pub fn add_p2c_tweak(&mut self, id: &ContractId, tweak: TweakedOutput) -> (r: bool)
        requires
            old(self).wf(),
        ensures
            final(self).wf(),
            r == has_id(old(self).contracts@, id.bytes@),
            final(self).contracts@.len() == old(self).contracts@.len(),
            forall|k: int|
                0 <= k < final(self).contracts@.len() ==> if old(self).contracts@[k].id.bytes@ == id.bytes@ {
                    (#[trigger] final(self).contracts@[k]).p2c_tweaks@ == old(self).contracts@[k].p2c_tweaks@.push(tweak)
                        && final(self).contracts@[k].id == old(self).contracts@[k].id
                } else {
                    final(self).contracts@[k] == old(self).contracts@[k]
                },
    {
        match self.find(id) {
            Some(k) => {
                let ghost before = self.contracts@;
                self.contracts[k].p2c_tweaks.push(tweak);
                proof {
                    assert forall|a: int, b: int| 0 <= a < b < self.contracts@.len() implies (
                    #[trigger] self.contracts@[a]).id.bytes@ != (#[trigger] self.contracts@[b]).id.bytes@ by {
                        assert(self.contracts@[a].id == before[a].id);
                        assert(self.contracts@[b].id == before[b].id);
                    }
                    assert forall|j: int| 0 <= j < self.contracts@.len() implies (#[trigger] self.contracts@[j]).wf() by {
                        assert(self.contracts@[j].id == before[j].id);
                        assert(self.contracts@[j].policy == before[j].policy);
                    }
                    assert forall|j: int| 0 <= j < self.contracts@.len() && j != k implies before[j].id.bytes@
                        != id.bytes@ by {
                        if j < k {
                            assert(before[j].id.bytes@ != before[k as int].id.bytes@);
                        } else {
                            assert(before[k as int].id.bytes@ != before[j].id.bytes@);
                        }
                    }
                }
                true
            },
            None => false,
        }
    }

    /// Appends an operation to the history of the contract with an id;
    /// `false` where there is none.
    pub fn register_operation(&mut self, id: &ContractId, op: Operation) -> (r: bool)
        requires
            old(self).wf(),
        ensures
            final(self).wf(),
            r == has_id(old(self).contracts@, id.bytes@),
            final(self).contracts@.len() == old(self).contracts@.len(),
            forall|k: int|
                0 <= k < final(self).contracts@.len() ==> if old(self).contracts@[k].id.bytes@ == id.bytes@ {
                    (#[trigger] final(self).contracts@[k]).history@ == old(self).contracts@[k].history@.push(op)
                        && final(self).contracts@[k].id == old(self).contracts@[k].id
                } else {
                    final(self).contracts@[k] == old(self).contracts@[k]
                },
    {
        match self.find(id) {
            Some(k) => {
                let ghost before = self.contracts@;
                self.contracts[k].history.push(op);
                proof {
                    assert forall|a: int, b: int| 0 <= a < b < self.contracts@.len() implies (
                    #[trigger] self.contracts@[a]).id.bytes@ != (#[trigger] self.contracts@[b]).id.bytes@ by {
                        assert(self.contracts@[a].id == before[a].id);
                        assert(self.contracts@[b].id == before[b].id);
                    }
                    assert forall|j: int| 0 <= j < self.contracts@.len() implies (#[trigger] self.contracts@[j]).wf() by {
                        assert(self.contracts@[j].id == before[j].id);
                        assert(self.contracts@[j].policy == before[j].policy);
                    }
                    assert forall|j: int| 0 <= j < self.contracts@.len() && j != k implies before[j].id.bytes@
                        != id.bytes@ by {
                        if j < k {
                            assert(before[j].id.bytes@ != before[k as int].id.bytes@);
                        } else {
                            assert(before[k as int].id.bytes@ != before[j].id.bytes@);
                        }
                    }
                }
                true
            },
            None => false,
        }
    }
}

} // verus!
