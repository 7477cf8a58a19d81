use vstd::prelude::*;

use crate::cache::{address_count, index_used, kept_entry, AddressBook};
use crate::chain::{magic_of, Chain};
use crate::index::UnhardenedIndex;
use crate::model::{bytes_eq, copy_bytes, AddressDerivation, BlindingReveal, OutPoint};
use crate::encoding::{enc_policy, policy_encodable};
use crate::ids::{contract_tag, tagged_hash, ContractId};
use crate::policy::{
    address_of_descriptor, descriptor_text_at, policy_type_of, ContentType, ContractDescriptor, Policy, PolicyType,
    PubkeyChain,
};
use crate::storage::{has_id, Contract, ContractStore};
use crate::transfer::TransferError;

verus! {

/// A request that fails for a reason the client can act on.
#[derive(Clone, Copy, Debug, PartialEq, Eq, Structural)]
pub enum Failure {
    /// No address can be derived for the contract on its chain.
    CannotDeriveAddress,
    /// Every derivation index is in use.
    NoUnusedIndex,
    /// The contract has no unspent output to blind.
    NoUtxoAvailable,
    /// A length or a count in the policy does not fit in 16 bits, so it has
    /// no encoding and no id.
    PolicyTooLarge,
    /// A transfer cannot be composed.
    Transfer(TransferError),
}

impl Failure {
    /// The text sent to the client.
    pub fn info(&self) -> (r: &'static str) {
        match self {
            Failure::CannotDeriveAddress => "Unable to derive address for the provided network/chain",
            Failure::NoUnusedIndex => "No unused derivation index is left",
            Failure::NoUtxoAvailable => "No UTXO available",
            Failure::PolicyTooLarge => "The policy is too large to encode",
            Failure::Transfer(TransferError::InsufficientFunds { bitcoin_only: false }) => "Insufficient funds",
            Failure::Transfer(TransferError::InsufficientFunds { bitcoin_only: true }) =>
                "Insufficient funds on bitcoin outputs which do not have RGB assets on them",
            Failure::Transfer(TransferError::CannotAllocateRgbChange) => "Can't allocate RGB change",
            Failure::Transfer(TransferError::CannotDeriveAddress) => "Unable to derive change address",
            Failure::Transfer(TransferError::ValueOverflow) => "Amount does not fit in 64 bits",
        }
    }
}

/// The address of a policy at an index on a chain, where it has one.
pub open spec fn address_at(p: Policy, index: nat, chain: Chain, legacy: bool) -> Option<Seq<char>> {
    match (descriptor_text_at(p, index, legacy), magic_of(chain)) {
        (Some(text), Some(magic)) => address_of_descriptor(text, magic),
        _ => None,
    }
}

/// Every unhardened index is bound to an address.
pub open spec fn no_unused(used: Seq<(String, UnhardenedIndex)>) -> bool {
    forall|i: nat| i <= crate::index::LARGEST_UNHARDENED ==> #[trigger] index_used(used, i)
}

/// `i` is the index an address request takes: the one it names, or else
/// the smallest index not bound to an address.
pub open spec fn chosen_index(index: Option<UnhardenedIndex>, used: Seq<(String, UnhardenedIndex)>, i: nat) -> bool {
    match index {
        Some(x) => i == x@,
        None => i <= crate::index::LARGEST_UNHARDENED && !index_used(used, i) && forall|j: nat|
            j < i ==> #[trigger] index_used(used, j),
    }
}

/// An address request takes one index at most.
pub proof fn lemma_chosen_unique(index: Option<UnhardenedIndex>, used: Seq<(String, UnhardenedIndex)>, i: nat, k: nat)
    requires
        chosen_index(index, used, i),
        chosen_index(index, used, k),
    ensures
        i == k,
{
    if index.is_none() {
        if i < k {
            assert(index_used(used, i));
        } else if k < i {
            assert(index_used(used, k));
        }
    }
}

/// Without a named index, a request takes no index above a free one.
pub proof fn lemma_chosen_below_free(used: Seq<(String, UnhardenedIndex)>, i: nat, k: nat)
    requires
        chosen_index(None, used, i),
        !index_used(used, k),
    ensures
        i <= k,
{
    if k < i {
        assert(index_used(used, k));
    }
}

/// What an address request does to the book and returns: it fails with
/// `NoUnusedIndex` exactly when no index is named and all are in use, with
/// `CannotDeriveAddress` exactly when the chosen index has no address, and
/// otherwise gives the address at the chosen index, which `mark_used` binds
/// in the book. The book changes only in that last case.
pub open spec fn next_address_post(
    old_book: AddressBook,
    new_book: AddressBook,
    policy: Policy,
    chain: Chain,
    index: Option<UnhardenedIndex>,
    legacy: bool,
    mark_used: bool,
    r: Result<AddressDerivation, Failure>,
) -> bool {
    let exhausted = index.is_none() && no_unused(old_book.used@);
    &&& new_book.wf()
    &&& (r == Err::<AddressDerivation, Failure>(Failure::NoUnusedIndex)) <==> exhausted
    &&& (r == Err::<AddressDerivation, Failure>(Failure::CannotDeriveAddress)) <==> (!exhausted && exists|i: nat|
        #[trigger] chosen_index(index, old_book.used@, i) && address_at(policy, i, chain, legacy).is_none())
    &&& r is Err ==> (r == Err::<AddressDerivation, Failure>(Failure::NoUnusedIndex) || r == Err::<
        AddressDerivation,
        Failure,
    >(Failure::CannotDeriveAddress))
    &&& r is Ok <==> (!exhausted && exists|i: nat|
        #[trigger] chosen_index(index, old_book.used@, i) && address_at(policy, i, chain, legacy).is_some())
    &&& r is Ok ==> {
        let a = r->Ok_0;
        &&& a.derivation@.len() == 1
        &&& chosen_index(index, old_book.used@, a.derivation@[0]@)
        &&& address_at(policy, a.derivation@[0]@, chain, legacy) == Some(a.address@)
    }
    &&& (r is Err || !mark_used) ==> new_book == old_book
    &&& r is Ok && mark_used ==> {
        let a = r->Ok_0;
        &&& address_count(new_book.used@, a.address@) == 1
        &&& exists|k: int|
            0 <= k < new_book.used@.len() && (#[trigger] new_book.used@[k]).0@ == a.address@ && new_book.used@[k].1
                == a.derivation@[0]
        &&& address_count(old_book.used@, a.address@) == 0 ==> forall|j: nat|
            j <= a.derivation@[0]@ && index.is_none() ==> #[trigger] index_used(new_book.used@, j)
        &&& new_book.last_used.is_some() && new_book.last_used.unwrap()@ >= a.derivation@[0]@
        &&& forall|j: int|
            0 <= j < new_book.used@.len() ==> ((#[trigger] new_book.used@[j]).0@ == a.address@
                && new_book.used@[j].1 == a.derivation@[0]) || kept_entry(old_book.used@, new_book.used@[j], a.address@)
        &&& forall|k: int|
            0 <= k < old_book.used@.len() && (#[trigger] old_book.used@[k]).0@ != a.address@ ==> exists|j: int|
                0 <= j < new_book.used@.len() && new_book.used@[j] == old_book.used@[k]
        &&& new_book.used@.len() == old_book.used@.len() + if address_count(old_book.used@, a.address@) == 0 {
            1int
        } else {
            0
        }
    }
}

/// Gives an address of the contract: at `index`, or where it is `None`, at
/// the smallest index not in use. With `mark_used` the address is bound to
/// its index in `book`; otherwise `book` is left as it is.
pub fn next_address(
    book: &mut AddressBook,
    policy: &Policy,
    chain: &Chain,
    index: Option<UnhardenedIndex>,
    legacy: bool,
    mark_used: bool,
) -> (r: Result<AddressDerivation, Failure>)
    requires
        old(book).wf(),
    ensures
        next_address_post(*old(book), *final(book), *policy, *chain, index, legacy, mark_used, r),
{
    let i = match index {
        Some(i) => i,
        None => match book.next_unused_derivation() {
            Some(i) => i,
            None => {
                return Err(Failure::NoUnusedIndex);
            },
        },
    };
    let a = match policy.derive_address(i, chain, legacy) {
        Some(a) => a,
        None => {
            let ghost iv = i@;
            proof {
                if index.is_none() {
                    assert(!index_used(old(book).used@, i@));
                }
                assert(chosen_index(index, old(book).used@, iv));
                assert forall|k: nat| #[trigger] chosen_index(index, old(book).used@, k) implies address_at(
                    *policy,
                    k,
                    *chain,
                    legacy,
                ).is_none() by {
                    lemma_chosen_unique(index, old(book).used@, iv, k);
                }
            }
            return Err(Failure::CannotDeriveAddress);
        },
    };
    if mark_used {
        let ghost before = book.used@;
        book.use_address_derivation(a.address.clone(), i);
        proof {
            if address_count(before, a.address@) == 0 && index.is_none() {
                assert forall|j: nat| j <= i@ implies #[trigger] index_used(book.used@, j) by {
                    if j == i@ {
                        let k = choose|k: int|
                            0 <= k < book.used@.len() && (#[trigger] book.used@[k]).0@ == a.address@
                                && book.used@[k].1 == i;
                        assert(book.used@[k].1@ == j);
                    } else {
                        assert(index_used(before, j));
                        let k = choose|k: int| 0 <= k < before.len() && (#[trigger] before[k]).1@ == j;
                        lemma_absent_differs(before, a.address@, k);
                        let m = choose|m: int| 0 <= m < book.used@.len() && book.used@[m] == before[k];
                        assert(book.used@[m].1@ == j);
                    }
                }
            }
        }
    }
    proof {
        let iv = i@;
        assert(chosen_index(index, old(book).used@, iv));
        assert(address_at(*policy, iv, *chain, legacy).is_some());
        assert forall|k: nat| #[trigger] chosen_index(index, old(book).used@, k) implies address_at(
            *policy,
            k,
            *chain,
            legacy,
        ).is_some() by {
            lemma_chosen_unique(index, old(book).used@, iv, k);
        }
        if index.is_none() {
            assert(!index_used(old(book).used@, iv));
        }
    }
    Ok(a)
}

/// An address counted zero times differs from every entry's.
proof fn lemma_absent_differs(used: Seq<(String, UnhardenedIndex)>, address: Seq<char>, k: int)
    requires
        address_count(used, address) == 0,
        0 <= k < used.len(),
    ensures
        used[k].0@ != address,
    decreases used.len(),
{
    if k < used.len() - 1 {
        assert(used.drop_last()[k] == used[k]);
        lemma_absent_differs(used.drop_last(), address, k);
    }
}

/// The outpoint a contract can receive on blindly: the first of its
/// unspent outputs.
pub fn blind_utxo_outpoint(outpoints: &Vec<OutPoint>) -> (r: Result<OutPoint, Failure>)
    ensures
        outpoints@.len() == 0 <==> r == Err::<OutPoint, Failure>(Failure::NoUtxoAvailable),
        r is Ok ==> r->Ok_0@ == outpoints@[0]@,
{
    if outpoints.len() == 0 {
        Err(Failure::NoUtxoAvailable)
    } else {
        Ok(outpoints[0].duplicate())
    }
}

/// Whether `hash` is among `hashes`.
pub open spec fn hash_listed(hashes: Seq<Vec<u8>>, hash: Seq<u8>) -> bool {
    exists|k: int| 0 <= k < hashes.len() && (#[trigger] hashes[k])@ == hash
}

fn contains_hash(hashes: &Vec<Vec<u8>>, hash: &Vec<u8>) -> (r: bool)
    ensures
        r == hash_listed(hashes@, hash@),
{
    let mut k: usize = 0;
    while k < hashes.len()
        invariant
            0 <= k <= hashes@.len(),
            forall|j: int| 0 <= j < k ==> (#[trigger] hashes@[j])@ != hash@,
        decreases hashes@.len() - k,
    {
        if bytes_eq(&hashes[k], hash) {
            return true;
        }
        k = k + 1;
    }
    false
}

/// The reveals whose hash is among the endpoints of a received transfer,
/// in the order they are kept.
pub fn matching_reveals(hashes: &Vec<Vec<u8>>, reveals: &Vec<BlindingReveal>) -> (r: Vec<usize>)
    ensures
        forall|j: int| 0 <= j < r@.len() ==> r@[j] < reveals@.len() && hash_listed(hashes@, reveals@[r@[j] as int].hash@),
        forall|k: int|
            0 <= k < reveals@.len() && hash_listed(hashes@, (#[trigger] reveals@[k]).hash@) ==> r@.contains(k as usize),
        forall|a: int, b: int| 0 <= a < b < r@.len() ==> r@[a] < r@[b],
{
    let mut r: Vec<usize> = Vec::new();
    let mut k: usize = 0;
    while k < reveals.len()
        invariant
            0 <= k <= reveals@.len(),
            forall|j: int| 0 <= j < r@.len() ==> r@[j] < k && hash_listed(hashes@, reveals@[r@[j] as int].hash@),
            forall|i: int| 0 <= i < k && hash_listed(hashes@, (#[trigger] reveals@[i]).hash@) ==> r@.contains(i as usize),
            forall|a: int, b: int| 0 <= a < b < r@.len() ==> r@[a] < r@[b],
        decreases reveals@.len() - k,
    {
        if contains_hash(hashes, &reveals[k].hash) {
            let ghost before = r@;
            r.push(k);
            proof {
                assert(r@[before.len() as int] == k);
                assert forall|i: int| 0 <= i < k + 1 && hash_listed(hashes@, (#[trigger] reveals@[i]).hash@) implies r@.contains(
                    i as usize,
                ) by {
                    if i < k {
                        let j = choose|j: int| 0 <= j < before.len() && before[j] == i as usize;
                        assert(r@[j] == before[j]);
                    }
                }
            }
        }
        k = k + 1;
    }
    r
}

} // verus!

verus! {

/// The position of the contract with id `id`.
pub open spec fn index_of(contracts: Seq<Contract>, id: Seq<u8>) -> int {
    choose|k: int| 0 <= k < contracts.len() && (#[trigger] contracts[k]).id.bytes@ == id
}

/// With distinct ids, the contract with an id is at one position.
proof fn lemma_index_of(contracts: Seq<Contract>, id: Seq<u8>, k: int)
    requires
        0 <= k < contracts.len(),
        contracts[k].id.bytes@ == id,
        forall|a: int, b: int|
            0 <= a < b < contracts.len() ==> (#[trigger] contracts[a]).id.bytes@ != (#[trigger] contracts[b]).id.bytes@,
    ensures
        index_of(contracts, id) == k,
{
    let j = index_of(contracts, id);
    assert(0 <= j < contracts.len() && contracts[j].id.bytes@ == id);
    if j < k {
        assert(contracts[j].id.bytes@ != contracts[k].id.bytes@);
    } else if k < j {
        assert(contracts[k].id.bytes@ != contracts[j].id.bytes@);
    }
}

/// An address reply as the result of an address request.
pub open spec fn reply_result(r: Reply) -> Result<AddressDerivation, Failure> {
    match r {
        Reply::AddressDerivation(a) => Ok(a),
        Reply::Failure(f) => Err(f),
        _ => arbitrary(),
    }
}

/// A request of a client.
#[derive(Clone, Debug)]
pub enum Request {
    CreateSingleSig { category: ContentType, pubkey_chain: PubkeyChain, name: String },
    ListContracts,
    RenameContract { contract_id: ContractId, name: String },
    DeleteContract(ContractId),
    UsedAddresses(ContractId),
    NextAddress { contract_id: ContractId, index: Option<UnhardenedIndex>, legacy: bool, mark_used: bool },
    UnuseAddress { contract_id: ContractId, address: String },
}

/// The reply to a request.
#[derive(Clone, Debug)]
pub enum Reply {
    /// The id and name of a contract that was added.
    Contract(ContractId, String),
    /// The id, name, chain and policy type of each contract.
    Contracts(Vec<(ContractId, String, Chain, PolicyType)>),
    Addresses(Vec<AddressDerivation>),
    AddressDerivation(AddressDerivation),
    Success,
    /// No contract has the id of the request, or the contract exists already.
    UnknownContract,
    Failure(Failure),
}

/// The contracts of a wallet on one chain, and for each the addresses it
/// has marked used.
#[derive(Clone, Debug)]
pub struct Wallet {
    pub chain: Chain,
    pub store: ContractStore,
    /// One address book per contract, at the contract's position.
    pub books: Vec<AddressBook>,
}

impl Wallet {
    /// The store is well formed and each contract has a well-formed book.
    pub open spec fn wf(&self) -> bool {
        &&& self.store.wf()
        &&& self.books@.len() == self.store.contracts@.len()
        &&& forall|k: int| 0 <= k < self.books@.len() ==> (#[trigger] self.books@[k]).wf()
    }

    /// A wallet without contracts.
    pub fn new(chain: Chain) -> (r: Wallet)
        ensures
            r.wf(),
            r.chain == chain,
            r.store.contracts@.len() == 0,
    {
        Wallet { chain, store: ContractStore::new(), books: Vec::new() }
    }

    /// Adds a single-signature current contract on the wallet's chain,
    /// with an empty address book.
    #[verifier::rlimit(40)]
    pub fn create_single_sig(&mut self, category: ContentType, pubkey_chain: PubkeyChain, name: String) -> (r: Reply)
        requires
            old(self).wf(),
        ensures
            final(self).wf(),
            final(self).chain == old(self).chain,
            ({
                    let p = Policy::Current(ContractDescriptor::SingleSig { category, pk: pubkey_chain });
                    &&& r is Failure <==> !policy_encodable(p@)
                    &&& r is UnknownContract <==> (policy_encodable(p@) && has_id(
                        old(self).store.contracts@,
                        tagged_hash(contract_tag(), enc_policy(p@)),
                    ))
                    &&& r is Contract ==> {
                        &&& r->Contract_0.bytes@ == tagged_hash(contract_tag(), enc_policy(p@))
                        &&& r->Contract_1 == name
                        &&& final(self).store.contracts@.len() == old(self).store.contracts@.len() + 1
                        &&& final(self).store.contracts@.last().name == name
                        &&& final(self).store.contracts@.last().policy == p
                    }
                    &&& !(r is Contract) ==> final(self).store.contracts@ == old(self).store.contracts@
                        && final(self).books@ == old(self).books@
                    &&& r is Contract || r is UnknownContract || r is Failure
                    &&& r is Contract ==> final(self).store.contracts@ =~= old(self).store.contracts@.push(
                        final(self).store.contracts@.last(),
                    ) && final(self).books@.drop_last() =~= old(self).books@ && final(self).books@.last().used@.len()
                        == 0 && final(self).books@.last().last_used.is_none()
                            }),
    {
                let policy = Policy::Current(ContractDescriptor::SingleSig { category, pk: pubkey_chain });
        let contract = match Contract::with(policy, name, self.chain) {
            Some(c) => c,
            None => {
                return Reply::Failure(Failure::PolicyTooLarge);
            },
        };
        let name = contract.name.clone();
        let id_copy = ContractId { bytes: copy_bytes(&contract.id.bytes) };
        if self.store.add_contract(contract) {
            self.books.push(AddressBook::new());
            proof {
                assert(self.books@.drop_last() =~= old(self).books@);
                assert(self.store.contracts@.last() == self.store.contracts@[old(self).store.contracts@.len() as int]);
                assert forall|k: int| 0 <= k < self.books@.len() implies (#[trigger] self.books@[k]).wf() by {
                    if k < old(self).books@.len() {
                        assert(self.books@[k] == old(self).books@[k]);
                    }
                }
                assert(self.store.contracts@ == old(self).store.contracts@.push(self.store.contracts@.last()));
                assert(self.books@.last().used@.len() == 0);
                assert(self.books@.last().last_used.is_none());
            }
            Reply::Contract(id_copy, name)
        } else {
            Reply::UnknownContract
        }
                }

    /// Handles one request. Each request acts as the function it names:
    /// contracts are added, renamed and deleted in the store, addresses are
    /// given and bound in the contract's book.
    #[verifier::rlimit(60)]
    pub fn rpc_process(&mut self, request: Request) -> (r: Reply)
        requires
            old(self).wf(),
        ensures
            final(self).wf(),
            final(self).chain == old(self).chain,
            match request {
                Request::CreateSingleSig { category, pubkey_chain, name } => {
                    let p = Policy::Current(ContractDescriptor::SingleSig { category, pk: pubkey_chain });
                    &&& r is Failure <==> !policy_encodable(p@)
                    &&& r is UnknownContract <==> (policy_encodable(p@) && has_id(
                        old(self).store.contracts@,
                        tagged_hash(contract_tag(), enc_policy(p@)),
                    ))
                    &&& r is Contract ==> {
                        &&& r->Contract_0.bytes@ == tagged_hash(contract_tag(), enc_policy(p@))
                        &&& r->Contract_1 == name
                        &&& final(self).store.contracts@.len() == old(self).store.contracts@.len() + 1
                        &&& final(self).store.contracts@.last().name == name
                        &&& final(self).store.contracts@.last().policy == p
                    }
                    &&& !(r is Contract) ==> final(self).store.contracts@ == old(self).store.contracts@
                        && final(self).books@ == old(self).books@
                    &&& r is Contract || r is UnknownContract || r is Failure
                    &&& r is Contract ==> final(self).store.contracts@ =~= old(self).store.contracts@.push(
                        final(self).store.contracts@.last(),
                    ) && final(self).books@.drop_last() =~= old(self).books@ && final(self).books@.last().used@.len()
                        == 0 && final(self).books@.last().last_used.is_none()
                },
                Request::ListContracts => {
                    &&& r is Contracts
                    &&& r->Contracts_0@.len() == old(self).store.contracts@.len()
                    &&& forall|k: int|
                        0 <= k < r->Contracts_0@.len() ==> (#[trigger] r->Contracts_0@[k]).0.bytes@
                            == old(self).store.contracts@[k].id.bytes@ && r->Contracts_0@[k].1
                            == old(self).store.contracts@[k].name && r->Contracts_0@[k].2
                            == old(self).store.contracts@[k].chain && r->Contracts_0@[k].3 == policy_type_of(
                            old(self).store.contracts@[k].policy,
                        )
                    &&& *final(self) == *old(self)
                },
                Request::RenameContract { contract_id, name } => {
                    &&& r is Success <==> has_id(old(self).store.contracts@, contract_id.bytes@)
                    &&& r is Success || r is UnknownContract
                    &&& final(self).books@ == old(self).books@
                    &&& final(self).store.contracts@.len() == old(self).store.contracts@.len()
                    &&& forall|k: int|
                        0 <= k < final(self).store.contracts@.len() ==> if old(self).store.contracts@[k].id.bytes@
                            == contract_id.bytes@ {
                            (#[trigger] final(self).store.contracts@[k]).name == name
                                && final(self).store.contracts@[k].id == old(self).store.contracts@[k].id
                                && final(self).store.contracts@[k].policy == old(self).store.contracts@[k].policy
                        } else {
                            final(self).store.contracts@[k] == old(self).store.contracts@[k]
                        }
                },
                Request::DeleteContract(contract_id) => {
                    &&& r is Success <==> has_id(old(self).store.contracts@, contract_id.bytes@)
                    &&& r is Success || r is UnknownContract
                    &&& !has_id(final(self).store.contracts@, contract_id.bytes@)
                    &&& r is Success ==> final(self).store.contracts@.len() == old(self).store.contracts@.len() - 1
                    &&& r is UnknownContract ==> final(self).store.contracts@ == old(self).store.contracts@
                        && final(self).books@ == old(self).books@
                    &&& forall|k: int|
                        0 <= k < old(self).store.contracts@.len() && (#[trigger] old(self).store.contracts@[k]).id.bytes@
                            != contract_id.bytes@ ==> final(self).store.contracts@.contains(old(self).store.contracts@[k])
                },
                Request::UsedAddresses(contract_id) => {
                    &&& *final(self) == *old(self)
                    &&& r is Addresses <==> has_id(old(self).store.contracts@, contract_id.bytes@)
                    &&& r is Addresses || r is UnknownContract
                    &&& r is Addresses ==> {
                        let book = old(self).books@[index_of(old(self).store.contracts@, contract_id.bytes@)];
                        &&& r->Addresses_0@.len() == book.used@.len()
                        &&& forall|j: int|
                            0 <= j < r->Addresses_0@.len() ==> (#[trigger] r->Addresses_0@[j]).address@
                                == book.used@[j].0@ && r->Addresses_0@[j].derivation@ == seq![book.used@[j].1]
                    }
                },
                Request::NextAddress { contract_id, index, legacy, mark_used } => {
                    let k = index_of(old(self).store.contracts@, contract_id.bytes@);
                    &&& r is UnknownContract <==> !has_id(old(self).store.contracts@, contract_id.bytes@)
                    &&& r is AddressDerivation || r is Failure || r is UnknownContract
                    &&& final(self).store == old(self).store
                    &&& r is UnknownContract ==> final(self).books@ == old(self).books@
                    &&& !(r is UnknownContract) ==> {
                        &&& next_address_post(
                            old(self).books@[k],
                            final(self).books@[k],
                            old(self).store.contracts@[k].policy,
                            old(self).chain,
                            index,
                            legacy,
                            mark_used,
                            reply_result(r),
                        )
                        &&& final(self).books@ == old(self).books@.update(k, final(self).books@[k])
                    }
                },
                Request::UnuseAddress { contract_id, address } => {
                    let k = index_of(old(self).store.contracts@, contract_id.bytes@);
                    &&& r is Success <==> has_id(old(self).store.contracts@, contract_id.bytes@)
                    &&& r is Success || r is UnknownContract
                    &&& final(self).store == old(self).store
                    &&& r is UnknownContract ==> final(self).books@ == old(self).books@
                    &&& r is Success ==> {
                        &&& address_count(final(self).books@[k].used@, address@) == 0
                        &&& final(self).books@[k].last_used == old(self).books@[k].last_used
                        &&& forall|j: int|
                            0 <= j < old(self).books@[k].used@.len() && (#[trigger] old(self).books@[k].used@[j]).0@
                                != address@ ==> final(self).books@[k].used@.contains(old(self).books@[k].used@[j])
                        &&& final(self).books@ == old(self).books@.update(k, final(self).books@[k])
                    }
                },
            },
    {
        match request {
            Request::CreateSingleSig { category, pubkey_chain, name } => self.create_single_sig(category, pubkey_chain, name),
            Request::ListContracts => {
                let mut list: Vec<(ContractId, String, Chain, PolicyType)> = Vec::new();
                let mut k: usize = 0;
                while k < self.store.contracts.len()
                    invariant
                        0 <= k <= self.store.contracts@.len(),
                        list@.len() == k,
                        forall|j: int|
                            0 <= j < k ==> (#[trigger] list@[j]).0.bytes@ == self.store.contracts@[j].id.bytes@
                                && list@[j].1 == self.store.contracts@[j].name && list@[j].2
                                == self.store.contracts@[j].chain && list@[j].3 == policy_type_of(
                                self.store.contracts@[j].policy,
                            ),
                    decreases self.store.contracts@.len() - k,
                {
                    let c = &self.store.contracts[k];
                    list.push((ContractId { bytes: copy_bytes(&c.id.bytes) }, c.name.clone(), c.chain, c.policy.policy_type()));
                    k = k + 1;
                }
                Reply::Contracts(list)
            },
            Request::RenameContract { contract_id, name } => {
                if self.store.rename_contract(&contract_id, name) {
                    Reply::Success
                } else {
                    Reply::UnknownContract
                }
            },
            Request::DeleteContract(contract_id) => {
                match self.store.find(&contract_id) {
                    Some(k) => {
                        let ghost before = self.books@;
                        self.store.delete_contract(&contract_id);
                        self.books.remove(k);
                        proof {
                            assert forall|j: int| 0 <= j < self.books@.len() implies (#[trigger] self.books@[j]).wf() by {
                                let oj = if j < k { j } else { j + 1 };
                                assert(self.books@[j] == before[oj]);
                            }
                        }
                        Reply::Success
                    },
                    None => {
                        self.store.delete_contract(&contract_id);
                        Reply::UnknownContract
                    },
                }
            },
            Request::UsedAddresses(contract_id) => match self.store.find(&contract_id) {
                Some(k) => {
                    proof {
                        lemma_index_of(self.store.contracts@, contract_id.bytes@, k as int);
                    }
                    Reply::Addresses(self.books[k].used_address_derivations())
                },
                None => Reply::UnknownContract,
            },
            Request::NextAddress { contract_id, index, legacy, mark_used } => match self.store.find(&contract_id) {
                Some(k) => {
                    proof {
                        lemma_index_of(self.store.contracts@, contract_id.bytes@, k as int);
                    }
                    let chain = self.chain;
                    let ghost before = self.books@;
                    let mut book = AddressBook::new();
                    core::mem::swap(&mut book, &mut self.books[k]);
                    let r = next_address(&mut book, &self.store.contracts[k].policy, &chain, index, legacy, mark_used);
                    self.books.set(k, book);
                    proof {
                        assert(self.books@ == before.update(k as int, self.books@[k as int]));
                        assert forall|j: int| 0 <= j < self.books@.len() implies (#[trigger] self.books@[j]).wf() by {
                            if j != k {
                                assert(self.books@[j] == before[j]);
                            }
                        }
                    }
                    match r {
                        Ok(a) => Reply::AddressDerivation(a),
                        Err(f) => Reply::Failure(f),
                    }
                },
                None => Reply::UnknownContract,
            },
            Request::UnuseAddress { contract_id, address } => match self.store.find(&contract_id) {
                Some(k) => {
                    proof {
                        lemma_index_of(self.store.contracts@, contract_id.bytes@, k as int);
                    }
                    let ghost before = self.books@;
                    let mut book = AddressBook::new();
                    core::mem::swap(&mut book, &mut self.books[k]);
                    book.forget_address(&address);
                    self.books.set(k, book);
                    proof {
                        assert forall|j: int| 0 <= j < self.books@.len() implies (#[trigger] self.books@[j]).wf() by {
                            if j != k {
                                assert(self.books@[j] == before[j]);
                            }
                        }
                    }
                    Reply::Success
                },
                None => Reply::UnknownContract,
            },
        }
    }
}

} // verus!
