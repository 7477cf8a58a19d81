use bitcoin::hashes::sha256;
use bitcoin::secp256k1::Secp256k1;
use bitcoin::util::bip32::{ExtendedPrivKey, ExtendedPubKey};
use bitcoin::Network;
use citadel::cache::AddressBook;
use citadel::chain::Chain;
use citadel::encoding::encode_policy;
use citadel::ids::{ContractId, ContractIdTag};
use citadel::index::UnhardenedIndex;
use citadel::model::{BlindingReveal, OutPoint};
use citadel::policy::{ContentType, ContractDescriptor, Policy, PubkeyChain, TerminalStep};
use citadel::rpc::{blind_utxo_outpoint, matching_reveals, next_address, Failure, Reply, Request, Wallet};
use citadel::storage::{Contract, ContractStore};

fn policy(seed: u8) -> Policy {
    let secp = Secp256k1::new();
    let xpriv = ExtendedPrivKey::new_master(Network::Testnet, &[seed; 32]).unwrap();
    let xpub = ExtendedPubKey::from_private(&secp, &xpriv);
    Policy::Current(ContractDescriptor::SingleSig {
        category: ContentType::SegWit,
        pk: PubkeyChain {
            master: None,
            source_path: vec![],
            branch_xpub: xpub.encode().to_vec(),
            terminal_path: vec![TerminalStep::Index(0), TerminalStep::Wildcard],
        },
    })
}

fn tagged(msg: &[u8]) -> Vec<u8> {
    let tag = <sha256::Hash as bitcoin::hashes::Hash>::hash(b"citadel:contract");
    let mut data = tag.to_vec();
    data.extend_from_slice(&tag);
    data.extend_from_slice(msg);
    <sha256::Hash as bitcoin::hashes::Hash>::hash(&data).to_vec()
}

#[test]
fn tagged_hash_of_empty_payload() {
    assert_eq!(ContractIdTag::tag(), b"citadel:contract".to_vec());
    let prefix = ContractIdTag::engine_prefix();
    let tag = <sha256::Hash as bitcoin::hashes::Hash>::hash(b"citadel:contract").to_vec();
    assert_eq!(prefix[..32].to_vec(), tag);
    assert_eq!(prefix[32..].to_vec(), tag);
    assert_eq!(ContractId::commit(&vec![]).bytes, tagged(&[]));
}

#[test]
fn contract_id_is_tagged_hash_of_encoding() {
    let p = policy(1);
    let id = p.id().unwrap();
    assert_eq!(id.bytes, tagged(&encode_policy(&p).unwrap()));
    assert_eq!(id.bytes.len(), 32);
    assert!(id.same(&policy(1).id().unwrap()));
    assert!(!id.same(&policy(2).id().unwrap()));
}

#[test]
fn contract_creation() {
    let mut store = ContractStore::new();
    let contract = Contract::with(policy(1), "wallet-A".to_string(), Chain::Testnet3).unwrap();
    let id = contract.id.clone();
    assert_eq!(id.bytes, policy(1).id().unwrap().bytes);
    assert!(store.add_contract(contract.clone()));
    assert!(!store.add_contract(contract));
    assert_eq!(store.contracts.len(), 1);
    assert!(store.rename_contract(&id, "wallet-B".to_string()));
    assert_eq!(store.contracts.len(), 1);
    assert_eq!(store.contracts[0].name, "wallet-B");
    assert!(store.delete_contract(&id));
    assert!(store.contracts.is_empty());
    assert!(!store.delete_contract(&id));
}

#[test]
fn address_derivation_and_reuse() {
    let p = policy(1);
    let mut book = AddressBook::new();
    let first = next_address(&mut book, &p, &Chain::Testnet3, None, false, true).unwrap();
    let second = next_address(&mut book, &p, &Chain::Testnet3, None, false, true).unwrap();
    assert_eq!(first.derivation[0].index(), 0);
    assert_eq!(second.derivation[0].index(), 1);
    assert_ne!(first.address, second.address);
    let used = book.used_address_derivations();
    assert_eq!(used.len(), 2);
    assert_eq!(used.iter().filter(|a| a.address == first.address).count(), 1);
    assert_eq!(used.iter().filter(|a| a.address == second.address).count(), 1);
    let peek = next_address(&mut book, &p, &Chain::Testnet3, None, false, false).unwrap();
    assert!(peek.derivation[0].index() >= 1);
    assert_eq!(book.used_address_derivations().len(), 2);
    book.forget_address(&first.address);
    let again = next_address(&mut book, &p, &Chain::Testnet3, None, false, true).unwrap();
    assert_eq!(again.address, first.address);
    assert_eq!(again.derivation[0].index(), 0);
    assert_eq!(book.last_used_derivation().unwrap().index(), 1);
}

#[test]
fn explicit_index_and_failures() {
    let p = policy(1);
    let mut book = AddressBook::new();
    let at = next_address(&mut book, &p, &Chain::Testnet3, UnhardenedIndex::from_index(9), true, false).unwrap();
    assert_eq!(at.derivation[0].index(), 9);
    assert!(book.used.is_empty());
    let r = next_address(&mut book, &p, &Chain::LiquidV1, None, false, true);
    assert_eq!(r.err(), Some(Failure::CannotDeriveAddress));
    assert!(book.used.is_empty());
    assert_eq!(Failure::NoUtxoAvailable.info(), "No UTXO available");
}

#[test]
fn blind_utxo_takes_first_outpoint() {
    assert_eq!(blind_utxo_outpoint(&vec![]).err(), Some(Failure::NoUtxoAvailable));
    let ops = vec![OutPoint { txid: vec![1; 32], vout: 3 }, OutPoint { txid: vec![2; 32], vout: 0 }];
    let op = blind_utxo_outpoint(&ops).unwrap();
    assert_eq!(op.txid, vec![1; 32]);
    assert_eq!(op.vout, 3);
}

#[test]
fn reveals_matching_endpoints() {
    let reveal = |h: u8| BlindingReveal { hash: vec![h; 32], outpoint: OutPoint { txid: vec![h; 32], vout: 0 }, blinding: h as u64 };
    let reveals = vec![reveal(1), reveal(2), reveal(3)];
    assert_eq!(matching_reveals(&vec![vec![3; 32], vec![1; 32], vec![9; 32]], &reveals), vec![0, 2]);
    assert!(matching_reveals(&vec![], &reveals).is_empty());
}

fn chain_of(seed: u8) -> PubkeyChain {
    match policy(seed) {
        Policy::Current(ContractDescriptor::SingleSig { pk, .. }) => pk,
        _ => unreachable!(),
    }
}

#[test]
fn requests_manage_contracts_and_addresses() {
    let mut wallet = Wallet::new(Chain::Testnet3);
    let created = wallet.rpc_process(Request::CreateSingleSig {
        category: ContentType::SegWit,
        pubkey_chain: chain_of(1),
        name: "wallet-A".to_string(),
    });
    let id = match created {
        Reply::Contract(id, name) => {
            assert_eq!(name, "wallet-A");
            id
        }
        _ => panic!("contract expected"),
    };
    assert_eq!(id.bytes, policy(1).id().unwrap().bytes);
    match wallet.rpc_process(Request::ListContracts) {
        Reply::Contracts(list) => {
            assert_eq!(list.len(), 1);
            assert_eq!(list[0].2, Chain::Testnet3);
            assert_eq!(list[0].3, citadel::policy::PolicyType::Current);
        }
        _ => panic!("list expected"),
    }
    assert!(matches!(
        wallet.rpc_process(Request::RenameContract { contract_id: id.clone(), name: "wallet-B".to_string() }),
        Reply::Success
    ));
    match wallet.rpc_process(Request::ListContracts) {
        Reply::Contracts(list) => assert_eq!(list[0].1, "wallet-B"),
        _ => panic!("list expected"),
    }
    let next = Request::NextAddress { contract_id: id.clone(), index: None, legacy: false, mark_used: true };
    let first = match wallet.rpc_process(next.clone()) {
        Reply::AddressDerivation(a) => a,
        _ => panic!("address expected"),
    };
    let second = match wallet.rpc_process(next.clone()) {
        Reply::AddressDerivation(a) => a,
        _ => panic!("address expected"),
    };
    assert_eq!(first.derivation[0].index(), 0);
    assert_eq!(second.derivation[0].index(), 1);
    match wallet.rpc_process(Request::UsedAddresses(id.clone())) {
        Reply::Addresses(list) => assert_eq!(list.len(), 2),
        _ => panic!("addresses expected"),
    }
    assert!(matches!(
        wallet.rpc_process(Request::UnuseAddress { contract_id: id.clone(), address: first.address.clone() }),
        Reply::Success
    ));
    match wallet.rpc_process(next) {
        Reply::AddressDerivation(a) => assert_eq!(a.address, first.address),
        _ => panic!("address expected"),
    }
    assert!(matches!(wallet.rpc_process(Request::DeleteContract(id.clone())), Reply::Success));
    assert!(matches!(wallet.rpc_process(Request::DeleteContract(id.clone())), Reply::UnknownContract));
    match wallet.rpc_process(Request::ListContracts) {
        Reply::Contracts(list) => assert!(list.is_empty()),
        _ => panic!("list expected"),
    }
}
