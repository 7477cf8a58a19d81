use bitcoin::secp256k1::Secp256k1;
use bitcoin::util::bip32::{ChildNumber, ExtendedPrivKey, ExtendedPubKey};
use bitcoin::Network;
use citadel::cache::AddressBook;
use citadel::chain::Chain;
use citadel::index::UnhardenedIndex;
use citadel::model::Utxo;
use citadel::policy::{ContentType, ContractDescriptor, Policy, PubkeyChain, TerminalStep};
use citadel::transfer::{
    compose_transfer, extract_tweaks, finish_transfer, order_by_value_desc, outgoing_record, output_pubkey,
    prepare_transfer, psbt_input, select_coins, RgbReceiver, SealDefinition, SealEndpoint, TransferError,
    TransferInfo, TxOutputPlan, WitnessOutput,
};

fn xpub() -> ExtendedPubKey {
    let secp = Secp256k1::new();
    let xpriv = ExtendedPrivKey::new_master(Network::Testnet, &[1u8; 32]).unwrap();
    ExtendedPubKey::from_private(&secp, &xpriv)
}

fn expected_key(index: u32) -> bitcoin::PublicKey {
    let secp = Secp256k1::verification_only();
    let path = [ChildNumber::from_normal_idx(0).unwrap(), ChildNumber::from_normal_idx(index).unwrap()];
    xpub().derive_pub(&secp, &path).unwrap().public_key
}

fn policy() -> Policy {
    Policy::Current(ContractDescriptor::SingleSig {
        category: ContentType::SegWit,
        pk: PubkeyChain {
            master: None,
            source_path: vec![],
            branch_xpub: xpub().encode().to_vec(),
            terminal_path: vec![TerminalStep::Index(0), TerminalStep::Wildcard],
        },
    })
}

fn idx(i: u32) -> UnhardenedIndex {
    UnhardenedIndex::from_index(i).unwrap()
}

fn utxo(txid: u8, vout: u16, value: u64, index: u32) -> Utxo {
    Utxo {
        value,
        height: 100,
        offset: 1,
        txid: vec![txid; 32],
        vout,
        derivation_index: idx(index),
        tweak: None,
        address: None,
    }
}

fn book_with_used(n: u32) -> AddressBook {
    let mut book = AddressBook::new();
    for i in 0..n {
        book.use_address_derivation(format!("used-{}", i), idx(i));
    }
    book
}

fn payee() -> Vec<u8> {
    vec![0x00, 0x14, 7, 7, 7, 7, 7, 7, 7, 7, 7, 7, 7, 7, 7, 7, 7, 7, 7, 7, 7, 7]
}

#[test]
fn coins_ordered_by_value() {
    let coins = vec![utxo(1, 0, 5, 0), utxo(2, 0, 9, 0), utxo(3, 0, 5, 0), utxo(4, 0, 1, 0)];
    assert_eq!(order_by_value_desc(&coins), vec![1, 2, 0, 3]);
}

#[test]
fn greedy_selection_notes_change_candidate() {
    let coins = vec![utxo(1, 0, 50, 0), utxo(2, 0, 0, 0), utxo(3, 0, 30, 0), utxo(4, 0, 20, 0)];
    let order = order_by_value_desc(&coins);
    let sel = select_coins(&coins, &order, 70);
    assert_eq!(sel.chosen, vec![0, 2]);
    assert_eq!(sel.amount, 80);
    let candidate = sel.change_candidate.unwrap();
    assert_eq!(candidate.txid, vec![4; 32]);
    let none = select_coins(&coins, &order, 101);
    assert_eq!(none.amount, 100);
    assert!(none.change_candidate.is_none());
}

#[test]
fn bitcoin_transfer_composition() {
    let coin = utxo(0xaa, 1, 100_000, 3);
    let coins = vec![coin.clone()];
    let mut book = book_with_used(4);
    let info = TransferInfo::BitcoinPayment { script: payee() };
    let plan = compose_transfer(&mut book, &policy(), &Chain::Testnet3, &coins, &coins, 30_000, 1_000, &info, 11, 12)
        .unwrap();
    assert_eq!(plan.inputs.len(), 1);
    assert_eq!(plan.inputs[0].txid, vec![0xaa; 32]);
    assert_eq!(plan.inputs[0].vout, 1);
    assert_eq!(plan.outputs.len(), 2);
    assert_eq!(plan.outputs[0].value, 30_000);
    assert_eq!(plan.outputs[0].script, payee());
    assert_eq!(plan.outputs[1].value, 69_000);
    let change_index = plan.outputs[1].derivation_index.unwrap();
    assert!(change_index.index() >= 4);
    let expected = bitcoin::Address::p2wpkh(&expected_key(change_index.index()), Network::Testnet).unwrap();
    assert_eq!(plan.outputs[1].script, expected.script_pubkey().to_bytes());
    assert_eq!(plan.change_vout, Some(1));
    assert!(plan.rgb_change.is_none());
    assert!(book.is_index_used(change_index));
    let total: u64 = plan.outputs.iter().map(|o| o.value).sum();
    assert_eq!(total as u128 + 1_000, plan.bitcoin_input_amount);
    match &plan.rgb_endpoint {
        SealEndpoint::TxOutpoint(hash) => assert_eq!(hash, &vec![0u8; 32]),
        _ => panic!("bitcoin payments carry no asset endpoint"),
    }

    let input = psbt_input(&policy(), &coin).unwrap();
    assert_eq!(input.outpoint.txid, vec![0xaa; 32]);
    assert_eq!(input.bip32_derivation.len(), 1);
    assert_eq!(input.bip32_derivation[0].pubkey, expected_key(3).to_bytes());
    assert!(input.witness_script.is_none());
    assert!(input.redeem_script.is_none());
    let label = output_pubkey(&policy(), &plan.outputs[1]).unwrap();
    assert_eq!(label, expected_key(change_index.index()).to_bytes());
    assert!(output_pubkey(&policy(), &plan.outputs[0]).is_none());

    let record = outgoing_record(&plan);
    assert!(!record.published);
    assert_eq!(record.bitcoin_change, 69_000);
    assert_eq!(record.asset_change, 69_000);
    assert_eq!(record.change_outputs, vec![1]);
    assert_eq!(record.output_derivation_indexes.len(), 1);
}

#[test]
fn insufficient_bitcoin() {
    let coins = vec![utxo(1, 0, 10_000, 0)];
    let mut book = AddressBook::new();
    let info = TransferInfo::BitcoinPayment { script: payee() };
    let r = compose_transfer(&mut book, &policy(), &Chain::Testnet3, &coins, &coins, 9_500, 1_000, &info, 1, 2);
    assert_eq!(r.err(), Some(TransferError::InsufficientFunds { bitcoin_only: true }));
    assert_eq!(book.used.len(), 0);
}

#[test]
fn rgb_blind_utxo_transfer() {
    let coins = vec![utxo(1, 0, 300, 5), utxo(2, 1, 200, 6)];
    let btc = vec![utxo(1, 0, 1_000, 5), utxo(2, 1, 1_000, 6), utxo(3, 0, 50_000, 7)];
    let mut book = book_with_used(8);
    let info = TransferInfo::Rgb { contract_id: vec![0x11; 32], receiver: RgbReceiver::BlindUtxo(vec![0x22; 32]) };
    let plan =
        compose_transfer(&mut book, &policy(), &Chain::Testnet3, &coins, &btc, 120, 500, &info, 41, 42).unwrap();
    assert_eq!(plan.inputs.len(), 1);
    assert_eq!(plan.inputs[0].value, 300);
    assert_eq!(plan.asset_input_amount, 300);
    assert_eq!(plan.bitcoin_input_amount, 1_000);
    assert_eq!(plan.bitcoin_change, 500);
    assert_eq!(plan.outputs.len(), 1);
    match &plan.rgb_endpoint {
        SealEndpoint::TxOutpoint(hash) => assert_eq!(hash, &vec![0x22; 32]),
        _ => panic!("a blind receiver is an outpoint"),
    }
    match &plan.rgb_change {
        Some((SealDefinition::TxOutpoint { txid, vout, blinding }, amount)) => {
            assert_eq!(txid, &vec![2; 32]);
            assert_eq!(*vout, 1);
            assert_eq!(*blinding, 42);
            assert_eq!(*amount, 180);
        }
        _ => panic!("asset change goes to the coin left over"),
    }
    let record = outgoing_record(&plan);
    assert_eq!(record.asset_change, 180);
    assert_eq!(record.asset_volume, 300);
}

#[test]
fn rgb_change_without_place_fails() {
    let coins = vec![utxo(1, 0, 300, 5)];
    let btc = vec![utxo(1, 0, 500, 5)];
    let info = TransferInfo::Rgb { contract_id: vec![0x11; 32], receiver: RgbReceiver::BlindUtxo(vec![0x22; 32]) };
    let draft = prepare_transfer(&coins, &btc, 100, 500, &info, 1).unwrap();
    assert_eq!(draft.bitcoin_change, 0);
    assert_eq!(finish_transfer(draft, None, 2).err(), Some(TransferError::CannotAllocateRgbChange));
}

#[test]
fn rgb_change_goes_to_bitcoin_change_output() {
    let coins = vec![utxo(1, 0, 300, 5)];
    let btc = vec![utxo(1, 0, 5_000, 5)];
    let info = TransferInfo::Rgb {
        contract_id: vec![0x11; 32],
        receiver: RgbReceiver::Descriptor { script: payee(), giveaway: 1_000 },
    };
    let draft = prepare_transfer(&coins, &btc, 100, 500, &info, 9).unwrap();
    assert_eq!(draft.giveaway, Some(1_000));
    assert_eq!(draft.bitcoin_change, 3_500);
    match draft.rgb_endpoint {
        SealEndpoint::WitnessVout { vout, blinding } => {
            assert_eq!(vout, 0);
            assert_eq!(blinding, 9);
        }
        _ => panic!("a descriptor receiver is paid in the witness transaction"),
    }
    assert_eq!(finish_transfer(draft.clone(), None, 3).err(), Some(TransferError::CannotDeriveAddress));
    let plan = finish_transfer(draft, Some((idx(12), vec![0x51])), 3).unwrap();
    assert_eq!(plan.outputs.len(), 2);
    assert_eq!(plan.outputs[1].value, 3_500);
    match &plan.rgb_change {
        Some((SealDefinition::WitnessVout { vout, blinding }, amount)) => {
            assert_eq!(*vout, 1);
            assert_eq!(*blinding, 3);
            assert_eq!(*amount, 200);
        }
        _ => panic!("asset change goes to the bitcoin change output"),
    }
}

#[test]
fn tweaks_are_extracted_from_wallet_outputs() {
    let key = expected_key(3).to_bytes();
    let witness = vec![
        WitnessOutput { script: vec![1], pubkey: Some(key.clone()), tweak: Some(vec![5; 32]) },
        WitnessOutput { script: vec![2], pubkey: Some(key.clone()), tweak: Some(vec![6; 32]) },
        WitnessOutput { script: vec![3], pubkey: Some(vec![5; 33]), tweak: Some(vec![7; 32]) },
        WitnessOutput { script: vec![4], pubkey: Some(key.clone()), tweak: Some(vec![8; 31]) },
    ];
    let outputs = vec![
        TxOutputPlan { value: 1, script: vec![1], derivation_index: None },
        TxOutputPlan { value: 2, script: vec![2], derivation_index: Some(idx(5)) },
        TxOutputPlan { value: 3, script: vec![3], derivation_index: Some(idx(6)) },
        TxOutputPlan { value: 4, script: vec![4], derivation_index: Some(idx(7)) },
    ];
    let tweaks = extract_tweaks(&vec![0xcc; 32], &witness, &outputs);
    assert_eq!(tweaks.len(), 1);
    assert_eq!(tweaks[0].outpoint.vout, 1);
    assert_eq!(tweaks[0].outpoint.txid, vec![0xcc; 32]);
    assert_eq!(tweaks[0].script, vec![2]);
    assert_eq!(tweaks[0].tweak, vec![6; 32]);
    assert_eq!(tweaks[0].pubkey, key);
    assert_eq!(tweaks[0].derivation_index.index(), 5);
}
