use bitcoin::blockdata::opcodes::all::OP_CHECKMULTISIG;
use bitcoin::blockdata::script::Builder;
use citadel::model::Utxo;
use citadel::transfer::psbt_input;
use bitcoin::secp256k1::Secp256k1;
use bitcoin::util::bip32::{ChildNumber, ExtendedPrivKey, ExtendedPubKey};
use bitcoin::Network;
use citadel::chain::Chain;
use citadel::encoding::{decode_policy, encode_policy};
use citadel::index::UnhardenedIndex;
use citadel::policy::{
    ChannelDescriptor, ContentType, ContractDescriptor, DescriptorType, Policy, PolicyType, PubkeyChain, ScriptShape,
    TerminalStep,
};

fn xpub(seed: u8) -> ExtendedPubKey {
    let secp = Secp256k1::new();
    let xpriv = ExtendedPrivKey::new_master(Network::Testnet, &[seed; 32]).unwrap();
    ExtendedPubKey::from_private(&secp, &xpriv)
}

fn key_chain(seed: u8) -> PubkeyChain {
    PubkeyChain {
        master: None,
        source_path: vec![],
        branch_xpub: xpub(seed).encode().to_vec(),
        terminal_path: vec![TerminalStep::Index(0), TerminalStep::Wildcard],
    }
}

fn expected_key(seed: u8, index: u32) -> bitcoin::PublicKey {
    let secp = Secp256k1::verification_only();
    let path = [ChildNumber::from_normal_idx(0).unwrap(), ChildNumber::from_normal_idx(index).unwrap()];
    xpub(seed).derive_pub(&secp, &path).unwrap().public_key
}

fn single_sig(category: ContentType) -> Policy {
    Policy::Current(ContractDescriptor::SingleSig { category, pk: key_chain(1) })
}

fn multi_sig(category: ContentType, sorted: bool) -> Policy {
    Policy::Saving(ContractDescriptor::MultiSig {
        category,
        threshold: 2,
        signers: vec![key_chain(1), key_chain(2), key_chain(3)],
        sorted,
    })
}

fn idx(i: u32) -> UnhardenedIndex {
    UnhardenedIndex::from_index(i).unwrap()
}

#[test]
fn policy_types_and_scripting() {
    let current = single_sig(ContentType::SegWit);
    assert_eq!(current.policy_type(), PolicyType::Current);
    assert!(!current.is_scripted());
    assert!(current.has_witness());
    let saving = multi_sig(ContentType::Hashed, false);
    assert_eq!(saving.policy_type(), PolicyType::Saving);
    assert!(saving.is_scripted());
    assert!(!saving.has_witness());
    let instant = Policy::Instant(ChannelDescriptor { channel_id: vec![1; 32], peers: vec![] });
    assert_eq!(instant.policy_type(), PolicyType::Instant);
    assert!(instant.is_scripted());
    assert!(instant.has_witness());
    assert!(instant.to_descriptor().is_none());
    assert!(instant.derive_script(idx(0)).is_none());
    assert_eq!(PolicyType::Saving.name(), "saving");
}

#[test]
fn descriptor_kinds_follow_category() {
    assert_eq!(single_sig(ContentType::Bare).to_descriptor().unwrap().shape.desc_type(), DescriptorType::Bare);
    assert_eq!(single_sig(ContentType::Hashed).to_descriptor().unwrap().shape.desc_type(), DescriptorType::Pkh);
    assert_eq!(multi_sig(ContentType::Hashed, true).to_descriptor().unwrap().shape.desc_type(), DescriptorType::ShSortedMulti);
    assert_eq!(multi_sig(ContentType::SegWit, false).to_descriptor().unwrap().shape.desc_type(), DescriptorType::Wsh);
    assert!(!single_sig(ContentType::Hashed).has_witness());
    assert!(multi_sig(ContentType::SegWit, true).has_witness());
}

#[test]
fn legacy_form_nests_segwit() {
    let p = single_sig(ContentType::SegWit);
    assert_eq!(p.derive_descriptor(idx(0), true).unwrap().shape, ScriptShape::ShWpkh);
    assert_eq!(p.derive_descriptor(idx(0), false).unwrap().shape, ScriptShape::Wpkh);
    let m = multi_sig(ContentType::SegWit, true);
    assert_eq!(m.derive_descriptor(idx(0), true).unwrap().shape, ScriptShape::ShSortedMulti);
    let u = multi_sig(ContentType::SegWit, false);
    assert_eq!(u.derive_descriptor(idx(0), true).unwrap().shape, ScriptShape::ShWshMulti);
}

#[test]
fn derived_key_matches_bip32() {
    let chain = key_chain(1);
    let key = chain.derive_pubkey(idx(7)).unwrap();
    assert_eq!(key, expected_key(1, 7).to_bytes());
    assert_ne!(key, chain.derive_pubkey(idx(8)).unwrap());
}

#[test]
fn descriptor_text_is_readable() {
    let d = single_sig(ContentType::SegWit).derive_descriptor(idx(2), false).unwrap();
    let text = String::from_utf8(d.to_text()).unwrap();
    assert_eq!(text, format!("wpkh({})", expected_key(1, 2)));
    let m = multi_sig(ContentType::SegWit, true).derive_descriptor(idx(2), false).unwrap();
    let text = String::from_utf8(m.to_text()).unwrap();
    assert_eq!(
        text,
        format!("wsh(sortedmulti(2,{},{},{}))", expected_key(1, 2), expected_key(2, 2), expected_key(3, 2))
    );
}

#[test]
fn scripts_match_wpkh() {
    let p = single_sig(ContentType::SegWit);
    let scripts = p.derive_scripts(idx(3), idx(6)).unwrap();
    assert_eq!(scripts.len(), 3);
    for (k, (i, script)) in scripts.iter().enumerate() {
        assert_eq!(i.index(), 3 + k as u32);
        let expected = bitcoin::Address::p2wpkh(&expected_key(1, 3 + k as u32), Network::Testnet).unwrap().script_pubkey();
        assert_eq!(script, &expected.to_bytes());
    }
    assert_eq!(p.derive_scripts(idx(6), idx(6)).unwrap().len(), 0);
}

#[test]
fn address_derivation() {
    let p = single_sig(ContentType::SegWit);
    let a = p.derive_address(idx(4), &Chain::Testnet3, false).unwrap();
    assert_eq!(a.address, bitcoin::Address::p2wpkh(&expected_key(1, 4), Network::Testnet).unwrap().to_string());
    assert_eq!(a.derivation.len(), 1);
    assert_eq!(a.derivation[0].index(), 4);
    let legacy = p.derive_address(idx(4), &Chain::Testnet3, true).unwrap();
    assert_eq!(legacy.address, bitcoin::Address::p2shwpkh(&expected_key(1, 4), Network::Testnet).unwrap().to_string());
    assert!(p.derive_address(idx(4), &Chain::LiquidV1, false).is_none());
    assert!(single_sig(ContentType::Bare).derive_address(idx(4), &Chain::Mainnet, false).is_none());
}

#[test]
fn first_public_key_and_origins() {
    let m = multi_sig(ContentType::SegWit, false);
    assert_eq!(m.first_public_key(idx(9)).unwrap(), expected_key(1, 9).to_bytes());
    let origins = m.bip32_derivations(idx(9)).unwrap();
    assert_eq!(origins.len(), 3);
    assert_eq!(origins[1].pubkey, expected_key(2, 9).to_bytes());
    assert_eq!(origins[1].fingerprint, xpub(2).fingerprint().as_bytes().to_vec());
    assert_eq!(origins[1].path, vec![0, 9]);
    assert_eq!(m.pubkey_chains().len(), 3);
}

#[test]
fn origins_use_master_where_known() {
    let mut chain = key_chain(4);
    chain.master = Some(vec![0xde, 0xad, 0xbe, 0xef]);
    chain.source_path = vec![0x8000_0054, 0x8000_0001];
    let d = chain.bip32_derivation(idx(5)).unwrap();
    assert_eq!(d.fingerprint, vec![0xde, 0xad, 0xbe, 0xef]);
    assert_eq!(d.path, vec![0x8000_0054, 0x8000_0001, 0, 5]);
}

#[test]
fn bad_key_derives_nothing() {
    let mut chain = key_chain(1);
    chain.branch_xpub = vec![1, 2, 3];
    let p = Policy::Current(ContractDescriptor::SingleSig { category: ContentType::SegWit, pk: chain });
    assert!(p.derive_script(idx(0)).is_none());
    assert!(p.derive_scripts(idx(0), idx(2)).is_none());
    assert!(p.first_public_key(idx(0)).is_none());
}

#[test]
fn policy_encoding_round_trip() {
    for p in [
        single_sig(ContentType::SegWit),
        multi_sig(ContentType::Hashed, true),
        Policy::Instant(ChannelDescriptor { channel_id: vec![9; 32], peers: vec![b"127.0.0.1:9735".to_vec()] }),
    ] {
        let bytes = encode_policy(&p).unwrap();
        let back = decode_policy(&bytes).unwrap();
        assert_eq!(encode_policy(&back).unwrap(), bytes);
        let mut longer = bytes.clone();
        longer.push(0);
        assert!(decode_policy(&longer).is_none());
        assert!(decode_policy(&bytes[..bytes.len() - 1].to_vec()).is_none());
    }
}

#[test]
fn policy_encoding_layout() {
    let p = Policy::Instant(ChannelDescriptor { channel_id: vec![7, 8], peers: vec![vec![65]] });
    assert_eq!(encode_policy(&p).unwrap(), vec![1, 2, 0, 7, 8, 1, 0, 1, 0, 65]);
    assert!(decode_policy(&vec![3]).is_none());
}

#[test]
fn multisig_spend_reveals_witness_script() {
    let p = multi_sig(ContentType::SegWit, true);
    let utxo = Utxo {
        value: 1,
        height: 1,
        offset: 0,
        txid: vec![1; 32],
        vout: 0,
        derivation_index: idx(4),
        tweak: Some((vec![3; 32], vec![2; 33])),
        address: None,
    };
    let input = psbt_input(&p, &utxo).unwrap();
    let mut keys: Vec<Vec<u8>> = (1..=3).map(|seed| expected_key(seed, 4).to_bytes()).collect();
    keys.sort();
    let mut builder = Builder::new().push_int(2);
    for key in &keys {
        builder = builder.push_slice(key);
    }
    let expected = builder.push_int(3).push_opcode(OP_CHECKMULTISIG).into_script();
    assert_eq!(input.witness_script, Some(expected.to_bytes()));
    assert!(input.redeem_script.is_none());
    assert_eq!(input.bip32_derivation.len(), 3);
    assert_eq!(input.p2c_tweak, Some((vec![3; 32], vec![2; 33])));
    let legacy = multi_sig(ContentType::Hashed, false);
    let input = psbt_input(&legacy, &utxo).unwrap();
    assert!(input.witness_script.is_none());
    assert!(input.redeem_script.is_some());
}

#[test]
fn deepest_key_derives_nothing() {
    let mut chain = key_chain(1);
    chain.branch_xpub[4] = 255;
    assert!(chain.derive_pubkey(idx(0)).is_none());
    chain.branch_xpub[4] = 253;
    assert!(chain.derive_pubkey(idx(0)).is_some());
    chain.branch_xpub[4] = 254;
    assert!(chain.derive_pubkey(idx(0)).is_none());
}
