use citadel::operations::{decode_operation, encode_operation, Operation};
use citadel::transfer::OutgoingRecord;
use citadel::chain::Chain;
use citadel::policy::{ChannelDescriptor, Policy};
use citadel::index::UnhardenedIndex;
use citadel::model::Utxo;
use citadel::records::{decode_utxo, encode_utxo};

fn sample(tweak: bool, address: Option<&str>) -> Utxo {
    Utxo {
        value: 0x0102_0304_0506_0708,
        height: 700_000,
        offset: 42,
        txid: vec![0xab; 32],
        vout: 3,
        derivation_index: UnhardenedIndex::from_index(17).unwrap(),
        tweak: if tweak { Some((vec![1; 32], vec![2; 33])) } else { None },
        address: address.map(|a| a.to_string()),
    }
}

fn same(a: &Utxo, b: &Utxo) -> bool {
    a.value == b.value
        && a.height == b.height
        && a.offset == b.offset
        && a.txid == b.txid
        && a.vout == b.vout
        && a.derivation_index == b.derivation_index
        && a.tweak == b.tweak
        && a.address == b.address
}

#[test]
fn utxo_encoding_round_trip() {
    for u in [sample(false, None), sample(true, Some("tb1qexample")), sample(true, Some("адрес"))] {
        let bytes = encode_utxo(&u).unwrap();
        let back = decode_utxo(&bytes).unwrap();
        assert!(same(&u, &back));
        assert_eq!(encode_utxo(&back).unwrap(), bytes);
    }
}

#[test]
fn utxo_encoding_layout() {
    let bytes = encode_utxo(&sample(false, None)).unwrap();
    assert_eq!(&bytes[..8], &[8, 7, 6, 5, 4, 3, 2, 1]);
    assert_eq!(&bytes[8..12], &700_000u32.to_le_bytes());
    assert_eq!(&bytes[12..14], &[42, 0]);
    assert_eq!(&bytes[14..16], &[32, 0]);
    assert_eq!(bytes.len(), 14 + 34 + 6 + 1 + 1);
}

#[test]
fn malformed_utxo_is_refused() {
    let mut bytes = encode_utxo(&sample(false, Some("abc"))).unwrap();
    let n = bytes.len();
    bytes[n - 2] = 0xff;
    assert!(decode_utxo(&bytes).is_none());
    let mut hardened = encode_utxo(&sample(false, None)).unwrap();
    hardened[14 + 34 + 2 + 3] = 0x80;
    assert!(decode_utxo(&hardened).is_none());
    assert!(decode_utxo(&vec![0; 10]).is_none());
}

fn wallet_contract() -> citadel::storage::Contract {
    let policy = Policy::Instant(ChannelDescriptor { channel_id: vec![4; 32], peers: vec![b"node@host".to_vec()] });
    let mut c = citadel::storage::Contract::with(policy, "wallet-Ä".to_string(), Chain::Signet).unwrap();
    c.p2c_tweaks.push(citadel::model::TweakedOutput {
        outpoint: citadel::model::OutPoint { txid: vec![7; 32], vout: 2 },
        script: vec![0x51],
        tweak: vec![8; 32],
        pubkey: vec![2; 33],
        derivation_index: UnhardenedIndex::from_index(5).unwrap(),
    });
    c.blinding_reveals.push(citadel::model::BlindingReveal {
        hash: vec![9; 32],
        outpoint: citadel::model::OutPoint { txid: vec![6; 32], vout: 1 },
        blinding: 0xdead_beef_0000_0001,
    });
    c
}

#[test]
fn contract_encoding_round_trip() {
    let c = wallet_contract();
    let bytes = citadel::records::encode_contract(&c).unwrap();
    let back = citadel::records::decode_contract(&bytes).unwrap();
    assert_eq!(back.id.bytes, c.id.bytes);
    assert_eq!(back.name, c.name);
    assert_eq!(back.chain, c.chain);
    assert_eq!(back.p2c_tweaks.len(), 1);
    assert_eq!(back.p2c_tweaks[0].tweak, vec![8; 32]);
    assert_eq!(back.p2c_tweaks[0].derivation_index.index(), 5);
    assert_eq!(back.blinding_reveals[0].blinding, 0xdead_beef_0000_0001);
    assert_eq!(citadel::records::encode_contract(&back).unwrap(), bytes);
    let mut longer = bytes.clone();
    longer.push(0);
    assert!(citadel::records::decode_contract(&longer).is_none());
}

#[test]
fn operation_encoding_round_trip() {
    let record = OutgoingRecord {
        published: false,
        asset_change: 180,
        bitcoin_change: 500,
        change_outputs: vec![0],
        giveaway: Some(1_000),
        paid_bitcoin_fee: 500,
        output_derivation_indexes: vec![UnhardenedIndex::from_index(8).unwrap()],
        balance_before: 500,
        bitcoin_volume: 1_000,
        asset_volume: 300,
        bitcoin_value: 0,
        asset_value: 120,
        tx_fee: 500,
    };
    let op = Operation {
        txid: vec![0xee; 32],
        created_at: 1_700_000_000,
        height: 0,
        record,
        psbt: vec![0x70, 0x73, 0x62, 0x74, 0xff],
        disclosure: Some(vec![1, 2, 3]),
    };
    let bytes = encode_operation(&op).unwrap();
    let back = decode_operation(&bytes).unwrap();
    assert_eq!(back.txid, op.txid);
    assert_eq!(back.created_at, op.created_at);
    assert!(!back.record.published);
    assert_eq!(back.record.asset_change, 180);
    assert_eq!(back.record.change_outputs, vec![0]);
    assert_eq!(back.record.giveaway, Some(1_000));
    assert_eq!(back.record.output_derivation_indexes[0].index(), 8);
    assert_eq!(back.record.asset_volume, 300);
    assert_eq!(back.disclosure, Some(vec![1, 2, 3]));
    assert_eq!(encode_operation(&back).unwrap(), bytes);
    assert!(decode_operation(&bytes[..bytes.len() - 1].to_vec()).is_none());
}
