use citadel::chain::{address_on_chain, Chain};
use citadel::index::UnhardenedIndex;
use citadel::model::{OutPoint, TweakedOutput, Utxo};
use citadel::sync::{
    bitcoin_only, discover, initial_batch, partition_assets, pending_txs, AssetAmounts, FoundOutput, ScriptQuery, SyncCursor,
    SyncError, SyncState,
};

fn idx(i: u32) -> UnhardenedIndex {
    UnhardenedIndex::from_index(i).unwrap()
}

fn p2wpkh(byte: u8) -> Vec<u8> {
    let mut s = vec![0x00, 0x14];
    s.extend_from_slice(&[byte; 20]);
    s
}

fn utxo(txid: u8, value: u64) -> Utxo {
    Utxo {
        value,
        height: 10,
        offset: 2,
        txid: vec![txid; 32],
        vout: 0,
        derivation_index: idx(1),
        tweak: None,
        address: None,
    }
}

#[test]
fn sync_with_empty_chain() {
    let batch = initial_batch(&vec![]);
    assert_eq!(batch.len(), 0);
    let mut cursor = SyncCursor::new(UnhardenedIndex::zero(), 20);
    let mut windows = 0;
    let mut count = 0usize;
    while let Some((from, to)) = cursor.next_window(count) {
        assert_eq!(from.index(), windows * 20);
        assert_eq!(to.index(), windows * 20 + 20);
        windows += 1;
        count = 0;
    }
    assert_eq!(windows, 1);
    let state = SyncState::new();
    let assets = partition_assets(&state.unspent, &vec![]).unwrap();
    assert_eq!(assets.len(), 1);
    assert_eq!(assets[0].asset_id, vec![0u8; 32]);
    assert!(assets[0].utxos.is_empty());
}

#[test]
fn walk_goes_past_last_used() {
    let mut cursor = SyncCursor::new(idx(45), 20);
    let mut ends = vec![];
    while let Some((_, to)) = cursor.next_window(0) {
        ends.push(to.index());
    }
    assert_eq!(ends, vec![20, 40, 60, 80]);
}

#[test]
fn walk_covers_last_used_plus_depth() {
    let mut cursor = SyncCursor::new(idx(5), 20);
    let mut ends = vec![];
    while let Some((_, to)) = cursor.next_window(0) {
        ends.push(to.index());
    }
    assert_eq!(ends, vec![20, 40]);
    assert!(*ends.last().unwrap() >= 5 + 20);
}

#[test]
fn zero_depth_still_moves() {
    let mut cursor = SyncCursor::new(UnhardenedIndex::zero(), 0);
    let (from, to) = cursor.next_window(0).unwrap();
    assert_eq!((from.index(), to.index()), (0, 1));
    assert!(cursor.next_window(0).is_none());
    let mut cursor = SyncCursor::new(idx(1), 0);
    assert!(cursor.next_window(0).is_some());
    let (from, to) = cursor.next_window(0).unwrap();
    assert_eq!((from.index(), to.index()), (1, 2));
    assert!(cursor.next_window(0).is_none());
}

#[test]
fn bitcoin_only_skips_asset_outputs() {
    let unspent = vec![utxo(1, 1_000), utxo(2, 2_000)];
    let answers = vec![vec![AssetAmounts { asset_id: vec![0xa; 32], amounts: vec![5] }], vec![]];
    let assets = partition_assets(&unspent, &answers).unwrap();
    let free = bitcoin_only(&assets);
    assert_eq!(free.len(), 1);
    assert_eq!(free[0].txid, vec![2; 32]);
}

#[test]
fn walk_goes_on_while_outputs_are_found() {
    let mut cursor = SyncCursor::new(UnhardenedIndex::zero(), 10);
    assert!(cursor.next_window(0).is_some());
    assert!(cursor.next_window(3).is_some());
    assert_eq!(cursor.offset.index(), 20);
    assert!(cursor.next_window(0).is_none());
}

#[test]
fn walk_stops_at_largest_index() {
    let mut cursor = SyncCursor::new(UnhardenedIndex::largest(), 200);
    cursor.offset = UnhardenedIndex::from_index(0x7fff_ff80).unwrap();
    let (from, to) = cursor.next_window(1).unwrap();
    assert_eq!(from.index(), 0x7fff_ff80);
    assert_eq!(to.index(), 0x7fff_ffff);
    assert!(cursor.next_window(1).is_none());
}

#[test]
fn recorded_tweak_is_rediscovered() {
    let tweak = TweakedOutput {
        outpoint: OutPoint { txid: vec![0x33; 32], vout: 1 },
        script: p2wpkh(9),
        tweak: vec![4; 32],
        pubkey: vec![2; 33],
        derivation_index: idx(5),
    };
    let batch = initial_batch(&vec![tweak]);
    assert_eq!(batch.len(), 1);
    assert_eq!(batch[0].script, p2wpkh(9));
    let found = vec![vec![FoundOutput { height: 700, txid: vec![0x33; 32], vout: 1, value: 5_000 }]];
    let disc = discover(&batch, &found);
    let txs = pending_txs(&disc);
    assert_eq!(txs.len(), 1);
    let mut state = SyncState::new();
    state.admit_batch(&disc, &txs, &vec![Some(12)], &Chain::Regtest);
    assert_eq!(state.unspent.len(), 1);
    let u = &state.unspent[0];
    assert_eq!(u.value, 5_000);
    assert_eq!(u.offset, 12);
    assert_eq!(u.derivation_index.index(), 5);
    assert_eq!(u.tweak, Some((vec![4; 32], vec![2; 33])));
    assert_eq!(u.address, address_on_chain(&p2wpkh(9), &Chain::Regtest));
    assert!(u.address.is_some());
    assert_eq!(state.mine_info, vec![(700, 12, vec![0x33; 32])]);
}

#[test]
fn outputs_are_admitted_once() {
    let batch = vec![
        ScriptQuery { derivation_index: idx(0), script: p2wpkh(1), tweak: None },
        ScriptQuery { derivation_index: idx(1), script: p2wpkh(2), tweak: None },
    ];
    let out = FoundOutput { height: 5, txid: vec![1; 32], vout: 0, value: 10 };
    let other = FoundOutput { height: 5, txid: vec![1; 32], vout: 1, value: 20 };
    let late = FoundOutput { height: 6, txid: vec![2; 32], vout: 0, value: 30 };
    let found = vec![vec![out.clone(), other], vec![out, late]];
    let disc = discover(&batch, &found);
    assert_eq!(disc.len(), 4);
    let txs = pending_txs(&disc);
    assert_eq!(txs.len(), 2);
    let mut state = SyncState::new();
    state.admit_batch(&disc, &txs, &vec![Some(3), None], &Chain::Mainnet);
    assert_eq!(state.unspent.len(), 2);
    assert_eq!(state.outpoints.len(), 2);
    state.admit_batch(&disc, &txs, &vec![Some(3), Some(4)], &Chain::Mainnet);
    assert_eq!(state.unspent.len(), 3);
    assert_eq!(state.unspent[2].value, 30);
}

#[test]
fn assets_are_partitioned() {
    let unspent = vec![utxo(1, 1_000), utxo(2, 2_000)];
    let answers = vec![
        vec![
            AssetAmounts { asset_id: vec![0xa; 32], amounts: vec![10, 15] },
            AssetAmounts { asset_id: vec![0xb; 32], amounts: vec![] },
        ],
        vec![
            AssetAmounts { asset_id: vec![0xa; 32], amounts: vec![7] },
            AssetAmounts { asset_id: vec![0xb; 32], amounts: vec![0, 0] },
        ],
    ];
    let assets = partition_assets(&unspent, &answers).unwrap();
    assert_eq!(assets.len(), 2);
    assert_eq!(assets[0].utxos.len(), 2);
    assert_eq!(assets[0].utxos[1].value, 2_000);
    assert_eq!(assets[1].asset_id, vec![0xa; 32]);
    assert_eq!(assets[1].utxos.len(), 2);
    assert_eq!(assets[1].utxos[0].value, 25);
    assert_eq!(assets[1].utxos[0].txid, vec![1; 32]);
    assert_eq!(assets[1].utxos[1].value, 7);
}

#[test]
fn asset_amount_overflow_is_an_error() {
    let unspent = vec![utxo(1, 1_000)];
    let answers = vec![vec![AssetAmounts { asset_id: vec![0xa; 32], amounts: vec![u64::MAX, 1] }]];
    assert_eq!(partition_assets(&unspent, &answers).err(), Some(SyncError::AmountOverflow));
}

#[test]
fn address_of_script() {
    let script = p2wpkh(9);
    let expected = bitcoin::Address::from_script(&bitcoin::Script::from(script.clone()), bitcoin::Network::Bitcoin)
        .unwrap()
        .to_string();
    assert_eq!(address_on_chain(&script, &Chain::Mainnet), Some(expected));
    assert_eq!(address_on_chain(&script, &Chain::LiquidV1), None);
    assert_eq!(address_on_chain(&vec![0x6a], &Chain::Mainnet), None);
}
