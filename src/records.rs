use vstd::prelude::*;
use vstd::utf8::{decode_utf8, encode_utf8, encode_utf8_decode_utf8, encode_utf8_valid_utf8, valid_utf8};

use crate::encoding::{
    dec_bytes, dec_u16, dec_u32, enc_bytes, enc_u16, enc_u32, get_bytes, get_u16, get_u32, lemma_assoc, lemma_bytes,
    lemma_skip_concat, lemma_skip_skip, lemma_u16, lemma_u32, put_bytes, put_u16, put_u32,
};
use crate::chain::Chain;
use crate::encoding::{
    dec_policy, enc_policy, encode_policy, get_policy, lemma_policy_round_trip, policy_encodable, PolicyModel,
};
use crate::index::UnhardenedIndex;
use crate::ids::ContractId;
use crate::model::{BlindingReveal, OutPoint, TweakedOutput, Utxo};
use crate::storage::Contract;
use crate::text::push_bytes;

verus! {

/// An unspent output as a value.
pub struct UtxoModel {
    pub value: u64,
    pub height: u32,
    pub offset: u16,
    pub txid: Seq<u8>,
    pub vout: u16,
    pub derivation_index: nat,
    pub tweak: Option<(Seq<u8>, Seq<u8>)>,
    pub address: Option<Seq<char>>,
}

impl Utxo {
    /// The output as a value.
    pub open spec fn model(&self) -> UtxoModel {
        UtxoModel {
            value: self.value,
            height: self.height,
            offset: self.offset,
            txid: self.txid@,
            vout: self.vout,
            derivation_index: self.derivation_index@,
            tweak: match self.tweak {
                Some(t) => Some((t.0@, t.1@)),
                None => None,
            },
            address: match self.address {
                Some(a) => Some(a@),
                None => None,
            },
        }
    }
}

/// A 64-bit integer, little-endian.
pub open spec fn enc_u64(v: u64) -> Seq<u8> {
    enc_u32((v % 0x1_0000_0000) as u32) + enc_u32((v / 0x1_0000_0000) as u32)
}

/// Reads a 64-bit integer from the first eight bytes of `b`, little-endian.
pub open spec fn dec_u64(b: Seq<u8>) -> Option<u64> {
    match (dec_u32(b), dec_u32(b.skip(4))) {
        (Some(lo), Some(hi)) => Some((lo + 0x1_0000_0000 * hi) as u64),
        _ => None,
    }
}

/// An optional tweak: a zero, or a one, the tweak and the public key.
#[verifier::opaque]
pub open spec fn enc_tweak(t: Option<(Seq<u8>, Seq<u8>)>) -> Seq<u8> {
    match t {
        None => seq![0u8],
        Some((tweak, pubkey)) => seq![1u8] + enc_bytes(tweak) + enc_bytes(pubkey),
    }
}

/// Reads an optional tweak at the start of `b`: the value and how many bytes it
/// takes; `None` where the bytes do not hold one.
#[verifier::opaque]
pub open spec fn dec_tweak(b: Seq<u8>) -> Option<(Option<(Seq<u8>, Seq<u8>)>, nat)> {
    if b.len() >= 1 && b[0] == 0 {
        Some((None, 1))
    } else if b.len() >= 1 && b[0] == 1 {
        match dec_bytes(b.skip(1)) {
            Some((tweak, c1)) => match dec_bytes(b.skip((1 + c1) as int)) {
                Some((pubkey, c2)) => Some((Some((tweak, pubkey)), 1 + c1 + c2)),
                None => None,
            },
            None => None,
        }
    } else {
        None
    }
}

/// An optional address: a zero, or a one and its UTF-8 text.
#[verifier::opaque]
pub open spec fn enc_address(a: Option<Seq<char>>) -> Seq<u8> {
    match a {
        None => seq![0u8],
        Some(s) => seq![1u8] + enc_bytes(encode_utf8(s)),
    }
}

/// Reads an optional address at the start of `b`: the value and how many bytes it
/// takes; `None` where the bytes do not hold one.
#[verifier::opaque]
pub open spec fn dec_address(b: Seq<u8>) -> Option<(Option<Seq<char>>, nat)> {
    if b.len() >= 1 && b[0] == 0 {
        Some((None, 1))
    } else if b.len() >= 1 && b[0] == 1 {
        match dec_bytes(b.skip(1)) {
            Some((text, c)) => if valid_utf8(text) {
                Some((Some(decode_utf8(text)), 1 + c))
            } else {
                None
            },
            None => None,
        }
    } else {
        None
    }
}

/// The fields of an unspent output after its txid: output number,
/// derivation index, tweak and address.
pub struct UtxoTail {
    pub vout: u16,
    pub derivation_index: nat,
    pub tweak: Option<(Seq<u8>, Seq<u8>)>,
    pub address: Option<Seq<char>>,
}

/// The fields of an unspent output after its txid, encoded.
#[verifier::opaque]
pub open spec fn enc_tail(t: UtxoTail) -> Seq<u8> {
    enc_u16(t.vout as nat) + enc_u32(t.derivation_index as u32) + enc_tweak(t.tweak) + enc_address(t.address)
}

/// Reads the fields after the txid at the start of `b`: the value and how many bytes it
/// takes; `None` where the bytes do not hold one.
#[verifier::opaque]
pub open spec fn dec_tail(b: Seq<u8>) -> Option<(UtxoTail, nat)> {
    match (dec_u16(b), dec_u32(b.skip(2))) {
        (Some(vout), Some(index)) => if index < 0x8000_0000 {
            let b2 = b.skip(6);
            match dec_tweak(b2) {
                Some((tweak, c2)) => match dec_address(b2.skip(c2 as int)) {
                    Some((address, c3)) => Some(
                        (UtxoTail { vout: vout as u16, derivation_index: index as nat, tweak, address }, 6 + c2 + c3),
                    ),
                    None => None,
                },
                None => None,
            }
        } else {
            None
        },
        _ => None,
    }
}

/// The fields of an unspent output after its txid.
pub open spec fn tail_of(u: UtxoModel) -> UtxoTail {
    UtxoTail { vout: u.vout, derivation_index: u.derivation_index, tweak: u.tweak, address: u.address }
}

/// The canonical encoding of an unspent output: value, height, offset,
/// txid, output number, derivation index, tweak and address, in order.
pub open spec fn enc_utxo(u: UtxoModel) -> Seq<u8> {
    enc_u64(u.value) + enc_u32(u.height) + enc_u16(u.offset as nat) + enc_bytes(u.txid) + enc_tail(tail_of(u))
}

/// Reads an unspent output at the start of `b`: the value and how many bytes it
/// takes; `None` where the bytes do not hold one.
pub open spec fn dec_utxo(b: Seq<u8>) -> Option<(UtxoModel, nat)> {
    match (dec_u64(b), dec_u32(b.skip(8)), dec_u16(b.skip(12)), dec_bytes(b.skip(14))) {
        (Some(value), Some(height), Some(offset), Some((txid, c1))) => match dec_tail(b.skip((14 + c1) as int)) {
            Some((t, c2)) => Some(
                (
                    UtxoModel {
                        value,
                        height,
                        offset: offset as u16,
                        txid,
                        vout: t.vout,
                        derivation_index: t.derivation_index,
                        tweak: t.tweak,
                        address: t.address,
                    },
                    14 + c1 + c2,
                ),
            ),
            None => None,
        },
        _ => None,
    }
}

/// Whether an output has an encoding: its byte strings fit a 16-bit
/// length and its derivation index is unhardened.
pub open spec fn utxo_encodable(u: UtxoModel) -> bool {
    &&& u.txid.len() <= u16::MAX
    &&& u.derivation_index < 0x8000_0000
    &&& u.tweak.is_some() ==> u.tweak.unwrap().0.len() <= u16::MAX && u.tweak.unwrap().1.len() <= u16::MAX
    &&& u.address.is_some() ==> encode_utf8(u.address.unwrap()).len() <= u16::MAX
}

pub(crate) proof fn lemma_u64(v: u64, rest: Seq<u8>)
    ensures
        dec_u64(enc_u64(v) + rest) == Some(v),
        enc_u64(v).len() == 8,
{
    let lo = (v % 0x1_0000_0000) as u32;
    let hi = (v / 0x1_0000_0000) as u32;
    lemma_assoc(enc_u32(lo), enc_u32(hi), rest);
    lemma_u32(lo, enc_u32(hi) + rest);
    lemma_u32(hi, rest);
    assert(lo + 0x1_0000_0000 * hi == v);
}

proof fn lemma_tweak(t: Option<(Seq<u8>, Seq<u8>)>, rest: Seq<u8>)
    requires
        t.is_some() ==> t.unwrap().0.len() <= u16::MAX && t.unwrap().1.len() <= u16::MAX,
    ensures
        dec_tweak(enc_tweak(t) + rest) == Some((t, enc_tweak(t).len())),
{
    reveal(enc_tweak);
    reveal(dec_tweak);
    match t {
        None => {},
        Some((tweak, pubkey)) => {
            let r1 = enc_bytes(pubkey) + rest;
            assert(enc_tweak(t) + rest =~= seq![1u8] + (enc_bytes(tweak) + r1));
            lemma_skip_concat(seq![1u8], enc_bytes(tweak) + r1);
            lemma_bytes(tweak, r1);
            lemma_skip_concat(enc_bytes(tweak), r1);
            assert((enc_tweak(t) + rest).skip(1 + enc_bytes(tweak).len() as int) =~= r1);
            lemma_bytes(pubkey, rest);
        },
    }
}

proof fn lemma_address(a: Option<Seq<char>>, rest: Seq<u8>)
    requires
        a.is_some() ==> encode_utf8(a.unwrap()).len() <= u16::MAX,
    ensures
        dec_address(enc_address(a) + rest) == Some((a, enc_address(a).len())),
{
    reveal(enc_address);
    reveal(dec_address);
    match a {
        None => {},
        Some(s) => {
            let text = encode_utf8(s);
            assert(enc_address(a) + rest =~= seq![1u8] + (enc_bytes(text) + rest));
            lemma_skip_concat(seq![1u8], enc_bytes(text) + rest);
            lemma_bytes(text, rest);
            encode_utf8_valid_utf8(s);
            encode_utf8_decode_utf8(s);
        },
    }
}

proof fn lemma_tail(t: UtxoTail, rest: Seq<u8>)
    requires
        t.derivation_index < 0x8000_0000,
        t.tweak.is_some() ==> t.tweak.unwrap().0.len() <= u16::MAX && t.tweak.unwrap().1.len() <= u16::MAX,
        t.address.is_some() ==> encode_utf8(t.address.unwrap()).len() <= u16::MAX,
    ensures
        dec_tail(enc_tail(t) + rest) == Some((t, enc_tail(t).len())),
{
    reveal(enc_tail);
    reveal(dec_tail);
    let p4 = enc_u16(t.vout as nat);
    let p5 = enc_u32(t.derivation_index as u32);
    let p6 = enc_tweak(t.tweak);
    let p7 = enc_address(t.address);
    let r7 = p7 + rest;
    let r6 = p6 + r7;
    let r5 = p5 + r6;
    let b = enc_tail(t) + rest;
    assert(b =~= p4 + r5);
    lemma_u16(t.vout as nat, r5);
    lemma_u32(t.derivation_index as u32, r6);
    assert(b.skip(2) =~= r5);
    assert(b.skip(6) =~= r6);
    lemma_tweak(t.tweak, r7);
    lemma_skip_concat(p6, r7);
    lemma_address(t.address, rest);
    assert((t.vout as nat) as u16 == t.vout);
}

/// Decoding the encoding of an unspent output gives it back, and consumes
/// exactly the encoding, whatever follows it.
pub proof fn lemma_utxo_round_trip(u: UtxoModel, rest: Seq<u8>)
    requires
        utxo_encodable(u),
    ensures
        dec_utxo(enc_utxo(u) + rest) == Some((u, enc_utxo(u).len())),
{
    let p0 = enc_u64(u.value);
    let p1 = enc_u32(u.height);
    let p2 = enc_u16(u.offset as nat);
    let p3 = enc_bytes(u.txid);
    let p4 = enc_tail(tail_of(u));
    let r4 = p4 + rest;
    let r3 = p3 + r4;
    let r2 = p2 + r3;
    let r1 = p1 + r2;
    let b = enc_utxo(u) + rest;
    assert(b =~= p0 + r1);
    lemma_u64(u.value, r1);
    lemma_skip_concat(p0, r1);
    lemma_u32(u.height, r2);
    assert(b.skip(8).skip(4) =~= b.skip(12));
    lemma_u16(u.offset as nat, r3);
    assert(b.skip(12).skip(2) =~= b.skip(14));
    lemma_bytes(u.txid, r4);
    lemma_skip_concat(p3, r4);
    assert(b.skip(14 + p3.len() as int) =~= r4);
    lemma_tail(tail_of(u), rest);
    assert((u.offset as nat) as u16 == u.offset);
}

/// Decoding the encoding of an unspent output, and nothing more, gives it
/// back.
pub proof fn lemma_utxo_decode_encode(u: UtxoModel)
    requires
        utxo_encodable(u),
    ensures
        dec_utxo(enc_utxo(u)) == Some((u, enc_utxo(u).len())),
{
    lemma_utxo_round_trip(u, Seq::empty());
    assert(enc_utxo(u) + Seq::<u8>::empty() =~= enc_utxo(u));
}


/// A recorded pay-to-contract output as a value.
pub struct TweakModel {
    pub txid: Seq<u8>,
    pub vout: u32,
    pub script: Seq<u8>,
    pub tweak: Seq<u8>,
    pub pubkey: Seq<u8>,
    pub derivation_index: nat,
}

/// A blinding reveal as a value.
pub struct RevealModel {
    pub hash: Seq<u8>,
    pub txid: Seq<u8>,
    pub vout: u32,
    pub blinding: u64,
}

/// A contract as a value.
pub struct ContractRecord {
    pub id: Seq<u8>,
    pub policy: PolicyModel,
    pub name: Seq<char>,
    pub chain: Chain,
    pub tweaks: Seq<TweakModel>,
    pub reveals: Seq<RevealModel>,
}

/// A recorded tweak: its outpoint, script, tweak, public key and
/// derivation index.
#[verifier::opaque]
pub open spec fn enc_tweaked(t: TweakModel) -> Seq<u8> {
    enc_bytes(t.txid) + enc_u32(t.vout) + enc_bytes(t.script) + enc_bytes(t.tweak) + enc_bytes(t.pubkey) + enc_u32(
        t.derivation_index as u32,
    )
}

/// Reads a recorded tweak at the start of `b`: the value and how many bytes
/// it takes; `None` where the bytes do not hold one.
#[verifier::opaque]
pub open spec fn dec_tweaked(b: Seq<u8>) -> Option<(TweakModel, nat)> {
    match dec_bytes(b) {
        None => None,
        Some((txid, c1)) => {
            let b1 = b.skip(c1 as int);
            match (dec_u32(b1), dec_bytes(b1.skip(4))) {
                (Some(vout), Some((script, c2))) => {
                    let b2 = b1.skip((4 + c2) as int);
                    match dec_bytes(b2) {
                        None => None,
                        Some((tweak, c3)) => {
                            let b3 = b2.skip(c3 as int);
                            match dec_bytes(b3) {
                                None => None,
                                Some((pubkey, c4)) => match dec_u32(b3.skip(c4 as int)) {
                                    Some(index) => if index < 0x8000_0000 {
                                        Some(
                                            (
                                                TweakModel { txid, vout, script, tweak, pubkey, derivation_index: index as nat },
                                                c1 + 4 + c2 + c3 + c4 + 4,
                                            ),
                                        )
                                    } else {
                                        None
                                    },
                                    None => None,
                                },
                            }
                        },
                    }
                },
                _ => None,
            }
        },
    }
}

/// A blinding reveal: its hash, outpoint and blinding factor.
#[verifier::opaque]
pub open spec fn enc_reveal(r: RevealModel) -> Seq<u8> {
    enc_bytes(r.hash) + enc_bytes(r.txid) + enc_u32(r.vout) + enc_u64(r.blinding)
}

/// Reads a blinding reveal at the start of `b`: the value and how many
/// bytes it takes; `None` where the bytes do not hold one.
#[verifier::opaque]
pub open spec fn dec_reveal(b: Seq<u8>) -> Option<(RevealModel, nat)> {
    match dec_bytes(b) {
        None => None,
        Some((hash, c1)) => {
            let b1 = b.skip(c1 as int);
            match dec_bytes(b1) {
                None => None,
                Some((txid, c2)) => {
                    let b2 = b1.skip(c2 as int);
                    match (dec_u32(b2), dec_u64(b2.skip(4))) {
                        (Some(vout), Some(blinding)) => Some(
                            (RevealModel { hash, txid, vout, blinding }, c1 + c2 + 12),
                        ),
                        _ => None,
                    }
                },
            }
        },
    }
}

/// Recorded tweaks one after another.
pub open spec fn cat_tweaked(s: Seq<TweakModel>) -> Seq<u8>
    decreases s.len(),
{
    if s.len() == 0 {
        Seq::empty()
    } else {
        enc_tweaked(s[0]) + cat_tweaked(s.skip(1))
    }
}

/// Reads `n` recorded tweaks at the start of `b`.
pub open spec fn dec_tweaked_items(b: Seq<u8>, n: nat) -> Option<(Seq<TweakModel>, nat)>
    decreases n,
{
    if n == 0 {
        Some((Seq::empty(), 0))
    } else {
        match dec_tweaked(b) {
            Some((v, c0)) => match dec_tweaked_items(b.skip(c0 as int), (n - 1) as nat) {
                Some((rest, c)) => Some((seq![v] + rest, c0 + c)),
                None => None,
            },
            None => None,
        }
    }
}

/// Blinding reveals one after another.
pub open spec fn cat_reveals(s: Seq<RevealModel>) -> Seq<u8>
    decreases s.len(),
{
    if s.len() == 0 {
        Seq::empty()
    } else {
        enc_reveal(s[0]) + cat_reveals(s.skip(1))
    }
}

/// Reads `n` blinding reveals at the start of `b`.
pub open spec fn dec_reveal_items(b: Seq<u8>, n: nat) -> Option<(Seq<RevealModel>, nat)>
    decreases n,
{
    if n == 0 {
        Some((Seq::empty(), 0))
    } else {
        match dec_reveal(b) {
            Some((v, c0)) => match dec_reveal_items(b.skip(c0 as int), (n - 1) as nat) {
                Some((rest, c)) => Some((seq![v] + rest, c0 + c)),
                None => None,
            },
            None => None,
        }
    }
}

/// The byte of a chain.
pub open spec fn chain_byte(c: Chain) -> u8 {
    match c {
        Chain::Mainnet => 0,
        Chain::Testnet3 => 1,
        Chain::Regtest => 2,
        Chain::Signet => 3,
        Chain::LiquidV1 => 4,
    }
}

/// The chain of a byte.
pub open spec fn byte_chain(b: u8) -> Option<Chain> {
    if b == 0 {
        Some(Chain::Mainnet)
    } else if b == 1 {
        Some(Chain::Testnet3)
    } else if b == 2 {
        Some(Chain::Regtest)
    } else if b == 3 {
        Some(Chain::Signet)
    } else if b == 4 {
        Some(Chain::LiquidV1)
    } else {
        None
    }
}

/// The id, policy, name and chain of a contract, encoded.
#[verifier::opaque]
pub open spec fn enc_contract_head(c: ContractRecord) -> Seq<u8> {
    enc_bytes(c.id) + enc_policy(c.policy) + enc_bytes(encode_utf8(c.name)) + seq![chain_byte(c.chain)]
}

/// Reads the id, policy, name and chain of a contract at the start of `b`,
/// as a contract without tweaks and reveals, and how many bytes they take.
#[verifier::opaque]
pub open spec fn dec_contract_head(b: Seq<u8>) -> Option<(ContractRecord, nat)> {
    match dec_bytes(b) {
        None => None,
        Some((id, c1)) => {
            let b1 = b.skip(c1 as int);
            match dec_policy(b1) {
                None => None,
                Some((policy, c2)) => {
                    let b2 = b1.skip(c2 as int);
                    match dec_bytes(b2) {
                        None => None,
                        Some((text, c3)) => {
                            let b3 = b2.skip(c3 as int);
                            if !valid_utf8(text) || b3.len() < 1 {
                                None
                            } else {
                                match byte_chain(b3[0]) {
                                    Some(chain) => Some(
                                        (
                                            ContractRecord {
                                                id,
                                                policy,
                                                name: decode_utf8(text),
                                                chain,
                                                tweaks: Seq::empty(),
                                                reveals: Seq::empty(),
                                            },
                                            c1 + c2 + c3 + 1,
                                        ),
                                    ),
                                    None => None,
                                }
                            }
                        },
                    }
                },
            }
        },
    }
}

/// The tweaks and reveals of a contract, encoded with their counts.
#[verifier::opaque]
pub open spec fn enc_contract_lists(tweaks: Seq<TweakModel>, reveals: Seq<RevealModel>) -> Seq<u8> {
    enc_u16(tweaks.len()) + cat_tweaked(tweaks) + enc_u16(reveals.len()) + cat_reveals(reveals)
}

/// Reads the tweaks and reveals of a contract at the start of `b`.
#[verifier::opaque]
pub open spec fn dec_contract_lists(b: Seq<u8>) -> Option<((Seq<TweakModel>, Seq<RevealModel>), nat)> {
    match dec_u16(b) {
        None => None,
        Some(n1) => match dec_tweaked_items(b.skip(2), n1) {
            None => None,
            Some((tweaks, c1)) => {
                let b1 = b.skip((2 + c1) as int);
                match dec_u16(b1) {
                    None => None,
                    Some(n2) => match dec_reveal_items(b1.skip(2), n2) {
                        None => None,
                        Some((reveals, c2)) => Some(((tweaks, reveals), 2 + c1 + 2 + c2)),
                    },
                }
            },
        },
    }
}

/// The canonical encoding of a contract: id, policy, name, chain, recorded
/// tweaks and blinding reveals, in order.
pub open spec fn enc_contract_record(c: ContractRecord) -> Seq<u8> {
    enc_contract_head(c) + enc_contract_lists(c.tweaks, c.reveals)
}

/// Reads a contract at the start of `b`: the value and how many bytes it
/// takes; `None` where the bytes do not hold one.
pub open spec fn dec_contract_record(b: Seq<u8>) -> Option<(ContractRecord, nat)> {
    match dec_contract_head(b) {
        None => None,
        Some((head, c1)) => match dec_contract_lists(b.skip(c1 as int)) {
            None => None,
            Some(((tweaks, reveals), c2)) => Some((ContractRecord { tweaks, reveals, ..head }, c1 + c2)),
        },
    }
}

/// Whether a recorded tweak has an encoding.
pub open spec fn tweaked_encodable(t: TweakModel) -> bool {
    &&& t.txid.len() <= u16::MAX
    &&& t.script.len() <= u16::MAX
    &&& t.tweak.len() <= u16::MAX
    &&& t.pubkey.len() <= u16::MAX
    &&& t.derivation_index < 0x8000_0000
}

/// Whether a blinding reveal has an encoding.
pub open spec fn reveal_encodable(r: RevealModel) -> bool {
    r.hash.len() <= u16::MAX && r.txid.len() <= u16::MAX
}

/// Whether the parts of a contract other than its policy have an
/// encoding.
pub open spec fn contract_parts_encodable(c: ContractRecord) -> bool {
    &&& c.id.len() <= u16::MAX
    &&& encode_utf8(c.name).len() <= u16::MAX
    &&& c.tweaks.len() <= u16::MAX
    &&& c.reveals.len() <= u16::MAX
    &&& forall|k: int| 0 <= k < c.tweaks.len() ==> tweaked_encodable(#[trigger] c.tweaks[k])
    &&& forall|k: int| 0 <= k < c.reveals.len() ==> reveal_encodable(#[trigger] c.reveals[k])
}

/// Whether a contract has an encoding: every part has one and every
/// length and count fits in 16 bits.
pub open spec fn contract_record_encodable(c: ContractRecord) -> bool {
    policy_encodable(c.policy) && contract_parts_encodable(c)
}

#[verifier::rlimit(30)]
proof fn lemma_tweaked(t: TweakModel, rest: Seq<u8>)
    requires
        tweaked_encodable(t),
    ensures
        dec_tweaked(enc_tweaked(t) + rest) == Some((t, enc_tweaked(t).len())),
{
    reveal(enc_tweaked);
    reveal(dec_tweaked);
    let p1 = enc_bytes(t.txid);
    let p2 = enc_u32(t.vout);
    let p3 = enc_bytes(t.script);
    let p4 = enc_bytes(t.tweak);
    let p5 = enc_bytes(t.pubkey);
    let p6 = enc_u32(t.derivation_index as u32);
    let r6 = p6 + rest;
    let r5 = p5 + r6;
    let r4 = p4 + r5;
    let r3 = p3 + r4;
    let r2 = p2 + r3;
    let b = enc_tweaked(t) + rest;
    assert(b =~= p1 + r2);
    lemma_bytes(t.txid, r2);
    lemma_skip_concat(p1, r2);
    lemma_u32(t.vout, r3);
    lemma_bytes(t.script, r4);
    lemma_skip_concat(p3, r4);
    assert(r2.skip(4 + p3.len() as int) =~= r4);
    lemma_bytes(t.tweak, r5);
    lemma_skip_concat(p4, r5);
    lemma_bytes(t.pubkey, r6);
    lemma_skip_concat(p5, r6);
    lemma_u32(t.derivation_index as u32, rest);
}

proof fn lemma_reveal(r: RevealModel, rest: Seq<u8>)
    requires
        reveal_encodable(r),
    ensures
        dec_reveal(enc_reveal(r) + rest) == Some((r, enc_reveal(r).len())),
{
    reveal(enc_reveal);
    reveal(dec_reveal);
    let p1 = enc_bytes(r.hash);
    let p2 = enc_bytes(r.txid);
    let p3 = enc_u32(r.vout);
    let p4 = enc_u64(r.blinding);
    let r4 = p4 + rest;
    let r3 = p3 + r4;
    let r2 = p2 + r3;
    let b = enc_reveal(r) + rest;
    assert(b =~= p1 + r2);
    lemma_bytes(r.hash, r2);
    lemma_skip_concat(p1, r2);
    lemma_bytes(r.txid, r3);
    lemma_skip_concat(p2, r3);
    lemma_u32(r.vout, r4);
    lemma_u64(r.blinding, rest);
}

proof fn lemma_tweaked_items(s: Seq<TweakModel>, rest: Seq<u8>)
    requires
        forall|k: int| 0 <= k < s.len() ==> tweaked_encodable(#[trigger] s[k]),
    ensures
        dec_tweaked_items(cat_tweaked(s) + rest, s.len()) == Some((s, cat_tweaked(s).len())),
    decreases s.len(),
{
    if s.len() > 0 {
        lemma_assoc(enc_tweaked(s[0]), cat_tweaked(s.skip(1)), rest);
        lemma_tweaked(s[0], cat_tweaked(s.skip(1)) + rest);
        lemma_skip_concat(enc_tweaked(s[0]), cat_tweaked(s.skip(1)) + rest);
        assert forall|k: int| 0 <= k < s.skip(1).len() implies tweaked_encodable(#[trigger] s.skip(1)[k]) by {
            assert(s.skip(1)[k] == s[k + 1]);
        }
        lemma_tweaked_items(s.skip(1), rest);
        assert(seq![s[0]] + s.skip(1) =~= s);
    }
}

proof fn lemma_reveal_items(s: Seq<RevealModel>, rest: Seq<u8>)
    requires
        forall|k: int| 0 <= k < s.len() ==> reveal_encodable(#[trigger] s[k]),
    ensures
        dec_reveal_items(cat_reveals(s) + rest, s.len()) == Some((s, cat_reveals(s).len())),
    decreases s.len(),
{
    if s.len() > 0 {
        lemma_assoc(enc_reveal(s[0]), cat_reveals(s.skip(1)), rest);
        lemma_reveal(s[0], cat_reveals(s.skip(1)) + rest);
        lemma_skip_concat(enc_reveal(s[0]), cat_reveals(s.skip(1)) + rest);
        assert forall|k: int| 0 <= k < s.skip(1).len() implies reveal_encodable(#[trigger] s.skip(1)[k]) by {
            assert(s.skip(1)[k] == s[k + 1]);
        }
        lemma_reveal_items(s.skip(1), rest);
        assert(seq![s[0]] + s.skip(1) =~= s);
    }
}

#[verifier::rlimit(40)]
proof fn lemma_contract_head(c: ContractRecord, rest: Seq<u8>)
    requires
        contract_record_encodable(c),
    ensures
        dec_contract_head(enc_contract_head(c) + rest) == Some(
            (ContractRecord { tweaks: Seq::empty(), reveals: Seq::empty(), ..c }, enc_contract_head(c).len()),
        ),
{
    reveal(enc_contract_head);
    reveal(dec_contract_head);
    let text = encode_utf8(c.name);
    let p1 = enc_bytes(c.id);
    let p2 = enc_policy(c.policy);
    let p3 = enc_bytes(text);
    let r4 = seq![chain_byte(c.chain)] + rest;
    let r3 = p3 + r4;
    let r2 = p2 + r3;
    let b = enc_contract_head(c) + rest;
    assert(b =~= p1 + r2);
    lemma_bytes(c.id, r2);
    lemma_skip_concat(p1, r2);
    lemma_policy_round_trip(c.policy, r3);
    lemma_skip_concat(p2, r3);
    lemma_bytes(text, r4);
    lemma_skip_concat(p3, r4);
    encode_utf8_valid_utf8(c.name);
    encode_utf8_decode_utf8(c.name);
    assert(byte_chain(chain_byte(c.chain)) == Some(c.chain));
}

#[verifier::rlimit(40)]
proof fn lemma_contract_lists(tweaks: Seq<TweakModel>, reveals: Seq<RevealModel>, rest: Seq<u8>)
    requires
        tweaks.len() <= u16::MAX,
        reveals.len() <= u16::MAX,
        forall|k: int| 0 <= k < tweaks.len() ==> tweaked_encodable(#[trigger] tweaks[k]),
        forall|k: int| 0 <= k < reveals.len() ==> reveal_encodable(#[trigger] reveals[k]),
    ensures
        dec_contract_lists(enc_contract_lists(tweaks, reveals) + rest) == Some(
            ((tweaks, reveals), enc_contract_lists(tweaks, reveals).len()),
        ),
{
    reveal(enc_contract_lists);
    reveal(dec_contract_lists);
    let p5 = cat_tweaked(tweaks);
    let p6 = enc_u16(reveals.len());
    let p7 = cat_reveals(reveals);
    let r7 = p7 + rest;
    let r6 = p6 + r7;
    let r5 = p5 + r6;
    let b = enc_contract_lists(tweaks, reveals) + rest;
    assert(b =~= enc_u16(tweaks.len()) + r5);
    lemma_u16(tweaks.len(), r5);
    lemma_tweaked_items(tweaks, r6);
    lemma_skip_concat(p5, r6);
    assert(b.skip(2 + p5.len() as int) =~= r6);
    lemma_u16(reveals.len(), r7);
    lemma_reveal_items(reveals, rest);
}

/// Decoding the encoding of a contract gives it back, and consumes exactly
/// the encoding, whatever follows it.
pub proof fn lemma_contract_round_trip(c: ContractRecord, rest: Seq<u8>)
    requires
        contract_record_encodable(c),
    ensures
        dec_contract_record(enc_contract_record(c) + rest) == Some((c, enc_contract_record(c).len())),
{
    let head = enc_contract_head(c);
    let lists = enc_contract_lists(c.tweaks, c.reveals);
    lemma_assoc(head, lists, rest);
    lemma_contract_head(c, lists + rest);
    lemma_skip_concat(head, lists + rest);
    lemma_contract_lists(c.tweaks, c.reveals, rest);
}

/// Decoding the encoding of a contract, and nothing more, gives it back.
pub proof fn lemma_contract_decode_encode(c: ContractRecord)
    requires
        contract_record_encodable(c),
    ensures
        dec_contract_record(enc_contract_record(c)) == Some((c, enc_contract_record(c).len())),
{
    lemma_contract_round_trip(c, Seq::empty());
    assert(enc_contract_record(c) + Seq::<u8>::empty() =~= enc_contract_record(c));
}

/// Relies on `String::from_utf8`: the text whose UTF-8 encoding the bytes
/// are; `None` where they are not valid UTF-8.
#[verifier::external_body]
fn string_from_utf8(bytes: Vec<u8>) -> (r: Option<String>)
    ensures
        r.is_some() == valid_utf8(bytes@),
        r.is_some() ==> r.unwrap()@ == decode_utf8(bytes@),
{
    String::from_utf8(bytes).ok()
}

pub(crate) fn put_u64(out: &mut Vec<u8>, v: u64)
    ensures
        final(out)@ == old(out)@ + enc_u64(v),
{
    put_u32(out, (v % 0x1_0000_0000) as u32);
    put_u32(out, (v / 0x1_0000_0000) as u32);
    proof {
        assert(final(out)@ =~= old(out)@ + enc_u64(v));
    }
}

pub(crate) fn get_u64(buf: &Vec<u8>, pos: usize) -> (r: Option<u64>)
    requires
        pos <= buf@.len(),
    ensures
        r.is_some() == dec_u64(buf@.skip(pos as int)).is_some(),
        r.is_some() ==> r.unwrap() == dec_u64(buf@.skip(pos as int)).unwrap(),
{
    let total: usize = buf.len();
    let lo = match get_u32(buf, pos) {
        Some(v) => v,
        None => {
            return None;
        },
    };
    proof {
        lemma_skip_skip(buf@, pos as int, 4);
    }
    let hi = match get_u32(buf, pos + 4) {
        Some(v) => v,
        None => {
            return None;
        },
    };
    Some(lo as u64 + 0x1_0000_0000 * hi as u64)
}

fn put_tweak(out: &mut Vec<u8>, tweak: &Option<(Vec<u8>, Vec<u8>)>)
    requires
        tweak.is_some() ==> tweak.unwrap().0@.len() <= u16::MAX && tweak.unwrap().1@.len() <= u16::MAX,
    ensures
        final(out)@ == old(out)@ + enc_tweak(
            match *tweak {
                Some(t) => Some((t.0@, t.1@)),
                None => None,
            },
        ),
{
    reveal(enc_tweak);
    match tweak {
        Some(t) => {
            out.push(1u8);
            put_bytes(out, &t.0);
            put_bytes(out, &t.1);
        },
        None => out.push(0u8),
    }
    proof {
        assert(final(out)@ =~= old(out)@ + enc_tweak(
            match *tweak {
                Some(t) => Some((t.0@, t.1@)),
                None => None,
            },
        ));
    }
}

fn put_address(out: &mut Vec<u8>, address: &Option<String>)
    requires
        address.is_some() ==> encode_utf8(address.unwrap()@).len() <= u16::MAX,
    ensures
        final(out)@ == old(out)@ + enc_address(
            match *address {
                Some(a) => Some(a@),
                None => None,
            },
        ),
{
    reveal(enc_address);
    match address {
        Some(a) => {
            let text = a.as_str().as_bytes();
            out.push(1u8);
            put_u16(out, text.len());
            push_bytes(out, text);
        },
        None => out.push(0u8),
    }
    proof {
        assert(final(out)@ =~= old(out)@ + enc_address(
            match *address {
                Some(a) => Some(a@),
                None => None,
            },
        ));
    }
}

/// The canonical encoding of an unspent output; `None` where a byte string
/// does not fit a 16-bit length.
pub fn encode_utxo(u: &Utxo) -> (r: Option<Vec<u8>>)
    ensures
        r.is_some() == utxo_encodable(u.model()),
        r.is_some() ==> r.unwrap()@ == enc_utxo(u.model()),
{
    reveal(enc_tail);
    let index = u.derivation_index.index();
    if u.txid.len() > 0xffff {
        return None;
    }
    match &u.tweak {
        Some(t) => {
            if t.0.len() > 0xffff || t.1.len() > 0xffff {
                return None;
            }
        },
        None => {},
    }
    match &u.address {
        Some(a) => {
            if a.as_str().as_bytes().len() > 0xffff {
                return None;
            }
        },
        None => {},
    }
    let mut out: Vec<u8> = Vec::new();
    put_u64(&mut out, u.value);
    put_u32(&mut out, u.height);
    put_u16(&mut out, u.offset as usize);
    put_bytes(&mut out, &u.txid);
    let ghost head = out@;
    put_u16(&mut out, u.vout as usize);
    put_u32(&mut out, index);
    put_tweak(&mut out, &u.tweak);
    put_address(&mut out, &u.address);
    proof {
        assert(out@ =~= head + enc_tail(tail_of(u.model())));
        assert(out@ =~= enc_utxo(u.model()));
    }
    Some(out)
}

#[verifier::rlimit(40)]
fn get_tail(buf: &Vec<u8>, pos: usize) -> (r: Option<(u16, UnhardenedIndex, Option<(Vec<u8>, Vec<u8>)>, Option<String>, usize)>)
    requires
        pos <= buf@.len(),
    ensures
        r.is_some() == dec_tail(buf@.skip(pos as int)).is_some(),
        r.is_some() ==> {
            let (vout, index, tweak, address, c) = r.unwrap();
            let (t, n) = dec_tail(buf@.skip(pos as int)).unwrap();
            &&& vout == t.vout
            &&& index@ == t.derivation_index
            &&& c == n
            &&& pos + c <= buf@.len()
            &&& tweak.is_some() == t.tweak.is_some()
            &&& tweak.is_some() ==> tweak.unwrap().0@ == t.tweak.unwrap().0 && tweak.unwrap().1@ == t.tweak.unwrap().1
            &&& address.is_some() == t.address.is_some()
            &&& address.is_some() ==> address.unwrap()@ == t.address.unwrap()
        },
{
    reveal(dec_tail);
    reveal(dec_tweak);
    reveal(dec_address);
    let total: usize = buf.len();
    let vout = match get_u16(buf, pos) {
        Some(v) => v,
        None => {
            return None;
        },
    };
    if total - pos < 6 {
        return None;
    }
    proof {
        lemma_skip_skip(buf@, pos as int, 2);
        lemma_skip_skip(buf@, pos as int, 6);
    }
    let raw_index = match get_u32(buf, pos + 2) {
        Some(v) => v,
        None => {
            return None;
        },
    };
    let derivation_index = match UnhardenedIndex::from_index(raw_index) {
        Some(i) => i,
        None => {
            return None;
        },
    };
    let p2 = pos + 6;
    if p2 >= total {
        return None;
    }
    let (tweak, c2): (Option<(Vec<u8>, Vec<u8>)>, usize) = if buf[p2] == 0 {
        (None, 1)
    } else if buf[p2] == 1 {
        proof {
            lemma_skip_skip(buf@, p2 as int, 1);
        }
        let (t, ct) = match get_bytes(buf, p2 + 1) {
            Some(x) => x,
            None => {
                return None;
            },
        };
        proof {
            lemma_skip_skip(buf@, p2 as int, 1 + ct);
        }
        let (k, ck) = match get_bytes(buf, p2 + 1 + ct) {
            Some(x) => x,
            None => {
                return None;
            },
        };
        (Some((t, k)), 1 + ct + ck)
    } else {
        return None;
    };
    let p3 = p2 + c2;
    proof {
        lemma_skip_skip(buf@, p2 as int, c2 as int);
        lemma_skip_skip(buf@, pos as int, 6 + c2);
    }
    if p3 >= total {
        return None;
    }
    let (address, c3): (Option<String>, usize) = if buf[p3] == 0 {
        (None, 1)
    } else if buf[p3] == 1 {
        proof {
            lemma_skip_skip(buf@, p3 as int, 1);
        }
        let (text, ct) = match get_bytes(buf, p3 + 1) {
            Some(x) => x,
            None => {
                return None;
            },
        };
        match string_from_utf8(text) {
            Some(s) => (Some(s), 1 + ct),
            None => {
                return None;
            },
        }
    } else {
        return None;
    };
    Some((vout as u16, derivation_index, tweak, address, 6 + c2 + c3))
}

/// Reads an unspent output from its canonical encoding; `None` where the
/// bytes are not the encoding of one, or hold more than one.
pub fn decode_utxo(buf: &Vec<u8>) -> (r: Option<Utxo>)
    ensures
        r.is_some() <==> (dec_utxo(buf@).is_some() && dec_utxo(buf@).unwrap().1 == buf@.len()),
        r.is_some() ==> r.unwrap().model() == dec_utxo(buf@).unwrap().0,
{
    let total: usize = buf.len();
    proof {
        assert(buf@.skip(0) =~= buf@);
    }
    let value = match get_u64(buf, 0) {
        Some(v) => v,
        None => {
            return None;
        },
    };
    if total < 14 {
        return None;
    }
    let height = match get_u32(buf, 8) {
        Some(v) => v,
        None => {
            return None;
        },
    };
    let offset = match get_u16(buf, 12) {
        Some(v) => v,
        None => {
            return None;
        },
    };
    let (txid, c1) = match get_bytes(buf, 14) {
        Some(x) => x,
        None => {
            return None;
        },
    };
    let (vout, derivation_index, tweak, address, c2) = match get_tail(buf, 14 + c1) {
        Some(x) => x,
        None => {
            return None;
        },
    };
    if 14 + c1 + c2 != total {
        return None;
    }
    Some(Utxo { value, height, offset: offset as u16, txid, vout, derivation_index, tweak, address })
}


impl TweakedOutput {
    /// The record as a value.
    pub open spec fn model(&self) -> TweakModel {
        TweakModel {
            txid: self.outpoint.txid@,
            vout: self.outpoint.vout,
            script: self.script@,
            tweak: self.tweak@,
            pubkey: self.pubkey@,
            derivation_index: self.derivation_index@,
        }
    }
}

impl BlindingReveal {
    /// The reveal as a value.
    pub open spec fn model(&self) -> RevealModel {
        RevealModel { hash: self.hash@, txid: self.outpoint.txid@, vout: self.outpoint.vout, blinding: self.blinding }
    }
}

impl Contract {
    /// The contract as a value.
    pub open spec fn record(&self) -> ContractRecord {
        ContractRecord {
            id: self.id.bytes@,
            policy: self.policy@,
            name: self.name@,
            chain: self.chain,
            tweaks: self.p2c_tweaks@.map_values(|t: TweakedOutput| t.model()),
            reveals: self.blinding_reveals@.map_values(|r: BlindingReveal| r.model()),
        }
    }
}

fn put_tweaked(out: &mut Vec<u8>, t: &TweakedOutput)
    requires
        tweaked_encodable(t.model()),
    ensures
        final(out)@ == old(out)@ + enc_tweaked(t.model()),
{
    reveal(enc_tweaked);
    let index = t.derivation_index.index();
    put_bytes(out, &t.outpoint.txid);
    put_u32(out, t.outpoint.vout);
    put_bytes(out, &t.script);
    put_bytes(out, &t.tweak);
    put_bytes(out, &t.pubkey);
    put_u32(out, index);
    proof {
        assert(final(out)@ =~= old(out)@ + enc_tweaked(t.model()));
    }
}

fn put_reveal(out: &mut Vec<u8>, r: &BlindingReveal)
    requires
        reveal_encodable(r.model()),
    ensures
        final(out)@ == old(out)@ + enc_reveal(r.model()),
{
    reveal(enc_reveal);
    put_bytes(out, &r.hash);
    put_bytes(out, &r.outpoint.txid);
    put_u32(out, r.outpoint.vout);
    put_u64(out, r.blinding);
    proof {
        assert(final(out)@ =~= old(out)@ + enc_reveal(r.model()));
    }
}

fn chain_to_byte(c: Chain) -> (r: u8)
    ensures
        r == chain_byte(c),
{
    match c {
        Chain::Mainnet => 0,
        Chain::Testnet3 => 1,
        Chain::Regtest => 2,
        Chain::Signet => 3,
        Chain::LiquidV1 => 4,
    }
}

fn byte_to_chain(b: u8) -> (r: Option<Chain>)
    ensures
        r == byte_chain(b),
{
    if b == 0 {
        Some(Chain::Mainnet)
    } else if b == 1 {
        Some(Chain::Testnet3)
    } else if b == 2 {
        Some(Chain::Regtest)
    } else if b == 3 {
        Some(Chain::Signet)
    } else if b == 4 {
        Some(Chain::LiquidV1)
    } else {
        None
    }
}

fn contract_fits(c: &Contract) -> (r: bool)
    ensures
        r == contract_parts_encodable(c.record()),
{
    let index_ok = c.id.bytes.len() <= 0xffff && c.name.as_str().as_bytes().len() <= 0xffff && c.p2c_tweaks.len()
        <= 0xffff && c.blinding_reveals.len() <= 0xffff;
    if !index_ok {
        return false;
    }
    let ghost tweaks = c.p2c_tweaks@.map_values(|t: TweakedOutput| t.model());
    let mut k: usize = 0;
    while k < c.p2c_tweaks.len()
        invariant
            0 <= k <= c.p2c_tweaks@.len(),
            tweaks == c.p2c_tweaks@.map_values(|t: TweakedOutput| t.model()),
            forall|j: int| 0 <= j < k ==> tweaked_encodable(#[trigger] tweaks[j]),
        decreases c.p2c_tweaks@.len() - k,
    {
        let t = &c.p2c_tweaks[k];
        let index = t.derivation_index.index();
        if t.outpoint.txid.len() > 0xffff || t.script.len() > 0xffff || t.tweak.len() > 0xffff || t.pubkey.len()
            > 0xffff {
            proof {
                assert(!tweaked_encodable(tweaks[k as int]));
            }
            return false;
        }
        k = k + 1;
    }
    let ghost reveals = c.blinding_reveals@.map_values(|r: BlindingReveal| r.model());
    let mut k: usize = 0;
    while k < c.blinding_reveals.len()
        invariant
            0 <= k <= c.blinding_reveals@.len(),
            reveals == c.blinding_reveals@.map_values(|r: BlindingReveal| r.model()),
            forall|j: int| 0 <= j < k ==> reveal_encodable(#[trigger] reveals[j]),
        decreases c.blinding_reveals@.len() - k,
    {
        let r = &c.blinding_reveals[k];
        if r.hash.len() > 0xffff || r.outpoint.txid.len() > 0xffff {
            proof {
                assert(!reveal_encodable(reveals[k as int]));
            }
            return false;
        }
        k = k + 1;
    }
    true
}

/// The canonical encoding of a contract; `None` where a length or a count
/// does not fit in 16 bits.
pub fn encode_contract(c: &Contract) -> (r: Option<Vec<u8>>)
    ensures
        r.is_some() == contract_record_encodable(c.record()),
        r.is_some() ==> r.unwrap()@ == enc_contract_record(c.record()),
{
    reveal(enc_contract_head);
    reveal(enc_contract_lists);
    let policy = match encode_policy(&c.policy) {
        Some(p) => p,
        None => {
            return None;
        },
    };
    if !contract_fits(c) {
        return None;
    }
    let mut out: Vec<u8> = Vec::new();
    put_bytes(&mut out, &c.id.bytes);
    push_bytes(&mut out, policy.as_slice());
    let text = c.name.as_str().as_bytes();
    put_u16(&mut out, text.len());
    push_bytes(&mut out, text);
    out.push(chain_to_byte(c.chain));
    let ghost head = out@;
    proof {
        assert(head =~= enc_contract_head(c.record()));
    }
    put_u16(&mut out, c.p2c_tweaks.len());
    let ghost tweaks = c.p2c_tweaks@.map_values(|t: TweakedOutput| t.model());
    let ghost start = out@;
    proof {
        assert(tweaks.skip(0) =~= tweaks);
    }
    let mut k: usize = 0;
    while k < c.p2c_tweaks.len()
        invariant
            0 <= k <= c.p2c_tweaks@.len(),
            tweaks == c.p2c_tweaks@.map_values(|t: TweakedOutput| t.model()),
            forall|j: int| 0 <= j < tweaks.len() ==> tweaked_encodable(#[trigger] tweaks[j]),
            out@ + cat_tweaked(tweaks.skip(k as int)) == start + cat_tweaked(tweaks),
        decreases c.p2c_tweaks@.len() - k,
    {
        let ghost before = out@;
        proof {
            assert(tweaked_encodable(tweaks[k as int]));
        }
        put_tweaked(&mut out, &c.p2c_tweaks[k]);
        proof {
            let s0 = tweaks.skip(k as int);
            assert(s0.skip(1) =~= tweaks.skip(k + 1));
            assert(cat_tweaked(s0) == enc_tweaked(s0[0]) + cat_tweaked(s0.skip(1)));
            assert(out@ + cat_tweaked(tweaks.skip(k + 1)) =~= before + cat_tweaked(s0));
        }
        k = k + 1;
    }
    proof {
        assert(tweaks.skip(k as int) =~= Seq::<TweakModel>::empty());
    }
    put_u16(&mut out, c.blinding_reveals.len());
    let ghost reveals = c.blinding_reveals@.map_values(|r: BlindingReveal| r.model());
    let ghost start2 = out@;
    proof {
        assert(reveals.skip(0) =~= reveals);
    }
    let mut k: usize = 0;
    while k < c.blinding_reveals.len()
        invariant
            0 <= k <= c.blinding_reveals@.len(),
            reveals == c.blinding_reveals@.map_values(|r: BlindingReveal| r.model()),
            forall|j: int| 0 <= j < reveals.len() ==> reveal_encodable(#[trigger] reveals[j]),
            out@ + cat_reveals(reveals.skip(k as int)) == start2 + cat_reveals(reveals),
        decreases c.blinding_reveals@.len() - k,
    {
        let ghost before = out@;
        proof {
            assert(reveal_encodable(reveals[k as int]));
        }
        put_reveal(&mut out, &c.blinding_reveals[k]);
        proof {
            let s0 = reveals.skip(k as int);
            assert(s0.skip(1) =~= reveals.skip(k + 1));
            assert(cat_reveals(s0) == enc_reveal(s0[0]) + cat_reveals(s0.skip(1)));
            assert(out@ + cat_reveals(reveals.skip(k + 1)) =~= before + cat_reveals(s0));
        }
        k = k + 1;
    }
    proof {
        assert(reveals.skip(k as int) =~= Seq::<RevealModel>::empty());
        assert(out@ =~= head + enc_contract_lists(tweaks, reveals));
    }
    Some(out)
}


#[verifier::rlimit(40)]
fn get_tweaked(buf: &Vec<u8>, pos: usize) -> (r: Option<(TweakedOutput, usize)>)
    requires
        pos <= buf@.len(),
    ensures
        r.is_some() == dec_tweaked(buf@.skip(pos as int)).is_some(),
        r.is_some() ==> r.unwrap().0.model() == dec_tweaked(buf@.skip(pos as int)).unwrap().0 && r.unwrap().1
            == dec_tweaked(buf@.skip(pos as int)).unwrap().1,
        r.is_some() ==> pos + r.unwrap().1 <= buf@.len(),
{
    reveal(dec_tweaked);
    let total: usize = buf.len();
    let (txid, c1) = match get_bytes(buf, pos) {
        Some(x) => x,
        None => {
            return None;
        },
    };
    let p1 = pos + c1;
    proof {
        lemma_skip_skip(buf@, pos as int, c1 as int);
    }
    let vout = match get_u32(buf, p1) {
        Some(v) => v,
        None => {
            return None;
        },
    };
    proof {
        lemma_skip_skip(buf@, p1 as int, 4);
    }
    let (script, c2) = match get_bytes(buf, p1 + 4) {
        Some(x) => x,
        None => {
            return None;
        },
    };
    let p2 = p1 + 4 + c2;
    proof {
        lemma_skip_skip(buf@, p1 as int, 4 + c2);
    }
    let (tweak, c3) = match get_bytes(buf, p2) {
        Some(x) => x,
        None => {
            return None;
        },
    };
    let p3 = p2 + c3;
    proof {
        lemma_skip_skip(buf@, p2 as int, c3 as int);
    }
    let (pubkey, c4) = match get_bytes(buf, p3) {
        Some(x) => x,
        None => {
            return None;
        },
    };
    let p4 = p3 + c4;
    proof {
        lemma_skip_skip(buf@, p3 as int, c4 as int);
    }
    let raw = match get_u32(buf, p4) {
        Some(v) => v,
        None => {
            return None;
        },
    };
    let derivation_index = match UnhardenedIndex::from_index(raw) {
        Some(i) => i,
        None => {
            return None;
        },
    };
    Some(
        (
            TweakedOutput { outpoint: OutPoint { txid, vout }, script, tweak, pubkey, derivation_index },
            c1 + 4 + c2 + c3 + c4 + 4,
        ),
    )
}

fn get_reveal(buf: &Vec<u8>, pos: usize) -> (r: Option<(BlindingReveal, usize)>)
    requires
        pos <= buf@.len(),
    ensures
        r.is_some() == dec_reveal(buf@.skip(pos as int)).is_some(),
        r.is_some() ==> r.unwrap().0.model() == dec_reveal(buf@.skip(pos as int)).unwrap().0 && r.unwrap().1
            == dec_reveal(buf@.skip(pos as int)).unwrap().1,
        r.is_some() ==> pos + r.unwrap().1 <= buf@.len(),
{
    reveal(dec_reveal);
    let total: usize = buf.len();
    let (hash, c1) = match get_bytes(buf, pos) {
        Some(x) => x,
        None => {
            return None;
        },
    };
    let p1 = pos + c1;
    proof {
        lemma_skip_skip(buf@, pos as int, c1 as int);
    }
    let (txid, c2) = match get_bytes(buf, p1) {
        Some(x) => x,
        None => {
            return None;
        },
    };
    let p2 = p1 + c2;
    proof {
        lemma_skip_skip(buf@, p1 as int, c2 as int);
    }
    let vout = match get_u32(buf, p2) {
        Some(v) => v,
        None => {
            return None;
        },
    };
    proof {
        lemma_skip_skip(buf@, p2 as int, 4);
    }
    let blinding = match get_u64(buf, p2 + 4) {
        Some(v) => v,
        None => {
            return None;
        },
    };
    if total - (p2 + 4) < 8 {
        return None;
    }
    Some((BlindingReveal { hash, outpoint: OutPoint { txid, vout }, blinding }, c1 + c2 + 12))
}

fn get_tweaked_items(buf: &Vec<u8>, pos: usize, n: usize) -> (r: Option<(Vec<TweakedOutput>, usize)>)
    requires
        pos <= buf@.len(),
    ensures
        r.is_some() == dec_tweaked_items(buf@.skip(pos as int), n as nat).is_some(),
        r.is_some() ==> r.unwrap().0@.map_values(|t: TweakedOutput| t.model()) == dec_tweaked_items(
            buf@.skip(pos as int),
            n as nat,
        ).unwrap().0 && r.unwrap().1 == dec_tweaked_items(buf@.skip(pos as int), n as nat).unwrap().1,
        r.is_some() ==> pos + r.unwrap().1 <= buf@.len(),
{
    let mut items: Vec<TweakedOutput> = Vec::new();
    let mut cur = pos;
    let total: usize = buf.len();
    let mut k: usize = 0;
    while k < n
        invariant
            pos <= cur <= buf@.len(),
            buf@.len() == total,
            0 <= k <= n,
            dec_tweaked_items(buf@.skip(pos as int), n as nat) == match dec_tweaked_items(
                buf@.skip(cur as int),
                (n - k) as nat,
            ) {
                Some((rest, c)) => Some(
                    (items@.map_values(|t: TweakedOutput| t.model()) + rest, ((cur - pos) + c) as nat),
                ),
                None => None::<(Seq<TweakModel>, nat)>,
            },
        decreases n - k,
    {
        let (v, c0) = match get_tweaked(buf, cur) {
            Some(x) => x,
            None => {
                return None;
            },
        };
        let ghost old_items = items@;
        proof {
            lemma_skip_skip(buf@, cur as int, c0 as int);
        }
        items.push(v);
        proof {
            let tail = dec_tweaked_items(buf@.skip(cur + c0), (n - k - 1) as nat);
            assert(items@.map_values(|t: TweakedOutput| t.model()) =~= old_items.map_values(
                |t: TweakedOutput| t.model(),
            ).push(v.model()));
            if let Some((rest, c)) = tail {
                assert(items@.map_values(|t: TweakedOutput| t.model()) + rest =~= old_items.map_values(
                    |t: TweakedOutput| t.model(),
                ) + (seq![v.model()] + rest));
            }
        }
        cur = cur + c0;
        k = k + 1;
    }
    proof {
        assert(items@.map_values(|t: TweakedOutput| t.model()) + Seq::<TweakModel>::empty() =~= items@.map_values(
            |t: TweakedOutput| t.model(),
        ));
    }
    Some((items, cur - pos))
}

fn get_reveal_items(buf: &Vec<u8>, pos: usize, n: usize) -> (r: Option<(Vec<BlindingReveal>, usize)>)
    requires
        pos <= buf@.len(),
    ensures
        r.is_some() == dec_reveal_items(buf@.skip(pos as int), n as nat).is_some(),
        r.is_some() ==> r.unwrap().0@.map_values(|t: BlindingReveal| t.model()) == dec_reveal_items(
            buf@.skip(pos as int),
            n as nat,
        ).unwrap().0 && r.unwrap().1 == dec_reveal_items(buf@.skip(pos as int), n as nat).unwrap().1,
        r.is_some() ==> pos + r.unwrap().1 <= buf@.len(),
{
    let mut items: Vec<BlindingReveal> = Vec::new();
    let mut cur = pos;
    let total: usize = buf.len();
    let mut k: usize = 0;
    while k < n
        invariant
            pos <= cur <= buf@.len(),
            buf@.len() == total,
            0 <= k <= n,
            dec_reveal_items(buf@.skip(pos as int), n as nat) == match dec_reveal_items(
                buf@.skip(cur as int),
                (n - k) as nat,
            ) {
                Some((rest, c)) => Some(
                    (items@.map_values(|t: BlindingReveal| t.model()) + rest, ((cur - pos) + c) as nat),
                ),
                None => None::<(Seq<RevealModel>, nat)>,
            },
        decreases n - k,
    {
        let (v, c0) = match get_reveal(buf, cur) {
            Some(x) => x,
            None => {
                return None;
            },
        };
        let ghost old_items = items@;
        proof {
            lemma_skip_skip(buf@, cur as int, c0 as int);
        }
        items.push(v);
        proof {
            let tail = dec_reveal_items(buf@.skip(cur + c0), (n - k - 1) as nat);
            assert(items@.map_values(|t: BlindingReveal| t.model()) =~= old_items.map_values(
                |t: BlindingReveal| t.model(),
            ).push(v.model()));
            if let Some((rest, c)) = tail {
                assert(items@.map_values(|t: BlindingReveal| t.model()) + rest =~= old_items.map_values(
                    |t: BlindingReveal| t.model(),
                ) + (seq![v.model()] + rest));
            }
        }
        cur = cur + c0;
        k = k + 1;
    }
    proof {
        assert(items@.map_values(|t: BlindingReveal| t.model()) + Seq::<RevealModel>::empty() =~= items@.map_values(
            |t: BlindingReveal| t.model(),
        ));
    }
    Some((items, cur - pos))
}

#[verifier::rlimit(40)]
fn get_contract_head(buf: &Vec<u8>) -> (r: Option<(ContractId, crate::policy::Policy, String, Chain, usize)>)
    ensures
        r.is_some() == dec_contract_head(buf@).is_some(),
        r.is_some() ==> {
            let (id, policy, name, chain, c) = r.unwrap();
            let (head, n) = dec_contract_head(buf@).unwrap();
            &&& id.bytes@ == head.id
            &&& policy@ == head.policy
            &&& name@ == head.name
            &&& chain == head.chain
            &&& c == n
            &&& c <= buf@.len()
        },
{
    reveal(dec_contract_head);
    let total: usize = buf.len();
    proof {
        assert(buf@.skip(0) =~= buf@);
    }
    let (id, c1) = match get_bytes(buf, 0) {
        Some(x) => x,
        None => {
            return None;
        },
    };
    let (policy, c2) = match get_policy(buf, c1) {
        Some(x) => x,
        None => {
            return None;
        },
    };
    let p2 = c1 + c2;
    proof {
        lemma_skip_skip(buf@, c1 as int, c2 as int);
    }
    let (text, c3) = match get_bytes(buf, p2) {
        Some(x) => x,
        None => {
            return None;
        },
    };
    let p3 = p2 + c3;
    proof {
        lemma_skip_skip(buf@, p2 as int, c3 as int);
    }
    let name = match string_from_utf8(text) {
        Some(s) => s,
        None => {
            return None;
        },
    };
    if p3 >= total {
        return None;
    }
    let chain = match byte_to_chain(buf[p3]) {
        Some(c) => c,
        None => {
            return None;
        },
    };
    Some((ContractId { bytes: id }, policy, name, chain, p3 + 1))
}

#[verifier::rlimit(40)]
fn get_contract_lists(buf: &Vec<u8>, pos: usize) -> (r: Option<(Vec<TweakedOutput>, Vec<BlindingReveal>, usize)>)
    requires
        pos <= buf@.len(),
    ensures
        r.is_some() == dec_contract_lists(buf@.skip(pos as int)).is_some(),
        r.is_some() ==> {
            let (tweaks, reveals, c) = r.unwrap();
            let ((t, v), n) = dec_contract_lists(buf@.skip(pos as int)).unwrap();
            &&& tweaks@.map_values(|x: TweakedOutput| x.model()) == t
            &&& reveals@.map_values(|x: BlindingReveal| x.model()) == v
            &&& c == n
            &&& pos + c <= buf@.len()
        },
{
    reveal(dec_contract_lists);
    let total: usize = buf.len();
    let n1 = match get_u16(buf, pos) {
        Some(n) => n,
        None => {
            return None;
        },
    };
    proof {
        lemma_skip_skip(buf@, pos as int, 2);
    }
    let (tweaks, c1) = match get_tweaked_items(buf, pos + 2, n1) {
        Some(x) => x,
        None => {
            return None;
        },
    };
    let p1 = pos + 2 + c1;
    proof {
        lemma_skip_skip(buf@, pos as int, 2 + c1);
    }
    let n2 = match get_u16(buf, p1) {
        Some(n) => n,
        None => {
            return None;
        },
    };
    proof {
        lemma_skip_skip(buf@, p1 as int, 2);
    }
    let (reveals, c2) = match get_reveal_items(buf, p1 + 2, n2) {
        Some(x) => x,
        None => {
            return None;
        },
    };
    Some((tweaks, reveals, 2 + c1 + 2 + c2))
}

/// Reads a contract from its canonical encoding; `None` where the bytes are
/// not the encoding of one, or hold more than one.
pub fn decode_contract(buf: &Vec<u8>) -> (r: Option<Contract>)
    ensures
        r.is_some() <==> (dec_contract_record(buf@).is_some() && dec_contract_record(buf@).unwrap().1 == buf@.len()),
        r.is_some() ==> r.unwrap().record() == dec_contract_record(buf@).unwrap().0,
{
    let total: usize = buf.len();
    let (id, policy, name, chain, c1) = match get_contract_head(buf) {
        Some(x) => x,
        None => {
            return None;
        },
    };
    let (p2c_tweaks, blinding_reveals, c2) = match get_contract_lists(buf, c1) {
        Some(x) => x,
        None => {
            return None;
        },
    };
    if c1 + c2 != buf.len() {
        return None;
    }
    let r = Contract { id, policy, name, chain, p2c_tweaks, blinding_reveals, history: Vec::new() };
    proof {
        assert(r.record() =~= dec_contract_record(buf@).unwrap().0);
    }
    Some(r)
}

} // verus!
