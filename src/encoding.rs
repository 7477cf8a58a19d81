use vstd::prelude::*;

use crate::policy::{ChannelDescriptor, ContentType, ContractDescriptor, Policy, PubkeyChain, TerminalStep};
use crate::text::push_bytes;

verus! {

/// A key chain as a value.
pub struct ChainModel {
    pub master: Option<Seq<u8>>,
    pub source_path: Seq<u32>,
    pub branch_xpub: Seq<u8>,
    pub terminal_path: Seq<TerminalStep>,
}

/// A contract descriptor as a value.
pub enum ContractModel {
    SingleSig { category: ContentType, pk: ChainModel },
    MultiSig { category: ContentType, threshold: nat, signers: Seq<ChainModel>, sorted: bool },
}

/// A channel descriptor as a value.
pub struct ChannelModel {
    pub channel_id: Seq<u8>,
    pub peers: Seq<Seq<u8>>,
}

/// A policy as a value.
pub enum PolicyModel {
    Current(ContractModel),
    Instant(ChannelModel),
    Saving(ContractModel),
}

/// A 16-bit integer, little-endian.
pub open spec fn enc_u16(v: nat) -> Seq<u8> {
    seq![(v % 256) as u8, ((v / 256) % 256) as u8]
}

/// A 32-bit integer, little-endian.
pub open spec fn enc_u32(v: u32) -> Seq<u8> {
    seq![(v % 256) as u8, ((v / 256) % 256) as u8, ((v / 65536) % 256) as u8, ((v / 16777216) % 256) as u8]
}

/// Reads a 16-bit integer from the first two bytes of `b`, little-endian.
pub open spec fn dec_u16(b: Seq<u8>) -> Option<nat> {
    if b.len() >= 2 {
        Some((b[0] + 256 * b[1]) as nat)
    } else {
        None
    }
}

/// Reads a 32-bit integer from the first four bytes of `b`, little-endian.
pub open spec fn dec_u32(b: Seq<u8>) -> Option<u32> {
    if b.len() >= 4 {
        Some((b[0] + 256 * b[1] + 65536 * b[2] + 16777216 * b[3]) as u32)
    } else {
        None
    }
}

/// Bytes with a 16-bit length in front.
pub open spec fn enc_bytes(s: Seq<u8>) -> Seq<u8> {
    enc_u16(s.len()) + s
}

/// Reads a length-prefixed byte string at the start of `b`: the value and how many bytes it
/// takes; `None` where the bytes do not hold one.
pub open spec fn dec_bytes(b: Seq<u8>) -> Option<(Seq<u8>, nat)> {
    match dec_u16(b) {
        Some(n) => if b.len() >= 2 + n {
            Some((b.subrange(2, (2 + n) as int), (2 + n) as nat))
        } else {
            None
        },
        None => None,
    }
}

/// 32-bit integers one after another.
pub open spec fn cat_u32(s: Seq<u32>) -> Seq<u8>
    decreases s.len(),
{
    if s.len() == 0 {
        Seq::empty()
    } else {
        enc_u32(s[0]) + cat_u32(s.skip(1))
    }
}

/// Reads `n` 32-bit integers at the start of `b`: the value and how many bytes it
/// takes; `None` where the bytes do not hold one.
pub open spec fn dec_u32_items(b: Seq<u8>, n: nat) -> Option<(Seq<u32>, nat)>
    decreases n,
{
    if n == 0 {
        Some((Seq::empty(), 0))
    } else {
        match dec_u32(b) {
            Some(v) => match dec_u32_items(b.skip(4), (n - 1) as nat) {
                Some((rest, c)) => Some((seq![v] + rest, 4 + c)),
                None => None,
            },
            None => None,
        }
    }
}

/// A terminal step: a zero and the child number, or a one for the
/// wildcard.
pub open spec fn enc_step(s: TerminalStep) -> Seq<u8> {
    match s {
        TerminalStep::Index(i) => seq![0u8] + enc_u32(i),
        TerminalStep::Wildcard => seq![1u8],
    }
}

/// Reads a terminal step at the start of `b`: the value and how many bytes it
/// takes; `None` where the bytes do not hold one.
pub open spec fn dec_step(b: Seq<u8>) -> Option<(TerminalStep, nat)> {
    if b.len() >= 1 && b[0] == 0 {
        match dec_u32(b.skip(1)) {
            Some(i) => Some((TerminalStep::Index(i), 5)),
            None => None,
        }
    } else if b.len() >= 1 && b[0] == 1 {
        Some((TerminalStep::Wildcard, 1))
    } else {
        None
    }
}

/// Terminal steps one after another.
pub open spec fn cat_steps(s: Seq<TerminalStep>) -> Seq<u8>
    decreases s.len(),
{
    if s.len() == 0 {
        Seq::empty()
    } else {
        enc_step(s[0]) + cat_steps(s.skip(1))
    }
}

/// Reads `n` terminal steps at the start of `b`: the value and how many bytes it
/// takes; `None` where the bytes do not hold one.
pub open spec fn dec_step_items(b: Seq<u8>, n: nat) -> Option<(Seq<TerminalStep>, nat)>
    decreases n,
{
    if n == 0 {
        Some((Seq::empty(), 0))
    } else {
        match dec_step(b) {
            Some((v, c0)) => match dec_step_items(b.skip(c0 as int), (n - 1) as nat) {
                Some((rest, c)) => Some((seq![v] + rest, c0 + c)),
                None => None,
            },
            None => None,
        }
    }
}

/// A length-prefixed byte string after another.
pub open spec fn cat_bytes(s: Seq<Seq<u8>>) -> Seq<u8>
    decreases s.len(),
{
    if s.len() == 0 {
        Seq::empty()
    } else {
        enc_bytes(s[0]) + cat_bytes(s.skip(1))
    }
}

/// Reads `n` byte strings at the start of `b`: the value and how many bytes it
/// takes; `None` where the bytes do not hold one.
pub open spec fn dec_bytes_items(b: Seq<u8>, n: nat) -> Option<(Seq<Seq<u8>>, nat)>
    decreases n,
{
    if n == 0 {
        Some((Seq::empty(), 0))
    } else {
        match dec_bytes(b) {
            Some((v, c0)) => match dec_bytes_items(b.skip(c0 as int), (n - 1) as nat) {
                Some((rest, c)) => Some((seq![v] + rest, c0 + c)),
                None => None,
            },
            None => None,
        }
    }
}

/// A key chain: its master fingerprint as an option (a zero, or a one and
/// the bytes), its source path, its branch key and its terminal path.
#[verifier::opaque]
pub open spec fn enc_chain(c: ChainModel) -> Seq<u8> {
    (match c.master {
        None => seq![0u8],
        Some(m) => seq![1u8] + enc_bytes(m),
    }) + enc_u16(c.source_path.len()) + cat_u32(c.source_path) + enc_bytes(c.branch_xpub) + enc_u16(
        c.terminal_path.len(),
    ) + cat_steps(c.terminal_path)
}

/// Reads an optional master fingerprint at the start of `b`: the value and how many bytes it
/// takes; `None` where the bytes do not hold one.
pub open spec fn dec_master(b: Seq<u8>) -> Option<(Option<Seq<u8>>, nat)> {
    if b.len() >= 1 && b[0] == 0 {
        Some((None, 1))
    } else if b.len() >= 1 && b[0] == 1 {
        match dec_bytes(b.skip(1)) {
            Some((m, c)) => Some((Some(m), 1 + c)),
            None => None,
        }
    } else {
        None
    }
}

/// Reads a key chain at the start of `b`: the value and how many bytes it
/// takes; `None` where the bytes do not hold one.
#[verifier::opaque]
pub open spec fn dec_chain(b: Seq<u8>) -> Option<(ChainModel, nat)> {
    match dec_master(b) {
        None => None,
        Some((master, c1)) => {
            let b1 = b.skip(c1 as int);
            match dec_u16(b1) {
                None => None,
                Some(n1) => match dec_u32_items(b1.skip(2), n1) {
                    None => None,
                    Some((source_path, c2)) => {
                        let b2 = b1.skip((2 + c2) as int);
                        match dec_bytes(b2) {
                            None => None,
                            Some((branch_xpub, c3)) => {
                                let b3 = b2.skip(c3 as int);
                                match dec_u16(b3) {
                                    None => None,
                                    Some(n2) => match dec_step_items(b3.skip(2), n2) {
                                        None => None,
                                        Some((terminal_path, c4)) => Some(
                                            (
                                                ChainModel { master, source_path, branch_xpub, terminal_path },
                                                c1 + 2 + c2 + c3 + 2 + c4,
                                            ),
                                        ),
                                    },
                                }
                            },
                        }
                    },
                },
            }
        },
    }
}

/// Key chains one after another.
pub open spec fn cat_chains(s: Seq<ChainModel>) -> Seq<u8>
    decreases s.len(),
{
    if s.len() == 0 {
        Seq::empty()
    } else {
        enc_chain(s[0]) + cat_chains(s.skip(1))
    }
}

/// Reads `n` key chains at the start of `b`: the value and how many bytes it
/// takes; `None` where the bytes do not hold one.
pub open spec fn dec_chain_items(b: Seq<u8>, n: nat) -> Option<(Seq<ChainModel>, nat)>
    decreases n,
{
    if n == 0 {
        Some((Seq::empty(), 0))
    } else {
        match dec_chain(b) {
            Some((v, c0)) => match dec_chain_items(b.skip(c0 as int), (n - 1) as nat) {
                Some((rest, c)) => Some((seq![v] + rest, c0 + c)),
                None => None,
            },
            None => None,
        }
    }
}

/// The byte of a content type.
pub open spec fn enc_category(c: ContentType) -> u8 {
    match c {
        ContentType::Bare => 0,
        ContentType::Hashed => 1,
        ContentType::SegWit => 2,
    }
}

pub open spec fn dec_category(b: u8) -> Option<ContentType> {
    if b == 0 {
        Some(ContentType::Bare)
    } else if b == 1 {
        Some(ContentType::Hashed)
    } else if b == 2 {
        Some(ContentType::SegWit)
    } else {
        None
    }
}

/// A contract descriptor: its variant (zero for a single signature, one for
/// a multisig), its category and its fields in order.
pub open spec fn enc_contract(d: ContractModel) -> Seq<u8> {
    match d {
        ContractModel::SingleSig { category, pk } => seq![0u8, enc_category(category)] + enc_chain(pk),
        ContractModel::MultiSig { category, threshold, signers, sorted } => seq![1u8, enc_category(category)]
            + enc_u16(threshold) + enc_u16(signers.len()) + cat_chains(signers) + seq![
            if sorted {
                1u8
            } else {
                0u8
            },
        ],
    }
}

/// Reads a contract descriptor at the start of `b`: the value and how many bytes it
/// takes; `None` where the bytes do not hold one.
pub open spec fn dec_contract(b: Seq<u8>) -> Option<(ContractModel, nat)> {
    if b.len() < 2 {
        None
    } else {
        match dec_category(b[1]) {
            None => None,
            Some(category) => if b[0] == 0 {
                match dec_chain(b.skip(2)) {
                    Some((pk, c)) => Some((ContractModel::SingleSig { category, pk }, 2 + c)),
                    None => None,
                }
            } else if b[0] == 1 {
                let b1 = b.skip(2);
                match (dec_u16(b1), dec_u16(b1.skip(2))) {
                    (Some(threshold), Some(n)) => match dec_chain_items(b1.skip(4), n) {
                        Some((signers, c)) => {
                            let b2 = b1.skip((4 + c) as int);
                            if b2.len() >= 1 && (b2[0] == 0 || b2[0] == 1) {
                                Some(
                                    (
                                        ContractModel::MultiSig { category, threshold, signers, sorted: b2[0] == 1 },
                                        2 + 4 + c + 1,
                                    ),
                                )
                            } else {
                                None
                            }
                        },
                        None => None,
                    },
                    _ => None,
                }
            } else {
                None
            },
        }
    }
}

/// A channel descriptor: its id and its peers.
pub open spec fn enc_channel(c: ChannelModel) -> Seq<u8> {
    enc_bytes(c.channel_id) + enc_u16(c.peers.len()) + cat_bytes(c.peers)
}

/// Reads a channel descriptor at the start of `b`: the value and how many bytes it
/// takes; `None` where the bytes do not hold one.
pub open spec fn dec_channel(b: Seq<u8>) -> Option<(ChannelModel, nat)> {
    match dec_bytes(b) {
        None => None,
        Some((channel_id, c1)) => {
            let b1 = b.skip(c1 as int);
            match dec_u16(b1) {
                None => None,
                Some(n) => match dec_bytes_items(b1.skip(2), n) {
                    None => None,
                    Some((peers, c2)) => Some((ChannelModel { channel_id, peers }, c1 + 2 + c2)),
                },
            }
        },
    }
}

/// The canonical encoding of a policy: its variant (zero for current, one
/// for instant, two for saving) and its descriptor.
pub open spec fn enc_policy(p: PolicyModel) -> Seq<u8> {
    match p {
        PolicyModel::Current(d) => seq![0u8] + enc_contract(d),
        PolicyModel::Instant(c) => seq![1u8] + enc_channel(c),
        PolicyModel::Saving(d) => seq![2u8] + enc_contract(d),
    }
}

/// Reads a policy at the start of `b`: the value and how many bytes it
/// takes; `None` where the bytes do not hold one.
pub open spec fn dec_policy(b: Seq<u8>) -> Option<(PolicyModel, nat)> {
    if b.len() >= 1 && b[0] == 0 {
        match dec_contract(b.skip(1)) {
            Some((d, c)) => Some((PolicyModel::Current(d), 1 + c)),
            None => None,
        }
    } else if b.len() >= 1 && b[0] == 1 {
        match dec_channel(b.skip(1)) {
            Some((d, c)) => Some((PolicyModel::Instant(d), 1 + c)),
            None => None,
        }
    } else if b.len() >= 1 && b[0] == 2 {
        match dec_contract(b.skip(1)) {
            Some((d, c)) => Some((PolicyModel::Saving(d), 1 + c)),
            None => None,
        }
    } else {
        None
    }
}

/// Every length and count fits in 16 bits.
pub open spec fn chain_encodable(c: ChainModel) -> bool {
    &&& c.master.is_some() ==> c.master.unwrap().len() <= u16::MAX
    &&& c.source_path.len() <= u16::MAX
    &&& c.branch_xpub.len() <= u16::MAX
    &&& c.terminal_path.len() <= u16::MAX
}

/// Whether a contract descriptor has an encoding.
pub open spec fn contract_encodable(d: ContractModel) -> bool {
    match d {
        ContractModel::SingleSig { pk, .. } => chain_encodable(pk),
        ContractModel::MultiSig { threshold, signers, .. } => {
            &&& threshold <= u16::MAX
            &&& signers.len() <= u16::MAX
            &&& forall|k: int| 0 <= k < signers.len() ==> chain_encodable(#[trigger] signers[k])
        },
    }
}

/// Whether a channel descriptor has an encoding.
pub open spec fn channel_encodable(c: ChannelModel) -> bool {
    &&& c.channel_id.len() <= u16::MAX
    &&& c.peers.len() <= u16::MAX
    &&& forall|k: int| 0 <= k < c.peers.len() ==> (#[trigger] c.peers[k]).len() <= u16::MAX
}

/// Whether a policy has an encoding: every length and count fits in 16
/// bits.
pub open spec fn policy_encodable(p: PolicyModel) -> bool {
    match p {
        PolicyModel::Current(d) => contract_encodable(d),
        PolicyModel::Instant(c) => channel_encodable(c),
        PolicyModel::Saving(d) => contract_encodable(d),
    }
}

// Round trips, from the integers up.

pub(crate) proof fn lemma_u16(v: nat, rest: Seq<u8>)
    requires
        v <= u16::MAX,
    ensures
        dec_u16(enc_u16(v) + rest) == Some(v),
        (enc_u16(v) + rest).skip(2) == rest,
        enc_u16(v).len() == 2,
{
    let b = enc_u16(v) + rest;
    assert(b[0] == v % 256);
    assert(b[1] == (v / 256) % 256);
    assert((v / 256) % 256 == v / 256);
    assert(v % 256 + 256 * (v / 256) == v);
    assert(b.skip(2) =~= rest);
}

pub(crate) proof fn lemma_u32(v: u32, rest: Seq<u8>)
    ensures
        dec_u32(enc_u32(v) + rest) == Some(v),
        (enc_u32(v) + rest).skip(4) == rest,
        enc_u32(v).len() == 4,
{
    let b = enc_u32(v) + rest;
    assert(b[0] == v % 256);
    assert(b[1] == (v / 256) % 256);
    assert(b[2] == (v / 65536) % 256);
    assert(b[3] == (v / 16777216) % 256);
    let x = v as int;
    assert(x % 256 + 256 * ((x / 256) % 256) + 65536 * ((x / 65536) % 256) + 16777216 * ((x / 16777216) % 256) == x)
        by (nonlinear_arith)
        requires
            0 <= x < 0x1_0000_0000,
    {
        assert(x / 256 == (x / 256) % 256 + 256 * (x / 65536)) by {
            assert(x / 65536 == (x / 256) / 256);
        }
        assert(x / 65536 == (x / 65536) % 256 + 256 * (x / 16777216)) by {
            assert(x / 16777216 == (x / 65536) / 256);
        }
        assert((x / 16777216) % 256 == x / 16777216);
    }
    assert(b.skip(4) =~= rest);
}


pub(crate) proof fn lemma_skip_concat(a: Seq<u8>, rest: Seq<u8>)
    ensures
        (a + rest).skip(a.len() as int) == rest,
{
    assert((a + rest).skip(a.len() as int) =~= rest);
}

pub(crate) proof fn lemma_assoc(a: Seq<u8>, b: Seq<u8>, c: Seq<u8>)
    ensures
        a + b + c == a + (b + c),
{
    assert(a + b + c =~= a + (b + c));
}

pub(crate) proof fn lemma_bytes(s: Seq<u8>, rest: Seq<u8>)
    requires
        s.len() <= u16::MAX,
    ensures
        dec_bytes(enc_bytes(s) + rest) == Some((s, enc_bytes(s).len())),
{
    lemma_assoc(enc_u16(s.len()), s, rest);
    lemma_u16(s.len(), s + rest);
    let b = enc_bytes(s) + rest;
    assert(b.subrange(2, 2 + s.len() as int) =~= s);
}

pub(crate) proof fn lemma_u32_items(s: Seq<u32>, rest: Seq<u8>)
    ensures
        dec_u32_items(cat_u32(s) + rest, s.len()) == Some((s, cat_u32(s).len())),
    decreases s.len(),
{
    if s.len() > 0 {
        lemma_assoc(enc_u32(s[0]), cat_u32(s.skip(1)), rest);
        lemma_u32(s[0], cat_u32(s.skip(1)) + rest);
        lemma_u32_items(s.skip(1), rest);
        assert(seq![s[0]] + s.skip(1) =~= s);
    }
}

proof fn lemma_step(v: TerminalStep, rest: Seq<u8>)
    ensures
        dec_step(enc_step(v) + rest) == Some((v, enc_step(v).len())),
{
    match v {
        TerminalStep::Index(i) => {
            lemma_assoc(seq![0u8], enc_u32(i), rest);
            lemma_skip_concat(seq![0u8], enc_u32(i) + rest);
            lemma_u32(i, rest);
        },
        TerminalStep::Wildcard => {},
    }
}

proof fn lemma_step_items(s: Seq<TerminalStep>, rest: Seq<u8>)
    ensures
        dec_step_items(cat_steps(s) + rest, s.len()) == Some((s, cat_steps(s).len())),
    decreases s.len(),
{
    if s.len() > 0 {
        lemma_assoc(enc_step(s[0]), cat_steps(s.skip(1)), rest);
        lemma_step(s[0], cat_steps(s.skip(1)) + rest);
        lemma_skip_concat(enc_step(s[0]), cat_steps(s.skip(1)) + rest);
        lemma_step_items(s.skip(1), rest);
        assert(seq![s[0]] + s.skip(1) =~= s);
    }
}

#[verifier::rlimit(30)]
proof fn lemma_bytes_items(s: Seq<Seq<u8>>, rest: Seq<u8>)
    requires
        forall|k: int| 0 <= k < s.len() ==> (#[trigger] s[k]).len() <= u16::MAX,
    ensures
        dec_bytes_items(cat_bytes(s) + rest, s.len()) == Some((s, cat_bytes(s).len())),
    decreases s.len(),
{
    if s.len() > 0 {
        lemma_assoc(enc_bytes(s[0]), cat_bytes(s.skip(1)), rest);
        lemma_bytes(s[0], cat_bytes(s.skip(1)) + rest);
        lemma_skip_concat(enc_bytes(s[0]), cat_bytes(s.skip(1)) + rest);
        assert forall|k: int| 0 <= k < s.skip(1).len() implies (#[trigger] s.skip(1)[k]).len() <= u16::MAX by {
            assert(s.skip(1)[k] == s[k + 1]);
        }
        lemma_bytes_items(s.skip(1), rest);
        assert(seq![s[0]] + s.skip(1) =~= s);
    }
}

#[verifier::rlimit(40)]
proof fn lemma_chain(c: ChainModel, rest: Seq<u8>)
    requires
        chain_encodable(c),
    ensures
        dec_chain(enc_chain(c) + rest) == Some((c, enc_chain(c).len())),
{
    reveal(enc_chain);
    reveal(dec_chain);
    let m = match c.master {
        None => seq![0u8],
        Some(m) => seq![1u8] + enc_bytes(m),
    };
    let p1 = enc_u16(c.source_path.len());
    let p2 = cat_u32(c.source_path);
    let p3 = enc_bytes(c.branch_xpub);
    let p4 = enc_u16(c.terminal_path.len());
    let p5 = cat_steps(c.terminal_path);
    let b = enc_chain(c) + rest;
    let r5 = p5 + rest;
    let r4 = p4 + r5;
    let r3 = p3 + r4;
    let r2 = p2 + r3;
    let r1 = p1 + r2;
    assert(b =~= m + r1);
    match c.master {
        None => {},
        Some(mm) => {
            lemma_assoc(seq![1u8], enc_bytes(mm), r1);
            lemma_skip_concat(seq![1u8], enc_bytes(mm) + r1);
            lemma_bytes(mm, r1);
        },
    }
    assert(dec_master(b) == Some((c.master, m.len())));
    lemma_skip_concat(m, r1);
    lemma_u16(c.source_path.len(), r2);
    lemma_u32_items(c.source_path, r3);
    lemma_skip_concat(p2, r3);
    assert(r1.skip(2 + p2.len() as int) =~= r3);
    lemma_bytes(c.branch_xpub, r4);
    lemma_skip_concat(p3, r4);
    lemma_u16(c.terminal_path.len(), r5);
    lemma_step_items(c.terminal_path, rest);
    assert(enc_chain(c).len() == m.len() + 2 + p2.len() + p3.len() + 2 + p5.len());
}

proof fn lemma_chain_items(s: Seq<ChainModel>, rest: Seq<u8>)
    requires
        forall|k: int| 0 <= k < s.len() ==> chain_encodable(#[trigger] s[k]),
    ensures
        dec_chain_items(cat_chains(s) + rest, s.len()) == Some((s, cat_chains(s).len())),
    decreases s.len(),
{
    if s.len() > 0 {
        lemma_assoc(enc_chain(s[0]), cat_chains(s.skip(1)), rest);
        lemma_chain(s[0], cat_chains(s.skip(1)) + rest);
        lemma_skip_concat(enc_chain(s[0]), cat_chains(s.skip(1)) + rest);
        assert forall|k: int| 0 <= k < s.skip(1).len() implies chain_encodable(#[trigger] s.skip(1)[k]) by {
            assert(s.skip(1)[k] == s[k + 1]);
        }
        lemma_chain_items(s.skip(1), rest);
        assert(seq![s[0]] + s.skip(1) =~= s);
    }
}

proof fn lemma_contract(d: ContractModel, rest: Seq<u8>)
    requires
        contract_encodable(d),
    ensures
        dec_contract(enc_contract(d) + rest) == Some((d, enc_contract(d).len())),
{
    let b = enc_contract(d) + rest;
    match d {
        ContractModel::SingleSig { category, pk } => {
            let h = seq![0u8, enc_category(category)];
            lemma_assoc(h, enc_chain(pk), rest);
            lemma_skip_concat(h, enc_chain(pk) + rest);
            lemma_chain(pk, rest);
        },
        ContractModel::MultiSig { category, threshold, signers, sorted } => {
            let h = seq![1u8, enc_category(category)];
            let t = seq![
                if sorted {
                    1u8
                } else {
                    0u8
                },
            ];
            let r3 = t + rest;
            let r2 = cat_chains(signers) + r3;
            let r1 = enc_u16(signers.len()) + r2;
            let r0 = enc_u16(threshold) + r1;
            assert(b =~= h + r0);
            lemma_skip_concat(h, r0);
            lemma_u16(threshold, r1);
            lemma_u16(signers.len(), r2);
            assert(r0.skip(2).skip(2) =~= r0.skip(4));
            lemma_chain_items(signers, r3);
            lemma_skip_concat(cat_chains(signers), r3);
            assert(r0.skip(4 + cat_chains(signers).len() as int) =~= r3);
        },
    }
}

proof fn lemma_channel(c: ChannelModel, rest: Seq<u8>)
    requires
        channel_encodable(c),
    ensures
        dec_channel(enc_channel(c) + rest) == Some((c, enc_channel(c).len())),
{
    let r2 = cat_bytes(c.peers) + rest;
    let r1 = enc_u16(c.peers.len()) + r2;
    assert(enc_channel(c) + rest =~= enc_bytes(c.channel_id) + r1);
    lemma_bytes(c.channel_id, r1);
    lemma_skip_concat(enc_bytes(c.channel_id), r1);
    lemma_u16(c.peers.len(), r2);
    lemma_bytes_items(c.peers, rest);
}

/// Decoding the encoding of a policy, and nothing more, gives the policy
/// back.
pub proof fn lemma_policy_decode_encode(p: PolicyModel)
    requires
        policy_encodable(p),
    ensures
        dec_policy(enc_policy(p)) == Some((p, enc_policy(p).len())),
{
    lemma_policy_round_trip(p, Seq::empty());
    assert(enc_policy(p) + Seq::<u8>::empty() =~= enc_policy(p));
}

/// Decoding the encoding of a policy gives the policy back, and consumes
/// exactly the encoding, whatever follows it.
pub proof fn lemma_policy_round_trip(p: PolicyModel, rest: Seq<u8>)
    requires
        policy_encodable(p),
    ensures
        dec_policy(enc_policy(p) + rest) == Some((p, enc_policy(p).len())),
{
    match p {
        PolicyModel::Current(d) => {
            lemma_assoc(seq![0u8], enc_contract(d), rest);
            lemma_skip_concat(seq![0u8], enc_contract(d) + rest);
            lemma_contract(d, rest);
        },
        PolicyModel::Instant(c) => {
            lemma_assoc(seq![1u8], enc_channel(c), rest);
            lemma_skip_concat(seq![1u8], enc_channel(c) + rest);
            lemma_channel(c, rest);
        },
        PolicyModel::Saving(d) => {
            lemma_assoc(seq![2u8], enc_contract(d), rest);
            lemma_skip_concat(seq![2u8], enc_contract(d) + rest);
            lemma_contract(d, rest);
        },
    }
}


impl PubkeyChain {
    /// The chain as a value.
    pub open spec fn model(&self) -> ChainModel {
        ChainModel {
            master: match self.master {
                Some(m) => Some(m@),
                None => None,
            },
            source_path: self.source_path@,
            branch_xpub: self.branch_xpub@,
            terminal_path: self.terminal_path@,
        }
    }
}

/// The values of a list of chains.
pub open spec fn chain_models(s: Seq<PubkeyChain>) -> Seq<ChainModel> {
    s.map_values(|c: PubkeyChain| c.model())
}

impl ContractDescriptor {
    /// The descriptor as a value.
    pub open spec fn model(&self) -> ContractModel {
        match *self {
            ContractDescriptor::SingleSig { category, pk } => ContractModel::SingleSig { category, pk: pk.model() },
            ContractDescriptor::MultiSig { category, threshold, signers, sorted } => ContractModel::MultiSig {
                category,
                threshold: threshold as nat,
                signers: chain_models(signers@),
                sorted,
            },
        }
    }
}

impl ChannelDescriptor {
    /// The channel as a value.
    pub open spec fn model(&self) -> ChannelModel {
        ChannelModel { channel_id: self.channel_id@, peers: self.peers@.map_values(|p: Vec<u8>| p@) }
    }
}

impl View for Policy {
    type V = PolicyModel;

    open spec fn view(&self) -> PolicyModel {
        match *self {
            Policy::Current(d) => PolicyModel::Current(d.model()),
            Policy::Instant(c) => PolicyModel::Instant(c.model()),
            Policy::Saving(d) => PolicyModel::Saving(d.model()),
        }
    }
}

pub(crate) fn put_u16(out: &mut Vec<u8>, v: usize)
    requires
        v <= u16::MAX,
    ensures
        final(out)@ == old(out)@ + enc_u16(v as nat),
{
    out.push((v % 256) as u8);
    out.push((v / 256) as u8);
    proof {
        assert(final(out)@ =~= old(out)@ + enc_u16(v as nat));
    }
}

pub(crate) fn put_u32(out: &mut Vec<u8>, v: u32)
    ensures
        final(out)@ == old(out)@ + enc_u32(v),
{
    out.push((v % 256) as u8);
    out.push(((v / 256) % 256) as u8);
    out.push(((v / 65536) % 256) as u8);
    out.push(((v / 16777216) % 256) as u8);
    proof {
        assert(final(out)@ =~= old(out)@ + enc_u32(v));
    }
}

pub(crate) fn put_bytes(out: &mut Vec<u8>, b: &Vec<u8>)
    requires
        b@.len() <= u16::MAX,
    ensures
        final(out)@ == old(out)@ + enc_bytes(b@),
{
    put_u16(out, b.len());
    push_bytes(out, b.as_slice());
    proof {
        assert(final(out)@ =~= old(out)@ + enc_bytes(b@));
    }
}

fn put_chain(out: &mut Vec<u8>, c: &PubkeyChain)
    requires
        chain_encodable(c.model()),
    ensures
        final(out)@ == old(out)@ + enc_chain(c.model()),
{
    let ghost start = out@;
    match &c.master {
        None => out.push(0u8),
        Some(m) => {
            out.push(1u8);
            put_bytes(out, m);
        },
    }
    let ghost after_master = out@;
    put_u16(out, c.source_path.len());
    let ghost head = out@;
    proof {
        assert(c.source_path@.skip(0) =~= c.source_path@);
    }
    let mut k: usize = 0;
    while k < c.source_path.len()
        invariant
            0 <= k <= c.source_path@.len(),
            out@ + cat_u32(c.source_path@.skip(k as int)) == head + cat_u32(c.source_path@),
        decreases c.source_path@.len() - k,
    {
        let ghost before = out@;
        put_u32(out, c.source_path[k]);
        proof {
            let s = c.source_path@.skip(k as int);
            assert(s.skip(1) =~= c.source_path@.skip(k + 1));
            assert(cat_u32(s) == enc_u32(s[0]) + cat_u32(s.skip(1)));
            assert(out@ + cat_u32(c.source_path@.skip(k + 1)) =~= before + cat_u32(s));
        }
        k = k + 1;
    }
    proof {
        assert(c.source_path@.skip(k as int) =~= Seq::<u32>::empty());
        assert(out@ =~= head + cat_u32(c.source_path@));
    }
    put_bytes(out, &c.branch_xpub);
    put_u16(out, c.terminal_path.len());
    let ghost head2 = out@;
    proof {
        assert(c.terminal_path@.skip(0) =~= c.terminal_path@);
    }
    let mut k: usize = 0;
    while k < c.terminal_path.len()
        invariant
            0 <= k <= c.terminal_path@.len(),
            out@ + cat_steps(c.terminal_path@.skip(k as int)) == head2 + cat_steps(c.terminal_path@),
        decreases c.terminal_path@.len() - k,
    {
        let ghost before = out@;
        match c.terminal_path[k] {
            TerminalStep::Index(i) => {
                out.push(0u8);
                put_u32(out, i);
            },
            TerminalStep::Wildcard => out.push(1u8),
        }
        proof {
            let s = c.terminal_path@.skip(k as int);
            assert(s.skip(1) =~= c.terminal_path@.skip(k + 1));
            assert(cat_steps(s) == enc_step(s[0]) + cat_steps(s.skip(1)));
            assert(out@ =~= before + enc_step(s[0]));
            assert(out@ + cat_steps(c.terminal_path@.skip(k + 1)) =~= before + cat_steps(s));
        }
        k = k + 1;
    }
    proof {
        reveal(enc_chain);
        assert(c.terminal_path@.skip(k as int) =~= Seq::<TerminalStep>::empty());
        assert(out@ =~= start + enc_chain(c.model()));
    }
}


fn chain_fits(c: &PubkeyChain) -> (r: bool)
    ensures
        r == chain_encodable(c.model()),
{
    let master_fits = match &c.master {
        Some(m) => m.len() <= 0xffff,
        None => true,
    };
    master_fits && c.source_path.len() <= 0xffff && c.branch_xpub.len() <= 0xffff && c.terminal_path.len() <= 0xffff
}

fn contract_fits(d: &ContractDescriptor) -> (r: bool)
    ensures
        r == contract_encodable(d.model()),
{
    match d {
        ContractDescriptor::SingleSig { pk, .. } => chain_fits(pk),
        ContractDescriptor::MultiSig { category, threshold, signers, sorted } => {
            if *threshold > 0xffff || signers.len() > 0xffff {
                return false;
            }
            let mut k: usize = 0;
            while k < signers.len()
                invariant
                    0 <= k <= signers@.len(),
                    forall|j: int| 0 <= j < k ==> chain_encodable(#[trigger] chain_models(signers@)[j]),
                    *threshold <= u16::MAX,
                    signers@.len() <= u16::MAX,
                    d.model() == (ContractModel::MultiSig {
                        category: *category,
                        threshold: *threshold as nat,
                        signers: chain_models(signers@),
                        sorted: *sorted,
                    }),
                decreases signers@.len() - k,
            {
                if !chain_fits(&signers[k]) {
                    proof {
                        assert(chain_models(signers@)[k as int] == signers@[k as int].model());
                    }
                    return false;
                }
                k = k + 1;
            }
            true
        },
    }
}

fn channel_fits(c: &ChannelDescriptor) -> (r: bool)
    ensures
        r == channel_encodable(c.model()),
{
    if c.channel_id.len() > 0xffff || c.peers.len() > 0xffff {
        return false;
    }
    let mut k: usize = 0;
    while k < c.peers.len()
        invariant
            0 <= k <= c.peers@.len(),
            forall|j: int| 0 <= j < k ==> (#[trigger] c.peers@[j])@.len() <= u16::MAX,
        decreases c.peers@.len() - k,
    {
        if c.peers[k].len() > 0xffff {
            proof {
                assert(c.model().peers[k as int] == c.peers@[k as int]@);
            }
            return false;
        }
        k = k + 1;
    }
    true
}

fn put_contract(out: &mut Vec<u8>, d: &ContractDescriptor)
    requires
        contract_encodable(d.model()),
    ensures
        final(out)@ == old(out)@ + enc_contract(d.model()),
{
    let ghost start = out@;
    match d {
        ContractDescriptor::SingleSig { category, pk } => {
            out.push(0u8);
            out.push(category_byte(*category));
            put_chain(out, pk);
            proof {
                assert(out@ =~= start + enc_contract(d.model()));
            }
        },
        ContractDescriptor::MultiSig { category, threshold, signers, sorted } => {
            out.push(1u8);
            out.push(category_byte(*category));
            put_u16(out, *threshold);
            put_u16(out, signers.len());
            let ghost head = out@;
            let ghost models = chain_models(signers@);
            proof {
                assert(models.skip(0) =~= models);
            }
            let mut k: usize = 0;
            while k < signers.len()
                invariant
                    0 <= k <= signers@.len(),
                    models == chain_models(signers@),
                    contract_encodable(d.model()),
                    d.model() == (ContractModel::MultiSig { category: *category, threshold: *threshold as nat, signers: models, sorted: *sorted }),
                    out@ + cat_chains(models.skip(k as int)) == head + cat_chains(models),
                decreases signers@.len() - k,
            {
                let ghost before = out@;
                proof {
                    assert(chain_encodable(models[k as int]));
                }
                put_chain(out, &signers[k]);
                proof {
                    let s = models.skip(k as int);
                    assert(s.skip(1) =~= models.skip(k + 1));
                    assert(s[0] == signers@[k as int].model());
                    assert(cat_chains(s) == enc_chain(s[0]) + cat_chains(s.skip(1)));
                    assert(out@ + cat_chains(models.skip(k + 1)) =~= before + cat_chains(s));
                }
                k = k + 1;
            }
            proof {
                assert(models.skip(k as int) =~= Seq::<ChainModel>::empty());
            }
            out.push(if *sorted { 1u8 } else { 0u8 });
            proof {
                assert(out@ =~= start + enc_contract(d.model()));
            }
        },
    }
}

fn category_byte(c: ContentType) -> (r: u8)
    ensures
        r == enc_category(c),
{
    match c {
        ContentType::Bare => 0,
        ContentType::Hashed => 1,
        ContentType::SegWit => 2,
    }
}

fn put_channel(out: &mut Vec<u8>, c: &ChannelDescriptor)
    requires
        channel_encodable(c.model()),
    ensures
        final(out)@ == old(out)@ + enc_channel(c.model()),
{
    let ghost start = out@;
    put_bytes(out, &c.channel_id);
    put_u16(out, c.peers.len());
    let ghost head = out@;
    let ghost models = c.peers@.map_values(|p: Vec<u8>| p@);
    proof {
        assert(models.skip(0) =~= models);
    }
    let mut k: usize = 0;
    while k < c.peers.len()
        invariant
            0 <= k <= c.peers@.len(),
            models == c.peers@.map_values(|p: Vec<u8>| p@),
            channel_encodable(c.model()),
            out@ + cat_bytes(models.skip(k as int)) == head + cat_bytes(models),
        decreases c.peers@.len() - k,
    {
        let ghost before = out@;
        proof {
            assert(models[k as int].len() <= u16::MAX);
        }
        put_bytes(out, &c.peers[k]);
        proof {
            let s = models.skip(k as int);
            assert(s.skip(1) =~= models.skip(k + 1));
            assert(cat_bytes(s) == enc_bytes(s[0]) + cat_bytes(s.skip(1)));
            assert(out@ + cat_bytes(models.skip(k + 1)) =~= before + cat_bytes(s));
        }
        k = k + 1;
    }
    proof {
        assert(models.skip(k as int) =~= Seq::<Seq<u8>>::empty());
        assert(out@ =~= start + enc_channel(c.model()));
    }
}

/// The canonical encoding of a policy; `None` where a length or a count
/// does not fit in 16 bits.
pub fn encode_policy(p: &Policy) -> (r: Option<Vec<u8>>)
    ensures
        r.is_some() == policy_encodable(p@),
        r.is_some() ==> r.unwrap()@ == enc_policy(p@),
{
    let mut out: Vec<u8> = Vec::new();
    match p {
        Policy::Current(d) => {
            if !contract_fits(d) {
                return None;
            }
            out.push(0u8);
            put_contract(&mut out, d);
        },
        Policy::Instant(c) => {
            if !channel_fits(c) {
                return None;
            }
            out.push(1u8);
            put_channel(&mut out, c);
        },
        Policy::Saving(d) => {
            if !contract_fits(d) {
                return None;
            }
            out.push(2u8);
            put_contract(&mut out, d);
        },
    }
    proof {
        assert(out@ =~= enc_policy(p@));
    }
    Some(out)
}


pub(crate) proof fn lemma_skip_skip(b: Seq<u8>, i: int, j: int)
    requires
        0 <= i,
        0 <= j,
        i + j <= b.len(),
    ensures
        b.skip(i).skip(j) == b.skip(i + j),
{
    assert(b.skip(i).skip(j) =~= b.skip(i + j));
}

pub(crate) fn get_u16(buf: &Vec<u8>, pos: usize) -> (r: Option<usize>)
    requires
        pos <= buf@.len(),
    ensures
        r.is_some() == dec_u16(buf@.skip(pos as int)).is_some(),
        r.is_some() ==> r.unwrap() == dec_u16(buf@.skip(pos as int)).unwrap(),
{
    if buf.len() - pos < 2 {
        return None;
    }
    Some(buf[pos] as usize + 256 * buf[pos + 1] as usize)
}

pub(crate) fn get_u32(buf: &Vec<u8>, pos: usize) -> (r: Option<u32>)
    requires
        pos <= buf@.len(),
    ensures
        r.is_some() == dec_u32(buf@.skip(pos as int)).is_some(),
        r.is_some() ==> r.unwrap() == dec_u32(buf@.skip(pos as int)).unwrap(),
{
    if buf.len() - pos < 4 {
        return None;
    }
    Some(buf[pos] as u32 + 256 * buf[pos + 1] as u32 + 65536 * buf[pos + 2] as u32 + 16777216 * buf[pos + 3] as u32)
}

pub(crate) fn get_bytes(buf: &Vec<u8>, pos: usize) -> (r: Option<(Vec<u8>, usize)>)
    requires
        pos <= buf@.len(),
    ensures
        r.is_some() == dec_bytes(buf@.skip(pos as int)).is_some(),
        r.is_some() ==> r.unwrap().0@ == dec_bytes(buf@.skip(pos as int)).unwrap().0 && r.unwrap().1
            == dec_bytes(buf@.skip(pos as int)).unwrap().1,
        r.is_some() ==> pos + r.unwrap().1 <= buf@.len(),
{
    let n = match get_u16(buf, pos) {
        Some(n) => n,
        None => {
            return None;
        },
    };
    if buf.len() - pos < 2 + n {
        return None;
    }
    let mut out: Vec<u8> = Vec::new();
    let mut i: usize = 0;
    while i < n
        invariant
            pos + 2 + n <= buf@.len(),
            buf@.len() <= usize::MAX,
            0 <= i <= n,
            out@ == buf@.subrange(pos + 2, pos + 2 + i),
        decreases n - i,
    {
        out.push(buf[pos + 2 + i]);
        i = i + 1;
        proof {
            assert(out@ =~= buf@.subrange(pos + 2, pos + 2 + i));
        }
    }
    proof {
        assert(out@ =~= buf@.skip(pos as int).subrange(2, 2 + n as int));
    }
    Some((out, 2 + n))
}

pub(crate) fn get_u32_items(buf: &Vec<u8>, pos: usize, n: usize) -> (r: Option<(Vec<u32>, usize)>)
    requires
        pos <= buf@.len(),
    ensures
        r.is_some() == dec_u32_items(buf@.skip(pos as int), n as nat).is_some(),
        r.is_some() ==> r.unwrap().0@ == dec_u32_items(buf@.skip(pos as int), n as nat).unwrap().0 && r.unwrap().1
            == dec_u32_items(buf@.skip(pos as int), n as nat).unwrap().1,
        r.is_some() ==> pos + r.unwrap().1 <= buf@.len(),
{
    let mut items: Vec<u32> = Vec::new();
    let mut cur = pos;
    let total: usize = buf.len();
    let mut k: usize = 0;
    while k < n
        invariant
            pos <= cur <= buf@.len(),
            buf@.len() == total,
            0 <= k <= n,
            dec_u32_items(buf@.skip(pos as int), n as nat) == match dec_u32_items(buf@.skip(cur as int), (n - k) as nat) {
                Some((rest, c)) => Some((items@ + rest, ((cur - pos) + c) as nat)),
                None => None::<(Seq<u32>, nat)>,
            },
        decreases n - k,
    {
        let v = match get_u32(buf, cur) {
            Some(v) => v,
            None => {
                return None;
            },
        };
        proof {
            lemma_skip_skip(buf@, cur as int, 4);
            let tail = dec_u32_items(buf@.skip(cur + 4), (n - k - 1) as nat);
            if let Some((rest, c)) = tail {
                assert(items@.push(v) + rest =~= items@ + (seq![v] + rest));
            }
        }
        items.push(v);
        cur = cur + 4;
        k = k + 1;
    }
    proof {
        assert(items@ + Seq::<u32>::empty() =~= items@);
    }
    Some((items, cur - pos))
}

fn get_step(buf: &Vec<u8>, pos: usize) -> (r: Option<(TerminalStep, usize)>)
    requires
        pos <= buf@.len(),
    ensures
        r.is_some() == dec_step(buf@.skip(pos as int)).is_some(),
        r.is_some() ==> r.unwrap().0 == dec_step(buf@.skip(pos as int)).unwrap().0 && r.unwrap().1 == dec_step(
            buf@.skip(pos as int),
        ).unwrap().1,
        r.is_some() ==> pos + r.unwrap().1 <= buf@.len(),
{
    if pos >= buf.len() {
        return None;
    }
    if buf[pos] == 0 {
        proof {
            lemma_skip_skip(buf@, pos as int, 1);
        }
        match get_u32(buf, pos + 1) {
            Some(i) => Some((TerminalStep::Index(i), 5)),
            None => None,
        }
    } else if buf[pos] == 1 {
        Some((TerminalStep::Wildcard, 1))
    } else {
        None
    }
}

fn get_step_items(buf: &Vec<u8>, pos: usize, n: usize) -> (r: Option<(Vec<TerminalStep>, usize)>)
    requires
        pos <= buf@.len(),
    ensures
        r.is_some() == dec_step_items(buf@.skip(pos as int), n as nat).is_some(),
        r.is_some() ==> r.unwrap().0@ == dec_step_items(buf@.skip(pos as int), n as nat).unwrap().0 && r.unwrap().1
            == dec_step_items(buf@.skip(pos as int), n as nat).unwrap().1,
        r.is_some() ==> pos + r.unwrap().1 <= buf@.len(),
{
    let mut items: Vec<TerminalStep> = Vec::new();
    let mut cur = pos;
    let total: usize = buf.len();
    let mut k: usize = 0;
    while k < n
        invariant
            pos <= cur <= buf@.len(),
            buf@.len() == total,
            0 <= k <= n,
            dec_step_items(buf@.skip(pos as int), n as nat) == match dec_step_items(
                buf@.skip(cur as int),
                (n - k) as nat,
            ) {
                Some((rest, c)) => Some((items@ + rest, ((cur - pos) + c) as nat)),
                None => None::<(Seq<TerminalStep>, nat)>,
            },
        decreases n - k,
    {
        let (v, c0) = match get_step(buf, cur) {
            Some(x) => x,
            None => {
                return None;
            },
        };
        proof {
            lemma_skip_skip(buf@, cur as int, c0 as int);
            let tail = dec_step_items(buf@.skip(cur + c0), (n - k - 1) as nat);
            if let Some((rest, c)) = tail {
                assert(items@.push(v) + rest =~= items@ + (seq![v] + rest));
            }
        }
        items.push(v);
        cur = cur + c0;
        k = k + 1;
    }
    proof {
        assert(items@ + Seq::<TerminalStep>::empty() =~= items@);
    }
    Some((items, cur - pos))
}

fn get_bytes_items(buf: &Vec<u8>, pos: usize, n: usize) -> (r: Option<(Vec<Vec<u8>>, usize)>)
    requires
        pos <= buf@.len(),
    ensures
        r.is_some() == dec_bytes_items(buf@.skip(pos as int), n as nat).is_some(),
        r.is_some() ==> r.unwrap().0@.map_values(|p: Vec<u8>| p@) == dec_bytes_items(buf@.skip(pos as int), n as nat).unwrap().0
            && r.unwrap().1 == dec_bytes_items(buf@.skip(pos as int), n as nat).unwrap().1,
        r.is_some() ==> pos + r.unwrap().1 <= buf@.len(),
{
    let mut items: Vec<Vec<u8>> = Vec::new();
    let mut cur = pos;
    let total: usize = buf.len();
    let mut k: usize = 0;
    while k < n
        invariant
            pos <= cur <= buf@.len(),
            buf@.len() == total,
            0 <= k <= n,
            dec_bytes_items(buf@.skip(pos as int), n as nat) == match dec_bytes_items(
                buf@.skip(cur as int),
                (n - k) as nat,
            ) {
                Some((rest, c)) => Some((items@.map_values(|p: Vec<u8>| p@) + rest, ((cur - pos) + c) as nat)),
                None => None::<(Seq<Seq<u8>>, nat)>,
            },
        decreases n - k,
    {
        let (v, c0) = match get_bytes(buf, cur) {
            Some(x) => x,
            None => {
                return None;
            },
        };
        let ghost old_items = items@;
        proof {
            lemma_skip_skip(buf@, cur as int, c0 as int);
        }
        items.push(v);
        proof {
            let tail = dec_bytes_items(buf@.skip(cur + c0), (n - k - 1) as nat);
            assert(items@.map_values(|p: Vec<u8>| p@) =~= old_items.map_values(|p: Vec<u8>| p@).push(v@));
            if let Some((rest, c)) = tail {
                assert(items@.map_values(|p: Vec<u8>| p@) + rest =~= old_items.map_values(|p: Vec<u8>| p@) + (seq![v@] + rest));
            }
        }
        cur = cur + c0;
        k = k + 1;
    }
    proof {
        assert(items@.map_values(|p: Vec<u8>| p@) + Seq::<Seq<u8>>::empty() =~= items@.map_values(|p: Vec<u8>| p@));
    }
    Some((items, cur - pos))
}


#[verifier::rlimit(80)]
fn get_chain(buf: &Vec<u8>, pos: usize) -> (r: Option<(PubkeyChain, usize)>)
    requires
        pos <= buf@.len(),
    ensures
        r.is_some() == dec_chain(buf@.skip(pos as int)).is_some(),
        r.is_some() ==> r.unwrap().0.model() == dec_chain(buf@.skip(pos as int)).unwrap().0 && r.unwrap().1
            == dec_chain(buf@.skip(pos as int)).unwrap().1,
        r.is_some() ==> pos + r.unwrap().1 <= buf@.len(),
{
    reveal(dec_chain);
    let b = Ghost(buf@.skip(pos as int));
    let total: usize = buf.len();
    if pos >= total {
        return None;
    }
    let (master, c1): (Option<Vec<u8>>, usize) = if buf[pos] == 0 {
        (None, 1)
    } else if buf[pos] == 1 {
        proof {
            lemma_skip_skip(buf@, pos as int, 1);
        }
        match get_bytes(buf, pos + 1) {
            Some((m, c)) => (Some(m), 1 + c),
            None => {
                return None;
            },
        }
    } else {
        return None;
    };
    let ghost master_model = match &master {
        Some(m) => Some(m@),
        None => None::<Seq<u8>>,
    };
    assert(dec_master(b@) == Some((master_model, c1 as nat)));
    let p1 = pos + c1;
    proof {
        lemma_skip_skip(buf@, pos as int, c1 as int);
    }
    let n1 = match get_u16(buf, p1) {
        Some(n) => n,
        None => {
            return None;
        },
    };
    proof {
        lemma_skip_skip(buf@, p1 as int, 2);
    }
    let (source_path, c2) = match get_u32_items(buf, p1 + 2, n1) {
        Some(x) => x,
        None => {
            return None;
        },
    };
    let p2 = p1 + 2 + c2;
    proof {
        lemma_skip_skip(buf@, p1 as int, 2 + c2);
        lemma_skip_skip(buf@, pos as int, c1 as int);
    }
    let (branch_xpub, c3) = match get_bytes(buf, p2) {
        Some(x) => x,
        None => {
            return None;
        },
    };
    let p3 = p2 + c3;
    proof {
        lemma_skip_skip(buf@, p2 as int, c3 as int);
    }
    let n2 = match get_u16(buf, p3) {
        Some(n) => n,
        None => {
            return None;
        },
    };
    proof {
        lemma_skip_skip(buf@, p3 as int, 2);
    }
    let (terminal_path, c4) = match get_step_items(buf, p3 + 2, n2) {
        Some(x) => x,
        None => {
            return None;
        },
    };
    let chain = PubkeyChain { master, source_path, branch_xpub, terminal_path };
    Some((chain, c1 + 2 + c2 + c3 + 2 + c4))
}

fn get_chain_items(buf: &Vec<u8>, pos: usize, n: usize) -> (r: Option<(Vec<PubkeyChain>, usize)>)
    requires
        pos <= buf@.len(),
    ensures
        r.is_some() == dec_chain_items(buf@.skip(pos as int), n as nat).is_some(),
        r.is_some() ==> chain_models(r.unwrap().0@) == dec_chain_items(buf@.skip(pos as int), n as nat).unwrap().0
            && r.unwrap().1 == dec_chain_items(buf@.skip(pos as int), n as nat).unwrap().1,
        r.is_some() ==> pos + r.unwrap().1 <= buf@.len(),
{
    let mut items: Vec<PubkeyChain> = Vec::new();
    let mut cur = pos;
    let total: usize = buf.len();
    let mut k: usize = 0;
    while k < n
        invariant
            pos <= cur <= buf@.len(),
            buf@.len() == total,
            0 <= k <= n,
            dec_chain_items(buf@.skip(pos as int), n as nat) == match dec_chain_items(
                buf@.skip(cur as int),
                (n - k) as nat,
            ) {
                Some((rest, c)) => Some((chain_models(items@) + rest, ((cur - pos) + c) as nat)),
                None => None::<(Seq<ChainModel>, nat)>,
            },
        decreases n - k,
    {
        let (v, c0) = match get_chain(buf, cur) {
            Some(x) => x,
            None => {
                return None;
            },
        };
        let ghost old_items = items@;
        proof {
            lemma_skip_skip(buf@, cur as int, c0 as int);
        }
        items.push(v);
        proof {
            let tail = dec_chain_items(buf@.skip(cur + c0), (n - k - 1) as nat);
            assert(chain_models(items@) =~= chain_models(old_items).push(v.model()));
            if let Some((rest, c)) = tail {
                assert(chain_models(items@) + rest =~= chain_models(old_items) + (seq![v.model()] + rest));
            }
        }
        cur = cur + c0;
        k = k + 1;
    }
    proof {
        assert(chain_models(items@) + Seq::<ChainModel>::empty() =~= chain_models(items@));
    }
    Some((items, cur - pos))
}

fn get_category(b: u8) -> (r: Option<ContentType>)
    ensures
        r == dec_category(b),
{
    if b == 0 {
        Some(ContentType::Bare)
    } else if b == 1 {
        Some(ContentType::Hashed)
    } else if b == 2 {
        Some(ContentType::SegWit)
    } else {
        None
    }
}

fn get_contract(buf: &Vec<u8>, pos: usize) -> (r: Option<(ContractDescriptor, usize)>)
    requires
        pos <= buf@.len(),
    ensures
        r.is_some() == dec_contract(buf@.skip(pos as int)).is_some(),
        r.is_some() ==> r.unwrap().0.model() == dec_contract(buf@.skip(pos as int)).unwrap().0 && r.unwrap().1
            == dec_contract(buf@.skip(pos as int)).unwrap().1,
        r.is_some() ==> pos + r.unwrap().1 <= buf@.len(),
{
    if buf.len() - pos < 2 {
        return None;
    }
    let category = match get_category(buf[pos + 1]) {
        Some(c) => c,
        None => {
            return None;
        },
    };
    proof {
        lemma_skip_skip(buf@, pos as int, 2);
    }
    if buf[pos] == 0 {
        match get_chain(buf, pos + 2) {
            Some((pk, c)) => Some((ContractDescriptor::SingleSig { category, pk }, 2 + c)),
            None => None,
        }
    } else if buf[pos] == 1 {
        let threshold = match get_u16(buf, pos + 2) {
            Some(t) => t,
            None => {
                return None;
            },
        };
        proof {
            lemma_skip_skip(buf@, pos + 2, 2);
        }
        if buf.len() - pos < 4 {
            return None;
        }
        let n = match get_u16(buf, pos + 4) {
            Some(n) => n,
            None => {
                return None;
            },
        };
        proof {
            lemma_skip_skip(buf@, pos + 2, 4);
        }
        let (signers, c) = match get_chain_items(buf, pos + 6, n) {
            Some(x) => x,
            None => {
                return None;
            },
        };
        let end = pos + 6 + c;
        proof {
            lemma_skip_skip(buf@, pos + 2, 4 + c);
        }
        if end >= buf.len() || (buf[end] != 0 && buf[end] != 1) {
            return None;
        }
        let sorted = buf[end] == 1;
        Some((ContractDescriptor::MultiSig { category, threshold, signers, sorted }, 7 + c))
    } else {
        None
    }
}

fn get_channel(buf: &Vec<u8>, pos: usize) -> (r: Option<(ChannelDescriptor, usize)>)
    requires
        pos <= buf@.len(),
    ensures
        r.is_some() == dec_channel(buf@.skip(pos as int)).is_some(),
        r.is_some() ==> r.unwrap().0.model() == dec_channel(buf@.skip(pos as int)).unwrap().0 && r.unwrap().1
            == dec_channel(buf@.skip(pos as int)).unwrap().1,
        r.is_some() ==> pos + r.unwrap().1 <= buf@.len(),
{
    let total: usize = buf.len();
    let (channel_id, c1) = match get_bytes(buf, pos) {
        Some(x) => x,
        None => {
            return None;
        },
    };
    proof {
        lemma_skip_skip(buf@, pos as int, c1 as int);
    }
    let n = match get_u16(buf, pos + c1) {
        Some(n) => n,
        None => {
            return None;
        },
    };
    proof {
        lemma_skip_skip(buf@, pos + c1, 2);
        lemma_skip_skip(buf@, pos as int, c1 + 2);
    }
    let (peers, c2) = match get_bytes_items(buf, pos + c1 + 2, n) {
        Some(x) => x,
        None => {
            return None;
        },
    };
    Some((ChannelDescriptor { channel_id, peers }, c1 + 2 + c2))
}

/// Reads a policy at `pos`: the policy and how many bytes it takes.
pub(crate) fn get_policy(buf: &Vec<u8>, pos: usize) -> (r: Option<(Policy, usize)>)
    requires
        pos <= buf@.len(),
    ensures
        r.is_some() == dec_policy(buf@.skip(pos as int)).is_some(),
        r.is_some() ==> r.unwrap().0@ == dec_policy(buf@.skip(pos as int)).unwrap().0 && r.unwrap().1
            == dec_policy(buf@.skip(pos as int)).unwrap().1,
        r.is_some() ==> pos + r.unwrap().1 <= buf@.len(),
{
    if pos >= buf.len() {
        return None;
    }
    proof {
        lemma_skip_skip(buf@, pos as int, 1);
    }
    if buf[pos] == 0 {
        match get_contract(buf, pos + 1) {
            Some((d, c)) => Some((Policy::Current(d), 1 + c)),
            None => None,
        }
    } else if buf[pos] == 1 {
        match get_channel(buf, pos + 1) {
            Some((d, c)) => Some((Policy::Instant(d), 1 + c)),
            None => None,
        }
    } else if buf[pos] == 2 {
        match get_contract(buf, pos + 1) {
            Some((d, c)) => Some((Policy::Saving(d), 1 + c)),
            None => None,
        }
    } else {
        None
    }
}

/// Reads a policy from its canonical encoding; `None` where the bytes are
/// not the encoding of a policy, or hold more than one.
pub fn decode_policy(buf: &Vec<u8>) -> (r: Option<Policy>)
    ensures
        r.is_some() <==> (dec_policy(buf@).is_some() && dec_policy(buf@).unwrap().1 == buf@.len()),
        r.is_some() ==> r.unwrap()@ == dec_policy(buf@).unwrap().0,
{
    proof {
        assert(buf@.skip(0) =~= buf@);
    }
    match get_policy(buf, 0) {
        Some((policy, c)) => if c == buf.len() {
            Some(policy)
        } else {
            None
        },
        None => None,
    }
}

} // verus!
