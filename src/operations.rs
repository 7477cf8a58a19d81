use vstd::prelude::*;

use crate::encoding::{
    dec_bytes, dec_u16, dec_u32_items, enc_bytes, enc_u16, get_bytes, get_u16, get_u32_items, lemma_assoc,
    lemma_bytes, lemma_skip_concat, lemma_skip_skip, lemma_u16, lemma_u32_items, put_bytes, put_u16, put_u32,
};
use crate::encoding::cat_u32;
use crate::index::UnhardenedIndex;
use crate::records::{dec_u64, enc_u64, get_u64, lemma_u64, put_u64};
use crate::text::push_bytes;
use crate::transfer::OutgoingRecord;

verus! {

/// A transfer in the history of a contract: its transaction id, when it was
/// made, the height it was mined at (zero until then), the record of the
/// transfer, the PSBT of its transaction and, for asset transfers, the
/// disclosure of the new asset state.
#[derive(Clone, Debug)]
pub struct Operation {
    pub txid: Vec<u8>,
    pub created_at: u64,
    pub height: u32,
    pub record: OutgoingRecord,
    pub psbt: Vec<u8>,
    pub disclosure: Option<Vec<u8>>,
}

/// An operation as a value.
pub struct OperationModel {
    pub txid: Seq<u8>,
    pub created_at: u64,
    pub height: u32,
    pub published: bool,
    /// Asset change, bitcoin change, paid fee, bitcoin value, asset value
    /// and transaction fee.
    pub amounts: Seq<u64>,
    /// Balance before, bitcoin volume and asset volume.
    pub volumes: Seq<u128>,
    pub change_outputs: Seq<u32>,
    pub giveaway: Option<u64>,
    pub output_derivation_indexes: Seq<u32>,
    pub psbt: Seq<u8>,
    pub disclosure: Option<Seq<u8>>,
}

/// The six amounts of a record, in encoding order.
pub open spec fn amounts_of(r: OutgoingRecord) -> Seq<u64> {
    seq![r.asset_change, r.bitcoin_change, r.paid_bitcoin_fee, r.bitcoin_value, r.asset_value, r.tx_fee]
}

/// The three volumes of a record, in encoding order.
pub open spec fn volumes_of(r: OutgoingRecord) -> Seq<u128> {
    seq![r.balance_before, r.bitcoin_volume, r.asset_volume]
}

impl Operation {
    /// The operation as a value.
    pub open spec fn model(&self) -> OperationModel {
        let r = self.record;
        OperationModel {
            txid: self.txid@,
            created_at: self.created_at,
            height: self.height,
            published: r.published,
            amounts: amounts_of(r),
            volumes: volumes_of(r),
            change_outputs: r.change_outputs@.map_values(|v: u16| v as u32),
            giveaway: r.giveaway,
            output_derivation_indexes: r.output_derivation_indexes@.map_values(|i: UnhardenedIndex| i@ as u32),
            psbt: self.psbt@,
            disclosure: match self.disclosure {
                Some(d) => Some(d@),
                None => None,
            },
        }
    }
}

/// A 128-bit integer, little-endian.
pub open spec fn enc_u128(v: u128) -> Seq<u8> {
    enc_u64((v % 0x1_0000_0000_0000_0000) as u64) + enc_u64((v / 0x1_0000_0000_0000_0000) as u64)
}

/// Reads a 128-bit integer from the first sixteen bytes of `b`.
pub open spec fn dec_u128(b: Seq<u8>) -> Option<u128> {
    match (dec_u64(b), dec_u64(b.skip(8))) {
        (Some(lo), Some(hi)) => Some((lo + 0x1_0000_0000_0000_0000 * hi) as u128),
        _ => None,
    }
}

/// Integers one after another, 64 bits each.
pub open spec fn cat_u64(s: Seq<u64>) -> Seq<u8>
    decreases s.len(),
{
    if s.len() == 0 {
        Seq::empty()
    } else {
        enc_u64(s[0]) + cat_u64(s.skip(1))
    }
}

/// Reads `n` 64-bit integers at the start of `b`.
pub open spec fn dec_u64_items(b: Seq<u8>, n: nat) -> Option<Seq<u64>>
    decreases n,
{
    if n == 0 {
        Some(Seq::empty())
    } else {
        match (dec_u64(b), dec_u64_items(b.skip(8), (n - 1) as nat)) {
            (Some(v), Some(rest)) => Some(seq![v] + rest),
            _ => None,
        }
    }
}

/// Integers one after another, 128 bits each.
pub open spec fn cat_u128(s: Seq<u128>) -> Seq<u8>
    decreases s.len(),
{
    if s.len() == 0 {
        Seq::empty()
    } else {
        enc_u128(s[0]) + cat_u128(s.skip(1))
    }
}

/// Reads `n` 128-bit integers at the start of `b`.
pub open spec fn dec_u128_items(b: Seq<u8>, n: nat) -> Option<Seq<u128>>
    decreases n,
{
    if n == 0 {
        Some(Seq::empty())
    } else {
        match (dec_u128(b), dec_u128_items(b.skip(16), (n - 1) as nat)) {
            (Some(v), Some(rest)) => Some(seq![v] + rest),
            _ => None,
        }
    }
}

/// The txid, time, height and published flag of an operation, encoded.
#[verifier::opaque]
pub open spec fn enc_op_head(o: OperationModel) -> Seq<u8> {
    enc_bytes(o.txid) + enc_u64(o.created_at) + enc_u64(o.height as u64) + seq![
        if o.published {
            1u8
        } else {
            0u8
        },
    ]
}

/// Reads the txid, time, height and published flag of an operation.
#[verifier::opaque]
pub open spec fn dec_op_head(b: Seq<u8>) -> Option<((Seq<u8>, u64, u32, bool), nat)> {
    match dec_bytes(b) {
        None => None,
        Some((txid, c)) => {
            let b1 = b.skip(c as int);
            match (dec_u64(b1), dec_u64(b1.skip(8))) {
                (Some(t), Some(h)) => if h <= u32::MAX && b1.len() >= 17 && (b1[16] == 0 || b1[16] == 1) {
                    Some(((txid, t, h as u32, b1[16] == 1), c + 17))
                } else {
                    None
                },
                _ => None,
            }
        },
    }
}

/// The six amounts and three volumes of an operation, encoded.
#[verifier::opaque]
pub open spec fn enc_op_numbers(o: OperationModel) -> Seq<u8> {
    cat_u64(o.amounts) + cat_u128(o.volumes)
}

/// Reads the six amounts and three volumes of an operation.
#[verifier::opaque]
pub open spec fn dec_op_numbers(b: Seq<u8>) -> Option<(Seq<u64>, Seq<u128>)> {
    match (dec_u64_items(b, 6), dec_u128_items(b.skip(48), 3)) {
        (Some(a), Some(v)) => Some((a, v)),
        _ => None,
    }
}

/// An optional giveaway, encoded.
pub open spec fn enc_giveaway(g: Option<u64>) -> Seq<u8> {
    match g {
        Some(v) => seq![1u8] + enc_u64(v),
        None => seq![0u8],
    }
}

/// The change outputs, giveaway and output derivation indexes, encoded.
#[verifier::opaque]
pub open spec fn enc_op_lists(o: OperationModel) -> Seq<u8> {
    enc_u16(o.change_outputs.len()) + cat_u32(o.change_outputs) + enc_giveaway(o.giveaway) + enc_u16(
        o.output_derivation_indexes.len(),
    ) + cat_u32(o.output_derivation_indexes)
}

/// Reads the change outputs, giveaway and output derivation indexes.
#[verifier::opaque]
pub open spec fn dec_op_lists(b: Seq<u8>) -> Option<((Seq<u32>, Option<u64>, Seq<u32>), nat)> {
    match dec_u16(b) {
        None => None,
        Some(n1) => match dec_u32_items(b.skip(2), n1) {
            None => None,
            Some((change, c1)) => {
                let b1 = b.skip((2 + c1) as int);
                if b1.len() < 1 {
                    None
                } else {
                    let (giveaway, c2): (Option<Option<u64>>, nat) = if b1[0] == 0 {
                        (Some(None), 1)
                    } else if b1[0] == 1 {
                        match dec_u64(b1.skip(1)) {
                            Some(g) => (Some(Some(g)), 9),
                            None => (None, 0),
                        }
                    } else {
                        (None, 0)
                    };
                    match giveaway {
                        None => None,
                        Some(giveaway) => {
                            let b2 = b1.skip(c2 as int);
                            match dec_u16(b2) {
                                None => None,
                                Some(n2) => match dec_u32_items(b2.skip(2), n2) {
                                    None => None,
                                    Some((indexes, c3)) => if all_at_most(change, u16::MAX as int) && all_at_most(
                                        indexes,
                                        0x7fff_ffff,
                                    ) {
                                        Some(((change, giveaway, indexes), 2 + c1 + c2 + 2 + c3))
                                    } else {
                                        None
                                    },
                                },
                            }
                        },
                    }
                }
            },
        },
    }
}

/// Every value of `s` is at most `m`.
pub open spec fn all_at_most(s: Seq<u32>, m: int) -> bool {
    forall|k: int| 0 <= k < s.len() ==> s[k] <= m
}

/// The PSBT and disclosure of an operation, encoded.
#[verifier::opaque]
pub open spec fn enc_op_tail(o: OperationModel) -> Seq<u8> {
    enc_bytes(o.psbt) + match o.disclosure {
        Some(d) => seq![1u8] + enc_bytes(d),
        None => seq![0u8],
    }
}

/// Reads the PSBT and disclosure of an operation.
#[verifier::opaque]
pub open spec fn dec_op_tail(b: Seq<u8>) -> Option<((Seq<u8>, Option<Seq<u8>>), nat)> {
    match dec_bytes(b) {
        None => None,
        Some((psbt, c1)) => {
            let b1 = b.skip(c1 as int);
            if b1.len() >= 1 && b1[0] == 0 {
                Some(((psbt, None), c1 + 1))
            } else if b1.len() >= 1 && b1[0] == 1 {
                match dec_bytes(b1.skip(1)) {
                    Some((d, c2)) => Some(((psbt, Some(d)), c1 + 1 + c2)),
                    None => None,
                }
            } else {
                None
            }
        },
    }
}

/// The canonical encoding of an operation: the txid, time, height and
/// published flag; the six amounts and three volumes; the change outputs,
/// the giveaway and the output derivation indexes; the PSBT and the
/// disclosure.
pub open spec fn enc_operation(o: OperationModel) -> Seq<u8> {
    enc_op_head(o) + enc_op_numbers(o) + enc_op_lists(o) + enc_op_tail(o)
}

/// Reads an operation at the start of `b`: the value and how many bytes it
/// takes; `None` where the bytes do not hold one.
pub open spec fn dec_operation(b: Seq<u8>) -> Option<(OperationModel, nat)> {
    match dec_op_head(b) {
        None => None,
        Some(((txid, created_at, height, published), c1)) => match dec_op_numbers(b.skip(c1 as int)) {
            None => None,
            Some((amounts, volumes)) => match dec_op_lists(b.skip((c1 + 96) as int)) {
                None => None,
                Some(((change_outputs, giveaway, output_derivation_indexes), c2)) => match dec_op_tail(
                    b.skip((c1 + 96 + c2) as int),
                ) {
                    None => None,
                    Some(((psbt, disclosure), c3)) => Some(
                        (
                            OperationModel {
                                txid,
                                created_at,
                                height,
                                published,
                                amounts,
                                volumes,
                                change_outputs,
                                giveaway,
                                output_derivation_indexes,
                                psbt,
                                disclosure,
                            },
                            c1 + 96 + c2 + c3,
                        ),
                    ),
                },
            },
        },
    }
}

/// Whether an operation has an encoding, and its numbers are in range.
pub open spec fn operation_encodable(o: OperationModel) -> bool {
    &&& o.txid.len() <= u16::MAX
    &&& o.amounts.len() == 6
    &&& o.volumes.len() == 3
    &&& o.change_outputs.len() <= u16::MAX
    &&& o.output_derivation_indexes.len() <= u16::MAX
    &&& o.psbt.len() <= u16::MAX
    &&& o.disclosure.is_some() ==> o.disclosure.unwrap().len() <= u16::MAX
    &&& forall|k: int| 0 <= k < o.change_outputs.len() ==> o.change_outputs[k] <= u16::MAX
    &&& forall|k: int|
        0 <= k < o.output_derivation_indexes.len() ==> o.output_derivation_indexes[k] < 0x8000_0000
}


proof fn lemma_u128(v: u128, rest: Seq<u8>)
    ensures
        dec_u128(enc_u128(v) + rest) == Some(v),
        enc_u128(v).len() == 16,
{
    let lo = (v % 0x1_0000_0000_0000_0000) as u64;
    let hi = (v / 0x1_0000_0000_0000_0000) as u64;
    lemma_assoc(enc_u64(lo), enc_u64(hi), rest);
    lemma_u64(lo, enc_u64(hi) + rest);
    lemma_u64(hi, rest);
    lemma_skip_concat(enc_u64(lo), enc_u64(hi) + rest);
}

proof fn lemma_u64_items(s: Seq<u64>, rest: Seq<u8>)
    ensures
        dec_u64_items(cat_u64(s) + rest, s.len()) == Some(s),
        cat_u64(s).len() == 8 * s.len(),
    decreases s.len(),
{
    if s.len() > 0 {
        lemma_assoc(enc_u64(s[0]), cat_u64(s.skip(1)), rest);
        lemma_u64(s[0], cat_u64(s.skip(1)) + rest);
        lemma_skip_concat(enc_u64(s[0]), cat_u64(s.skip(1)) + rest);
        lemma_u64_items(s.skip(1), rest);
        assert(seq![s[0]] + s.skip(1) =~= s);
    }
}

proof fn lemma_u128_items(s: Seq<u128>, rest: Seq<u8>)
    ensures
        dec_u128_items(cat_u128(s) + rest, s.len()) == Some(s),
        cat_u128(s).len() == 16 * s.len(),
    decreases s.len(),
{
    if s.len() > 0 {
        lemma_assoc(enc_u128(s[0]), cat_u128(s.skip(1)), rest);
        lemma_u128(s[0], cat_u128(s.skip(1)) + rest);
        lemma_skip_concat(enc_u128(s[0]), cat_u128(s.skip(1)) + rest);
        lemma_u128_items(s.skip(1), rest);
        assert(seq![s[0]] + s.skip(1) =~= s);
    }
}

#[verifier::rlimit(40)]
proof fn lemma_op_head(o: OperationModel, rest: Seq<u8>)
    requires
        operation_encodable(o),
    ensures
        dec_op_head(enc_op_head(o) + rest) == Some(
            ((o.txid, o.created_at, o.height, o.published), enc_op_head(o).len()),
        ),
{
    reveal(enc_op_head);
    reveal(dec_op_head);
    let f = seq![
        if o.published {
            1u8
        } else {
            0u8
        },
    ];
    let r3 = f + rest;
    let r2 = enc_u64(o.height as u64) + r3;
    let r1 = enc_u64(o.created_at) + r2;
    let b = enc_op_head(o) + rest;
    assert(b =~= enc_bytes(o.txid) + r1);
    lemma_bytes(o.txid, r1);
    lemma_skip_concat(enc_bytes(o.txid), r1);
    lemma_u64(o.created_at, r2);
    lemma_skip_concat(enc_u64(o.created_at), r2);
    lemma_u64(o.height as u64, r3);
    lemma_skip_concat(enc_u64(o.height as u64), r3);
    assert(r1.skip(8).skip(8) =~= r1.skip(16));
    assert(r1[16] == f[0]);
}

proof fn lemma_op_numbers(o: OperationModel, rest: Seq<u8>)
    requires
        operation_encodable(o),
    ensures
        dec_op_numbers(enc_op_numbers(o) + rest) == Some((o.amounts, o.volumes)),
        enc_op_numbers(o).len() == 96,
{
    reveal(enc_op_numbers);
    reveal(dec_op_numbers);
    lemma_assoc(cat_u64(o.amounts), cat_u128(o.volumes), rest);
    lemma_u64_items(o.amounts, cat_u128(o.volumes) + rest);
    lemma_skip_concat(cat_u64(o.amounts), cat_u128(o.volumes) + rest);
    lemma_u128_items(o.volumes, rest);
}

#[verifier::rlimit(40)]
proof fn lemma_op_lists(o: OperationModel, rest: Seq<u8>)
    requires
        operation_encodable(o),
    ensures
        dec_op_lists(enc_op_lists(o) + rest) == Some(
            ((o.change_outputs, o.giveaway, o.output_derivation_indexes), enc_op_lists(o).len()),
        ),
{
    reveal(enc_op_lists);
    reveal(dec_op_lists);
    let p5 = cat_u32(o.output_derivation_indexes);
    let p4 = enc_u16(o.output_derivation_indexes.len());
    let p3 = enc_giveaway(o.giveaway);
    let p2 = cat_u32(o.change_outputs);
    let r5 = p5 + rest;
    let r4 = p4 + r5;
    let r3 = p3 + r4;
    let r2 = p2 + r3;
    let b = enc_op_lists(o) + rest;
    assert(b =~= enc_u16(o.change_outputs.len()) + r2);
    lemma_u16(o.change_outputs.len(), r2);
    lemma_u32_items(o.change_outputs, r3);
    lemma_skip_concat(p2, r3);
    assert(b.skip(2 + p2.len() as int) =~= r3);
    match o.giveaway {
        Some(g) => {
            assert(r3.skip(1) =~= enc_u64(g) + r4);
            lemma_u64(g, r4);
            assert(r3.skip(9) =~= r4);
        },
        None => {
            assert(r3.skip(1) =~= r4);
        },
    }
    lemma_u16(o.output_derivation_indexes.len(), r5);
    lemma_u32_items(o.output_derivation_indexes, rest);
}

proof fn lemma_op_tail(o: OperationModel, rest: Seq<u8>)
    requires
        operation_encodable(o),
    ensures
        dec_op_tail(enc_op_tail(o) + rest) == Some(((o.psbt, o.disclosure), enc_op_tail(o).len())),
{
    reveal(enc_op_tail);
    reveal(dec_op_tail);
    let d = match o.disclosure {
        Some(x) => seq![1u8] + enc_bytes(x),
        None => seq![0u8],
    };
    let r1 = d + rest;
    assert(enc_op_tail(o) + rest =~= enc_bytes(o.psbt) + r1);
    lemma_bytes(o.psbt, r1);
    lemma_skip_concat(enc_bytes(o.psbt), r1);
    match o.disclosure {
        Some(x) => {
            assert(r1.skip(1) =~= enc_bytes(x) + rest);
            lemma_bytes(x, rest);
        },
        None => {},
    }
}

/// Decoding the encoding of an operation gives it back, and consumes
/// exactly the encoding, whatever follows it.
pub proof fn lemma_operation_round_trip(o: OperationModel, rest: Seq<u8>)
    requires
        operation_encodable(o),
    ensures
        dec_operation(enc_operation(o) + rest) == Some((o, enc_operation(o).len())),
{
    let h = enc_op_head(o);
    let n = enc_op_numbers(o);
    let l = enc_op_lists(o);
    let t = enc_op_tail(o);
    let r3 = t + rest;
    let r2 = l + r3;
    let r1 = n + r2;
    assert(enc_operation(o) + rest =~= h + r1);
    lemma_op_head(o, r1);
    lemma_skip_concat(h, r1);
    lemma_op_numbers(o, r2);
    lemma_skip_concat(n, r2);
    assert((h + r1).skip(h.len() + 96int) =~= r2);
    lemma_op_lists(o, r3);
    lemma_skip_concat(l, r3);
    assert((h + r1).skip(h.len() + 96int + l.len()) =~= r3);
    lemma_op_tail(o, rest);
}

/// Decoding the encoding of an operation, and nothing more, gives it back.
pub proof fn lemma_operation_decode_encode(o: OperationModel)
    requires
        operation_encodable(o),
    ensures
        dec_operation(enc_operation(o)) == Some((o, enc_operation(o).len())),
{
    lemma_operation_round_trip(o, Seq::empty());
    assert(enc_operation(o) + Seq::<u8>::empty() =~= enc_operation(o));
}


fn put_u128(out: &mut Vec<u8>, v: u128)
    ensures
        final(out)@ == old(out)@ + enc_u128(v),
{
    put_u64(out, (v % 0x1_0000_0000_0000_0000) as u64);
    put_u64(out, (v / 0x1_0000_0000_0000_0000) as u64);
    proof {
        assert(final(out)@ =~= old(out)@ + enc_u128(v));
    }
}

fn get_u128(buf: &Vec<u8>, pos: usize) -> (r: Option<u128>)
    requires
        pos <= buf@.len(),
    ensures
        r == dec_u128(buf@.skip(pos as int)),
{
    let total: usize = buf.len();
    let lo = match get_u64(buf, pos) {
        Some(v) => v,
        None => {
            return None;
        },
    };
    proof {
        lemma_skip_skip(buf@, pos as int, 8);
    }
    let hi = match get_u64(buf, pos + 8) {
        Some(v) => v,
        None => {
            return None;
        },
    };
    Some(lo as u128 + 0x1_0000_0000_0000_0000 * hi as u128)
}

fn put_op_head(out: &mut Vec<u8>, op: &Operation)
    requires
        op.txid@.len() <= u16::MAX,
    ensures
        final(out)@ == old(out)@ + enc_op_head(op.model()),
{
    reveal(enc_op_head);
    put_bytes(out, &op.txid);
    put_u64(out, op.created_at);
    put_u64(out, op.height as u64);
    out.push(if op.record.published { 1u8 } else { 0u8 });
    proof {
        assert(final(out)@ =~= old(out)@ + enc_op_head(op.model()));
    }
}

#[verifier::rlimit(60)]
fn put_op_numbers(out: &mut Vec<u8>, rec: &OutgoingRecord)
    ensures
        final(out)@ == old(out)@ + cat_u64(amounts_of(*rec)) + cat_u128(volumes_of(*rec)),
{
    let ghost start = out@;
    put_u64(out, rec.asset_change);
    put_u64(out, rec.bitcoin_change);
    put_u64(out, rec.paid_bitcoin_fee);
    put_u64(out, rec.bitcoin_value);
    put_u64(out, rec.asset_value);
    put_u64(out, rec.tx_fee);
    let ghost mid = out@;
    put_u128(out, rec.balance_before);
    put_u128(out, rec.bitcoin_volume);
    put_u128(out, rec.asset_volume);
    proof {
        let a = amounts_of(*rec);
        let v = volumes_of(*rec);
        lemma_cat_six(a);
        lemma_cat_three(v);
        let e0 = enc_u64(a[0]);
        let e1 = enc_u64(a[1]);
        let e2 = enc_u64(a[2]);
        let e3 = enc_u64(a[3]);
        let e4 = enc_u64(a[4]);
        let e5 = enc_u64(a[5]);
        lemma_assoc(start, e0, e1);
        lemma_assoc(start, e0 + e1, e2);
        lemma_assoc(start, e0 + e1 + e2, e3);
        lemma_assoc(start, e0 + e1 + e2 + e3, e4);
        lemma_assoc(start, e0 + e1 + e2 + e3 + e4, e5);
        assert(mid == start + cat_u64(a));
        let f0 = enc_u128(v[0]);
        let f1 = enc_u128(v[1]);
        let f2 = enc_u128(v[2]);
        lemma_assoc(mid, f0, f1);
        lemma_assoc(mid, f0 + f1, f2);
        assert(out@ == mid + cat_u128(v));
    }
}

proof fn lemma_numbers_form(m: OperationModel, a: Seq<u64>, v: Seq<u128>)
    requires
        m.amounts == a,
        m.volumes == v,
    ensures
        enc_op_numbers(m) == cat_u64(a) + cat_u128(v),
{
    reveal(enc_op_numbers);
}

proof fn lemma_cat_six(a: Seq<u64>)
    requires
        a.len() == 6,
    ensures
        cat_u64(a) == enc_u64(a[0]) + enc_u64(a[1]) + enc_u64(a[2]) + enc_u64(a[3]) + enc_u64(a[4]) + enc_u64(a[5]),
{
    assert(cat_u64(a.skip(6)) == Seq::<u8>::empty());
    assert forall|i: int| 0 <= i < 6 implies #[trigger] cat_u64(a.skip(i)) == enc_u64(a[i]) + cat_u64(a.skip(i + 1)) by {
        assert(a.skip(i).skip(1) =~= a.skip(i + 1));
    }
    assert(a.skip(0) =~= a);
    assert(cat_u64(a.skip(5)) =~= enc_u64(a[5]));
    assert(cat_u64(a) =~= enc_u64(a[0]) + enc_u64(a[1]) + enc_u64(a[2]) + enc_u64(a[3]) + enc_u64(a[4]) + enc_u64(a[5]));
}

proof fn lemma_cat_three(v: Seq<u128>)
    requires
        v.len() == 3,
    ensures
        cat_u128(v) == enc_u128(v[0]) + enc_u128(v[1]) + enc_u128(v[2]),
{
    assert(cat_u128(v.skip(3)) == Seq::<u8>::empty());
    assert forall|i: int| 0 <= i < 3 implies #[trigger] cat_u128(v.skip(i)) == enc_u128(v[i]) + cat_u128(v.skip(i + 1)) by {
        assert(v.skip(i).skip(1) =~= v.skip(i + 1));
    }
    assert(v.skip(0) =~= v);
    assert(cat_u128(v.skip(2)) =~= enc_u128(v[2]));
    assert(cat_u128(v) =~= enc_u128(v[0]) + enc_u128(v[1]) + enc_u128(v[2]));
}

fn put_u32_list(out: &mut Vec<u8>, values: &Vec<u32>)
    requires
        values@.len() <= u16::MAX,
    ensures
        final(out)@ == old(out)@ + enc_u16(values@.len()) + cat_u32(values@),
{
    put_u16(out, values.len());
    let ghost start = out@;
    proof {
        assert(values@.skip(0) =~= values@);
    }
    let mut k: usize = 0;
    while k < values.len()
        invariant
            0 <= k <= values@.len(),
            out@ + cat_u32(values@.skip(k as int)) == start + cat_u32(values@),
        decreases values@.len() - k,
    {
        let ghost prev = out@;
        put_u32(out, values[k]);
        proof {
            let t = values@.skip(k as int);
            assert(t.skip(1) =~= values@.skip(k + 1));
            assert(out@ + cat_u32(values@.skip(k + 1)) =~= prev + cat_u32(t));
        }
        k = k + 1;
    }
    proof {
        assert(values@.skip(k as int) =~= Seq::<u32>::empty());
    }
}

fn change_values(rec: &OutgoingRecord) -> (r: Vec<u32>)
    ensures
        r@ == rec.change_outputs@.map_values(|v: u16| v as u32),
{
    let mut r: Vec<u32> = Vec::new();
    let mut k: usize = 0;
    while k < rec.change_outputs.len()
        invariant
            0 <= k <= rec.change_outputs@.len(),
            r@ == rec.change_outputs@.subrange(0, k as int).map_values(|v: u16| v as u32),
        decreases rec.change_outputs@.len() - k,
    {
        r.push(rec.change_outputs[k] as u32);
        k = k + 1;
        proof {
            assert(r@ =~= rec.change_outputs@.subrange(0, k as int).map_values(|v: u16| v as u32));
        }
    }
    proof {
        assert(rec.change_outputs@.subrange(0, k as int) =~= rec.change_outputs@);
    }
    r
}

fn index_values(rec: &OutgoingRecord) -> (r: Vec<u32>)
    ensures
        r@ == rec.output_derivation_indexes@.map_values(|i: UnhardenedIndex| i@ as u32),
        forall|j: int| 0 <= j < r@.len() ==> r@[j] < 0x8000_0000,
{
    let mut r: Vec<u32> = Vec::new();
    let mut k: usize = 0;
    while k < rec.output_derivation_indexes.len()
        invariant
            0 <= k <= rec.output_derivation_indexes@.len(),
            r@ == rec.output_derivation_indexes@.subrange(0, k as int).map_values(|i: UnhardenedIndex| i@ as u32),
            forall|j: int| 0 <= j < r@.len() ==> r@[j] < 0x8000_0000,
        decreases rec.output_derivation_indexes@.len() - k,
    {
        r.push(rec.output_derivation_indexes[k].index());
        k = k + 1;
        proof {
            assert(r@ =~= rec.output_derivation_indexes@.subrange(0, k as int).map_values(
                |i: UnhardenedIndex| i@ as u32,
            ));
        }
    }
    proof {
        assert(rec.output_derivation_indexes@.subrange(0, k as int) =~= rec.output_derivation_indexes@);
    }
    r
}

fn put_op_lists(out: &mut Vec<u8>, op: &Operation, change: &Vec<u32>, indexes: &Vec<u32>)
    requires
        change@ == op.model().change_outputs,
        indexes@ == op.model().output_derivation_indexes,
        change@.len() <= u16::MAX,
        indexes@.len() <= u16::MAX,
    ensures
        final(out)@ == old(out)@ + enc_op_lists(op.model()),
{
    reveal(enc_op_lists);
    put_u32_list(out, change);
    let ghost mid = out@;
    match op.record.giveaway {
        Some(g) => {
            out.push(1u8);
            put_u64(out, g);
        },
        None => out.push(0u8),
    }
    proof {
        assert(out@ =~= mid + enc_giveaway(op.model().giveaway));
    }
    put_u32_list(out, indexes);
    proof {
        assert(final(out)@ =~= old(out)@ + enc_op_lists(op.model()));
    }
}

fn put_op_tail(out: &mut Vec<u8>, op: &Operation)
    requires
        op.psbt@.len() <= u16::MAX,
        op.disclosure.is_some() ==> op.disclosure.unwrap()@.len() <= u16::MAX,
    ensures
        final(out)@ == old(out)@ + enc_op_tail(op.model()),
{
    reveal(enc_op_tail);
    put_bytes(out, &op.psbt);
    match &op.disclosure {
        Some(d) => {
            out.push(1u8);
            put_bytes(out, d);
        },
        None => out.push(0u8),
    }
    proof {
        assert(final(out)@ =~= old(out)@ + enc_op_tail(op.model()));
    }
}

/// The canonical encoding of an operation; `None` where a byte string or
/// a list is longer than 16 bits can count.
pub fn encode_operation(op: &Operation) -> (r: Option<Vec<u8>>)
    ensures
        r.is_some() == operation_encodable(op.model()),
        r.is_some() ==> r.unwrap()@ == enc_operation(op.model()),
{
    let change = change_values(&op.record);
    let indexes = index_values(&op.record);
    if op.txid.len() > 0xffff || change.len() > 0xffff || indexes.len() > 0xffff || op.psbt.len() > 0xffff {
        return None;
    }
    match &op.disclosure {
        Some(d) => {
            if d.len() > 0xffff {
                return None;
            }
        },
        None => {},
    }
    let mut out: Vec<u8> = Vec::new();
    put_op_head(&mut out, op);
    let ghost before_numbers = out@;
    put_op_numbers(&mut out, &op.record);
    proof {
        lemma_numbers_form(op.model(), amounts_of(op.record), volumes_of(op.record));
    }
    put_op_lists(&mut out, op, &change, &indexes);
    put_op_tail(&mut out, op);
    proof {
        let m = op.model();
        assert(out@ =~= enc_operation(m));
        assert forall|k: int| 0 <= k < m.change_outputs.len() implies m.change_outputs[k] <= u16::MAX by {}
    }
    Some(out)
}


#[verifier::rlimit(40)]
fn get_op_head(buf: &Vec<u8>, pos: usize) -> (r: Option<(Vec<u8>, u64, u32, bool, usize)>)
    requires
        pos <= buf@.len(),
    ensures
        r.is_some() == dec_op_head(buf@.skip(pos as int)).is_some(),
        r.is_some() ==> {
            let (txid, t, h, p, c) = r.unwrap();
            let ((txid0, t0, h0, p0), c0) = dec_op_head(buf@.skip(pos as int)).unwrap();
            txid@ == txid0 && t == t0 && h == h0 && p == p0 && c == c0 && pos + c <= buf@.len()
        },
{
    reveal(dec_op_head);
    let total: usize = buf.len();
    let (txid, c) = match get_bytes(buf, pos) {
        Some(x) => x,
        None => {
            return None;
        },
    };
    let p1 = pos + c;
    proof {
        lemma_skip_skip(buf@, pos as int, c as int);
    }
    let t = match get_u64(buf, p1) {
        Some(v) => v,
        None => {
            return None;
        },
    };
    proof {
        lemma_skip_skip(buf@, p1 as int, 8);
    }
    let h = match get_u64(buf, p1 + 8) {
        Some(v) => v,
        None => {
            return None;
        },
    };
    if h > u32::MAX as u64 || total - p1 < 17 || (buf[p1 + 16] != 0 && buf[p1 + 16] != 1) {
        return None;
    }
    Some((txid, t, h as u32, buf[p1 + 16] == 1, c + 17))
}

fn get_op_numbers(buf: &Vec<u8>, pos: usize) -> (r: Option<OutgoingRecord>)
    requires
        pos <= buf@.len(),
    ensures
        r.is_some() == dec_op_numbers(buf@.skip(pos as int)).is_some(),
        r.is_some() ==> {
            let q = r.unwrap();
            let (a, v) = dec_op_numbers(buf@.skip(pos as int)).unwrap();
            &&& a == seq![q.asset_change, q.bitcoin_change, q.paid_bitcoin_fee, q.bitcoin_value, q.asset_value, q.tx_fee]
            &&& v == seq![q.balance_before, q.bitcoin_volume, q.asset_volume]
            &&& pos + 96 <= buf@.len()
            &&& q.change_outputs@.len() == 0
            &&& q.output_derivation_indexes@.len() == 0
        },
{
    reveal(dec_op_numbers);
    let total: usize = buf.len();
    if total - pos < 96 {
        proof {
            let b = buf@.skip(pos as int);
            assert(b.len() < 96);
            lemma_items_need_room(b);
        }
        return None;
    }
    let mut amounts: Vec<u64> = Vec::new();
    let mut k: usize = 0;
    while k < 6
        invariant
            pos + 96 <= buf@.len(),
            buf@.len() == total,
            0 <= k <= 6,
            amounts@.len() == k,
            dec_u64_items(buf@.skip(pos as int), 6) == match dec_u64_items(buf@.skip(pos + 8 * k), (6 - k) as nat) {
                Some(rest) => Some(amounts@ + rest),
                None => None::<Seq<u64>>,
            },
        decreases 6 - k,
    {
        let v = match get_u64(buf, pos + 8 * k) {
            Some(v) => v,
            None => {
                return None;
            },
        };
        proof {
            lemma_skip_skip(buf@, pos + 8 * k, 8);
            let tail = dec_u64_items(buf@.skip(pos + 8 * k + 8), (6 - k - 1) as nat);
            if let Some(rest) = tail {
                assert(amounts@.push(v) + rest =~= amounts@ + (seq![v] + rest));
            }
        }
        amounts.push(v);
        k = k + 1;
    }
    let mut volumes: Vec<u128> = Vec::new();
    let mut k: usize = 0;
    proof {
        lemma_skip_skip(buf@, pos as int, 48);
    }
    while k < 3
        invariant
            pos + 96 <= buf@.len(),
            buf@.len() == total,
            0 <= k <= 3,
            volumes@.len() == k,
            dec_u128_items(buf@.skip(pos + 48), 3) == match dec_u128_items(buf@.skip(pos + 48 + 16 * k), (3 - k) as nat) {
                Some(rest) => Some(volumes@ + rest),
                None => None::<Seq<u128>>,
            },
        decreases 3 - k,
    {
        let v = match get_u128(buf, pos + 48 + 16 * k) {
            Some(v) => v,
            None => {
                return None;
            },
        };
        proof {
            lemma_skip_skip(buf@, pos + 48 + 16 * k, 16);
            let tail = dec_u128_items(buf@.skip(pos + 48 + 16 * k + 16), (3 - k - 1) as nat);
            if let Some(rest) = tail {
                assert(volumes@.push(v) + rest =~= volumes@ + (seq![v] + rest));
            }
        }
        volumes.push(v);
        k = k + 1;
    }
    proof {
        assert(amounts@ + Seq::<u64>::empty() =~= amounts@);
        assert(volumes@ + Seq::<u128>::empty() =~= volumes@);
        assert(amounts@ =~= seq![amounts@[0], amounts@[1], amounts@[2], amounts@[3], amounts@[4], amounts@[5]]);
        assert(volumes@ =~= seq![volumes@[0], volumes@[1], volumes@[2]]);
    }
    Some(
        OutgoingRecord {
            published: false,
            asset_change: amounts[0],
            bitcoin_change: amounts[1],
            change_outputs: Vec::new(),
            giveaway: None,
            paid_bitcoin_fee: amounts[2],
            output_derivation_indexes: Vec::new(),
            balance_before: volumes[0],
            bitcoin_volume: volumes[1],
            asset_volume: volumes[2],
            bitcoin_value: amounts[3],
            asset_value: amounts[4],
            tx_fee: amounts[5],
        },
    )
}

/// Fewer than 96 bytes hold no amounts and volumes.
proof fn lemma_items_need_room(b: Seq<u8>)
    requires
        b.len() < 96,
    ensures
        dec_op_numbers(b).is_none(),
{
    reveal(dec_op_numbers);
    lemma_u64_items_len(b, 6);
    if b.len() >= 48 {
        lemma_u128_items_len(b.skip(48), 3);
    }
}

proof fn lemma_u64_items_len(b: Seq<u8>, n: nat)
    ensures
        dec_u64_items(b, n).is_some() ==> b.len() >= 8 * n,
    decreases n,
{
    if n > 0 {
        lemma_u64_items_len(b.skip(8), (n - 1) as nat);
    }
}

proof fn lemma_u128_items_len(b: Seq<u8>, n: nat)
    ensures
        dec_u128_items(b, n).is_some() ==> b.len() >= 16 * n,
    decreases n,
{
    if n > 0 {
        lemma_u128_items_len(b.skip(16), (n - 1) as nat);
    }
}


fn to_u16s(values: &Vec<u32>) -> (r: Option<Vec<u16>>)
    ensures
        r.is_some() == all_at_most(values@, u16::MAX as int),
        r.is_some() ==> r.unwrap()@.map_values(|v: u16| v as u32) == values@,
{
    let mut r: Vec<u16> = Vec::new();
    let mut k: usize = 0;
    while k < values.len()
        invariant
            0 <= k <= values@.len(),
            r@.map_values(|v: u16| v as u32) == values@.subrange(0, k as int),
            forall|j: int| 0 <= j < k ==> values@[j] <= u16::MAX,
        decreases values@.len() - k,
    {
        if values[k] > 0xffff {
            return None;
        }
        let ghost prev = r@;
        let v = values[k] as u16;
        assert(v as u32 == values@[k as int]);
        r.push(v);
        proof {
            assert(r@.map_values(|v: u16| v as u32) =~= prev.map_values(|v: u16| v as u32).push(values@[k as int]));
            assert(values@.subrange(0, k + 1) =~= values@.subrange(0, k as int).push(values@[k as int]));
        }
        k = k + 1;
        proof {
            assert(r@.map_values(|v: u16| v as u32) =~= values@.subrange(0, k as int));
        }
    }
    proof {
        assert(values@.subrange(0, k as int) =~= values@);
    }
    Some(r)
}

fn to_indexes(values: &Vec<u32>) -> (r: Option<Vec<UnhardenedIndex>>)
    ensures
        r.is_some() == all_at_most(values@, 0x7fff_ffff),
        r.is_some() ==> r.unwrap()@.map_values(|i: UnhardenedIndex| i@ as u32) == values@,
{
    let mut r: Vec<UnhardenedIndex> = Vec::new();
    let mut k: usize = 0;
    while k < values.len()
        invariant
            0 <= k <= values@.len(),
            r@.map_values(|i: UnhardenedIndex| i@ as u32) == values@.subrange(0, k as int),
            forall|j: int| 0 <= j < k ==> values@[j] < 0x8000_0000,
        decreases values@.len() - k,
    {
        let ghost prev = r@;
        match UnhardenedIndex::from_index(values[k]) {
            Some(i) => {
                assert(i@ as u32 == values@[k as int]);
                r.push(i);
            },
            None => {
                return None;
            },
        }
        proof {
            assert(r@.map_values(|i: UnhardenedIndex| i@ as u32) =~= prev.map_values(|i: UnhardenedIndex| i@ as u32).push(
                values@[k as int],
            ));
            assert(values@.subrange(0, k + 1) =~= values@.subrange(0, k as int).push(values@[k as int]));
        }
        k = k + 1;
        proof {
            assert(r@.map_values(|i: UnhardenedIndex| i@ as u32) =~= values@.subrange(0, k as int));
        }
    }
    proof {
        assert(values@.subrange(0, k as int) =~= values@);
    }
    Some(r)
}

#[verifier::rlimit(60)]
fn get_op_lists(buf: &Vec<u8>, pos: usize) -> (r: Option<(Vec<u16>, Option<u64>, Vec<UnhardenedIndex>, usize)>)
    requires
        pos <= buf@.len(),
    ensures
        r.is_some() == dec_op_lists(buf@.skip(pos as int)).is_some(),
        r.is_some() ==> {
            let (change, giveaway, indexes, c) = r.unwrap();
            let ((change0, giveaway0, indexes0), c0) = dec_op_lists(buf@.skip(pos as int)).unwrap();
            &&& change@.map_values(|v: u16| v as u32) == change0
            &&& giveaway == giveaway0
            &&& indexes@.map_values(|i: UnhardenedIndex| i@ as u32) == indexes0
            &&& c == c0
            &&& pos + c <= buf@.len()
        },
{
    reveal(dec_op_lists);
    let total: usize = buf.len();
    let n1 = match get_u16(buf, pos) {
        Some(n) => n,
        None => {
            return None;
        },
    };
    proof {
        lemma_skip_skip(buf@, pos as int, 2);
    }
    let (change_raw, c1) = match get_u32_items(buf, pos + 2, n1) {
        Some(x) => x,
        None => {
            return None;
        },
    };
    let p1 = pos + 2 + c1;
    proof {
        lemma_skip_skip(buf@, pos as int, 2 + c1);
    }
    if p1 >= total {
        return None;
    }
    let (giveaway, c2): (Option<u64>, usize) = if buf[p1] == 0 {
        (None, 1)
    } else if buf[p1] == 1 {
        proof {
            lemma_skip_skip(buf@, p1 as int, 1);
        }
        match get_u64(buf, p1 + 1) {
            Some(g) => (Some(g), 9),
            None => {
                return None;
            },
        }
    } else {
        return None;
    };
    if total - p1 < c2 {
        return None;
    }
    let p2 = p1 + c2;
    proof {
        lemma_skip_skip(buf@, p1 as int, c2 as int);
    }
    let n2 = match get_u16(buf, p2) {
        Some(n) => n,
        None => {
            return None;
        },
    };
    proof {
        lemma_skip_skip(buf@, p2 as int, 2);
    }
    let (raw, c3) = match get_u32_items(buf, p2 + 2, n2) {
        Some(x) => x,
        None => {
            return None;
        },
    };
    let change = match to_u16s(&change_raw) {
        Some(c) => c,
        None => {
            return None;
        },
    };
    let indexes = match to_indexes(&raw) {
        Some(i) => i,
        None => {
            proof {
                let b = buf@.skip(pos as int);
                assert(dec_u16(b) == Some(n1 as nat));
                assert(dec_u32_items(b.skip(2), n1 as nat) == Some((change_raw@, c1 as nat)));
                let b1 = b.skip((2 + c1) as int);
                assert(b1 == buf@.skip(p1 as int));
                let b2 = b1.skip(c2 as int);
                assert(b2 == buf@.skip(p2 as int));
                assert(dec_u16(b2) == Some(n2 as nat));
                assert(dec_u32_items(b2.skip(2), n2 as nat) == Some((raw@, c3 as nat)));
                assert(b1.len() >= 1);
                assert(b1[0] == buf@[p1 as int]);
                if buf@[p1 as int] == 1 {
                    assert(dec_u64(b1.skip(1)) == Some(giveaway.unwrap()));
                }
                assert(dec_op_lists(b).is_none());
            }
            return None;
        },
    };
    Some((change, giveaway, indexes, 2 + c1 + c2 + 2 + c3))
}

fn get_op_tail(buf: &Vec<u8>, pos: usize) -> (r: Option<(Vec<u8>, Option<Vec<u8>>, usize)>)
    requires
        pos <= buf@.len(),
    ensures
        r.is_some() == dec_op_tail(buf@.skip(pos as int)).is_some(),
        r.is_some() ==> {
            let (psbt, disclosure, c) = r.unwrap();
            let ((psbt0, disclosure0), c0) = dec_op_tail(buf@.skip(pos as int)).unwrap();
            &&& psbt@ == psbt0
            &&& disclosure.is_some() == disclosure0.is_some()
            &&& disclosure.is_some() ==> disclosure.unwrap()@ == disclosure0.unwrap()
            &&& c == c0
            &&& pos + c <= buf@.len()
        },
{
    reveal(dec_op_tail);
    let total: usize = buf.len();
    let (psbt, c1) = match get_bytes(buf, pos) {
        Some(x) => x,
        None => {
            return None;
        },
    };
    let p1 = pos + c1;
    proof {
        lemma_skip_skip(buf@, pos as int, c1 as int);
    }
    if p1 >= total {
        return None;
    }
    if buf[p1] == 0 {
        Some((psbt, None, c1 + 1))
    } else if buf[p1] == 1 {
        proof {
            lemma_skip_skip(buf@, p1 as int, 1);
        }
        match get_bytes(buf, p1 + 1) {
            Some((d, c2)) => Some((psbt, Some(d), c1 + 1 + c2)),
            None => None,
        }
    } else {
        None
    }
}

/// Reads an operation from its canonical encoding; `None` where the bytes
/// are not the encoding of one, or hold more than one.
pub fn decode_operation(buf: &Vec<u8>) -> (r: Option<Operation>)
    ensures
        r.is_some() <==> (dec_operation(buf@).is_some() && dec_operation(buf@).unwrap().1 == buf@.len()),
        r.is_some() ==> r.unwrap().model() == dec_operation(buf@).unwrap().0,
{
    let total: usize = buf.len();
    proof {
        assert(buf@.skip(0) =~= buf@);
    }
    let (txid, created_at, height, published, c1) = match get_op_head(buf, 0) {
        Some(x) => x,
        None => {
            return None;
        },
    };
    let numbers = match get_op_numbers(buf, c1) {
        Some(x) => x,
        None => {
            return None;
        },
    };
    proof {
        lemma_skip_skip(buf@, 0, c1 as int);
    }
    let (change_outputs, giveaway, output_derivation_indexes, c2) = match get_op_lists(buf, c1 + 96) {
        Some(x) => x,
        None => {
            return None;
        },
    };
    let (psbt, disclosure, c3) = match get_op_tail(buf, c1 + 96 + c2) {
        Some(x) => x,
        None => {
            return None;
        },
    };
    if c1 + 96 + c2 + c3 != total {
        return None;
    }
    let record = OutgoingRecord { published, change_outputs, giveaway, output_derivation_indexes, ..numbers };
    let op = Operation { txid, created_at, height, record, psbt, disclosure };
    proof {
        assert(op.model() =~= dec_operation(buf@).unwrap().0);
    }
    Some(op)
}

} // verus!
