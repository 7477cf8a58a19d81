use vstd::prelude::*;

use crate::index::UnhardenedIndex;

verus! {

/// Whether two byte strings are equal.
pub fn bytes_eq(a: &Vec<u8>, b: &Vec<u8>) -> (r: bool)
    ensures
        r == (a@ == b@),
{
    if a.len() != b.len() {
        return false;
    }
    let mut i: usize = 0;
    while i < a.len()
        invariant
            a@.len() == b@.len(),
            0 <= i <= a@.len(),
            forall|j: int| 0 <= j < i ==> a@[j] == b@[j],
        decreases a@.len() - i,
    {
        if a[i] != b[i] {
            return false;
        }
        i = i + 1;
    }
    proof {
        assert(a@ =~= b@);
    }
    true
}

/// A copy of a byte string.
pub fn copy_bytes(b: &Vec<u8>) -> (r: Vec<u8>)
    ensures
        r@ == b@,
{
    let mut r: Vec<u8> = Vec::new();
    let mut i: usize = 0;
    while i < b.len()
        invariant
            0 <= i <= b@.len(),
            r@ == b@.subrange(0, i as int),
        decreases b@.len() - i,
    {
        r.push(b[i]);
        i = i + 1;
        proof {
            assert(r@ =~= b@.subrange(0, i as int));
        }
    }
    proof {
        assert(r@ =~= b@);
    }
    r
}

/// An address of the wallet and the derivation path it was made at.
#[derive(Clone, Debug)]
pub struct AddressDerivation {
    pub address: String,
    pub derivation: Vec<UnhardenedIndex>,
}

/// A reference to one output of a transaction: its id (32 bytes) and the
/// output's number in it.
#[derive(Clone, Debug)]
pub struct OutPoint {
    pub txid: Vec<u8>,
    pub vout: u32,
}

/// What identifies an outpoint in contracts: the transaction id and the
/// output number.
pub struct OutPointModel {
    pub txid: Seq<u8>,
    pub vout: u32,
}

impl View for OutPoint {
    type V = OutPointModel;

    open spec fn view(&self) -> OutPointModel {
        OutPointModel { txid: self.txid@, vout: self.vout }
    }
}

impl OutPoint {
    /// Whether two outpoints name the same output.
    pub fn same(&self, other: &OutPoint) -> (r: bool)
        ensures
            r == (self@ == other@),
    {
        self.vout == other.vout && bytes_eq(&self.txid, &other.txid)
    }

    /// A copy of the outpoint.
    pub fn duplicate(&self) -> (r: OutPoint)
        ensures
            r@ == self@,
    {
        OutPoint { txid: self.txid.clone(), vout: self.vout }
    }
}

/// A blinding reveal a contract keeps: the hash it was published under, and
/// the outpoint with its blinding factor.
#[derive(Clone, Debug)]
pub struct BlindingReveal {
    pub hash: Vec<u8>,
    pub outpoint: OutPoint,
    pub blinding: u64,
}

/// A pay-to-contract tweak that was applied to an output of ours: where the
/// output is, its script, the 32-byte tweak, the public key that was tweaked
/// and the derivation index of that key.
#[derive(Clone, Debug)]
pub struct TweakedOutput {
    pub outpoint: OutPoint,
    pub script: Vec<u8>,
    pub tweak: Vec<u8>,
    pub pubkey: Vec<u8>,
    pub derivation_index: UnhardenedIndex,
}

/// An unspent output that belongs to a contract.
#[derive(Clone, Debug)]
pub struct Utxo {
    /// Satoshis, or units of an asset in an asset's list.
    pub value: u64,
    pub height: u32,
    /// Position of the transaction in its block.
    pub offset: u16,
    pub txid: Vec<u8>,
    pub vout: u16,
    pub derivation_index: UnhardenedIndex,
    /// The tweak and the untweaked public key, where the output is a
    /// pay-to-contract one.
    pub tweak: Option<(Vec<u8>, Vec<u8>)>,
    pub address: Option<String>,
}

impl Utxo {
    /// The outpoint of the output, in the model.
    pub open spec fn outpoint_spec(&self) -> OutPointModel {
        OutPointModel { txid: self.txid@, vout: self.vout as u32 }
    }

    /// The outpoint of the output.
    pub fn outpoint(&self) -> (r: OutPoint)
        ensures
            r@ == self.outpoint_spec(),
    {
        OutPoint { txid: self.txid.clone(), vout: self.vout as u32 }
    }

    /// A copy of the record, which keeps every field.
    pub fn duplicate(&self) -> (r: Utxo)
        ensures
            r.same_as(self),
    {
        Utxo {
            value: self.value,
            height: self.height,
            offset: self.offset,
            txid: self.txid.clone(),
            vout: self.vout,
            derivation_index: self.derivation_index,
            tweak: match &self.tweak {
                Some(t) => Some((t.0.clone(), t.1.clone())),
                None => None,
            },
            address: match &self.address {
                Some(a) => Some(a.clone()),
                None => None,
            },
        }
    }

    /// Two records hold the same values.
    pub open spec fn same_as(&self, other: &Utxo) -> bool {
        &&& self.value == other.value
        &&& self.height == other.height
        &&& self.offset == other.offset
        &&& self.txid@ == other.txid@
        &&& self.vout == other.vout
        &&& self.derivation_index == other.derivation_index
        &&& self.tweak.is_some() == other.tweak.is_some()
        &&& self.tweak.is_some() ==> (self.tweak.unwrap().0@ == other.tweak.unwrap().0@
            && self.tweak.unwrap().1@ == other.tweak.unwrap().1@)
        &&& self.address.is_some() == other.address.is_some()
        &&& self.address.is_some() ==> self.address.unwrap()@ == other.address.unwrap()@
    }
}

} // verus!
