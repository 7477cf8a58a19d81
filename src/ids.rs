use vstd::prelude::*;

use crate::encoding::{enc_policy, encode_policy, policy_encodable};
use crate::policy::Policy;
use crate::text::push_bytes;

verus! {

/// The SHA-256 digest of some bytes.
pub uninterp spec fn sha256_of(data: Seq<u8>) -> Seq<u8>;

/// Relies on `bitcoin::hashes::sha256::Hash::hash`: the SHA-256 digest of
/// the data, 32 bytes long.
#[verifier::external_body]
pub(crate) fn sha256(data: &Vec<u8>) -> (r: Vec<u8>)
    ensures
        r@ == sha256_of(data@),
        r@.len() == 32,
{
    <bitcoin::hashes::sha256::Hash as bitcoin::hashes::Hash>::hash(data).to_vec()
}

/// The tag of contract ids, `citadel:contract` in ASCII.
pub open spec fn contract_tag() -> Seq<u8> {
    seq![99u8, 105, 116, 97, 100, 101, 108, 58, 99, 111, 110, 116, 114, 97, 99, 116]
}

/// The 64 bytes that open every tagged hash: the digest of the tag, twice.
/// Hashing them leaves SHA-256 in the tag's midstate.
pub open spec fn tag_prefix(tag: Seq<u8>) -> Seq<u8> {
    sha256_of(tag) + sha256_of(tag)
}

/// The tagged hash of a message: SHA-256 over the tag prefix and the
/// message.
pub open spec fn tagged_hash(tag: Seq<u8>, msg: Seq<u8>) -> Seq<u8> {
    sha256_of(tag_prefix(tag) + msg)
}

/// The tag under which contract ids are hashed.
pub struct ContractIdTag;

impl ContractIdTag {
    /// The tag's bytes.
    pub fn tag() -> (r: Vec<u8>)
        ensures
            r@ == contract_tag(),
    {
        let mut r: Vec<u8> = Vec::new();
        push_bytes(&mut r, &[99u8, 105, 116, 97, 100, 101, 108, 58, 99, 111, 110, 116, 114, 97, 99, 116]);
        proof {
            assert(r@ =~= contract_tag());
        }
        r
    }

    /// The 64-byte block that sets SHA-256 to the tag's midstate: the
    /// digest of the tag, twice.
    pub fn engine_prefix() -> (r: Vec<u8>)
        ensures
            r@ == tag_prefix(contract_tag()),
            r@.len() == 64,
    {
        let digest = sha256(&Self::tag());
        let mut r: Vec<u8> = Vec::new();
        push_bytes(&mut r, digest.as_slice());
        push_bytes(&mut r, digest.as_slice());
        r
    }
}

/// The identity of a contract: the tagged hash of its policy's encoding.
#[derive(Clone, Debug)]
pub struct ContractId {
    pub bytes: Vec<u8>,
}

impl ContractId {
    /// The id that commits to a message.
    pub fn commit(msg: &Vec<u8>) -> (r: ContractId)
        ensures
            r.bytes@ == tagged_hash(contract_tag(), msg@),
            r.bytes@.len() == 32,
    {
        let mut data = ContractIdTag::engine_prefix();
        push_bytes(&mut data, msg.as_slice());
        ContractId { bytes: sha256(&data) }
    }

    /// Whether two ids are equal.
    pub fn same(&self, other: &ContractId) -> (r: bool)
        ensures
            r == (self.bytes@ == other.bytes@),
    {
        crate::model::bytes_eq(&self.bytes, &other.bytes)
    }
}

impl Policy {
    /// The contract id of the policy: the tagged hash of its canonical
    /// encoding; `None` where the policy has no encoding.
    pub fn id(&self) -> (r: Option<ContractId>)
        ensures
            r.is_some() == policy_encodable(self@),
            r.is_some() ==> r.unwrap().bytes@ == tagged_hash(contract_tag(), enc_policy(self@)),
    {
        match encode_policy(self) {
            Some(data) => Some(ContractId::commit(&data)),
            None => None,
        }
    }
}

} // verus!
