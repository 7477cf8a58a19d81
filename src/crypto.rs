use vstd::prelude::*;

verus! {

/// What `bitcoin::PublicKey::from_slice` accepts: a serialised secp256k1
/// point.
pub uninterp spec fn valid_pubkey(data: Seq<u8>) -> bool;

/// Relies on `bitcoin::PublicKey::from_slice`: whether the bytes are a
/// compressed (33 bytes) or uncompressed (65 bytes) public key.
#[verifier::external_body]
pub(crate) fn pubkey_is_valid(data: &Vec<u8>) -> (r: bool)
    ensures
        r == valid_pubkey(data@),
        r ==> data@.len() == 33 || data@.len() == 65,
{
    bitcoin::PublicKey::from_slice(data).is_ok()
}


/// The public key that `bitcoin::util::bip32::ExtendedPubKey::derive_pub`
/// gives for an extended public key (in its 78-byte BIP-32 form) along a path of unhardened
/// child numbers, serialised.
pub uninterp spec fn child_pubkey(xpub: Seq<u8>, path: Seq<u32>) -> Option<Seq<u8>>;

/// Whether deriving along `path` keeps the depth of the key within one
/// byte: `derive_pub` adds one to the depth byte (byte 4 of the 78-byte
/// form) at each step, and panics past 255.
pub open spec fn depth_allows(xpub: Seq<u8>, path: Seq<u32>) -> bool {
    xpub.len() == 78 && path.len() > 0 ==> xpub[4] as int + path.len() <= 255
}

/// The fingerprint of an extended public key (in its 78-byte BIP-32 form).
pub uninterp spec fn fingerprint_of(xpub: Seq<u8>) -> Option<Seq<u8>>;

/// Relies on `ExtendedPubKey::decode` and `ExtendedPubKey::derive_pub`
/// of the bitcoin crate: the serialised public key at `path` below `xpub`;
/// `None` where `xpub` does not decode or a child number is hardened.
#[verifier::external_body]
pub(crate) fn derive_child_pubkey(xpub: &Vec<u8>, path: &Vec<u32>) -> (r: Option<Vec<u8>>)
    requires
        depth_allows(xpub@, path@),
    ensures
        r.is_some() == child_pubkey(xpub@, path@).is_some(),
        r.is_some() ==> r.unwrap()@ == child_pubkey(xpub@, path@).unwrap(),
{
    let xpub = bitcoin::util::bip32::ExtendedPubKey::decode(xpub).ok()?;
    let path = path.iter().map(|i| bitcoin::util::bip32::ChildNumber::from_normal_idx(*i)).collect::<
        Result<Vec<_>, _>,
    >().ok()?;
    let secp = bitcoin::secp256k1::Secp256k1::verification_only();
    xpub.derive_pub(&secp, &path).ok().map(|k| k.public_key.to_bytes())
}

/// Relies on `ExtendedPubKey::decode` and `ExtendedPubKey::fingerprint`
/// of the bitcoin crate: the four-byte fingerprint of `xpub`, `None` where
/// it does not decode.
#[verifier::external_body]
pub(crate) fn xpub_fingerprint(xpub: &Vec<u8>) -> (r: Option<Vec<u8>>)
    ensures
        r.is_some() == fingerprint_of(xpub@).is_some(),
        r.is_some() ==> r.unwrap()@ == fingerprint_of(xpub@).unwrap(),
        r.is_some() ==> r.unwrap()@.len() == 4,
{
    let xpub = bitcoin::util::bip32::ExtendedPubKey::decode(xpub).ok()?;
    Some(xpub.fingerprint().as_bytes().to_vec())
}

} // verus!
