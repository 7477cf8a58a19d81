use vstd::prelude::*;

use crate::chain::{magic_of, Chain};
use crate::crypto::{child_pubkey, depth_allows, derive_child_pubkey, fingerprint_of, xpub_fingerprint};
use crate::index::UnhardenedIndex;
use crate::model::{copy_bytes, AddressDerivation};
use crate::text::{dec_of, hex_of, push_bytes, push_dec, push_hex};

verus! {

/// The banking use a contract serves.
#[derive(Clone, Copy, Debug, PartialEq, Eq, Structural, Hash)]
pub enum PolicyType {
    /// Spending with a simple procedure, like a single signature.
    Current,
    /// Payment channels, for fast payments with strict limits.
    Instant,
    /// Spending with multiple signatures, timelocks or hardware devices.
    Saving,
    Loan,
    Staking,
    Trading,
    Storage,
    Computing,
}

impl PolicyType {
    /// The lower-case name of the policy type.
    pub fn name(&self) -> (r: &'static str) {
        match self {
            PolicyType::Current => "current",
            PolicyType::Instant => "instant",
            PolicyType::Saving => "saving",
            PolicyType::Loan => "loan",
            PolicyType::Staking => "staking",
            PolicyType::Trading => "trading",
            PolicyType::Storage => "storage",
            PolicyType::Computing => "computing",
        }
    }
}

/// How keys are put into a script: bare, behind a hash, or as segwit.
#[derive(Clone, Copy, Debug, PartialEq, Eq, Structural, Hash)]
pub enum ContentType {
    Bare,
    Hashed,
    SegWit,
}

/// One step of the derivation path below a branch key: a fixed child
/// number, or the wildcard that a derivation index replaces.
#[derive(Clone, Copy, Debug, PartialEq, Eq, Structural, Hash)]
pub enum TerminalStep {
    Index(u32),
    Wildcard,
}

/// A key chain: an extended public key (in its 78-byte BIP-32 form) and the path from it to
/// the keys of the wallet, which may end in a wildcard. `master` is the
/// 4-byte fingerprint of the master key and `source_path` the child numbers
/// from it to the branch key, where they are known.
#[derive(Clone, Debug)]
pub struct PubkeyChain {
    pub master: Option<Vec<u8>>,
    pub source_path: Vec<u32>,
    pub branch_xpub: Vec<u8>,
    pub terminal_path: Vec<TerminalStep>,
}

/// The keys and scripts of an on-chain contract.
#[derive(Clone, Debug)]
pub enum ContractDescriptor {
    SingleSig { category: ContentType, pk: PubkeyChain },
    MultiSig { category: ContentType, threshold: usize, signers: Vec<PubkeyChain>, sorted: bool },
}

/// A payment channel: its id and the addresses of its peers, as text.
#[derive(Clone, Debug)]
pub struct ChannelDescriptor {
    pub channel_id: Vec<u8>,
    pub peers: Vec<Vec<u8>>,
}

/// The spending policy of a contract.
#[derive(Clone, Debug)]
pub enum Policy {
    Current(ContractDescriptor),
    Instant(ChannelDescriptor),
    Saving(ContractDescriptor),
}

/// The kind of an output script descriptor.
#[derive(Clone, Copy, Debug, PartialEq, Eq, Structural, Hash)]
pub enum DescriptorType {
    Bare,
    Sh,
    Pkh,
    Wpkh,
    Wsh,
    ShWsh,
    ShWpkh,
    ShSortedMulti,
    WshSortedMulti,
    ShWshSortedMulti,
}

/// The shape of a descriptor's script; `Multi` shapes take a threshold and
/// several keys, the others one key.
#[derive(Clone, Copy, Debug, PartialEq, Eq, Structural, Hash)]
pub enum ScriptShape {
    Pk,
    Pkh,
    Wpkh,
    ShWpkh,
    BareMulti,
    ShMulti,
    WshMulti,
    ShWshMulti,
    ShSortedMulti,
    WshSortedMulti,
    ShWshSortedMulti,
}

/// The descriptor kind of each shape.
pub open spec fn shape_type(s: ScriptShape) -> DescriptorType {
    match s {
        ScriptShape::Pk => DescriptorType::Bare,
        ScriptShape::Pkh => DescriptorType::Pkh,
        ScriptShape::Wpkh => DescriptorType::Wpkh,
        ScriptShape::ShWpkh => DescriptorType::ShWpkh,
        ScriptShape::BareMulti => DescriptorType::Bare,
        ScriptShape::ShMulti => DescriptorType::Sh,
        ScriptShape::WshMulti => DescriptorType::Wsh,
        ScriptShape::ShWshMulti => DescriptorType::ShWsh,
        ScriptShape::ShSortedMulti => DescriptorType::ShSortedMulti,
        ScriptShape::WshSortedMulti => DescriptorType::WshSortedMulti,
        ScriptShape::ShWshSortedMulti => DescriptorType::ShWshSortedMulti,
    }
}

impl ScriptShape {
    /// The descriptor kind of the shape.
    pub fn desc_type(&self) -> (r: DescriptorType)
        ensures
            r == shape_type(*self),
    {
        match self {
            ScriptShape::Pk => DescriptorType::Bare,
            ScriptShape::Pkh => DescriptorType::Pkh,
            ScriptShape::Wpkh => DescriptorType::Wpkh,
            ScriptShape::ShWpkh => DescriptorType::ShWpkh,
            ScriptShape::BareMulti => DescriptorType::Bare,
            ScriptShape::ShMulti => DescriptorType::Sh,
            ScriptShape::WshMulti => DescriptorType::Wsh,
            ScriptShape::ShWshMulti => DescriptorType::ShWsh,
            ScriptShape::ShSortedMulti => DescriptorType::ShSortedMulti,
            ScriptShape::WshSortedMulti => DescriptorType::WshSortedMulti,
            ScriptShape::ShWshSortedMulti => DescriptorType::ShWshSortedMulti,
        }
    }
}

/// The shape of the native (not nested) descriptor of a contract.
pub open spec fn contract_shape(d: ContractDescriptor) -> ScriptShape {
    match d {
        ContractDescriptor::SingleSig { category, .. } => match category {
            ContentType::Bare => ScriptShape::Pk,
            ContentType::Hashed => ScriptShape::Pkh,
            ContentType::SegWit => ScriptShape::Wpkh,
        },
        ContractDescriptor::MultiSig { category, sorted, .. } => match category {
            ContentType::Bare => ScriptShape::BareMulti,
            ContentType::Hashed => if sorted {
                ScriptShape::ShSortedMulti
            } else {
                ScriptShape::ShMulti
            },
            ContentType::SegWit => if sorted {
                ScriptShape::WshSortedMulti
            } else {
                ScriptShape::WshMulti
            },
        },
    }
}

/// The shape that the legacy (P2SH-nested) form of a shape has: native
/// segwit shapes move inside P2SH, and a segwit sorted multisig becomes a
/// plain P2SH sorted multisig.
pub open spec fn legacy_shape(s: ScriptShape) -> ScriptShape {
    match s {
        ScriptShape::Wpkh => ScriptShape::ShWpkh,
        ScriptShape::WshMulti => ScriptShape::ShWshMulti,
        ScriptShape::WshSortedMulti => ScriptShape::ShSortedMulti,
        _ => s,
    }
}

/// Whether spending the shape's outputs uses witness data.
pub open spec fn type_has_witness(t: DescriptorType) -> bool {
    match t {
        DescriptorType::Bare | DescriptorType::Sh | DescriptorType::Pkh | DescriptorType::ShSortedMulti => false,
        _ => true,
    }
}

/// A descriptor over key chains: its shape, its threshold (for multisig
/// shapes) and its keys in order.
#[derive(Clone, Debug)]
pub struct Descriptor {
    pub shape: ScriptShape,
    pub threshold: usize,
    pub keys: Vec<PubkeyChain>,
}

impl ContractDescriptor {
    /// The shape of the contract's native descriptor.
    pub fn shape(&self) -> (r: ScriptShape)
        ensures
            r == contract_shape(*self),
    {
        match self {
            ContractDescriptor::SingleSig { category, .. } => match category {
                ContentType::Bare => ScriptShape::Pk,
                ContentType::Hashed => ScriptShape::Pkh,
                ContentType::SegWit => ScriptShape::Wpkh,
            },
            ContractDescriptor::MultiSig { category, sorted, .. } => match category {
                ContentType::Bare => ScriptShape::BareMulti,
                ContentType::Hashed => if *sorted {
                    ScriptShape::ShSortedMulti
                } else {
                    ScriptShape::ShMulti
                },
                ContentType::SegWit => if *sorted {
                    ScriptShape::WshSortedMulti
                } else {
                    ScriptShape::WshMulti
                },
            },
        }
    }
}

/// The type of a policy.
pub open spec fn policy_type_of(p: Policy) -> PolicyType {
    match p {
        Policy::Current(_) => PolicyType::Current,
        Policy::Instant(_) => PolicyType::Instant,
        Policy::Saving(_) => PolicyType::Saving,
    }
}

/// Whether spending a policy's outputs uses witness data.
pub open spec fn policy_has_witness(p: Policy) -> bool {
    match p {
        Policy::Instant(_) => true,
        Policy::Current(d) => type_has_witness(shape_type(contract_shape(d))),
        Policy::Saving(d) => type_has_witness(shape_type(contract_shape(d))),
    }
}

impl Policy {
    /// Whether the policy is an on-chain one (not a payment channel).
    pub open spec fn is_onchain(&self) -> bool {
        !(self is Instant)
    }

    /// The contract descriptor of an on-chain policy.
    pub open spec fn contract(&self) -> ContractDescriptor {
        match *self {
            Policy::Current(d) => d,
            Policy::Saving(d) => d,
            Policy::Instant(_) => arbitrary(),
        }
    }

    /// The policy type.
    pub fn policy_type(&self) -> (r: PolicyType)
        ensures
            r == policy_type_of(*self),
    {
        match self {
            Policy::Current(_) => PolicyType::Current,
            Policy::Instant(_) => PolicyType::Instant,
            Policy::Saving(_) => PolicyType::Saving,
        }
    }

    /// Whether spending needs an explicit script: all policies but a
    /// single-signature current one.
    pub fn is_scripted(&self) -> (r: bool)
        ensures
            r == !(self is Current && self->Current_0 is SingleSig),
    {
        match self {
            Policy::Current(ContractDescriptor::SingleSig { .. }) => false,
            _ => true,
        }
    }

    /// Whether spending uses witness data: always for a channel, otherwise
    /// by the kind of the policy's descriptor.
    pub fn has_witness(&self) -> (r: bool)
        ensures
            r == policy_has_witness(*self),
    {
        match self {
            Policy::Instant(_) => true,
            Policy::Current(d) | Policy::Saving(d) => match d.shape().desc_type() {
                DescriptorType::Bare | DescriptorType::Sh | DescriptorType::Pkh | DescriptorType::ShSortedMulti => false,
                DescriptorType::Wpkh
                | DescriptorType::Wsh
                | DescriptorType::ShWsh
                | DescriptorType::ShWpkh
                | DescriptorType::WshSortedMulti
                | DescriptorType::ShWshSortedMulti => true,
            },
        }
    }
}


/// Keys in hex, separated by commas.
pub open spec fn keys_text(keys: Seq<Seq<u8>>) -> Seq<u8>
    decreases keys.len(),
{
    if keys.len() == 0 {
        Seq::empty()
    } else if keys.len() == 1 {
        hex_of(keys[0])
    } else {
        keys_text(keys.drop_last()) + seq![44u8] + hex_of(keys.last())
    }
}

/// What opens the descriptor text of a shape, before its keys or its
/// multisig fragment: `pk(`, `pkh(`, `wpkh(`, `sh(wpkh(`, `sh(`, `wsh(` or
/// `sh(wsh(`, or nothing for a bare multisig.
pub open spec fn shape_prefix(s: ScriptShape) -> Seq<u8> {
    match s {
        ScriptShape::Pk => seq![112u8, 107, 40],
        ScriptShape::Pkh => seq![112u8, 107, 104, 40],
        ScriptShape::Wpkh => seq![119u8, 112, 107, 104, 40],
        ScriptShape::ShWpkh => seq![115u8, 104, 40, 119, 112, 107, 104, 40],
        ScriptShape::BareMulti => Seq::empty(),
        ScriptShape::ShMulti | ScriptShape::ShSortedMulti => seq![115u8, 104, 40],
        ScriptShape::WshMulti | ScriptShape::WshSortedMulti => seq![119u8, 115, 104, 40],
        ScriptShape::ShWshMulti | ScriptShape::ShWshSortedMulti => seq![115u8, 104, 40, 119, 115, 104, 40],
    }
}

/// The closing parentheses of a shape's prefix.
pub open spec fn shape_suffix(s: ScriptShape) -> Seq<u8> {
    match s {
        ScriptShape::BareMulti => Seq::empty(),
        ScriptShape::ShWpkh | ScriptShape::ShWshMulti | ScriptShape::ShWshSortedMulti => seq![41u8, 41],
        _ => seq![41u8],
    }
}

/// Whether a shape holds a multisig fragment, and whether it is sorted.
pub open spec fn shape_multi(s: ScriptShape) -> Option<bool> {
    match s {
        ScriptShape::BareMulti | ScriptShape::ShMulti | ScriptShape::WshMulti | ScriptShape::ShWshMulti => Some(false),
        ScriptShape::ShSortedMulti | ScriptShape::WshSortedMulti | ScriptShape::ShWshSortedMulti => Some(true),
        _ => None,
    }
}

/// The text of a descriptor with concrete public keys, as miniscript reads
/// it: for instance `wpkh(02ab..)` or `wsh(sortedmulti(2,02ab..,03cd..))`.
pub open spec fn descriptor_text(shape: ScriptShape, threshold: nat, keys: Seq<Seq<u8>>) -> Seq<u8> {
    let body = match shape_multi(shape) {
        None => keys_text(keys),
        Some(sorted) => (if sorted {
            seq![115u8, 111, 114, 116, 101, 100, 109, 117, 108, 116, 105, 40]
        } else {
            seq![109u8, 117, 108, 116, 105, 40]
        }) + dec_of(threshold) + seq![44u8] + keys_text(keys) + seq![41u8],
    };
    shape_prefix(shape) + body + shape_suffix(shape)
}

/// Appends the keys in hex, separated by commas.
fn push_keys(out: &mut Vec<u8>, keys: &Vec<Vec<u8>>)
    ensures
        final(out)@ == old(out)@ + keys_text(keys@.map_values(|k: Vec<u8>| k@)),
{
    let ghost start = out@;
    let ghost views = keys@.map_values(|k: Vec<u8>| k@);
    let mut i: usize = 0;
    while i < keys.len()
        invariant
            0 <= i <= keys@.len(),
            views == keys@.map_values(|k: Vec<u8>| k@),
            out@ == start + keys_text(views.subrange(0, i as int)),
        decreases keys@.len() - i,
    {
        let ghost before = out@;
        if i > 0 {
            out.push(44u8);
        }
        push_hex(out, &keys[i]);
        proof {
            let s = views.subrange(0, i + 1);
            assert(s.drop_last() =~= views.subrange(0, i as int));
            assert(s.last() == keys@[i as int]@);
            if i == 0 {
                assert(out@ =~= start + keys_text(s));
            } else {
                assert(out@ =~= start + keys_text(s));
            }
        }
        i = i + 1;
    }
    proof {
        assert(views.subrange(0, keys@.len() as int) =~= views);
    }
}

/// The descriptor text of a shape with concrete public keys.
pub fn descriptor_bytes(shape: ScriptShape, threshold: usize, keys: &Vec<Vec<u8>>) -> (r: Vec<u8>)
    ensures
        r@ == descriptor_text(shape, threshold as nat, keys@.map_values(|k: Vec<u8>| k@)),
{
    let mut out: Vec<u8> = Vec::new();
    match shape {
        ScriptShape::Pk => push_bytes(&mut out, &[112u8, 107, 40]),
        ScriptShape::Pkh => push_bytes(&mut out, &[112u8, 107, 104, 40]),
        ScriptShape::Wpkh => push_bytes(&mut out, &[119u8, 112, 107, 104, 40]),
        ScriptShape::ShWpkh => push_bytes(&mut out, &[115u8, 104, 40, 119, 112, 107, 104, 40]),
        ScriptShape::BareMulti => {},
        ScriptShape::ShMulti | ScriptShape::ShSortedMulti => push_bytes(&mut out, &[115u8, 104, 40]),
        ScriptShape::WshMulti | ScriptShape::WshSortedMulti => push_bytes(&mut out, &[119u8, 115, 104, 40]),
        ScriptShape::ShWshMulti | ScriptShape::ShWshSortedMulti => push_bytes(
            &mut out,
            &[115u8, 104, 40, 119, 115, 104, 40],
        ),
    }
    let ghost prefix = out@;
    match shape {
        ScriptShape::Pk | ScriptShape::Pkh | ScriptShape::Wpkh | ScriptShape::ShWpkh => {
            push_keys(&mut out, keys);
        },
        ScriptShape::ShSortedMulti | ScriptShape::WshSortedMulti | ScriptShape::ShWshSortedMulti => {
            push_bytes(&mut out, &[115u8, 111, 114, 116, 101, 100, 109, 117, 108, 116, 105, 40]);
            push_dec(&mut out, threshold);
            out.push(44u8);
            push_keys(&mut out, keys);
            out.push(41u8);
        },
        _ => {
            push_bytes(&mut out, &[109u8, 117, 108, 116, 105, 40]);
            push_dec(&mut out, threshold);
            out.push(44u8);
            push_keys(&mut out, keys);
            out.push(41u8);
        },
    }
    let ghost body = out@.subrange(prefix.len() as int, out@.len() as int);
    match shape {
        ScriptShape::BareMulti => {},
        ScriptShape::ShWpkh | ScriptShape::ShWshMulti | ScriptShape::ShWshSortedMulti => push_bytes(
            &mut out,
            &[41u8, 41],
        ),
        _ => push_bytes(&mut out, &[41u8]),
    }
    proof {
        let views = keys@.map_values(|k: Vec<u8>| k@);
        assert(prefix =~= shape_prefix(shape));
        assert(out@ =~= descriptor_text(shape, threshold as nat, views));
    }
    out
}


/// The script pubkey of a descriptor text, as miniscript computes it.
pub uninterp spec fn script_of_descriptor(text: Seq<u8>) -> Option<Seq<u8>>;

/// The explicit (witness or redeem) script of a descriptor text.
pub uninterp spec fn explicit_script_of(text: Seq<u8>) -> Option<Seq<u8>>;

/// The address of a descriptor text on the network with the given magic.
pub uninterp spec fn address_of_descriptor(text: Seq<u8>, magic: u32) -> Option<Seq<char>>;

/// Relies on miniscript's `Descriptor::<bitcoin::PublicKey>::from_str` and
/// `DescriptorTrait::script_pubkey`: the output script of a descriptor,
/// `None` where the text is not a valid descriptor.
#[verifier::external_body]
fn descriptor_script_pubkey(text: &Vec<u8>) -> (r: Option<Vec<u8>>)
    ensures
        r.is_some() == script_of_descriptor(text@).is_some(),
        r.is_some() ==> r.unwrap()@ == script_of_descriptor(text@).unwrap(),
{
    let text = std::str::from_utf8(text).ok()?;
    let d = text.parse::<miniscript::Descriptor<bitcoin::PublicKey>>().ok()?;
    Some(miniscript::DescriptorTrait::script_pubkey(&d).into_bytes())
}

/// Relies on miniscript's `Descriptor::<bitcoin::PublicKey>::from_str` and
/// `DescriptorTrait::explicit_script`: the script that a spend reveals,
/// `None` where the text is not a valid descriptor.
#[verifier::external_body]
fn descriptor_explicit_script(text: &Vec<u8>) -> (r: Option<Vec<u8>>)
    ensures
        r.is_some() == explicit_script_of(text@).is_some(),
        r.is_some() ==> r.unwrap()@ == explicit_script_of(text@).unwrap(),
{
    let text = std::str::from_utf8(text).ok()?;
    let d = text.parse::<miniscript::Descriptor<bitcoin::PublicKey>>().ok()?;
    Some(miniscript::DescriptorTrait::explicit_script(&d).into_bytes())
}

/// Relies on miniscript's `Descriptor::<bitcoin::PublicKey>::from_str`,
/// `bitcoin::Network::from_magic` and `DescriptorTrait::address`: the
/// address of a descriptor, `None` where the text is not a valid
/// descriptor, the magic is unknown or the descriptor has no address.
#[verifier::external_body]
fn descriptor_address(text: &Vec<u8>, magic: u32) -> (r: Option<String>)
    ensures
        r.is_some() == address_of_descriptor(text@, magic).is_some(),
        r.is_some() ==> r.unwrap()@ == address_of_descriptor(text@, magic).unwrap(),
{
    let text = std::str::from_utf8(text).ok()?;
    let d = text.parse::<miniscript::Descriptor<bitcoin::PublicKey>>().ok()?;
    let network = bitcoin::Network::from_magic(magic)?;
    miniscript::DescriptorTrait::address(&d, network).ok().map(|a| a.to_string())
}

/// The child numbers below the branch key at a derivation index: each
/// wildcard step takes the index.
pub open spec fn path_at(steps: Seq<TerminalStep>, index: nat) -> Seq<u32> {
    steps.map_values(
        |s: TerminalStep|
            match s {
                TerminalStep::Index(i) => i,
                TerminalStep::Wildcard => index as u32,
            },
    )
}

/// The public key of a key chain at a derivation index.
pub open spec fn chain_key(c: PubkeyChain, index: nat) -> Option<Seq<u8>> {
    if depth_allows(c.branch_xpub@, path_at(c.terminal_path@, index)) {
        child_pubkey(c.branch_xpub@, path_at(c.terminal_path@, index))
    } else {
        None
    }
}

/// The keys of chains at a derivation index, where each can be derived.
pub open spec fn chain_keys(chains: Seq<PubkeyChain>, index: nat) -> Option<Seq<Seq<u8>>>
    decreases chains.len(),
{
    if chains.len() == 0 {
        Some(Seq::empty())
    } else {
        match (chain_keys(chains.drop_last(), index), chain_key(chains.last(), index)) {
            (Some(ks), Some(k)) => Some(ks.push(k)),
            _ => None,
        }
    }
}

/// The key chains of a contract, in order.
pub open spec fn contract_chains(d: ContractDescriptor) -> Seq<PubkeyChain> {
    match d {
        ContractDescriptor::SingleSig { pk, .. } => seq![pk],
        ContractDescriptor::MultiSig { signers, .. } => signers@,
    }
}

/// The threshold of a contract: one for a single signature.
pub open spec fn contract_threshold(d: ContractDescriptor) -> nat {
    match d {
        ContractDescriptor::SingleSig { .. } => 1,
        ContractDescriptor::MultiSig { threshold, .. } => threshold as nat,
    }
}

/// The descriptor text of an on-chain policy at a derivation index, in its
/// native or (with `legacy`) its P2SH-nested form; `None` for a channel or
/// where a key cannot be derived.
pub open spec fn descriptor_text_at(p: Policy, index: nat, legacy: bool) -> Option<Seq<u8>> {
    if !p.is_onchain() {
        None
    } else {
        let d = p.contract();
        let shape = if legacy {
            legacy_shape(contract_shape(d))
        } else {
            contract_shape(d)
        };
        match chain_keys(contract_chains(d), index) {
            Some(keys) => Some(descriptor_text(shape, contract_threshold(d), keys)),
            None => None,
        }
    }
}

/// The script pubkey of an on-chain policy at a derivation index.
pub open spec fn script_at(p: Policy, index: nat) -> Option<Seq<u8>> {
    match descriptor_text_at(p, index, false) {
        Some(t) => script_of_descriptor(t),
        None => None,
    }
}

/// A descriptor with concrete public keys.
#[derive(Clone, Debug)]
pub struct DerivedDescriptor {
    pub shape: ScriptShape,
    pub threshold: usize,
    pub keys: Vec<Vec<u8>>,
}

impl DerivedDescriptor {
    /// The descriptor's text.
    pub open spec fn text(&self) -> Seq<u8> {
        descriptor_text(self.shape, self.threshold as nat, self.keys@.map_values(|k: Vec<u8>| k@))
    }

    /// The descriptor's text, as miniscript reads it.
    pub fn to_text(&self) -> (r: Vec<u8>)
        ensures
            r@ == self.text(),
    {
        descriptor_bytes(self.shape, self.threshold, &self.keys)
    }

    /// The output script, where miniscript accepts the descriptor.
    pub fn script_pubkey(&self) -> (r: Option<Vec<u8>>)
        ensures
            r.is_some() == script_of_descriptor(self.text()).is_some(),
            r.is_some() ==> r.unwrap()@ == script_of_descriptor(self.text()).unwrap(),
    {
        descriptor_script_pubkey(&self.to_text())
    }

    /// The script a spend reveals, where miniscript accepts the descriptor.
    pub fn explicit_script(&self) -> (r: Option<Vec<u8>>)
        ensures
            r.is_some() == explicit_script_of(self.text()).is_some(),
            r.is_some() ==> r.unwrap()@ == explicit_script_of(self.text()).unwrap(),
    {
        descriptor_explicit_script(&self.to_text())
    }
}

impl PubkeyChain {
    /// The public key of the chain at a derivation index.
    pub fn derive_pubkey(&self, index: UnhardenedIndex) -> (r: Option<Vec<u8>>)
        ensures
            r.is_some() == chain_key(*self, index@).is_some(),
            r.is_some() ==> r.unwrap()@ == chain_key(*self, index@).unwrap(),
    {
        let i = index.index();
        let mut path: Vec<u32> = Vec::new();
        let mut k: usize = 0;
        while k < self.terminal_path.len()
            invariant
                0 <= k <= self.terminal_path@.len(),
                i == index@,
                path@ == path_at(self.terminal_path@.subrange(0, k as int), index@),
            decreases self.terminal_path@.len() - k,
        {
            match self.terminal_path[k] {
                TerminalStep::Index(n) => path.push(n),
                TerminalStep::Wildcard => path.push(i),
            }
            k = k + 1;
            proof {
                assert(path@ =~= path_at(self.terminal_path@.subrange(0, k as int), index@));
            }
        }
        proof {
            assert(self.terminal_path@.subrange(0, k as int) =~= self.terminal_path@);
        }
        if self.branch_xpub.len() == 78 && path.len() > 0 && path.len() > 255 - self.branch_xpub[4] as usize {
            return None;
        }
        derive_child_pubkey(&self.branch_xpub, &path)
    }
}

fn derive_keys(chains: &Vec<PubkeyChain>, index: UnhardenedIndex) -> (r: Option<Vec<Vec<u8>>>)
    ensures
        r.is_some() == chain_keys(chains@, index@).is_some(),
        r.is_some() ==> r.unwrap()@.map_values(|k: Vec<u8>| k@) == chain_keys(chains@, index@).unwrap(),
{
    let mut keys: Vec<Vec<u8>> = Vec::new();
    let mut k: usize = 0;
    while k < chains.len()
        invariant
            0 <= k <= chains@.len(),
            chain_keys(chains@.subrange(0, k as int), index@).is_some(),
            keys@.map_values(|v: Vec<u8>| v@) == chain_keys(chains@.subrange(0, k as int), index@).unwrap(),
        decreases chains@.len() - k,
    {
        proof {
            assert(chains@.subrange(0, k + 1).drop_last() =~= chains@.subrange(0, k as int));
        }
        match chains[k].derive_pubkey(index) {
            Some(key) => {
                keys.push(key);
                k = k + 1;
                proof {
                    assert(keys@.map_values(|v: Vec<u8>| v@) =~= chain_keys(chains@.subrange(0, k as int), index@).unwrap());
                }
            },
            None => {
                proof {
                    lemma_chain_keys_prefix(chains@, index@, k + 1);
                }
                return None;
            },
        }
    }
    proof {
        assert(chains@.subrange(0, k as int) =~= chains@);
    }
    Some(keys)
}

/// Where some prefix of the chains has no keys, neither have all of them.
proof fn lemma_chain_keys_prefix(chains: Seq<PubkeyChain>, index: nat, n: int)
    requires
        0 <= n <= chains.len(),
        chain_keys(chains.subrange(0, n), index).is_none(),
    ensures
        chain_keys(chains, index).is_none(),
    decreases chains.len() - n,
{
    if n < chains.len() {
        assert(chains.subrange(0, n + 1).drop_last() =~= chains.subrange(0, n));
        lemma_chain_keys_prefix(chains, index, n + 1);
    } else {
        assert(chains.subrange(0, n) =~= chains);
    }
}


fn contract_keys(d: &ContractDescriptor, index: UnhardenedIndex) -> (r: Option<Vec<Vec<u8>>>)
    ensures
        r.is_some() == chain_keys(contract_chains(*d), index@).is_some(),
        r.is_some() ==> r.unwrap()@.map_values(|k: Vec<u8>| k@) == chain_keys(contract_chains(*d), index@).unwrap(),
{
    match d {
        ContractDescriptor::SingleSig { pk, .. } => {
            proof {
                let cs = seq![*pk];
                assert(cs.drop_last() =~= Seq::<PubkeyChain>::empty());
                assert(chain_keys(cs.drop_last(), index@) == Some(Seq::<Seq<u8>>::empty()));
                assert(cs.last() == *pk);
                assert(contract_chains(*d) == cs);
            }
            match pk.derive_pubkey(index) {
                Some(key) => {
                    let mut keys: Vec<Vec<u8>> = Vec::new();
                    keys.push(key);
                    proof {
                        assert(keys@.map_values(|k: Vec<u8>| k@) =~= chain_keys(contract_chains(*d), index@).unwrap());
                    }
                    Some(keys)
                },
                None => None,
            }
        },
        ContractDescriptor::MultiSig { signers, .. } => derive_keys(signers, index),
    }
}

impl ChannelDescriptor {
    /// The on-chain descriptor of a channel. Channel outputs are not derived
    /// by the wallet yet, so there is none.
    pub fn to_descriptor(&self) -> (r: Option<Descriptor>)
        ensures
            r.is_none(),
    {
        None
    }
}

impl Policy {
    /// The descriptor of the policy over its key chains; `None` for a
    /// channel, which has no on-chain descriptor yet.
    pub fn to_descriptor(&self) -> (r: Option<Descriptor>)
        ensures
            r.is_some() == self.is_onchain(),
            r.is_some() ==> {
                let d = r.unwrap();
                &&& d.shape == contract_shape(self.contract())
                &&& d.threshold == contract_threshold(self.contract())
                &&& d.keys@.len() == contract_chains(self.contract()).len()
                &&& forall|k: int| 0 <= k < d.keys@.len() ==> (#[trigger] d.keys@[k]).same(contract_chains(self.contract())[k])
            },
    {
        let c = match self {
            Policy::Current(c) | Policy::Saving(c) => c,
            Policy::Instant(channel) => {
                return channel.to_descriptor();
            },
        };
        let keys = self.pubkey_chains();
        let threshold = match c {
            ContractDescriptor::SingleSig { .. } => 1,
            ContractDescriptor::MultiSig { threshold, .. } => *threshold,
        };
        Some(Descriptor { shape: c.shape(), threshold, keys })
    }

    /// The key chains of the policy, in order; none for a channel.
    pub fn pubkey_chains(&self) -> (r: Vec<PubkeyChain>)
        ensures
            !self.is_onchain() ==> r@.len() == 0,
            self.is_onchain() ==> r@.len() == contract_chains(self.contract()).len(),
            self.is_onchain() ==> forall|k: int| 0 <= k < r@.len() ==> (#[trigger] r@[k]).same(contract_chains(self.contract())[k]),
    {
        let mut r: Vec<PubkeyChain> = Vec::new();
        match self {
            Policy::Instant(_) => {},
            Policy::Current(c) | Policy::Saving(c) => match c {
                ContractDescriptor::SingleSig { pk, .. } => {
                    r.push(pk.duplicate());
                },
                ContractDescriptor::MultiSig { signers, .. } => {
                    let mut k: usize = 0;
                    while k < signers.len()
                        invariant
                            0 <= k <= signers@.len(),
                            r@.len() == k,
                            forall|j: int| 0 <= j < k ==> (#[trigger] r@[j]).same(signers@[j]),
                        decreases signers@.len() - k,
                    {
                        r.push(signers[k].duplicate());
                        k = k + 1;
                    }
                },
            },
        }
        r
    }

    /// The descriptor of the policy with the keys at a derivation index, in
    /// its native form or, with `legacy`, nested in P2SH; `None` for a
    /// channel or where a key cannot be derived.
    pub fn derive_descriptor(&self, index: UnhardenedIndex, legacy: bool) -> (r: Option<DerivedDescriptor>)
        ensures
            r.is_some() == descriptor_text_at(*self, index@, legacy).is_some(),
            r.is_some() ==> r.unwrap().text() == descriptor_text_at(*self, index@, legacy).unwrap(),
            r.is_some() ==> r.unwrap().shape == if legacy {
                legacy_shape(contract_shape(self.contract()))
            } else {
                contract_shape(self.contract())
            },
    {
        let c = match self {
            Policy::Current(c) | Policy::Saving(c) => c,
            Policy::Instant(_) => {
                return None;
            },
        };
        let native = c.shape();
        let shape = if legacy {
            match native {
                ScriptShape::Wpkh => ScriptShape::ShWpkh,
                ScriptShape::WshMulti => ScriptShape::ShWshMulti,
                ScriptShape::WshSortedMulti => ScriptShape::ShSortedMulti,
                _ => native,
            }
        } else {
            native
        };
        let threshold = match c {
            ContractDescriptor::SingleSig { .. } => 1,
            ContractDescriptor::MultiSig { threshold, .. } => *threshold,
        };
        match contract_keys(c, index) {
            Some(keys) => Some(DerivedDescriptor { shape, threshold, keys }),
            None => None,
        }
    }

    /// The script pubkey at one derivation index.
    pub fn derive_script(&self, index: UnhardenedIndex) -> (r: Option<Vec<u8>>)
        ensures
            r.is_some() == script_at(*self, index@).is_some(),
            r.is_some() ==> r.unwrap()@ == script_at(*self, index@).unwrap(),
    {
        match self.derive_descriptor(index, false) {
            Some(d) => d.script_pubkey(),
            None => None,
        }
    }

    /// The script pubkeys at each index of `[start, end)`, in order; `None`
    /// where any of them cannot be derived.
    pub fn derive_scripts(&self, start: UnhardenedIndex, end: UnhardenedIndex) -> (r: Option<
        Vec<(UnhardenedIndex, Vec<u8>)>,
    >)
        ensures
            r.is_some() <==> forall|i: nat| start@ <= i < end@ ==> #[trigger] script_at(*self, i).is_some(),
            r.is_some() ==> {
                let v = r.unwrap()@;
                &&& v.len() == if end@ > start@ {
                    end@ - start@
                } else {
                    0
                }
                &&& forall|k: int|
                    0 <= k < v.len() ==> (#[trigger] v[k]).0@ == start@ + k && v[k].1@ == script_at(
                        *self,
                        (start@ + k) as nat,
                    ).unwrap()
            },
    {
        let mut r: Vec<(UnhardenedIndex, Vec<u8>)> = Vec::new();
        let mut index = start;
        let end_value = end.index();
        if !start.lt(&end) {
            return Some(r);
        }
        loop
            invariant
                start@ <= index@ < end@,
                end_value == end@,
                end_value < 0x8000_0000,
                r@.len() == index@ - start@,
                forall|i: nat| start@ <= i < index@ ==> #[trigger] script_at(*self, i).is_some(),
                forall|k: int|
                    0 <= k < r@.len() ==> (#[trigger] r@[k]).0@ == start@ + k && r@[k].1@ == script_at(
                        *self,
                        (start@ + k) as nat,
                    ).unwrap(),
            decreases end@ - index@,
        {
            match self.derive_script(index) {
                Some(script) => r.push((index, script)),
                None => {
                    return None;
                },
            }
            match index.checked_inc() {
                Some(next) => {
                    if !next.lt(&end) {
                        return Some(r);
                    }
                    index = next;
                },
                None => {
                    return Some(r);
                },
            }
        }
    }

    /// The first public key of the policy at a derivation index; `None` for
    /// a channel or a policy without keys, or where it cannot be derived.
    pub fn first_public_key(&self, index: UnhardenedIndex) -> (r: Option<Vec<u8>>)
        ensures
            r.is_some() ==> self.is_onchain() && contract_chains(self.contract()).len() > 0 && chain_key(
                contract_chains(self.contract())[0],
                index@,
            ) == Some(r.unwrap()@),
            r.is_none() ==> !self.is_onchain() || contract_chains(self.contract()).len() == 0 || chain_key(
                contract_chains(self.contract())[0],
                index@,
            ).is_none(),
    {
        match self {
            Policy::Current(c) | Policy::Saving(c) => match c {
                ContractDescriptor::SingleSig { pk, .. } => pk.derive_pubkey(index),
                ContractDescriptor::MultiSig { signers, .. } => {
                    if signers.len() == 0 {
                        None
                    } else {
                        signers[0].derive_pubkey(index)
                    }
                },
            },
            Policy::Instant(_) => None,
        }
    }

    /// The address of the policy at a derivation index on a chain, with the
    /// derivation path `[index]`; `None` for a channel, a chain without
    /// addresses, a key that cannot be derived or a descriptor without
    /// address.
    pub fn derive_address(&self, index: UnhardenedIndex, chain: &Chain, legacy: bool) -> (r: Option<AddressDerivation>)
        ensures
            r.is_some() <==> (descriptor_text_at(*self, index@, legacy).is_some() && magic_of(*chain).is_some()
                && address_of_descriptor(
                descriptor_text_at(*self, index@, legacy).unwrap(),
                magic_of(*chain).unwrap(),
            ).is_some()),
            r.is_some() ==> r.unwrap().address@ == address_of_descriptor(
                descriptor_text_at(*self, index@, legacy).unwrap(),
                magic_of(*chain).unwrap(),
            ).unwrap(),
            r.is_some() ==> r.unwrap().derivation@ == seq![index],
    {
        let d = match self.derive_descriptor(index, legacy) {
            Some(d) => d,
            None => {
                return None;
            },
        };
        let magic = match chain.network_magic() {
            Some(m) => m,
            None => {
                return None;
            },
        };
        match descriptor_address(&d.to_text(), magic) {
            Some(address) => {
                let mut derivation: Vec<UnhardenedIndex> = Vec::new();
                derivation.push(index);
                proof {
                    assert(derivation@ =~= seq![index]);
                }
                Some(AddressDerivation { address, derivation })
            },
            None => None,
        }
    }
}

impl PubkeyChain {
    /// Two chains hold the same values.
    pub open spec fn same(&self, other: PubkeyChain) -> bool {
        &&& self.master.is_some() == other.master.is_some()
        &&& self.master.is_some() ==> self.master.unwrap()@ == other.master.unwrap()@
        &&& self.source_path@ == other.source_path@
        &&& self.branch_xpub@ == other.branch_xpub@
        &&& self.terminal_path@ == other.terminal_path@
    }

    /// A copy of the chain.
    pub fn duplicate(&self) -> (r: PubkeyChain)
        ensures
            r.same(*self),
    {
        let mut source_path: Vec<u32> = Vec::new();
        let mut k: usize = 0;
        while k < self.source_path.len()
            invariant
                0 <= k <= self.source_path@.len(),
                source_path@ == self.source_path@.subrange(0, k as int),
            decreases self.source_path@.len() - k,
        {
            source_path.push(self.source_path[k]);
            k = k + 1;
            proof {
                assert(source_path@ =~= self.source_path@.subrange(0, k as int));
            }
        }
        let mut terminal_path: Vec<TerminalStep> = Vec::new();
        let mut k: usize = 0;
        while k < self.terminal_path.len()
            invariant
                0 <= k <= self.terminal_path@.len(),
                terminal_path@ == self.terminal_path@.subrange(0, k as int),
            decreases self.terminal_path@.len() - k,
        {
            terminal_path.push(self.terminal_path[k]);
            k = k + 1;
            proof {
                assert(terminal_path@ =~= self.terminal_path@.subrange(0, k as int));
            }
        }
        proof {
            assert(source_path@ =~= self.source_path@);
            assert(terminal_path@ =~= self.terminal_path@);
        }
        PubkeyChain {
            master: match &self.master {
                Some(m) => Some(copy_bytes(m)),
                None => None,
            },
            source_path,
            branch_xpub: copy_bytes(&self.branch_xpub),
            terminal_path,
        }
    }
}


/// The BIP-32 origin of a key: the key, the fingerprint of the key it
/// descends from and the child numbers from there.
#[derive(Clone, Debug)]
pub struct Bip32Derivation {
    pub pubkey: Vec<u8>,
    pub fingerprint: Vec<u8>,
    pub path: Vec<u32>,
}

/// The fingerprint a chain's keys descend from: the master's where known,
/// otherwise the branch key's own.
pub open spec fn chain_fingerprint(c: PubkeyChain) -> Option<Seq<u8>> {
    match c.master {
        Some(m) => Some(m@),
        None => fingerprint_of(c.branch_xpub@),
    }
}

/// The full derivation path of a chain's key at an index: from the master
/// where it is known, otherwise from the branch key.
pub open spec fn chain_path(c: PubkeyChain, index: nat) -> Seq<u32> {
    (if c.master.is_some() {
        c.source_path@
    } else {
        Seq::empty()
    }) + path_at(c.terminal_path@, index)
}

/// `d` is the origin of chain `c`'s key at `index`.
pub open spec fn is_origin(d: Bip32Derivation, c: PubkeyChain, index: nat) -> bool {
    &&& chain_key(c, index) == Some(d.pubkey@)
    &&& chain_fingerprint(c) == Some(d.fingerprint@)
    &&& d.path@ == chain_path(c, index)
}

/// Whether the key and fingerprint of a chain can be had at an index.
pub open spec fn origin_known(c: PubkeyChain, index: nat) -> bool {
    chain_key(c, index).is_some() && chain_fingerprint(c).is_some()
}

impl PubkeyChain {
    /// The origin of the chain's key at a derivation index.
    pub fn bip32_derivation(&self, index: UnhardenedIndex) -> (r: Option<Bip32Derivation>)
        ensures
            r.is_some() == origin_known(*self, index@),
            r.is_some() ==> is_origin(r.unwrap(), *self, index@),
    {
        let pubkey = match self.derive_pubkey(index) {
            Some(k) => k,
            None => {
                return None;
            },
        };
        let fingerprint = match &self.master {
            Some(m) => copy_bytes(m),
            None => match xpub_fingerprint(&self.branch_xpub) {
                Some(f) => f,
                None => {
                    return None;
                },
            },
        };
        let i = index.index();
        let mut path: Vec<u32> = Vec::new();
        if self.master.is_some() {
            let mut k: usize = 0;
            while k < self.source_path.len()
                invariant
                    0 <= k <= self.source_path@.len(),
                    path@ == self.source_path@.subrange(0, k as int),
                decreases self.source_path@.len() - k,
            {
                path.push(self.source_path[k]);
                k = k + 1;
                proof {
                    assert(path@ =~= self.source_path@.subrange(0, k as int));
                }
            }
            proof {
                assert(path@ =~= self.source_path@);
            }
        }
        let ghost head = path@;
        let mut k: usize = 0;
        while k < self.terminal_path.len()
            invariant
                0 <= k <= self.terminal_path@.len(),
                i == index@,
                path@ == head + path_at(self.terminal_path@.subrange(0, k as int), index@),
            decreases self.terminal_path@.len() - k,
        {
            match self.terminal_path[k] {
                TerminalStep::Index(n) => path.push(n),
                TerminalStep::Wildcard => path.push(i),
            }
            k = k + 1;
            proof {
                assert(path@ =~= head + path_at(self.terminal_path@.subrange(0, k as int), index@));
            }
        }
        proof {
            assert(self.terminal_path@.subrange(0, k as int) =~= self.terminal_path@);
            if self.master.is_none() {
                assert(head =~= Seq::<u32>::empty());
            }
            assert(path@ =~= chain_path(*self, index@));
        }
        Some(Bip32Derivation { pubkey, fingerprint, path })
    }
}

impl Policy {
    /// The origins of all keys of the policy at a derivation index, in the
    /// order of the key chains; `None` where one cannot be had.
    pub fn bip32_derivations(&self, index: UnhardenedIndex) -> (r: Option<Vec<Bip32Derivation>>)
        ensures
            r.is_some() <==> forall|k: int|
                0 <= k < contract_chains(self.contract()).len() && self.is_onchain() ==> origin_known(
                    #[trigger] contract_chains(self.contract())[k],
                    index@,
                ),
            r.is_some() && self.is_onchain() ==> r.unwrap()@.len() == contract_chains(self.contract()).len(),
            r.is_some() && self.is_onchain() ==> forall|k: int|
                0 <= k < r.unwrap()@.len() ==> is_origin(
                    #[trigger] r.unwrap()@[k],
                    contract_chains(self.contract())[k],
                    index@,
                ),
            r.is_some() && !self.is_onchain() ==> r.unwrap()@.len() == 0,
    {
        let chains = self.pubkey_chains();
        let mut r: Vec<Bip32Derivation> = Vec::new();
        let mut k: usize = 0;
        while k < chains.len()
            invariant
                0 <= k <= chains@.len(),
                !self.is_onchain() ==> chains@.len() == 0,
                self.is_onchain() ==> chains@.len() == contract_chains(self.contract()).len(),
                self.is_onchain() ==> forall|j: int| 0 <= j < chains@.len() ==> (#[trigger] chains@[j]).same(contract_chains(self.contract())[j]),
                r@.len() == k,
                forall|j: int| 0 <= j < k ==> is_origin(#[trigger] r@[j], contract_chains(self.contract())[j], index@),
                forall|j: int| 0 <= j < k ==> origin_known(#[trigger] contract_chains(self.contract())[j], index@),
            decreases chains@.len() - k,
        {
            let ghost c = contract_chains(self.contract())[k as int];
            proof {
                assert(chains@[k as int].same(c));
                assert(chain_key(chains@[k as int], index@) == chain_key(c, index@));
                assert(chain_fingerprint(chains@[k as int]) == chain_fingerprint(c));
                assert(chain_path(chains@[k as int], index@) == chain_path(c, index@));
            }
            match chains[k].bip32_derivation(index) {
                Some(d) => {
                    r.push(d);
                },
                None => {
                    return None;
                },
            }
            k = k + 1;
        }
        Some(r)
    }
}

} // verus!
