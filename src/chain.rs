use vstd::prelude::*;

verus! {

/// The chain a contract lives on.
#[derive(Clone, Copy, Debug, PartialEq, Eq, Structural)]
pub enum Chain {
    Mainnet,
    Testnet3,
    Regtest,
    Signet,
    LiquidV1,
}

/// The network magic of a chain that has bitcoin addresses.
pub open spec fn magic_of(chain: Chain) -> Option<u32> {
    match chain {
        Chain::Mainnet => Some(0xD9B4BEF9u32),
        Chain::Testnet3 => Some(0x0709110Bu32),
        Chain::Signet => Some(0x40CF030Au32),
        Chain::Regtest => Some(0xDAB5BFFAu32),
        Chain::LiquidV1 => None,
    }
}

impl Chain {
    /// The network magic of the chain, or `None` for a chain without
    /// bitcoin addresses.
    pub fn network_magic(&self) -> (r: Option<u32>)
        ensures
            r == magic_of(*self),
    {
        match self {
            Chain::Mainnet => Some(0xD9B4BEF9u32),
            Chain::Testnet3 => Some(0x0709110Bu32),
            Chain::Signet => Some(0x40CF030Au32),
            Chain::Regtest => Some(0xDAB5BFFAu32),
            Chain::LiquidV1 => None,
        }
    }
}

/// The address that `bitcoin::Address::from_script` gives for a script on
/// the network with the given magic, as a string.
pub uninterp spec fn address_of_script(script: Seq<u8>, magic: u32) -> Option<Seq<char>>;

/// Relies on `bitcoin::Network::from_magic` and
/// `bitcoin::Address::from_script`: the address of a standard output script,
/// `None` for a non-standard script or an unknown magic.
#[verifier::external_body]
pub(crate) fn script_address(script: &Vec<u8>, magic: u32) -> (r: Option<String>)
    ensures
        r.is_some() == address_of_script(script@, magic).is_some(),
        r.is_some() ==> r.unwrap()@ == address_of_script(script@, magic).unwrap(),
{
    let network = bitcoin::Network::from_magic(magic)?;
    let script = bitcoin::Script::from(script.clone());
    bitcoin::Address::from_script(&script, network).map(|a| a.to_string())
}

/// The address of an output script on a chain, where it has one.
pub open spec fn chain_address(script: Seq<u8>, chain: Chain) -> Option<Seq<char>> {
    match magic_of(chain) {
        Some(magic) => address_of_script(script, magic),
        None => None,
    }
}

/// The address of an output script on a chain, where the chain has
/// addresses and the script is a standard one.
pub fn address_on_chain(script: &Vec<u8>, chain: &Chain) -> (r: Option<String>)
    ensures
        r.is_some() == chain_address(script@, *chain).is_some(),
        r.is_some() ==> r.unwrap()@ == chain_address(script@, *chain).unwrap(),
{
    match chain.network_magic() {
        Some(magic) => script_address(script, magic),
        None => None,
    }
}

} // verus!
