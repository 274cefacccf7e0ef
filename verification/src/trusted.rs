//! Calls into the miniscript and bitcoin crates, behind trusted contracts.
//!
//! Each result here is a pure function of the call's arguments, so it is
//! given a name that the callers' contracts speak of exactly.

use vstd::prelude::*;

use crate::types::{Network, spec_net_tag};
use core::str::FromStr;
use miniscript::ForEachKey;

verus! {

/// The script pubkey a descriptor generates at a derivation index, if the
/// descriptor string is valid and the index is derivable (not hardened).
pub uninterp spec fn spk_of(descriptor: Seq<char>, index: u32) -> Option<Seq<u8>>;

/// The worst-case satisfaction weight, in weight units, of the script a
/// descriptor generates at a derivation index.
pub uninterp spec fn satisfaction_wu_of(descriptor: Seq<char>, index: u32) -> Option<u64>;

/// The address string that encodes a script pubkey on a network (as tagged
/// by [`spec_net_tag`]), if the script has an address form.
pub uninterp spec fn address_str_of(spk: Seq<u8>, net: u8) -> Option<Seq<char>>;

/// A descriptor that derivation cannot make definite: a key with a
/// hardened step or a hardened wildcard needs private key material, and a
/// multipath key stands for several paths at once. miniscript's
/// `at_derivation_index` does not return normally on all of these, so the
/// derivation wrappers reject them up front. Relies on miniscript's
/// `for_any_key` and `has_hardened_step`.
#[verifier::external_body]
fn underivable(descriptor: &str) -> (r: bool)
{
    match miniscript::Descriptor::<miniscript::DescriptorPublicKey>::from_str(descriptor) {
        Err(_) => true,
        Ok(d) => d.for_any_key(|k| match k {
            miniscript::DescriptorPublicKey::Single(_) => false,
            miniscript::DescriptorPublicKey::XPub(x) => k.has_hardened_step() || x.wildcard
                == miniscript::descriptor::Wildcard::Hardened,
            miniscript::DescriptorPublicKey::MultiXPub(_) => true,
        }),
    }
}

/// Relies on miniscript's `Descriptor::from_str`, `at_derivation_index`
/// and `script_pubkey`: parsing a descriptor and deriving the script at a
/// non-hardened index depends on the two arguments alone. Descriptors
/// whose keys carry hardened steps, hardened wildcards or multiple paths
/// cannot be derived and are rejected.
#[verifier::external_body]
pub(crate) fn derive_spk(descriptor: &str, index: u32) -> (r: Option<Vec<u8>>)
    ensures
        r is Some <==> spk_of(descriptor@, index) is Some,
        r is Some ==> r->Some_0@ == spk_of(descriptor@, index)->Some_0,
{
    if underivable(descriptor) {
        return None;
    }
    let desc = match miniscript::Descriptor::<miniscript::DescriptorPublicKey>::from_str(
        descriptor,
    ) {
        Ok(d) => d,
        Err(_) => return None,
    };
    match desc.at_derivation_index(index) {
        Ok(d) => Some(d.script_pubkey().into_bytes()),
        Err(_) => None,
    }
}

/// Relies on miniscript's `max_weight_to_satisfy`: the worst-case witness
/// and script-sig weight of the derived script depends on the descriptor
/// and index alone. Underivable keys are rejected as in [`derive_spk`].
#[verifier::external_body]
pub(crate) fn satisfaction_wu(descriptor: &str, index: u32) -> (r: Option<u64>)
    ensures
        r == satisfaction_wu_of(descriptor@, index),
{
    if underivable(descriptor) {
        return None;
    }
    let desc = match miniscript::Descriptor::<miniscript::DescriptorPublicKey>::from_str(
        descriptor,
    ) {
        Ok(d) => d,
        Err(_) => return None,
    };
    match desc.at_derivation_index(index) {
        Ok(d) => d.max_weight_to_satisfy().ok().map(|w| w.to_wu()),
        Err(_) => None,
    }
}

/// Relies on bitcoin's `Address::from_script` and its `Display`: encoding
/// a script pubkey as an address depends on the script and network alone.
#[verifier::external_body]
pub(crate) fn address_of_spk(spk: &Vec<u8>, network: Network) -> (r: Option<String>)
    ensures
        r is Some <==> address_str_of(spk@, spec_net_tag(network)) is Some,
        r is Some ==> r->Some_0@ == address_str_of(spk@, spec_net_tag(network))->Some_0,
{
    let script = bitcoin::ScriptBuf::from(spk.clone());
    let net = match network {
        Network::Bitcoin => bitcoin::Network::Bitcoin,
        Network::Testnet => bitcoin::Network::Testnet,
        Network::Signet => bitcoin::Network::Signet,
        Network::Regtest => bitcoin::Network::Regtest,
    };
    bitcoin::Address::from_script(&script, net).ok().map(|a| a.to_string())
}

} // verus!
