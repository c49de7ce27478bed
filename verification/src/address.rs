//! Trusted wrappers around the outside address codec.
//!
//! An address is the Base58Check rendering of a script-type payload whose
//! body is the 20-byte public-key hash.

use vstd::prelude::*;

verus! {

/// The address string that the codec renders for a 20-byte body.
pub uninterp spec fn addr_encode(body: Seq<u8>) -> Seq<char>;

/// The body bytes the codec recovers from an address string, if any.
pub uninterp spec fn addr_decode(s: Seq<char>) -> Option<Seq<u8>>;

/// Relies on `bitcoincash_addr::Address::encode` with the Base58 scheme and
/// Script hash type: infallible per its source, and a function of the body
/// alone. `Base58Codec::decode` inverts it: it recovers the 25-byte
/// Base58Check payload, checks version byte and checksum, and returns the
/// 20-byte body.
#[verifier::external_body]
pub fn encode_address(body: &Vec<u8>) -> (r: String)
    requires
        body@.len() == 20,
    ensures
        r@ == addr_encode(body@),
        addr_decode(r@) == Some(body@),
{
    let addr = bitcoincash_addr::Address {
        body: body.clone(),
        scheme: bitcoincash_addr::Scheme::Base58,
        hash_type: bitcoincash_addr::HashType::Script,
        network: bitcoincash_addr::Network::Main,
    };
    addr.encode().unwrap()
}

/// Relies on `bitcoincash_addr::Base58Codec::decode`: the outcome is a
/// function of the string alone, the returned bytes are the decoded payload
/// body, and no input makes it panic. (This library only ever renders
/// Base58 addresses, so the CashAddr branch of `Address::decode` is not
/// consulted; that branch can panic on crafted strings.)
#[verifier::external_body]
pub fn decode_address(s: &str) -> (r: Option<Vec<u8>>)
    ensures
        match addr_decode(s@) {
            Some(b) => r matches Some(v) && v@ == b,
            None => r is None,
        },
{
    <bitcoincash_addr::Base58Codec as bitcoincash_addr::AddressCodec>::decode(s)
        .ok()
        .map(|a| a.body)
}

} // verus!
