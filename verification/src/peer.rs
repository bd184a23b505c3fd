//! A peer's registration record.

use vstd::prelude::*;

verus! {

/// Identity and location of a peer: a 128-bit unique id, a display name,
/// and a `host:port` endpoint.  Immutable once registered.
#[derive(Debug, Clone)]
pub struct Peer {
    pub id: u128,
    pub name: String,
    pub address: String,
}

impl Peer {
    pub fn new(id: u128, name: String, address: String) -> (p: Peer)
        ensures
            p.id == id,
            p.name@ == name@,
            p.address@ == address@,
    {
        Peer { id, name, address }
    }

    /// Syntactic check of the endpoint: a nonempty host, a colon, and a
    /// decimal port of at most 65535.  A registration with an endpoint
    /// failing this check must be refused before any state changes;
    /// whether the host actually resolves stays with the embedding.
    pub fn has_valid_address(&self) -> (r: bool)
        ensures
            r == crate::wire::spec_valid_endpoint(vstd::utf8::encode_utf8(self.address@)),
    {
        crate::wire::valid_endpoint(self.address.as_str().as_bytes())
    }
}

} // verus!
