//! The wire protocol's identity. Frames negotiated under this name carry the
//! canonical message encoding of [`crate::codec`], length-prefixed by the
//! substrate.

use vstd::prelude::*;

verus! {

/// The protocol's name on the wire, offered during substrate negotiation.
#[derive(Clone)]
pub struct Name;

impl Name {
    /// The negotiated protocol identifier.
    pub fn protocol_name(&self) -> (r: &'static str)
        ensures
            r@ == "/ackintosh/pbft/1.0.0"@,
    {
        "/ackintosh/pbft/1.0.0"
    }
}

/// Configuration of the wire-protocol upgrade.
#[derive(Clone, Debug)]
pub struct PbftProtocolConfig;

impl PbftProtocolConfig {
    /// The single protocol this configuration offers.
    pub fn protocol_info(&self) -> (r: Name) {
        Name
    }
}

} // verus!
