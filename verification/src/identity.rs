//! The identity of a node: its label and where it listens.

use crate::address::SocketAddr;
use vstd::prelude::*;

verus! {

/// A node's label bound to the address it listens on.
///
/// Two identities are the same node when their labels agree: `==` and the
/// hash go by the label alone, and the address is carried along.
#[derive(Clone, Copy, Debug)]
pub struct Identity {
    pub id: u16,
    pub address: SocketAddr,
}

impl Identity {
    /// Binds label `id` to `address`.
    pub fn new(id: u16, address: SocketAddr) -> (identity: Identity)
        ensures
            identity.id == id,
            identity.address == address,
    {
        Identity { id, address }
    }

    /// Where the node listens, as the protocol names it.
    pub open spec fn spec_endpoint(&self) -> crate::protocol::Identity {
        crate::protocol::Identity { ip: self.address.ip, port: self.address.port }
    }

    /// Where the node listens, as the protocol names it.
    #[verifier::when_used_as_spec(spec_endpoint)]
    pub fn endpoint(&self) -> (target: crate::protocol::Identity)
        ensures
            target == self.spec_endpoint(),
    {
        crate::protocol::Identity::new(self.address.ip, self.address.port)
    }
}

impl PartialEq for Identity {
    fn eq(&self, other: &Identity) -> (r: bool) {
        self.id == other.id
    }
}

impl Eq for Identity {

}

impl vstd::std_specs::cmp::PartialEqSpecImpl for Identity {
    open spec fn obeys_eq_spec() -> bool {
        true
    }

    open spec fn eq_spec(&self, other: &Identity) -> bool {
        self.id == other.id
    }
}

/// `Hash::hash` of `u16` feeds the number to the hasher. Nothing is claimed of
/// the hasher's state afterwards.
pub assume_specification<H: std::hash::Hasher>[ <u16 as std::hash::Hash>::hash::<H> ](
    value: &u16,
    state: &mut H,
);

impl std::hash::Hash for Identity {
    fn hash<H: std::hash::Hasher>(&self, state: &mut H) {
        self.id.hash(state)
    }
}

} // verus!
