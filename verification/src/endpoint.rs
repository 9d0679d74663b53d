//! The host and port that a service listens on or a client connects to.

use vstd::prelude::*;
use vstd::string::StringExecFns;

verus! {

/// The text of an address: the host, a colon, and the port.
pub open spec fn address_text(host: Seq<char>, port: Seq<char>) -> Seq<char> {
    host + seq![':'] + port
}

/// Joins a host and a port into an address.
fn join_address(host: &String, port: &String) -> (address: String)
    ensures
        address@ == address_text(host@, port@),
{
    proof {
        reveal_strlit(":");
    }
    let mut address = host.clone();
    address.append(":");
    address.append(port.as_str());
    assert(address@ =~= address_text(host@, port@)) by {
        assert(":"@ =~= seq![':']);
    }
    address
}

/// Where a service listens.
#[derive(Clone, Debug, PartialEq, Eq)]
pub struct ServiceTcpListener {
    pub host: String,
    pub port: String,
}

impl ServiceTcpListener {
    /// The address to bind: the host, a colon, and the port.
    pub fn address(&self) -> (address: String)
        ensures
            address@ == address_text(self.host@, self.port@),
    {
        join_address(&self.host, &self.port)
    }
}

/// Where a client connects.
#[derive(Clone, Debug, PartialEq, Eq)]
pub struct ServiceTcpStream {
    pub host: String,
    pub port: String,
}

impl ServiceTcpStream {
    /// The address to connect to: the host, a colon, and the port.
    pub fn address(&self) -> (address: String)
        ensures
            address@ == address_text(self.host@, self.port@),
    {
        join_address(&self.host, &self.port)
    }
}

} // verus!
