use vstd::prelude::*;

verus! {

/// What a backend is, as the contracts see it: its address and its port.
pub struct BackendView {
    pub address: Seq<char>,
    pub port: u16,
}

/// One upstream server, identified by its address and its port.
pub struct BackendServer {
    address: String,
    port: u16,
}

impl View for BackendServer {
    type V = BackendView;

    closed spec fn view(&self) -> BackendView {
        BackendView { address: self.address@, port: self.port }
    }
}

impl BackendServer {
    pub fn new(address: String, port: u16) -> (r: BackendServer)
        ensures
            r@ == (BackendView { address: address@, port }),
    {
        BackendServer { address, port }
    }

    pub fn address(&self) -> (r: &str)
        ensures
            r@ == self@.address,
    {
        self.address.as_str()
    }

    pub fn port(&self) -> (r: u16)
        ensures
            r == self@.port,
    {
        self.port
    }
}

impl BackendServer {
    /// Whether the two backends have the same identity (address and port).
    pub fn same_identity(&self, other: &BackendServer) -> (r: bool)
        ensures
            r == (self@ == other@),
    {
        self.port == other.port && self.address == other.address
    }
}

impl Clone for BackendServer {
    fn clone(&self) -> (r: Self)
        ensures
            r@ == self@,
    {
        BackendServer { address: self.address.clone(), port: self.port }
    }
}

} // verus!
