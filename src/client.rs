use std::sync::Arc;
use vstd::prelude::*;
use crate::backend::{BackendServer, BackendView};

verus! {

/// A named client bound to one backend.
pub struct Client {
    name: String,
    backend: Arc<BackendServer>,
}

impl Client {
    pub closed spec fn name_view(&self) -> Seq<char> {
        self.name@
    }

    pub closed spec fn backend_view(&self) -> BackendView {
        self.backend@
    }

    pub fn new(name: &str, backend: Arc<BackendServer>) -> (r: Client)
        ensures
            r.name_view() == name@,
            r.backend_view() == backend@,
    {
        Client { name: name.to_owned(), backend }
    }

    pub fn get_name(&self) -> (r: &str)
        ensures
            r@ == self.name_view(),
    {
        self.name.as_str()
    }

    /// A shared handle on the client's backend.
    pub fn get_backend(&self) -> (r: Arc<BackendServer>)
        ensures
            r@ == self.backend_view(),
    {
        Arc::clone(&self.backend)
    }
}

} // verus!
