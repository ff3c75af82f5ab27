//! Choosing a certificate during the TLS handshake.
use crate::tls::store::{self, CertStore, Certificate};
use std::sync::Arc;
use vstd::prelude::*;

verus! {

/// Serves certificates out of a [`CertStore`], picked by the name that the
/// client asks for.
pub struct CertResolver {
    pub store: CertStore,
}

impl CertResolver {
    pub fn new(store: CertStore) -> (r: Self)
        ensures
            r.store == store,
    {
        CertResolver { store }
    }

    /// The certificate to install for the name that a client asked for. There is
    /// none where the client asked for no name, or for one that is not known:
    /// the listener's own certificate is used then, if it has one.
    pub fn certificate_for(&self, sni: Option<&str>) -> (r: Option<Arc<Certificate>>)
        requires
            self.store.wf(),
        ensures
            match sni {
                Some(name) => r == store::lookup(
                    self.store.exact(),
                    self.store.wildcard(),
                    store::canonical_name(name@),
                ),
                None => r is None,
            },
    {
        match sni {
            Some(name) => self.store.get(name),
            None => None,
        }
    }
}

} // verus!
