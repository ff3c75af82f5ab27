//! How each listener of a service is set up.
use crate::config::internal::{CertKeyPaths, ListenerConfig, ListenerKind};
use crate::text;
use vstd::prelude::*;

verus! {

/// What a listener is set up as.
#[derive(Debug, PartialEq)]
pub enum Setup {
    /// Plain TCP.
    Tcp { addr: String },
    /// TLS with one certificate, which is known up front.
    FixedTls { addr: String, cert: CertKeyPaths, offer_h2: bool },
    /// TLS with a certificate that is chosen during the handshake, so that the
    /// listener can start before any certificate exists. A client whose name
    /// matches no managed domain gets the fallback, if there is one.
    ManagedTls { addr: String, fallback: Option<CertKeyPaths>, offer_h2: bool },
    /// A Unix domain socket.
    Uds { path: String },
}

/// Why a listener cannot be set up.
#[derive(Debug, PartialEq)]
pub enum SetupError {
    /// A TLS listener at this address has neither a certificate nor managed
    /// domains.
    NoCertificate(String),
    /// HTTP/2 is offered at this address, which requires TLS.
    H2WithoutTls(String),
}

impl SetupError {
    /// The error in words.
    pub open spec fn words(self) -> Seq<char> {
        match self {
            SetupError::NoCertificate(_) => "a TLS listener has a certificate or ACME domains"@,
            SetupError::H2WithoutTls(addr) => "Unsupported configuration: \""@ + addr@
                + "\" configured without TLS, but H2 enabled which requires TLS"@,
        }
    }

    /// The error in words.
    pub fn to_text(&self) -> (r: String)
        ensures
            r@ == self.words(),
    {
        match self {
            SetupError::NoCertificate(_) => "a TLS listener has a certificate or ACME domains".to_owned(),
            SetupError::H2WithoutTls(addr) => text::concat3(
                "Unsupported configuration: \"",
                addr.as_str(),
                "\" configured without TLS, but H2 enabled which requires TLS",
            ),
        }
    }
}

/// What one listener is set up as, or why it cannot be.
pub open spec fn setup_of(source: ListenerKind) -> Result<Setup, SetupError> {
    match source {
        ListenerKind::Tcp { addr, tls: Some(tls), offer_h2 } => if tls.acme_domains@.len() > 0 {
            Ok(Setup::ManagedTls { addr, fallback: tls.cert, offer_h2 })
        } else {
            match tls.cert {
                Some(cert) => Ok(Setup::FixedTls { addr, cert, offer_h2 }),
                None => Err(SetupError::NoCertificate(addr)),
            }
        },
        ListenerKind::Tcp { addr, tls: None, offer_h2 } => if offer_h2 {
            Err(SetupError::H2WithoutTls(addr))
        } else {
            Ok(Setup::Tcp { addr })
        },
        ListenerKind::Uds(path) => Ok(Setup::Uds { path }),
    }
}

fn set_up(source: ListenerKind) -> (r: Result<Setup, SetupError>)
    ensures
        r == setup_of(source),
{
    match source {
        ListenerKind::Tcp { addr, tls: Some(tls), offer_h2 } => if tls.acme_domains.len() > 0 {
            Ok(Setup::ManagedTls { addr, fallback: tls.cert, offer_h2 })
        } else {
            match tls.cert {
                Some(cert) => Ok(Setup::FixedTls { addr, cert, offer_h2 }),
                None => Err(SetupError::NoCertificate(addr)),
            }
        },
        ListenerKind::Tcp { addr, tls: None, offer_h2 } => if offer_h2 {
            Err(SetupError::H2WithoutTls(addr))
        } else {
            Ok(Setup::Tcp { addr })
        },
        ListenerKind::Uds(path) => Ok(Setup::Uds { path }),
    }
}

/// What the listeners of a service are set up as, in order. The first that cannot
/// be set up is the one that is told of.
pub fn populate_listners(listeners: Vec<ListenerConfig>) -> (r: Result<Vec<Setup>, SetupError>)
    ensures
        match r {
            Ok(setups) => setups@.len() == listeners@.len() && forall|i: int|
                0 <= i < listeners@.len() ==> setup_of((#[trigger] listeners@[i]).source)
                    == Ok::<Setup, SetupError>(setups@[i]),
            Err(e) => exists|i: int|
                0 <= i < listeners@.len() && setup_of((#[trigger] listeners@[i]).source)
                    == Err::<Setup, SetupError>(e) && forall|k: int|
                    0 <= k < i ==> setup_of((#[trigger] listeners@[k]).source) is Ok,
        },
{
    let mut rest = listeners;
    let mut out: Vec<Setup> = Vec::new();
    while rest.len() > 0
        invariant
            out@.len() + rest@.len() == listeners@.len(),
            rest@ == listeners@.skip(out@.len() as int),
            forall|i: int|
                0 <= i < out@.len() ==> setup_of((#[trigger] listeners@[i]).source) == Ok::<
                    Setup,
                    SetupError,
                >(out@[i]),
        decreases rest@.len(),
    {
        let ghost at = out@.len() as int;
        let listener = rest.remove(0);
        assert(listener == listeners@[at]);
        match set_up(listener.source) {
            Ok(setup) => out.push(setup),
            Err(e) => return Err(e),
        }
    }
    Ok(out)
}

/// A listener has the certificate that its address is given. With managed domains the
/// certificate is chosen for each client, and one that is given is what there is to fall
/// back on. A listener that should have a certificate and has none, and one that offers
/// HTTP/2 without TLS, cannot be set up, and no other.
pub proof fn a_listener_is_set_up_as_it_is_configured(source: ListenerKind)
    ensures
        setup_of(source) is Err <==> (source matches ListenerKind::Tcp { tls, offer_h2, .. } && (
        match tls {
            Some(t) => t.cert is None && t.acme_domains@.len() == 0,
            None => offer_h2,
        })),
        setup_of(source) matches Ok(setup) ==> match setup {
            Setup::Uds { path } => source matches ListenerKind::Uds(p) && p@ == path@,
            Setup::Tcp { addr } => source matches ListenerKind::Tcp { addr: a, tls, .. } && a@
                == addr@ && tls is None,
            Setup::FixedTls { addr, cert, offer_h2 } => source matches ListenerKind::Tcp {
                addr: a,
                tls: Some(t),
                offer_h2: h,
            } && a@ == addr@ && offer_h2 == h && t.cert == Some(cert) && t.acme_domains@.len() == 0,
            Setup::ManagedTls { addr, fallback, offer_h2 } => source matches ListenerKind::Tcp {
                addr: a,
                tls: Some(t),
                offer_h2: h,
            } && a@ == addr@ && offer_h2 == h && t.cert == fallback && t.acme_domains@.len() > 0,
        },
        setup_of(source) matches Err(e) ==> match e {
            SetupError::NoCertificate(at) => source matches ListenerKind::Tcp { addr, tls, .. }
                && at@ == addr@ && tls is Some,
            SetupError::H2WithoutTls(at) => source matches ListenerKind::Tcp { addr, tls, .. } && at@
                == addr@ && tls is None,
        },
{
}

} // verus!
