//! Network access: an in-memory loader with integrity checks, and an HTTP
//! client that is switched off.
use vstd::prelude::*;
use crate::hb_core::net_types::{
    MemoryLoader as ResourceStore, ParsedUrl, SRI, SriAlg, VerifiedBytes, integrity_text, sri_text,
    opt_sri,
};

verus! {

#[derive(Debug, Clone, PartialEq, Eq)]
pub enum NetError {
    Offline,
    NotFound(String),
    SRI { expected: String, got: String },
    Url(String),
    Internal(String),
}

impl NetError {
    /// The error's description.
    pub fn message(&self) -> (r: String)
        ensures
            r@ == (match self {
                NetError::Offline => "network disabled/offline"@,
                NetError::NotFound(s) => "not found: "@ + s@,
                NetError::SRI { expected, got } => "sri mismatch (expected "@ + expected@ + ", got "@
                    + got@ + ")"@,
                NetError::Url(s) => "invalid url: "@ + s@,
                NetError::Internal(s) => "internal: "@ + s@,
            }),
    {
        match self {
            NetError::Offline => String::from_str("network disabled/offline"),
            NetError::NotFound(s) => {
                let mut m = String::from_str("not found: ");
                m.append(s.as_str());
                m
            },
            NetError::SRI { expected, got } => {
                let mut m = String::from_str("sri mismatch (expected ");
                m.append(expected.as_str());
                m.append(", got ");
                m.append(got.as_str());
                m.append(")");
                m
            },
            NetError::Url(s) => {
                let mut m = String::from_str("invalid url: ");
                m.append(s.as_str());
                m
            },
            NetError::Internal(s) => {
                let mut m = String::from_str("internal: ");
                m.append(s.as_str());
                m
            },
        }
    }
}

pub trait Loader {
    fn get(&self, url: &ParsedUrl, sri: Option<&SRI>) -> Result<VerifiedBytes, NetError>;
}

/// Resources held in memory, by URL.
pub struct MemoryLoader {
    store: ResourceStore,
}

/// What loading `url` from a store holding `res` gives: a missing resource
/// is `NotFound` with the URL; a present one is returned when no integrity is
/// asked or when it checks, else it is an integrity error.
pub open spec fn get_outcome(
    res: Map<Seq<char>, Seq<u8>>,
    url: Seq<char>,
    sri: Option<SRI>,
    r: Result<VerifiedBytes, NetError>,
) -> bool {
    if !res.contains_key(url) {
        r matches Err(NetError::NotFound(m)) && m@ == url
    } else {
        match sri {
            None => r matches Ok(b) && b.0@ == res[url],
            Some(s) => if sri_text(s.alg, res[url]) == s.b64@ {
                r matches Ok(b) && b.0@ == res[url]
            } else {
                r matches Err(NetError::SRI { expected, got }) && expected@ == s.b64@ && got@
                    == sri_text(s.alg, res[url])
            },
        }
    }
}

impl MemoryLoader {
    pub closed spec fn resources(self) -> Map<Seq<char>, Seq<u8>> {
        self.store.resources()
    }

    pub fn new() -> (r: Self)
        ensures
            r.resources() == Map::<Seq<char>, Seq<u8>>::empty(),
    {
        MemoryLoader { store: ResourceStore::new() }
    }

    /// Stores `bytes` as the resource at `url`, replacing any earlier one.
    pub fn insert(&mut self, url: &str, bytes: Vec<u8>)
        ensures
            final(self).resources() == old(self).resources().insert(url@, bytes@),
    {
        self.store.insert(url, bytes);
    }

    /// Checks `bytes` against the expected integrity.
    fn verify_sri(bytes: &[u8], sri: &SRI) -> (r: Result<(), NetError>)
        ensures
            if sri_text(sri.alg, bytes@) == sri.b64@ {
                r is Ok
            } else {
                r matches Err(NetError::SRI { expected, got }) && expected@ == sri.b64@ && got@
                    == sri_text(sri.alg, bytes@)
            },
    {
        let got = integrity_text(sri.alg, bytes);
        if got == sri.b64 {
            Ok(())
        } else {
            Err(NetError::SRI { expected: sri.b64.clone(), got })
        }
    }
}

impl Loader for MemoryLoader {
    fn get(&self, url: &ParsedUrl, sri: Option<&SRI>) -> (r: Result<VerifiedBytes, NetError>)
        ensures
            get_outcome(self.resources(), url.href@, opt_sri(sri), r),
    {
        match self.store.lookup(url.href.as_str()) {
            None => Err(NetError::NotFound(url.href.clone())),
            Some(bytes) => {
                match sri {
                    Some(s) => {
                        match MemoryLoader::verify_sri(bytes.as_slice(), s) {
                            Ok(()) => Ok(VerifiedBytes(bytes)),
                            Err(e) => Err(e),
                        }
                    },
                    None => Ok(VerifiedBytes(bytes)),
                }
            },
        }
    }
}

/// An HTTP client; this build has the network switched off.
pub struct HttpClient {
    _allowed: bool,
}

impl HttpClient {
    pub fn disabled() -> (r: Self)
        ensures
            !r.allowed(),
    {
        HttpClient { _allowed: false }
    }

    pub closed spec fn allowed(self) -> bool {
        self._allowed
    }
}

impl Loader for HttpClient {
    fn get(&self, url: &ParsedUrl, sri: Option<&SRI>) -> (r: Result<VerifiedBytes, NetError>)
        ensures
            r == Err::<VerifiedBytes, NetError>(NetError::Offline),
    {
        Err(NetError::Offline)
    }
}

} // verus!
