//! The engine's error type.
use vstd::prelude::*;

verus! {

#[derive(Debug, Clone, PartialEq, Eq)]
pub enum EngineError {
    HtmlParse(String),
    CssParse(String),
    Network(String),
    SRI { expected: String, got: String },
    Security(String),
    Unsupported(String),
    Internal(String),
}

pub(crate) fn prefixed(prefix: &str, s: &String) -> (r: String)
    ensures
        r@ == prefix@ + s@,
{
    let mut m = String::from_str(prefix);
    m.append(s.as_str());
    m
}

impl EngineError {
    /// The error's description.
    pub fn message(&self) -> (r: String)
        ensures
            r@ == (match self {
                EngineError::HtmlParse(s) => "HTML parse error: "@ + s@,
                EngineError::CssParse(s) => "CSS parse error: "@ + s@,
                EngineError::Network(s) => "Network error: "@ + s@,
                EngineError::SRI { expected, got } => "SRI verification failed (expected "@ + expected@
                    + ", got "@ + got@ + ")"@,
                EngineError::Security(s) => "Security violation: "@ + s@,
                EngineError::Unsupported(s) => "Unsupported feature: "@ + s@,
                EngineError::Internal(s) => "Internal error: "@ + s@,
            }),
    {
        match self {
            EngineError::HtmlParse(s) => prefixed("HTML parse error: ", s),
            EngineError::CssParse(s) => prefixed("CSS parse error: ", s),
            EngineError::Network(s) => prefixed("Network error: ", s),
            EngineError::SRI { expected, got } => {
                let mut m = prefixed("SRI verification failed (expected ", expected);
                m.append(", got ");
                m.append(got.as_str());
                m.append(")");
                m
            },
            EngineError::Security(s) => prefixed("Security violation: ", s),
            EngineError::Unsupported(s) => prefixed("Unsupported feature: ", s),
            EngineError::Internal(s) => prefixed("Internal error: ", s),
        }
    }
}

} // verus!
