use vstd::prelude::*;

verus! {

/// Errors surfaced by the protocol layer. Each variant carries a
/// human-readable message.
#[derive(Debug, Clone, PartialEq, Eq)]
pub enum VpnError {
    /// The gateway refused the credentials, or demanded a factor we cannot supply.
    AuthFailed(String),
    /// The peer sent bytes that violate the wire protocol.
    Protocol(String),
    /// The secure channel failed or the peer hung up.
    Tls(String),
}

impl VpnError {
    /// The message carried by the error, with its category prefix (the text a
    /// user sees).
    pub fn message(&self) -> (r: String)
        ensures
            r@ == self.spec_message(),
    {
        match self {
            VpnError::AuthFailed(m) => {
                let mut s = String::from_str("authentication failed: ");
                s.append(m.as_str());
                s
            },
            VpnError::Protocol(m) => {
                let mut s = String::from_str("protocol error: ");
                s.append(m.as_str());
                s
            },
            VpnError::Tls(m) => {
                let mut s = String::from_str("TLS error: ");
                s.append(m.as_str());
                s
            },
        }
    }

    pub open spec fn spec_message(&self) -> Seq<char> {
        match self {
            VpnError::AuthFailed(m) => "authentication failed: "@ + m@,
            VpnError::Protocol(m) => "protocol error: "@ + m@,
            VpnError::Tls(m) => "TLS error: "@ + m@,
        }
    }

    /// The bare message without its category prefix.
    pub open spec fn detail(&self) -> Seq<char> {
        match self {
            VpnError::AuthFailed(m) => m@,
            VpnError::Protocol(m) => m@,
            VpnError::Tls(m) => m@,
        }
    }
}

} // verus!
