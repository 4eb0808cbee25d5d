//! Verified core of a FortiGate SSL VPN client: the `0x5050` frame codec, the
//! PPP control-protocol codec and LCP/IPCP negotiation state machine, the HTTP
//! response parser and login classification, the tunnel-config XML scan, and
//! the command-line / profile parsing of the front end.
pub mod buffer;
pub mod cli;
pub mod error;
pub mod fortigate;
pub mod framer;
pub mod net;
pub mod pipe;
pub mod profiles;
pub mod text;
