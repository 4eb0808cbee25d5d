pub mod auth;
pub mod config;
pub mod framing;
pub mod http;
pub mod negotiate;
pub mod ppp;
pub mod portal;
pub mod session;
