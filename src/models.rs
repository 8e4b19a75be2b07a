//! The records that the service keeps and the endpoint a probe runs against.
use vstd::prelude::*;

verus! {

#[derive(Debug)]
pub struct Isp {
    pub id: i64,
    pub name: String,
    pub ip: String,
}

#[derive(Debug)]
pub struct CreateIsp {
    pub name: String,
    pub ip: String,
}

#[derive(Debug)]
pub struct Website {
    pub id: i64,
    pub url: String,
    pub direct_connect: bool,
    pub direct_connect_url: Option<String>,
}

#[derive(Debug)]
pub struct CreateWebsite {
    pub url: String,
    pub direct_connect: bool,
    pub direct_connect_url: Option<String>,
}

/// The transport a probe uses.
#[derive(Debug, Clone, Copy, PartialEq, Eq, Structural)]
pub enum Protocol {
    Udp,
    Tcp,
    Http,
    Https,
}

/// An endpoint and the script that probes it.
#[derive(Debug)]
pub struct GameServer {
    pub id: i64,
    pub name: String,
    pub address: String,
    pub port: u16,
    pub protocol: Protocol,
    pub timeout_ms: u64,
    pub pseudo_code: String,
}

#[derive(Debug)]
pub struct CreateGameServer {
    pub name: String,
    pub address: String,
    pub port: u16,
    pub protocol: Protocol,
    pub timeout_ms: u64,
    pub pseudo_code: String,
}

/// The error of a probe: its kind (`SyntaxError`, `BuildError`,
/// `NetworkError`, `ParseError`, `ValidationError`, `ProtocolError`), a
/// message, and the line it concerns when there is one.
#[derive(Debug)]
pub struct GameServerError {
    pub error_type: String,
    pub message: String,
    pub line: Option<usize>,
}

} // verus!
