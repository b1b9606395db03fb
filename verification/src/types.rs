//! Configuration, directory entries, browser events and errors.

use vstd::prelude::*;
use vstd::string::*;

verus! {

/// Interval between node announces unless configured otherwise.
pub const DEFAULT_ANNOUNCE_INTERVAL_SECS: u64 = 600;

/// Largest number of nodes the directory keeps.
pub const MAX_DIRECTORY_ENTRIES: usize = 256;

/// The error that a node handle reports when its driver has shut down.
#[verifier::external_type_specification]
#[verifier::external_body]
pub struct ExSendError(rns_net::node::SendError);

/// Configuration for creating a [`NomadNode`](crate::node::NomadNode).
pub struct NodeConfig {
    pub identity_prv: [u8; 64],
    pub identity_pub: [u8; 32],
    pub node_name: String,
    pub announce_interval_secs: u64,
}

impl Default for NodeConfig {
    fn default() -> (c: Self)
        ensures
            c.identity_prv@ == Seq::new(64, |i: int| 0u8),
            c.identity_pub@ == Seq::new(32, |i: int| 0u8),
            c.node_name@ == "Unnamed Node"@,
            c.announce_interval_secs == DEFAULT_ANNOUNCE_INTERVAL_SECS,
    {
        let c = NodeConfig {
            identity_prv: [0u8; 64],
            identity_pub: [0u8; 32],
            node_name: String::from_str("Unnamed Node"),
            announce_interval_secs: DEFAULT_ANNOUNCE_INTERVAL_SECS,
        };
        assert(c.identity_prv@ =~= Seq::new(64, |i: int| 0u8));
        assert(c.identity_pub@ =~= Seq::new(32, |i: int| 0u8));
        c
    }
}

/// A discovered NomadNet node. `last_seen_bits` holds the bits
/// (`f64::to_bits`) of the time its latest announce was received.
#[derive(Debug)]
pub struct DirectoryEntry {
    pub dest_hash: [u8; 16],
    pub identity_hash: [u8; 16],
    pub node_name: Option<String>,
    pub hops: u8,
    pub last_seen_bits: u64,
}

/// Events emitted by the browser.
#[derive(Debug)]
pub enum BrowseEvent {
    PageReceived { dest_hash: [u8; 16], path: String, content: Vec<u8> },
    FileReceived { dest_hash: [u8; 16], path: String, content: Vec<u8> },
    LinkEstablished { dest_hash: [u8; 16], link_id: [u8; 16] },
    LinkFailed { dest_hash: [u8; 16], error: String },
    LinkClosed { dest_hash: [u8; 16], link_id: [u8; 16], reason: Option<String> },
}

/// Errors of node hosting and browsing.
#[derive(Debug)]
pub enum NomadError {
    SendFailed(rns_net::node::SendError),
    NoPath(String),
    IdentityNotFound(String),
    LinkFailed(String),
    RequestFailed(String),
    DestinationRegistrationFailed,
    IdentityKeyMismatch { expected_sig_pub_hex: String, provided_sig_pub_hex: String },
}

impl From<rns_net::node::SendError> for NomadError {
    fn from(e: rns_net::node::SendError) -> (r: Self) {
        NomadError::SendFailed(e)
    }
}

impl vstd::std_specs::convert::FromSpecImpl<rns_net::node::SendError> for NomadError {
    open spec fn obeys_from_spec() -> bool {
        true
    }

    open spec fn from_spec(v: rns_net::node::SendError) -> Self {
        NomadError::SendFailed(v)
    }
}

/// The human-readable message of an error.
pub open spec fn error_message(e: NomadError) -> Seq<char> {
    match e {
        NomadError::SendFailed(_) => "RNS send error"@,
        NomadError::NoPath(d) => "No path to destination "@ + d@,
        NomadError::IdentityNotFound(d) => "Identity not found for destination "@ + d@,
        NomadError::LinkFailed(d) => "Link creation failed for destination "@ + d@,
        NomadError::RequestFailed(p) => "Request failed for path "@ + p@,
        NomadError::DestinationRegistrationFailed => "Destination registration failed"@,
        NomadError::IdentityKeyMismatch { expected_sig_pub_hex, provided_sig_pub_hex } =>
            "Identity public key mismatch: expected "@ + expected_sig_pub_hex@ + ", got "@
                + provided_sig_pub_hex@,
    }
}

impl NomadError {
    /// The message that describes this error.
    pub fn message(&self) -> (m: String)
        ensures
            m@ == error_message(*self),
    {
        match self {
            NomadError::SendFailed(_) => String::from_str("RNS send error"),
            NomadError::NoPath(d) => {
                let mut m = String::from_str("No path to destination ");
                m.append(d.as_str());
                m
            },
            NomadError::IdentityNotFound(d) => {
                let mut m = String::from_str("Identity not found for destination ");
                m.append(d.as_str());
                m
            },
            NomadError::LinkFailed(d) => {
                let mut m = String::from_str("Link creation failed for destination ");
                m.append(d.as_str());
                m
            },
            NomadError::RequestFailed(p) => {
                let mut m = String::from_str("Request failed for path ");
                m.append(p.as_str());
                m
            },
            NomadError::DestinationRegistrationFailed => String::from_str(
                "Destination registration failed",
            ),
            NomadError::IdentityKeyMismatch { expected_sig_pub_hex, provided_sig_pub_hex } => {
                let mut m = String::from_str("Identity public key mismatch: expected ");
                m.append(expected_sig_pub_hex.as_str());
                m.append(", got ");
                m.append(provided_sig_pub_hex.as_str());
                m
            },
        }
    }
}

} // verus!
