//! Local-network discovery core: IPv4 range/CIDR expansion, MAC address
//! canonicalization, vendor (OUI) database lookups, TCP port-scan result
//! aggregation under a bounded-concurrency admission discipline, and
//! device-record deduplication.
//!
//! Every function here is verified; file and network I/O live in the
//! surrounding application layer, which hands plain values in and out.

use vstd::prelude::*;

pub mod device;
pub mod ip;
pub mod mac;
pub mod oui;
pub mod parse;
pub mod scan;
pub mod text;

verus! {

/// Failure taxonomy for the whole core. Anything not listed here is modeled
/// as absence (an empty or omitted result), not as a failure.
#[derive(Debug, Clone, PartialEq, Eq, Structural)]
pub enum NetError {
    /// Malformed CIDR/IP/range text.
    InvalidInput,
    /// End address numerically precedes the start address.
    InvalidRange,
    /// A registry or record file could not be read.
    IoError,
    /// File content is not valid text.
    EncodingError,
}

} // verus!
