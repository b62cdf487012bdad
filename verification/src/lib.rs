//! Core data and wire formats of a peer-to-peer file-sharing protocol:
//! the bencode serialization format, the metainfo document describing a
//! shared file set, the SHA-1 identity derived from it, the tracker
//! discovery request and response, and the 68-byte peer handshake.

use vstd::prelude::*;

pub mod bencode;
pub mod hashes;
pub mod peer;
pub mod torrent;
pub mod tracker;

verus! {

/// The error taxonomy of the whole crate.
///
/// `MalformedEncoding`: a bencode grammar violation (bad length,
/// unterminated integer, list or dictionary, truncated input).
/// `UnsupportedType`: empty input, or a leading byte that is none of the
/// four recognized tags.
/// `SchemaError`: well-formed bencode whose fields do not fit the
/// metainfo document layout (missing or mistyped keys, a piece-hash
/// string whose length is not a multiple of 20, invalid UTF-8).
/// `ProtocolMismatch`: a handshake whose tag length or tag is wrong.
#[derive(Clone, Copy, Debug, PartialEq, Eq, Structural)]
pub enum TorrentError {
    MalformedEncoding,
    UnsupportedType,
    SchemaError,
    ProtocolMismatch,
}

} // verus!
