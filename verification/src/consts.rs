//! Wire-level constants shared by both peers of the synchronization
//! protocol: frame sizing, request tags, and the reserved marker bytes.
use vstd::prelude::*;

verus! {

/// Size of one read/write buffer on the RPC channel.
pub const KIB64: usize = 65536;

/// Maximum number of bytes carried by a single frame.
pub const BLEN: usize = 65528;

/// Width in bytes of the fixed `read_count` counter in a frame header.
pub const NUM_READS_LEN: usize = 4;

/// The single reserved acknowledgment byte a receiver sends after
/// consuming one frame. Any other value or length is a protocol violation.
pub const ACK: u8 = 1;

/// Distinguished empty-payload marker byte: a one-byte response carrying
/// it signals "no data" without entering the chunked path.
pub const NONE_MARKER: u8 = 49;

/// Separator between metadata fields in the first frame of a message.
pub const FIELD_SEP: u8 = 58;

/// Terminator after the metadata fields, and separator between catalog
/// entries in a catalog response.
pub const NAME_SEP: u8 = 59;

/// Request tag: list the vault's top-level document names.
pub const GET_BOOKNAMES: u8 = 48;

/// Request tag: fetch one document by name.
pub const VAR_GET_BOOK: u8 = 50;

/// Request tag: push one state file (or directory) to the vault.
pub const VAR_SEND_SFILE: u8 = 51;

/// Request tag: fetch the vault's whole state-file tree.
pub const GET_SFILES: u8 = 52;

/// Local-notification kind: the reader signals that a document was opened.
/// This tag never crosses the RPC channel; it arrives on the local socket
/// as the two bytes following the 4-byte length prefix.
pub const ZBOOK_READ_NOTIFY: u8 = 54;

/// Second byte of the two-byte notification kind: a fixed pad, so the
/// kind always occupies the same width.
pub const NOTIFY_PAD: u8 = 0;

} // verus!
