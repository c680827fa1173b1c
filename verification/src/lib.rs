//! Application of IPS-style binary patches.
//!
//! A patch is a byte stream: a five-byte magic tag, then a sequence of
//! records, each an offset followed by either literal chunk bytes or a
//! run-length-encoded fill, terminated by a three-byte end marker.
//! `record` decodes the stream into records, `mem` provides the scratch
//! arena that backs chunk payloads, and `apply` writes the records into a
//! destination byte buffer.

pub mod apply;
pub mod mem;
pub mod record;
