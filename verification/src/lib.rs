//! A verified codec for mDNS/DNS messages.
//!
//! The crate decodes and encodes DNS messages to and from their wire byte
//! representation: the fixed header, compressed domain names, query records,
//! resource records, and the bit-field packing primitives underneath them.
//! Decoding is proved to match a specification-level parser, to terminate on
//! adversarial pointer chains, and never to panic; encoding is proved to
//! produce exactly the specified byte layout.

pub mod bits;
pub mod cursor;
pub mod error;
pub mod fqdn;
pub mod header;
pub mod pack;
pub mod packet;
pub mod query;
pub mod resolve;
pub mod resource_record;
pub mod response;
pub mod rtype;
pub mod utf8check;
pub mod util;
