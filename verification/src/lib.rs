//! A verified codec for DNS wire messages.
//!
//! The crate encodes a query (header plus a single question) into the wire
//! format and decodes an arbitrary response buffer into a structured packet,
//! including the name-compression scheme in which a 14-bit pointer stands for
//! a name decoded earlier in the same message.
//!
//! Domain names are carried as byte strings in dotted form (for example
//! `www.example.com`); labels are validated as UTF-8 text during decode.
//! Transport (sockets, retries) is out of scope: the codec receives a byte
//! buffer and returns a structured message, or receives a domain name and
//! returns the bytes to send.

pub mod bytes;
pub mod error;
pub mod message;
pub mod name;
pub mod query;
