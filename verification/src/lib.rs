//! Reverse DNS (PTR) lookups: building the query packet and decoding the
//! names found in a server's reply. Network I/O lives outside this crate.

pub mod error;
pub mod name;
pub mod packet;
pub mod text;
