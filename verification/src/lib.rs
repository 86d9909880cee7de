//! A codec for DNS messages and the decisions of a forwarding resolver.
//!
//! Every function states over sequences of bytes what it reads or writes, and
//! what ties reading to writing is proved beside it.

pub mod error;
pub mod forward;
pub mod header;
pub mod packet;
pub mod qname;
pub mod question;
pub mod rrecord;
pub mod wire;

pub use crate::error::CodecError;
pub use crate::header::Header;
pub use crate::packet::Packet;
pub use crate::qname::Qname;
pub use crate::question::Question;
pub use crate::rrecord::{RData, RRecord};
