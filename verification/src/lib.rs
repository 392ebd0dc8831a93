//! Certification Authority Authorization (CAA) resource record data.
//!
//! A CAA record lets the holder of a DNS name say which certification
//! authorities may issue certificates for it. This crate holds the record
//! type, its binary wire form, and the text forms of the `issue`,
//! `issuewild` and `iodef` property values, each with its contract.

pub mod error;
pub mod text;
pub mod name;
pub mod issuer;
pub mod iodef;
pub mod caa;
pub mod wire;
pub mod present;

pub use error::CaaError;
pub use caa::{CAA, IssueProperty};
pub use iodef::{Url, read_iodef};
pub use issuer::{KeyValue, encode_issuer_value, read_issuer};
pub use name::Name;
pub use wire::{emit_tag, read_tag};
