//! Media types (RFC 7231 `type/subtype; name=value`) read by a verified
//! parser, the laws the parser keeps, and the properties it is checked
//! against, with the decisions of the runner that checks them.
//!
//! - `grammar`: character classes and scanners.
//! - `media_type`: the `MediaType` value, its model and its parser.
//! - `laws`: what every parse gives, and media type equality.
//! - `etna`: the properties, as functions of small pool indices.
//! - `runner`: replay of witnesses, folding of outcomes, the JSON report.
//! - `text`: string helpers.

pub mod grammar;
pub mod text;
pub mod media_type;
pub mod laws;
pub mod etna;
pub mod runner;

pub use media_type::{MediaType, ParseError};
