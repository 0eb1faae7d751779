//! An interactive number-base converter library.
//!
//! The crate has two parts: a numeral codec ([`base::Base`]) that parses a
//! textual numeral in hexadecimal, decimal or binary into a `u64` and formats
//! a `u64` back into text, and a session ([`session::App`]) that holds the
//! currently selected input and output bases and interprets `:`-prefixed
//! commands that change them.

pub mod chars;
pub mod base;
pub mod session;

pub use base::Base;
pub use base::ParseError;
pub use session::App;
pub use session::CmdError;
pub use session::START_CMD;
