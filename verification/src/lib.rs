//! Width-aware wrapping and truncation of text that may contain ANSI SGR
//! (color/style) escape sequences.
//!
//! The crate measures text by terminal display width, wraps or cuts it into
//! lines of a bounded visible width, keeps recognized SGR sequences intact,
//! carries the active style onto continuation lines, and closes it at every
//! line boundary.

pub mod laws;
pub mod scan;
pub mod width;
pub mod wrap;

pub use width::measure;
pub use wrap::wrap;
