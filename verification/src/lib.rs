//! Multipart/form-data body assembly with verified framing and length
//! accounting.
//!
//! The crate turns an ordered tree of form fields and file attachments into
//! the exact RFC 2046 wire framing: a pre-computed total byte length together
//! with a single-pass sequence of body segments. File contents are never
//! buffered; a file enters the plan only as a reference carrying its path and
//! its measured length, so memory use stays independent of file sizes.

pub mod assemble;
pub mod boundary;
pub mod encode;
pub mod error;
pub mod form;
pub mod header;
pub mod helpers;
pub mod laws;
pub mod node;
pub mod stream;

pub use error::Error;
