//! Template-driven decoder for a 16-bit CISC instruction stream.

pub mod template;
pub mod cursor;
pub mod decode;
pub mod encoding;
