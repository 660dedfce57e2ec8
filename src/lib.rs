//! Byte-buffer and text helpers behind a small C-callable string bridge: counting the Unicode
//! scalar values of UTF-8 text, building the lines that the bridge prints, and the static
//! greeting that it hands out.

pub mod greeting;
pub mod line;
pub mod runes;
