//! Parsing, checking and reprinting zone-file style DNS record lines.
//!
//! - `text`: whitespace, tokens and decimal numbers over characters.
//! - `names`: label and name syntax, and qualification against an origin.
//! - `addr`, `addr_text`: IPv4 and IPv6 address text, read and written.
//! - `record`: records, parse errors, the zone context and its directives.
//! - `parse`: reading one record line.
//! - `zone`: checks across a whole zone.
//! - `render`: the consistent line layout, JSON, and messages.
//! - `lint`: reading a whole zone file.
//! - `roundtrip`, `laws`: what printing and reading again preserve.
//! - `zone_file_laws`: laws of names, directives and whole zone files.
//! - `json_read`: reading JSON back, and what a record's JSON reads as.
pub mod text;
pub mod names;
pub mod record;
pub mod addr;
pub mod parse;
pub mod zone;
pub mod addr_text;
pub mod render;
pub mod roundtrip;
pub mod laws;
pub mod lint;
pub mod zone_file_laws;
pub mod json_read;
