//! A device's system-status and remote-configuration agent, its core: a
//! typed, section-keyed configuration store with a line-oriented text format,
//! the reversible codec that packs free text into the vendor schema's
//! restricted alphabet, and the semantic facade that reads and updates the
//! named configuration fields atomically. The host process around it does
//! the file, clock and network plumbing and hands plain text in and out.
pub mod codec;
pub mod ini;
pub mod lit;
pub mod rio_interface;
pub mod round_trip;
pub mod system;
pub mod text;
pub mod types;
