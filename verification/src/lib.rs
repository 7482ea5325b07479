//! A codec for a fixed-layout sectioned container.
//!
//! A container is a 4096-byte header, a table of up to 1024 section
//! descriptors, and the section payloads. `pack` builds a container from a
//! flat byte stream, storing each chunk raw or zlib-compressed; `unpack`
//! resolves the table and restores the stream.

pub mod buffer;
pub mod command;
pub mod descriptor;
pub mod endian;
pub mod error;
pub mod laws;
pub mod layout;
pub mod pack;
pub mod table;
pub mod unpack;
pub mod zlib;
