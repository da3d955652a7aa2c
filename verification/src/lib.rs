//! A schema-less tag-length-value codec: byte-buffer primitives for
//! fixed-width and variable-length integers, and a tagged message reader and
//! writer with nested messages built on them.

pub mod buffer_tools;
pub mod decimal;
pub mod key_order;
pub mod little_endian;
pub mod proto;
pub mod varint;
pub mod wire;
