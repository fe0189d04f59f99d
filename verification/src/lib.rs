//! A verified decoder for the Bitcoin transaction wire format.
//!
//! The crate turns a raw byte stream into a typed transaction tree:
//! version, a VarInt-counted list of inputs, a VarInt-counted list of
//! outputs, and a lock time.  Every decoder is specified against a
//! mathematical model of the wire format and proved to follow it, to
//! reject oversized length and count claims before allocating, and to
//! fail cleanly (never panic, never return a partial value) on
//! truncated or corrupt input.

pub mod source;
pub mod varint;
pub mod script;
pub mod tx;
