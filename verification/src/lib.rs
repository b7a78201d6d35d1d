//! Verified decoder for the BitMEX realtime market-data feed.
//!
//! The library classifies a raw textual payload into one of a fixed set of
//! message categories by peeking at a few fixed character windows, then
//! decodes it into a typed record. Both steps carry exact contracts: a
//! decode succeeds precisely on the canonical wire text of a well-formed
//! record, and the record's fields reproduce the payload's values.

pub mod decode;
pub mod handler;
pub mod model;
pub mod pieces;
pub mod scan;
pub mod wire;
