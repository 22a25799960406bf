//! An on-ledger accounting and content-addressing engine for a pixel-art
//! token economy.  Participants mine fungible "color" units, assemble them
//! into immutable content-hash-addressed images ("glyphs"), transfer them,
//! and scrape a glyph back into spendable color units in bounded batches.
//!
//! All persistent records live in a key-addressed [`types::Store`] that the
//! host passes to every operation; the host performs authentication, fee
//! collection and event emission around these calls.

pub mod types;
pub mod balances;
pub mod comp;
pub mod store;
pub mod encode;
pub mod hashing;
pub mod colors;
pub mod glyphs;
pub mod laws;
