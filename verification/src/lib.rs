//! Synthesis of distorted raster images of short character sequences,
//! for human-verification challenges: a mutable pixel canvas, a set of
//! image filters with a validate-then-apply contract, chains of filters
//! run atomically after whole-chain validation, a byte codec that
//! round-trips chain configurations, and glyph lookup for composing the
//! initial image.
pub mod codec;
pub mod filters;
pub mod fonts;
pub mod images;
pub mod raster;
mod rng;
