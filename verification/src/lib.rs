//! A creature pokedex: a binary record codec, a derived index over a loaded
//! collection, and a multi-criteria query engine driven by a filter state.

pub mod codec;
pub mod filter;
pub mod index;
pub mod record;
pub mod rowparse;
pub mod text;
