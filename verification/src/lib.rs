//! Immutable, structurally-shared ordered collections: a random-access
//! sequence (`Vector`), a sorted key-value map (`OrdMap`), and a sorted set
//! layered on the map (`OrdSet`). Mutation produces a new logical value while
//! preserving the old one; unmodified nodes are shared between versions
//! through reference-counted, copy-on-write cells.

pub mod cell;
pub mod chunk;
pub mod config;
pub mod errors;
pub mod ordmap;
pub mod ordset;
pub mod vector;

pub use cell::OwnershipCell;
pub use chunk::Chunk;
pub use config::CHUNK_SIZE;
pub use errors::Error;
pub use ordmap::Entry;
pub use ordmap::OrdMap;
pub use ordset::OrdSet;
pub use vector::Vector;
