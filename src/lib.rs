//! Reading the asset cache of a game client: the legacy dat/idx format and
//! the per-index jcache databases behind one index interface, the metadata of
//! each index, archive splitting, and the map catalog and map squares on top.
//!
//! The library works on bytes that its caller has read; it does no I/O.

pub mod arc;
pub mod buf;
pub mod dat;
pub mod decoder;
pub mod error;
pub mod hash;
pub mod index;
pub mod mapsquares;
pub mod meta;
pub mod paramtable;
pub mod sqlite;
pub mod underlays;
