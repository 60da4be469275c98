//! An embedded record store. Every collection has an append-only log of
//! length-prefixed frames and an offset index from record identifiers to the
//! places of their frames; a database holds one collection for every key.
//!
//! The executable types are `Db`, `Table` and `OffsetIndex`. What they do is
//! stated over the model in `model`, and what holds of all runs is proved
//! in `laws`.

pub mod db;
pub mod errors;
pub mod frame;
pub mod ident;
pub mod index;
pub mod laws;
pub mod lemmas;
pub mod model;
pub mod naming;
pub mod table;

pub use db::Db;
pub use errors::Errors;
pub use index::OffsetIndex;
pub use model::IndexEntry;
pub use table::Table;
