//! Bookkeeping of an approximate nearest-neighbour vector index: documents,
//! the record store keyed by internal ids, dimension checks, id assignment,
//! replay of stored documents, and the ranking of the candidates that the
//! proximity graph returns.
pub mod catalog;
pub mod document;
pub mod ranking;
pub mod store;

pub use catalog::IndexCatalog;
pub use document::{Document, DocumentView, IndexError};
pub use store::RecordStore;
