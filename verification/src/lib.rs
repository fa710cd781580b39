//! Core engine of an embeddable in-process document database.
//!
//! A datastore keeps a primary map from keys to documents together with
//! secondary access paths derived from each document: a unique string
//! index, a tag inverted index, named materialised views, and a
//! full-text index over the document's searchable text.  Mutations can
//! be encoded as records for a paged write-ahead log, and a datastore
//! can be rebuilt from the log pages by replay.  A broadcast router
//! carries one event per successful mutation to every subscriber.

pub mod document;
pub mod table;
pub mod tokenize;
pub mod codec;
pub mod router;
pub mod wal;
pub mod storage;
