//! Core of an embedded key-value store: an insert-only ordered skiplist whose
//! nodes and payload bytes live in an append-only arena.

pub mod byte;
pub mod error;
pub mod slice;
pub mod comparator;
pub mod arena;
pub mod skiplist;
pub mod varint;
pub mod config;
pub mod db;
