//! A minimal version-control core: a content-addressed object store, a
//! staging index, named references, a commit engine and a linear rebase
//! engine, all held in memory behind an explicit repository handle.

pub mod bytes;
pub mod digest;
pub mod encode;
pub mod error;
pub mod history;
pub mod index;
pub mod object;
pub mod rebase;
pub mod refs;
pub mod repo;
pub mod store;
