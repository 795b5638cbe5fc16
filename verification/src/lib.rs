//! Interactive paged selection over a list of version-controlled
//! repositories: fuzzy ranking of candidates against a typed query,
//! a key-event state machine for navigation and paging, and the
//! ordering rules of the repository index.

pub mod index;
pub mod rank;
pub mod repo;
pub mod select;
