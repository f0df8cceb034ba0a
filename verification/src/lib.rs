//! Verified core of a school visit desk: ticket numbering, the rows that a
//! ticket writes, request parameters, file listings and the indexing plan.
pub mod text;
pub mod number;
pub mod listing;
pub mod tickets;
pub mod index;
pub mod reindex;
