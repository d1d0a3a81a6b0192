//! A batch pipeline over hourly log archives: locate the archives of a
//! requested hour range, decode each retrieved payload, scan the persisted
//! bytes for matching lines, and merge everything into one globally ordered
//! output keyed by each line's leading id field.

pub mod fetch;
pub mod filter;
pub mod lines;
pub mod locate;
pub mod merge;
pub mod orchestrate;
pub mod order;
