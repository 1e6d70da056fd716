//! Queries over a catalogue of mountains stored one attribute per row.
//!
//! The rows of a mountain are grouped by id and decoded into a `Mountain`
//! (`mountain_model`, `grouping`); search parameters are checked and turned into
//! conditions (`query_params`); the ids that every condition's lookups found are
//! intersected (`mountain_service`); the mountains are sorted and paged
//! (`ordering`, `mountain_service`). The store itself is reached by the caller,
//! through the commands of `repository`.

pub mod grouping;
pub mod mountain_model;
pub mod mountain_service;
pub mod ordering;
pub mod prefecture_model;
pub mod query_params;
pub mod repository;
pub mod routing;
pub mod tag_model;
pub mod text;
