//! Core of a multi-book documentation builder: parsing a book's summary
//! document into a chapter tree with section numbers, flattening that tree
//! into a navigation-ready page sequence, resolving output locations, and
//! writing ninja build files.

pub mod collect;
pub mod config;
pub mod drafts;
pub mod events;
pub mod ninja;
pub mod pagetoc;
pub mod paths;
pub mod summary;
pub mod text;
