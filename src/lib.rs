//! A personal bookmark-and-note archive: links, notes, tags, their
//! associations and the relations between links, with the rules that keep
//! them consistent.
pub mod commands;
pub mod ids;
pub mod laws;
pub mod lifecycle;
pub mod links;
pub mod listing;
pub mod notes;
pub mod relations;
pub mod slug;
pub mod store;
pub mod tags;
pub mod text;
