//! Core logic of a personal note-taking backend: chunked attachment
//! transfer against a content-addressed store, transactional linkage of
//! attachments to their owning entity, relational query construction for
//! filtered/sorted/paginated note listings, and the order-aligned merge
//! that distributes tags and files onto their owning notes.

pub mod aggregate;
pub mod auth;
pub mod content;
pub mod database;
pub mod errors;
pub mod listing;
pub mod models;
pub mod sql;
pub mod text;
pub mod transfer;
pub mod web;
