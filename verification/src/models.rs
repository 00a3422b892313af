//! The values the service exchanges with its callers: notes with their
//! attached tags and files, and the small row wrappers the relational
//! queries project into.

use vstd::prelude::*;

verus! {

/// A tag; `note_id` carries the owning note when the row was fetched
/// through the note-tag join, and nothing otherwise.
#[derive(Clone, Debug)]
pub struct Tag {
    pub id: i32,
    pub user_id: i32,
    pub name: String,
    pub created: i64,
    pub note_id: Option<i32>,
}

/// A file attachment's metadata; `attach_id` carries the owning entity
/// when the row was fetched through a join, and nothing otherwise.
#[derive(Clone, Debug)]
pub struct FileMeta {
    pub id: i32,
    pub user_id: i32,
    pub hash: String,
    pub name: String,
    pub size: i64,
    pub created: i64,
    pub attach_id: Option<i32>,
}

/// A note, together with the tags and files attached to it.
#[derive(Clone, Debug)]
pub struct Note {
    pub id: i32,
    pub user_id: i32,
    pub title: String,
    pub text: String,
    pub created: i64,
    pub last_edited: i64,
    pub times_edited: i32,
    pub tags: Vec<Tag>,
    pub files: Vec<FileMeta>,
}

/// A single projected id column.
#[derive(Clone, Copy, Debug, PartialEq, Eq, Structural)]
pub struct IDWrapper {
    pub id: i32,
}

/// A single projected count column.
#[derive(Clone, Copy, Debug, PartialEq, Eq, Structural)]
pub struct CountWrapper {
    pub count: i64,
}

} // verus!
