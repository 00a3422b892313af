//! The relational model: the tables the service keeps, the ownership
//! filter every statement carries, and the transactional operations on
//! them. Every operation either applies all its statements or none, and
//! no row is read, changed or removed without matching the requesting
//! principal.

use vstd::prelude::*;

use crate::errors::ServiceError;

verus! {

/// A row of the `notes` table.
#[derive(Clone, Debug)]
pub struct NoteRow {
    pub id: i32,
    pub user_id: i32,
    pub title: String,
    pub text: String,
    pub created: i64,
    pub last_edited: i64,
    pub times_edited: i32,
}

/// A row of the `tags` table.
#[derive(Clone, Debug)]
pub struct TagRow {
    pub id: i32,
    pub user_id: i32,
    pub name: String,
    pub created: i64,
}

/// A row of the `files` table.
#[derive(Clone, Debug)]
pub struct FileRow {
    pub id: i32,
    pub user_id: i32,
    pub hash: String,
    pub name: String,
    pub size: i64,
    pub created: i64,
}

/// A row of the `shelves` table.
#[derive(Clone, Debug)]
pub struct ShelfRow {
    pub id: i32,
    pub user_id: i32,
    pub text: String,
    pub created: i64,
    pub last_edited: i64,
    pub times_edited: i32,
}

/// The entity a new attachment is linked to: exactly one note or one
/// shelf, resolved at creation time.
#[derive(Clone, Copy, Debug, PartialEq, Eq, Structural)]
pub enum AttachTarget {
    NoteId(i32),
    ShelfId(i32),
}

impl NoteRow {
    /// An owned copy with the same field values.
    pub fn duplicate(&self) -> (r: NoteRow)
        ensures
            r == *self,
    {
        NoteRow {
            id: self.id,
            user_id: self.user_id,
            title: self.title.clone(),
            text: self.text.clone(),
            created: self.created,
            last_edited: self.last_edited,
            times_edited: self.times_edited,
        }
    }
}

impl TagRow {
    /// An owned copy with the same field values.
    pub fn duplicate(&self) -> (r: TagRow)
        ensures
            r == *self,
    {
        TagRow {
            id: self.id,
            user_id: self.user_id,
            name: self.name.clone(),
            created: self.created,
        }
    }
}

impl FileRow {
    /// An owned copy with the same field values.
    pub fn duplicate(&self) -> (r: FileRow)
        ensures
            r == *self,
    {
        FileRow {
            id: self.id,
            user_id: self.user_id,
            hash: self.hash.clone(),
            name: self.name.clone(),
            size: self.size,
            created: self.created,
        }
    }
}

impl ShelfRow {
    /// An owned copy with the same field values.
    pub fn duplicate(&self) -> (r: ShelfRow)
        ensures
            r == *self,
    {
        ShelfRow {
            id: self.id,
            user_id: self.user_id,
            text: self.text.clone(),
            created: self.created,
            last_edited: self.last_edited,
            times_edited: self.times_edited,
        }
    }
}

/// The first row of `files` stored under `hash` for the principal,
/// scanning from the front.
pub open spec fn spec_first_file_with_hash(
    files: Seq<FileRow>,
    user_id: i32,
    hash: Seq<char>,
) -> Option<FileRow>
    decreases files.len(),
{
    if files.len() == 0 {
        None
    } else if files[0].hash@ == hash && files[0].user_id == user_id {
        Some(files[0])
    } else {
        spec_first_file_with_hash(files.drop_first(), user_id, hash)
    }
}

/// Whether the pair `(a, b)` is a row of `s`.
pub open spec fn spec_pair_in(s: Seq<(i32, i32)>, a: i32, b: i32) -> bool {
    exists|i: int| 0 <= i < s.len() && s[i] == (a, b)
}

/// Whether a join list holds the row `(a, b)`.
pub fn contains_pair(v: &Vec<(i32, i32)>, a: i32, b: i32) -> (r: bool)
    ensures
        r == spec_pair_in(v@, a, b),
{
    let mut i: usize = 0;
    while i < v.len()
        invariant
            i <= v@.len(),
            forall|j: int| 0 <= j < i ==> #[trigger] v@[j] != (a, b),
        decreases v@.len() - i,
    {
        if v[i].0 == a && v[i].1 == b {
            return true;
        }
        i = i + 1;
    }
    false
}

/// Whether every note-tag join row links rows of one principal: a note
/// and a tag that share an id with a pair share their owner.
pub open spec fn spec_note_tag_coupled(
    notes: Seq<NoteRow>,
    tags: Seq<TagRow>,
    pairs: Seq<(i32, i32)>,
) -> bool {
    forall|k: int, i: int, j: int|
        #![trigger pairs[k], notes[i], tags[j]]
        0 <= k < pairs.len() && 0 <= i < notes.len() && 0 <= j < tags.len() && notes[i].id
            == pairs[k].0 && tags[j].id == pairs[k].1 ==> notes[i].user_id == tags[j].user_id
}

/// Whether every note-file join row links rows of one principal.
pub open spec fn spec_note_file_coupled(
    notes: Seq<NoteRow>,
    files: Seq<FileRow>,
    pairs: Seq<(i32, i32)>,
) -> bool {
    forall|k: int, i: int, j: int|
        #![trigger pairs[k], notes[i], files[j]]
        0 <= k < pairs.len() && 0 <= i < notes.len() && 0 <= j < files.len() && notes[i].id
            == pairs[k].0 && files[j].id == pairs[k].1 ==> notes[i].user_id == files[j].user_id
}

/// Whether every shelf-file join row links rows of one principal.
pub open spec fn spec_shelf_file_coupled(
    shelves: Seq<ShelfRow>,
    files: Seq<FileRow>,
    pairs: Seq<(i32, i32)>,
) -> bool {
    forall|k: int, i: int, j: int|
        #![trigger pairs[k], shelves[i], files[j]]
        0 <= k < pairs.len() && 0 <= i < shelves.len() && 0 <= j < files.len() && shelves[i].id
            == pairs[k].0 && files[j].id == pairs[k].1 ==> shelves[i].user_id == files[j].user_id
}

/// Whether every join pair references ids the counter has handed out.
pub open spec fn spec_pairs_bounded(pairs: Seq<(i32, i32)>, bound: i32) -> bool {
    forall|k: int| 0 <= k < pairs.len() ==> (#[trigger] pairs[k]).0 < bound && pairs[k].1 < bound
}

/// The relational store: four entity tables and three join tables.
#[derive(Debug)]
pub struct Database {
    pub notes: Vec<NoteRow>,
    pub tags: Vec<TagRow>,
    pub files: Vec<FileRow>,
    pub shelves: Vec<ShelfRow>,
    pub note_tags: Vec<(i32, i32)>,
    pub note_files: Vec<(i32, i32)>,
    pub shelf_files: Vec<(i32, i32)>,
    pub next_id: i32,
}

impl Database {
    /// Rows are kept in ascending id order below the id counter, join
    /// rows are sets, and each principal has at most one shelf.
    pub open spec fn wf(self) -> bool {
        &&& forall|i: int, j: int|
            0 <= i < j < self.notes@.len() ==> self.notes@[i].id < self.notes@[j].id
        &&& forall|i: int| 0 <= i < self.notes@.len() ==> (#[trigger] self.notes@[i].id) < self.next_id
        &&& forall|i: int, j: int|
            0 <= i < j < self.tags@.len() ==> self.tags@[i].id < self.tags@[j].id
        &&& forall|i: int| 0 <= i < self.tags@.len() ==> (#[trigger] self.tags@[i].id) < self.next_id
        &&& forall|i: int, j: int|
            0 <= i < j < self.files@.len() ==> self.files@[i].id < self.files@[j].id
        &&& forall|i: int| 0 <= i < self.files@.len() ==> (#[trigger] self.files@[i].id) < self.next_id
        &&& forall|i: int, j: int|
            0 <= i < j < self.shelves@.len() ==> self.shelves@[i].id < self.shelves@[j].id
        &&& forall|i: int|
            0 <= i < self.shelves@.len() ==> (#[trigger] self.shelves@[i].id) < self.next_id
        &&& forall|i: int, j: int|
            0 <= i < j < self.shelves@.len() ==> self.shelves@[i].user_id
                != self.shelves@[j].user_id
        &&& forall|i: int, j: int|
            0 <= i < j < self.note_tags@.len() ==> self.note_tags@[i] != self.note_tags@[j]
        &&& spec_pairs_bounded(self.note_tags@, self.next_id)
        &&& spec_pairs_bounded(self.note_files@, self.next_id)
        &&& spec_pairs_bounded(self.shelf_files@, self.next_id)
        &&& spec_note_tag_coupled(self.notes@, self.tags@, self.note_tags@)
        &&& spec_note_file_coupled(self.notes@, self.files@, self.note_files@)
        &&& spec_shelf_file_coupled(self.shelves@, self.files@, self.shelf_files@)
    }

    /// An empty store.
    pub fn new() -> (r: Database)
        ensures
            r.wf(),
            r.notes@.len() == 0,
            r.tags@.len() == 0,
            r.files@.len() == 0,
            r.shelves@.len() == 0,
            r.note_tags@.len() == 0,
            r.note_files@.len() == 0,
            r.shelf_files@.len() == 0,
            r.next_id == 1,
    {
        Database {
            notes: Vec::new(),
            tags: Vec::new(),
            files: Vec::new(),
            shelves: Vec::new(),
            note_tags: Vec::new(),
            note_files: Vec::new(),
            shelf_files: Vec::new(),
            next_id: 1,
        }
    }

    /// Whether the principal owns a note with this id.
    pub open spec fn spec_note_exists(self, user_id: i32, id: i32) -> bool {
        exists|i: int|
            0 <= i < self.notes@.len() && (#[trigger] self.notes@[i]).id == id
                && self.notes@[i].user_id == user_id
    }

    /// Whether the principal owns a tag with this id.
    pub open spec fn spec_tag_exists(self, user_id: i32, id: i32) -> bool {
        exists|i: int|
            0 <= i < self.tags@.len() && (#[trigger] self.tags@[i]).id == id
                && self.tags@[i].user_id == user_id
    }

    /// Whether the principal owns a shelf with this id.
    pub open spec fn spec_shelf_exists(self, user_id: i32, id: i32) -> bool {
        exists|i: int|
            0 <= i < self.shelves@.len() && (#[trigger] self.shelves@[i]).id == id
                && self.shelves@[i].user_id == user_id
    }

    /// Whether the principal owns a file with this id.
    pub open spec fn spec_file_exists(self, user_id: i32, id: i32) -> bool {
        exists|i: int|
            0 <= i < self.files@.len() && (#[trigger] self.files@[i]).id == id
                && self.files@[i].user_id == user_id
    }

    /// Whether the principal owns a file stored under this hash.
    pub open spec fn spec_file_with_hash_exists(self, user_id: i32, hash: Seq<char>) -> bool {
        exists|i: int|
            0 <= i < self.files@.len() && (#[trigger] self.files@[i]).hash@ == hash
                && self.files@[i].user_id == user_id
    }

    /// The first of the principal's file rows stored under `hash`, in
    /// table order — the row a lookup by hash answers with.
    pub open spec fn spec_file_by_hash(self, user_id: i32, hash: Seq<char>) -> Option<FileRow> {
        spec_first_file_with_hash(self.files@, user_id, hash)
    }

    /// The index of the principal's note with this id.
    fn find_note_index(&self, user_id: i32, id: i32) -> (r: Option<usize>)
        ensures
            match r {
                Some(i) => i < self.notes@.len() && self.notes@[i as int].id == id
                    && self.notes@[i as int].user_id == user_id,
                None => !self.spec_note_exists(user_id, id),
            },
    {
        let mut i: usize = 0;
        while i < self.notes.len()
            invariant
                i <= self.notes@.len(),
                forall|j: int|
                    0 <= j < i ==> !((#[trigger] self.notes@[j]).id == id && self.notes@[j].user_id
                        == user_id),
            decreases self.notes@.len() - i,
        {
            if self.notes[i].id == id && self.notes[i].user_id == user_id {
                return Some(i);
            }
            i = i + 1;
        }
        None
    }

    /// The index of the principal's tag with this id.
    fn find_tag_index(&self, user_id: i32, id: i32) -> (r: Option<usize>)
        ensures
            match r {
                Some(i) => i < self.tags@.len() && self.tags@[i as int].id == id
                    && self.tags@[i as int].user_id == user_id,
                None => !self.spec_tag_exists(user_id, id),
            },
    {
        let mut i: usize = 0;
        while i < self.tags.len()
            invariant
                i <= self.tags@.len(),
                forall|j: int|
                    0 <= j < i ==> !((#[trigger] self.tags@[j]).id == id && self.tags@[j].user_id
                        == user_id),
            decreases self.tags@.len() - i,
        {
            if self.tags[i].id == id && self.tags[i].user_id == user_id {
                return Some(i);
            }
            i = i + 1;
        }
        None
    }

    /// The index of the principal's shelf with this id.
    fn find_shelf_index(&self, user_id: i32, id: i32) -> (r: Option<usize>)
        ensures
            match r {
                Some(i) => i < self.shelves@.len() && self.shelves@[i as int].id == id
                    && self.shelves@[i as int].user_id == user_id,
                None => !self.spec_shelf_exists(user_id, id),
            },
    {
        let mut i: usize = 0;
        while i < self.shelves.len()
            invariant
                i <= self.shelves@.len(),
                forall|j: int|
                    0 <= j < i ==> !((#[trigger] self.shelves@[j]).id == id
                        && self.shelves@[j].user_id == user_id),
            decreases self.shelves@.len() - i,
        {
            if self.shelves[i].id == id && self.shelves[i].user_id == user_id {
                return Some(i);
            }
            i = i + 1;
        }
        None
    }

    /// The index of the principal's file with this id.
    fn find_file_index(&self, user_id: i32, id: i32) -> (r: Option<usize>)
        ensures
            match r {
                Some(i) => i < self.files@.len() && self.files@[i as int].id == id
                    && self.files@[i as int].user_id == user_id,
                None => !self.spec_file_exists(user_id, id),
            },
    {
        let mut i: usize = 0;
        while i < self.files.len()
            invariant
                i <= self.files@.len(),
                forall|j: int|
                    0 <= j < i ==> !((#[trigger] self.files@[j]).id == id && self.files@[j].user_id
                        == user_id),
            decreases self.files@.len() - i,
        {
            if self.files[i].id == id && self.files[i].user_id == user_id {
                return Some(i);
            }
            i = i + 1;
        }
        None
    }

    /// A borrow of the principal's file stored under `hash`.
    pub fn find_file_by_hash(&self, user_id: i32, hash: &String) -> (r: Option<&FileRow>)
        ensures
            match r {
                Some(f) => self.spec_file_with_hash_exists(user_id, hash@) && f.hash@ == hash@
                    && f.user_id == user_id && spec_first_file_with_hash(
                    self.files@,
                    user_id,
                    hash@,
                ) == Some(*f) && (exists|i: int|
                    0 <= i < self.files@.len() && self.files@[i] == *f),
                None => !self.spec_file_with_hash_exists(user_id, hash@)
                    && spec_first_file_with_hash(self.files@, user_id, hash@) is None,
            },
    {
        let mut i: usize = 0;
        proof {
            assert(self.files@.skip(0) =~= self.files@);
        }
        while i < self.files.len()
            invariant
                i <= self.files@.len(),
                forall|j: int|
                    0 <= j < i ==> !((#[trigger] self.files@[j]).hash@ == hash@
                        && self.files@[j].user_id == user_id),
                spec_first_file_with_hash(self.files@, user_id, hash@)
                    == spec_first_file_with_hash(self.files@.skip(i as int), user_id, hash@),
            decreases self.files@.len() - i,
        {
            proof {
                assert(self.files@.skip(i as int)[0] == self.files@[i as int]);
            }
            if self.files[i].hash == *hash && self.files[i].user_id == user_id {
                return Some(&self.files[i]);
            }
            proof {
                assert(self.files@.skip(i as int).drop_first() =~= self.files@.skip(i as int + 1));
            }
            i = i + 1;
        }
        None
    }

    /// Whether the attachment target exists and belongs to the
    /// principal.
    pub fn attach_target_exists(&self, user_id: i32, target: &AttachTarget) -> (r: bool)
        ensures
            r == self.spec_attach_target_exists(user_id, *target),
    {
        match target {
            AttachTarget::NoteId(id) => self.find_note_index(user_id, *id).is_some(),
            AttachTarget::ShelfId(id) => self.find_shelf_index(user_id, *id).is_some(),
        }
    }

    /// Whether the attachment target exists for the principal.
    pub open spec fn spec_attach_target_exists(self, user_id: i32, target: AttachTarget) -> bool {
        match target {
            AttachTarget::NoteId(id) => self.spec_note_exists(user_id, id),
            AttachTarget::ShelfId(id) => self.spec_shelf_exists(user_id, id),
        }
    }

    /// Creates a note for the principal, with a fresh id and a zeroed
    /// edit counter.
    pub fn create_note(&mut self, user_id: i32, title: String, text: String, now: i64) -> (r:
        NoteRow)
        requires
            old(self).wf(),
            old(self).next_id < i32::MAX,
        ensures
            final(self).wf(),
            r.id == old(self).next_id,
            r.user_id == user_id,
            r.title == title,
            r.text == text,
            r.created == now,
            r.last_edited == now,
            r.times_edited == 0,
            final(self).notes@ == old(self).notes@.push(r),
            final(self).tags@ == old(self).tags@,
            final(self).files@ == old(self).files@,
            final(self).shelves@ == old(self).shelves@,
            final(self).note_tags@ == old(self).note_tags@,
            final(self).note_files@ == old(self).note_files@,
            final(self).shelf_files@ == old(self).shelf_files@,
    {
        let row = NoteRow {
            id: self.next_id,
            user_id,
            title,
            text,
            created: now,
            last_edited: now,
            times_edited: 0,
        };
        let out = row.duplicate();
        self.notes.push(row);
        self.next_id = self.next_id + 1;
        out
    }

    /// Updates the principal's note: replaces title and text, stamps the
    /// modification time, bumps the edit counter. A note the principal
    /// does not own is not found.
    pub fn update_note(&mut self, user_id: i32, id: i32, title: String, text: String, now: i64) -> (r:
        Result<NoteRow, ServiceError>)
        requires
            old(self).wf(),
            forall|i: int|
                0 <= i < old(self).notes@.len() ==> (#[trigger] old(self).notes@[i]).times_edited
                    < i32::MAX,
        ensures
            final(self).wf(),
            match r {
                Ok(row) => {
                    &&& old(self).spec_note_exists(user_id, id)
                    &&& row.id == id
                    &&& row.user_id == user_id
                    &&& row.title == title
                    &&& row.text == text
                    &&& row.last_edited == now
                    &&& exists|i: int|
                        0 <= i < old(self).notes@.len() && (#[trigger] old(self).notes@[i]).id
                            == id && old(self).notes@[i].user_id == user_id && row.created == old(self).notes@[i].created && row.times_edited == old(self).notes@[i].times_edited
                            + 1 && final(self).notes@ == old(self).notes@.update(i, row)
                },
                Err(e) => e == ServiceError::NotFound && !old(self).spec_note_exists(user_id, id)
                    && *final(self) == *old(self),
            },
            final(self).tags@ == old(self).tags@,
            final(self).files@ == old(self).files@,
            final(self).shelves@ == old(self).shelves@,
            final(self).note_tags@ == old(self).note_tags@,
            final(self).note_files@ == old(self).note_files@,
            final(self).shelf_files@ == old(self).shelf_files@,
    {
        let idx = match self.find_note_index(user_id, id) {
            Some(i) => i,
            None => {
                return Err(ServiceError::NotFound);
            },
        };
        let mut row = self.notes.remove(idx);
        row.title = title;
        row.text = text;
        row.last_edited = now;
        row.times_edited = row.times_edited + 1;
        let out = row.duplicate();
        self.notes.insert(idx, row);
        proof {
            assert(self.notes@ =~= old(self).notes@.update(idx as int, self.notes@[idx as int]));
        }
        Ok(out)
    }

    /// Attaches a tag to a note, both owned by the principal. A missing
    /// or foreign note or tag, or an attachment already present, is a
    /// constraint violation.
    pub fn attach_tag(&mut self, user_id: i32, note_id: i32, tag_id: i32) -> (r: Result<
        (),
        ServiceError,
    >)
        requires
            old(self).wf(),
        ensures
            final(self).wf(),
            match r {
                Ok(()) => old(self).spec_note_exists(user_id, note_id) && old(self).spec_tag_exists(user_id, tag_id) && !spec_pair_in(
                    old(self).note_tags@,
                    note_id,
                    tag_id,
                ) && final(self).note_tags@ == old(self).note_tags@.push((note_id, tag_id)),
                Err(e) => {
                    &&& e == ServiceError::InvalidArgument
                    &&& !(old(self).spec_note_exists(user_id, note_id) && old(self).spec_tag_exists(user_id, tag_id) && !spec_pair_in(
                        old(self).note_tags@,
                        note_id,
                        tag_id,
                    ))
                    &&& *final(self) == *old(self)
                },
            },
            final(self).notes@ == old(self).notes@,
            final(self).tags@ == old(self).tags@,
            final(self).files@ == old(self).files@,
            final(self).shelves@ == old(self).shelves@,
            final(self).note_files@ == old(self).note_files@,
            final(self).shelf_files@ == old(self).shelf_files@,
    {
        if self.find_note_index(user_id, note_id).is_none() {
            return Err(ServiceError::InvalidArgument);
        }
        if self.find_tag_index(user_id, tag_id).is_none() {
            return Err(ServiceError::InvalidArgument);
        }
        if contains_pair(&self.note_tags, note_id, tag_id) {
            return Err(ServiceError::InvalidArgument);
        }
        self.note_tags.push((note_id, tag_id));
        Ok(())
    }

    /// Detaches a tag from a note, both owned by the principal. A
    /// relation that is not there is not found.
    pub fn detach_tag(&mut self, user_id: i32, note_id: i32, tag_id: i32) -> (r: Result<
        (),
        ServiceError,
    >)
        requires
            old(self).wf(),
        ensures
            final(self).wf(),
            match r {
                Ok(()) => old(self).spec_note_exists(user_id, note_id) && old(self).spec_tag_exists(user_id, tag_id) && spec_pair_in(
                    old(self).note_tags@,
                    note_id,
                    tag_id,
                ) && final(self).note_tags@ == old(self).note_tags@.filter(
                    |p: (i32, i32)| p != (note_id, tag_id),
                ),
                Err(e) => {
                    &&& e == ServiceError::NotFound
                    &&& !(old(self).spec_note_exists(user_id, note_id) && old(self).spec_tag_exists(user_id, tag_id) && spec_pair_in(
                        old(self).note_tags@,
                        note_id,
                        tag_id,
                    ))
                    &&& *final(self) == *old(self)
                },
            },
            final(self).notes@ == old(self).notes@,
            final(self).tags@ == old(self).tags@,
            final(self).files@ == old(self).files@,
            final(self).shelves@ == old(self).shelves@,
            final(self).note_files@ == old(self).note_files@,
            final(self).shelf_files@ == old(self).shelf_files@,
    {
        if self.find_note_index(user_id, note_id).is_none() {
            return Err(ServiceError::NotFound);
        }
        if self.find_tag_index(user_id, tag_id).is_none() {
            return Err(ServiceError::NotFound);
        }
        if !contains_pair(&self.note_tags, note_id, tag_id) {
            return Err(ServiceError::NotFound);
        }
        let ghost pre = self.note_tags@;
        let mut kept: Vec<(i32, i32)> = Vec::new();
        let mut i: usize = 0;
        proof {
            reveal(Seq::filter);
            assert(pre.take(0).filter(|p: (i32, i32)| p != (note_id, tag_id)) =~= kept@);
        }
        while i < self.note_tags.len()
            invariant
                i <= pre.len(),
                self.note_tags@ == pre,
                note_id == note_id,
                kept@ == pre.take(i as int).filter(|p: (i32, i32)| p != (note_id, tag_id)),
            decreases pre.len() - i,
        {
            let p = self.note_tags[i];
            proof {
                reveal(Seq::filter);
                assert(pre.take(i as int + 1).drop_last() =~= pre.take(i as int));
                assert(pre.take(i as int + 1).last() == p);
            }
            if !(p.0 == note_id && p.1 == tag_id) {
                kept.push(p);
            }
            i = i + 1;
        }
        proof {
            assert(pre.take(pre.len() as int) =~= pre);
        }
        self.note_tags = kept;
        proof {
            lemma_filter_distinct(pre, |p: (i32, i32)| p != (note_id, tag_id));
            lemma_filter_elements(pre, |p: (i32, i32)| p != (note_id, tag_id));
            lemma_pairs_bounded_preserved(pre, self.note_tags@, self.next_id);
            lemma_notes_proj_self(self.notes@);
            lemma_tags_proj_self(self.tags@);
            lemma_note_tag_coupled_preserved(
                old(self).notes@,
                old(self).tags@,
                pre,
                self.notes@,
                self.tags@,
                self.note_tags@,
            );
        }
        Ok(())
    }

    /// Creates a tag for the principal, with a fresh id.
    pub fn create_tag(&mut self, user_id: i32, name: String, now: i64) -> (r: TagRow)
        requires
            old(self).wf(),
            old(self).next_id < i32::MAX,
        ensures
            final(self).wf(),
            r.id == old(self).next_id,
            r.user_id == user_id,
            r.name == name,
            r.created == now,
            final(self).tags@ == old(self).tags@.push(r),
            final(self).notes@ == old(self).notes@,
            final(self).files@ == old(self).files@,
            final(self).shelves@ == old(self).shelves@,
            final(self).note_tags@ == old(self).note_tags@,
            final(self).note_files@ == old(self).note_files@,
            final(self).shelf_files@ == old(self).shelf_files@,
    {
        let row = TagRow { id: self.next_id, user_id, name, created: now };
        let out = row.duplicate();
        self.tags.push(row);
        self.next_id = self.next_id + 1;
        out
    }

    /// The principal's tags, in id order.
    pub fn read_tags(&self, user_id: i32) -> (r: Vec<TagRow>)
        ensures
            r@ == self.tags@.filter(|t: TagRow| t.user_id == user_id),
    {
        let mut out: Vec<TagRow> = Vec::new();
        let mut i: usize = 0;
        proof {
            reveal(Seq::filter);
            assert(self.tags@.take(0).filter(|t: TagRow| t.user_id == user_id) =~= out@);
        }
        while i < self.tags.len()
            invariant
                i <= self.tags@.len(),
                out@ == self.tags@.take(i as int).filter(|t: TagRow| t.user_id == user_id),
            decreases self.tags@.len() - i,
        {
            proof {
                reveal(Seq::filter);
                assert(self.tags@.take(i as int + 1).drop_last() =~= self.tags@.take(i as int));
                assert(self.tags@.take(i as int + 1).last() == self.tags@[i as int]);
            }
            if self.tags[i].user_id == user_id {
                out.push(self.tags[i].duplicate());
            }
            i = i + 1;
        }
        proof {
            assert(self.tags@.take(self.tags@.len() as int) =~= self.tags@);
        }
        out
    }

    /// Renames the principal's tag. A tag the principal does not own is
    /// not found.
    pub fn update_tag(&mut self, user_id: i32, id: i32, name: String) -> (r: Result<
        TagRow,
        ServiceError,
    >)
        requires
            old(self).wf(),
        ensures
            final(self).wf(),
            match r {
                Ok(row) => {
                    &&& old(self).spec_tag_exists(user_id, id)
                    &&& row.id == id
                    &&& row.user_id == user_id
                    &&& row.name == name
                    &&& exists|i: int|
                        0 <= i < old(self).tags@.len() && (#[trigger] old(self).tags@[i]).id == id
                            && old(self).tags@[i].user_id == user_id && row.created == old(self).tags@[i].created && final(self).tags@ == old(self).tags@.update(i, row)
                },
                Err(e) => e == ServiceError::NotFound && !old(self).spec_tag_exists(user_id, id)
                    && *final(self) == *old(self),
            },
            final(self).notes@ == old(self).notes@,
            final(self).files@ == old(self).files@,
            final(self).shelves@ == old(self).shelves@,
            final(self).note_tags@ == old(self).note_tags@,
            final(self).note_files@ == old(self).note_files@,
            final(self).shelf_files@ == old(self).shelf_files@,
    {
        let idx = match self.find_tag_index(user_id, id) {
            Some(i) => i,
            None => {
                return Err(ServiceError::NotFound);
            },
        };
        let mut row = self.tags.remove(idx);
        row.name = name;
        let out = row.duplicate();
        self.tags.insert(idx, row);
        proof {
            assert(self.tags@ =~= old(self).tags@.update(idx as int, self.tags@[idx as int]));
        }
        Ok(out)
    }

    /// Deletes the principal's tag and every note relation it appears
    /// in. A tag the principal does not own is not found, and nothing
    /// changes.
    pub fn delete_tag(&mut self, user_id: i32, id: i32) -> (r: Result<(), ServiceError>)
        requires
            old(self).wf(),
        ensures
            final(self).wf(),
            match r {
                Ok(()) => old(self).spec_tag_exists(user_id, id) && final(self).tags@ == old(self).tags@.filter(|t: TagRow| !(t.id == id && t.user_id == user_id)) && final(self).note_tags@ == old(self).note_tags@.filter(|p: (i32, i32)| p.1 != id),
                Err(e) => e == ServiceError::NotFound && !old(self).spec_tag_exists(user_id, id)
                    && *final(self) == *old(self),
            },
            final(self).notes@ == old(self).notes@,
            final(self).files@ == old(self).files@,
            final(self).shelves@ == old(self).shelves@,
            final(self).note_files@ == old(self).note_files@,
            final(self).shelf_files@ == old(self).shelf_files@,
    {
        if self.find_tag_index(user_id, id).is_none() {
            return Err(ServiceError::NotFound);
        }
        let ghost pre_nt = self.note_tags@;
        let mut kept_nt: Vec<(i32, i32)> = Vec::new();
        let mut i: usize = 0;
        proof {
            reveal(Seq::filter);
            assert(pre_nt.take(0).filter(|p: (i32, i32)| p.1 != id) =~= kept_nt@);
        }
        while i < self.note_tags.len()
            invariant
                i <= pre_nt.len(),
                self.note_tags@ == pre_nt,
                kept_nt@ == pre_nt.take(i as int).filter(|p: (i32, i32)| p.1 != id),
            decreases pre_nt.len() - i,
        {
            let p = self.note_tags[i];
            proof {
                reveal(Seq::filter);
                assert(pre_nt.take(i as int + 1).drop_last() =~= pre_nt.take(i as int));
                assert(pre_nt.take(i as int + 1).last() == p);
            }
            if p.1 != id {
                kept_nt.push(p);
            }
            i = i + 1;
        }
        proof {
            assert(pre_nt.take(pre_nt.len() as int) =~= pre_nt);
        }
        self.note_tags = kept_nt;
        let ghost pre_tags = self.tags@;
        let mut kept_tags: Vec<TagRow> = Vec::new();
        let mut j: usize = 0;
        proof {
            reveal(Seq::filter);
            assert(pre_tags.take(0).filter(
                |t: TagRow| !(t.id == id && t.user_id == user_id),
            ) =~= kept_tags@);
        }
        while j < self.tags.len()
            invariant
                j <= pre_tags.len(),
                self.tags@ == pre_tags,
                kept_tags@ == pre_tags.take(j as int).filter(
                    |t: TagRow| !(t.id == id && t.user_id == user_id),
                ),
            decreases pre_tags.len() - j,
        {
            proof {
                reveal(Seq::filter);
                assert(pre_tags.take(j as int + 1).drop_last() =~= pre_tags.take(j as int));
                assert(pre_tags.take(j as int + 1).last() == pre_tags[j as int]);
            }
            if !(self.tags[j].id == id && self.tags[j].user_id == user_id) {
                kept_tags.push(self.tags[j].duplicate());
            }
            j = j + 1;
        }
        proof {
            assert(pre_tags.take(pre_tags.len() as int) =~= pre_tags);
        }
        self.tags = kept_tags;
        proof {
            lemma_filter_sorted_by_key(
                pre_tags,
                |t: TagRow| !(t.id == id && t.user_id == user_id),
                |t: TagRow| t.id as int,
            );
            lemma_filter_elements(pre_tags, |t: TagRow| !(t.id == id && t.user_id == user_id));
            lemma_filter_distinct(pre_nt, |p: (i32, i32)| p.1 != id);
            lemma_filter_elements(pre_nt, |p: (i32, i32)| p.1 != id);
            lemma_pairs_bounded_preserved(pre_nt, self.note_tags@, self.next_id);
            lemma_tags_filter_proj(pre_tags, |t: TagRow| !(t.id == id && t.user_id == user_id));
            lemma_notes_proj_self(self.notes@);
            lemma_note_tag_coupled_preserved(
                old(self).notes@,
                pre_tags,
                pre_nt,
                self.notes@,
                self.tags@,
                self.note_tags@,
            );
        }
        Ok(())
    }
}

/// The join rows whose first column equals `key`.
fn pairs_with_first(v: &Vec<(i32, i32)>, key: i32) -> (r: Vec<(i32, i32)>)
    ensures
        r@ == v@.filter(|p: (i32, i32)| p.0 == key),
{
    let mut out: Vec<(i32, i32)> = Vec::new();
    let mut i: usize = 0;
    proof {
        reveal(Seq::filter);
        assert(v@.take(0).filter(|p: (i32, i32)| p.0 == key) =~= out@);
    }
    while i < v.len()
        invariant
            i <= v@.len(),
            out@ == v@.take(i as int).filter(|p: (i32, i32)| p.0 == key),
        decreases v@.len() - i,
    {
        let p = v[i];
        proof {
            reveal(Seq::filter);
            assert(v@.take(i as int + 1).drop_last() =~= v@.take(i as int));
            assert(v@.take(i as int + 1).last() == p);
        }
        if p.0 == key {
            out.push(p);
        }
        i = i + 1;
    }
    proof {
        assert(v@.take(v@.len() as int) =~= v@);
    }
    out
}

/// The join rows whose first column differs from `key`.
fn pairs_without_first(v: &Vec<(i32, i32)>, key: i32) -> (r: Vec<(i32, i32)>)
    ensures
        r@ == v@.filter(|p: (i32, i32)| p.0 != key),
{
    let mut out: Vec<(i32, i32)> = Vec::new();
    let mut i: usize = 0;
    proof {
        reveal(Seq::filter);
        assert(v@.take(0).filter(|p: (i32, i32)| p.0 != key) =~= out@);
    }
    while i < v.len()
        invariant
            i <= v@.len(),
            out@ == v@.take(i as int).filter(|p: (i32, i32)| p.0 != key),
        decreases v@.len() - i,
    {
        let p = v[i];
        proof {
            reveal(Seq::filter);
            assert(v@.take(i as int + 1).drop_last() =~= v@.take(i as int));
            assert(v@.take(i as int + 1).last() == p);
        }
        if p.0 != key {
            out.push(p);
        }
        i = i + 1;
    }
    proof {
        assert(v@.take(v@.len() as int) =~= v@);
    }
    out
}

/// The join rows whose second column differs from `key`.
fn pairs_without_second(v: &Vec<(i32, i32)>, key: i32) -> (r: Vec<(i32, i32)>)
    ensures
        r@ == v@.filter(|p: (i32, i32)| p.1 != key),
{
    let mut out: Vec<(i32, i32)> = Vec::new();
    let mut i: usize = 0;
    proof {
        reveal(Seq::filter);
        assert(v@.take(0).filter(|p: (i32, i32)| p.1 != key) =~= out@);
    }
    while i < v.len()
        invariant
            i <= v@.len(),
            out@ == v@.take(i as int).filter(|p: (i32, i32)| p.1 != key),
        decreases v@.len() - i,
    {
        let p = v[i];
        proof {
            reveal(Seq::filter);
            assert(v@.take(i as int + 1).drop_last() =~= v@.take(i as int));
            assert(v@.take(i as int + 1).last() == p);
        }
        if p.1 != key {
            out.push(p);
        }
        i = i + 1;
    }
    proof {
        assert(v@.take(v@.len() as int) =~= v@);
    }
    out
}

/// The predicate picking the principal's files joined to `owner`.
pub open spec fn spec_joined_file(joins: Seq<(i32, i32)>, owner: i32, user_id: i32) -> spec_fn(
    FileRow,
) -> bool {
    |f: FileRow| spec_pair_in(joins, owner, f.id) && f.user_id == user_id
}

/// Splits a file table into the principal's rows joined to `owner`
/// (removed) and everything else (kept), each keeping table order.
fn split_files_by_join(
    files: &Vec<FileRow>,
    joins: &Vec<(i32, i32)>,
    owner: i32,
    user_id: i32,
) -> (r: (Vec<FileRow>, Vec<FileRow>))
    ensures
        r.0@ == files@.filter(spec_joined_file(joins@, owner, user_id)),
        r.1@ == files@.filter(
            |f: FileRow| !(spec_pair_in(joins@, owner, f.id) && f.user_id == user_id),
        ),
{
    let mut removed: Vec<FileRow> = Vec::new();
    let mut kept: Vec<FileRow> = Vec::new();
    let mut i: usize = 0;
    proof {
        reveal(Seq::filter);
        assert(files@.take(0).filter(spec_joined_file(joins@, owner, user_id)) =~= removed@);
        assert(files@.take(0).filter(
            |f: FileRow| !(spec_pair_in(joins@, owner, f.id) && f.user_id == user_id),
        ) =~= kept@);
    }
    while i < files.len()
        invariant
            i <= files@.len(),
            removed@ == files@.take(i as int).filter(spec_joined_file(joins@, owner, user_id)),
            kept@ == files@.take(i as int).filter(
                |f: FileRow| !(spec_pair_in(joins@, owner, f.id) && f.user_id == user_id),
            ),
        decreases files@.len() - i,
    {
        proof {
            reveal(Seq::filter);
            assert(files@.take(i as int + 1).drop_last() =~= files@.take(i as int));
            assert(files@.take(i as int + 1).last() == files@[i as int]);
        }
        let fid = files[i].id;
        if contains_pair(joins, owner, fid) && files[i].user_id == user_id {
            removed.push(files[i].duplicate());
        } else {
            kept.push(files[i].duplicate());
        }
        i = i + 1;
    }
    proof {
        assert(files@.take(files@.len() as int) =~= files@);
    }
    (removed, kept)
}

/// Deleting a note removes every download path to its owned files:
/// when a hash occurred only on rows the deletion removed — its rows
/// were all owned by the principal and joined to the note — no
/// principal can look that hash up afterwards. Together with the
/// emission contract, a download of such a hash is not found.
pub proof fn lemma_delete_note_removes_downloads(
    pre: Database,
    post: Database,
    user_id: i32,
    id: i32,
    h: Seq<char>,
)
    requires
        post.files@ == pre.files@.filter(
            |f: FileRow| !(spec_pair_in(pre.note_files@, id, f.id) && f.user_id == user_id),
        ),
        forall|i: int|
            0 <= i < pre.files@.len() && (#[trigger] pre.files@[i]).hash@ == h ==> spec_pair_in(
                pre.note_files@,
                id,
                pre.files@[i].id,
            ) && pre.files@[i].user_id == user_id,
    ensures
        forall|u2: i32| !post.spec_file_with_hash_exists(u2, h),
{
    let pred = |f: FileRow| !(spec_pair_in(pre.note_files@, id, f.id) && f.user_id == user_id);
    lemma_filter_elements(pre.files@, pred);
    assert forall|u2: i32| !post.spec_file_with_hash_exists(u2, h) by {
        if post.spec_file_with_hash_exists(u2, h) {
            let i = choose|i: int|
                0 <= i < post.files@.len() && (#[trigger] post.files@[i]).hash@ == h
                    && post.files@[i].user_id == u2;
            pre.files@.lemma_filter_pred(pred, i);
            let k = choose|k: int| 0 <= k < pre.files@.len() && pre.files@[k] == post.files@[i];
            assert(pre.files@[k].hash@ == h);
            assert(false);
        }
    }
}

/// Whether some note row carries this id and owner.
spec fn spec_note_row_known(notes: Seq<NoteRow>, id: i32, user: i32) -> bool {
    exists|i0: int|
        0 <= i0 < notes.len() && (#[trigger] notes[i0]).id == id && notes[i0].user_id == user
}

/// Whether some tag row carries this id and owner.
spec fn spec_tag_row_known(tags: Seq<TagRow>, id: i32, user: i32) -> bool {
    exists|i0: int|
        0 <= i0 < tags.len() && (#[trigger] tags[i0]).id == id && tags[i0].user_id == user
}

/// Whether some file row carries this id and owner.
spec fn spec_file_row_known(files: Seq<FileRow>, id: i32, user: i32) -> bool {
    exists|i0: int|
        0 <= i0 < files.len() && (#[trigger] files[i0]).id == id && files[i0].user_id == user
}

/// Whether some shelf row carries this id and owner.
spec fn spec_shelf_row_known(shelves: Seq<ShelfRow>, id: i32, user: i32) -> bool {
    exists|i0: int|
        0 <= i0 < shelves.len() && (#[trigger] shelves[i0]).id == id && shelves[i0].user_id
            == user
}

/// A sequence's every element trivially occurs in itself.
proof fn lemma_pairs_subset_self(s: Seq<(i32, i32)>)
    ensures
        forall|k: int| 0 <= k < s.len() ==> s.contains(#[trigger] s[k]),
{
    assert forall|k: int| 0 <= k < s.len() implies s.contains(#[trigger] s[k]) by {
        assert(s[k] == s[k]);
    }
}

/// Coupling survives any reshaping that keeps every pair a pair of the
/// original list and every row's id and owner those of an original row.
proof fn lemma_note_tag_coupled_preserved(
    notes0: Seq<NoteRow>,
    tags0: Seq<TagRow>,
    pairs0: Seq<(i32, i32)>,
    notes1: Seq<NoteRow>,
    tags1: Seq<TagRow>,
    pairs1: Seq<(i32, i32)>,
)
    requires
        spec_note_tag_coupled(notes0, tags0, pairs0),
        forall|i: int|
            0 <= i < notes1.len() ==> spec_note_row_known(
                notes0,
                (#[trigger] notes1[i]).id,
                notes1[i].user_id,
            ),
        forall|j: int|
            0 <= j < tags1.len() ==> spec_tag_row_known(
                tags0,
                (#[trigger] tags1[j]).id,
                tags1[j].user_id,
            ),
        forall|k: int| 0 <= k < pairs1.len() ==> pairs0.contains(#[trigger] pairs1[k]),
    ensures
        spec_note_tag_coupled(notes1, tags1, pairs1),
{
    assert forall|k: int, i: int, j: int|
        #![trigger pairs1[k], notes1[i], tags1[j]]
        0 <= k < pairs1.len() && 0 <= i < notes1.len() && 0 <= j < tags1.len() && notes1[i].id
            == pairs1[k].0 && tags1[j].id == pairs1[k].1 implies notes1[i].user_id
        == tags1[j].user_id by {
        let k0 = choose|k0: int| 0 <= k0 < pairs0.len() && pairs0[k0] == pairs1[k];
        let i0 = choose|i0: int|
            0 <= i0 < notes0.len() && (#[trigger] notes0[i0]).id == notes1[i].id
                && notes0[i0].user_id == notes1[i].user_id;
        let j0 = choose|j0: int|
            0 <= j0 < tags0.len() && (#[trigger] tags0[j0]).id == tags1[j].id && tags0[j0].user_id
                == tags1[j].user_id;
        assert(pairs0[k0] == pairs1[k] && notes0[i0].id == pairs0[k0].0 && tags0[j0].id
            == pairs0[k0].1);
    }
}

/// The same preservation for note-file joins.
proof fn lemma_note_file_coupled_preserved(
    notes0: Seq<NoteRow>,
    files0: Seq<FileRow>,
    pairs0: Seq<(i32, i32)>,
    notes1: Seq<NoteRow>,
    files1: Seq<FileRow>,
    pairs1: Seq<(i32, i32)>,
)
    requires
        spec_note_file_coupled(notes0, files0, pairs0),
        forall|i: int|
            0 <= i < notes1.len() ==> spec_note_row_known(
                notes0,
                (#[trigger] notes1[i]).id,
                notes1[i].user_id,
            ),
        forall|j: int|
            0 <= j < files1.len() ==> spec_file_row_known(
                files0,
                (#[trigger] files1[j]).id,
                files1[j].user_id,
            ),
        forall|k: int| 0 <= k < pairs1.len() ==> pairs0.contains(#[trigger] pairs1[k]),
    ensures
        spec_note_file_coupled(notes1, files1, pairs1),
{
    assert forall|k: int, i: int, j: int|
        #![trigger pairs1[k], notes1[i], files1[j]]
        0 <= k < pairs1.len() && 0 <= i < notes1.len() && 0 <= j < files1.len() && notes1[i].id
            == pairs1[k].0 && files1[j].id == pairs1[k].1 implies notes1[i].user_id
        == files1[j].user_id by {
        let k0 = choose|k0: int| 0 <= k0 < pairs0.len() && pairs0[k0] == pairs1[k];
        let i0 = choose|i0: int|
            0 <= i0 < notes0.len() && (#[trigger] notes0[i0]).id == notes1[i].id
                && notes0[i0].user_id == notes1[i].user_id;
        let j0 = choose|j0: int|
            0 <= j0 < files0.len() && (#[trigger] files0[j0]).id == files1[j].id
                && files0[j0].user_id == files1[j].user_id;
        assert(pairs0[k0] == pairs1[k] && notes0[i0].id == pairs0[k0].0 && files0[j0].id
            == pairs0[k0].1);
    }
}

/// The same preservation for shelf-file joins.
proof fn lemma_shelf_file_coupled_preserved(
    shelves0: Seq<ShelfRow>,
    files0: Seq<FileRow>,
    pairs0: Seq<(i32, i32)>,
    shelves1: Seq<ShelfRow>,
    files1: Seq<FileRow>,
    pairs1: Seq<(i32, i32)>,
)
    requires
        spec_shelf_file_coupled(shelves0, files0, pairs0),
        forall|i: int|
            0 <= i < shelves1.len() ==> spec_shelf_row_known(
                shelves0,
                (#[trigger] shelves1[i]).id,
                shelves1[i].user_id,
            ),
        forall|j: int|
            0 <= j < files1.len() ==> spec_file_row_known(
                files0,
                (#[trigger] files1[j]).id,
                files1[j].user_id,
            ),
        forall|k: int| 0 <= k < pairs1.len() ==> pairs0.contains(#[trigger] pairs1[k]),
    ensures
        spec_shelf_file_coupled(shelves1, files1, pairs1),
{
    assert forall|k: int, i: int, j: int|
        #![trigger pairs1[k], shelves1[i], files1[j]]
        0 <= k < pairs1.len() && 0 <= i < shelves1.len() && 0 <= j < files1.len() && shelves1[i].id
            == pairs1[k].0 && files1[j].id == pairs1[k].1 implies shelves1[i].user_id
        == files1[j].user_id by {
        let k0 = choose|k0: int| 0 <= k0 < pairs0.len() && pairs0[k0] == pairs1[k];
        let i0 = choose|i0: int|
            0 <= i0 < shelves0.len() && (#[trigger] shelves0[i0]).id == shelves1[i].id
                && shelves0[i0].user_id == shelves1[i].user_id;
        let j0 = choose|j0: int|
            0 <= j0 < files0.len() && (#[trigger] files0[j0]).id == files1[j].id
                && files0[j0].user_id == files1[j].user_id;
        assert(pairs0[k0] == pairs1[k] && shelves0[i0].id == pairs0[k0].0 && files0[j0].id
            == pairs0[k0].1);
    }
}

/// A pair list whose every pair occurs in a bounded list is bounded.
proof fn lemma_pairs_bounded_preserved(pairs0: Seq<(i32, i32)>, pairs1: Seq<(i32, i32)>, bound: i32)
    requires
        spec_pairs_bounded(pairs0, bound),
        forall|k: int| 0 <= k < pairs1.len() ==> pairs0.contains(#[trigger] pairs1[k]),
    ensures
        spec_pairs_bounded(pairs1, bound),
{
    assert forall|k: int|
        0 <= k < pairs1.len() implies (#[trigger] pairs1[k]).0 < bound && pairs1[k].1 < bound by {
        let k0 = choose|k0: int| 0 <= k0 < pairs0.len() && pairs0[k0] == pairs1[k];
    }
}

/// Filtered notes keep ids and owners of original rows.
proof fn lemma_notes_filter_proj(s: Seq<NoteRow>, pred: spec_fn(NoteRow) -> bool)
    ensures
        forall|i: int|
            0 <= i < s.filter(pred).len() ==> spec_note_row_known(
                s,
                (#[trigger] s.filter(pred)[i]).id,
                s.filter(pred)[i].user_id,
            ),
{
    lemma_filter_elements(s, pred);
    assert forall|i: int|
        0 <= i < s.filter(pred).len() implies spec_note_row_known(
        s,
        (#[trigger] s.filter(pred)[i]).id,
        s.filter(pred)[i].user_id,
    ) by {
        let w = choose|w: int| 0 <= w < s.len() && s[w] == s.filter(pred)[i];
        assert(s[w].id == s.filter(pred)[i].id && s[w].user_id == s.filter(pred)[i].user_id);
    }
}

/// Notes keep their own ids and owners.
proof fn lemma_notes_proj_self(s: Seq<NoteRow>)
    ensures
        forall|i: int|
            0 <= i < s.len() ==> spec_note_row_known(s, (#[trigger] s[i]).id, s[i].user_id),
{
    assert forall|i: int|
        0 <= i < s.len() implies spec_note_row_known(s, (#[trigger] s[i]).id, s[i].user_id) by {
        assert(s[i].id == s[i].id && s[i].user_id == s[i].user_id);
    }
}

/// Filtered tags keep ids and owners of original rows.
proof fn lemma_tags_filter_proj(s: Seq<TagRow>, pred: spec_fn(TagRow) -> bool)
    ensures
        forall|i: int|
            0 <= i < s.filter(pred).len() ==> spec_tag_row_known(
                s,
                (#[trigger] s.filter(pred)[i]).id,
                s.filter(pred)[i].user_id,
            ),
{
    lemma_filter_elements(s, pred);
    assert forall|i: int|
        0 <= i < s.filter(pred).len() implies spec_tag_row_known(
        s,
        (#[trigger] s.filter(pred)[i]).id,
        s.filter(pred)[i].user_id,
    ) by {
        let w = choose|w: int| 0 <= w < s.len() && s[w] == s.filter(pred)[i];
        assert(s[w].id == s.filter(pred)[i].id && s[w].user_id == s.filter(pred)[i].user_id);
    }
}

/// Tags keep their own ids and owners.
proof fn lemma_tags_proj_self(s: Seq<TagRow>)
    ensures
        forall|i: int|
            0 <= i < s.len() ==> spec_tag_row_known(s, (#[trigger] s[i]).id, s[i].user_id),
{
    assert forall|i: int|
        0 <= i < s.len() implies spec_tag_row_known(s, (#[trigger] s[i]).id, s[i].user_id) by {
        assert(s[i].id == s[i].id && s[i].user_id == s[i].user_id);
    }
}

/// Filtered files keep ids and owners of original rows.
proof fn lemma_files_filter_proj(s: Seq<FileRow>, pred: spec_fn(FileRow) -> bool)
    ensures
        forall|i: int|
            0 <= i < s.filter(pred).len() ==> spec_file_row_known(
                s,
                (#[trigger] s.filter(pred)[i]).id,
                s.filter(pred)[i].user_id,
            ),
{
    lemma_filter_elements(s, pred);
    assert forall|i: int|
        0 <= i < s.filter(pred).len() implies spec_file_row_known(
        s,
        (#[trigger] s.filter(pred)[i]).id,
        s.filter(pred)[i].user_id,
    ) by {
        let w = choose|w: int| 0 <= w < s.len() && s[w] == s.filter(pred)[i];
        assert(s[w].id == s.filter(pred)[i].id && s[w].user_id == s.filter(pred)[i].user_id);
    }
}

/// Files keep their own ids and owners.
proof fn lemma_files_proj_self(s: Seq<FileRow>)
    ensures
        forall|i: int|
            0 <= i < s.len() ==> spec_file_row_known(s, (#[trigger] s[i]).id, s[i].user_id),
{
    assert forall|i: int|
        0 <= i < s.len() implies spec_file_row_known(s, (#[trigger] s[i]).id, s[i].user_id) by {
        assert(s[i].id == s[i].id && s[i].user_id == s[i].user_id);
    }
}

/// Shelves keep their own ids and owners.
proof fn lemma_shelves_proj_self(s: Seq<ShelfRow>)
    ensures
        forall|i: int|
            0 <= i < s.len() ==> spec_shelf_row_known(s, (#[trigger] s[i]).id, s[i].user_id),
{
    assert forall|i: int|
        0 <= i < s.len() implies spec_shelf_row_known(s, (#[trigger] s[i]).id, s[i].user_id) by {
        assert(s[i].id == s[i].id && s[i].user_id == s[i].user_id);
    }
}

/// A shelf list updated in place at one index, keeping that row's id
/// and owner, keeps every row's id and owner.
proof fn lemma_shelves_update_proj(s0: Seq<ShelfRow>, s1: Seq<ShelfRow>, at: int)
    requires
        0 <= at < s0.len(),
        s1 == s0.update(at, s1[at]),
        s1[at].id == s0[at].id,
        s1[at].user_id == s0[at].user_id,
    ensures
        forall|i: int|
            0 <= i < s1.len() ==> spec_shelf_row_known(s0, (#[trigger] s1[i]).id, s1[i].user_id),
{
    assert forall|i: int|
        0 <= i < s1.len() implies spec_shelf_row_known(s0, (#[trigger] s1[i]).id, s1[i].user_id) by {
        if i != at {
            assert(s1[i] == s0[i]);
        }
        assert(s0[i].id == s1[i].id && s0[i].user_id == s1[i].user_id);
    }
}

/// Every element of a filtered sequence is an element of the original.
pub proof fn lemma_filter_elements<A>(s: Seq<A>, pred: spec_fn(A) -> bool)
    ensures
        forall|i: int|
            0 <= i < s.filter(pred).len() ==> exists|k: int|
                0 <= k < s.len() && s[k] == #[trigger] s.filter(pred)[i],
    decreases s.len(),
{
    reveal(Seq::filter);
    if s.len() > 0 {
        let dl = s.drop_last();
        lemma_filter_elements(dl, pred);
        assert forall|i: int| 0 <= i < s.filter(pred).len() implies exists|k: int|
            0 <= k < s.len() && s[k] == #[trigger] s.filter(pred)[i] by {
            if i < dl.filter(pred).len() {
                assert(s.filter(pred)[i] == dl.filter(pred)[i]);
                let k = choose|k: int| 0 <= k < dl.len() && dl[k] == dl.filter(pred)[i];
                assert(s[k] == dl[k]);
            } else {
                assert(s.filter(pred)[i] == s.last());
                assert(s[s.len() - 1] == s.last());
            }
        }
    }
}

/// Filtering a sequence strictly sorted by `key` keeps it strictly
/// sorted by `key`.
pub proof fn lemma_filter_sorted_by_key<A>(
    s: Seq<A>,
    pred: spec_fn(A) -> bool,
    key: spec_fn(A) -> int,
)
    requires
        forall|p: int, q: int| 0 <= p < q < s.len() ==> key(s[p]) < key(s[q]),
    ensures
        forall|p: int, q: int|
            #![trigger s.filter(pred)[p], s.filter(pred)[q]]
            0 <= p < q < s.filter(pred).len() ==> key(s.filter(pred)[p]) < key(s.filter(pred)[q]),
    decreases s.len(),
{
    reveal(Seq::filter);
    if s.len() > 0 {
        let dl = s.drop_last();
        lemma_filter_sorted_by_key(dl, pred, key);
        lemma_filter_elements(dl, pred);
        assert forall|p: int, q: int|
            #![trigger s.filter(pred)[p], s.filter(pred)[q]]
            0 <= p < q < s.filter(pred).len() implies key(s.filter(pred)[p]) < key(
            s.filter(pred)[q],
        ) by {
            if q < dl.filter(pred).len() {
                assert(s.filter(pred)[p] == dl.filter(pred)[p]);
                assert(s.filter(pred)[q] == dl.filter(pred)[q]);
            } else {
                assert(s.filter(pred)[q] == s.last());
                assert(s.filter(pred)[p] == dl.filter(pred)[p]);
                let k = choose|k: int| 0 <= k < dl.len() && dl[k] == dl.filter(pred)[p];
                assert(key(s[k]) < key(s[s.len() - 1]));
            }
        }
    }
}

impl Database {
    /// Deletes the principal's note: its tag relations, its file
    /// relations, its owned files' rows, and the note itself, in one
    /// transaction. Returns the removed file rows so their stored
    /// objects can be deleted. A note the principal does not own is not
    /// found, and nothing changes.
    pub fn delete_note(&mut self, user_id: i32, id: i32) -> (r: Result<Vec<FileRow>, ServiceError>)
        requires
            old(self).wf(),
        ensures
            final(self).wf(),
            match r {
                Ok(removed) => {
                    &&& old(self).spec_note_exists(user_id, id)
                    &&& final(self).notes@ == old(self).notes@.filter(|n: NoteRow| n.id != id)
                    &&& final(self).note_tags@ == old(self).note_tags@.filter(
                        |p: (i32, i32)| p.0 != id,
                    )
                    &&& final(self).note_files@ == old(self).note_files@.filter(
                        |p: (i32, i32)| p.0 != id,
                    )
                    &&& removed@ == old(self).files@.filter(
                        spec_joined_file(old(self).note_files@, id, user_id),
                    )
                    &&& final(self).files@ == old(self).files@.filter(
                        |f: FileRow|
                            !(spec_pair_in(old(self).note_files@, id, f.id) && f.user_id
                                == user_id),
                    )
                    &&& !final(self).spec_note_exists(user_id, id)
                },
                Err(e) => e == ServiceError::NotFound && !old(self).spec_note_exists(user_id, id)
                    && *final(self) == *old(self),
            },
            final(self).tags@ == old(self).tags@,
            final(self).shelves@ == old(self).shelves@,
            final(self).shelf_files@ == old(self).shelf_files@,
            final(self).next_id == old(self).next_id,
    {
        if self.find_note_index(user_id, id).is_none() {
            return Err(ServiceError::NotFound);
        }
        let (removed, kept) = split_files_by_join(&self.files, &self.note_files, id, user_id);
        let ghost pre_files = self.files@;
        let ghost pre_notes = self.notes@;
        let ghost pre_nt = self.note_tags@;
        let ghost pre_nf = self.note_files@;
        self.files = kept;
        self.note_tags = pairs_without_first(&self.note_tags, id);
        self.note_files = pairs_without_first(&self.note_files, id);
        let mut kept_notes: Vec<NoteRow> = Vec::new();
        let mut i: usize = 0;
        proof {
            reveal(Seq::filter);
            assert(pre_notes.take(0).filter(|n: NoteRow| n.id != id) =~= kept_notes@);
        }
        while i < self.notes.len()
            invariant
                i <= pre_notes.len(),
                self.notes@ == pre_notes,
                kept_notes@ == pre_notes.take(i as int).filter(|n: NoteRow| n.id != id),
            decreases pre_notes.len() - i,
        {
            proof {
                reveal(Seq::filter);
                assert(pre_notes.take(i as int + 1).drop_last() =~= pre_notes.take(i as int));
                assert(pre_notes.take(i as int + 1).last() == pre_notes[i as int]);
            }
            if self.notes[i].id != id {
                kept_notes.push(self.notes[i].duplicate());
            }
            i = i + 1;
        }
        proof {
            assert(pre_notes.take(pre_notes.len() as int) =~= pre_notes);
        }
        self.notes = kept_notes;
        proof {
            lemma_filter_sorted_by_key(pre_notes, |n: NoteRow| n.id != id, |n: NoteRow| n.id as int);
            lemma_filter_elements(pre_notes, |n: NoteRow| n.id != id);
            lemma_filter_sorted_by_key(
                pre_files,
                |f: FileRow| !(spec_pair_in(pre_nf, id, f.id) && f.user_id == user_id),
                |f: FileRow| f.id as int,
            );
            lemma_filter_elements(
                pre_files,
                |f: FileRow| !(spec_pair_in(pre_nf, id, f.id) && f.user_id == user_id),
            );
            lemma_filter_distinct(pre_nt, |p: (i32, i32)| p.0 != id);
            assert forall|k: int| 0 <= k < self.notes@.len() implies !((
            #[trigger] self.notes@[k]).id == id && self.notes@[k].user_id == user_id) by {}
            lemma_filter_elements(pre_nt, |p: (i32, i32)| p.0 != id);
            lemma_filter_elements(pre_nf, |p: (i32, i32)| p.0 != id);
            lemma_pairs_bounded_preserved(pre_nt, self.note_tags@, self.next_id);
            lemma_pairs_bounded_preserved(pre_nf, self.note_files@, self.next_id);
            lemma_pairs_subset_self(self.shelf_files@);
            lemma_notes_filter_proj(pre_notes, |n: NoteRow| n.id != id);
            lemma_files_filter_proj(
                pre_files,
                |f: FileRow| !(spec_pair_in(pre_nf, id, f.id) && f.user_id == user_id),
            );
            lemma_tags_proj_self(self.tags@);
            lemma_shelves_proj_self(self.shelves@);
            lemma_note_tag_coupled_preserved(
                pre_notes,
                self.tags@,
                pre_nt,
                self.notes@,
                self.tags@,
                self.note_tags@,
            );
            lemma_note_file_coupled_preserved(
                pre_notes,
                pre_files,
                pre_nf,
                self.notes@,
                self.files@,
                self.note_files@,
            );
            lemma_shelf_file_coupled_preserved(
                self.shelves@,
                pre_files,
                self.shelf_files@,
                self.shelves@,
                self.files@,
                self.shelf_files@,
            );
        }
        Ok(removed)
    }

    /// Whether the principal has a shelf.
    pub open spec fn spec_user_shelf_exists(self, user_id: i32) -> bool {
        exists|i: int|
            0 <= i < self.shelves@.len() && (#[trigger] self.shelves@[i]).user_id == user_id
    }

    /// The index of the principal's shelf.
    fn find_shelf_by_user(&self, user_id: i32) -> (r: Option<usize>)
        ensures
            match r {
                Some(i) => i < self.shelves@.len() && self.shelves@[i as int].user_id == user_id,
                None => !self.spec_user_shelf_exists(user_id),
            },
    {
        let mut i: usize = 0;
        while i < self.shelves.len()
            invariant
                i <= self.shelves@.len(),
                forall|j: int| 0 <= j < i ==> (#[trigger] self.shelves@[j]).user_id != user_id,
            decreases self.shelves@.len() - i,
        {
            if self.shelves[i].user_id == user_id {
                return Some(i);
            }
            i = i + 1;
        }
        None
    }

    /// The principal's shelf and the files attached to it, the shelf
    /// created empty on first read.
    pub fn read_shelf(&mut self, user_id: i32, now: i64) -> (r: (ShelfRow, Vec<FileRow>))
        requires
            old(self).wf(),
            old(self).next_id < i32::MAX,
        ensures
            final(self).wf(),
            r.0.user_id == user_id,
            old(self).spec_user_shelf_exists(user_id) ==> *final(self) == *old(self) && exists|
                i: int,
            |
                0 <= i < old(self).shelves@.len() && old(self).shelves@[i] == r.0,
            !old(self).spec_user_shelf_exists(user_id) ==> {
                &&& final(self).shelves@ == old(self).shelves@.push(r.0)
                &&& r.0.id == old(self).next_id
                &&& r.0.text@.len() == 0
                &&& r.0.created == now
                &&& r.0.times_edited == 0
                &&& final(self).notes@ == old(self).notes@
                &&& final(self).tags@ == old(self).tags@
                &&& final(self).files@ == old(self).files@
                &&& final(self).note_tags@ == old(self).note_tags@
                &&& final(self).note_files@ == old(self).note_files@
                &&& final(self).shelf_files@ == old(self).shelf_files@
            },
            r.1@ == final(self).files@.filter(
                spec_joined_file(final(self).shelf_files@, r.0.id, user_id),
            ),
    {
        let idx = match self.find_shelf_by_user(user_id) {
            Some(i) => i,
            None => {
                let row = ShelfRow {
                    id: self.next_id,
                    user_id,
                    text: String::new(),
                    created: now,
                    last_edited: now,
                    times_edited: 0,
                };
                proof {
                }
                self.shelves.push(row);
                self.next_id = self.next_id + 1;
                let i = self.shelves.len() - 1;
                let shelf = self.shelves[i].duplicate();
                let (attached, _kept) = split_files_by_join(
                    &self.files,
                    &self.shelf_files,
                    shelf.id,
                    user_id,
                );
                return (shelf, attached);
            },
        };
        let shelf = self.shelves[idx].duplicate();
        let (attached, _kept) = split_files_by_join(
            &self.files,
            &self.shelf_files,
            shelf.id,
            user_id,
        );
        (shelf, attached)
    }

    /// Replaces the shelf's text, stamps the modification time and bumps
    /// the edit counter. A principal without a shelf is not found.
    pub fn update_shelf(&mut self, user_id: i32, text: String, now: i64) -> (r: Result<
        ShelfRow,
        ServiceError,
    >)
        requires
            old(self).wf(),
            forall|i: int|
                0 <= i < old(self).shelves@.len() ==> (#[trigger] old(self).shelves@[i]).times_edited < i32::MAX,
        ensures
            final(self).wf(),
            match r {
                Ok(row) => {
                    &&& old(self).spec_user_shelf_exists(user_id)
                    &&& row.user_id == user_id
                    &&& row.text == text
                    &&& row.last_edited == now
                    &&& exists|i: int|
                        0 <= i < old(self).shelves@.len() && (#[trigger] old(self).shelves@[i]).user_id == user_id && row.id == old(self).shelves@[i].id
                            && row.created == old(self).shelves@[i].created && row.times_edited
                            == old(self).shelves@[i].times_edited + 1 && final(self).shelves@
                            == old(self).shelves@.update(i, row)
                },
                Err(e) => e == ServiceError::NotFound && !old(self).spec_user_shelf_exists(user_id)
                    && *final(self) == *old(self),
            },
            final(self).notes@ == old(self).notes@,
            final(self).tags@ == old(self).tags@,
            final(self).files@ == old(self).files@,
            final(self).note_tags@ == old(self).note_tags@,
            final(self).note_files@ == old(self).note_files@,
            final(self).shelf_files@ == old(self).shelf_files@,
    {
        let idx = match self.find_shelf_by_user(user_id) {
            Some(i) => i,
            None => {
                return Err(ServiceError::NotFound);
            },
        };
        let mut row = self.shelves.remove(idx);
        row.text = text;
        row.last_edited = now;
        row.times_edited = row.times_edited + 1;
        let out = row.duplicate();
        self.shelves.insert(idx, row);
        proof {
            assert(self.shelves@ =~= old(self).shelves@.update(
                idx as int,
                self.shelves@[idx as int],
            ));
        }
        Ok(out)
    }

    /// Empties the shelf's text, detaches its files and deletes their
    /// rows, returning them so their stored objects can be deleted.
    pub fn clear_shelf(&mut self, user_id: i32, now: i64) -> (r: Result<
        (ShelfRow, Vec<FileRow>),
        ServiceError,
    >)
        requires
            old(self).wf(),
            forall|i: int|
                0 <= i < old(self).shelves@.len() ==> (#[trigger] old(self).shelves@[i]).times_edited < i32::MAX,
        ensures
            final(self).wf(),
            match r {
                Ok((row, removed)) => {
                    &&& old(self).spec_user_shelf_exists(user_id)
                    &&& row.user_id == user_id
                    &&& row.text@.len() == 0
                    &&& row.last_edited == now
                    &&& exists|i: int|
                        0 <= i < old(self).shelves@.len() && (#[trigger] old(self).shelves@[i]).user_id == user_id && row.id == old(self).shelves@[i].id
                            && row.times_edited == old(self).shelves@[i].times_edited + 1 && final(self).shelves@ == old(self).shelves@.update(i, row)
                    &&& removed@ == old(self).files@.filter(
                        spec_joined_file(old(self).shelf_files@, row.id, user_id),
                    )
                    &&& final(self).files@ == old(self).files@.filter(
                        |f: FileRow|
                            !(spec_pair_in(old(self).shelf_files@, row.id, f.id) && f.user_id
                                == user_id),
                    )
                    &&& final(self).shelf_files@ == old(self).shelf_files@.filter(
                        |p: (i32, i32)| p.0 != row.id,
                    )
                },
                Err(e) => e == ServiceError::NotFound && !old(self).spec_user_shelf_exists(user_id)
                    && *final(self) == *old(self),
            },
            final(self).notes@ == old(self).notes@,
            final(self).tags@ == old(self).tags@,
            final(self).note_tags@ == old(self).note_tags@,
            final(self).note_files@ == old(self).note_files@,
            final(self).next_id == old(self).next_id,
    {
        let idx = match self.find_shelf_by_user(user_id) {
            Some(i) => i,
            None => {
                return Err(ServiceError::NotFound);
            },
        };
        let mut row = self.shelves.remove(idx);
        row.text = String::new();
        row.last_edited = now;
        row.times_edited = row.times_edited + 1;
        let out = row.duplicate();
        self.shelves.insert(idx, row);
        proof {
            assert(self.shelves@ =~= old(self).shelves@.update(
                idx as int,
                self.shelves@[idx as int],
            ));
        }
        let (removed, kept) = split_files_by_join(&self.files, &self.shelf_files, out.id, user_id);
        let ghost pre_files = self.files@;
        let ghost pre_sf = self.shelf_files@;
        self.files = kept;
        self.shelf_files = pairs_without_first(&self.shelf_files, out.id);
        proof {
            lemma_filter_sorted_by_key(
                pre_files,
                |f: FileRow| !(spec_pair_in(pre_sf, out.id, f.id) && f.user_id == user_id),
                |f: FileRow| f.id as int,
            );
            lemma_filter_elements(
                pre_files,
                |f: FileRow| !(spec_pair_in(pre_sf, out.id, f.id) && f.user_id == user_id),
            );
            lemma_filter_elements(pre_sf, |p: (i32, i32)| p.0 != out.id);
            lemma_pairs_bounded_preserved(pre_sf, self.shelf_files@, self.next_id);
            lemma_pairs_subset_self(self.note_files@);
            lemma_shelves_update_proj(old(self).shelves@, self.shelves@, idx as int);
            lemma_files_filter_proj(
                pre_files,
                |f: FileRow| !(spec_pair_in(pre_sf, out.id, f.id) && f.user_id == user_id),
            );
            lemma_notes_proj_self(self.notes@);
            lemma_note_file_coupled_preserved(
                self.notes@,
                pre_files,
                self.note_files@,
                self.notes@,
                self.files@,
                self.note_files@,
            );
            lemma_shelf_file_coupled_preserved(
                old(self).shelves@,
                pre_files,
                pre_sf,
                self.shelves@,
                self.files@,
                self.shelf_files@,
            );
        }
        Ok((out, removed))
    }

    /// Verifies the principal's relation to the attachment target,
    /// inserts the file row and the join row linking it to the target.
    /// Fails without any change when the target is not the principal's.
    pub fn link_file(
        &mut self,
        user_id: i32,
        target: AttachTarget,
        hash: String,
        name: String,
        size: i64,
        now: i64,
    ) -> (r: Result<FileRow, ServiceError>)
        requires
            old(self).wf(),
            old(self).next_id < i32::MAX,
        ensures
            final(self).wf(),
            match r {
                Ok(row) => {
                    &&& old(self).spec_attach_target_exists(user_id, target)
                    &&& row.id == old(self).next_id
                    &&& row.user_id == user_id
                    &&& row.hash == hash
                    &&& row.name == name
                    &&& row.size == size
                    &&& row.created == now
                    &&& final(self).files@ == old(self).files@.push(row)
                    &&& final(self).note_files@ == (match target {
                        AttachTarget::NoteId(nid) => old(self).note_files@.push((nid, row.id)),
                        AttachTarget::ShelfId(_) => old(self).note_files@,
                    })
                    &&& final(self).shelf_files@ == (match target {
                        AttachTarget::ShelfId(sid) => old(self).shelf_files@.push((sid, row.id)),
                        AttachTarget::NoteId(_) => old(self).shelf_files@,
                    })
                },
                Err(e) => e == ServiceError::NotFound && !old(self).spec_attach_target_exists(
                    user_id,
                    target,
                ) && *final(self) == *old(self),
            },
            final(self).notes@ == old(self).notes@,
            final(self).tags@ == old(self).tags@,
            final(self).shelves@ == old(self).shelves@,
            final(self).note_tags@ == old(self).note_tags@,
    {
        if !self.attach_target_exists(user_id, &target) {
            return Err(ServiceError::NotFound);
        }
        let row = FileRow { id: self.next_id, user_id, hash, name, size, created: now };
        let out = row.duplicate();
        self.files.push(row);
        self.next_id = self.next_id + 1;
        match target {
            AttachTarget::NoteId(nid) => {
                self.note_files.push((nid, out.id));
            },
            AttachTarget::ShelfId(sid) => {
                self.shelf_files.push((sid, out.id));
            },
        }
        Ok(out)
    }

    /// Deletes the principal's file row and every join row referencing
    /// it, returning the row so its stored object can be deleted. A file
    /// the principal does not own is not found, and nothing changes.
    pub fn delete_file(&mut self, user_id: i32, id: i32) -> (r: Result<FileRow, ServiceError>)
        requires
            old(self).wf(),
        ensures
            final(self).wf(),
            match r {
                Ok(row) => {
                    &&& old(self).spec_file_exists(user_id, id)
                    &&& row.id == id
                    &&& row.user_id == user_id
                    &&& exists|i: int|
                        0 <= i < old(self).files@.len() && old(self).files@[i] == row
                    &&& final(self).files@ == old(self).files@.filter(
                        |f: FileRow| !(f.id == id && f.user_id == user_id),
                    )
                    &&& final(self).note_files@ == old(self).note_files@.filter(
                        |p: (i32, i32)| p.1 != id,
                    )
                    &&& final(self).shelf_files@ == old(self).shelf_files@.filter(
                        |p: (i32, i32)| p.1 != id,
                    )
                    &&& !final(self).spec_file_exists(user_id, id)
                },
                Err(e) => e == ServiceError::NotFound && !old(self).spec_file_exists(user_id, id)
                    && *final(self) == *old(self),
            },
            final(self).notes@ == old(self).notes@,
            final(self).tags@ == old(self).tags@,
            final(self).shelves@ == old(self).shelves@,
            final(self).note_tags@ == old(self).note_tags@,
            final(self).next_id == old(self).next_id,
    {
        let idx = match self.find_file_index(user_id, id) {
            Some(i) => i,
            None => {
                return Err(ServiceError::NotFound);
            },
        };
        let out = self.files[idx].duplicate();
        self.note_files = pairs_without_second(&self.note_files, id);
        self.shelf_files = pairs_without_second(&self.shelf_files, id);
        let ghost pre_files = self.files@;
        let mut kept: Vec<FileRow> = Vec::new();
        let mut i: usize = 0;
        proof {
            reveal(Seq::filter);
            assert(pre_files.take(0).filter(
                |f: FileRow| !(f.id == id && f.user_id == user_id),
            ) =~= kept@);
        }
        while i < self.files.len()
            invariant
                i <= pre_files.len(),
                self.files@ == pre_files,
                kept@ == pre_files.take(i as int).filter(
                    |f: FileRow| !(f.id == id && f.user_id == user_id),
                ),
            decreases pre_files.len() - i,
        {
            proof {
                reveal(Seq::filter);
                assert(pre_files.take(i as int + 1).drop_last() =~= pre_files.take(i as int));
                assert(pre_files.take(i as int + 1).last() == pre_files[i as int]);
            }
            if !(self.files[i].id == id && self.files[i].user_id == user_id) {
                kept.push(self.files[i].duplicate());
            }
            i = i + 1;
        }
        proof {
            assert(pre_files.take(pre_files.len() as int) =~= pre_files);
        }
        self.files = kept;
        proof {
            lemma_filter_sorted_by_key(
                pre_files,
                |f: FileRow| !(f.id == id && f.user_id == user_id),
                |f: FileRow| f.id as int,
            );
            lemma_filter_elements(pre_files, |f: FileRow| !(f.id == id && f.user_id == user_id));
            lemma_filter_elements(old(self).note_files@, |p: (i32, i32)| p.1 != id);
            lemma_filter_elements(old(self).shelf_files@, |p: (i32, i32)| p.1 != id);
            lemma_pairs_bounded_preserved(
                old(self).note_files@,
                self.note_files@,
                self.next_id,
            );
            lemma_pairs_bounded_preserved(
                old(self).shelf_files@,
                self.shelf_files@,
                self.next_id,
            );
            lemma_files_filter_proj(pre_files, |f: FileRow| !(f.id == id && f.user_id == user_id));
            lemma_notes_proj_self(self.notes@);
            lemma_shelves_proj_self(self.shelves@);
            lemma_note_file_coupled_preserved(
                self.notes@,
                pre_files,
                old(self).note_files@,
                self.notes@,
                self.files@,
                self.note_files@,
            );
            lemma_shelf_file_coupled_preserved(
                self.shelves@,
                pre_files,
                old(self).shelf_files@,
                self.shelves@,
                self.files@,
                self.shelf_files@,
            );
        }
        Ok(out)
    }

    /// Converts the shelf into a new note: creates the note with the
    /// given title and text, moves the shelf's file relations onto it,
    /// and clears the shelf. A principal without a shelf is not found.
    pub fn convert_to_note(&mut self, user_id: i32, title: String, text: String, now: i64) -> (r:
        Result<ShelfRow, ServiceError>)
        requires
            old(self).wf(),
            old(self).next_id < i32::MAX,
            forall|i: int|
                0 <= i < old(self).shelves@.len() ==> (#[trigger] old(self).shelves@[i]).times_edited < i32::MAX,
        ensures
            final(self).wf(),
            match r {
                Ok(row) => {
                    &&& old(self).spec_user_shelf_exists(user_id)
                    &&& row.user_id == user_id
                    &&& row.text@.len() == 0
                    &&& row.last_edited == now
                    &&& exists|i: int|
                        0 <= i < old(self).shelves@.len() && (#[trigger] old(self).shelves@[i]).user_id == user_id && row.id == old(self).shelves@[i].id
                            && row.times_edited == old(self).shelves@[i].times_edited + 1 && final(self).shelves@ == old(self).shelves@.update(i, row)
                    &&& final(self).notes@.len() == old(self).notes@.len() + 1
                    &&& final(self).notes@.drop_last() == old(self).notes@
                    &&& final(self).notes@.last().id == old(self).next_id
                    &&& final(self).notes@.last().user_id == user_id
                    &&& final(self).notes@.last().title == title
                    &&& final(self).notes@.last().text == text
                    &&& final(self).shelf_files@ == old(self).shelf_files@.filter(
                        |p: (i32, i32)| p.0 != row.id,
                    )
                    &&& final(self).note_files@ == old(self).note_files@ + old(self).shelf_files@.filter(|p: (i32, i32)| p.0 == row.id).map_values(
                        |p: (i32, i32)| (old(self).next_id, p.1),
                    )
                },
                Err(e) => e == ServiceError::NotFound && !old(self).spec_user_shelf_exists(user_id)
                    && *final(self) == *old(self),
            },
            final(self).tags@ == old(self).tags@,
            final(self).files@ == old(self).files@,
            final(self).note_tags@ == old(self).note_tags@,
    {
        let idx = match self.find_shelf_by_user(user_id) {
            Some(i) => i,
            None => {
                return Err(ServiceError::NotFound);
            },
        };
        let mut row = self.shelves.remove(idx);
        row.text = String::new();
        row.last_edited = now;
        row.times_edited = row.times_edited + 1;
        let out = row.duplicate();
        self.shelves.insert(idx, row);
        proof {
            assert(self.shelves@ =~= old(self).shelves@.update(
                idx as int,
                self.shelves@[idx as int],
            ));
        }
        let note_id = self.next_id;
        let note_row = NoteRow {
            id: note_id,
            user_id,
            title,
            text,
            created: now,
            last_edited: now,
            times_edited: 0,
        };
        self.notes.push(note_row);
        self.next_id = self.next_id + 1;
        let moved = pairs_with_first(&self.shelf_files, out.id);
        let ghost pre_nf = self.note_files@;
        let ghost moved_view = moved@;
        let mut m: usize = 0;
        proof {
            assert(self.note_files@ =~= pre_nf + moved_view.take(0).map_values(
                |p: (i32, i32)| (note_id, p.1),
            ));
        }
        let ghost frozen = *self;
        while m < moved.len()
            invariant
                m <= moved_view.len(),
                moved@ == moved_view,
                self.note_files@ == pre_nf + moved_view.take(m as int).map_values(
                    |p: (i32, i32)| (note_id, p.1),
                ),
                self.notes@ == frozen.notes@,
                self.tags@ == frozen.tags@,
                self.files@ == frozen.files@,
                self.shelves@ == frozen.shelves@,
                self.note_tags@ == frozen.note_tags@,
                self.shelf_files@ == frozen.shelf_files@,
                self.next_id == frozen.next_id,
            decreases moved_view.len() - m,
        {
            self.note_files.push((note_id, moved[m].1));
            proof {
                assert(moved_view.take(m as int + 1).map_values(
                    |p: (i32, i32)| (note_id, p.1),
                ) =~= moved_view.take(m as int).map_values(|p: (i32, i32)| (note_id, p.1)).push(
                    (note_id, moved_view[m as int].1),
                ));
                assert(self.note_files@ =~= pre_nf + moved_view.take(m as int + 1).map_values(
                    |p: (i32, i32)| (note_id, p.1),
                ));
            }
            m = m + 1;
        }
        proof {
            assert(moved_view.take(moved_view.len() as int) =~= moved_view);
        }
        self.shelf_files = pairs_without_first(&self.shelf_files, out.id);
        proof {
            assert(self.notes@.drop_last() =~= old(self).notes@);
            assert(self.note_files@ =~= old(self).note_files@ + old(self).shelf_files@.filter(
                |p: (i32, i32)| p.0 == out.id,
            ).map_values(|p: (i32, i32)| (old(self).next_id, p.1)));
            assert forall|i: int, j: int|
                0 <= i < j < self.notes@.len() implies self.notes@[i].id < self.notes@[j].id by {
                if j == self.notes@.len() - 1 {
                    assert(self.notes@[i] == old(self).notes@[i]);
                } else {
                    assert(self.notes@[i] == old(self).notes@[i]);
                    assert(self.notes@[j] == old(self).notes@[j]);
                }
            }
            let sf_filter = old(self).shelf_files@.filter(|p: (i32, i32)| p.0 == out.id);
            let movedv = sf_filter.map_values(|p: (i32, i32)| (old(self).next_id, p.1));
            assert(old(self).shelves@[idx as int].id == out.id);
            assert(old(self).shelves@[idx as int].user_id == user_id);
            lemma_filter_elements(old(self).shelf_files@, |p: (i32, i32)| p.0 == out.id);
            lemma_filter_elements(old(self).shelf_files@, |p: (i32, i32)| p.0 != out.id);
            lemma_pairs_bounded_preserved(
                old(self).shelf_files@,
                self.shelf_files@,
                old(self).next_id,
            );
            lemma_shelves_update_proj(old(self).shelves@, self.shelves@, idx as int);
            lemma_files_proj_self(self.files@);
            lemma_shelf_file_coupled_preserved(
                old(self).shelves@,
                self.files@,
                old(self).shelf_files@,
                self.shelves@,
                self.files@,
                self.shelf_files@,
            );
            assert forall|k: int, i: int, j: int|
                #![trigger self.note_tags@[k], self.notes@[i], self.tags@[j]]
                0 <= k < self.note_tags@.len() && 0 <= i < self.notes@.len() && 0 <= j
                    < self.tags@.len() && self.notes@[i].id == self.note_tags@[k].0
                    && self.tags@[j].id == self.note_tags@[k].1 implies self.notes@[i].user_id
                == self.tags@[j].user_id by {
                assert(self.note_tags@[k] == old(self).note_tags@[k]);
                if i < old(self).notes@.len() {
                    assert(self.notes@[i] == old(self).notes@[i]);
                } else {
                    assert(self.notes@[i].id == old(self).next_id);
                    assert(old(self).note_tags@[k].0 < old(self).next_id);
                }
            }
            assert forall|k: int, i: int, j: int|
                #![trigger self.note_files@[k], self.notes@[i], self.files@[j]]
                0 <= k < self.note_files@.len() && 0 <= i < self.notes@.len() && 0 <= j
                    < self.files@.len() && self.notes@[i].id == self.note_files@[k].0
                    && self.files@[j].id == self.note_files@[k].1 implies self.notes@[i].user_id
                == self.files@[j].user_id by {
                if k < old(self).note_files@.len() {
                    assert(self.note_files@[k] == old(self).note_files@[k]);
                    if i < old(self).notes@.len() {
                        assert(self.notes@[i] == old(self).notes@[i]);
                    } else {
                        assert(self.notes@[i].id == old(self).next_id);
                        assert(old(self).note_files@[k].0 < old(self).next_id);
                    }
                } else {
                    let m = k - old(self).note_files@.len();
                    assert(self.note_files@[k] == movedv[m]);
                    assert(movedv[m] == (old(self).next_id, sf_filter[m].1));
                    assert(i == self.notes@.len() - 1) by {
                        if i < old(self).notes@.len() {
                            assert(self.notes@[i] == old(self).notes@[i]);
                        }
                    }
                    assert(self.notes@[i].user_id == user_id);
                    old(self).shelf_files@.lemma_filter_pred(
                        |p: (i32, i32)| p.0 == out.id,
                        m,
                    );
                    let k0 = choose|k0: int|
                        0 <= k0 < old(self).shelf_files@.len() && old(self).shelf_files@[k0]
                            == #[trigger] sf_filter[m];
                    assert(old(self).shelf_files@[k0].0 == out.id);
                    assert(old(self).shelf_files@[k0].1 == self.files@[j].id);
                    assert(old(self).shelves@[idx as int].user_id == self.files@[j].user_id);
                }
            }
            assert forall|k: int|
                0 <= k < self.note_files@.len() implies (#[trigger] self.note_files@[k]).0
                < self.next_id && self.note_files@[k].1 < self.next_id by {
                if k < old(self).note_files@.len() {
                    assert(self.note_files@[k] == old(self).note_files@[k]);
                } else {
                    let m = k - old(self).note_files@.len();
                    assert(self.note_files@[k] == movedv[m]);
                    assert(movedv[m] == (old(self).next_id, sf_filter[m].1));
                    let k0 = choose|k0: int|
                        0 <= k0 < old(self).shelf_files@.len() && old(self).shelf_files@[k0]
                            == #[trigger] sf_filter[m];
                }
            }
        }
        Ok(out)
    }
}

/// Filtering a sequence of pairwise distinct values keeps them pairwise
/// distinct.
pub proof fn lemma_filter_distinct<A>(s: Seq<A>, pred: spec_fn(A) -> bool)
    requires
        forall|p: int, q: int| 0 <= p < q < s.len() ==> s[p] != s[q],
    ensures
        forall|p: int, q: int|
            #![trigger s.filter(pred)[p], s.filter(pred)[q]]
            0 <= p < q < s.filter(pred).len() ==> s.filter(pred)[p] != s.filter(pred)[q],
    decreases s.len(),
{
    reveal(Seq::filter);
    if s.len() > 0 {
        let dl = s.drop_last();
        lemma_filter_distinct(dl, pred);
        lemma_filter_elements(dl, pred);
        assert forall|p: int, q: int|
            #![trigger s.filter(pred)[p], s.filter(pred)[q]]
            0 <= p < q < s.filter(pred).len() implies s.filter(pred)[p] != s.filter(pred)[q] by {
            if q < dl.filter(pred).len() {
                assert(s.filter(pred)[p] == dl.filter(pred)[p]);
                assert(s.filter(pred)[q] == dl.filter(pred)[q]);
            } else {
                assert(s.filter(pred)[q] == s.last());
                assert(s.filter(pred)[p] == dl.filter(pred)[p]);
                let k = choose|k: int| 0 <= k < dl.len() && dl[k] == dl.filter(pred)[p];
                assert(s[k] != s[s.len() - 1]);
            }
        }
    }
}

} // verus!
