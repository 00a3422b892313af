//! The attachment transfer engine: chunked ingestion against the content
//! store with all-or-nothing linkage and guaranteed cleanup of partial
//! writes, and chunked emission with a metadata-first part sequence.

use vstd::prelude::*;

use crate::content::ContentStore;
use crate::database::{AttachTarget, Database, FileRow};
use crate::errors::{spec_classify_db_error, DbErrorKind, ServiceError};

verus! {

/// The metadata carried by the first part of an ingestion stream.
#[derive(Debug)]
pub struct CreateFileMeta {
    pub user_id: i32,
    pub attach_id: Option<AttachTarget>,
    pub name: String,
}

/// One message part of an ingestion stream.
#[derive(Debug)]
pub struct CreateFilePart {
    pub metadata: Option<CreateFileMeta>,
    pub data: Vec<u8>,
}

/// What the transport yields next: a decoded part, or a failure — a
/// part that could not be read, or a write the store refused.
#[derive(Debug)]
pub enum IngestEvent {
    Part(CreateFilePart),
    Failed,
}

/// Whether the stream opens with a part carrying complete metadata.
pub open spec fn spec_valid_first(events: Seq<IngestEvent>) -> bool {
    &&& events.len() > 0
    &&& events[0] is Part
    &&& events[0]->Part_0.metadata is Some
    &&& events[0]->Part_0.metadata->0.attach_id is Some
}

/// The metadata of the stream's first part.
pub open spec fn spec_first_meta(events: Seq<IngestEvent>) -> CreateFileMeta {
    events[0]->Part_0.metadata->0
}

/// Whether every part after the first was decoded and written.
pub open spec fn spec_tail_ok(events: Seq<IngestEvent>) -> bool {
    forall|i: int| 1 <= i < events.len() ==> (#[trigger] events[i]) is Part
}

/// The bytes carried by a sequence of stream events, in stream order.
pub open spec fn spec_parts_bytes(s: Seq<IngestEvent>) -> Seq<u8>
    decreases s.len(),
{
    if s.len() == 0 {
        Seq::empty()
    } else {
        spec_parts_bytes(s.drop_last()) + (match s.last() {
            IngestEvent::Part(p) => p.data@,
            IngestEvent::Failed => Seq::empty(),
        })
    }
}

/// The summed byte length of a sequence of stream events' chunks.
pub open spec fn spec_parts_total(s: Seq<IngestEvent>) -> nat
    decreases s.len(),
{
    if s.len() == 0 {
        0
    } else {
        spec_parts_total(s.drop_last()) + (match s.last() {
            IngestEvent::Part(p) => p.data@.len(),
            IngestEvent::Failed => 0,
        })
    }
}

/// What an ingestion stores is exactly as long as the chunk lengths it
/// carried sum to; with `create_file_flow`'s contract, the File row's
/// size and the stored object's length both equal that sum.
pub proof fn lemma_ingested_size_is_chunk_sum(s: Seq<IngestEvent>)
    ensures
        spec_parts_bytes(s).len() == spec_parts_total(s),
    decreases s.len(),
{
    if s.len() > 0 {
        lemma_ingested_size_is_chunk_sum(s.drop_last());
    }
}

/// The decision cascade of one ingestion: which outcome the stream, the
/// store and the linkage transaction force, in the order the engine
/// checks them.
pub open spec fn spec_ingest_outcome(
    db: Database,
    store: ContentStore,
    key: Seq<char>,
    events: Seq<IngestEvent>,
    link_failure: Option<DbErrorKind>,
) -> Result<(), ServiceError> {
    if !spec_valid_first(events) {
        Err(ServiceError::InvalidArgument)
    } else if !db.spec_attach_target_exists(
        spec_first_meta(events).user_id,
        spec_first_meta(events).attach_id->0,
    ) {
        Err(ServiceError::InvalidArgument)
    } else if store.spec_contains(key) {
        Err(ServiceError::Internal)
    } else if !spec_tail_ok(events) {
        Err(ServiceError::InvalidArgument)
    } else {
        match link_failure {
            Some(k) => Err(spec_classify_db_error(k)),
            None => Ok(()),
        }
    }
}

/// Drives one ingestion stream against the store and the relational
/// store: validates the metadata-first protocol, verifies the target's
/// owner before any byte is written, writes each chunk in stream order
/// into a fresh object named `key`, sizes the object by inspecting it,
/// and commits the linkage. On every failure after the object was
/// created — a transport or write failure, or a refused linkage
/// transaction, stood for by `link_failure` — the object is deleted
/// before returning, so a failed ingestion leaves the store exactly as
/// it was.
pub fn create_file_flow(
    db: &mut Database,
    store: &mut ContentStore,
    key: String,
    events: &Vec<IngestEvent>,
    link_failure: Option<DbErrorKind>,
    now: i64,
) -> (r: Result<FileRow, ServiceError>)
    requires
        old(db).wf(),
        old(store).wf(),
        old(db).next_id < i32::MAX,
        spec_parts_bytes(events@.skip(1)).len() <= i64::MAX,
    ensures
        final(db).wf(),
        final(store).wf(),
        r is Ok <==> spec_ingest_outcome(*old(db), *old(store), key@, events@, link_failure) is Ok,
        r is Err ==> r->Err_0 == spec_ingest_outcome(
            *old(db),
            *old(store),
            key@,
            events@,
            link_failure,
        )->Err_0 && final(store).same_objects(*old(store)) && *final(db) == *old(db),
        r is Err && !old(store).spec_contains(key@) ==> !final(store).spec_contains(key@),
        r is Ok ==> ({
            let row = r->Ok_0;
            let meta = spec_first_meta(events@);
            let written = spec_parts_bytes(events@.skip(1));
            &&& final(store).spec_contains(key@)
            &&& final(store).spec_content(key@) == written
            &&& ContentStore::others_unchanged(*old(store), *final(store), key@)
            &&& row.size == written.len() as i64
            &&& row.hash == key
            &&& row.user_id == meta.user_id
            &&& row.name == meta.name
            &&& row.id == old(db).next_id
            &&& final(db).files@ == old(db).files@.push(row)
            &&& final(db).note_files@ == (match meta.attach_id->0 {
                AttachTarget::NoteId(nid) => old(db).note_files@.push((nid, row.id)),
                AttachTarget::ShelfId(_) => old(db).note_files@,
            })
            &&& final(db).shelf_files@ == (match meta.attach_id->0 {
                AttachTarget::ShelfId(sid) => old(db).shelf_files@.push((sid, row.id)),
                AttachTarget::NoteId(_) => old(db).shelf_files@,
            })
            &&& final(db).notes@ == old(db).notes@
            &&& final(db).tags@ == old(db).tags@
            &&& final(db).shelves@ == old(db).shelves@
            &&& final(db).note_tags@ == old(db).note_tags@
        }),
{
    if events.len() == 0 {
        return Err(ServiceError::InvalidArgument);
    }
    let (user_id, target, file_name) = match &events[0] {
        IngestEvent::Failed => {
            return Err(ServiceError::InvalidArgument);
        },
        IngestEvent::Part(p) => {
            match &p.metadata {
                Option::None => {
                    return Err(ServiceError::InvalidArgument);
                },
                Option::Some(meta) => {
                    match meta.attach_id {
                        Option::None => {
                            return Err(ServiceError::InvalidArgument);
                        },
                        Option::Some(att) => (meta.user_id, att, meta.name.clone()),
                    }
                },
            }
        },
    };
    if !db.attach_target_exists(user_id, &target) {
        return Err(ServiceError::InvalidArgument);
    }
    match store.create_object(key.clone()) {
        Ok(()) => {},
        Err(e) => {
            return Err(e);
        },
    }
    let mut i: usize = 1;
    proof {
        assert(events@.subrange(1, 1) =~= Seq::<IngestEvent>::empty());
        assert(store.spec_content(key@) =~= spec_parts_bytes(events@.subrange(1, 1)));
    }
    while i < events.len()
        invariant
            1 <= i <= events@.len(),
            store.wf(),
            store.spec_contains(key@),
            !old(store).spec_contains(key@),
            store.spec_content(key@) == spec_parts_bytes(events@.subrange(1, i as int)),
            ContentStore::others_unchanged(*old(store), *store, key@),
            forall|j: int| 1 <= j < i ==> (#[trigger] events@[j]) is Part,
            *db == *old(db),
            db.wf(),
        decreases events@.len() - i,
    {
        match &events[i] {
            IngestEvent::Failed => {
                store.delete_object(&key);
                proof {
                    assert(!spec_tail_ok(events@));
                }
                return Err(ServiceError::InvalidArgument);
            },
            IngestEvent::Part(p) => {
                let ghost pre_content = store.spec_content(key@);
                match store.append_object(&key, p.data.as_slice()) {
                    Ok(()) => {},
                    Err(_) => {
                        return Err(ServiceError::Internal);
                    },
                }
                proof {
                    assert(events@.subrange(1, i as int + 1).drop_last() =~= events@.subrange(
                        1,
                        i as int,
                    ));
                    assert(events@.subrange(1, i as int + 1).last() == events@[i as int]);
                    assert(store.spec_content(key@) =~= spec_parts_bytes(
                        events@.subrange(1, i as int + 1),
                    ));
                }
            },
        }
        i = i + 1;
    }
    proof {
        assert(events@.subrange(1, events@.len() as int) =~= events@.skip(1));
    }
    let size = match store.object_len(&key) {
        Ok(n) => n,
        Err(_) => {
            return Err(ServiceError::Internal);
        },
    };
    match link_failure {
        Option::Some(k) => {
            store.delete_object(&key);
            return Err(crate::errors::classify_db_error(k));
        },
        Option::None => {},
    }
    match db.link_file(user_id, target, key, file_name, size as i64, now) {
        Ok(row) => Ok(row),
        Err(_) => Err(ServiceError::Internal),
    }
}

/// Relies on `uuid::Uuid::new_v4` and its hyphenated rendering: a
/// collision-resistant random identifier, 36 characters long. The value
/// is random, so nothing more is promised of it.
#[verifier::external_body]
fn fresh_object_key() -> (r: String)
    ensures
        r@.len() == 36,
{
    uuid::Uuid::new_v4().to_string()
}

/// Drives one ingestion stream under a freshly drawn object name. The
/// name is random, so beyond `create_file_flow`'s guarantees only this
/// holds: a malformed stream or a missing target is rejected, a
/// well-formed stream fails only if the drawn name was already taken,
/// and a failed ingestion leaves both stores exactly as they were.
pub fn create_file(
    db: &mut Database,
    store: &mut ContentStore,
    events: &Vec<IngestEvent>,
    link_failure: Option<DbErrorKind>,
    now: i64,
) -> (r: Result<FileRow, ServiceError>)
    requires
        old(db).wf(),
        old(store).wf(),
        old(db).next_id < i32::MAX,
        spec_parts_bytes(events@.skip(1)).len() <= i64::MAX,
    ensures
        final(db).wf(),
        final(store).wf(),
        !spec_valid_first(events@) ==> r == Result::<FileRow, ServiceError>::Err(
            ServiceError::InvalidArgument,
        ),
        spec_valid_first(events@) && !old(db).spec_attach_target_exists(
            spec_first_meta(events@).user_id,
            spec_first_meta(events@).attach_id->0,
        ) ==> r == Result::<FileRow, ServiceError>::Err(ServiceError::InvalidArgument),
        r is Err ==> final(store).same_objects(*old(store)) && *final(db) == *old(db),
        spec_valid_first(events@) && old(db).spec_attach_target_exists(
            spec_first_meta(events@).user_id,
            spec_first_meta(events@).attach_id->0,
        ) && spec_tail_ok(events@) && link_failure is None ==> r is Ok || r
            == Result::<FileRow, ServiceError>::Err(ServiceError::Internal),
        r is Ok ==> ({
            let row = r->Ok_0;
            let meta = spec_first_meta(events@);
            let written = spec_parts_bytes(events@.skip(1));
            &&& spec_valid_first(events@)
            &&& spec_tail_ok(events@)
            &&& link_failure is None
            &&& old(db).spec_attach_target_exists(meta.user_id, meta.attach_id->0)
            &&& row.hash@.len() == 36
            &&& final(store).spec_contains(row.hash@)
            &&& final(store).spec_content(row.hash@) == written
            &&& ContentStore::others_unchanged(*old(store), *final(store), row.hash@)
            &&& row.size == written.len() as i64
            &&& row.user_id == meta.user_id
            &&& row.name == meta.name
            &&& row.id == old(db).next_id
            &&& final(db).files@ == old(db).files@.push(row)
            &&& final(db).note_files@ == (match meta.attach_id->0 {
                AttachTarget::NoteId(nid) => old(db).note_files@.push((nid, row.id)),
                AttachTarget::ShelfId(_) => old(db).note_files@,
            })
            &&& final(db).shelf_files@ == (match meta.attach_id->0 {
                AttachTarget::ShelfId(sid) => old(db).shelf_files@.push((sid, row.id)),
                AttachTarget::NoteId(_) => old(db).shelf_files@,
            })
            &&& final(db).notes@ == old(db).notes@
            &&& final(db).tags@ == old(db).tags@
            &&& final(db).shelves@ == old(db).shelves@
            &&& final(db).note_tags@ == old(db).note_tags@
        }),
{
    let key = fresh_object_key();
    create_file_flow(db, store, key, events, link_failure, now)
}

/// The contents of an object cut into transfer chunks: each chunk is
/// `c` bytes, except a shorter final one, and together they concatenate
/// back to the data.
pub open spec fn spec_chunks(data: Seq<u8>, c: nat) -> Seq<Seq<u8>>
    decreases data.len(),
{
    if c == 0 || data.len() == 0 {
        Seq::empty()
    } else if data.len() <= c {
        seq![data]
    } else {
        seq![data.take(c as int)] + spec_chunks(data.skip(c as int), c)
    }
}

/// Cuts an object's bytes into chunks of at most `chunk_size`.
pub fn chunk_object(data: &Vec<u8>, chunk_size: usize) -> (r: Vec<Vec<u8>>)
    requires
        chunk_size > 0,
    ensures
        r.deep_view() == spec_chunks(data@, chunk_size as nat),
{
    let mut out: Vec<Vec<u8>> = Vec::new();
    let mut pos: usize = 0;
    let len = data.len();
    proof {
        assert(data@.skip(0) =~= data@);
        assert(out.deep_view() =~= Seq::<Seq<u8>>::empty());
    }
    while pos < len
        invariant
            pos <= len,
            len == data@.len(),
            chunk_size > 0,
            spec_chunks(data@, chunk_size as nat) == out.deep_view() + spec_chunks(
                data@.skip(pos as int),
                chunk_size as nat,
            ),
        decreases len - pos,
    {
        let ghost out_pre = out.deep_view();
        if len - pos <= chunk_size {
            let piece = vstd::slice::slice_to_vec(
                vstd::slice::slice_subrange(data.as_slice(), pos, len),
            );
            proof {
                assert(piece.deep_view() =~= data@.skip(pos as int));
            }
            out.push(piece);
            proof {
                assert(spec_chunks(data@.skip(pos as int), chunk_size as nat) =~= seq![
                    data@.skip(pos as int),
                ]);
                assert(out.deep_view() =~= out_pre.push(data@.skip(pos as int)));
                assert(data@.skip(len as int) =~= Seq::<u8>::empty());
                assert(out.deep_view() + spec_chunks(data@.skip(len as int), chunk_size as nat)
                    =~= spec_chunks(data@, chunk_size as nat));
            }
            pos = len;
        } else {
            let piece = vstd::slice::slice_to_vec(
                vstd::slice::slice_subrange(data.as_slice(), pos, pos + chunk_size),
            );
            proof {
                assert(piece.deep_view() =~= data@.skip(pos as int).take(chunk_size as int));
                assert(out.deep_view().push(piece.deep_view()) =~= out_pre.push(
                    data@.skip(pos as int).take(chunk_size as int),
                ));
            }
            out.push(piece);
            proof {
                assert(out.deep_view() =~= out_pre.push(
                    data@.skip(pos as int).take(chunk_size as int),
                ));
                assert(data@.skip(pos as int).skip(chunk_size as int) =~= data@.skip(
                    pos as int + chunk_size as int,
                ));
                assert(out.deep_view() + spec_chunks(
                    data@.skip(pos as int + chunk_size as int),
                    chunk_size as nat,
                ) =~= spec_chunks(data@, chunk_size as nat));
            }
            pos = pos + chunk_size;
        }
    }
    proof {
        assert(spec_chunks(data@.skip(len as int), chunk_size as nat) =~= Seq::<Seq<u8>>::empty());
        assert(out.deep_view() =~= spec_chunks(data@, chunk_size as nat));
    }
    out
}

/// Chunks carry every byte once: their lengths sum to the data's, each
/// is at most `c` long and none is empty; every chunk but the last is
/// exactly `c` long.
pub proof fn lemma_chunks_cover(data: Seq<u8>, c: nat)
    requires
        c > 0,
    ensures
        spec_chunks_total(spec_chunks(data, c)) == data.len(),
        forall|i: int|
            0 <= i < spec_chunks(data, c).len() ==> 0 < (#[trigger] spec_chunks(data, c)[i]).len()
                <= c,
        forall|i: int|
            0 <= i < spec_chunks(data, c).len() - 1 ==> (#[trigger] spec_chunks(data, c)[i]).len()
                == c,
    decreases data.len(),
{
    if data.len() == 0 {
    } else if data.len() <= c {
        assert(spec_chunks(data, c) =~= seq![data]);
        assert(spec_chunks(data, c).drop_last() =~= Seq::<Seq<u8>>::empty());
        assert(spec_chunks(data, c).last() == data);
        assert(spec_chunks_total(Seq::<Seq<u8>>::empty()) == 0);
    } else {
        lemma_chunks_cover(data.skip(c as int), c);
        let rest = spec_chunks(data.skip(c as int), c);
        assert(spec_chunks(data, c) =~= seq![data.take(c as int)] + rest);
        lemma_chunks_total_prepend(data.take(c as int), rest);
        assert forall|i: int|
            0 <= i < spec_chunks(data, c).len() implies 0 < (#[trigger] spec_chunks(
            data,
            c,
        )[i]).len() <= c by {
            if i > 0 {
                assert(spec_chunks(data, c)[i] == rest[i - 1]);
            }
        }
        assert forall|i: int|
            0 <= i < spec_chunks(data, c).len() - 1 implies (#[trigger] spec_chunks(
            data,
            c,
        )[i]).len() == c by {
            if i > 0 {
                assert(spec_chunks(data, c)[i] == rest[i - 1]);
            }
        }
    }
}

/// The summed length of a chunk list.
pub open spec fn spec_chunks_total(chunks: Seq<Seq<u8>>) -> nat
    decreases chunks.len(),
{
    if chunks.len() == 0 {
        0
    } else {
        spec_chunks_total(chunks.drop_last()) + chunks.last().len()
    }
}

/// Prepending one chunk adds its length to the total.
proof fn lemma_chunks_total_prepend(head: Seq<u8>, rest: Seq<Seq<u8>>)
    ensures
        spec_chunks_total(seq![head] + rest) == head.len() + spec_chunks_total(rest),
    decreases rest.len(),
{
    if rest.len() == 0 {
        assert(seq![head] + rest =~= seq![head]);
        assert((seq![head] + rest).drop_last() =~= Seq::<Seq<u8>>::empty());
        assert((seq![head] + rest).last() == head);
        assert(spec_chunks_total(Seq::<Seq<u8>>::empty()) == 0);
    } else {
        assert((seq![head] + rest).len() == 1 + rest.len());
        assert((seq![head] + rest).drop_last() =~= seq![head] + rest.drop_last());
        assert((seq![head] + rest).last() == rest.last());
        lemma_chunks_total_prepend(head, rest.drop_last());
        assert(spec_chunks_total(seq![head] + rest) == spec_chunks_total(
            seq![head] + rest.drop_last(),
        ) + rest.last().len());
    }
}

/// The metadata-only part that opens an emission stream.
#[derive(Debug)]
pub struct DownloadFileMeta {
    pub name: String,
    pub size: i64,
}

/// One emission: the metadata part first, then the data chunks in
/// stream order.
#[derive(Debug)]
pub struct DownloadBundle {
    pub metadata: DownloadFileMeta,
    pub chunks: Vec<Vec<u8>>,
}

/// Plans one attachment emission: verifies that a file row with this
/// hash exists and belongs to the principal, opens the stored object,
/// and produces the metadata-first part sequence, reading at the
/// negotiated chunk size. A row the principal does not own is not
/// found; a row whose object is missing is a storage failure.
pub fn download_file_flow(
    db: &Database,
    store: &ContentStore,
    user_id: i32,
    file_hash: &String,
    chunk_size: usize,
) -> (r: Result<DownloadBundle, ServiceError>)
    requires
        chunk_size > 0,
        store.spec_contains(file_hash@) ==> store.spec_content(file_hash@).len() <= i64::MAX,
    ensures
        r is Ok <==> db.spec_file_with_hash_exists(user_id, file_hash@) && store.spec_contains(
            file_hash@,
        ),
        match r {
            Ok(bundle) => {
                &&& db.spec_file_by_hash(user_id, file_hash@) is Some
                &&& bundle.metadata.name == db.spec_file_by_hash(user_id, file_hash@)->0.name
                &&& bundle.metadata.size == store.spec_content(file_hash@).len() as i64
                &&& bundle.chunks.deep_view() == spec_chunks(
                    store.spec_content(file_hash@),
                    chunk_size as nat,
                )
            },
            Err(e) => {
                &&& e == ServiceError::NotFound || e == ServiceError::Internal
                &&& e == ServiceError::NotFound <==> !db.spec_file_with_hash_exists(
                    user_id,
                    file_hash@,
                )
                &&& e == ServiceError::Internal <==> db.spec_file_with_hash_exists(
                    user_id,
                    file_hash@,
                ) && !store.spec_contains(file_hash@)
            },
        },
{
    let row = match db.find_file_by_hash(user_id, file_hash) {
        Some(f) => f,
        None => {
            return Err(ServiceError::NotFound);
        },
    };
    let name = row.name.clone();
    let data = match store.get_object(file_hash) {
        Some(d) => d,
        None => {
            return Err(ServiceError::Internal);
        },
    };
    let size = data.len() as i64;
    let chunks = chunk_object(data, chunk_size);
    Ok(DownloadBundle { metadata: DownloadFileMeta { name, size }, chunks })
}

/// Whether some row of `rows` stores its object under `k`.
pub open spec fn spec_hash_among(rows: Seq<FileRow>, k: Seq<char>) -> bool {
    exists|j: int| 0 <= j < rows.len() && (#[trigger] rows[j]).hash@ == k
}

/// Deletes the stored objects of a batch of removed file rows, leaving
/// every other object alone. The metadata deletion is the durability
/// boundary; this cleanup follows it.
pub fn remove_file_objects(store: &mut ContentStore, rows: &Vec<FileRow>)
    requires
        old(store).wf(),
    ensures
        final(store).wf(),
        forall|j: int| 0 <= j < rows@.len() ==> !final(store).spec_contains(
            (#[trigger] rows@[j]).hash@,
        ),
        forall|k: Seq<char>|
            !spec_hash_among(rows@, k) ==> #[trigger] final(store).spec_contains(k) == old(
                store,
            ).spec_contains(k) && (old(store).spec_contains(k) ==> final(store).spec_content(k)
                == old(store).spec_content(k)),
{
    let mut i: usize = 0;
    while i < rows.len()
        invariant
            i <= rows@.len(),
            store.wf(),
            forall|j: int| 0 <= j < i ==> !store.spec_contains((#[trigger] rows@[j]).hash@),
            forall|k: Seq<char>|
                !spec_hash_among(rows@, k) ==> #[trigger] store.spec_contains(k) == old(
                    store,
                ).spec_contains(k) && (old(store).spec_contains(k) ==> store.spec_content(k) == old(
                    store,
                ).spec_content(k)),
        decreases rows@.len() - i,
    {
        store.delete_object(&rows[i].hash);
        i = i + 1;
    }
}

/// The byte bound the stream decoder accepts: the negotiated chunk size
/// in megabytes, plus one megabyte of headroom for the metadata fields.
pub fn max_decoding_message_size(chunk_size_mb: usize) -> (r: usize)
    requires
        (chunk_size_mb + 1) * 1024 * 1024 <= usize::MAX,
    ensures
        r == 1024 * 1024 * ((chunk_size_mb + 1) as int),
{
    1024 * 1024 * (chunk_size_mb + 1)
}

} // verus!
