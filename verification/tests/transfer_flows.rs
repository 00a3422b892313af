use notedata::content::ContentStore;
use notedata::database::{AttachTarget, Database};
use notedata::errors::{DbErrorKind, ServiceError};
use notedata::transfer::{
    chunk_object, create_file, create_file_flow, download_file_flow, max_decoding_message_size,
    remove_file_objects, CreateFileMeta, CreateFilePart, IngestEvent,
};

fn meta_part(user_id: i32, target: AttachTarget, name: &str) -> IngestEvent {
    IngestEvent::Part(CreateFilePart {
        metadata: Some(CreateFileMeta {
            user_id,
            attach_id: Some(target),
            name: String::from(name),
        }),
        data: Vec::new(),
    })
}

fn chunk_part(data: Vec<u8>) -> IngestEvent {
    IngestEvent::Part(CreateFilePart { metadata: None, data })
}

fn db_with_note(user_id: i32) -> (Database, i32) {
    let mut db = Database::new();
    let note = db.create_note(user_id, String::from("holiday"), String::from("plans"), 1000);
    (db, note.id)
}

#[test]
fn ingested_size_is_the_sum_of_chunk_lengths() {
    let (mut db, note_id) = db_with_note(1);
    let mut store = ContentStore::new();
    let events = vec![
        meta_part(1, AttachTarget::NoteId(note_id), "notes.txt"),
        chunk_part(vec![1, 2, 3]),
        chunk_part(vec![4, 5]),
        chunk_part(vec![6]),
    ];
    let row = create_file_flow(&mut db, &mut store, String::from("obj-1"), &events, None, 2000)
        .expect("a valid stream must ingest");
    assert_eq!(row.size, 6);
    let stored = store.get_object(&String::from("obj-1")).expect("the object must exist");
    assert_eq!(stored, &vec![1, 2, 3, 4, 5, 6]);
    assert_eq!(stored.len() as i64, row.size);
}

#[test]
fn failed_ingestion_leaves_no_object_behind() {
    let (mut db, note_id) = db_with_note(1);
    let mut store = ContentStore::new();
    let events = vec![
        meta_part(1, AttachTarget::NoteId(note_id), "notes.txt"),
        chunk_part(vec![1, 2, 3]),
        IngestEvent::Failed,
    ];
    let r = create_file_flow(&mut db, &mut store, String::from("obj-2"), &events, None, 2000);
    assert_eq!(r.err(), Some(ServiceError::InvalidArgument));
    assert!(!store.contains_object(&String::from("obj-2")));
    assert_eq!(db.files.len(), 0);
    assert_eq!(db.note_files.len(), 0);
}

#[test]
fn refused_linkage_cleans_the_object_up() {
    let (mut db, note_id) = db_with_note(1);
    let mut store = ContentStore::new();
    let events = vec![
        meta_part(1, AttachTarget::NoteId(note_id), "notes.txt"),
        chunk_part(vec![9, 9]),
    ];
    let r = create_file_flow(
        &mut db,
        &mut store,
        String::from("obj-3"),
        &events,
        Some(DbErrorKind::RowNotFound),
        2000,
    );
    assert_eq!(r.err(), Some(ServiceError::NotFound));
    assert!(!store.contains_object(&String::from("obj-3")));
}

#[test]
fn stream_without_metadata_is_invalid() {
    let (mut db, _) = db_with_note(1);
    let mut store = ContentStore::new();
    let events = vec![chunk_part(vec![1])];
    let r = create_file_flow(&mut db, &mut store, String::from("obj-4"), &events, None, 2000);
    assert_eq!(r.err(), Some(ServiceError::InvalidArgument));
    let r2 = create_file_flow(&mut db, &mut store, String::from("obj-4"), &vec![], None, 2000);
    assert_eq!(r2.err(), Some(ServiceError::InvalidArgument));
}

#[test]
fn missing_target_is_checked_before_any_byte() {
    let (mut db, note_id) = db_with_note(1);
    let mut store = ContentStore::new();
    let events = vec![
        meta_part(2, AttachTarget::NoteId(note_id), "notes.txt"),
        chunk_part(vec![1]),
    ];
    let r = create_file_flow(&mut db, &mut store, String::from("obj-5"), &events, None, 2000);
    assert_eq!(r.err(), Some(ServiceError::InvalidArgument));
    assert!(!store.contains_object(&String::from("obj-5")));
}

#[test]
fn upload_ten_megabytes_then_foreign_download_is_not_found() {
    let (mut db, note_id) = db_with_note(1);
    let mut store = ContentStore::new();
    let mut events = vec![meta_part(1, AttachTarget::NoteId(note_id), "video.bin")];
    for _ in 0..10 {
        events.push(chunk_part(vec![7u8; 1024 * 1024]));
    }
    let row = create_file(&mut db, &mut store, &events, None, 2000)
        .expect("a valid stream must ingest");
    assert_eq!(row.size, 10 * 1024 * 1024);
    assert_eq!(row.hash.len(), 36);
    let own = download_file_flow(&db, &store, 1, &row.hash, 1024 * 1024)
        .expect("the owner must download");
    assert_eq!(own.metadata.size, 10 * 1024 * 1024);
    assert_eq!(own.chunks.len(), 10);
    let foreign = download_file_flow(&db, &store, 2, &row.hash, 1024 * 1024);
    assert_eq!(foreign.err(), Some(ServiceError::NotFound));
}

#[test]
fn emission_splits_exactly_at_the_chunk_size() {
    let data: Vec<u8> = (0..10u8).collect();
    let chunks = chunk_object(&data, 4);
    assert_eq!(chunks, vec![vec![0, 1, 2, 3], vec![4, 5, 6, 7], vec![8, 9]]);
    let exact = chunk_object(&vec![1u8; 8], 4);
    assert_eq!(exact.len(), 2);
    assert_eq!(exact[1].len(), 4);
    let empty = chunk_object(&Vec::new(), 4);
    assert_eq!(empty.len(), 0);
}

#[test]
fn download_of_a_row_without_object_is_internal() {
    let (mut db, note_id) = db_with_note(1);
    let mut store = ContentStore::new();
    let events = vec![meta_part(1, AttachTarget::NoteId(note_id), "a.txt"), chunk_part(vec![1])];
    let row = create_file_flow(&mut db, &mut store, String::from("obj-6"), &events, None, 2000)
        .expect("must ingest");
    store.delete_object(&row.hash);
    let r = download_file_flow(&db, &store, 1, &row.hash, 16);
    assert_eq!(r.err(), Some(ServiceError::Internal));
}

#[test]
fn download_metadata_comes_first_with_name_and_size() {
    let (mut db, note_id) = db_with_note(1);
    let mut store = ContentStore::new();
    let events = vec![
        meta_part(1, AttachTarget::NoteId(note_id), "report.pdf"),
        chunk_part(vec![5, 6, 7]),
    ];
    let row = create_file_flow(&mut db, &mut store, String::from("obj-7"), &events, None, 2000)
        .expect("must ingest");
    let bundle = download_file_flow(&db, &store, 1, &row.hash, 2).expect("must download");
    assert_eq!(bundle.metadata.name, "report.pdf");
    assert_eq!(bundle.metadata.size, 3);
    assert_eq!(bundle.chunks, vec![vec![5, 6], vec![7]]);
}

#[test]
fn removing_file_objects_empties_their_keys_only() {
    let mut store = ContentStore::new();
    store.create_object(String::from("keep")).unwrap();
    store.append_object(&String::from("keep"), &[1, 2]).unwrap();
    let (mut db, note_id) = db_with_note(1);
    let events = vec![meta_part(1, AttachTarget::NoteId(note_id), "x.bin"), chunk_part(vec![3])];
    let row = create_file_flow(&mut db, &mut store, String::from("gone"), &events, None, 2000)
        .expect("must ingest");
    remove_file_objects(&mut store, &vec![row]);
    assert!(!store.contains_object(&String::from("gone")));
    assert!(store.contains_object(&String::from("keep")));
}

#[test]
fn decoder_bound_leaves_headroom_for_metadata() {
    assert_eq!(max_decoding_message_size(4), 5 * 1024 * 1024);
    assert_eq!(max_decoding_message_size(0), 1024 * 1024);
}
