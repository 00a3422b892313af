use notedata::auth::{bearer_header_ok, Interceptor};
use notedata::content::ContentStore;
use notedata::database::{AttachTarget, Database};
use notedata::errors::{classify_db_error, DbErrorKind, ServiceError};
use notedata::text::parse_i32;
use notedata::transfer::{
    create_file_flow, download_file_flow, remove_file_objects, CreateFileMeta, CreateFilePart,
    IngestEvent,
};
use notedata::web::{emission_content_type, serve_file, HttpFailure};

#[test]
fn note_crud_round_trip() {
    let mut db = Database::new();
    let n = db.create_note(1, String::from("t"), String::from("x"), 100);
    assert_eq!(n.times_edited, 0);
    let updated = db.update_note(1, n.id, String::from("t2"), String::from("y"), 200).unwrap();
    assert_eq!(updated.times_edited, 1);
    assert_eq!(updated.last_edited, 200);
    assert_eq!(updated.created, 100);
    assert_eq!(db.update_note(2, n.id, String::new(), String::new(), 300).err(),
        Some(ServiceError::NotFound));
}

#[test]
fn tag_crud_and_ownership() {
    let mut db = Database::new();
    let t = db.create_tag(1, String::from("work"), 10);
    let renamed = db.update_tag(1, t.id, String::from("play")).unwrap();
    assert_eq!(renamed.name, "play");
    assert_eq!(db.update_tag(2, t.id, String::from("zz")).err(), Some(ServiceError::NotFound));
    let listed = db.read_tags(1);
    assert_eq!(listed.len(), 1);
    assert_eq!(listed[0].name, "play");
    db.delete_tag(1, t.id).unwrap();
    assert_eq!(db.read_tags(1).len(), 0);
    assert_eq!(db.delete_tag(1, t.id).err(), Some(ServiceError::NotFound));
}

#[test]
fn attach_detach_respects_ownership_and_duplicates() {
    let mut db = Database::new();
    let n = db.create_note(1, String::from("t"), String::new(), 1);
    let t = db.create_tag(1, String::from("w"), 2);
    let foreign_tag = db.create_tag(2, String::from("z"), 3);
    assert_eq!(db.attach_tag(1, n.id, foreign_tag.id).err(), Some(ServiceError::InvalidArgument));
    db.attach_tag(1, n.id, t.id).unwrap();
    assert_eq!(db.attach_tag(1, n.id, t.id).err(), Some(ServiceError::InvalidArgument));
    assert_eq!(db.detach_tag(1, n.id, foreign_tag.id).err(), Some(ServiceError::NotFound));
    db.detach_tag(1, n.id, t.id).unwrap();
    assert_eq!(db.detach_tag(1, n.id, t.id).err(), Some(ServiceError::NotFound));
    assert_eq!(db.note_tags.len(), 0);
}

#[test]
fn deleting_a_note_cascades_to_files_and_objects() {
    let mut db = Database::new();
    let mut store = ContentStore::new();
    let n = db.create_note(1, String::from("t"), String::new(), 1);
    let t = db.create_tag(1, String::from("w"), 2);
    db.attach_tag(1, n.id, t.id).unwrap();
    let events = vec![
        IngestEvent::Part(CreateFilePart {
            metadata: Some(CreateFileMeta {
                user_id: 1,
                attach_id: Some(AttachTarget::NoteId(n.id)),
                name: String::from("a.txt"),
            }),
            data: Vec::new(),
        }),
        IngestEvent::Part(CreateFilePart { metadata: None, data: vec![1, 2] }),
    ];
    let row = create_file_flow(&mut db, &mut store, String::from("obj"), &events, None, 10)
        .expect("must ingest");
    assert!(store.contains_object(&row.hash));
    let removed = db.delete_note(1, n.id).unwrap();
    assert_eq!(removed.len(), 1);
    assert_eq!(removed[0].id, row.id);
    remove_file_objects(&mut store, &removed);
    assert_eq!(db.note_tags.len(), 0);
    assert_eq!(db.note_files.len(), 0);
    assert_eq!(db.files.len(), 0);
    assert!(!store.contains_object(&row.hash));
    // the tag itself survives, only the join rows went
    assert_eq!(db.read_tags(1).len(), 1);
    // downloading the deleted hash is not found afterwards
    let dl = download_file_flow(&db, &store, 1, &row.hash, 4);
    assert_eq!(dl.err(), Some(ServiceError::NotFound));
    // deleting a foreign or missing note changes nothing
    assert_eq!(db.delete_note(1, n.id).err(), Some(ServiceError::NotFound));
}

#[test]
fn deleting_a_file_detaches_it_everywhere() {
    let mut db = Database::new();
    let mut store = ContentStore::new();
    let n = db.create_note(1, String::from("t"), String::new(), 1);
    let events = vec![
        IngestEvent::Part(CreateFilePart {
            metadata: Some(CreateFileMeta {
                user_id: 1,
                attach_id: Some(AttachTarget::NoteId(n.id)),
                name: String::from("a.txt"),
            }),
            data: Vec::new(),
        }),
        IngestEvent::Part(CreateFilePart { metadata: None, data: vec![1] }),
    ];
    let row = create_file_flow(&mut db, &mut store, String::from("obj"), &events, None, 10)
        .expect("must ingest");
    assert_eq!(db.delete_file(2, row.id).err(), Some(ServiceError::NotFound));
    let deleted = db.delete_file(1, row.id).unwrap();
    assert_eq!(deleted.hash, row.hash);
    assert_eq!(db.files.len(), 0);
    assert_eq!(db.note_files.len(), 0);
}

#[test]
fn shelf_is_created_lazily_and_cleared_wholly() {
    let mut db = Database::new();
    let mut store = ContentStore::new();
    let (shelf, files) = db.read_shelf(7, 100);
    assert_eq!(shelf.user_id, 7);
    assert_eq!(shelf.text, "");
    assert_eq!(files.len(), 0);
    let (again, _) = db.read_shelf(7, 200);
    assert_eq!(again.id, shelf.id);
    let updated = db.update_shelf(7, String::from("scratch"), 300).unwrap();
    assert_eq!(updated.text, "scratch");
    assert_eq!(updated.times_edited, 1);
    let events = vec![
        IngestEvent::Part(CreateFilePart {
            metadata: Some(CreateFileMeta {
                user_id: 7,
                attach_id: Some(AttachTarget::ShelfId(shelf.id)),
                name: String::from("s.bin"),
            }),
            data: Vec::new(),
        }),
        IngestEvent::Part(CreateFilePart { metadata: None, data: vec![9] }),
    ];
    create_file_flow(&mut db, &mut store, String::from("obj"), &events, None, 10)
        .expect("must ingest");
    let (_, attached) = db.read_shelf(7, 400);
    assert_eq!(attached.len(), 1);
    let (cleared, removed) = db.clear_shelf(7, 500).unwrap();
    assert_eq!(cleared.text, "");
    assert_eq!(removed.len(), 1);
    assert_eq!(db.shelf_files.len(), 0);
    assert_eq!(db.files.len(), 0);
    assert_eq!(db.update_shelf(8, String::new(), 600).err(), Some(ServiceError::NotFound));
}

#[test]
fn converting_a_shelf_moves_its_files_onto_a_new_note() {
    let mut db = Database::new();
    let mut store = ContentStore::new();
    let (shelf, _) = db.read_shelf(1, 100);
    let events = vec![
        IngestEvent::Part(CreateFilePart {
            metadata: Some(CreateFileMeta {
                user_id: 1,
                attach_id: Some(AttachTarget::ShelfId(shelf.id)),
                name: String::from("s.bin"),
            }),
            data: Vec::new(),
        }),
        IngestEvent::Part(CreateFilePart { metadata: None, data: vec![9] }),
    ];
    let row = create_file_flow(&mut db, &mut store, String::from("obj"), &events, None, 10)
        .expect("must ingest");
    let cleared = db.convert_to_note(1, String::from("kept"), String::from("body"), 200).unwrap();
    assert_eq!(cleared.text, "");
    assert_eq!(db.shelf_files.len(), 0);
    assert_eq!(db.note_files.len(), 1);
    assert_eq!(db.note_files[0].1, row.id);
    let new_note = db.notes.last().unwrap();
    assert_eq!(new_note.title, "kept");
    assert_eq!(db.note_files[0].0, new_note.id);
    assert_eq!(db.files.len(), 1);
}

#[test]
fn relational_errors_classify_into_the_taxonomy() {
    assert_eq!(classify_db_error(DbErrorKind::RowNotFound), ServiceError::NotFound);
    assert_eq!(classify_db_error(DbErrorKind::ConstraintViolation), ServiceError::InvalidArgument);
    assert_eq!(classify_db_error(DbErrorKind::DatabaseOther), ServiceError::Unknown);
    assert_eq!(classify_db_error(DbErrorKind::Other), ServiceError::Unknown);
}

#[test]
fn interceptor_requires_an_exact_header() {
    let i = Interceptor { auth_value: String::from("Bearer service-token-1") };
    assert!(i.authorize(Some(&String::from("Bearer service-token-1"))));
    assert!(!i.authorize(Some(&String::from("Bearer other"))));
    assert!(!i.authorize(None));
}

#[test]
fn bearer_headers_parse_strictly() {
    assert!(bearer_header_ok("Bearer: tok", "tok"));
    assert!(!bearer_header_ok("Bearer: tok extra", "tok"));
    assert!(!bearer_header_ok("Bearer:tok", "tok"));
    assert!(!bearer_header_ok("Basic: tok", "tok"));
    assert!(!bearer_header_ok("Bearer: wrong", "tok"));
}

#[test]
fn user_ids_parse_like_integers() {
    assert_eq!(parse_i32("17"), Some(17));
    assert_eq!(parse_i32("+17"), Some(17));
    assert_eq!(parse_i32("-17"), Some(-17));
    assert_eq!(parse_i32("2147483647"), Some(i32::MAX));
    assert_eq!(parse_i32("-2147483648"), Some(i32::MIN));
    assert_eq!(parse_i32("2147483648"), None);
    assert_eq!(parse_i32(""), None);
    assert_eq!(parse_i32("12a"), None);
    assert_eq!(parse_i32("007"), Some(7));
}

#[test]
fn content_type_comes_from_the_extension() {
    assert_eq!(emission_content_type("photo.png").unwrap(), "image/png");
    assert_eq!(emission_content_type("notes.txt").unwrap(), "text/plain");
    assert_eq!(emission_content_type("mystery").err(), Some(ServiceError::Internal));
}

#[test]
fn http_file_endpoint_checks_auth_then_ownership() {
    let mut db = Database::new();
    let mut store = ContentStore::new();
    let n = db.create_note(1, String::from("t"), String::new(), 1);
    let events = vec![
        IngestEvent::Part(CreateFilePart {
            metadata: Some(CreateFileMeta {
                user_id: 1,
                attach_id: Some(AttachTarget::NoteId(n.id)),
                name: String::from("pic.png"),
            }),
            data: Vec::new(),
        }),
        IngestEvent::Part(CreateFilePart { metadata: None, data: vec![1, 2, 3] }),
    ];
    let row = create_file_flow(&mut db, &mut store, String::from("obj"), &events, None, 10)
        .expect("must ingest");
    let auth = String::from("Bearer: tok");
    let user = String::from("1");
    let served = serve_file(&db, &store, Some(&auth), Some(&user), "tok", &row.hash)
        .expect("the owner must be served");
    assert_eq!(served.content_type, "image/png");
    assert_eq!(served.file_name, "pic.png");
    assert_eq!(served.content, vec![1, 2, 3]);
    let bad_auth = serve_file(&db, &store, Some(&String::from("nope")), Some(&user), "tok", &row.hash);
    assert_eq!(bad_auth.err(), Some(HttpFailure::NotFoundStatus));
    let foreign = serve_file(&db, &store, Some(&auth), Some(&String::from("2")), "tok", &row.hash);
    assert_eq!(foreign.err(), Some(HttpFailure::NotFoundStatus));
}
