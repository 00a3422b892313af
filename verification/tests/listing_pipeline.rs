use notedata::aggregate::assign_attachments;
use notedata::database::Database;
use notedata::listing::{eval_read_notes, sort_notes};
use notedata::models::{FileMeta, Note, Tag};
use notedata::sql::{FilterDate, FilterSearch, FilterTags, Filters, Pagination, Sort, SortDirKind, SortFieldKind};

fn no_filters() -> Filters {
    Filters { filter_tags: None, filter_date: None, filter_date_modif: None, filter_search: None }
}

fn page(per_page: i32) -> Pagination {
    Pagination { page: 1, per_page }
}

fn bare_note(id: i32, user_id: i32, title: &str) -> Note {
    Note {
        id,
        user_id,
        title: String::from(title),
        text: String::new(),
        created: 0,
        last_edited: 0,
        times_edited: 0,
        tags: Vec::new(),
        files: Vec::new(),
    }
}

fn joined_tag(id: i32, note_id: i32, name: &str) -> Tag {
    Tag { id, user_id: 1, name: String::from(name), created: 0, note_id: Some(note_id) }
}

fn joined_file(id: i32, note_id: i32, name: &str) -> FileMeta {
    FileMeta {
        id,
        user_id: 1,
        hash: String::from("h"),
        name: String::from(name),
        size: 1,
        created: 0,
        attach_id: Some(note_id),
    }
}

#[test]
fn merge_assigns_every_attachment_to_its_owner() {
    // Page order: note 30, then 20, then 10. The flat lists are fetched
    // in the reversed note order, note id ascending, attachment id
    // descending — so their tails line up with the page.
    let notes = vec![bare_note(30, 1, "c"), bare_note(20, 1, "b"), bare_note(10, 1, "a")];
    let tags = vec![
        joined_tag(5, 10, "e"),
        joined_tag(2, 10, "d"),
        joined_tag(7, 20, "f"),
        joined_tag(9, 30, "g"),
        joined_tag(3, 30, "h"),
    ];
    let files = vec![joined_file(4, 20, "m"), joined_file(1, 30, "n")];
    let out = assign_attachments(notes, tags, files);
    assert_eq!(out.len(), 3);
    let tag_ids: Vec<Vec<i32>> =
        out.iter().map(|n| n.tags.iter().map(|t| t.id).collect()).collect();
    assert_eq!(tag_ids, vec![vec![3, 9], vec![7], vec![2, 5]]);
    let file_ids: Vec<Vec<i32>> =
        out.iter().map(|n| n.files.iter().map(|f| f.id).collect()).collect();
    assert_eq!(file_ids, vec![vec![1], vec![4], vec![]]);
    let total_tags: usize = out.iter().map(|n| n.tags.len()).sum();
    let total_files: usize = out.iter().map(|n| n.files.len()).sum();
    assert_eq!(total_tags, 5);
    assert_eq!(total_files, 2);
}

#[test]
fn sorting_orders_by_title_with_id_tiebreak() {
    let mut db = Database::new();
    let b = db.create_note(1, String::from("banana"), String::new(), 10);
    let a = db.create_note(1, String::from("apple"), String::new(), 20);
    let a2 = db.create_note(1, String::from("apple"), String::new(), 30);
    let rows = db.read_tags(1);
    assert_eq!(rows.len(), 0);
    let sorted = sort_notes(
        vec![
            db.notes[0].duplicate(),
            db.notes[1].duplicate(),
            db.notes[2].duplicate(),
        ],
        SortFieldKind::Title,
        SortDirKind::Asc,
    );
    let ids: Vec<i32> = sorted.iter().map(|n| n.id).collect();
    // equal titles tie-break by id descending
    assert_eq!(ids, vec![a2.id, a.id, b.id]);
}

#[test]
fn total_count_equals_unpaginated_matches() {
    let mut db = Database::new();
    for i in 0..7 {
        let title = format!("note {}", i);
        db.create_note(1, title, String::new(), 100 + i);
    }
    db.create_note(2, String::from("foreign"), String::new(), 50);
    let sort = Sort { sort_field: SortFieldKind::Date, sort_type: SortDirKind::Asc };
    let (notes, total) = eval_read_notes(&db, 1, &no_filters(), &sort, &page(3));
    assert_eq!(total, 7);
    assert_eq!(notes.len(), 3);
    let (all, total_all) = eval_read_notes(&db, 1, &no_filters(), &sort, &page(100));
    assert_eq!(total_all, 7);
    assert_eq!(all.len(), 7);
}

#[test]
fn second_page_continues_where_the_first_ended() {
    let mut db = Database::new();
    for i in 0..5 {
        let title = format!("n{}", i);
        db.create_note(1, title, String::new(), 100 + i);
    }
    let sort = Sort { sort_field: SortFieldKind::Date, sort_type: SortDirKind::Asc };
    let p1 = eval_read_notes(&db, 1, &no_filters(), &sort, &Pagination { page: 1, per_page: 2 });
    let p2 = eval_read_notes(&db, 1, &no_filters(), &sort, &Pagination { page: 2, per_page: 2 });
    let p3 = eval_read_notes(&db, 1, &no_filters(), &sort, &Pagination { page: 3, per_page: 2 });
    let titles: Vec<String> = p1.0.iter().chain(p2.0.iter()).chain(p3.0.iter()).map(|n| n.title.clone()).collect();
    assert_eq!(titles, vec!["n0", "n1", "n2", "n3", "n4"]);
}

#[test]
fn empty_tag_filter_returns_untagged_notes_only() {
    let mut db = Database::new();
    let n1 = db.create_note(1, String::from("zeta"), String::new(), 10);
    let n2 = db.create_note(1, String::from("beta"), String::new(), 20);
    let n3 = db.create_note(1, String::from("alpha"), String::new(), 30);
    let untagged_a = db.create_note(1, String::from("delta"), String::new(), 40);
    let untagged_b = db.create_note(1, String::from("gamma"), String::new(), 50);
    let t1 = db.create_tag(1, String::from("work"), 5);
    let t2 = db.create_tag(1, String::from("home"), 6);
    db.attach_tag(1, n1.id, t1.id).unwrap();
    db.attach_tag(1, n2.id, t2.id).unwrap();
    db.attach_tag(1, n3.id, t1.id).unwrap();
    let sort = Sort { sort_field: SortFieldKind::Title, sort_type: SortDirKind::Asc };
    let filters = Filters {
        filter_tags: Some(FilterTags { tag_ids: vec![] }),
        filter_date: None,
        filter_date_modif: None,
        filter_search: None,
    };
    let (notes, total) = eval_read_notes(&db, 1, &filters, &sort, &page(10));
    assert_eq!(total, 2);
    let ids: Vec<i32> = notes.iter().map(|n| n.id).collect();
    assert_eq!(ids, vec![untagged_a.id, untagged_b.id]);
    for n in &notes {
        assert!(n.tags.is_empty());
    }
}

#[test]
fn nonempty_tag_filter_returns_linked_notes_only() {
    let mut db = Database::new();
    let n1 = db.create_note(1, String::from("a"), String::new(), 10);
    let n2 = db.create_note(1, String::from("b"), String::new(), 20);
    let _n3 = db.create_note(1, String::from("c"), String::new(), 30);
    let t1 = db.create_tag(1, String::from("work"), 5);
    let t2 = db.create_tag(1, String::from("home"), 6);
    db.attach_tag(1, n1.id, t1.id).unwrap();
    db.attach_tag(1, n2.id, t2.id).unwrap();
    let sort = Sort { sort_field: SortFieldKind::Date, sort_type: SortDirKind::Asc };
    let filters = Filters {
        filter_tags: Some(FilterTags { tag_ids: vec![t1.id] }),
        filter_date: None,
        filter_date_modif: None,
        filter_search: None,
    };
    let (notes, total) = eval_read_notes(&db, 1, &filters, &sort, &page(10));
    assert_eq!(total, 1);
    assert_eq!(notes.len(), 1);
    assert_eq!(notes[0].id, n1.id);
    assert_eq!(notes[0].tags.len(), 1);
    assert_eq!(notes[0].tags[0].id, t1.id);
    assert_eq!(notes[0].tags[0].note_id, Some(n1.id));
}

#[test]
fn search_filter_is_case_insensitive_substring() {
    let mut db = Database::new();
    db.create_note(1, String::from("Grocery LIST"), String::new(), 10);
    db.create_note(1, String::from("holiday"), String::new(), 20);
    let sort = Sort { sort_field: SortFieldKind::Date, sort_type: SortDirKind::Asc };
    let filters = Filters {
        filter_tags: None,
        filter_date: None,
        filter_date_modif: None,
        filter_search: Some(FilterSearch { query: String::from("grocery") }),
    };
    let (notes, total) = eval_read_notes(&db, 1, &filters, &sort, &page(10));
    assert_eq!(total, 1);
    assert_eq!(notes[0].title, "Grocery LIST");
}

#[test]
fn listed_notes_carry_their_files() {
    let mut db = Database::new();
    let n1 = db.create_note(1, String::from("a"), String::new(), 10);
    let mut store = notedata::content::ContentStore::new();
    let events = vec![
        notedata::transfer::IngestEvent::Part(notedata::transfer::CreateFilePart {
            metadata: Some(notedata::transfer::CreateFileMeta {
                user_id: 1,
                attach_id: Some(notedata::database::AttachTarget::NoteId(n1.id)),
                name: String::from("pic.png"),
            }),
            data: Vec::new(),
        }),
        notedata::transfer::IngestEvent::Part(notedata::transfer::CreateFilePart {
            metadata: None,
            data: vec![1, 2, 3],
        }),
    ];
    let row = notedata::transfer::create_file_flow(
        &mut db,
        &mut store,
        String::from("obj"),
        &events,
        None,
        2000,
    )
    .expect("must ingest");
    let sort = Sort { sort_field: SortFieldKind::Date, sort_type: SortDirKind::Asc };
    let (notes, _) = eval_read_notes(&db, 1, &no_filters(), &sort, &page(10));
    assert_eq!(notes.len(), 1);
    assert_eq!(notes[0].files.len(), 1);
    assert_eq!(notes[0].files[0].id, row.id);
    assert_eq!(notes[0].files[0].attach_id, Some(n1.id));
    assert_eq!(notes[0].files[0].size, 3);
}

#[test]
fn date_filter_upper_bound_is_exclusive_of_the_next_unit() {
    let mut db = Database::new();
    db.create_note(1, String::from("inside"), String::new(), 86399);
    db.create_note(1, String::from("next_day"), String::new(), 86400);
    let sort = Sort { sort_field: SortFieldKind::Date, sort_type: SortDirKind::Asc };
    let filters = Filters {
        filter_tags: None,
        filter_date: Some(FilterDate { start: 0, end: 86399 }),
        filter_date_modif: None,
        filter_search: None,
    };
    let (notes, total) = eval_read_notes(&db, 1, &filters, &sort, &page(10));
    // the range runs from start up to end + 1 exclusive: the day's last
    // second stays in, the first instant of the next day stays out
    assert_eq!(total, 1);
    let titles: Vec<String> = notes.iter().map(|n| n.title.clone()).collect();
    assert_eq!(titles, vec!["inside"]);
}
