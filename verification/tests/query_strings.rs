use notedata::sql::{
    build_attachment_query_strs, build_read_notes_bind_values, build_read_notes_query_strs,
    fill_tuple_placeholder, BindValue, FilterDate, FilterSearch, FilterTags, Filters, Pagination,
    Sort, SortDirKind, SortField, SortFieldKind, SortType,
};

fn no_filters() -> Filters {
    Filters { filter_tags: None, filter_date: None, filter_date_modif: None, filter_search: None }
}

#[test]
fn fill_tuple_placeholder_inserts_numbered_placeholders() {
    let q = "DELETE FROM files WHERE user_id = $1 AND id IN () RETURNING *;";
    let filled = fill_tuple_placeholder(q, &[7, 8, 9], 1);
    assert_eq!(filled, "DELETE FROM files WHERE user_id = $1 AND id IN ($2,$3,$4) RETURNING *;");
}

#[test]
fn fill_tuple_placeholder_without_parens_returns_input() {
    let q = "SELECT * FROM notes;";
    let filled = fill_tuple_placeholder(q, &[1, 2], 0);
    assert_eq!(filled, q);
}

#[test]
fn fill_tuple_placeholder_zero_offset() {
    let filled = fill_tuple_placeholder("WHERE id IN ()", &["a"], 0);
    assert_eq!(filled, "WHERE id IN ($1)");
}

#[test]
fn plain_query_orders_and_paginates() {
    let sort = Sort { sort_field: SortFieldKind::Date, sort_type: SortDirKind::Desc };
    let (query, count) = build_read_notes_query_strs(&sort, &no_filters());
    assert_eq!(
        query,
        "SELECT * FROM notes WHERE user_id = $1\nORDER BY created DESC, id DESC\nLIMIT $2 OFFSET $3;"
    );
    assert_eq!(count, "SELECT COUNT(*) AS count FROM notes WHERE user_id = $1;");
}

#[test]
fn empty_tag_filter_selects_untagged_notes() {
    let sort = Sort { sort_field: SortFieldKind::Title, sort_type: SortDirKind::Asc };
    let mut filters = no_filters();
    filters.filter_tags = Some(FilterTags { tag_ids: vec![] });
    let (query, count) = build_read_notes_query_strs(&sort, &filters);
    assert_eq!(
        query,
        "SELECT * FROM notes WHERE user_id = $1\nAND id NOT IN (SELECT note_id FROM note_tags)\nORDER BY title ASC, id DESC\nLIMIT $2 OFFSET $3;"
    );
    assert_eq!(
        count,
        "SELECT COUNT(*) AS count FROM notes WHERE user_id = $1\nAND id NOT IN (SELECT note_id FROM note_tags);"
    );
}

#[test]
fn all_filters_number_placeholders_sequentially() {
    let sort = Sort { sort_field: SortFieldKind::DateModif, sort_type: SortDirKind::Asc };
    let filters = Filters {
        filter_tags: Some(FilterTags { tag_ids: vec![4, 5] }),
        filter_date: Some(FilterDate { start: 100, end: 200 }),
        filter_date_modif: Some(FilterDate { start: 300, end: 400 }),
        filter_search: Some(FilterSearch { query: String::from("groceries") }),
    };
    let (query, count) = build_read_notes_query_strs(&sort, &filters);
    let expected_where = "SELECT * FROM notes WHERE user_id = $1\nAND id IN (SELECT note_id FROM note_tags WHERE tag_id IN ($2,$3))\nAND EXTRACT(EPOCH FROM created) >= $4 AND EXTRACT(EPOCH FROM created) < $5\nAND EXTRACT(EPOCH FROM last_edited) >= $6 AND EXTRACT(EPOCH FROM last_edited) < $7\nAND title ILIKE $8";
    let expected_query = format!(
        "{}\nORDER BY last_edited ASC, id DESC\nLIMIT $9 OFFSET $10;",
        expected_where
    );
    assert_eq!(query, expected_query);
    let expected_count = expected_where
        .replacen("SELECT * FROM", "SELECT COUNT(*) AS count FROM", 1)
        .to_string()
        + ";";
    assert_eq!(count, expected_count);
}

#[test]
fn attachment_queries_reverse_the_sort_direction() {
    let sort = Sort { sort_field: SortFieldKind::Title, sort_type: SortDirKind::Asc };
    let (tags_q, files_q) = build_attachment_query_strs(&sort, &vec![10, 11, 12]);
    assert_eq!(
        tags_q,
        "SELECT t.*, n.id AS note_id FROM tags AS t INNER JOIN note_tags AS nt ON nt.tag_id = t.id INNER JOIN notes AS n ON nt.note_id = n.id WHERE n.id IN ($1,$2,$3)\nORDER BY n.title DESC, n.id ASC, t.id DESC;"
    );
    assert_eq!(
        files_q,
        "SELECT f.*, n.id AS attach_id FROM files AS f INNER JOIN note_files AS nf ON nf.file_id = f.id INNER JOIN notes AS n ON nf.note_id = n.id WHERE n.id IN ($1,$2,$3)\nORDER BY n.title DESC, n.id ASC, f.id DESC;"
    );
}

#[test]
fn sort_constants_match_their_columns() {
    assert_eq!(SortField::CREATED, "created");
    assert_eq!(SortField::LAST_EDITED, "last_edited");
    assert_eq!(SortField::TITLE, "title");
    assert_eq!(SortType::ASC, "ASC");
    assert_eq!(SortType::DESC, "DESC");
}

#[test]
fn bind_values_follow_placeholder_order() {
    let filters = Filters {
        filter_tags: Some(FilterTags { tag_ids: vec![4, 5] }),
        filter_date: Some(FilterDate { start: 100, end: 200 }),
        filter_date_modif: None,
        filter_search: Some(FilterSearch { query: String::from("milk") }),
    };
    let pagination = Pagination { page: 3, per_page: 20 };
    let (row_binds, count_binds) = build_read_notes_bind_values(9, &filters, &pagination);
    assert_eq!(row_binds.len(), 8);
    assert_eq!(count_binds.len(), 6);
    assert!(matches!(row_binds[0], BindValue::Int(9)));
    assert!(matches!(row_binds[1], BindValue::Int(4)));
    assert!(matches!(row_binds[2], BindValue::Int(5)));
    assert!(matches!(row_binds[3], BindValue::BigInt(100)));
    assert!(matches!(row_binds[4], BindValue::BigInt(201)));
    match &row_binds[5] {
        BindValue::Text(p) => assert_eq!(p, "%milk%"),
        other => panic!("expected a text bind, got {:?}", other),
    }
    assert!(matches!(row_binds[6], BindValue::Int(20)));
    assert!(matches!(row_binds[7], BindValue::Int(40)));
}
