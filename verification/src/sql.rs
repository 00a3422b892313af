//! Construction of the note-listing statements: a row query and a count
//! query sharing one WHERE clause and one sequentially numbered set of
//! placeholders, plus the aligned attachment queries and the ordered bind
//! values that serve both statements.

use vstd::prelude::*;

use crate::text::{append_decimal, spec_decimal};

verus! {

/// The column names a note listing may be sorted by.
pub struct SortField;

impl SortField {
    pub const CREATED: &'static str = "created";

    pub const LAST_EDITED: &'static str = "last_edited";

    pub const TITLE: &'static str = "title";
}

/// The sort directions a note listing may use.
pub struct SortType;

impl SortType {
    pub const ASC: &'static str = "ASC";

    pub const DESC: &'static str = "DESC";
}

/// The note attribute a listing is ordered by.
#[derive(Clone, Copy, Debug, PartialEq, Eq, Structural)]
pub enum SortFieldKind {
    Date,
    DateModif,
    Title,
}

/// The direction a listing is ordered in.
#[derive(Clone, Copy, Debug, PartialEq, Eq, Structural)]
pub enum SortDirKind {
    Asc,
    Desc,
}

/// A listing's sort specification.
#[derive(Clone, Copy, Debug, PartialEq, Eq, Structural)]
pub struct Sort {
    pub sort_field: SortFieldKind,
    pub sort_type: SortDirKind,
}

/// A set of tag ids to filter by; an explicitly empty set selects notes
/// with no tags at all.
#[derive(Clone, Debug)]
pub struct FilterTags {
    pub tag_ids: Vec<i32>,
}

/// A range of epoch seconds from `start` inclusive to `end + 1`
/// exclusive, so whole-day ranges include their last day.
#[derive(Clone, Copy, Debug, PartialEq, Eq, Structural)]
pub struct FilterDate {
    pub start: i64,
    pub end: i64,
}

/// A case-insensitive substring filter on the title.
#[derive(Clone, Debug)]
pub struct FilterSearch {
    pub query: String,
}

/// The filter set of a note listing.
#[derive(Clone, Debug)]
pub struct Filters {
    pub filter_tags: Option<FilterTags>,
    pub filter_date: Option<FilterDate>,
    pub filter_date_modif: Option<FilterDate>,
    pub filter_search: Option<FilterSearch>,
}

/// A page selection: `page` is 1-based, `per_page` the page size.
#[derive(Clone, Copy, Debug, PartialEq, Eq, Structural)]
pub struct Pagination {
    pub page: i32,
    pub per_page: i32,
}

/// The placeholder list `$off+1,$off+2,...,$off+n`.
pub open spec fn spec_placeholder_list(n: nat, off: nat) -> Seq<char>
    decreases n,
{
    if n == 0 {
        Seq::empty()
    } else {
        spec_placeholder_list((n - 1) as nat, off) + (if n == 1 {
            Seq::<char>::empty()
        } else {
            ","@
        }) + "$"@ + spec_decimal(n + off)
    }
}

/// Appends `$off+1,...,$off+n` to `s`.
pub fn append_placeholders(s: &mut String, n: usize, off: usize)
    requires
        n as int + off as int <= u64::MAX as int,
    ensures
        final(s)@ == old(s)@ + spec_placeholder_list(n as nat, off as nat),
{
    let mut i: usize = 0;
    proof {
        assert(s@ =~= old(s)@ + spec_placeholder_list(0, off as nat));
    }
    while i < n
        invariant
            i <= n,
            n as int + off as int <= u64::MAX as int,
            s@ == old(s)@ + spec_placeholder_list(i as nat, off as nat),
        decreases n - i,
    {
        if i > 0 {
            s.append(",");
        }
        s.append("$");
        append_decimal(s, (i as u64) + 1 + (off as u64));
        proof {
            assert(s@ =~= old(s)@ + spec_placeholder_list((i + 1) as nat, off as nat));
        }
        i = i + 1;
    }
}

/// The position of the first `()` pair in `q`, if any.
pub open spec fn spec_first_paren_pair(q: Seq<char>) -> Option<int>
    decreases q.len(),
{
    if q.len() < 2 {
        None
    } else if q[0] == '(' && q[1] == ')' {
        Some(0int)
    } else {
        match spec_first_paren_pair(q.drop_first()) {
            None => None,
            Some(i) => Some(i + 1),
        }
    }
}

/// What filling a tuple placeholder yields: the placeholder list for `n`
/// values, numbered from `off + 1`, spliced into the first `()` of `q`;
/// `q` unchanged when it has none.
pub open spec fn spec_fill_tuple_placeholder(q: Seq<char>, n: nat, off: nat) -> Seq<char> {
    match spec_first_paren_pair(q) {
        None => q,
        Some(i) => q.take(i + 1) + spec_placeholder_list(n, off) + q.skip(i + 1),
    }
}

/// Shifts an optional index by `k`.
spec fn shift_opt(o: Option<int>, k: int) -> Option<int> {
    match o {
        None => None,
        Some(j) => Some(j + k),
    }
}

/// Finds the first occurrence of `()` inside of `query`, and for the
/// length of `arr` pushes `$` placeholders into it, numbered from
/// `index_offset + 1`.
pub fn fill_tuple_placeholder<V>(query: &str, arr: &[V], index_offset: usize) -> (r: String)
    requires
        arr@.len() as int + index_offset as int <= u64::MAX as int,
    ensures
        r@ == spec_fill_tuple_placeholder(query@, arr@.len() as nat, index_offset as nat),
{
    let len = query.unicode_len();
    let mut i: usize = 0;
    proof {
        assert(query@.skip(0) =~= query@);
    }
    loop
        invariant
            i <= len,
            len == query@.len(),
            arr@.len() as int + index_offset as int <= u64::MAX as int,
            spec_first_paren_pair(query@) == shift_opt(
                spec_first_paren_pair(query@.skip(i as int)),
                i as int,
            ),
        decreases len - i,
    {
        if len - i <= 1 {
            proof {
                assert(query@.skip(i as int).len() < 2);
            }
            return query.to_owned();
        }
        let c0 = query.get_char(i);
        let c1 = query.get_char(i + 1);
        proof {
            assert(query@.skip(i as int)[0] == query@[i as int]);
            assert(query@.skip(i as int)[1] == query@[i as int + 1]);
        }
        if c0 == '(' && c1 == ')' {
            proof {
                assert(spec_first_paren_pair(query@.skip(i as int)) == Some(0int));
                assert(spec_first_paren_pair(query@) == Some(i as int));
            }
            let prefix = query.substring_char(0, i + 1);
            let suffix = query.substring_char(i + 1, len);
            let mut out = prefix.to_owned();
            append_placeholders(&mut out, arr.len(), index_offset);
            out.append(suffix);
            proof {
                assert(query@.subrange(0, i as int + 1) =~= query@.take(i as int + 1));
                assert(query@.subrange(i as int + 1, query@.len() as int) =~= query@.skip(
                    i as int + 1,
                ));
                assert(out@ =~= spec_fill_tuple_placeholder(
                    query@,
                    arr@.len() as nat,
                    index_offset as nat,
                ));
            }
            return out;
        }
        proof {
            assert(query@.skip(i as int).drop_first() =~= query@.skip(i as int + 1));
        }
        i = i + 1;
    }
}

/// How many placeholders the tag filter consumes.
pub open spec fn spec_tag_param_count(ft: Option<FilterTags>) -> nat {
    match ft {
        Option::None => 0,
        Option::Some(t) => t.tag_ids@.len(),
    }
}

/// How many placeholders the whole filter set consumes, the leading
/// `user_id` included.
pub open spec fn spec_filters_param_count(f: Filters) -> nat {
    1 + spec_tag_param_count(f.filter_tags) + (if f.filter_date is Some {
        2nat
    } else {
        0nat
    }) + (if f.filter_date_modif is Some {
        2nat
    } else {
        0nat
    }) + (if f.filter_search is Some {
        1nat
    } else {
        0nat
    })
}

/// The tag-filter clause. A present but empty tag-id set deliberately
/// selects notes with no tags at all.
pub open spec fn spec_tag_clause(ft: Option<FilterTags>) -> Seq<char> {
    match ft {
        Option::None => Seq::empty(),
        Option::Some(t) => if t.tag_ids@.len() == 0 {
            "\nAND id NOT IN (SELECT note_id FROM note_tags)"@
        } else {
            "\nAND id IN (SELECT note_id FROM note_tags WHERE tag_id IN ("@
                + spec_placeholder_list(t.tag_ids@.len(), 1) + "))"@
        },
    }
}

/// The creation-date clause, with its two placeholders numbered from
/// `first`.
pub open spec fn spec_date_clause(present: bool, first: nat) -> Seq<char> {
    if present {
        "\nAND EXTRACT(EPOCH FROM created) >= $"@ + spec_decimal(first)
            + " AND EXTRACT(EPOCH FROM created) < $"@ + spec_decimal(first + 1)
    } else {
        Seq::empty()
    }
}

/// The modification-date clause, with its two placeholders numbered from
/// `first`.
pub open spec fn spec_date_modif_clause(present: bool, first: nat) -> Seq<char> {
    if present {
        "\nAND EXTRACT(EPOCH FROM last_edited) >= $"@ + spec_decimal(first)
            + " AND EXTRACT(EPOCH FROM last_edited) < $"@ + spec_decimal(first + 1)
    } else {
        Seq::empty()
    }
}

/// The title-search clause, with its placeholder numbered `num`.
pub open spec fn spec_search_clause(present: bool, num: nat) -> Seq<char> {
    if present {
        "\nAND title ILIKE $"@ + spec_decimal(num)
    } else {
        Seq::empty()
    }
}

/// Every filter clause of the WHERE part, in order, with sequential
/// placeholder numbering starting after the `$1` bound to the principal.
pub open spec fn spec_filter_clauses(f: Filters) -> Seq<char> {
    let after_tags = 1 + spec_tag_param_count(f.filter_tags);
    let after_date = after_tags + (if f.filter_date is Some {
        2nat
    } else {
        0nat
    });
    let after_modif = after_date + (if f.filter_date_modif is Some {
        2nat
    } else {
        0nat
    });
    spec_tag_clause(f.filter_tags) + spec_date_clause(f.filter_date is Some, after_tags + 1)
        + spec_date_modif_clause(f.filter_date_modif is Some, after_date + 1) + spec_search_clause(
        f.filter_search is Some,
        after_modif + 1,
    )
}

/// The column name a sort field stands for.
pub open spec fn spec_sort_field_str(f: SortFieldKind) -> Seq<char> {
    match f {
        SortFieldKind::Date => "created"@,
        SortFieldKind::DateModif => "last_edited"@,
        SortFieldKind::Title => "title"@,
    }
}

/// The SQL keyword a sort direction stands for.
pub open spec fn spec_sort_dir_str(t: SortDirKind) -> Seq<char> {
    match t {
        SortDirKind::Asc => "ASC"@,
        SortDirKind::Desc => "DESC"@,
    }
}

/// The opposite direction; attachment queries use it so their rows can be
/// popped off the tail while notes are walked forward.
pub open spec fn spec_reverse_dir(t: SortDirKind) -> SortDirKind {
    match t {
        SortDirKind::Asc => SortDirKind::Desc,
        SortDirKind::Desc => SortDirKind::Asc,
    }
}

/// The full row query: the shared WHERE part, then ordering with an `id
/// DESC` tie-break, then LIMIT/OFFSET as the two final placeholders.
pub open spec fn spec_read_notes_query_str(sort: Sort, f: Filters) -> Seq<char> {
    let pc = spec_filters_param_count(f);
    "SELECT * FROM notes WHERE user_id = $1"@ + spec_filter_clauses(f) + "\nORDER BY "@
        + spec_sort_field_str(sort.sort_field) + " "@ + spec_sort_dir_str(sort.sort_type)
        + ", id DESC\nLIMIT $"@ + spec_decimal(pc + 1) + " OFFSET $"@ + spec_decimal(pc + 2) + ";"@
}

/// The companion count query: the same WHERE part, no ordering, no
/// pagination.
pub open spec fn spec_read_notes_count_str(f: Filters) -> Seq<char> {
    "SELECT COUNT(*) AS count FROM notes WHERE user_id = $1"@ + spec_filter_clauses(f) + ";"@
}

/// The column name for a sort field.
pub fn sort_field_str(f: SortFieldKind) -> (r: &'static str)
    ensures
        r@ == spec_sort_field_str(f),
{
    match f {
        SortFieldKind::Date => SortField::CREATED,
        SortFieldKind::DateModif => SortField::LAST_EDITED,
        SortFieldKind::Title => SortField::TITLE,
    }
}

/// The SQL keyword for a sort direction.
pub fn sort_dir_str(t: SortDirKind) -> (r: &'static str)
    ensures
        r@ == spec_sort_dir_str(t),
{
    match t {
        SortDirKind::Asc => SortType::ASC,
        SortDirKind::Desc => SortType::DESC,
    }
}

/// Appends the tag-filter clause.
fn append_tag_clause(s: &mut String, ft: &Option<FilterTags>)
    requires
        spec_tag_param_count(*ft) + 1 <= u64::MAX,
    ensures
        final(s)@ == old(s)@ + spec_tag_clause(*ft),
{
    match ft {
        Option::Some(t) => {
            if t.tag_ids.len() > 0 {
                s.append("\nAND id IN (SELECT note_id FROM note_tags WHERE tag_id IN (");
                append_placeholders(s, t.tag_ids.len(), 1);
                s.append("))");
                proof {
                    assert(s@ =~= old(s)@ + spec_tag_clause(*ft));
                }
            } else {
                s.append("\nAND id NOT IN (SELECT note_id FROM note_tags)");
            }
        },
        Option::None => {},
    }
}

/// Appends the creation-date clause when present.
fn append_date_clause(s: &mut String, present: bool, first: u64)
    requires
        first + 1 <= u64::MAX,
    ensures
        final(s)@ == old(s)@ + spec_date_clause(present, first as nat),
{
    if present {
        s.append("\nAND EXTRACT(EPOCH FROM created) >= $");
        append_decimal(s, first);
        s.append(" AND EXTRACT(EPOCH FROM created) < $");
        append_decimal(s, first + 1);
        proof {
            assert(s@ =~= old(s)@ + spec_date_clause(present, first as nat));
        }
    }
}

/// Appends the modification-date clause when present.
fn append_date_modif_clause(s: &mut String, present: bool, first: u64)
    requires
        first + 1 <= u64::MAX,
    ensures
        final(s)@ == old(s)@ + spec_date_modif_clause(present, first as nat),
{
    if present {
        s.append("\nAND EXTRACT(EPOCH FROM last_edited) >= $");
        append_decimal(s, first);
        s.append(" AND EXTRACT(EPOCH FROM last_edited) < $");
        append_decimal(s, first + 1);
        proof {
            assert(s@ =~= old(s)@ + spec_date_modif_clause(present, first as nat));
        }
    }
}

/// Appends the title-search clause when present.
fn append_search_clause(s: &mut String, present: bool, num: u64)
    ensures
        final(s)@ == old(s)@ + spec_search_clause(present, num as nat),
{
    if present {
        s.append("\nAND title ILIKE $");
        append_decimal(s, num);
        proof {
            assert(s@ =~= old(s)@ + spec_search_clause(present, num as nat));
        }
    }
}

/// Appends the filter clauses to `s` and returns the number of
/// placeholders consumed so far, the principal's `$1` included.
fn append_filter_clauses(s: &mut String, filters: &Filters) -> (pc: u64)
    requires
        spec_filters_param_count(*filters) + 2 <= u64::MAX,
    ensures
        final(s)@ == old(s)@ + spec_filter_clauses(*filters),
        pc == spec_filters_param_count(*filters),
{
    let mut param_num: u64 = 1;
    match &filters.filter_tags {
        Option::Some(ft) => {
            param_num = param_num + ft.tag_ids.len() as u64;
        },
        Option::None => {},
    }
    append_tag_clause(s, &filters.filter_tags);
    let has_date = filters.filter_date.is_some();
    append_date_clause(s, has_date, param_num + 1);
    if has_date {
        param_num = param_num + 2;
    }
    let has_modif = filters.filter_date_modif.is_some();
    append_date_modif_clause(s, has_modif, param_num + 1);
    if has_modif {
        param_num = param_num + 2;
    }
    let has_search = filters.filter_search.is_some();
    append_search_clause(s, has_search, param_num + 1);
    if has_search {
        param_num = param_num + 1;
    }
    proof {
        assert(s@ =~= old(s)@ + spec_filter_clauses(*filters));
        assert(param_num == spec_filters_param_count(*filters));
    }
    param_num
}

/// Builds the strings of the two statements serving one note listing: the
/// row query and the count query. They share the WHERE clause letter for
/// letter and number their placeholders over one sequence, so one
/// parameter-binding pass serves both.
pub fn build_read_notes_query_strs(sort: &Sort, filters: &Filters) -> (r: (String, String))
    requires
        spec_filters_param_count(*filters) + 2 <= u64::MAX,
    ensures
        r.0@ == spec_read_notes_query_str(*sort, *filters),
        r.1@ == spec_read_notes_count_str(*filters),
{
    let mut query_str = String::from_str("SELECT * FROM notes WHERE user_id = $1");
    let pc = append_filter_clauses(&mut query_str, filters);
    let mut count_str = String::from_str("SELECT COUNT(*) AS count FROM notes WHERE user_id = $1");
    let pc2 = append_filter_clauses(&mut count_str, filters);
    count_str.append(";");
    query_str.append("\nORDER BY ");
    query_str.append(sort_field_str(sort.sort_field));
    query_str.append(" ");
    query_str.append(sort_dir_str(sort.sort_type));
    query_str.append(", id DESC\nLIMIT $");
    append_decimal(&mut query_str, pc + 1);
    query_str.append(" OFFSET $");
    append_decimal(&mut query_str, pc + 2);
    query_str.append(";");
    proof {
        assert(query_str@ =~= spec_read_notes_query_str(*sort, *filters));
        assert(count_str@ =~= spec_read_notes_count_str(*filters));
    }
    (query_str, count_str)
}

/// The tag-fetch query for a page of notes: owning notes ordered by the
/// page's sort key with the direction reversed, then note id ascending,
/// then tag id descending, so the rows can be popped off the tail while
/// the page is walked forward.
pub open spec fn spec_note_tags_query_str(sort: Sort, n_ids: nat) -> Seq<char> {
    "SELECT t.*, n.id AS note_id FROM tags AS t INNER JOIN note_tags AS nt ON nt.tag_id = t.id INNER JOIN notes AS n ON nt.note_id = n.id WHERE n.id IN ("@
        + spec_placeholder_list(n_ids, 0) + ")\nORDER BY n."@ + spec_sort_field_str(
        sort.sort_field,
    ) + " "@ + spec_sort_dir_str(spec_reverse_dir(sort.sort_type)) + ", n.id ASC, t.id DESC;"@
}

/// The file-fetch query for a page of notes, aligned the same way.
pub open spec fn spec_note_files_query_str(sort: Sort, n_ids: nat) -> Seq<char> {
    "SELECT f.*, n.id AS attach_id FROM files AS f INNER JOIN note_files AS nf ON nf.file_id = f.id INNER JOIN notes AS n ON nf.note_id = n.id WHERE n.id IN ("@
        + spec_placeholder_list(n_ids, 0) + ")\nORDER BY n."@ + spec_sort_field_str(
        sort.sort_field,
    ) + " "@ + spec_sort_dir_str(spec_reverse_dir(sort.sort_type)) + ", n.id ASC, f.id DESC;"@
}

/// The opposite sort direction.
pub fn reverse_dir(t: SortDirKind) -> (r: SortDirKind)
    ensures
        r == spec_reverse_dir(t),
{
    match t {
        SortDirKind::Asc => SortDirKind::Desc,
        SortDirKind::Desc => SortDirKind::Asc,
    }
}

/// Builds the statements fetching the tags and the files of a page of
/// notes, each joined back to its owning note and ordered by the page's
/// sort key reversed, then note id ascending, then the attachment's own
/// id descending.
pub fn build_attachment_query_strs(sort: &Sort, note_ids: &Vec<i32>) -> (r: (String, String))
    requires
        note_ids@.len() <= u64::MAX,
    ensures
        r.0@ == spec_note_tags_query_str(*sort, note_ids@.len() as nat),
        r.1@ == spec_note_files_query_str(*sort, note_ids@.len() as nat),
{
    let field = sort_field_str(sort.sort_field);
    let dir = sort_dir_str(reverse_dir(sort.sort_type));
    let mut tags_str = String::from_str(
        "SELECT t.*, n.id AS note_id FROM tags AS t INNER JOIN note_tags AS nt ON nt.tag_id = t.id INNER JOIN notes AS n ON nt.note_id = n.id WHERE n.id IN (",
    );
    append_placeholders(&mut tags_str, note_ids.len(), 0);
    tags_str.append(")\nORDER BY n.");
    tags_str.append(field);
    tags_str.append(" ");
    tags_str.append(dir);
    tags_str.append(", n.id ASC, t.id DESC;");
    let mut files_str = String::from_str(
        "SELECT f.*, n.id AS attach_id FROM files AS f INNER JOIN note_files AS nf ON nf.file_id = f.id INNER JOIN notes AS n ON nf.note_id = n.id WHERE n.id IN (",
    );
    append_placeholders(&mut files_str, note_ids.len(), 0);
    files_str.append(")\nORDER BY n.");
    files_str.append(field);
    files_str.append(" ");
    files_str.append(dir);
    files_str.append(", n.id ASC, f.id DESC;");
    proof {
        assert(tags_str@ =~= spec_note_tags_query_str(*sort, note_ids@.len() as nat));
        assert(files_str@ =~= spec_note_files_query_str(*sort, note_ids@.len() as nat));
    }
    (tags_str, files_str)
}

/// A value bound to one placeholder of a statement.
#[derive(Debug)]
pub enum BindValue {
    Int(i32),
    BigInt(i64),
    Text(String),
}

/// Whether the first `spec_filters_param_count(f)` entries of `r` carry
/// the filter parameters in placeholder order: the principal first, then
/// the tag ids, then each date range as (start, end + 1), then the
/// search pattern `%query%`.
pub open spec fn spec_binds_match_filters(
    r: Seq<BindValue>,
    user_id: i32,
    f: Filters,
) -> bool {
    let t = spec_tag_param_count(f.filter_tags) as int;
    let d = if f.filter_date is Some {
        2int
    } else {
        0int
    };
    let m = if f.filter_date_modif is Some {
        2int
    } else {
        0int
    };
    &&& r.len() >= spec_filters_param_count(f)
    &&& r[0] == BindValue::Int(user_id)
    &&& (f.filter_tags is Some ==> forall|j: int|
        0 <= j < t ==> r[1 + j] == BindValue::Int(#[trigger] f.filter_tags->0.tag_ids@[j]))
    &&& (f.filter_date is Some ==> r[1 + t] == BindValue::BigInt(f.filter_date->0.start) && r[2
        + t] == BindValue::BigInt((f.filter_date->0.end + 1) as i64))
    &&& (f.filter_date_modif is Some ==> r[1 + t + d] == BindValue::BigInt(
        f.filter_date_modif->0.start,
    ) && r[2 + t + d] == BindValue::BigInt((f.filter_date_modif->0.end + 1) as i64))
    &&& (f.filter_search is Some ==> r[1 + t + d + m] is Text && r[1 + t + d + m]->Text_0@ == "%"@
        + f.filter_search->0.query@ + "%"@)
}

/// Pushes the filter parameters onto `out` in placeholder order.
fn push_filter_binds(out: &mut Vec<BindValue>, user_id: i32, filters: &Filters)
    requires
        old(out)@.len() == 0,
        filters.filter_date is Some ==> filters.filter_date->0.end < i64::MAX,
        filters.filter_date_modif is Some ==> filters.filter_date_modif->0.end < i64::MAX,
    ensures
        final(out)@.len() == spec_filters_param_count(*filters),
        spec_binds_match_filters(final(out)@, user_id, *filters),
{
    out.push(BindValue::Int(user_id));
    match &filters.filter_tags {
        Option::Some(ft) => {
            let mut j: usize = 0;
            while j < ft.tag_ids.len()
                invariant
                    j <= ft.tag_ids@.len(),
                    out@.len() == 1 + j,
                    out@[0] == BindValue::Int(user_id),
                    forall|k: int|
                        0 <= k < j ==> out@[1 + k] == BindValue::Int(#[trigger] ft.tag_ids@[k]),
                decreases ft.tag_ids@.len() - j,
            {
                out.push(BindValue::Int(ft.tag_ids[j]));
                j = j + 1;
            }
        },
        Option::None => {},
    }
    match &filters.filter_date {
        Option::Some(fd) => {
            out.push(BindValue::BigInt(fd.start));
            out.push(BindValue::BigInt(fd.end + 1));
        },
        Option::None => {},
    }
    match &filters.filter_date_modif {
        Option::Some(fd) => {
            out.push(BindValue::BigInt(fd.start));
            out.push(BindValue::BigInt(fd.end + 1));
        },
        Option::None => {},
    }
    match &filters.filter_search {
        Option::Some(fs) => {
            let mut pattern = String::from_str("%");
            pattern.append(fs.query.as_str());
            pattern.append("%");
            out.push(BindValue::Text(pattern));
        },
        Option::None => {},
    }
}

/// Builds the bind values of the two note-listing statements in one
/// pass: the row query takes the filter parameters then the page size
/// and the offset `(page - 1) * per_page`; the count query takes the
/// filter parameters alone.
pub fn build_read_notes_bind_values(
    user_id: i32,
    filters: &Filters,
    pagination: &Pagination,
) -> (r: (Vec<BindValue>, Vec<BindValue>))
    requires
        pagination.page >= 1,
        pagination.per_page >= 0,
        (pagination.page - 1) as int * pagination.per_page as int <= i32::MAX as int,
        filters.filter_date is Some ==> filters.filter_date->0.end < i64::MAX,
        filters.filter_date_modif is Some ==> filters.filter_date_modif->0.end < i64::MAX,
    ensures
        r.0@.len() == spec_filters_param_count(*filters) + 2,
        spec_binds_match_filters(r.0@, user_id, *filters),
        r.0@[r.0@.len() - 2] == BindValue::Int(pagination.per_page),
        r.0@[r.0@.len() - 1] == BindValue::Int(
            ((pagination.page - 1) * pagination.per_page) as i32,
        ),
        r.1@.len() == spec_filters_param_count(*filters),
        spec_binds_match_filters(r.1@, user_id, *filters),
{
    let mut row_binds: Vec<BindValue> = Vec::new();
    push_filter_binds(&mut row_binds, user_id, filters);
    let mut count_binds: Vec<BindValue> = Vec::new();
    push_filter_binds(&mut count_binds, user_id, filters);
    let offset = (pagination.page - 1) * pagination.per_page;
    row_binds.push(BindValue::Int(pagination.per_page));
    row_binds.push(BindValue::Int(offset));
    (row_binds, count_binds)
}

} // verus!
