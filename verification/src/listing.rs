//! The note-listing pipeline evaluated over the relational model: the
//! filter semantics the WHERE clause stands for, the total order the
//! ORDER BY clause stands for, pagination, and the assembly of each
//! page's tags and files through the order-aligned merge.

use vstd::multiset::Multiset;
use vstd::prelude::*;
use vstd::relations::sorted_by;

use crate::aggregate::{
    assign_attachments, spec_aligned, spec_file_owners, spec_note_ids, spec_tag_of,
    spec_tag_owners,
};
use crate::database::{contains_pair, spec_pair_in, Database, NoteRow};
use crate::models::{FileMeta, Note, Tag};
use crate::sql::{Filters, Pagination, Sort, SortDirKind, SortFieldKind};
use crate::text::{
    contains_ci, lemma_lex_le_antisymmetric, lemma_lex_le_total, lemma_lex_le_transitive, lex_le,
    spec_contains_ci, spec_lex_le,
};

verus! {

/// Whether some join row's first column equals `a`.
pub open spec fn spec_has_first(s: Seq<(i32, i32)>, a: i32) -> bool {
    exists|i: int| 0 <= i < s.len() && (#[trigger] s[i]).0 == a
}

/// Whether a join list has a row whose first column equals `a`.
pub fn any_pair_with_first(v: &Vec<(i32, i32)>, a: i32) -> (r: bool)
    ensures
        r == spec_has_first(v@, a),
{
    let mut i: usize = 0;
    while i < v.len()
        invariant
            i <= v@.len(),
            forall|j: int| 0 <= j < i ==> (#[trigger] v@[j]).0 != a,
        decreases v@.len() - i,
    {
        if v[i].0 == a {
            return true;
        }
        i = i + 1;
    }
    false
}

/// What the listing's WHERE clause means for one note. A present but
/// empty tag-id set selects notes with no tag relation at all; a
/// non-empty set selects notes linked to at least one of the given
/// tags. Date ranges run from `start` inclusive up to `end + 1`
/// exclusive, so whole-day ranges include their last day. The search
/// matches the title case-insensitively as a substring, folding ASCII
/// case — the model's reading of the store's case-insensitive match.
pub open spec fn spec_note_matches(note_tags: Seq<(i32, i32)>, n: NoteRow, f: Filters) -> bool {
    &&& match f.filter_tags {
        Option::None => true,
        Option::Some(ft) => if ft.tag_ids@.len() == 0 {
            !spec_has_first(note_tags, n.id)
        } else {
            exists|j: int|
                0 <= j < ft.tag_ids@.len() && spec_pair_in(note_tags, n.id, ft.tag_ids@[j])
        },
    }
    &&& match f.filter_date {
        Option::None => true,
        Option::Some(fd) => fd.start <= n.created < fd.end + 1,
    }
    &&& match f.filter_date_modif {
        Option::None => true,
        Option::Some(fd) => fd.start <= n.last_edited < fd.end + 1,
    }
    &&& match f.filter_search {
        Option::None => true,
        Option::Some(fs) => spec_contains_ci(n.title@, fs.query@),
    }
}

/// The filter predicate of one listing: ownership, then the filters.
pub open spec fn spec_listing_pred(note_tags: Seq<(i32, i32)>, user_id: i32, f: Filters) -> spec_fn(
    NoteRow,
) -> bool {
    |n: NoteRow| n.user_id == user_id && spec_note_matches(note_tags, n, f)
}

/// Whether one note passes the listing's WHERE clause.
fn note_matches(note_tags: &Vec<(i32, i32)>, n: &NoteRow, f: &Filters) -> (r: bool)
    requires
        f.filter_date is Some ==> f.filter_date->0.end < i64::MAX,
        f.filter_date_modif is Some ==> f.filter_date_modif->0.end < i64::MAX,
    ensures
        r == spec_note_matches(note_tags@, *n, *f),
{
    let tags_ok: bool = match &f.filter_tags {
        Option::None => true,
        Option::Some(ft) => {
            if ft.tag_ids.len() == 0 {
                !any_pair_with_first(note_tags, n.id)
            } else {
                let mut found = false;
                let mut j: usize = 0;
                while j < ft.tag_ids.len()
                    invariant
                        j <= ft.tag_ids@.len(),
                        found == exists|k: int|
                            0 <= k < j && spec_pair_in(note_tags@, n.id, ft.tag_ids@[k]),
                    decreases ft.tag_ids@.len() - j,
                {
                    if contains_pair(note_tags, n.id, ft.tag_ids[j]) {
                        found = true;
                    }
                    j = j + 1;
                }
                found
            }
        },
    };
    let date_ok: bool = match &f.filter_date {
        Option::None => true,
        Option::Some(fd) => fd.start <= n.created && n.created < fd.end + 1,
    };
    let modif_ok: bool = match &f.filter_date_modif {
        Option::None => true,
        Option::Some(fd) => fd.start <= n.last_edited && n.last_edited < fd.end + 1,
    };
    let search_ok: bool = match &f.filter_search {
        Option::None => true,
        Option::Some(fs) => contains_ci(n.title.as_str(), fs.query.as_str()),
    };
    tags_ok && date_ok && modif_ok && search_ok
}

/// Whether `a`'s sort key is strictly below `b`'s, direction applied.
pub open spec fn spec_key_lt(a: NoteRow, b: NoteRow, field: SortFieldKind, dir: SortDirKind) -> bool {
    let (x, y) = match dir {
        SortDirKind::Asc => (a, b),
        SortDirKind::Desc => (b, a),
    };
    match field {
        SortFieldKind::Date => x.created < y.created,
        SortFieldKind::DateModif => x.last_edited < y.last_edited,
        SortFieldKind::Title => spec_lex_le(x.title@, y.title@) && x.title@ != y.title@,
    }
}

/// Whether `a` and `b` share a sort key.
pub open spec fn spec_key_eq(a: NoteRow, b: NoteRow, field: SortFieldKind) -> bool {
    match field {
        SortFieldKind::Date => a.created == b.created,
        SortFieldKind::DateModif => a.last_edited == b.last_edited,
        SortFieldKind::Title => a.title@ == b.title@,
    }
}

/// The listing order: by the sort key in the requested direction, ties
/// broken by id descending. Titles compare lexicographically by code
/// point — the model's reading of the store's text collation.
pub open spec fn spec_note_le(a: NoteRow, b: NoteRow, field: SortFieldKind, dir: SortDirKind) -> bool {
    spec_key_lt(a, b, field, dir) || (spec_key_eq(a, b, field) && a.id >= b.id)
}

/// The listing order as a relation, for `sorted_by`.
pub open spec fn note_order(field: SortFieldKind, dir: SortDirKind) -> spec_fn(
    NoteRow,
    NoteRow,
) -> bool {
    |a: NoteRow, b: NoteRow| spec_note_le(a, b, field, dir)
}

/// Any two notes are comparable under the listing order.
pub proof fn lemma_note_le_total(a: NoteRow, b: NoteRow, field: SortFieldKind, dir: SortDirKind)
    ensures
        spec_note_le(a, b, field, dir) || spec_note_le(b, a, field, dir),
{
    match field {
        SortFieldKind::Title => {
            lemma_lex_le_total(a.title@, b.title@);
        },
        _ => {},
    }
}

/// The listing order is transitive.
pub proof fn lemma_note_le_transitive(
    a: NoteRow,
    b: NoteRow,
    c: NoteRow,
    field: SortFieldKind,
    dir: SortDirKind,
)
    requires
        spec_note_le(a, b, field, dir),
        spec_note_le(b, c, field, dir),
    ensures
        spec_note_le(a, c, field, dir),
{
    match field {
        SortFieldKind::Title => {
            if spec_key_lt(a, b, field, dir) && spec_key_lt(b, c, field, dir) {
                let (x, y, z) = match dir {
                    SortDirKind::Asc => (a, b, c),
                    SortDirKind::Desc => (c, b, a),
                };
                lemma_lex_le_transitive(x.title@, y.title@, z.title@);
                if x.title@ == z.title@ {
                    lemma_lex_le_antisymmetric(x.title@, y.title@);
                }
            }
        },
        _ => {},
    }
}

/// Compares two notes under the listing order.
pub fn note_le(a: &NoteRow, b: &NoteRow, field: SortFieldKind, dir: SortDirKind) -> (r: bool)
    ensures
        r == spec_note_le(*a, *b, field, dir),
{
    let key_lt: bool = match field {
        SortFieldKind::Date => {
            match dir {
                SortDirKind::Asc => a.created < b.created,
                SortDirKind::Desc => b.created < a.created,
            }
        },
        SortFieldKind::DateModif => {
            match dir {
                SortDirKind::Asc => a.last_edited < b.last_edited,
                SortDirKind::Desc => b.last_edited < a.last_edited,
            }
        },
        SortFieldKind::Title => {
            let eq = a.title == b.title;
            match dir {
                SortDirKind::Asc => !eq && lex_le(a.title.as_str(), b.title.as_str()),
                SortDirKind::Desc => !eq && lex_le(b.title.as_str(), a.title.as_str()),
            }
        },
    };
    let key_eq: bool = match field {
        SortFieldKind::Date => a.created == b.created,
        SortFieldKind::DateModif => a.last_edited == b.last_edited,
        SortFieldKind::Title => a.title == b.title,
    };
    key_lt || (key_eq && a.id >= b.id)
}

/// Two notes each at most the other share their key and their id.
pub proof fn lemma_note_le_antisymmetric(
    a: NoteRow,
    b: NoteRow,
    field: SortFieldKind,
    dir: SortDirKind,
)
    requires
        spec_note_le(a, b, field, dir),
        spec_note_le(b, a, field, dir),
    ensures
        spec_key_eq(a, b, field),
        a.id == b.id,
{
    match field {
        SortFieldKind::Title => {
            if spec_key_lt(a, b, field, dir) && spec_key_lt(b, a, field, dir) {
                lemma_lex_le_antisymmetric(a.title@, b.title@);
            }
        },
        _ => {},
    }
}

/// The listing order is strict on a page with pairwise distinct ids, so
/// the sorted arrangement of any row multiset is unique: the page a
/// listing returns is fully determined.
pub proof fn lemma_listing_order_is_deterministic(
    a: Seq<NoteRow>,
    b: Seq<NoteRow>,
    field: SortFieldKind,
    dir: SortDirKind,
)
    requires
        a.to_multiset() == b.to_multiset(),
        sorted_by(a, note_order(field, dir)),
        sorted_by(b, note_order(field, dir)),
        forall|p: int, q: int| 0 <= p < q < a.len() ==> a[p].id != a[q].id,
    ensures
        a == b,
    decreases a.len(),
{
    a.to_multiset_ensures();
    b.to_multiset_ensures();
    assert(a.len() == b.len());
    if a.len() == 0 {
        assert(a =~= b);
    } else {
        assert(a.contains(a[0]));
        assert(b.to_multiset().count(a[0]) > 0);
        assert(b.contains(a[0]));
        let j = choose|j: int| 0 <= j < b.len() && b[j] == a[0];
        assert(a.to_multiset().count(b[0]) > 0);
        assert(a.contains(b[0]));
        let i = choose|i: int| 0 <= i < a.len() && a[i] == b[0];
        if j > 0 {
            assert(note_order(field, dir)(b[0], b[j]));
        }
        if i > 0 {
            assert(note_order(field, dir)(a[0], a[i]));
        }
        assert(spec_note_le(b[0], a[0], field, dir) || b[0] == a[0]);
        assert(spec_note_le(a[0], b[0], field, dir) || a[0] == b[0]);
        if a[0] != b[0] {
            lemma_note_le_antisymmetric(a[0], b[0], field, dir);
            assert(a[0].id == b[0].id);
            assert(a[i] == b[0]);
            assert(i != 0);
            assert(a[0].id != a[i].id);
            assert(false);
        }
        assert(a[0] == b[0]);
        let a2 = a.drop_first();
        let b2 = b.drop_first();
        assert(a2 =~= a.remove(0));
        assert(b2 =~= b.remove(0));
        assert(a.remove(0).to_multiset() == a.to_multiset().remove(a[0]));
        assert(b.remove(0).to_multiset() == b.to_multiset().remove(b[0]));
        assert(a2.to_multiset() == b2.to_multiset());
        assert(sorted_by(a2, note_order(field, dir))) by {
            assert forall|p: int, q: int|
                0 <= p < q < a2.len() implies note_order(field, dir)(a2[p], a2[q]) by {
                assert(a2[p] == a[p + 1]);
                assert(a2[q] == a[q + 1]);
                assert(note_order(field, dir)(a[p + 1], a[q + 1]));
            }
        }
        assert(sorted_by(b2, note_order(field, dir))) by {
            assert forall|p: int, q: int|
                0 <= p < q < b2.len() implies note_order(field, dir)(b2[p], b2[q]) by {
                assert(b2[p] == b[p + 1]);
                assert(b2[q] == b[q + 1]);
                assert(note_order(field, dir)(b[p + 1], b[q + 1]));
            }
        }
        assert forall|p: int, q: int| 0 <= p < q < a2.len() implies a2[p].id != a2[q].id by {
            assert(a2[p] == a[p + 1]);
            assert(a2[q] == a[q + 1]);
        }
        lemma_listing_order_is_deterministic(a2, b2, field, dir);
        assert forall|p: int| 0 <= p < a.len() implies a[p] == b[p] by {
            if p > 0 {
                assert(a[p] == a2[p - 1]);
                assert(b[p] == b2[p - 1]);
            }
        }
        assert(a =~= b);
    }
}

/// The position where `x` belongs in a page sorted under the listing
/// order: past every element at most `x`.
fn insertion_point(out: &Vec<NoteRow>, x: &NoteRow, field: SortFieldKind, dir: SortDirKind) -> (p:
    usize)
    ensures
        p <= out@.len(),
        forall|j: int| 0 <= j < p ==> spec_note_le(#[trigger] out@[j], *x, field, dir),
        p < out@.len() ==> !spec_note_le(out@[p as int], *x, field, dir),
{
    let mut p: usize = 0;
    while p < out.len()
        invariant
            p <= out@.len(),
            forall|j: int| 0 <= j < p ==> spec_note_le(#[trigger] out@[j], *x, field, dir),
        decreases out@.len() - p,
    {
        if !note_le(&out[p], x, field, dir) {
            return p;
        }
        p = p + 1;
    }
    p
}

/// Sorts a filtered page under the listing order by insertion, keeping
/// exactly the same rows.
pub fn sort_notes(notes: Vec<NoteRow>, field: SortFieldKind, dir: SortDirKind) -> (r: Vec<NoteRow>)
    ensures
        r@.to_multiset() == notes@.to_multiset(),
        r@.len() == notes@.len(),
        sorted_by(r@, note_order(field, dir)),
{
    broadcast use vstd::seq_lib::group_to_multiset_ensures;

    let mut rest = notes;
    let mut out: Vec<NoteRow> = Vec::new();
    proof {
        assert(out@.to_multiset().add(rest@.to_multiset()) =~= notes@.to_multiset());
    }
    while rest.len() > 0
        invariant
            out@.to_multiset().add(rest@.to_multiset()) == notes@.to_multiset(),
            out@.len() + rest@.len() == notes@.len(),
            sorted_by(out@, note_order(field, dir)),
        decreases rest@.len(),
    {
        let ghost rest_pre = rest@;
        let x = rest.remove(0);
        proof {
            rest_pre.to_multiset_ensures();
            assert(rest_pre[0] == x);
            assert(rest@ == rest_pre.remove(0));
            assert(rest_pre.remove(0).to_multiset() == rest_pre.to_multiset().remove(rest_pre[0]));
            assert(rest_pre.to_multiset().count(x) > 0) by {
                assert(rest_pre.contains(x));
            }
        }
        let p = insertion_point(&out, &x, field, dir);
        let ghost out_pre = out@;
        out.insert(p, x);
        proof {
            out@.to_multiset_ensures();
            assert(out@ == out_pre.insert(p as int, x));
            assert(out@.remove(p as int) =~= out_pre);
            assert(out@.remove(p as int).to_multiset() == out@.to_multiset().remove(
                out@[p as int],
            ));
            assert(out@[p as int] == x);
            assert(out@.to_multiset().count(x) > 0) by {
                assert(out@.contains(x));
            }
            assert(out@.to_multiset() =~= out_pre.to_multiset().insert(x));
            assert(out@.to_multiset().add(rest@.to_multiset()) =~= notes@.to_multiset());
            if p < out_pre.len() {
                lemma_note_le_total(out_pre[p as int], x, field, dir);
            }
            assert forall|i: int, j: int|
                0 <= i < j < out@.len() implies note_order(field, dir)(out@[i], out@[j]) by {
                if j < p {
                    assert(out@[i] == out_pre[i]);
                    assert(out@[j] == out_pre[j]);
                } else if j == p {
                    assert(out@[i] == out_pre[i]);
                    assert(spec_note_le(out_pre[i], x, field, dir));
                } else {
                    assert(out@[j] == out_pre[j - 1]);
                    if i < p {
                        assert(out@[i] == out_pre[i]);
                        assert(note_order(field, dir)(out_pre[i], out_pre[j - 1]));
                    } else if i == p {
                        assert(out@[i] == x);
                        assert(spec_note_le(x, out_pre[p as int], field, dir));
                        if j - 1 > p {
                            assert(note_order(field, dir)(out_pre[p as int], out_pre[j - 1]));
                            lemma_note_le_transitive(
                                x,
                                out_pre[p as int],
                                out_pre[j - 1],
                                field,
                                dir,
                            );
                        }
                    } else {
                        assert(out@[i] == out_pre[i - 1]);
                        assert(note_order(field, dir)(out_pre[i - 1], out_pre[j - 1]));
                    }
                }
            }
        }
    }
    proof {
        assert(rest@.to_multiset() =~= Multiset::<NoteRow>::empty());
        assert(out@.to_multiset() =~= notes@.to_multiset());
    }
    out
}

/// An aligned owner list stays aligned when the page is extended on the
/// left by an id nothing in the list owns.
proof fn lemma_aligned_weaken(os: Seq<i32>, ids: Seq<i32>, j: int)
    requires
        0 <= j < ids.len(),
        spec_aligned(os, ids.skip(j + 1)),
        forall|p: int, q: int| 0 <= p < q < ids.len() ==> ids[p] != ids[q],
    ensures
        spec_aligned(os, ids.skip(j)),
{
    if os.len() > 0 {
        crate::aggregate::lemma_aligned_owners_in_ids(os, ids.skip(j + 1));
        let k = choose|k: int|
            0 <= k < ids.skip(j + 1).len() && #[trigger] ids.skip(j + 1)[k] == os[0];
        assert(ids[j + 1 + k] == os[0]);
        assert(os[0] != ids[j]);
        assert(ids.skip(j)[0] == ids[j]);
        assert(ids.skip(j).drop_first() =~= ids.skip(j + 1));
    }
}

/// Prepending a run of the page's first id keeps an owner list aligned.
proof fn lemma_aligned_prepend_run(run: Seq<i32>, os: Seq<i32>, ids2: Seq<i32>)
    requires
        ids2.len() > 0,
        forall|k: int| 0 <= k < run.len() ==> (#[trigger] run[k]) == ids2[0],
        spec_aligned(os, ids2),
    ensures
        spec_aligned(run + os, ids2),
    decreases run.len(),
{
    if run.len() == 0 {
        assert(run + os =~= os);
    } else {
        assert((run + os)[0] == run[0]);
        assert((run + os).drop_first() =~= run.drop_first() + os);
        lemma_aligned_prepend_run(run.drop_first(), os, ids2);
    }
}

/// A permutation of rows with strictly ascending ids keeps its ids
/// pairwise distinct.
proof fn lemma_perm_distinct_ids(a: Seq<NoteRow>, b: Seq<NoteRow>)
    requires
        forall|p: int, q: int| 0 <= p < q < a.len() ==> a[p].id < a[q].id,
        b.to_multiset() == a.to_multiset(),
    ensures
        forall|p: int, q: int| 0 <= p < q < b.len() ==> b[p].id != b[q].id,
{
    a.to_multiset_ensures();
    b.to_multiset_ensures();
    assert forall|p: int, q: int| 0 <= p < q < b.len() implies b[p].id != b[q].id by {
        if b[p].id == b[q].id {
            assert(b.contains(b[p]));
            assert(b.contains(b[q]));
            if b[p] == b[q] {
                let v = b[p];
                assert(b.remove(q).to_multiset() == b.to_multiset().remove(v));
                assert(b.remove(q)[p] == v);
                assert(b.remove(q).contains(v));
                b.remove(q).to_multiset_ensures();
                assert(b.to_multiset().remove(v).count(v) > 0);
                assert(b.to_multiset().count(v) >= 2);
                assert(a.to_multiset().count(v) >= 2);
                assert(a.no_duplicates()) by {
                    assert forall|i: int, j: int|
                        0 <= i < a.len() && 0 <= j < a.len() && i != j implies a[i]
                        != a[j] by {
                        if i < j {
                            assert(a[i].id < a[j].id);
                        } else {
                            assert(a[j].id < a[i].id);
                        }
                    }
                }
                a.lemma_multiset_has_no_duplicates();
                assert(a.to_multiset().contains(v));
                assert(false);
            } else {
                assert(b.to_multiset().count(b[p]) > 0);
                assert(b.to_multiset().count(b[q]) > 0);
                assert(a.to_multiset().count(b[p]) > 0);
                assert(a.to_multiset().count(b[q]) > 0);
                assert(a.contains(b[p]));
                assert(a.contains(b[q]));
                let i1 = choose|i: int| 0 <= i < a.len() && a[i] == b[p];
                let i2 = choose|i: int| 0 <= i < a.len() && a[i] == b[q];
                assert(i1 != i2);
                if i1 < i2 {
                    assert(a[i1].id < a[i2].id);
                } else {
                    assert(a[i2].id < a[i1].id);
                }
                assert(false);
            }
        }
    }
}

/// A note's attachment-free core.
pub open spec fn spec_note_core(n: Note) -> NoteRow {
    NoteRow {
        id: n.id,
        user_id: n.user_id,
        title: n.title,
        text: n.text,
        created: n.created,
        last_edited: n.last_edited,
        times_edited: n.times_edited,
    }
}

/// The attachment-free cores of a page.
pub open spec fn spec_note_cores(s: Seq<Note>) -> Seq<NoteRow> {
    s.map_values(|n: Note| spec_note_core(n))
}

/// With an explicitly empty tag-id filter a matching note has no tag
/// relation at all; with a non-empty filter it is linked to at least
/// one of the given tags.
pub proof fn lemma_tag_filter_semantics(note_tags: Seq<(i32, i32)>, n: NoteRow, f: Filters)
    requires
        f.filter_tags is Some,
        spec_note_matches(note_tags, n, f),
    ensures
        f.filter_tags->0.tag_ids@.len() == 0 ==> !spec_has_first(note_tags, n.id),
        f.filter_tags->0.tag_ids@.len() > 0 ==> exists|j: int|
            0 <= j < f.filter_tags->0.tag_ids@.len() && spec_pair_in(
                note_tags,
                n.id,
                f.filter_tags->0.tag_ids@[j],
            ),
{
}

/// A note that owns no tag relation is assigned no tag by the merge,
/// whatever else the flat list carries.
pub proof fn lemma_untagged_note_gets_no_tags(flat: Seq<Tag>, note_tags: Seq<(i32, i32)>, id: i32)
    requires
        forall|i: int|
            0 <= i < flat.len() ==> (#[trigger] flat[i]).note_id is Some && spec_pair_in(
                note_tags,
                flat[i].note_id->0,
                flat[i].id,
            ),
        !spec_has_first(note_tags, id),
    ensures
        flat.reverse().filter(spec_tag_of(id)) == Seq::<Tag>::empty(),
{
    assert forall|m: int|
        0 <= m < flat.reverse().len() implies !spec_tag_of(id)(
        #[trigger] flat.reverse()[m],
    ) by {
        let t = flat[flat.len() - 1 - m];
        if spec_tag_of(id)(t) {
            assert(spec_pair_in(note_tags, id, t.id));
            let w = choose|w: int| 0 <= w < note_tags.len() && note_tags[w] == (id, t.id);
            assert(note_tags[w].0 == id);
            assert(false);
        }
    }
    crate::aggregate::lemma_filter_none_match(flat.reverse(), spec_tag_of(id));
}

/// The ids of a page of rows, in page order.
pub open spec fn spec_row_ids(s: Seq<NoteRow>) -> Seq<i32> {
    s.map_values(|n: NoteRow| n.id)
}

/// Whether a tag row is joined to note `id`.
pub open spec fn tag_joined_fn(note_tags: Seq<(i32, i32)>, id: i32) -> spec_fn(
    crate::database::TagRow,
) -> bool {
    |t: crate::database::TagRow| spec_pair_in(note_tags, id, t.id)
}

/// A tag row as the listing returns it, carrying its owning note.
pub open spec fn tag_to_model_fn(id: i32) -> spec_fn(crate::database::TagRow) -> Tag {
    |t: crate::database::TagRow|
        Tag { id: t.id, user_id: t.user_id, name: t.name, created: t.created, note_id: Some(id) }
}

/// The tags of note `id`, exactly as the listing assembles them: every
/// tag row joined to the note, in table order — ascending tag id.
pub open spec fn spec_note_tag_list(
    tags: Seq<crate::database::TagRow>,
    note_tags: Seq<(i32, i32)>,
    id: i32,
) -> Seq<Tag> {
    tags.filter(tag_joined_fn(note_tags, id)).map_values(tag_to_model_fn(id))
}

/// Whether a file row is joined to note `id`.
pub open spec fn file_joined_fn(note_files: Seq<(i32, i32)>, id: i32) -> spec_fn(
    crate::database::FileRow,
) -> bool {
    |f: crate::database::FileRow| spec_pair_in(note_files, id, f.id)
}

/// A file row as the listing returns it, carrying its owning note.
pub open spec fn file_to_model_fn(id: i32) -> spec_fn(crate::database::FileRow) -> FileMeta {
    |f: crate::database::FileRow|
        FileMeta {
            id: f.id,
            user_id: f.user_id,
            hash: f.hash,
            name: f.name,
            size: f.size,
            created: f.created,
            attach_id: Some(id),
        }
}

/// The files of note `id`, exactly as the listing assembles them: every
/// file row joined to the note, in table order — ascending file id.
pub open spec fn spec_note_file_list(
    files: Seq<crate::database::FileRow>,
    note_files: Seq<(i32, i32)>,
    id: i32,
) -> Seq<FileMeta> {
    files.filter(file_joined_fn(note_files, id)).map_values(file_to_model_fn(id))
}

/// The principal's rows passing the listing filter, in table order.
fn filter_notes(db: &Database, user_id: i32, filters: &Filters) -> (r: Vec<NoteRow>)
    requires
        filters.filter_date is Some ==> filters.filter_date->0.end < i64::MAX,
        filters.filter_date_modif is Some ==> filters.filter_date_modif->0.end < i64::MAX,
    ensures
        r@ == db.notes@.filter(spec_listing_pred(db.note_tags@, user_id, *filters)),
{
    let mut out: Vec<NoteRow> = Vec::new();
    let mut i: usize = 0;
    proof {
        reveal(Seq::filter);
        assert(db.notes@.take(0).filter(
            spec_listing_pred(db.note_tags@, user_id, *filters),
        ) =~= out@);
    }
    while i < db.notes.len()
        invariant
            i <= db.notes@.len(),
            filters.filter_date is Some ==> filters.filter_date->0.end < i64::MAX,
            filters.filter_date_modif is Some ==> filters.filter_date_modif->0.end < i64::MAX,
            out@ == db.notes@.take(i as int).filter(
                spec_listing_pred(db.note_tags@, user_id, *filters),
            ),
        decreases db.notes@.len() - i,
    {
        proof {
            reveal(Seq::filter);
            assert(db.notes@.take(i as int + 1).drop_last() =~= db.notes@.take(i as int));
            assert(db.notes@.take(i as int + 1).last() == db.notes@[i as int]);
        }
        if db.notes[i].user_id == user_id && note_matches(&db.note_tags, &db.notes[i], filters) {
            out.push(db.notes[i].duplicate());
        }
        i = i + 1;
    }
    proof {
        assert(db.notes@.take(db.notes@.len() as int) =~= db.notes@);
    }
    out
}

/// The tags of a page of notes flattened into one list: walking the
/// page backwards, each note's tags in descending tag-id order, so the
/// list reads back tail-first in page order.
#[verifier::rlimit(100)]
fn collect_page_tags(
    db_tags: &Vec<crate::database::TagRow>,
    note_tags: &Vec<(i32, i32)>,
    page: &Vec<NoteRow>,
) -> (r: Vec<Tag>)
    requires
        forall|p: int, q: int|
            0 <= p < q < page@.len() ==> (#[trigger] page@[p]).id != (#[trigger] page@[q]).id,
    ensures
        forall|i: int|
            0 <= i < r@.len() ==> (#[trigger] r@[i]).note_id is Some && spec_pair_in(
                note_tags@,
                r@[i].note_id->0,
                r@[i].id,
            ),
        spec_aligned(spec_tag_owners(r@).reverse(), spec_row_ids(page@)),
        forall|j: int|
            0 <= j < page@.len() ==> r@.reverse().filter(spec_tag_of((#[trigger] page@[j]).id))
                == spec_note_tag_list(db_tags@, note_tags@, page@[j].id),
{
    let ghost ids = spec_row_ids(page@);
    let mut flat: Vec<Tag> = Vec::new();
    let mut jj: usize = page.len();
    proof {
        assert(ids.skip(page@.len() as int) =~= Seq::<i32>::empty());
        assert(spec_tag_owners(flat@).reverse() =~= Seq::<i32>::empty());
    }
    while jj > 0
        invariant
            jj <= page@.len(),
            ids == spec_row_ids(page@),
            forall|p: int, q: int|
                0 <= p < q < ids.len() ==> ids[p] != ids[q],
            forall|i: int|
                0 <= i < flat@.len() ==> (#[trigger] flat@[i]).note_id is Some && spec_pair_in(
                    note_tags@,
                    flat@[i].note_id->0,
                    flat@[i].id,
                ),
            spec_aligned(spec_tag_owners(flat@).reverse(), ids.skip(jj as int)),
            forall|j: int|
                jj <= j < page@.len() ==> flat@.reverse().filter(
                    spec_tag_of((#[trigger] page@[j]).id),
                ) == spec_note_tag_list(db_tags@, note_tags@, page@[j].id),
        decreases jj,
    {
        jj = jj - 1;
        let nid = page[jj].id;
        proof {
            assert(ids[jj as int] == nid);
        }
        let ghost flat_pre = flat@;
        let ghost row_pred = tag_joined_fn(note_tags@, nid);
        let ghost to_model = tag_to_model_fn(nid);
        let ghost n_rows = db_tags@.len() as int;
        let mut t: usize = db_tags.len();
        proof {
            reveal(Seq::filter);
            assert(flat@.skip(flat_pre.len() as int) =~= Seq::<Tag>::empty());
            assert(db_tags@.subrange(n_rows, n_rows).reverse() =~= Seq::<
                crate::database::TagRow,
            >::empty());
            assert(db_tags@.subrange(n_rows, n_rows).reverse().filter(row_pred).map_values(
                to_model,
            ) =~= Seq::<Tag>::empty());
        }
        while t > 0
            invariant
                t <= db_tags@.len(),
                n_rows == db_tags@.len(),
                flat@.len() >= flat_pre.len(),
                flat@.take(flat_pre.len() as int) == flat_pre,
                row_pred == tag_joined_fn(note_tags@, nid),
                to_model == tag_to_model_fn(nid),
                flat@.skip(flat_pre.len() as int) == db_tags@.subrange(
                    t as int,
                    n_rows,
                ).reverse().filter(row_pred).map_values(to_model),
                forall|m: int|
                    flat_pre.len() <= m < flat@.len() ==> (#[trigger] flat@[m]).note_id == Some(
                        nid,
                    ),
                forall|i: int|
                    0 <= i < flat@.len() ==> (#[trigger] flat@[i]).note_id is Some && spec_pair_in(
                        note_tags@,
                        flat@[i].note_id->0,
                        flat@[i].id,
                    ),
            decreases t,
        {
            t = t - 1;
            let ghost prev_range = db_tags@.subrange(t as int + 1, n_rows).reverse();
            let ghost cur_range = db_tags@.subrange(t as int, n_rows).reverse();
            proof {
                reveal(Seq::filter);
                assert(cur_range.drop_last() =~= prev_range);
                assert(cur_range.last() == db_tags@[t as int]);
            }
            if contains_pair(note_tags, nid, db_tags[t].id) {
                let tr = db_tags[t].duplicate();
                let ghost before = flat@;
                flat.push(
                    Tag {
                        id: tr.id,
                        user_id: tr.user_id,
                        name: tr.name,
                        created: tr.created,
                        note_id: Some(nid),
                    },
                );
                proof {
                    assert(flat@.take(flat_pre.len() as int) =~= before.take(
                        flat_pre.len() as int,
                    ));
                    assert(row_pred(db_tags@[t as int]));
                    assert(cur_range.filter(row_pred) == prev_range.filter(row_pred).push(
                        db_tags@[t as int],
                    ));
                    assert(flat@.last() == to_model(db_tags@[t as int]));
                    assert(flat@.skip(flat_pre.len() as int) =~= before.skip(
                        flat_pre.len() as int,
                    ).push(flat@.last()));
                    assert(cur_range.filter(row_pred).map_values(to_model) =~= prev_range.filter(
                        row_pred,
                    ).map_values(to_model).push(to_model(db_tags@[t as int])));
                }
            } else {
                proof {
                    assert(!row_pred(db_tags@[t as int]));
                    assert(cur_range.filter(row_pred) == prev_range.filter(row_pred));
                }
            }
        }
        proof {
            let block = flat@.skip(flat_pre.len() as int);
            assert(flat@ =~= flat_pre + block);
            assert(spec_tag_owners(flat@) =~= spec_tag_owners(flat_pre) + spec_tag_owners(block));
            assert(spec_tag_owners(flat@).reverse() =~= spec_tag_owners(block).reverse()
                + spec_tag_owners(flat_pre).reverse());
            if (jj as int) + 1 <= page@.len() {
                lemma_aligned_weaken(spec_tag_owners(flat_pre).reverse(), ids, jj as int);
            }
            assert(ids.skip(jj as int)[0] == ids[jj as int]);
            assert forall|k: int|
                0 <= k < spec_tag_owners(block).reverse().len() implies (
            #[trigger] spec_tag_owners(block).reverse()[k]) == ids.skip(jj as int)[0] by {
                let m = block.len() - 1 - k;
                assert(spec_tag_owners(block)[m] == block[m].note_id->0);
                assert(block[m] == flat@[flat_pre.len() + m]);
            }
            lemma_aligned_prepend_run(
                spec_tag_owners(block).reverse(),
                spec_tag_owners(flat_pre).reverse(),
                ids.skip(jj as int),
            );
            // the new per-note claim: the block reads back as exactly the
            // note's joined tags in table order
            assert(db_tags@.subrange(0, n_rows) =~= db_tags@);
            assert(block == db_tags@.reverse().filter(row_pred).map_values(to_model));
            crate::aggregate::lemma_filter_reverse(db_tags@, row_pred);
            assert(db_tags@.filter(row_pred).reverse().map_values(to_model)
                =~= db_tags@.filter(row_pred).map_values(to_model).reverse());
            assert(block == spec_note_tag_list(db_tags@, note_tags@, nid).reverse());
            assert(flat@.reverse() =~= block.reverse() + flat_pre.reverse());
            assert forall|m: int| 0 <= m < block.reverse().len() implies spec_tag_of(nid)(
                #[trigger] block.reverse()[m],
            ) by {
                assert(block.reverse()[m] == block[block.len() - 1 - m]);
                assert(block[block.len() - 1 - m] == flat@[flat_pre.len() + block.len() - 1 - m]);
            }
            crate::aggregate::lemma_filter_all_match(block.reverse(), spec_tag_of(nid));
            lemma_aligned_owners_in_ids_tags(flat_pre, ids.skip(jj as int + 1));
            assert forall|j: int|
                jj <= j < page@.len() implies flat@.reverse().filter(
                spec_tag_of((#[trigger] page@[j]).id),
            ) == spec_note_tag_list(db_tags@, note_tags@, page@[j].id) by {
                let the_id = page@[j].id;
                Seq::filter_distributes_over_add(
                    block.reverse(),
                    flat_pre.reverse(),
                    spec_tag_of(the_id),
                );
                if j == jj {
                    assert forall|m: int|
                        0 <= m < flat_pre.reverse().len() implies !spec_tag_of(the_id)(
                        #[trigger] flat_pre.reverse()[m],
                    ) by {
                        let e = flat_pre[flat_pre.len() - 1 - m];
                        assert(ids.skip(jj as int + 1).contains(e.note_id->0));
                        let w = choose|w: int|
                            0 <= w < ids.skip(jj as int + 1).len() && #[trigger] ids.skip(
                                jj as int + 1,
                            )[w] == e.note_id->0;
                        assert(ids[jj as int + 1 + w] == e.note_id->0);
                        assert(e.note_id->0 != the_id);
                    }
                    crate::aggregate::lemma_filter_none_match(
                        flat_pre.reverse(),
                        spec_tag_of(the_id),
                    );
                    assert(flat@.reverse().filter(spec_tag_of(the_id)) =~= block.reverse());
                    assert(block.reverse() =~= spec_note_tag_list(db_tags@, note_tags@, nid));
                } else {
                    assert forall|m: int|
                        0 <= m < block.reverse().len() implies !spec_tag_of(the_id)(
                        #[trigger] block.reverse()[m],
                    ) by {
                        assert(block.reverse()[m] == block[block.len() - 1 - m]);
                        assert(block[block.len() - 1 - m] == flat@[flat_pre.len() + block.len() - 1
                            - m]);
                        assert(ids[jj as int] != ids[j]);
                    }
                    crate::aggregate::lemma_filter_none_match(
                        block.reverse(),
                        spec_tag_of(the_id),
                    );
                    assert(flat@.reverse().filter(spec_tag_of(the_id)) =~= flat_pre.reverse().filter(
                        spec_tag_of(the_id),
                    ));
                }
            }
        }
    }
    proof {
        assert(ids.skip(0) =~= ids);
    }
    flat
}

/// Every tag already collected belongs to a note later in the page.
proof fn lemma_aligned_owners_in_ids_tags(flat: Seq<Tag>, rest_ids: Seq<i32>)
    requires
        spec_aligned(spec_tag_owners(flat).reverse(), rest_ids),
    ensures
        forall|m: int|
            0 <= m < flat.len() ==> rest_ids.contains((#[trigger] flat[m]).note_id->0),
{
    crate::aggregate::lemma_aligned_owners_in_ids(spec_tag_owners(flat).reverse(), rest_ids);
    assert forall|m: int|
        0 <= m < flat.len() implies rest_ids.contains((#[trigger] flat[m]).note_id->0) by {
        let k = flat.len() - 1 - m;
        assert(spec_tag_owners(flat).reverse()[k] == spec_tag_owners(flat)[m]);
        assert(spec_tag_owners(flat)[m] == flat[m].note_id->0);
        assert(rest_ids.contains(spec_tag_owners(flat).reverse()[k]));
    }
}

/// The files of a page of notes flattened the same way.
#[verifier::rlimit(100)]
fn collect_page_files(
    db_files: &Vec<crate::database::FileRow>,
    note_files: &Vec<(i32, i32)>,
    page: &Vec<NoteRow>,
) -> (r: Vec<FileMeta>)
    requires
        forall|p: int, q: int|
            0 <= p < q < page@.len() ==> (#[trigger] page@[p]).id != (#[trigger] page@[q]).id,
    ensures
        forall|i: int|
            0 <= i < r@.len() ==> (#[trigger] r@[i]).attach_id is Some && spec_pair_in(
                note_files@,
                r@[i].attach_id->0,
                r@[i].id,
            ),
        spec_aligned(spec_file_owners(r@).reverse(), spec_row_ids(page@)),
        forall|j: int|
            0 <= j < page@.len() ==> r@.reverse().filter(
                crate::aggregate::spec_file_of((#[trigger] page@[j]).id),
            ) == spec_note_file_list(db_files@, note_files@, page@[j].id),
{
    let ghost ids = spec_row_ids(page@);
    let mut flat: Vec<FileMeta> = Vec::new();
    let mut jj: usize = page.len();
    proof {
        assert(ids.skip(page@.len() as int) =~= Seq::<i32>::empty());
        assert(spec_file_owners(flat@).reverse() =~= Seq::<i32>::empty());
    }
    while jj > 0
        invariant
            jj <= page@.len(),
            ids == spec_row_ids(page@),
            forall|p: int, q: int|
                0 <= p < q < ids.len() ==> ids[p] != ids[q],
            forall|i: int|
                0 <= i < flat@.len() ==> (#[trigger] flat@[i]).attach_id is Some && spec_pair_in(
                    note_files@,
                    flat@[i].attach_id->0,
                    flat@[i].id,
                ),
            spec_aligned(spec_file_owners(flat@).reverse(), ids.skip(jj as int)),
            forall|j: int|
                jj <= j < page@.len() ==> flat@.reverse().filter(
                    crate::aggregate::spec_file_of((#[trigger] page@[j]).id),
                ) == spec_note_file_list(db_files@, note_files@, page@[j].id),
        decreases jj,
    {
        jj = jj - 1;
        let nid = page[jj].id;
        proof {
            assert(ids[jj as int] == nid);
        }
        let ghost flat_pre = flat@;
        let ghost row_pred = file_joined_fn(note_files@, nid);
        let ghost to_model = file_to_model_fn(nid);
        let ghost n_rows = db_files@.len() as int;
        let mut t: usize = db_files.len();
        proof {
            reveal(Seq::filter);
            assert(flat@.skip(flat_pre.len() as int) =~= Seq::<FileMeta>::empty());
            assert(db_files@.subrange(n_rows, n_rows).reverse() =~= Seq::<
                crate::database::FileRow,
            >::empty());
            assert(db_files@.subrange(n_rows, n_rows).reverse().filter(row_pred).map_values(
                to_model,
            ) =~= Seq::<FileMeta>::empty());
        }
        while t > 0
            invariant
                t <= db_files@.len(),
                n_rows == db_files@.len(),
                flat@.len() >= flat_pre.len(),
                flat@.take(flat_pre.len() as int) == flat_pre,
                row_pred == file_joined_fn(note_files@, nid),
                to_model == file_to_model_fn(nid),
                flat@.skip(flat_pre.len() as int) == db_files@.subrange(
                    t as int,
                    n_rows,
                ).reverse().filter(row_pred).map_values(to_model),
                forall|m: int|
                    flat_pre.len() <= m < flat@.len() ==> (#[trigger] flat@[m]).attach_id == Some(
                        nid,
                    ),
                forall|i: int|
                    0 <= i < flat@.len() ==> (#[trigger] flat@[i]).attach_id is Some
                        && spec_pair_in(note_files@, flat@[i].attach_id->0, flat@[i].id),
            decreases t,
        {
            t = t - 1;
            let ghost prev_range = db_files@.subrange(t as int + 1, n_rows).reverse();
            let ghost cur_range = db_files@.subrange(t as int, n_rows).reverse();
            proof {
                reveal(Seq::filter);
                assert(cur_range.drop_last() =~= prev_range);
                assert(cur_range.last() == db_files@[t as int]);
            }
            if contains_pair(note_files, nid, db_files[t].id) {
                let fr = db_files[t].duplicate();
                let ghost before = flat@;
                flat.push(
                    FileMeta {
                        id: fr.id,
                        user_id: fr.user_id,
                        hash: fr.hash,
                        name: fr.name,
                        size: fr.size,
                        created: fr.created,
                        attach_id: Some(nid),
                    },
                );
                proof {
                    assert(flat@.take(flat_pre.len() as int) =~= before.take(
                        flat_pre.len() as int,
                    ));
                    assert(row_pred(db_files@[t as int]));
                    assert(cur_range.filter(row_pred) == prev_range.filter(row_pred).push(
                        db_files@[t as int],
                    ));
                    assert(flat@.last() == to_model(db_files@[t as int]));
                    assert(flat@.skip(flat_pre.len() as int) =~= before.skip(
                        flat_pre.len() as int,
                    ).push(flat@.last()));
                    assert(cur_range.filter(row_pred).map_values(to_model) =~= prev_range.filter(
                        row_pred,
                    ).map_values(to_model).push(to_model(db_files@[t as int])));
                }
            } else {
                proof {
                    assert(!row_pred(db_files@[t as int]));
                    assert(cur_range.filter(row_pred) == prev_range.filter(row_pred));
                }
            }
        }
        proof {
            assert(db_files@.subrange(0, n_rows) =~= db_files@);
            lemma_files_block_claims(
                flat_pre,
                flat@,
                db_files@,
                note_files@,
                ids,
                page@,
                jj as int,
            );
        }
    }
    proof {
        assert(ids.skip(0) =~= ids);
    }
    flat
}

/// Extending the flat file list on the right with one note's block —
/// its joined files in descending id order — settles that note's claim
/// and keeps every later note's claim.
#[verifier::rlimit(100)]
proof fn lemma_files_block_claims(
    flat_pre: Seq<FileMeta>,
    flat: Seq<FileMeta>,
    db_files: Seq<crate::database::FileRow>,
    note_files: Seq<(i32, i32)>,
    ids: Seq<i32>,
    page: Seq<NoteRow>,
    jj: int,
)
    requires
        0 <= jj < page.len(),
        ids == spec_row_ids(page),
        forall|p: int, q: int| 0 <= p < q < ids.len() ==> ids[p] != ids[q],
        flat_pre.len() <= flat.len(),
        flat.take(flat_pre.len() as int) == flat_pre,
        flat.skip(flat_pre.len() as int) == db_files.reverse().filter(
            file_joined_fn(note_files, page[jj].id),
        ).map_values(file_to_model_fn(page[jj].id)),
        forall|m: int|
            flat_pre.len() <= m < flat.len() ==> (#[trigger] flat[m]).attach_id == Some(
                page[jj].id,
            ),
        spec_aligned(spec_file_owners(flat_pre).reverse(), ids.skip(jj + 1)),
        forall|j: int|
            jj + 1 <= j < page.len() ==> flat_pre.reverse().filter(
                crate::aggregate::spec_file_of((#[trigger] page[j]).id),
            ) == spec_note_file_list(db_files, note_files, page[j].id),
        forall|i: int|
            0 <= i < flat_pre.len() ==> (#[trigger] flat_pre[i]).attach_id is Some && spec_pair_in(
                note_files,
                flat_pre[i].attach_id->0,
                flat_pre[i].id,
            ),
    ensures
        forall|j: int|
            jj <= j < page.len() ==> flat.reverse().filter(
                crate::aggregate::spec_file_of((#[trigger] page[j]).id),
            ) == spec_note_file_list(db_files, note_files, page[j].id),
        spec_aligned(spec_file_owners(flat).reverse(), ids.skip(jj)),
        forall|i: int|
            0 <= i < flat.len() ==> (#[trigger] flat[i]).attach_id is Some && spec_pair_in(
                note_files,
                flat[i].attach_id->0,
                flat[i].id,
            ),
{
    let nid = page[jj].id;
    let row_pred = file_joined_fn(note_files, nid);
    let to_model = file_to_model_fn(nid);
    let block = flat.skip(flat_pre.len() as int);
    assert(flat =~= flat_pre + block);
    assert(spec_file_owners(flat) =~= spec_file_owners(flat_pre) + spec_file_owners(block));
    assert(spec_file_owners(flat).reverse() =~= spec_file_owners(block).reverse()
        + spec_file_owners(flat_pre).reverse());
    lemma_aligned_weaken(spec_file_owners(flat_pre).reverse(), ids, jj);
    assert(ids.skip(jj)[0] == ids[jj]);
    assert forall|k: int|
        0 <= k < spec_file_owners(block).reverse().len() implies (
    #[trigger] spec_file_owners(block).reverse()[k]) == ids.skip(jj)[0] by {
        let m = block.len() - 1 - k;
        assert(spec_file_owners(block)[m] == block[m].attach_id->0);
        assert(block[m] == flat[flat_pre.len() + m]);
    }
    lemma_aligned_prepend_run(
        spec_file_owners(block).reverse(),
        spec_file_owners(flat_pre).reverse(),
        ids.skip(jj),
    );
    assert forall|i: int|
        0 <= i < flat.len() implies (#[trigger] flat[i]).attach_id is Some && spec_pair_in(
        note_files,
        flat[i].attach_id->0,
        flat[i].id,
    ) by {
        if i >= flat_pre.len() {
            let m = i - flat_pre.len();
            assert(block[m] == flat[i]);
            let src_rows = db_files.reverse().filter(row_pred);
            assert(block == src_rows.map_values(to_model));
            assert(block[m] == to_model(src_rows[m]));
            db_files.reverse().lemma_filter_pred(row_pred, m);
        } else {
            assert(flat[i] == flat_pre[i]);
        }
    }
    crate::aggregate::lemma_filter_reverse(db_files, row_pred);
    assert(db_files.filter(row_pred).reverse().map_values(to_model) =~= db_files.filter(
        row_pred,
    ).map_values(to_model).reverse());
    assert(block == spec_note_file_list(db_files, note_files, nid).reverse());
    assert(flat.reverse() =~= block.reverse() + flat_pre.reverse());
    assert forall|m: int|
        0 <= m < block.reverse().len() implies crate::aggregate::spec_file_of(nid)(
        #[trigger] block.reverse()[m],
    ) by {
        assert(block.reverse()[m] == block[block.len() - 1 - m]);
        assert(block[block.len() - 1 - m] == flat[flat_pre.len() + block.len() - 1 - m]);
    }
    crate::aggregate::lemma_filter_all_match(block.reverse(), crate::aggregate::spec_file_of(nid));
    lemma_aligned_owners_in_ids_files(flat_pre, ids.skip(jj + 1));
    assert forall|j: int|
        jj <= j < page.len() implies flat.reverse().filter(
        crate::aggregate::spec_file_of((#[trigger] page[j]).id),
    ) == spec_note_file_list(db_files, note_files, page[j].id) by {
        let the_id = page[j].id;
        Seq::filter_distributes_over_add(
            block.reverse(),
            flat_pre.reverse(),
            crate::aggregate::spec_file_of(the_id),
        );
        if j == jj {
            assert forall|m: int|
                0 <= m < flat_pre.reverse().len() implies !crate::aggregate::spec_file_of(the_id)(
                #[trigger] flat_pre.reverse()[m],
            ) by {
                let e = flat_pre[flat_pre.len() - 1 - m];
                assert(ids.skip(jj + 1).contains(e.attach_id->0));
                let w = choose|w: int|
                    0 <= w < ids.skip(jj + 1).len() && #[trigger] ids.skip(jj + 1)[w]
                        == e.attach_id->0;
                assert(ids[jj + 1 + w] == e.attach_id->0);
                assert(ids[jj] == the_id);
                assert(e.attach_id->0 != the_id);
            }
            crate::aggregate::lemma_filter_none_match(
                flat_pre.reverse(),
                crate::aggregate::spec_file_of(the_id),
            );
            assert(flat.reverse().filter(crate::aggregate::spec_file_of(the_id))
                =~= block.reverse());
            assert(block.reverse() =~= spec_note_file_list(db_files, note_files, nid));
        } else {
            assert forall|m: int|
                0 <= m < block.reverse().len() implies !crate::aggregate::spec_file_of(the_id)(
                #[trigger] block.reverse()[m],
            ) by {
                assert(block.reverse()[m] == block[block.len() - 1 - m]);
                assert(block[block.len() - 1 - m] == flat[flat_pre.len() + block.len() - 1 - m]);
                assert(ids[jj] != ids[j]);
            }
            crate::aggregate::lemma_filter_none_match(
                block.reverse(),
                crate::aggregate::spec_file_of(the_id),
            );
            assert(flat.reverse().filter(crate::aggregate::spec_file_of(the_id))
                =~= flat_pre.reverse().filter(crate::aggregate::spec_file_of(the_id)));
        }
    }
}

/// Every file already collected belongs to a note later in the page.
proof fn lemma_aligned_owners_in_ids_files(flat: Seq<FileMeta>, rest_ids: Seq<i32>)
    requires
        spec_aligned(spec_file_owners(flat).reverse(), rest_ids),
    ensures
        forall|m: int|
            0 <= m < flat.len() ==> rest_ids.contains((#[trigger] flat[m]).attach_id->0),
{
    crate::aggregate::lemma_aligned_owners_in_ids(spec_file_owners(flat).reverse(), rest_ids);
    assert forall|m: int|
        0 <= m < flat.len() implies rest_ids.contains((#[trigger] flat[m]).attach_id->0) by {
        let k = flat.len() - 1 - m;
        assert(spec_file_owners(flat).reverse()[k] == spec_file_owners(flat)[m]);
        assert(spec_file_owners(flat)[m] == flat[m].attach_id->0);
        assert(rest_ids.contains(spec_file_owners(flat).reverse()[k]));
    }
}

/// Evaluates one note listing over the relational model: the page of
/// notes with their tags and files assembled, and the total count of
/// rows the unpaginated query selects. The count comes from the same
/// filter as the page, so it equals the number of rows the row query
/// would return without LIMIT/OFFSET.
pub fn eval_read_notes(
    db: &Database,
    user_id: i32,
    filters: &Filters,
    sort: &Sort,
    pagination: &Pagination,
) -> (r: (Vec<Note>, i64))
    requires
        db.wf(),
        db.notes@.len() <= i64::MAX,
        pagination.page >= 1,
        pagination.per_page >= 1,
        (pagination.page - 1) as int * pagination.per_page as int <= i32::MAX as int,
        filters.filter_date is Some ==> filters.filter_date->0.end < i64::MAX,
        filters.filter_date_modif is Some ==> filters.filter_date_modif->0.end < i64::MAX,
    ensures
        r.1 == db.notes@.filter(spec_listing_pred(db.note_tags@, user_id, *filters)).len() as i64,
        r.0@.len() <= pagination.per_page,
        exists|perm: Seq<NoteRow>|
            {
                let filtered = db.notes@.filter(spec_listing_pred(db.note_tags@, user_id, *filters));
                let off = (pagination.page - 1) as int * pagination.per_page as int;
                let start = if off <= perm.len() {
                    off
                } else {
                    perm.len() as int
                };
                let end = if off + pagination.per_page <= perm.len() {
                    off + pagination.per_page
                } else {
                    perm.len() as int
                };
                &&& #[trigger] perm.to_multiset() == filtered.to_multiset()
                &&& sorted_by(perm, note_order(sort.sort_field, sort.sort_type))
                &&& spec_note_cores(r.0@) == perm.subrange(start, end)
            },
        forall|i: int|
            0 <= i < r.0@.len() ==> (#[trigger] r.0@[i]).user_id == user_id && spec_note_matches(
                db.note_tags@,
                spec_note_core(r.0@[i]),
                *filters,
            ),
        forall|i: int, k: int|
            #![trigger r.0@[i].tags@[k]]
            0 <= i < r.0@.len() && 0 <= k < r.0@[i].tags@.len() ==> r.0@[i].tags@[k].note_id
                == Some(r.0@[i].id) && spec_pair_in(db.note_tags@, r.0@[i].id, r.0@[i].tags@[k].id),
        forall|i: int, k: int|
            #![trigger r.0@[i].files@[k]]
            0 <= i < r.0@.len() && 0 <= k < r.0@[i].files@.len() ==> r.0@[i].files@[k].attach_id
                == Some(r.0@[i].id) && spec_pair_in(
                db.note_files@,
                r.0@[i].id,
                r.0@[i].files@[k].id,
            ),
        forall|i: int|
            0 <= i < r.0@.len() ==> (#[trigger] r.0@[i]).tags@ == spec_note_tag_list(
                db.tags@,
                db.note_tags@,
                r.0@[i].id,
            ),
        forall|i: int|
            0 <= i < r.0@.len() ==> (#[trigger] r.0@[i]).files@ == spec_note_file_list(
                db.files@,
                db.note_files@,
                r.0@[i].id,
            ),
        forall|i: int, k: int|
            #![trigger r.0@[i].tags@[k]]
            0 <= i < r.0@.len() && 0 <= k < r.0@[i].tags@.len() ==> r.0@[i].tags@[k].user_id
                == user_id,
        forall|i: int, k: int|
            #![trigger r.0@[i].files@[k]]
            0 <= i < r.0@.len() && 0 <= k < r.0@[i].files@.len() ==> r.0@[i].files@[k].user_id
                == user_id,
{
    let ghost pred = spec_listing_pred(db.note_tags@, user_id, *filters);
    let filtered = filter_notes(db, user_id, filters);
    proof {
        db.notes@.lemma_filter_len(pred);
    }
    let count = filtered.len() as i64;
    let ghost filtered_view = filtered@;
    let sorted = sort_notes(filtered, sort.sort_field, sort.sort_type);
    proof {
        crate::database::lemma_filter_sorted_by_key(db.notes@, pred, |n: NoteRow| n.id as int);
        lemma_perm_distinct_ids(filtered_view, sorted@);
    }
    let off = ((pagination.page - 1) * pagination.per_page) as usize;
    let per = pagination.per_page as usize;
    let start: usize = if off <= sorted.len() {
        off
    } else {
        sorted.len()
    };
    let end: usize = if off + per <= sorted.len() {
        off + per
    } else {
        sorted.len()
    };
    let mut page_rows: Vec<NoteRow> = Vec::new();
    let mut k: usize = start;
    while k < end
        invariant
            start <= k <= end,
            end <= sorted@.len(),
            page_rows@ == sorted@.subrange(start as int, k as int),
        decreases end - k,
    {
        page_rows.push(sorted[k].duplicate());
        proof {
            assert(page_rows@ =~= sorted@.subrange(start as int, k as int + 1));
        }
        k = k + 1;
    }
    proof {
        assert forall|p: int, q: int|
            0 <= p < q < page_rows@.len() implies (#[trigger] page_rows@[p]).id != (
        #[trigger] page_rows@[q]).id by {
            assert(page_rows@[p] == sorted@[start + p]);
            assert(page_rows@[q] == sorted@[start + q]);
        }
    }
    let tags_flat = collect_page_tags(&db.tags, &db.note_tags, &page_rows);
    let files_flat = collect_page_files(&db.files, &db.note_files, &page_rows);
    let ghost tags_flat_view = tags_flat@;
    let ghost files_flat_view = files_flat@;
    let mut notes: Vec<Note> = Vec::new();
    let mut m: usize = 0;
    while m < page_rows.len()
        invariant
            m <= page_rows@.len(),
            notes@.len() == m,
            forall|i: int|
                0 <= i < m ==> spec_note_core(#[trigger] notes@[i]) == page_rows@[i]
                    && notes@[i].tags@.len() == 0 && notes@[i].files@.len() == 0,
        decreases page_rows@.len() - m,
    {
        let row = page_rows[m].duplicate();
        notes.push(
            Note {
                id: row.id,
                user_id: row.user_id,
                title: row.title,
                text: row.text,
                created: row.created,
                last_edited: row.last_edited,
                times_edited: row.times_edited,
                tags: Vec::new(),
                files: Vec::new(),
            },
        );
        m = m + 1;
    }
    proof {
        assert(spec_note_ids(notes@) =~= spec_row_ids(page_rows@));
        assert forall|i: int, j: int|
            0 <= i < j < notes@.len() implies notes@[i].id != notes@[j].id by {
            assert(spec_note_core(notes@[i]) == page_rows@[i]);
            assert(spec_note_core(notes@[j]) == page_rows@[j]);
        }
    }
    let assembled = assign_attachments(notes, tags_flat, files_flat);
    proof {
        sorted@.to_multiset_ensures();
        filtered_view.to_multiset_ensures();
        assert(spec_note_cores(assembled@) =~= page_rows@);
        assert(page_rows@ =~= sorted@.subrange(start as int, end as int));
        assert forall|i: int|
            0 <= i < assembled@.len() implies (#[trigger] assembled@[i]).user_id == user_id
            && spec_note_matches(db.note_tags@, spec_note_core(assembled@[i]), *filters) by {
            let core = spec_note_core(assembled@[i]);
            assert(core == page_rows@[i]);
            assert(core == sorted@[start + i]);
            assert(sorted@.contains(core));
            assert(sorted@.to_multiset().count(core) > 0);
            assert(filtered_view.to_multiset().count(core) > 0);
            assert(filtered_view.contains(core));
            let w = choose|w: int| 0 <= w < filtered_view.len() && filtered_view[w] == core;
            db.notes@.lemma_filter_pred(pred, w);
            assert(pred(core));
        }
        assert forall|i: int, kk: int|
            #![trigger assembled@[i].tags@[kk]]
            0 <= i < assembled@.len() && 0 <= kk < assembled@[i].tags@.len() implies assembled@[i].tags@[kk].note_id
            == Some(assembled@[i].id) && spec_pair_in(
            db.note_tags@,
            assembled@[i].id,
            assembled@[i].tags@[kk].id,
        ) by {
            let flat_rev = tags_flat_view.reverse();
            assert(assembled@[i].tags@ == flat_rev.filter(spec_tag_of(assembled@[i].id)));
            flat_rev.lemma_filter_pred(spec_tag_of(assembled@[i].id), kk);
            crate::database::lemma_filter_elements(flat_rev, spec_tag_of(assembled@[i].id));
            let t = assembled@[i].tags@[kk];
            let w = choose|w: int| 0 <= w < flat_rev.len() && flat_rev[w] == t;
            assert(flat_rev[w] == tags_flat_view[tags_flat_view.len() - 1 - w]);
        }
        assert forall|i: int, kk: int|
            #![trigger assembled@[i].files@[kk]]
            0 <= i < assembled@.len() && 0 <= kk < assembled@[i].files@.len() implies assembled@[i].files@[kk].attach_id
            == Some(assembled@[i].id) && spec_pair_in(
            db.note_files@,
            assembled@[i].id,
            assembled@[i].files@[kk].id,
        ) by {
            let flat_rev = files_flat_view.reverse();
            assert(assembled@[i].files@ == flat_rev.filter(
                crate::aggregate::spec_file_of(assembled@[i].id),
            ));
            flat_rev.lemma_filter_pred(crate::aggregate::spec_file_of(assembled@[i].id), kk);
            crate::database::lemma_filter_elements(
                flat_rev,
                crate::aggregate::spec_file_of(assembled@[i].id),
            );
            let t = assembled@[i].files@[kk];
            let w = choose|w: int| 0 <= w < flat_rev.len() && flat_rev[w] == t;
            assert(flat_rev[w] == files_flat_view[files_flat_view.len() - 1 - w]);
        }
        assert forall|i: int|
            0 <= i < assembled@.len() implies (#[trigger] assembled@[i]).tags@
            == spec_note_tag_list(db.tags@, db.note_tags@, assembled@[i].id) by {
            assert(assembled@[i].id == page_rows@[i].id);
            assert(tags_flat_view.reverse().filter(spec_tag_of(page_rows@[i].id))
                == spec_note_tag_list(db.tags@, db.note_tags@, page_rows@[i].id));
            assert(assembled@[i].tags@ == tags_flat_view.reverse().filter(
                spec_tag_of(assembled@[i].id),
            ));
        }
        assert forall|i: int|
            0 <= i < assembled@.len() implies (#[trigger] assembled@[i]).files@
            == spec_note_file_list(db.files@, db.note_files@, assembled@[i].id) by {
            assert(assembled@[i].id == page_rows@[i].id);
            assert(files_flat_view.reverse().filter(
                crate::aggregate::spec_file_of(page_rows@[i].id),
            ) == spec_note_file_list(db.files@, db.note_files@, page_rows@[i].id));
            assert(assembled@[i].files@ == files_flat_view.reverse().filter(
                crate::aggregate::spec_file_of(assembled@[i].id),
            ));
        }
        assert forall|i: int, k: int|
            #![trigger assembled@[i].tags@[k]]
            0 <= i < assembled@.len() && 0 <= k < assembled@[i].tags@.len() implies assembled@[i].tags@[k].user_id
            == user_id by {
            let the_id = assembled@[i].id;
            let row_list = db.tags@.filter(tag_joined_fn(db.note_tags@, the_id));
            assert(assembled@[i].tags@ == spec_note_tag_list(db.tags@, db.note_tags@, the_id));
            assert(assembled@[i].tags@[k] == tag_to_model_fn(the_id)(row_list[k]));
            db.tags@.lemma_filter_pred(tag_joined_fn(db.note_tags@, the_id), k);
            assert(spec_pair_in(db.note_tags@, the_id, row_list[k].id));
            let k_p = choose|k_p: int|
                0 <= k_p < db.note_tags@.len() && #[trigger] db.note_tags@[k_p] == (
                    the_id,
                    row_list[k].id,
                );
            crate::database::lemma_filter_elements(
                db.tags@,
                tag_joined_fn(db.note_tags@, the_id),
            );
            let j0 = choose|j0: int| 0 <= j0 < db.tags@.len() && db.tags@[j0] == row_list[k];
            let core = spec_note_core(assembled@[i]);
            assert(core == page_rows@[i]);
            assert(core == sorted@[start + i]);
            assert(sorted@.contains(core));
            assert(sorted@.to_multiset().count(core) > 0);
            assert(filtered_view.to_multiset().count(core) > 0);
            assert(filtered_view.contains(core));
            let w = choose|w: int| 0 <= w < filtered_view.len() && filtered_view[w] == core;
            crate::database::lemma_filter_elements(db.notes@, pred);
            let i0 = choose|i0: int| 0 <= i0 < db.notes@.len() && db.notes@[i0] == filtered_view[w];
            assert(db.notes@[i0].id == the_id);
            assert(db.notes@[i0].user_id == user_id);
            assert(db.note_tags@[k_p].0 == the_id && db.note_tags@[k_p].1 == db.tags@[j0].id);
            assert(db.notes@[i0].user_id == db.tags@[j0].user_id);
            assert(assembled@[i].tags@[k].user_id == row_list[k].user_id);
        }
        assert forall|i: int, k: int|
            #![trigger assembled@[i].files@[k]]
            0 <= i < assembled@.len() && 0 <= k < assembled@[i].files@.len() implies assembled@[i].files@[k].user_id
            == user_id by {
            let the_id = assembled@[i].id;
            let row_list = db.files@.filter(file_joined_fn(db.note_files@, the_id));
            assert(assembled@[i].files@ == spec_note_file_list(db.files@, db.note_files@, the_id));
            assert(assembled@[i].files@[k] == file_to_model_fn(the_id)(row_list[k]));
            db.files@.lemma_filter_pred(file_joined_fn(db.note_files@, the_id), k);
            assert(spec_pair_in(db.note_files@, the_id, row_list[k].id));
            let k_p = choose|k_p: int|
                0 <= k_p < db.note_files@.len() && #[trigger] db.note_files@[k_p] == (
                    the_id,
                    row_list[k].id,
                );
            crate::database::lemma_filter_elements(
                db.files@,
                file_joined_fn(db.note_files@, the_id),
            );
            let j0 = choose|j0: int| 0 <= j0 < db.files@.len() && db.files@[j0] == row_list[k];
            let core = spec_note_core(assembled@[i]);
            assert(core == page_rows@[i]);
            assert(core == sorted@[start + i]);
            assert(sorted@.contains(core));
            assert(sorted@.to_multiset().count(core) > 0);
            assert(filtered_view.to_multiset().count(core) > 0);
            assert(filtered_view.contains(core));
            let w = choose|w: int| 0 <= w < filtered_view.len() && filtered_view[w] == core;
            crate::database::lemma_filter_elements(db.notes@, pred);
            let i0 = choose|i0: int| 0 <= i0 < db.notes@.len() && db.notes@[i0] == filtered_view[w];
            assert(db.notes@[i0].id == the_id);
            assert(db.notes@[i0].user_id == user_id);
            assert(db.note_files@[k_p].0 == the_id && db.note_files@[k_p].1 == db.files@[j0].id);
            assert(db.notes@[i0].user_id == db.files@[j0].user_id);
            assert(assembled@[i].files@[k].user_id == row_list[k].user_id);
        }
        let off_spec = (pagination.page - 1) as int * pagination.per_page as int;
        assert(off_spec == off as int);
        let start_spec = if off_spec <= sorted@.len() {
            off_spec
        } else {
            sorted@.len() as int
        };
        let end_spec = if off_spec + pagination.per_page <= sorted@.len() {
            off_spec + pagination.per_page
        } else {
            sorted@.len() as int
        };
        assert(start_spec == start as int);
        assert(end_spec == end as int);
        assert(sorted@.to_multiset() == db.notes@.filter(pred).to_multiset());
        assert(spec_note_cores(assembled@) == sorted@.subrange(start_spec, end_spec));
    }
    (assembled, count)
}

} // verus!
