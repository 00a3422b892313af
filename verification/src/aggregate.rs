//! The order-aligned merge that distributes a flat tag list and a flat
//! file list onto their owning notes in one linear pass.
//!
//! The page of notes arrives already ordered by its sort key (ties broken
//! by id descending). The two flat lists were fetched ordered by the same
//! key applied to the owning note but with the direction reversed, then
//! owning-note id ascending, then the attachment's own id descending.
//! Read from their tails, the flat lists therefore visit owning notes in
//! exactly the page's order — the alignment `spec_aligned` captures — so
//! popping while the tail's owner equals the current note assigns every
//! row in O(notes + tags + files).

use vstd::prelude::*;

use crate::models::{FileMeta, Note, Tag};

verus! {

/// The ids of a page of notes, in page order.
pub open spec fn spec_note_ids(notes: Seq<Note>) -> Seq<i32> {
    notes.map_values(|n: Note| n.id)
}

/// The owning-note id of a joined tag row.
pub open spec fn tag_owner_fn() -> spec_fn(Tag) -> i32 {
    |t: Tag| t.note_id->0
}

/// The owning-note id of a joined file row.
pub open spec fn file_owner_fn() -> spec_fn(FileMeta) -> i32 {
    |f: FileMeta| f.attach_id->0
}

/// The owning-note ids of a joined tag list.
pub open spec fn spec_tag_owners(tags: Seq<Tag>) -> Seq<i32> {
    tags.map_values(tag_owner_fn())
}

/// The owning-note ids of a joined file list.
pub open spec fn spec_file_owners(files: Seq<FileMeta>) -> Seq<i32> {
    files.map_values(file_owner_fn())
}

/// Whether `owners` visits note ids in the order `ids` lists them:
/// a run of the first id, then a run of the next, and so on, with no
/// owner outside `ids`. This is the coupling between the page's sort
/// order and the attachment fetch order.
pub open spec fn spec_aligned(owners: Seq<i32>, ids: Seq<i32>) -> bool
    decreases owners.len() + ids.len(),
{
    if owners.len() == 0 {
        true
    } else if ids.len() == 0 {
        false
    } else if owners[0] == ids[0] {
        spec_aligned(owners.drop_first(), ids)
    } else {
        spec_aligned(owners, ids.drop_first())
    }
}

/// An aligned owner list mentions only ids of the page.
pub proof fn lemma_aligned_owners_in_ids(owners: Seq<i32>, ids: Seq<i32>)
    requires
        spec_aligned(owners, ids),
    ensures
        forall|k: int| 0 <= k < owners.len() ==> ids.contains(#[trigger] owners[k]),
    decreases owners.len() + ids.len(),
{
    if owners.len() == 0 {
    } else if owners[0] == ids[0] {
        lemma_aligned_owners_in_ids(owners.drop_first(), ids);
        assert forall|k: int| 0 <= k < owners.len() implies ids.contains(#[trigger] owners[k]) by {
            if k == 0 {
                assert(ids[0] == owners[0]);
            } else {
                assert(owners[k] == owners.drop_first()[k - 1]);
            }
        }
    } else {
        lemma_aligned_owners_in_ids(owners, ids.drop_first());
        assert forall|k: int| 0 <= k < owners.len() implies ids.contains(#[trigger] owners[k]) by {
            let j = choose|j: int| 0 <= j < ids.drop_first().len() && ids.drop_first()[j]
                == owners[k];
            assert(ids[j + 1] == owners[k]);
        }
    }
}

/// Filtering keeps a sequence whose every element satisfies the
/// predicate.
pub proof fn lemma_filter_all_match<A>(s: Seq<A>, pred: spec_fn(A) -> bool)
    requires
        forall|i: int| 0 <= i < s.len() ==> pred(#[trigger] s[i]),
    ensures
        s.filter(pred) == s,
    decreases s.len(),
{
    reveal(Seq::filter);
    if s.len() != 0 {
        lemma_filter_all_match(s.drop_last(), pred);
        assert(s.drop_last().push(s.last()) =~= s);
    }
}

/// Filtering empties a sequence whose no element satisfies the
/// predicate.
pub proof fn lemma_filter_none_match<A>(s: Seq<A>, pred: spec_fn(A) -> bool)
    requires
        forall|i: int| 0 <= i < s.len() ==> !pred(#[trigger] s[i]),
    ensures
        s.filter(pred) == Seq::<A>::empty(),
    decreases s.len(),
{
    reveal(Seq::filter);
    if s.len() != 0 {
        lemma_filter_none_match(s.drop_last(), pred);
    }
}

/// Filtering commutes with reversal: the matches of a reversed sequence
/// are the reversed matches.
pub proof fn lemma_filter_reverse<A>(s: Seq<A>, pred: spec_fn(A) -> bool)
    ensures
        s.reverse().filter(pred) == s.filter(pred).reverse(),
    decreases s.len(),
{
    reveal_with_fuel(Seq::filter, 3);
    if s.len() == 0 {
        assert(s.reverse() =~= s);
        assert(s.filter(pred).reverse() =~= s.filter(pred));
    } else {
        let dl = s.drop_last();
        lemma_filter_reverse(dl, pred);
        assert(s.reverse() =~= seq![s.last()] + dl.reverse());
        Seq::filter_distributes_over_add(seq![s.last()], dl.reverse(), pred);
        assert(seq![s.last()].drop_last() =~= Seq::<A>::empty());
        if pred(s.last()) {
            assert(seq![s.last()].filter(pred) =~= seq![s.last()]);
            assert(s.filter(pred) == dl.filter(pred).push(s.last()));
            assert(s.filter(pred).reverse() =~= seq![s.last()] + dl.filter(pred).reverse());
            assert(s.reverse().filter(pred) =~= seq![s.last()] + dl.reverse().filter(pred));
        } else {
            assert(seq![s.last()].filter(pred) =~= Seq::<A>::empty());
            assert(s.filter(pred) == dl.filter(pred));
            assert(s.reverse().filter(pred) =~= dl.reverse().filter(pred));
        }
    }
}

/// A reversed sequence is the reversed tail part, then the reversed
/// middle, then the reversed front.
pub proof fn lemma_reverse_split3<A>(s: Seq<A>, a: int, b: int)
    requires
        0 <= a <= b <= s.len(),
    ensures
        s.reverse() =~= s.skip(b).reverse() + s.subrange(a, b).reverse() + s.take(a).reverse(),
{
}

/// The predicate picking the tags owned by note `id`.
pub open spec fn spec_tag_of(id: i32) -> spec_fn(Tag) -> bool {
    |t: Tag| t.note_id == Some(id)
}

/// The predicate picking the files owned by note `id`.
pub open spec fn spec_file_of(id: i32) -> spec_fn(FileMeta) -> bool {
    |f: FileMeta| f.attach_id == Some(id)
}

/// Whether two notes agree on everything but their attachment lists.
pub open spec fn spec_same_core(a: Note, b: Note) -> bool {
    &&& a.id == b.id
    &&& a.user_id == b.user_id
    &&& a.title == b.title
    &&& a.text == b.text
    &&& a.created == b.created
    &&& a.last_edited == b.last_edited
    &&& a.times_edited == b.times_edited
}

/// The number of tags assigned across a page.
pub open spec fn spec_total_tags(r: Seq<Note>) -> nat
    decreases r.len(),
{
    if r.len() == 0 {
        0
    } else {
        spec_total_tags(r.drop_last()) + r.last().tags@.len()
    }
}

/// The number of files assigned across a page.
pub open spec fn spec_total_files(r: Seq<Note>) -> nat
    decreases r.len(),
{
    if r.len() == 0 {
        0
    } else {
        spec_total_files(r.drop_last()) + r.last().files@.len()
    }
}

/// Whether the tail of `tags` is owned by note `id`.
fn should_pop_tag(tags: &Vec<Tag>, id: i32) -> (b: bool)
    requires
        forall|i: int| 0 <= i < tags@.len() ==> (#[trigger] tags@[i]).note_id is Some,
    ensures
        b == (tags@.len() > 0 && tags@.last().note_id->0 == id),
{
    if tags.len() == 0 {
        return false;
    }
    match tags[tags.len() - 1].note_id {
        Option::Some(nid) => nid == id,
        Option::None => false,
    }
}

/// Whether the tail of `files` is owned by note `id`.
fn should_pop_file(files: &Vec<FileMeta>, id: i32) -> (b: bool)
    requires
        forall|i: int| 0 <= i < files@.len() ==> (#[trigger] files@[i]).attach_id is Some,
    ensures
        b == (files@.len() > 0 && files@.last().attach_id->0 == id),
{
    if files.len() == 0 {
        return false;
    }
    match files[files.len() - 1].attach_id {
        Option::Some(nid) => nid == id,
        Option::None => false,
    }
}

/// Stepping past a note whose run of owners is exhausted keeps the
/// remaining owners aligned with the remaining ids.
proof fn lemma_aligned_advance(owners: Seq<i32>, ids: Seq<i32>, i: int)
    requires
        0 <= i < ids.len(),
        spec_aligned(owners, ids.skip(i)),
        owners.len() == 0 || owners[0] != ids[i],
    ensures
        spec_aligned(owners, ids.skip(i + 1)),
{
    if owners.len() > 0 {
        assert(ids.skip(i)[0] == ids[i]);
        assert(ids.skip(i).drop_first() =~= ids.skip(i + 1));
    }
}

/// After a note's whole run was popped off the tail, the filter of the
/// reversed flat list for that note is exactly the reversed run.
proof fn lemma_block_filter<A>(
    s0: Seq<A>,
    owner: spec_fn(A) -> i32,
    pred: spec_fn(A) -> bool,
    k1: int,
    k0: int,
    ids: Seq<i32>,
    i: int,
)
    requires
        0 <= k1 <= k0 <= s0.len(),
        0 <= i < ids.len(),
        forall|idx: int|
            0 <= idx < s0.len() ==> (pred(#[trigger] s0[idx]) <==> owner(s0[idx]) == ids[i]),
        forall|idx: int| k1 <= idx < k0 ==> owner(#[trigger] s0[idx]) == ids[i],
        forall|idx: int|
            k0 <= idx < s0.len() ==> ids.take(i).contains(owner(#[trigger] s0[idx])),
        spec_aligned(s0.take(k1).map_values(owner).reverse(), ids.skip(i + 1)),
        forall|p: int, q: int| 0 <= p < q < ids.len() ==> ids[p] != ids[q],
    ensures
        s0.reverse().filter(pred) == s0.subrange(k1, k0).reverse(),
{
    let tail_part = s0.skip(k0).reverse();
    let block = s0.subrange(k1, k0).reverse();
    let front = s0.take(k1).reverse();
    lemma_reverse_split3(s0, k1, k0);
    Seq::filter_distributes_over_add(tail_part + block, front, pred);
    Seq::filter_distributes_over_add(tail_part, block, pred);
    assert forall|m: int| 0 <= m < tail_part.len() implies !pred(#[trigger] tail_part[m]) by {
        let l = s0.len() - k0;
        assert(tail_part[m] == s0.skip(k0)[l - 1 - m]);
        assert(s0.skip(k0)[l - 1 - m] == s0[k0 + l - 1 - m]);
        let j = choose|j: int|
            0 <= j < ids.take(i).len() && #[trigger] ids.take(i)[j] == owner(s0[k0 + l - 1 - m]);
        assert(ids[j] != ids[i]);
    }
    lemma_filter_none_match(tail_part, pred);
    assert forall|m: int| 0 <= m < block.len() implies pred(#[trigger] block[m]) by {
        let l = k0 - k1;
        assert(block[m] == s0.subrange(k1, k0)[l - 1 - m]);
        assert(s0.subrange(k1, k0)[l - 1 - m] == s0[k1 + l - 1 - m]);
    }
    lemma_filter_all_match(block, pred);
    let front_owners = s0.take(k1).map_values(owner).reverse();
    lemma_aligned_owners_in_ids(front_owners, ids.skip(i + 1));
    assert forall|m: int| 0 <= m < front.len() implies !pred(#[trigger] front[m]) by {
        assert(front[m] == s0.take(k1)[k1 - 1 - m]);
        assert(s0.take(k1)[k1 - 1 - m] == s0[k1 - 1 - m]);
        assert(front_owners[m] == s0.take(k1).map_values(owner)[k1 - 1 - m]);
        assert(front_owners[m] == owner(s0[k1 - 1 - m]));
        assert(ids.skip(i + 1).contains(front_owners[m]));
        let j = choose|j: int|
            0 <= j < ids.skip(i + 1).len() && #[trigger] ids.skip(i + 1)[j] == front_owners[m];
        assert(ids[i + 1 + j] == front_owners[m]);
    }
    lemma_filter_none_match(front, pred);
    assert(s0.reverse().filter(pred) =~= block);
}

/// Distributes each tag and each file of the two flat lists onto its
/// owning note, walking the page forward while popping each list off its
/// tail. Under the documented order alignment every attachment lands on
/// the note that owns it and none is left over.
pub fn assign_attachments(notes: Vec<Note>, tags: Vec<Tag>, files: Vec<FileMeta>) -> (r: Vec<
    Note,
>)
    requires
        forall|i: int|
            0 <= i < notes@.len() ==> (#[trigger] notes@[i]).tags@.len() == 0
                && notes@[i].files@.len() == 0,
        forall|i: int| 0 <= i < tags@.len() ==> (#[trigger] tags@[i]).note_id is Some,
        forall|i: int| 0 <= i < files@.len() ==> (#[trigger] files@[i]).attach_id is Some,
        forall|i: int, j: int| 0 <= i < j < notes@.len() ==> notes@[i].id != notes@[j].id,
        spec_aligned(spec_tag_owners(tags@).reverse(), spec_note_ids(notes@)),
        spec_aligned(spec_file_owners(files@).reverse(), spec_note_ids(notes@)),
    ensures
        r@.len() == notes@.len(),
        forall|i: int| 0 <= i < r@.len() ==> spec_same_core(#[trigger] r@[i], notes@[i]),
        forall|i: int|
            0 <= i < r@.len() ==> (#[trigger] r@[i]).tags@ == tags@.reverse().filter(
                spec_tag_of(notes@[i].id),
            ),
        forall|i: int|
            0 <= i < r@.len() ==> (#[trigger] r@[i]).files@ == files@.reverse().filter(
                spec_file_of(notes@[i].id),
            ),
        spec_total_tags(r@) == tags@.len(),
        spec_total_files(r@) == files@.len(),
{
    let ghost notes0 = notes@;
    let ghost tags0 = tags@;
    let ghost files0 = files@;
    let ghost ids = spec_note_ids(notes0);
    let mut rest = notes;
    let mut tags = tags;
    let mut files = files;
    let mut out: Vec<Note> = Vec::new();
    proof {
        assert(tags@ =~= tags0.take(tags@.len() as int));
        assert(files@ =~= files0.take(files@.len() as int));
        assert(rest@ =~= notes0.skip(0));
        assert(ids.skip(0) =~= ids);
    }
    while rest.len() > 0
        invariant
            out@.len() + rest@.len() == notes0.len(),
            rest@ == notes0.skip(out@.len() as int),
            tags@ == tags0.take(tags@.len() as int),
            files@ == files0.take(files@.len() as int),
            ids == spec_note_ids(notes0),
            forall|i: int|
                0 <= i < notes0.len() ==> (#[trigger] notes0[i]).tags@.len() == 0
                    && notes0[i].files@.len() == 0,
            forall|i: int| 0 <= i < tags0.len() ==> (#[trigger] tags0[i]).note_id is Some,
            forall|i: int| 0 <= i < files0.len() ==> (#[trigger] files0[i]).attach_id is Some,
            forall|p: int, q: int| 0 <= p < q < ids.len() ==> ids[p] != ids[q],
            forall|j: int| 0 <= j < out@.len() ==> spec_same_core(#[trigger] out@[j], notes0[j]),
            forall|j: int|
                0 <= j < out@.len() ==> (#[trigger] out@[j]).tags@ == tags0.reverse().filter(
                    spec_tag_of(notes0[j].id),
                ),
            forall|j: int|
                0 <= j < out@.len() ==> (#[trigger] out@[j]).files@ == files0.reverse().filter(
                    spec_file_of(notes0[j].id),
                ),
            spec_aligned(spec_tag_owners(tags@).reverse(), ids.skip(out@.len() as int)),
            spec_aligned(spec_file_owners(files@).reverse(), ids.skip(out@.len() as int)),
            forall|idx: int|
                tags@.len() <= idx < tags0.len() ==> ids.take(out@.len() as int).contains(
                    tag_owner_fn()(#[trigger] tags0[idx]),
                ),
            forall|idx: int|
                files@.len() <= idx < files0.len() ==> ids.take(out@.len() as int).contains(
                    file_owner_fn()(#[trigger] files0[idx]),
                ),
            spec_total_tags(out@) == tags0.len() - tags@.len(),
            spec_total_files(out@) == files0.len() - files@.len(),
        decreases rest@.len(),
    {
        let ghost i = out@.len() as int;
        let mut n = rest.remove(0);
        proof {
            assert(rest@ =~= notes0.skip(i + 1));
            assert(n == notes0[i]);
            assert(n.id == ids[i]);
        }
        let ghost k0 = tags@.len() as int;
        while should_pop_tag(&tags, n.id)
            invariant
                tags@.len() <= k0,
                k0 <= tags0.len(),
                tags@ == tags0.take(tags@.len() as int),
                forall|idx: int| 0 <= idx < tags0.len() ==> (#[trigger] tags0[idx]).note_id is Some,
                0 <= i < ids.len(),
                ids == spec_note_ids(notes0),
                n.id == ids[i],
                spec_same_core(n, notes0[i]),
                n.files@ == notes0[i].files@,
                n.tags@ == tags0.subrange(tags@.len() as int, k0).reverse(),
                forall|idx: int|
                    tags@.len() <= idx < k0 ==> tag_owner_fn()(#[trigger] tags0[idx]) == ids[i],
                spec_aligned(spec_tag_owners(tags@).reverse(), ids.skip(i)),
            decreases tags@.len(),
        {
            let ghost k = tags@.len() as int;
            proof {
                assert(spec_tag_owners(tags@).reverse()[0] == spec_tag_owners(tags@)[k - 1]);
                assert(spec_tag_owners(tags@)[k - 1] == tag_owner_fn()(tags0[k - 1]));
                assert(spec_tag_owners(tags0.take(k - 1)) =~= spec_tag_owners(tags@).take(k - 1));
                assert(spec_tag_owners(tags@).reverse().drop_first() =~= spec_tag_owners(
                    tags0.take(k - 1),
                ).reverse());
                assert(ids.skip(i)[0] == ids[i]);
            }
            let t = tags.pop().unwrap();
            n.tags.push(t);
            proof {
                assert(tags@ =~= tags0.take(k - 1));
                assert(n.tags@ =~= tags0.subrange(k - 1, k0).reverse());
            }
        }
        proof {
            let k1 = tags@.len() as int;
            if k1 > 0 {
                assert(spec_tag_owners(tags@).reverse()[0] == tag_owner_fn()(tags0[k1 - 1]));
            }
            lemma_aligned_advance(spec_tag_owners(tags@).reverse(), ids, i);
            assert forall|idx: int|
                0 <= idx < tags0.len() implies (spec_tag_of(ids[i])(#[trigger] tags0[idx])
                <==> tag_owner_fn()(tags0[idx]) == ids[i]) by {
                assert(tags0[idx].note_id is Some);
            }
            assert(spec_tag_owners(tags0.take(k1)) =~= tags0.take(k1).map_values(tag_owner_fn()));
            lemma_block_filter(tags0, tag_owner_fn(), spec_tag_of(ids[i]), k1, k0, ids, i);
            assert(n.tags@ == tags0.reverse().filter(spec_tag_of(notes0[i].id)));
        }
        let ghost f0 = files@.len() as int;
        while should_pop_file(&files, n.id)
            invariant
                files@.len() <= f0,
                f0 <= files0.len(),
                files@ == files0.take(files@.len() as int),
                forall|idx: int|
                    0 <= idx < files0.len() ==> (#[trigger] files0[idx]).attach_id is Some,
                0 <= i < ids.len(),
                ids == spec_note_ids(notes0),
                n.id == ids[i],
                spec_same_core(n, notes0[i]),
                n.tags@ == tags0.reverse().filter(spec_tag_of(notes0[i].id)),
                n.files@ == files0.subrange(files@.len() as int, f0).reverse(),
                forall|idx: int|
                    files@.len() <= idx < f0 ==> file_owner_fn()(#[trigger] files0[idx]) == ids[i],
                spec_aligned(spec_file_owners(files@).reverse(), ids.skip(i)),
            decreases files@.len(),
        {
            let ghost k = files@.len() as int;
            proof {
                assert(spec_file_owners(files@).reverse()[0] == spec_file_owners(files@)[k - 1]);
                assert(spec_file_owners(files@)[k - 1] == file_owner_fn()(files0[k - 1]));
                assert(spec_file_owners(files0.take(k - 1)) =~= spec_file_owners(files@).take(
                    k - 1,
                ));
                assert(spec_file_owners(files@).reverse().drop_first() =~= spec_file_owners(
                    files0.take(k - 1),
                ).reverse());
                assert(ids.skip(i)[0] == ids[i]);
            }
            let f = files.pop().unwrap();
            n.files.push(f);
            proof {
                assert(files@ =~= files0.take(k - 1));
                assert(n.files@ =~= files0.subrange(k - 1, f0).reverse());
            }
        }
        proof {
            let k1 = files@.len() as int;
            if k1 > 0 {
                assert(spec_file_owners(files@).reverse()[0] == file_owner_fn()(files0[k1 - 1]));
            }
            lemma_aligned_advance(spec_file_owners(files@).reverse(), ids, i);
            assert forall|idx: int|
                0 <= idx < files0.len() implies (spec_file_of(ids[i])(#[trigger] files0[idx])
                <==> file_owner_fn()(files0[idx]) == ids[i]) by {
                assert(files0[idx].attach_id is Some);
            }
            assert(spec_file_owners(files0.take(k1)) =~= files0.take(k1).map_values(
                file_owner_fn(),
            ));
            lemma_block_filter(files0, file_owner_fn(), spec_file_of(ids[i]), k1, f0, ids, i);
            assert(n.files@ == files0.reverse().filter(spec_file_of(notes0[i].id)));
        }
        let ghost out_before = out@;
        out.push(n);
        proof {
            assert(out@.drop_last() =~= out_before);
            assert(out@.last() == n);
            assert forall|idx: int|
                tags@.len() <= idx < tags0.len() implies ids.take(out@.len() as int).contains(
                tag_owner_fn()(#[trigger] tags0[idx])) by {
                if idx < k0 {
                    assert(tag_owner_fn()(tags0[idx]) == ids[i]);
                    assert(ids.take(i + 1)[i] == ids[i]);
                } else {
                    assert(ids.take(i).contains(tag_owner_fn()(tags0[idx])));
                    let j = choose|j: int|
                        0 <= j < i && #[trigger] ids.take(i)[j] == tag_owner_fn()(tags0[idx]);
                    assert(ids.take(i + 1)[j] == tag_owner_fn()(tags0[idx]));
                }
            }
            assert forall|idx: int|
                files@.len() <= idx < files0.len() implies ids.take(out@.len() as int).contains(
                file_owner_fn()(#[trigger] files0[idx])) by {
                if idx < f0 {
                    assert(file_owner_fn()(files0[idx]) == ids[i]);
                    assert(ids.take(i + 1)[i] == ids[i]);
                } else {
                    assert(ids.take(i).contains(file_owner_fn()(files0[idx])));
                    let j = choose|j: int|
                        0 <= j < i && #[trigger] ids.take(i)[j] == file_owner_fn()(files0[idx]);
                    assert(ids.take(i + 1)[j] == file_owner_fn()(files0[idx]));
                }
            }
        }
    }
    proof {
        if tags@.len() > 0 {
            assert(spec_tag_owners(tags@).reverse().len() > 0);
            assert(ids.skip(out@.len() as int).len() == 0);
            assert(false);
        }
        if files@.len() > 0 {
            assert(spec_file_owners(files@).reverse().len() > 0);
            assert(ids.skip(out@.len() as int).len() == 0);
            assert(false);
        }
    }
    out
}

} // verus!
