//! Properties that relate several operations on notes.

use vstd::prelude::*;
use crate::model::{Note, NoteView};
use crate::notes::{
    add_outcome, add_tags, lemma_add_tags_grows, append_outcome, appended_text, edit_outcome,
    first_error, hit_lowered, ids_distinct, lowered_tags, search_from, search_results, import_outcome, index_of_id, lemma_index_of_id, lemma_max_id_bounds,
    max_id, note_error, remove_many_outcome, renumbered, rfc3339_valid, split_removed, tag_equiv,
    tag_outcome, tag_present, text_error, untag_outcome, without_tag, NoteUpdate,
};
use crate::text::{contains, is_blank, occurs_at, str_lower};
use crate::listing::{limited, list_outcome, listed_notes, precedes, seq_lt, sort_key, sort_mode, sorted_positions, SortMode};

verus! {

/// Replacing a note by one with the same id keeps ids distinct.
proof fn lemma_update_same_id(s: Seq<NoteView>, i: int, n: NoteView)
    requires
        ids_distinct(s),
        0 <= i < s.len(),
        n.id == s[i].id,
    ensures
        ids_distinct(s.update(i, n)),
{
    let u = s.update(i, n);
    assert forall|a: int, b: int| 0 <= a < b < u.len() implies #[trigger] u[a].id != #[trigger] u[b].id by {
        assert(u[a].id == s[a].id);
        assert(u[b].id == s[b].id);
    }
}

/// Law: adding a note keeps ids distinct, since the new id exceeds all others.
pub proof fn lemma_add_keeps_ids_distinct(
    old: Seq<NoteView>,
    text: Seq<char>,
    created_at: Seq<char>,
    r: Result<Note, String>,
    new: Seq<NoteView>,
)
    requires
        ids_distinct(old),
        add_outcome(old, text, created_at, r, new),
    ensures
        ids_distinct(new),
{
    lemma_max_id_bounds(old);
    if r is Ok {
        assert forall|a: int, b: int| 0 <= a < b < new.len() implies #[trigger] new[a].id
            != #[trigger] new[b].id by {
            if b < old.len() {
                assert(new[a] == old[a] && new[b] == old[b]);
            } else {
                assert(new[a] == old[a]);
            }
        }
    }
}

/// Law: a note that was added is found again by its id, unchanged.
pub proof fn lemma_get_after_add(
    old: Seq<NoteView>,
    text: Seq<char>,
    created_at: Seq<char>,
    r: Result<Note, String>,
    new: Seq<NoteView>,
)
    requires
        add_outcome(old, text, created_at, r, new),
        r is Ok,
    ensures
        index_of_id(new, r->Ok_0@.id) == old.len(),
        new[old.len() as int] == r->Ok_0@,
        text_error(r->Ok_0@.text) is None,
{
    let n = r->Ok_0@;
    lemma_max_id_bounds(old);
    lemma_index_of_id(new, n.id);
    assert(new[old.len() as int] == n);
    assert forall|j: int| 0 <= j < old.len() implies #[trigger] new[j].id != n.id by {
        assert(new[j] == old[j]);
    }
    let k = index_of_id(new, n.id);
    if k < old.len() {
        assert(new[k].id == n.id);
    }
}

/// Law: editing, appending to, tagging or untagging a note keeps ids distinct
/// (only the note with that id changes, and it keeps its id).
pub proof fn lemma_modify_keeps_ids_distinct(
    old: Seq<NoteView>,
    new: Seq<NoteView>,
    id: u64,
    text: Seq<char>,
    tags: Seq<Seq<char>>,
    now: Seq<char>,
    r: Result<NoteUpdate, String>,
)
    requires
        ids_distinct(old),
        edit_outcome(old, id, text, now, r, new) || append_outcome(old, id, text, now, r, new)
            || tag_outcome(old, id, tags, now, r, new) || untag_outcome(old, id, text, now, r, new),
    ensures
        ids_distinct(new),
{
    let i = index_of_id(old, id);
    lemma_index_of_id(old, id);
    if new != old {
        assert(i >= 0);
        lemma_update_same_id(old, i, r->Ok_0.note@);
    }
}

/// Law: importing keeps ids distinct, since the imported records get ids
/// above every existing one, in increasing order.
pub proof fn lemma_import_keeps_ids_distinct(
    old: Seq<NoteView>,
    incoming: Seq<NoteView>,
    r: Result<(), String>,
    new: Seq<NoteView>,
)
    requires
        ids_distinct(old),
        import_outcome(old, incoming, r, new),
    ensures
        ids_distinct(new),
{
    lemma_max_id_bounds(old);
    if r is Ok {
        let m = max_id(old);
        let added = renumbered(incoming, m);
        assert forall|a: int, b: int| 0 <= a < b < new.len() implies #[trigger] new[a].id
            != #[trigger] new[b].id by {
            if b < old.len() {
                assert(new[a] == old[a] && new[b] == old[b]);
            } else if a < old.len() {
                assert(new[a] == old[a]);
                assert(new[b] == added[b - old.len()]);
            } else {
                assert(new[a] == added[a - old.len()]);
                assert(new[b] == added[b - old.len()]);
            }
        }
    }
}

/// Law: importing into an empty store numbers the records 1, 2, ... in
/// order; so records already numbered that way (an export of a store whose
/// ids run from 1) come back unchanged.
pub proof fn lemma_import_into_empty(incoming: Seq<NoteView>, r: Result<(), String>, new: Seq<NoteView>)
    requires
        import_outcome(Seq::empty(), incoming, r, new),
        r is Ok,
    ensures
        new == renumbered(incoming, 0),
        (forall|i: int| 0 <= i < incoming.len() ==> #[trigger] incoming[i].id == i + 1) ==> new
            == incoming,
{
    let e = Seq::<NoteView>::empty();
    assert(max_id(e) == 0);
    assert(e + renumbered(incoming, 0) =~= renumbered(incoming, 0));
    if forall|i: int| 0 <= i < incoming.len() ==> #[trigger] incoming[i].id == i + 1 {
        let rn = renumbered(incoming, 0);
        assert forall|i: int| 0 <= i < incoming.len() implies #[trigger] rn[i] == incoming[i] by {
            assert(incoming[i].id == i + 1);
            assert(rn[i].id == incoming[i].id);
        }
        assert(rn =~= incoming);
    }
}

/// Every kept and every removed note comes from the notes split, in order.
proof fn lemma_split_parts(s: Seq<NoteView>, t: Set<u64>)
    ensures
        forall|x: int|
            0 <= x < split_removed(s, t).0.len() ==> exists|y: int|
                0 <= y < s.len() && #[trigger] split_removed(s, t).0[x] == s[y],
    decreases s.len(),
{
    if s.len() > 0 {
        let t2 = if t.contains(s[0].id) {
            t.remove(s[0].id)
        } else {
            t
        };
        lemma_split_parts(s.drop_first(), t2);
        let k = split_removed(s.drop_first(), t2).0;
        assert forall|x: int| 0 <= x < split_removed(s, t).0.len() implies exists|y: int|
            0 <= y < s.len() && #[trigger] split_removed(s, t).0[x] == s[y] by {
            let kk = split_removed(s, t).0;
            if t.contains(s[0].id) {
                assert(kk[x] == k[x]);
                let y = choose|y: int| 0 <= y < s.drop_first().len() && k[x] == s.drop_first()[y];
                assert(kk[x] == s[y + 1]);
            } else if x == 0 {
                assert(kk[0] == s[0]);
            } else {
                assert(kk[x] == k[x - 1]);
                let y = choose|y: int| 0 <= y < s.drop_first().len() && k[x - 1] == s.drop_first()[y];
                assert(kk[x] == s[y + 1]);
            }
        }
    }
}

proof fn lemma_split_kept_distinct(s: Seq<NoteView>, t: Set<u64>)
    requires
        ids_distinct(s),
    ensures
        ids_distinct(split_removed(s, t).0),
    decreases s.len(),
{
    if s.len() > 0 {
        let d = s.drop_first();
        assert(ids_distinct(d)) by {
            assert forall|a: int, b: int| 0 <= a < b < d.len() implies #[trigger] d[a].id
                != #[trigger] d[b].id by {
                assert(d[a] == s[a + 1] && d[b] == s[b + 1]);
            }
        }
        let t2 = if t.contains(s[0].id) {
            t.remove(s[0].id)
        } else {
            t
        };
        lemma_split_kept_distinct(d, t2);
        lemma_split_parts(d, t2);
        let k = split_removed(d, t2).0;
        if !t.contains(s[0].id) {
            let kk = split_removed(s, t).0;
            assert forall|a: int, b: int| 0 <= a < b < kk.len() implies #[trigger] kk[a].id
                != #[trigger] kk[b].id by {
                if a == 0 {
                    assert(kk[b] == k[b - 1]);
                    let y = choose|y: int| 0 <= y < d.len() && k[b - 1] == d[y];
                    assert(k[b - 1] == s[y + 1]);
                } else {
                    assert(kk[a] == k[a - 1] && kk[b] == k[b - 1]);
                }
            }
        }
    }
}

/// Law: removing notes keeps ids distinct.
pub proof fn lemma_remove_keeps_ids_distinct(
    old: Seq<NoteView>,
    ids: Seq<u64>,
    force: bool,
    r: Result<Vec<Note>, String>,
    new: Seq<NoteView>,
)
    requires
        ids_distinct(old),
        remove_many_outcome(old, ids, force, r, new),
    ensures
        ids_distinct(new),
{
    lemma_split_kept_distinct(old, ids.to_set());
}

/// Every tag asked for is present after adding tags, and presence is never lost.
proof fn lemma_add_tags_present(tags: Seq<Seq<char>>, new: Seq<Seq<char>>)
    ensures
        forall|k: int| 0 <= k < new.len() ==> tag_present(add_tags(tags, new), #[trigger] new[k]),
        forall|u: Seq<char>| tag_present(tags, u) ==> tag_present(#[trigger] add_tags(tags, new), u),
    decreases new.len(),
{
    if new.len() > 0 {
        let next = if tag_present(tags, new[0]) {
            tags
        } else {
            tags.push(new[0])
        };
        assert forall|u: Seq<char>| tag_present(tags, u) implies tag_present(next, u) by {
            if !tag_present(tags, new[0]) {
                let j = choose|j: int| 0 <= j < tags.len() && tag_equiv(#[trigger] tags[j], u);
                assert(next[j] == tags[j]);
            }
        }
        if !tag_present(tags, new[0]) {
            assert(next[tags.len() as int] == new[0]);
            assert(tag_equiv(next[tags.len() as int], new[0]));
        }
        lemma_add_tags_present(next, new.drop_first());
        assert forall|k: int| 0 <= k < new.len() implies tag_present(add_tags(tags, new), #[trigger] new[k]) by {
            assert(add_tags(tags, new) == add_tags(next, new.drop_first()));
            if k > 0 {
                assert(new[k] == new.drop_first()[k - 1]);
            } else {
                assert(tag_present(next, new[0]));
            }
        }
    }
}

/// Adding tags that are all present changes nothing.
proof fn lemma_add_present_tags(tags: Seq<Seq<char>>, new: Seq<Seq<char>>)
    requires
        forall|k: int| 0 <= k < new.len() ==> tag_present(tags, #[trigger] new[k]),
    ensures
        add_tags(tags, new) == tags,
    decreases new.len(),
{
    if new.len() > 0 {
        assert(tag_present(tags, new[0]));
        assert forall|k: int| 0 <= k < new.drop_first().len() implies tag_present(
            tags,
            #[trigger] new.drop_first()[k],
        ) by {
            assert(new.drop_first()[k] == new[k + 1]);
        }
        lemma_add_present_tags(tags, new.drop_first());
    }
}

/// Law: tagging is idempotent — tagging again with the same tags changes
/// nothing, so the note keeps its `updated_at`.
pub proof fn lemma_tag_idempotent(tags: Seq<Seq<char>>, new: Seq<Seq<char>>)
    ensures
        add_tags(add_tags(tags, new), new) == add_tags(tags, new),
{
    lemma_add_tags_present(tags, new);
    lemma_add_present_tags(add_tags(tags, new), new);
}

/// Law: tagging a note a second time with the same tags changes nothing
/// (whatever the time), and reports no change.
pub proof fn lemma_tag_twice_no_change(
    s0: Seq<NoteView>,
    id: u64,
    tags: Seq<Seq<char>>,
    now1: Seq<char>,
    now2: Seq<char>,
    r1: Result<NoteUpdate, String>,
    s1: Seq<NoteView>,
    r2: Result<NoteUpdate, String>,
    s2: Seq<NoteView>,
)
    requires
        tag_outcome(s0, id, tags, now1, r1, s1),
        tag_outcome(s1, id, tags, now2, r2, s2),
    ensures
        s2 == s1,
        r2 matches Ok(u) ==> !u.changed,
{
    let i = index_of_id(s0, id);
    lemma_index_of_id(s0, id);
    lemma_index_of_id(s1, id);
    if exists|j: int| 0 <= j < tags.len() && is_blank(#[trigger] tags[j]) {
    } else if i >= 0 {
        lemma_add_tags_grows(s0[i].tags, tags);
        assert(s1[i].id == id);
        assert forall|j: int| 0 <= j < i implies #[trigger] s1[j].id != id by {
            assert(s1[j] == s0[j]);
        }
        let k = index_of_id(s1, id);
        if k < i {
            assert(s1[k].id == id);
        }
        assert(k == i);
        assert(s1[i].tags == add_tags(s0[i].tags, tags));
        lemma_tag_idempotent(s0[i].tags, tags);
    }
}

/// Removing a tag that no tag equals ignoring case changes nothing.
proof fn lemma_without_absent_tag(tags: Seq<Seq<char>>, needle: Seq<char>)
    requires
        forall|j: int| 0 <= j < tags.len() ==> str_lower(#[trigger] tags[j]) != needle,
    ensures
        without_tag(tags, needle) == tags,
    decreases tags.len(),
{
    if tags.len() > 0 {
        let d = tags.drop_last();
        assert forall|j: int| 0 <= j < d.len() implies str_lower(#[trigger] d[j]) != needle by {
            assert(d[j] == tags[j]);
        }
        lemma_without_absent_tag(d, needle);
        assert(str_lower(tags[tags.len() - 1]) != needle);
        assert(d.push(tags.last()) =~= tags);
    }
}

/// Law: untagging a tag that tagging has just added gives back the tags the
/// note had before.
pub proof fn lemma_untag_undoes_tag(tags: Seq<Seq<char>>, t: Seq<char>)
    requires
        !tag_present(tags, t),
    ensures
        add_tags(tags, seq![t]) == tags.push(t),
        without_tag(add_tags(tags, seq![t]), str_lower(t)) == tags,
{
    let one = seq![t];
    assert(one[0] == t);
    assert(one.drop_first() =~= Seq::<Seq<char>>::empty());
    assert(add_tags(tags, one) == add_tags(tags.push(t), one.drop_first()));
    assert forall|j: int| 0 <= j < tags.len() implies str_lower(#[trigger] tags[j]) != str_lower(t) by {
        if str_lower(tags[j]) == str_lower(t) {
            assert(tag_equiv(tags[j], t));
        }
    }
    lemma_without_absent_tag(tags, str_lower(t));
    let p = tags.push(t);
    assert(p.drop_last() =~= tags);
    assert(p.last() == t);
}

/// Law: tagging a note with one tag it does not carry and then untagging
/// that tag gives the note back its tags (only its update time changes).
pub proof fn lemma_untag_after_tag(
    s0: Seq<NoteView>,
    id: u64,
    t: Seq<char>,
    now1: Seq<char>,
    now2: Seq<char>,
    r1: Result<NoteUpdate, String>,
    s1: Seq<NoteView>,
    r2: Result<NoteUpdate, String>,
    s2: Seq<NoteView>,
)
    requires
        tag_outcome(s0, id, seq![t], now1, r1, s1),
        r1 is Ok,
        untag_outcome(s1, id, t, now2, r2, s2),
        index_of_id(s0, id) >= 0 ==> !tag_present(s0[index_of_id(s0, id)].tags, t),
    ensures
        index_of_id(s2, id) == index_of_id(s0, id),
        index_of_id(s0, id) >= 0,
        s2[index_of_id(s0, id)].tags == s0[index_of_id(s0, id)].tags,
        s2.len() == s0.len(),
        forall|j: int| 0 <= j < s0.len() && j != index_of_id(s0, id) ==> #[trigger] s2[j] == s0[j],
{
    let i = index_of_id(s0, id);
    lemma_index_of_id(s0, id);
    assert(seq![t][0] == t);
    assert(i >= 0);
    lemma_untag_undoes_tag(s0[i].tags, t);
    assert(s1 == s0.update(i, r1->Ok_0.note@));
    lemma_index_of_id(s1, id);
    assert forall|j: int| 0 <= j < i implies #[trigger] s1[j].id != id by {
        assert(s1[j] == s0[j]);
    }
    assert(s1[i].id == id);
    let k = index_of_id(s1, id);
    if 0 <= k < i {
        assert(s1[k].id == id);
    }
    assert(k == i);
    assert(s1[i].tags == s0[i].tags.push(t));
    assert(s2[i].id == id);
    lemma_index_of_id(s2, id);
    assert(s2 == s1.update(i, r2->Ok_0.note@));
    assert forall|j: int| 0 <= j < i implies #[trigger] s2[j].id != id by {
        assert(s2[j] == s0[j]);
    }
    let k2 = index_of_id(s2, id);
    if 0 <= k2 < i {
        assert(s2[k2].id == id);
    }
}

/// Law: after removing a tag, no remaining tag equals it ignoring case.
pub proof fn lemma_untag_removes_all(tags: Seq<Seq<char>>, tag: Seq<char>)
    ensures
        forall|j: int|
            0 <= j < without_tag(tags, str_lower(tag)).len() ==> !tag_equiv(
                #[trigger] without_tag(tags, str_lower(tag))[j],
                tag,
            ),
    decreases tags.len(),
{
    if tags.len() > 0 {
        lemma_untag_removes_all(tags.drop_last(), tag);
        let rest = without_tag(tags.drop_last(), str_lower(tag));
        let w = without_tag(tags, str_lower(tag));
        assert forall|j: int| 0 <= j < w.len() implies !tag_equiv(#[trigger] w[j], tag) by {
            if j < rest.len() {
                assert(w[j] == rest[j]);
            }
        }
    }
}

/// Law: once a note is removed by id (with ids distinct), it is not found.
pub proof fn lemma_not_found_after_remove(old: Seq<NoteView>, id: u64)
    requires
        ids_distinct(old),
        index_of_id(old, id) >= 0,
    ensures
        index_of_id(old.remove(index_of_id(old, id)), id) == -1,
{
    let i = index_of_id(old, id);
    lemma_index_of_id(old, id);
    let new = old.remove(i);
    lemma_index_of_id(new, id);
    assert forall|j: int| 0 <= j < new.len() implies #[trigger] new[j].id != id by {
        if j < i {
            assert(new[j] == old[j]);
        } else {
            assert(new[j] == old[j + 1]);
        }
    }
}

/// Every note passes `validate_note`.
pub open spec fn all_valid(s: Seq<NoteView>) -> bool {
    forall|i: int| 0 <= i < s.len() ==> #[trigger] note_error(s[i]) is None
}

/// No tag is blank.
pub open spec fn tags_ok(t: Seq<Seq<char>>) -> bool {
    forall|j: int| 0 <= j < t.len() ==> !is_blank(#[trigger] t[j])
}

proof fn lemma_add_tags_nonblank(tags: Seq<Seq<char>>, new: Seq<Seq<char>>)
    requires
        tags_ok(tags),
        tags_ok(new),
    ensures
        tags_ok(add_tags(tags, new)),
    decreases new.len(),
{
    if new.len() > 0 {
        let next = if tag_present(tags, new[0]) {
            tags
        } else {
            tags.push(new[0])
        };
        assert(tags_ok(next)) by {
            assert forall|j: int| 0 <= j < next.len() implies !is_blank(#[trigger] next[j]) by {
                if j < tags.len() {
                    assert(next[j] == tags[j]);
                }
            }
        }
        assert(tags_ok(new.drop_first())) by {
            assert forall|j: int| 0 <= j < new.drop_first().len() implies !is_blank(
                #[trigger] new.drop_first()[j],
            ) by {
                assert(new.drop_first()[j] == new[j + 1]);
            }
        }
        lemma_add_tags_nonblank(next, new.drop_first());
    }
}

proof fn lemma_without_tag_nonblank(tags: Seq<Seq<char>>, needle: Seq<char>)
    requires
        tags_ok(tags),
    ensures
        tags_ok(without_tag(tags, needle)),
    decreases tags.len(),
{
    if tags.len() > 0 {
        let d = tags.drop_last();
        assert(tags_ok(d)) by {
            assert forall|j: int| 0 <= j < d.len() implies !is_blank(#[trigger] d[j]) by {
                assert(d[j] == tags[j]);
            }
        }
        lemma_without_tag_nonblank(d, needle);
        let rest = without_tag(d, needle);
        let w = without_tag(tags, needle);
        assert forall|j: int| 0 <= j < w.len() implies !is_blank(#[trigger] w[j]) by {
            if j < rest.len() {
                assert(w[j] == rest[j]);
            } else {
                assert(w[j] == tags.last());
            }
        }
    }
}

proof fn lemma_update_valid(s: Seq<NoteView>, i: int, n: NoteView)
    requires
        all_valid(s),
        0 <= i < s.len(),
        note_error(n) is None,
    ensures
        all_valid(s.update(i, n)),
{
    let u = s.update(i, n);
    assert forall|k: int| 0 <= k < u.len() implies #[trigger] note_error(u[k]) is None by {
        if k != i {
            assert(u[k] == s[k]);
        }
    }
}

/// Law: a note added with a valid RFC 3339 creation time passes
/// `validate_note`, and so do all the notes after the addition.
pub proof fn lemma_add_keeps_notes_valid(
    old: Seq<NoteView>,
    text: Seq<char>,
    created_at: Seq<char>,
    r: Result<Note, String>,
    new: Seq<NoteView>,
)
    requires
        all_valid(old),
        add_outcome(old, text, created_at, r, new),
        created_at.len() > 0,
        rfc3339_valid(created_at),
    ensures
        all_valid(new),
{
    if r is Ok {
        let n = r->Ok_0@;
        assert(note_error(n) is None);
        assert forall|k: int| 0 <= k < new.len() implies #[trigger] note_error(new[k]) is None by {
            if k < old.len() {
                assert(new[k] == old[k]);
            } else {
                assert(new[k] == n);
            }
        }
    }
}

/// Law: editing, appending to, tagging or untagging a note at a valid
/// RFC 3339 time keeps every note passing `validate_note`.
pub proof fn lemma_modify_keeps_notes_valid(
    old: Seq<NoteView>,
    new: Seq<NoteView>,
    id: u64,
    text: Seq<char>,
    tags: Seq<Seq<char>>,
    now: Seq<char>,
    r: Result<NoteUpdate, String>,
)
    requires
        all_valid(old),
        rfc3339_valid(now),
        edit_outcome(old, id, text, now, r, new) || append_outcome(old, id, text, now, r, new)
            || tag_outcome(old, id, tags, now, r, new) || untag_outcome(old, id, text, now, r, new),
    ensures
        all_valid(new),
{
    let i = index_of_id(old, id);
    lemma_index_of_id(old, id);
    if new != old {
        assert(i >= 0);
        let o = old[i];
        let n = r->Ok_0.note@;
        assert(note_error(o) is None);
        assert(tags_ok(o.tags));
        if edit_outcome(old, id, text, now, r, new) {
        } else if append_outcome(old, id, text, now, r, new) {
            let t = appended_text(o.text, text);
            assert(!is_blank(t)) by {
                let j = choose|j: int| 0 <= j < o.text.len() && !crate::text::unicode_whitespace(#[trigger] o.text[j]);
                assert(t[j] == o.text[j]);
            }
        } else if tag_outcome(old, id, tags, now, r, new) {
            assert(tags_ok(tags));
            lemma_add_tags_nonblank(o.tags, tags);
        } else {
            lemma_without_tag_nonblank(o.tags, str_lower(text));
        }
        assert(note_error(n) is None);
        lemma_update_valid(old, i, n);
    }
}

proof fn lemma_no_first_error(s: Seq<NoteView>)
    requires
        first_error(s) is None,
    ensures
        all_valid(s),
    decreases s.len(),
{
    if s.len() > 0 {
        lemma_no_first_error(s.drop_last());
        assert forall|k: int| 0 <= k < s.len() implies #[trigger] note_error(s[k]) is None by {
            if k < s.len() - 1 {
                assert(s[k] == s.drop_last()[k]);
            }
        }
    }
}

/// Law: importing keeps every note passing `validate_note`.
pub proof fn lemma_import_keeps_notes_valid(
    old: Seq<NoteView>,
    incoming: Seq<NoteView>,
    r: Result<(), String>,
    new: Seq<NoteView>,
)
    requires
        all_valid(old),
        import_outcome(old, incoming, r, new),
    ensures
        all_valid(new),
{
    if r is Ok {
        lemma_no_first_error(incoming);
        let added = renumbered(incoming, max_id(old));
        assert forall|k: int| 0 <= k < new.len() implies #[trigger] note_error(new[k]) is None by {
            if k < old.len() {
                assert(new[k] == old[k]);
            } else {
                assert(new[k] == added[k - old.len()]);
                assert(note_error(incoming[k - old.len()]) is None);
            }
        }
    }
}

/// Law: removing notes keeps every note passing `validate_note`.
pub proof fn lemma_remove_keeps_notes_valid(
    old: Seq<NoteView>,
    ids: Seq<u64>,
    force: bool,
    r: Result<Vec<Note>, String>,
    new: Seq<NoteView>,
)
    requires
        all_valid(old),
        remove_many_outcome(old, ids, force, r, new),
    ensures
        all_valid(new),
{
    lemma_split_parts(old, ids.to_set());
    if r is Ok {
        let kept = split_removed(old, ids.to_set()).0;
        assert forall|k: int| 0 <= k < kept.len() implies #[trigger] note_error(kept[k]) is None by {
            let y = choose|y: int| 0 <= y < old.len() && kept[k] == old[y];
            assert(note_error(old[y]) is None);
        }
    }
}

/// Law: a search whose lowercased query is empty (as the lowercase form of
/// an empty query is) returns every note, in order.
pub proof fn lemma_empty_search_returns_all(s: Seq<NoteView>, q: Seq<char>)
    requires
        q.len() == 0,
    ensures
        search_results(s, q) == s,
{
    lemma_empty_search_from(s, Seq::new(s.len(), |i: int| str_lower(s[i].text)), Seq::new(
        s.len(),
        |i: int| lowered_tags(s[i].tags),
    ), q);
}

proof fn lemma_empty_search_from(
    s: Seq<NoteView>,
    lt: Seq<Seq<char>>,
    ltags: Seq<Seq<Seq<char>>>,
    q: Seq<char>,
)
    requires
        q.len() == 0,
    ensures
        search_from(s, lt, ltags, q) == s,
    decreases s.len(),
{
    if s.len() > 0 {
        lemma_empty_search_from(s.drop_last(), lt, ltags, q);
        let l = lt[s.len() - 1];
        assert(l.subrange(0, 0) =~= q);
        assert(occurs_at(l, q, 0));
        assert(s.drop_last().push(s.last()) =~= s);
    }
}

} // verus!

verus! {

/// The time by which the updated order ranks a note: its update time, or its
/// creation time when it was never updated.
pub open spec fn last_touched(n: NoteView) -> Seq<char> {
    if n.updated_at.len() == 0 {
        n.created_at
    } else {
        n.updated_at
    }
}

proof fn lemma_seq_lt_asym(a: Seq<char>, b: Seq<char>)
    requires
        seq_lt(a, b),
    ensures
        !seq_lt(b, a),
    decreases a.len(),
{
    if a.len() > 0 && b.len() > 0 && a[0] == b[0] {
        lemma_seq_lt_asym(a.drop_first(), b.drop_first());
    }
}

/// What one note preceding another in a listing order says of their fields.
proof fn lemma_precedes_fields(f: Seq<NoteView>, mode: SortMode, i: int, j: int)
    requires
        precedes(f, mode, i, j),
    ensures
        mode == SortMode::Id ==> f[i].id <= f[j].id,
        mode == SortMode::Date ==> !seq_lt(f[i].created_at, f[j].created_at),
        mode == SortMode::Updated ==> !seq_lt(last_touched(f[i]), last_touched(f[j])),
{
    if mode != SortMode::Id {
        let a = sort_key(f[i], mode);
        let b = sort_key(f[j], mode);
        if seq_lt(b, a) {
            lemma_seq_lt_asym(b, a);
        } else {
            assert(a == b);
            if seq_lt(a, b) {
                lemma_seq_lt_asym(a, b);
            }
        }
    }
}

/// Law: a listing comes out in the order asked for. By id (the default), ids
/// never decrease; by date, a note never comes before one created later,
/// whatever their update times; by update, a note never comes before one
/// touched later (updated, or created when never updated). The limit keeps
/// this order.
pub proof fn lemma_listing_order(
    s: Seq<NoteView>,
    tag: Seq<char>,
    sort: Seq<char>,
    limit: usize,
    r: Result<Vec<Note>, String>,
)
    requires
        list_outcome(s, tag, sort, limit, r),
        r is Ok,
    ensures
        ({
            let v = r->Ok_0.deep_view();
            &&& (sort == ""@ || sort == "id"@) ==> forall|k: int, l: int|
                0 <= k < l < v.len() ==> (#[trigger] v[k]).id <= (#[trigger] v[l]).id
            &&& sort == "date"@ ==> forall|k: int, l: int|
                0 <= k < l < v.len() ==> !seq_lt((#[trigger] v[k]).created_at, (#[trigger] v[l]).created_at)
            &&& sort == "updated"@ ==> forall|k: int, l: int|
                0 <= k < l < v.len() ==> !seq_lt(last_touched(#[trigger] v[k]), last_touched(#[trigger] v[l]))
        }),
{
    reveal_strlit("");
    reveal_strlit("id");
    reveal_strlit("date");
    reveal_strlit("updated");
    assert(""@.len() == 0 && "id"@.len() == 2 && "date"@.len() == 4 && "updated"@.len() == 7);
    let f = listed_notes(s, tag);
    let mode = sort_mode(sort)->Some_0;
    let v = r->Ok_0.deep_view();
    let p = choose|p: Seq<usize>|
        sorted_positions(f, mode, p) && v == limited(p.map_values(|i: usize| f[i as int]), limit, mode);
    let m = p.map_values(|i: usize| f[i as int]);
    let off: int = if limit > 0 && m.len() > limit && mode == SortMode::Id {
        m.len() - limit
    } else {
        0
    };
    assert forall|k: int| 0 <= k < v.len() implies #[trigger] v[k] == m[k + off] && 0 <= k + off < m.len() by {}
    assert forall|k: int, l: int| 0 <= k < l < v.len() implies ({
        &&& mode == SortMode::Id ==> v[k].id <= v[l].id
        &&& mode == SortMode::Date ==> !seq_lt(v[k].created_at, v[l].created_at)
        &&& mode == SortMode::Updated ==> !seq_lt(last_touched(v[k]), last_touched(v[l]))
    }) by {
        let a = k + off;
        let b = l + off;
        assert(v[k] == m[a] && v[l] == m[b]);
        assert(precedes(f, mode, p[a] as int, p[b] as int));
        lemma_precedes_fields(f, mode, p[a] as int, p[b] as int);
    }
    if sort == ""@ || sort == "id"@ {
        assert(mode == SortMode::Id);
        assert forall|k: int, l: int| 0 <= k < l < v.len() implies (#[trigger] v[k]).id <= (#[trigger] v[l]).id by {}
    }
    if sort == "date"@ {
        assert(mode == SortMode::Date);
        assert forall|k: int, l: int| 0 <= k < l < v.len() implies !seq_lt((#[trigger] v[k]).created_at, (#[trigger] v[l]).created_at) by {}
    }
    if sort == "updated"@ {
        assert(mode == SortMode::Updated);
        assert forall|k: int, l: int| 0 <= k < l < v.len() implies !seq_lt(last_touched(#[trigger] v[k]), last_touched(#[trigger] v[l])) by {}
    }
}

} // verus!

verus! {

/// Whether a search for `query` should find the note: the lowercased query
/// occurs in its lowercased text or in one of its lowercased tags.
pub open spec fn matches_query(n: NoteView, query: Seq<char>) -> bool {
    contains(str_lower(n.text), str_lower(query)) || exists|j: int|
        0 <= j < n.tags.len() && contains(str_lower(#[trigger] n.tags[j]), str_lower(query))
}

proof fn lemma_search_from_members(
    s: Seq<NoteView>,
    all: Seq<NoteView>,
    query: Seq<char>,
)
    requires
        s.len() <= all.len(),
        forall|i: int| 0 <= i < s.len() ==> #[trigger] s[i] == all[i],
    ensures
        ({
            let lt = Seq::new(all.len(), |i: int| str_lower(all[i].text));
            let lg = Seq::new(all.len(), |i: int| lowered_tags(all[i].tags));
            let r = search_from(s, lt, lg, str_lower(query));
            &&& forall|i: int| 0 <= i < s.len() && matches_query(s[i], query) ==> r.contains(#[trigger] s[i])
            &&& forall|k: int| 0 <= k < r.len() ==> matches_query(#[trigger] r[k], query) && s.contains(r[k])
        }),
    decreases s.len(),
{
    let lt = Seq::new(all.len(), |i: int| str_lower(all[i].text));
    let lg = Seq::new(all.len(), |i: int| lowered_tags(all[i].tags));
    let q = str_lower(query);
    if s.len() > 0 {
        let d = s.drop_last();
        lemma_search_from_members(d, all, query);
        let rest = search_from(d, lt, lg, q);
        let r = search_from(s, lt, lg, q);
        let n = s.len() - 1;
        let last = s[n];
        assert(last == all[n]);
        assert(lt[n] == str_lower(last.text));
        assert(lg[n] == lowered_tags(last.tags));
        assert(hit_lowered(lt[n], lg[n], q) == matches_query(last, query)) by {
            if matches_query(last, query) && !contains(str_lower(last.text), q) {
                let j = choose|j: int| 0 <= j < last.tags.len() && contains(str_lower(#[trigger] last.tags[j]), q);
                assert(lg[n][j] == str_lower(last.tags[j]));
            }
            if hit_lowered(lt[n], lg[n], q) && !contains(lt[n], q) {
                let j = choose|j: int| 0 <= j < lg[n].len() && contains(#[trigger] lg[n][j], q);
                assert(lg[n][j] == str_lower(last.tags[j]));
            }
        }
        assert forall|i: int| 0 <= i < s.len() && matches_query(s[i], query) implies r.contains(#[trigger] s[i]) by {
            if i < n {
                assert(s[i] == d[i]);
                let k = choose|k: int| 0 <= k < rest.len() && rest[k] == d[i];
                if matches_query(last, query) {
                    assert(r[k] == rest[k]);
                } else {
                    assert(r[k] == rest[k]);
                }
            } else {
                assert(r[rest.len() as int] == last);
            }
        }
        assert forall|k: int| 0 <= k < r.len() implies matches_query(#[trigger] r[k], query) && s.contains(r[k]) by {
            if k < rest.len() {
                assert(r[k] == rest[k]);
                assert(matches_query(rest[k], query) && d.contains(rest[k]));
                let i = choose|i: int| 0 <= i < d.len() && d[i] == rest[k];
                assert(d[i] == s[i]);
            } else {
                assert(r[k] == last);
                assert(s[n] == last);
            }
        }
    }
}

/// Law: a search finds exactly the notes that match: every note whose
/// lowercased text, or one of whose lowercased tags, contains the lowercased
/// query is in the result, and everything in the result is such a note. In
/// particular a note carrying a tag equal to the query ignoring case is found.
pub proof fn lemma_search_finds_matches(s: Seq<NoteView>, query: Seq<char>)
    ensures
        forall|i: int| 0 <= i < s.len() && matches_query(s[i], query)
            ==> search_results(s, str_lower(query)).contains(#[trigger] s[i]),
        forall|k: int|
            0 <= k < search_results(s, str_lower(query)).len() ==> matches_query(
                #[trigger] search_results(s, str_lower(query))[k],
                query,
            ) && s.contains(search_results(s, str_lower(query))[k]),
        forall|i: int, j: int|
            0 <= i < s.len() && 0 <= j < s[i].tags.len() && tag_equiv(#[trigger] s[i].tags[j], query)
                ==> search_results(s, str_lower(query)).contains(s[i]),
{
    lemma_search_from_members(s, s, query);
    assert forall|i: int, j: int|
        0 <= i < s.len() && 0 <= j < s[i].tags.len() && tag_equiv(#[trigger] s[i].tags[j], query)
            implies search_results(s, str_lower(query)).contains(s[i]) by {
        let l = str_lower(s[i].tags[j]);
        assert(l.subrange(0, l.len() as int) =~= l);
        assert(occurs_at(l, str_lower(query), 0));
        assert(matches_query(s[i], query));
    }
}

} // verus!

verus! {

/// What splitting notes with distinct ids does: a kept note's id is never a
/// target, every note whose id is a target is removed, and every other note
/// is kept.
proof fn lemma_split_targets(s: Seq<NoteView>, t: Set<u64>)
    requires
        ids_distinct(s),
    ensures
        forall|x: int|
            0 <= x < split_removed(s, t).0.len() ==> !t.contains(#[trigger] split_removed(s, t).0[x].id),
        forall|i: int| 0 <= i < s.len() && t.contains(s[i].id) ==> split_removed(s, t).1.contains(#[trigger] s[i]),
        forall|i: int| 0 <= i < s.len() && !t.contains(s[i].id) ==> split_removed(s, t).0.contains(#[trigger] s[i]),
    decreases s.len(),
{
    if s.len() > 0 {
        let d = s.drop_first();
        assert(ids_distinct(d)) by {
            assert forall|a: int, b: int| 0 <= a < b < d.len() implies #[trigger] d[a].id != #[trigger] d[b].id by {
                assert(d[a] == s[a + 1] && d[b] == s[b + 1]);
            }
        }
        let x0 = s[0];
        let t2 = if t.contains(x0.id) {
            t.remove(x0.id)
        } else {
            t
        };
        lemma_split_targets(d, t2);
        lemma_split_parts(d, t2);
        let (k, r) = split_removed(d, t2);
        let (kk, rr) = split_removed(s, t);
        assert forall|j: int| 0 <= j < d.len() implies #[trigger] d[j].id != x0.id by {
            assert(d[j] == s[j + 1]);
        }
        assert forall|x: int| 0 <= x < kk.len() implies !t.contains(#[trigger] kk[x].id) by {
            if t.contains(x0.id) {
                assert(kk[x] == k[x]);
                let y = choose|y: int| 0 <= y < d.len() && k[x] == d[y];
                assert(!t2.contains(kk[x].id));
            } else if x == 0 {
                assert(kk[0] == x0);
            } else {
                assert(kk[x] == k[x - 1]);
            }
        }
        assert forall|i: int| 0 <= i < s.len() && t.contains(s[i].id) implies rr.contains(#[trigger] s[i]) by {
            if i == 0 {
                assert(rr[0] == x0);
            } else {
                assert(s[i] == d[i - 1]);
                assert(t2.contains(d[i - 1].id));
                assert(r.contains(d[i - 1]));
                let y = choose|y: int| 0 <= y < r.len() && r[y] == d[i - 1];
                if t.contains(x0.id) {
                    assert(rr[y + 1] == r[y]);
                } else {
                    assert(rr[y] == r[y]);
                }
            }
        }
        assert forall|i: int| 0 <= i < s.len() && !t.contains(s[i].id) implies kk.contains(#[trigger] s[i]) by {
            if i == 0 {
                assert(kk[0] == x0);
            } else {
                assert(s[i] == d[i - 1]);
                assert(!t2.contains(d[i - 1].id));
                assert(k.contains(d[i - 1]));
                let y = choose|y: int| 0 <= y < k.len() && k[y] == d[i - 1];
                if t.contains(x0.id) {
                    assert(kk[y] == k[y]);
                } else {
                    assert(kk[y + 1] == k[y]);
                }
            }
        }
    }
}

/// Law: removing notes by id (ids distinct) removes every note whose id was
/// asked for and only those: afterwards no note carries a requested id, every
/// note that carried one is in the removed list, and every other note stays.
pub proof fn lemma_remove_notes_removes_requested(
    old: Seq<NoteView>,
    ids: Seq<u64>,
    force: bool,
    r: Result<Vec<Note>, String>,
    new: Seq<NoteView>,
)
    requires
        ids_distinct(old),
        remove_many_outcome(old, ids, force, r, new),
        r is Ok,
    ensures
        forall|k: int| 0 <= k < ids.len() ==> index_of_id(new, #[trigger] ids[k]) == -1,
        forall|i: int| 0 <= i < old.len() && ids.contains(old[i].id) ==> r->Ok_0.deep_view().contains(#[trigger] old[i]),
        forall|i: int| 0 <= i < old.len() && !ids.contains(old[i].id) ==> new.contains(#[trigger] old[i]),
{
    let t = ids.to_set();
    lemma_split_targets(old, t);
    assert forall|k: int| 0 <= k < ids.len() implies index_of_id(new, #[trigger] ids[k]) == -1 by {
        lemma_index_of_id(new, ids[k]);
        assert(t.contains(ids[k]));
        if index_of_id(new, ids[k]) != -1 {
            let x = index_of_id(new, ids[k]);
            assert(new[x].id == ids[k]);
            assert(!t.contains(new[x].id));
        }
    }
    assert forall|i: int| 0 <= i < old.len() && ids.contains(old[i].id) implies r->Ok_0.deep_view().contains(#[trigger] old[i]) by {
        assert(t.contains(old[i].id));
    }
    assert forall|i: int| 0 <= i < old.len() && !ids.contains(old[i].id) implies new.contains(#[trigger] old[i]) by {
        assert(!t.contains(old[i].id));
    }
}

} // verus!
