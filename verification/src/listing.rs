//! Listing notes: filtering by tag, the three sort orders and the limit.

use vstd::prelude::*;
use crate::model::{ListOptions, Note, NoteView};
use crate::notes::{tag_present};
use crate::text::{chars_of, string_from_chars};

verus! {

/// The order of a listing.
#[derive(PartialEq, Eq, Structural, Clone, Copy, Debug)]
pub enum SortMode {
    /// Ascending id.
    Id,
    /// Newest creation time first.
    Date,
    /// Most recently updated (or, if never updated, created) first.
    Updated,
}

/// The sort mode a `--sort` value names, if any.
pub open spec fn sort_mode(sort: Seq<char>) -> Option<SortMode> {
    if sort == ""@ || sort == "id"@ {
        Some(SortMode::Id)
    } else if sort == "date"@ {
        Some(SortMode::Date)
    } else if sort == "updated"@ {
        Some(SortMode::Updated)
    } else {
        None
    }
}

/// Lexicographic order on characters by code point. For UTF-8 strings this is
/// the order of `String::cmp` (byte order), since UTF-8 preserves code point
/// order.
pub open spec fn seq_lt(a: Seq<char>, b: Seq<char>) -> bool
    decreases a.len(),
{
    if a.len() == 0 {
        b.len() > 0
    } else if b.len() == 0 {
        false
    } else if a[0] != b[0] {
        (a[0] as int) < (b[0] as int)
    } else {
        seq_lt(a.drop_first(), b.drop_first())
    }
}

pub(crate) proof fn lemma_seq_lt_transitive(a: Seq<char>, b: Seq<char>, c: Seq<char>)
    requires
        seq_lt(a, b),
        seq_lt(b, c),
    ensures
        seq_lt(a, c),
    decreases a.len(),
{
    if a.len() > 0 && b.len() > 0 && c.len() > 0 {
        if a[0] == b[0] && b[0] == c[0] {
            lemma_seq_lt_transitive(a.drop_first(), b.drop_first(), c.drop_first());
        }
    }
}

pub(crate) proof fn lemma_seq_lt_total(a: Seq<char>, b: Seq<char>)
    ensures
        a == b || seq_lt(a, b) || seq_lt(b, a),
    decreases a.len(),
{
    if a.len() > 0 && b.len() > 0 && a[0] == b[0] {
        lemma_seq_lt_total(a.drop_first(), b.drop_first());
        if a.drop_first() == b.drop_first() {
            assert(a =~= seq![a[0]] + a.drop_first());
            assert(b =~= seq![b[0]] + b.drop_first());
        }
    } else if a.len() == 0 && b.len() == 0 {
        assert(a =~= b);
    }
}

/// The text a note is ordered by in the date and updated modes.
pub open spec fn sort_key(n: NoteView, mode: SortMode) -> Seq<char> {
    match mode {
        SortMode::Updated => if n.updated_at.len() == 0 {
            n.created_at
        } else {
            n.updated_at
        },
        _ => n.created_at,
    }
}

/// Whether note `i` comes before note `j` of `f`: by the mode's key, and by
/// original position between equal keys (the sort is stable).
pub open spec fn precedes(f: Seq<NoteView>, mode: SortMode, i: int, j: int) -> bool {
    match mode {
        SortMode::Id => f[i].id < f[j].id || (f[i].id == f[j].id && i < j),
        _ => seq_lt(sort_key(f[j], mode), sort_key(f[i], mode)) || (sort_key(f[i], mode) == sort_key(
            f[j],
            mode,
        ) && i < j),
    }
}

proof fn lemma_precedes_total(f: Seq<NoteView>, mode: SortMode, i: int, j: int)
    requires
        i != j,
    ensures
        precedes(f, mode, i, j) || precedes(f, mode, j, i),
{
    if mode != SortMode::Id {
        lemma_seq_lt_total(sort_key(f[i], mode), sort_key(f[j], mode));
    }
}

proof fn lemma_precedes_transitive(f: Seq<NoteView>, mode: SortMode, i: int, j: int, k: int)
    requires
        precedes(f, mode, i, j),
        precedes(f, mode, j, k),
    ensures
        precedes(f, mode, i, k),
{
    if mode != SortMode::Id {
        let (a, b, c) = (sort_key(f[i], mode), sort_key(f[j], mode), sort_key(f[k], mode));
        if seq_lt(b, a) && seq_lt(c, b) {
            lemma_seq_lt_transitive(c, b, a);
        }
    }
}

/// `p` lists the positions of `f` in listing order: each exactly once,
/// every earlier one preceding every later one.
pub open spec fn sorted_positions(f: Seq<NoteView>, mode: SortMode, p: Seq<usize>) -> bool {
    &&& p.len() == f.len()
    &&& forall|k: int| 0 <= k < p.len() ==> #[trigger] p[k] < f.len()
    &&& forall|k: int, l: int| 0 <= k < l < p.len() ==> #[trigger] p[k] != #[trigger] p[l]
    &&& forall|k: int, l: int|
        #![trigger p[k], p[l]]
        0 <= k < l < p.len() ==> precedes(f, mode, p[k] as int, p[l] as int)
}

/// The notes that carry `tag` (ignoring case), in order.
pub open spec fn tag_filter(s: Seq<NoteView>, tag: Seq<char>) -> Seq<NoteView>
    decreases s.len(),
{
    if s.len() == 0 {
        s
    } else {
        let rest = tag_filter(s.drop_last(), tag);
        if tag_present(s.last().tags, tag) {
            rest.push(s.last())
        } else {
            rest
        }
    }
}

/// The `limit` most recent of the ordered notes (none dropped when the limit
/// is 0): in id order the last ones, those with the greatest ids; in the date
/// and updated orders, which put the newest first, the first ones.
pub open spec fn limited(s: Seq<NoteView>, limit: usize, mode: SortMode) -> Seq<NoteView> {
    if limit > 0 && s.len() > limit {
        match mode {
            SortMode::Id => s.skip(s.len() - limit),
            _ => s.take(limit as int),
        }
    } else {
        s
    }
}

/// The message for an unknown sort name.
pub open spec fn unknown_sort_message(sort: Seq<char>) -> Seq<char> {
    "unknown sort \""@ + sort + "\": use id, date, or updated"@
}

/// The notes a listing considers: all of them, or those with the tag.
pub open spec fn listed_notes(s: Seq<NoteView>, tag: Seq<char>) -> Seq<NoteView> {
    if tag.len() == 0 {
        s
    } else {
        tag_filter(s, tag)
    }
}

/// What listing `s` with these options returns.
pub open spec fn list_outcome(
    s: Seq<NoteView>,
    tag: Seq<char>,
    sort: Seq<char>,
    limit: usize,
    r: Result<Vec<Note>, String>,
) -> bool {
    let f = listed_notes(s, tag);
    match sort_mode(sort) {
        None => r matches Err(m) && m@ == unknown_sort_message(sort),
        Some(mode) => r matches Ok(v) && exists|p: Seq<usize>|
            sorted_positions(f, mode, p) && v.deep_view() == limited(
                p.map_values(|i: usize| f[i as int]),
                limit,
                mode,
            ),
    }
}

pub(crate) fn chars_lt(a: &Vec<char>, b: &Vec<char>) -> (r: bool)
    ensures
        r == seq_lt(a@, b@),
{
    let mut i: usize = 0;
    assert(a@.skip(0) == a@ && b@.skip(0) == b@);
    while i < a.len() && i < b.len() && a[i] == b[i]
        invariant
            i <= a@.len(),
            i <= b@.len(),
            seq_lt(a@, b@) == seq_lt(a@.skip(i as int), b@.skip(i as int)),
        decreases a.len() - i,
    {
        proof {
            assert(a@.skip(i as int).drop_first() == a@.skip(i + 1));
            assert(b@.skip(i as int).drop_first() == b@.skip(i + 1));
        }
        i = i + 1;
    }
    proof {
        if i < a.len() && i < b.len() {
            assert(a@.skip(i as int)[0] == a@[i as int]);
            assert(b@.skip(i as int)[0] == b@[i as int]);
        }
    }
    if i == a.len() {
        i < b.len()
    } else if i == b.len() {
        false
    } else {
        a[i] < b[i]
    }
}

fn same_chars(a: &Vec<char>, b: &Vec<char>) -> (r: bool)
    ensures
        r == (a@ == b@),
{
    if a.len() != b.len() {
        return false;
    }
    let mut i: usize = 0;
    while i < a.len()
        invariant
            a@.len() == b@.len(),
            i <= a@.len(),
            forall|k: int| 0 <= k < i ==> a@[k] == b@[k],
        decreases a.len() - i,
    {
        if a[i] != b[i] {
            return false;
        }
        i = i + 1;
    }
    assert(a@ =~= b@);
    true
}

/// The key characters of every note for the given mode.
fn sort_keys(f: &Vec<Note>, mode: SortMode) -> (keys: Vec<Vec<char>>)
    ensures
        keys@.len() == f@.len(),
        forall|k: int| 0 <= k < f@.len() ==> #[trigger] keys@[k]@ == sort_key(f.deep_view()[k], mode),
{
    let mut keys: Vec<Vec<char>> = Vec::new();
    let mut i: usize = 0;
    while i < f.len()
        invariant
            i <= f@.len(),
            keys@.len() == i,
            forall|k: int| 0 <= k < i ==> #[trigger] keys@[k]@ == sort_key(f.deep_view()[k], mode),
        decreases f.len() - i,
    {
        let key = match mode {
            SortMode::Updated => if f[i].updated_at.as_str().is_empty() {
                chars_of(f[i].created_at.as_str())
            } else {
                chars_of(f[i].updated_at.as_str())
            },
            _ => chars_of(f[i].created_at.as_str()),
        };
        keys.push(key);
        i = i + 1;
    }
    keys
}

fn before(f: &Vec<Note>, keys: &Vec<Vec<char>>, mode: SortMode, i: usize, j: usize) -> (r: bool)
    requires
        i < f@.len(),
        j < f@.len(),
        keys@.len() == f@.len(),
        forall|k: int| 0 <= k < f@.len() ==> #[trigger] keys@[k]@ == sort_key(f.deep_view()[k], mode),
    ensures
        r == precedes(f.deep_view(), mode, i as int, j as int),
{
    match mode {
        SortMode::Id => f[i].id < f[j].id || (f[i].id == f[j].id && i < j),
        _ => {
            assert(keys@[i as int]@ == sort_key(f.deep_view()[i as int], mode));
            assert(keys@[j as int]@ == sort_key(f.deep_view()[j as int], mode));
            chars_lt(&keys[j], &keys[i]) || (same_chars(&keys[i], &keys[j]) && i < j)
        },
    }
}

proof fn lemma_insert_sorted(f: Seq<NoteView>, mode: SortMode, p: Seq<usize>, x: usize, pos: int)
    requires
        x < f.len(),
        0 <= pos <= p.len(),
        forall|k: int| 0 <= k < p.len() ==> #[trigger] p[k] < x,
        forall|k: int, l: int|
            #![trigger p[k], p[l]]
            0 <= k < l < p.len() ==> precedes(f, mode, p[k] as int, p[l] as int),
        forall|q: int| 0 <= q < pos ==> !precedes(f, mode, x as int, #[trigger] p[q] as int),
        pos < p.len() ==> precedes(f, mode, x as int, p[pos] as int),
    ensures
        ({
            let p2 = p.insert(pos, x);
            forall|k: int, l: int|
                #![trigger p2[k], p2[l]]
                0 <= k < l < p2.len() ==> precedes(f, mode, p2[k] as int, p2[l] as int)
        }),
{
    let p2 = p.insert(pos, x);
    assert forall|k: int, l: int| 0 <= k < l < p2.len() implies precedes(
        f,
        mode,
        #[trigger] p2[k] as int,
        #[trigger] p2[l] as int,
    ) by {
        if k < pos && l < pos {
            assert(p2[k] == p[k] && p2[l] == p[l]);
        } else if k < pos && l == pos {
            assert(p2[k] == p[k]);
            lemma_precedes_total(f, mode, p[k] as int, x as int);
        } else if k < pos && l > pos {
            assert(p2[k] == p[k] && p2[l] == p[l - 1]);
        } else if k == pos {
            assert(p2[l] == p[l - 1]);
            if l - 1 > pos {
                assert(precedes(f, mode, p[pos] as int, p[l - 1] as int));
                lemma_precedes_transitive(f, mode, x as int, p[pos] as int, p[l - 1] as int);
            }
        } else {
            assert(p2[k] == p[k - 1] && p2[l] == p[l - 1]);
        }
    }
}

fn sort_positions(f: &Vec<Note>, mode: SortMode) -> (p: Vec<usize>)
    ensures
        sorted_positions(f.deep_view(), mode, p@),
{
    let ghost fv = f.deep_view();
    let keys = sort_keys(f, mode);
    let mut p: Vec<usize> = Vec::new();
    let mut x: usize = 0;
    while x < f.len()
        invariant
            fv == f.deep_view(),
            x <= f@.len(),
            keys@.len() == f@.len(),
            forall|k: int| 0 <= k < f@.len() ==> #[trigger] keys@[k]@ == sort_key(fv[k], mode),
            p@.len() == x,
            forall|k: int| 0 <= k < p@.len() ==> #[trigger] p@[k] < x,
            forall|k: int, l: int| 0 <= k < l < p@.len() ==> #[trigger] p@[k] != #[trigger] p@[l],
            forall|k: int, l: int|
                #![trigger p@[k], p@[l]]
                0 <= k < l < p@.len() ==> precedes(fv, mode, p@[k] as int, p@[l] as int),
        decreases f.len() - x,
    {
        let mut pos: usize = 0;
        while pos < p.len() && !before(f, &keys, mode, x, p[pos])
            invariant
                fv == f.deep_view(),
                x < f@.len(),
                keys@.len() == f@.len(),
                forall|k: int| 0 <= k < f@.len() ==> #[trigger] keys@[k]@ == sort_key(fv[k], mode),
                p@.len() == x,
                forall|k: int| 0 <= k < p@.len() ==> #[trigger] p@[k] < x,
                pos <= p@.len(),
                forall|q: int| 0 <= q < pos ==> !precedes(fv, mode, x as int, #[trigger] p@[q] as int),
            decreases p.len() - pos,
        {
            pos = pos + 1;
        }
        proof {
            lemma_insert_sorted(fv, mode, p@, x, pos as int);
        }
        let ghost old_p = p@;
        p.insert(pos, x);
        assert(p@ == old_p.insert(pos as int, x));
        assert forall|k: int| 0 <= k < p@.len() implies #[trigger] p@[k] < x + 1 by {
            if k < pos {
                assert(p@[k] == old_p[k]);
            } else if k > pos {
                assert(p@[k] == old_p[k - 1]);
            }
        }
        assert forall|k: int, l: int| 0 <= k < l < p@.len() implies #[trigger] p@[k] != #[trigger] p@[l] by {
            if k < pos && l < pos {
                assert(p@[k] == old_p[k] && p@[l] == old_p[l]);
            } else if k < pos && l == pos {
                assert(p@[k] == old_p[k]);
            } else if k < pos && l > pos {
                assert(p@[k] == old_p[k] && p@[l] == old_p[l - 1]);
            } else if k == pos {
                assert(p@[l] == old_p[l - 1]);
            } else {
                assert(p@[k] == old_p[k - 1] && p@[l] == old_p[l - 1]);
            }
        }
        x = x + 1;
    }
    p
}

/// The notes carrying `tag` ignoring case (all notes when `tag` is empty).
fn filter_by_tag(notes: &Vec<Note>, tag: &str) -> (f: Vec<Note>)
    ensures
        f.deep_view() == listed_notes(notes.deep_view(), tag@),
{
    let ghost s = notes.deep_view();
    let mut f: Vec<Note> = Vec::new();
    let keep_all = tag.is_empty();
    let mut i: usize = 0;
    while i < notes.len()
        invariant
            s == notes.deep_view(),
            i <= s.len(),
            keep_all == (tag@.len() == 0),
            keep_all ==> f.deep_view() == s.take(i as int),
            !keep_all ==> f.deep_view() == tag_filter(s.take(i as int), tag@),
        decreases notes.len() - i,
    {
        proof {
            assert(s.take(i + 1).drop_last() == s.take(i as int));
            assert(s.take(i + 1).last() == s[i as int]);
        }
        let ghost before = f.deep_view();
        if keep_all || crate::notes::note_has_tag(&notes[i], tag) {
            f.push(notes[i].clone());
            assert(f.deep_view() =~= before.push(s[i as int]));
        }
        assert(s.take(i + 1) =~= s.take(i as int).push(s[i as int]));
        i = i + 1;
    }
    assert(s.take(i as int) == s);
    f
}

/// Lists notes: those carrying `opts.tag` (ignoring case) when it is set,
/// ordered by `opts.sort` (`""`/`"id"`, `"date"` or `"updated"`; the sort is
/// stable), and, when `opts.limit` is not 0, only the `opts.limit` most recent
/// of them (see `limited`).
pub fn list_notes(notes: &Vec<Note>, opts: &ListOptions) -> (r: Result<Vec<Note>, String>)
    ensures
        list_outcome(notes.deep_view(), opts.tag@, opts.sort@, opts.limit, r),
{
    let f = filter_by_tag(notes, opts.tag.as_str());
    let ghost fv = f.deep_view();
    let sort = opts.sort.clone();
    let mode = if sort == "".to_owned() || sort == "id".to_owned() {
        SortMode::Id
    } else if sort == "date".to_owned() {
        SortMode::Date
    } else if sort == "updated".to_owned() {
        SortMode::Updated
    } else {
        let mut m = chars_of("unknown sort \"");
        let mut name = chars_of(opts.sort.as_str());
        m.append(&mut name);
        let mut tail = chars_of("\": use id, date, or updated");
        m.append(&mut tail);
        return Err(string_from_chars(m.as_slice()));
    };
    assert(sort_mode(opts.sort@) == Some(mode));
    let p = sort_positions(&f, mode);
    let all = p.len();
    let start = if opts.limit > 0 && p.len() > opts.limit {
        match mode {
            SortMode::Id => p.len() - opts.limit,
            _ => 0,
        }
    } else {
        0
    };
    let n = if opts.limit > 0 && p.len() > opts.limit {
        match mode {
            SortMode::Id => all,
            _ => opts.limit,
        }
    } else {
        all
    };
    let ghost ordered = p@.map_values(|i: usize| fv[i as int]);
    let mut out: Vec<Note> = Vec::new();
    let mut k: usize = start;
    while k < n
        invariant
            fv == f.deep_view(),
            sorted_positions(fv, mode, p@),
            ordered == p@.map_values(|i: usize| fv[i as int]),
            n <= p@.len(),
            start <= k <= n,
            out.deep_view() == ordered.subrange(start as int, k as int),
        decreases n - k,
    {
        let ghost before = out.deep_view();
        let item = f[p[k]].clone();
        assert(item@ == ordered[k as int]);
        out.push(item);
        assert(out.deep_view() =~= before.push(ordered[k as int]));
        assert(ordered.subrange(start as int, k + 1) =~= ordered.subrange(start as int, k as int).push(
            ordered[k as int],
        ));
        k = k + 1;
    }
    assert(out.deep_view() =~= limited(ordered, opts.limit, mode));
    Ok(out)
}

} // verus!
