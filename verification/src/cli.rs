//! The rules of the command line: reading the flags of `list` and the ids of
//! `done`, which commands ask for the password, the answer that confirms
//! `clear`, and the lines the commands print.

use vstd::prelude::*;
use crate::model::{ListOptions, Note, NoteView};
use crate::format::{highlight_match, highlight_spec};
use crate::listing::{chars_lt, lemma_seq_lt_total, lemma_seq_lt_transitive, seq_lt};
use crate::tags::TagCounts;
use crate::notes::{parse_id, parse_id_spec, rfc3339_valid};
use crate::text::{
    chars_of, decimal, decimal_chars, lowercase, parse_usize, parse_usize_spec, push_range, str_lower, string_from_chars,
    trim, trim_chars, window_matches,
};

verus! {

/// Whether `s` starts with `p`.
pub open spec fn has_prefix(s: Seq<char>, p: Seq<char>) -> bool {
    p.len() <= s.len() && s.take(p.len() as int) == p
}

/// `arg` without the leading `prefix`, when it starts with it.
fn strip_flag(arg: &str, prefix: &str) -> (r: Option<String>)
    ensures
        match r {
            Some(v) => has_prefix(arg@, prefix@) && v@ == arg@.skip(prefix@.len() as int),
            None => !has_prefix(arg@, prefix@),
        },
{
    let a = chars_of(arg);
    let p = chars_of(prefix);
    if p.len() > a.len() {
        return None;
    }
    if !window_matches(&a, &p, 0) {
        assert(a@.subrange(0, p@.len() as int) == a@.take(p@.len() as int));
        return None;
    }
    assert(a@.subrange(0, p@.len() as int) == a@.take(p@.len() as int));
    let mut rest: Vec<char> = Vec::new();
    push_range(&mut rest, &a, p.len(), a.len());
    assert(rest@ =~= a@.skip(p@.len() as int));
    Some(string_from_chars(rest.as_slice()))
}

/// The settings of a listing as the flags of `list` set them.
pub struct ListFlags {
    pub tag: Seq<char>,
    pub sort: Seq<char>,
    pub limit: usize,
    pub full: bool,
}

/// The settings before any flag: all notes, by id, no limit, shortened texts.
pub open spec fn default_flags() -> ListFlags {
    ListFlags { tag: Seq::empty(), sort: Seq::empty(), limit: 0, full: false }
}

/// What one flag of `list` does to the settings, or why it is refused.
pub open spec fn apply_list_flag(st: ListFlags, arg: Seq<char>) -> Result<ListFlags, Seq<char>> {
    if has_prefix(arg, "--tag="@) {
        Ok(ListFlags { tag: arg.skip("--tag="@.len() as int), sort: st.sort, limit: st.limit, full: st.full })
    } else if has_prefix(arg, "--sort="@) {
        Ok(ListFlags { tag: st.tag, sort: arg.skip("--sort="@.len() as int), limit: st.limit, full: st.full })
    } else if has_prefix(arg, "--limit="@) {
        match parse_usize_spec(arg.skip("--limit="@.len() as int)) {
            Some(v) => if v >= 1 {
                Ok(ListFlags { tag: st.tag, sort: st.sort, limit: v, full: st.full })
            } else {
                Err("--limit must be a positive integer"@)
            },
            None => Err("--limit must be a positive integer"@),
        }
    } else if arg == "--full"@ {
        Ok(ListFlags { tag: st.tag, sort: st.sort, limit: st.limit, full: true })
    } else {
        Err("unknown flag: "@ + arg)
    }
}

/// The settings after the flags `args`, in order, starting from `st`; the
/// first refused flag ends the reading.
pub open spec fn list_flags_from(st: ListFlags, args: Seq<Seq<char>>) -> Result<ListFlags, Seq<char>>
    decreases args.len(),
{
    if args.len() == 0 {
        Ok(st)
    } else {
        match apply_list_flag(st, args[0]) {
            Ok(next) => list_flags_from(next, args.drop_first()),
            Err(e) => Err(e),
        }
    }
}

/// The settings held in listing options.
pub open spec fn flags_of(o: ListOptions) -> ListFlags {
    ListFlags { tag: o.tag@, sort: o.sort@, limit: o.limit, full: o.full }
}

/// Reads the flags of `list`: `--tag=`, `--sort=`, `--limit=` (a positive
/// integer) and `--full`; a later flag overrides an earlier one.
pub fn parse_list_options(args: &[String]) -> (r: Result<ListOptions, String>)
    ensures
        match list_flags_from(default_flags(), args.deep_view()) {
            Ok(f) => r matches Ok(o) && flags_of(o) == f,
            Err(m) => r matches Err(e) && e@ == m,
        },
{
    let ghost all = args.deep_view();
    let mut opts = ListOptions { tag: String::new(), sort: String::new(), limit: 0, full: false };
    assert(flags_of(opts) == default_flags());
    assert(all.skip(0) == all);
    let mut i: usize = 0;
    while i < args.len()
        invariant
            all == args.deep_view(),
            i <= all.len(),
            list_flags_from(default_flags(), all) == list_flags_from(flags_of(opts), all.skip(i as int)),
        decreases args.len() - i,
    {
        let arg = args[i].as_str();
        let ghost st = flags_of(opts);
        proof {
            assert(all.skip(i as int)[0] == all[i as int]);
            assert(all.skip(i as int).drop_first() == all.skip(i + 1));
            assert(all[i as int] == arg@);
        }
        match strip_flag(arg, "--tag=") {
            Some(v) => {
                opts.tag = v;
            },
            None => match strip_flag(arg, "--sort=") {
                Some(v) => {
                    opts.sort = v;
                },
                None => match strip_flag(arg, "--limit=") {
                    Some(v) => match parse_usize(v.as_str()) {
                        Some(n) => {
                            if n >= 1 {
                                opts.limit = n;
                            } else {
                                return Err("--limit must be a positive integer".to_owned());
                            }
                        },
                        None => {
                            return Err("--limit must be a positive integer".to_owned());
                        },
                    },
                    None => {
                        if arg.to_owned() == "--full".to_owned() {
                            opts.full = true;
                        } else {
                            let mut m = chars_of("unknown flag: ");
                            let mut a = chars_of(arg);
                            m.append(&mut a);
                            return Err(string_from_chars(m.as_slice()));
                        }
                    },
                },
            },
        }
        assert(apply_list_flag(st, arg@) == Ok::<ListFlags, Seq<char>>(flags_of(opts)));
        i = i + 1;
    }
    assert(all.skip(i as int).len() == 0);
    Ok(opts)
}

/// The ids given to `done`, when every one is a positive integer.
pub open spec fn parse_ids_spec(strs: Seq<Seq<char>>) -> Option<Seq<u64>>
    decreases strs.len(),
{
    if strs.len() == 0 {
        Some(Seq::empty())
    } else {
        match (parse_ids_spec(strs.drop_last()), parse_id_spec(strs.last())) {
            (Some(v), Some(n)) => Some(v.push(n)),
            _ => None,
        }
    }
}

/// Parses the ids given to `done`; refused when one of them is not a
/// positive integer.
pub fn parse_ids(strs: &[String]) -> (r: Result<Vec<u64>, String>)
    ensures
        match parse_ids_spec(strs.deep_view()) {
            Some(v) => r matches Ok(x) && x@ == v,
            None => r matches Err(m) && m@ == "id must be a positive integer"@,
        },
{
    let ghost all = strs.deep_view();
    let mut out: Vec<u64> = Vec::new();
    let mut i: usize = 0;
    while i < strs.len()
        invariant
            all == strs.deep_view(),
            i <= all.len(),
            parse_ids_spec(all.take(i as int)) == Some(out@),
        decreases strs.len() - i,
    {
        proof {
            assert(all.take(i + 1).drop_last() == all.take(i as int));
            assert(all.take(i + 1).last() == all[i as int]);
        }
        match parse_id(strs[i].as_str()) {
            Ok(id) => {
                out.push(id);
            },
            Err(e) => {
                proof {
                    lemma_parse_ids_prefix(all, i + 1);
                }
                return Err(e);
            },
        }
        i = i + 1;
    }
    assert(all.take(i as int) == all);
    Ok(out)
}

/// Once a prefix holds a refused id, so does the whole.
proof fn lemma_parse_ids_prefix(s: Seq<Seq<char>>, k: int)
    requires
        0 <= k <= s.len(),
        parse_ids_spec(s.take(k)) is None,
    ensures
        parse_ids_spec(s) is None,
    decreases s.len() - k,
{
    if k < s.len() {
        assert(s.take(k + 1).drop_last() == s.take(k));
        lemma_parse_ids_prefix(s, k + 1);
    } else {
        assert(s.take(k) == s);
    }
}

/// The commands that run without asking for the password of an encrypted
/// notes file.
pub open spec fn password_free(cmd: Seq<char>) -> bool {
    cmd == "lock"@ || cmd == "unlock"@ || cmd == "-h"@ || cmd == "--help"@ || cmd == "help"@
        || cmd == "-V"@ || cmd == "--version"@ || cmd == "version"@
}

/// Whether the command asks for the password when the notes file is encrypted.
pub fn asks_for_password(cmd: &str) -> (r: bool)
    ensures
        r == !password_free(cmd@),
{
    let c = cmd.to_owned();
    !(c == "lock".to_owned() || c == "unlock".to_owned() || c == "-h".to_owned() || c
        == "--help".to_owned() || c == "help".to_owned() || c == "-V".to_owned() || c
        == "--version".to_owned() || c == "version".to_owned())
}

/// Whether an answer to the `clear` prompt confirms it: `y`, ignoring case
/// and surrounding whitespace.
pub fn confirms(answer: &str) -> (r: bool)
    ensures
        r == (str_lower(trim(answer@)) == "y"@),
{
    let cs = chars_of(answer);
    let t = string_from_chars(trim_chars(cs.as_slice()).as_slice());
    let l = lowercase(t.as_str());
    l == "y".to_owned()
}

/// The parts joined with `sep` between each two.
pub open spec fn join_with(parts: Seq<Seq<char>>, sep: Seq<char>) -> Seq<char>
    decreases parts.len(),
{
    if parts.len() == 0 {
        Seq::empty()
    } else if parts.len() == 1 {
        parts[0]
    } else {
        join_with(parts.drop_last(), sep) + sep + parts.last()
    }
}

fn join_chars(parts: &Vec<String>, sep: &str) -> (r: Vec<char>)
    ensures
        r@ == join_with(parts.deep_view(), sep@),
{
    let ghost all = parts.deep_view();
    let mut out: Vec<char> = Vec::new();
    let mut i: usize = 0;
    while i < parts.len()
        invariant
            all == parts.deep_view(),
            i <= all.len(),
            out@ == join_with(all.take(i as int), sep@),
        decreases parts.len() - i,
    {
        proof {
            assert(all.take(i + 1).drop_last() == all.take(i as int));
            assert(all.take(i + 1).last() == all[i as int]);
        }
        if i > 0 {
            let mut s = chars_of(sep);
            out.append(&mut s);
        } else {
            assert(all.take(1) == seq![all[0]]);
        }
        let mut c = chars_of(parts[i].as_str());
        out.append(&mut c);
        i = i + 1;
    }
    assert(all.take(i as int) == all);
    out
}

/// Tags as printed: each preceded by `#`, separated by spaces.
pub open spec fn hash_tags(tags: Seq<Seq<char>>) -> Seq<char> {
    "#"@ + join_with(tags, " #"@)
}

/// Tags as printed: each preceded by `#`, separated by spaces.
pub fn hash_tag_text(tags: &Vec<String>) -> (r: String)
    ensures
        r@ == hash_tags(tags.deep_view()),
{
    let mut v = chars_of("#");
    let mut j = join_chars(tags, " #");
    v.append(&mut j);
    string_from_chars(v.as_slice())
}

/// A note as the commands name it: `[id] text`.
pub open spec fn note_ref_spec(n: NoteView) -> Seq<char> {
    "["@ + decimal(n.id as nat) + "] "@ + n.text
}

/// A note as the commands name it: `[id] text`.
pub fn note_ref(n: &Note) -> (r: String)
    ensures
        r@ == note_ref_spec(n@),
{
    let mut v = chars_of("[");
    let mut d = decimal_chars(n.id);
    v.append(&mut d);
    let mut sep = chars_of("] ");
    v.append(&mut sep);
    let mut t = chars_of(n.text.as_str());
    v.append(&mut t);
    string_from_chars(v.as_slice())
}

/// The text as `list` shows it: cut after 72 characters (marked `...`)
/// unless whole texts were asked for.
pub open spec fn shown_text(t: Seq<char>, full: bool) -> Seq<char> {
    if !full && t.len() > 72 {
        t.take(72) + "..."@
    } else {
        t
    }
}

/// A line of `list`: `[id] (age) text`, then the tags when there are any.
pub open spec fn list_line_spec(n: NoteView, age: Seq<char>, full: bool) -> Seq<char> {
    let head = "["@ + decimal(n.id as nat) + "] ("@ + age + ") "@ + shown_text(n.text, full);
    if n.tags.len() > 0 {
        head + " "@ + hash_tags(n.tags)
    } else {
        head
    }
}

/// A line of `list` for a note of the given age.
pub fn list_line(n: &Note, age: &str, full: bool) -> (r: String)
    ensures
        r@ == list_line_spec(n@, age@, full),
{
    let mut v = chars_of("[");
    let mut d = decimal_chars(n.id);
    v.append(&mut d);
    let mut a = chars_of("] (");
    v.append(&mut a);
    let mut g = chars_of(age);
    v.append(&mut g);
    let mut b = chars_of(") ");
    v.append(&mut b);
    let t = chars_of(n.text.as_str());
    if !full && t.len() > 72 {
        push_range(&mut v, &t, 0, 72);
        let mut dots = chars_of("...");
        v.append(&mut dots);
        assert(t@.subrange(0, 72) == t@.take(72));
    } else {
        push_range(&mut v, &t, 0, t.len());
        assert(t@.subrange(0, t@.len() as int) == t@);
    }
    if n.tags.len() > 0 {
        let mut sp = chars_of(" ");
        v.append(&mut sp);
        let h = hash_tag_text(&n.tags);
        let mut hc = chars_of(h.as_str());
        v.append(&mut hc);
    }
    string_from_chars(v.as_slice())
}

/// A line of `search`: the note named, its matches highlighted when the
/// output is a terminal.
pub open spec fn search_line_spec(n: NoteView, query: Seq<char>, color: bool) -> Seq<char> {
    "["@ + decimal(n.id as nat) + "] "@ + if color {
        highlight_spec(n.text, query)
    } else {
        n.text
    }
}

/// A line of `search`.
pub fn search_line(n: &Note, query: &str, color: bool) -> (r: String)
    ensures
        r@ == search_line_spec(n@, query@, color),
{
    let mut v = chars_of("[");
    let mut d = decimal_chars(n.id);
    v.append(&mut d);
    let mut sep = chars_of("] ");
    v.append(&mut sep);
    let shown = if color {
        highlight_match(n.text.as_str(), query)
    } else {
        n.text.clone()
    };
    let mut t = chars_of(shown.as_str());
    v.append(&mut t);
    string_from_chars(v.as_slice())
}

/// Tags in strictly ascending order, as the keys of a `BTreeMap<String, _>`
/// come out.
pub open spec fn ascending(ts: Seq<Seq<char>>) -> bool {
    forall|k: int, l: int| 0 <= k < l < ts.len() ==> seq_lt(#[trigger] ts[k], #[trigger] ts[l])
}

/// Inserting `x` where it belongs keeps a sequence ascending.
proof fn lemma_insert_ascending(sv: Seq<Seq<char>>, x: Seq<char>, pos: int)
    requires
        ascending(sv),
        0 <= pos <= sv.len(),
        forall|q: int| 0 <= q < pos ==> seq_lt(#[trigger] sv[q], x),
        pos < sv.len() ==> seq_lt(x, sv[pos]),
    ensures
        ascending(sv.insert(pos, x)),
{
    let s2 = sv.insert(pos, x);
    assert forall|k: int, l: int| 0 <= k < l < s2.len() implies seq_lt(#[trigger] s2[k], #[trigger] s2[l]) by {
        if k < pos && l < pos {
            assert(s2[k] == sv[k] && s2[l] == sv[l]);
        } else if k < pos && l == pos {
            assert(s2[k] == sv[k]);
        } else if k < pos && l > pos {
            assert(s2[k] == sv[k] && s2[l] == sv[l - 1]);
        } else if k == pos {
            assert(s2[l] == sv[l - 1]);
            if l - 1 > pos {
                assert(seq_lt(sv[pos], sv[l - 1]));
                lemma_seq_lt_transitive(x, sv[pos], sv[l - 1]);
            }
        } else {
            assert(s2[k] == sv[k - 1] && s2[l] == sv[l - 1]);
        }
    }
}

/// The tags in ascending order.
fn sort_tags(tags: &Vec<String>) -> (r: Vec<String>)
    requires
        tags.deep_view().no_duplicates(),
    ensures
        ascending(r.deep_view()),
        r.deep_view().to_set() == tags.deep_view().to_set(),
{
    let ghost tv = tags.deep_view();
    let mut sorted: Vec<String> = Vec::new();
    let mut i: usize = 0;
    assert(sorted.deep_view().to_set() =~= tv.take(0).to_set());
    while i < tags.len()
        invariant
            tv == tags.deep_view(),
            tv.no_duplicates(),
            i <= tv.len(),
            ascending(sorted.deep_view()),
            sorted.deep_view().to_set() == tv.take(i as int).to_set(),
        decreases tags.len() - i,
    {
        let x = chars_of(tags[i].as_str());
        let ghost sv = sorted.deep_view();
        assert(x@ == tv[i as int]);
        assert(!sv.contains(x@)) by {
            if sv.contains(x@) {
                assert(sv.to_set().contains(x@));
                assert(tv.take(i as int).contains(x@));
                let j = choose|j: int| 0 <= j < i && tv.take(i as int)[j] == x@;
                assert(tv[j] == tv[i as int]);
            }
        }
        let mut pos: usize = 0;
        let mut found = false;
        while pos < sorted.len() && !found
            invariant
                sv == sorted.deep_view(),
                pos <= sv.len(),
                forall|q: int| 0 <= q < pos ==> seq_lt(#[trigger] sv[q], x@),
                found ==> pos < sv.len() && !seq_lt(sv[pos as int], x@),
            decreases sorted@.len() + 1 - pos - (if found { 1int } else { 0int }),
        {
            let key = chars_of(sorted[pos].as_str());
            assert(key@ == sv[pos as int]);
            if chars_lt(&key, &x) {
                pos = pos + 1;
            } else {
                found = true;
            }
        }
        proof {
            if pos < sv.len() {
                assert(sv[pos as int] != x@) by {
                    assert(sv.contains(sv[pos as int]));
                }
                lemma_seq_lt_total(sv[pos as int], x@);
            }
            lemma_insert_ascending(sv, x@, pos as int);
        }
        sorted.insert(pos, tags[i].clone());
        proof {
            let s2 = sv.insert(pos as int, x@);
            assert(sorted.deep_view() =~= s2);
            assert forall|a: Seq<char>| s2.contains(a) <==> (sv.contains(a) || a == x@) by {
                if s2.contains(a) {
                    let k = choose|k: int| 0 <= k < s2.len() && s2[k] == a;
                    if k < pos {
                        assert(s2[k] == sv[k]);
                    } else if k > pos {
                        assert(s2[k] == sv[k - 1]);
                    }
                }
                if sv.contains(a) {
                    let k = choose|k: int| 0 <= k < sv.len() && sv[k] == a;
                    if k < pos {
                        assert(s2[k] == a);
                    } else {
                        assert(s2[k + 1] == a);
                    }
                }
                if a == x@ {
                    assert(s2[pos as int] == a);
                }
            }
            let t1 = tv.take(i + 1);
            assert forall|a: Seq<char>| t1.contains(a) <==> (tv.take(i as int).contains(a) || a == x@) by {
                if t1.contains(a) {
                    let k = choose|k: int| 0 <= k < t1.len() && t1[k] == a;
                    if k < i {
                        assert(tv.take(i as int)[k] == a);
                    }
                }
                if tv.take(i as int).contains(a) {
                    let k = choose|k: int| 0 <= k < i && tv.take(i as int)[k] == a;
                    assert(t1[k] == a);
                }
                if a == x@ {
                    assert(t1[i as int] == a);
                }
            }
            assert(sorted.deep_view().to_set() =~= t1.to_set()) by {
                assert forall|a: Seq<char>| sorted.deep_view().to_set().contains(a) <==> t1.to_set().contains(a) by {
                    assert(sv.to_set().contains(a) <==> tv.take(i as int).to_set().contains(a));
                }
            }
        }
        i = i + 1;
    }
    assert(tv.take(i as int) == tv);
    sorted
}

/// A tag name padded with spaces to 20 characters (as `{:<20}` pads it).
pub open spec fn padded(t: Seq<char>) -> Seq<char> {
    if t.len() < 20 {
        t + Seq::new((20 - t.len()) as nat, |i: int| ' ')
    } else {
        t
    }
}

/// A line of `tags`: the tag padded to 20 characters, a space, its count.
pub open spec fn tag_count_line(t: Seq<char>, count: usize) -> Seq<char> {
    padded(t) + " "@ + decimal(count as nat)
}

/// The lines of `tags`: one per tag, in ascending order of the tags.
pub fn tag_report(counts: &TagCounts) -> (r: Vec<String>)
    ensures
        exists|ts: Seq<Seq<char>>|
            ascending(ts) && ts.to_set() == counts@.dom() && r@.len() == ts.len() && forall|k: int|
                0 <= k < ts.len() ==> #[trigger] r@[k]@ == tag_count_line(ts[k], counts@[ts[k]]),
{
    let tags = counts.tags();
    let sorted = sort_tags(&tags);
    let ghost ts = sorted.deep_view();
    let mut out: Vec<String> = Vec::new();
    let mut k: usize = 0;
    while k < sorted.len()
        invariant
            ts == sorted.deep_view(),
            ts.to_set() == counts@.dom(),
            k <= ts.len(),
            out@.len() == k,
            forall|j: int| 0 <= j < k ==> #[trigger] out@[j]@ == tag_count_line(ts[j], counts@[ts[j]]),
        decreases sorted.len() - k,
    {
        let t = sorted[k].clone();
        assert(t@ == ts[k as int]);
        assert(counts@.dom().contains(t@)) by {
            assert(ts.contains(ts[k as int]));
        }
        let c = match counts.get(t.as_str()) {
            Some(c) => c,
            None => 0,
        };
        let mut v = chars_of(t.as_str());
        let ghost tv = v@;
        let mut pad = v.len();
        while pad < 20
            invariant
                tv == t@,
                tv.len() <= pad <= 20 || (pad == tv.len() && pad >= 20),
                v@ == tv + Seq::new((pad - tv.len()) as nat, |i: int| ' '),
            decreases 20 - pad,
        {
            v.push(' ');
            pad = pad + 1;
            assert(v@ =~= tv + Seq::new((pad - tv.len()) as nat, |i: int| ' '));
        }
        assert(v@ =~= padded(tv));
        v.push(' ');
        let mut d = decimal_chars(c as u64);
        v.append(&mut d);
        let line = string_from_chars(v.as_slice());
        proof {
            reveal_strlit(" ");
            assert(line@ =~= tag_count_line(ts[k as int], counts@[ts[k as int]]));
        }
        out.push(line);
        k = k + 1;
    }
    out
}

/// The UTC calendar day (`%Y-%m-%d`) of an RFC 3339 timestamp.
pub uninterp spec fn rfc3339_utc_day(ts: Seq<char>) -> Seq<char>;

/// chrono's `DateTime::parse_from_rfc3339`, then `with_timezone(&Utc)` and
/// `format("%Y-%m-%d")`. Claimed: a day exactly when the timestamp parses,
/// and then the day named `rfc3339_utc_day` of the timestamp.
#[verifier::external_body]
fn utc_day(ts: &str) -> (r: Option<String>)
    ensures
        r is Some <==> rfc3339_valid(ts@),
        r matches Some(d) ==> d@ == rfc3339_utc_day(ts@),
{
    let t = chrono::DateTime::parse_from_rfc3339(ts).ok()?;
    Some(t.with_timezone(&chrono::Utc).format("%Y-%m-%d").to_string())
}

/// The lines of `view` for a note whose creation and update days are given
/// (`None` for a time that is not shown): the note named, then the days that
/// are given, then its tags (when it has any).
pub open spec fn view_from(n: NoteView, created: Option<Seq<char>>, updated: Option<Seq<char>>) -> Seq<
    Seq<char>,
> {
    let c = match created {
        Some(d) => seq!["    Created: "@ + d],
        None => Seq::empty(),
    };
    let u = match updated {
        Some(d) => seq!["    Updated: "@ + d],
        None => Seq::empty(),
    };
    let t = if n.tags.len() > 0 {
        seq!["    Tags: "@ + hash_tags(n.tags)]
    } else {
        Seq::empty()
    };
    seq![note_ref_spec(n)] + c + u + t
}

/// The lines of `view`: the creation day when the creation time parses, the
/// update day when the note was updated and its time parses.
pub open spec fn view_lines_spec(n: NoteView) -> Seq<Seq<char>> {
    view_from(
        n,
        if rfc3339_valid(n.created_at) {
            Some(rfc3339_utc_day(n.created_at))
        } else {
            None
        },
        if n.updated_at.len() > 0 && rfc3339_valid(n.updated_at) {
            Some(rfc3339_utc_day(n.updated_at))
        } else {
            None
        },
    )
}

fn labelled(label: &str, value: &str) -> (r: String)
    ensures
        r@ == label@ + value@,
{
    let mut v = chars_of(label);
    let mut w = chars_of(value);
    v.append(&mut w);
    string_from_chars(v.as_slice())
}

/// The lines of `view` for a note, given its creation and update days.
pub fn view_lines_from(n: &Note, created: Option<&str>, updated: Option<&str>) -> (r: Vec<String>)
    ensures
        r.deep_view() == view_from(
            n@,
            match created {
                Some(d) => Some(d@),
                None => None,
            },
            match updated {
                Some(d) => Some(d@),
                None => None,
            },
        ),
{
    let ghost cd = match created {
        Some(d) => Some(d@),
        None => None::<Seq<char>>,
    };
    let ghost ud = match updated {
        Some(d) => Some(d@),
        None => None::<Seq<char>>,
    };
    let mut out: Vec<String> = Vec::new();
    out.push(note_ref(n));
    let ghost l0 = out.deep_view();
    assert(l0 =~= seq![note_ref_spec(n@)]);
    match created {
        Some(d) => {
            out.push(labelled("    Created: ", d));
        },
        None => {},
    }
    let ghost l1 = out.deep_view();
    match updated {
        Some(d) => {
            out.push(labelled("    Updated: ", d));
        },
        None => {},
    }
    let ghost l2 = out.deep_view();
    if n.tags.len() > 0 {
        let h = hash_tag_text(&n.tags);
        out.push(labelled("    Tags: ", h.as_str()));
    }
    proof {
        let v = n@;
        let c = match cd {
            Some(d) => seq!["    Created: "@ + d],
            None => Seq::<Seq<char>>::empty(),
        };
        let u = match ud {
            Some(d) => seq!["    Updated: "@ + d],
            None => Seq::<Seq<char>>::empty(),
        };
        let t = if v.tags.len() > 0 {
            seq!["    Tags: "@ + hash_tags(v.tags)]
        } else {
            Seq::<Seq<char>>::empty()
        };
        assert(l1 =~= l0 + c);
        assert(l2 =~= l1 + u);
        assert(out.deep_view() =~= l2 + t);
    }
    out
}

/// The lines of `view` for a note.
pub fn view_lines(n: &Note) -> (r: Vec<String>)
    ensures
        r.deep_view() == view_lines_spec(n@),
{
    let created = utc_day(n.created_at.as_str());
    let updated = if n.updated_at.as_str().is_empty() {
        None
    } else {
        utc_day(n.updated_at.as_str())
    };
    let c: Option<&str> = match &created {
        Some(d) => Some(d.as_str()),
        None => None,
    };
    let u: Option<&str> = match &updated {
        Some(d) => Some(d.as_str()),
        None => None,
    };
    view_lines_from(n, c, u)
}

} // verus!
