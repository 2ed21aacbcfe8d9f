//! Formatting helpers shared by the commands: match highlighting, relative
//! note ages and the assembly of text piped on standard input.

use vstd::prelude::*;
use crate::notes::{rfc3339_valid, utf8_len};
use vstd::utf8::encode_utf8;
use crate::text::{
    chars_of, char_lower, decimal, decimal_chars, is_blank, lowercase, lowercase_char, occurs_at,
    lemma_encode_utf8_concat, push_range, str_lower, string_from_chars, trim, trim_chars,
    unicode_whitespace, window_matches,
};

verus! {

/// The terminal code that starts a highlighted span (bold yellow).
pub open spec fn highlight_open() -> Seq<char> {
    "\x1b[1;33m"@
}

/// The terminal code that ends a highlighted span.
pub open spec fn highlight_close() -> Seq<char> {
    "\x1b[0m"@
}

/// For a text whose characters lowercase to `lens[0]`, `lens[1]`, ...
/// characters, the index of the text's character behind each position of the
/// lowercased text.
pub open spec fn origin_of(lens: Seq<nat>) -> Seq<int>
    decreases lens.len(),
{
    if lens.len() == 0 {
        Seq::empty()
    } else {
        origin_of(lens.drop_last()) + Seq::new(lens.last(), |j: int| lens.len() - 1)
    }
}

/// How many characters each character of `t` lowercases to.
pub open spec fn lower_lens(t: Seq<char>) -> Seq<nat> {
    Seq::new(t.len(), |i: int| char_lower(t[i]).len())
}

/// Start (in characters of the text) of the character behind each lowercased
/// position, with one extra entry for the end of the text.
pub open spec fn starts_of(lens: Seq<nat>) -> Seq<int> {
    origin_of(lens).push(lens.len() as int)
}

/// End (exclusive) of the character behind each lowercased position, with one
/// extra entry for the end of the text.
pub open spec fn ends_of(lens: Seq<nat>) -> Seq<int> {
    origin_of(lens).map_values(|i: int| i + 1).push(lens.len() as int)
}

/// Everything a highlighting pass looks at.
pub struct HighlightScan {
    pub text: Seq<char>,
    pub lower: Seq<char>,
    pub query: Seq<char>,
    pub starts: Seq<int>,
    pub ends: Seq<int>,
}

/// The scan of `t`, given its lowercased form, the lowercased query and how
/// many characters each character of `t` lowercases to.
pub open spec fn scan_with(t: Seq<char>, lower: Seq<char>, lq: Seq<char>, lens: Seq<nat>) -> HighlightScan {
    HighlightScan { text: t, lower: lower, query: lq, starts: starts_of(lens), ends: ends_of(lens) }
}

/// The scan of `t` for the (not yet lowercased) query `q`.
pub open spec fn scan_of(t: Seq<char>, q: Seq<char>) -> HighlightScan {
    scan_with(t, str_lower(t), str_lower(q), lower_lens(t))
}

/// The rendering of the text from lowercased position `pos` on, where the
/// original text up to `prev` has already been emitted. Matches are taken left
/// to right without overlap (as `str::match_indices` finds them); a match whose
/// original span is empty or starts inside the previous highlight is skipped.
pub open spec fn render(
    c: HighlightScan,
    pos: int,
    prev: int,
    open: Seq<char>,
    close: Seq<char>,
) -> Seq<char>
    decreases c.lower.len() + 1 - pos,
{
    if pos < 0 || pos + c.query.len() > c.lower.len() {
        c.text.subrange(prev, c.text.len() as int)
    } else if !occurs_at(c.lower, c.query, pos) {
        render(c, pos + 1, prev, open, close)
    } else {
        let low_end = pos + c.query.len();
        let next = if c.query.len() > 0 {
            low_end
        } else {
            pos + 1
        };
        if pos >= c.starts.len() || low_end > c.ends.len() {
            render(c, next, prev, open, close)
        } else {
            let os = c.starts[pos];
            let oe = if low_end > 0 {
                c.ends[low_end - 1]
            } else {
                c.starts[0]
            };
            if os < prev || os >= oe {
                render(c, next, prev, open, close)
            } else {
                c.text.subrange(prev, os) + open + c.text.subrange(os, oe) + close + render(
                    c,
                    next,
                    oe,
                    open,
                    close,
                )
            }
        }
    }
}

/// The text with every case-insensitive match of the query wrapped in
/// `open` and `close`.
pub open spec fn highlight_with(t: Seq<char>, q: Seq<char>, open: Seq<char>, close: Seq<char>) -> Seq<
    char,
> {
    if q.len() == 0 {
        t
    } else {
        render(scan_of(t, q), 0, 0, open, close)
    }
}

/// The text with every match of the lowercased query `lq` in the lowercased
/// text `lower` wrapped in `open` and `close`, matches mapped back to whole
/// characters of `t` through `lens`.
pub open spec fn highlight_from(
    t: Seq<char>,
    lower: Seq<char>,
    lq: Seq<char>,
    lens: Seq<nat>,
    open: Seq<char>,
    close: Seq<char>,
) -> Seq<char> {
    render(scan_with(t, lower, lq, lens), 0, 0, open, close)
}

/// What `highlight_match` returns.
pub open spec fn highlight_spec(t: Seq<char>, q: Seq<char>) -> Seq<char> {
    highlight_with(t, q, highlight_open(), highlight_close())
}

/// The origin map points into the text.
proof fn lemma_origin_bounds(lens: Seq<nat>)
    ensures
        forall|k: int| 0 <= k < origin_of(lens).len() ==> 0 <= #[trigger] origin_of(lens)[k] < lens.len(),
    decreases lens.len(),
{
    if lens.len() > 0 {
        lemma_origin_bounds(lens.drop_last());
        let a = origin_of(lens.drop_last());
        let b = Seq::new(lens.last(), |j: int| lens.len() - 1);
        assert forall|k: int| 0 <= k < origin_of(lens).len() implies 0 <= #[trigger] origin_of(lens)[k]
            < lens.len() by {
            if k < a.len() {
                assert(origin_of(lens)[k] == a[k]);
            } else {
                assert(origin_of(lens)[k] == b[k - a.len()]);
            }
        }
    }
}

/// The start and end maps point into the text.
proof fn lemma_maps_bounds(lens: Seq<nat>)
    ensures
        forall|k: int| 0 <= k < starts_of(lens).len() ==> 0 <= #[trigger] starts_of(lens)[k] <= lens.len(),
        forall|k: int| 0 <= k < ends_of(lens).len() ==> 0 <= #[trigger] ends_of(lens)[k] <= lens.len(),
{
    lemma_origin_bounds(lens);
    assert forall|k: int| 0 <= k < starts_of(lens).len() implies 0 <= #[trigger] starts_of(lens)[k] <= lens.len() by {
        if k < origin_of(lens).len() {
            assert(starts_of(lens)[k] == origin_of(lens)[k]);
        }
    }
    assert forall|k: int| 0 <= k < ends_of(lens).len() implies 0 <= #[trigger] ends_of(lens)[k] <= lens.len() by {
        if k < origin_of(lens).len() {
            assert(ends_of(lens)[k] == origin_of(lens)[k] + 1);
        }
    }
}

proof fn lemma_render_plain(c: HighlightScan, pos: int, prev: int)
    requires
        0 <= prev <= c.text.len(),
        forall|k: int| 0 <= k < c.starts.len() ==> 0 <= #[trigger] c.starts[k] <= c.text.len(),
        forall|k: int| 0 <= k < c.ends.len() ==> 0 <= #[trigger] c.ends[k] <= c.text.len(),
        c.starts.len() > 0,
    ensures
        render(c, pos, prev, Seq::empty(), Seq::empty()) == c.text.subrange(prev, c.text.len() as int),
    decreases c.lower.len() + 1 - pos,
{
    let e: Seq<char> = Seq::empty();
    if pos < 0 || pos + c.query.len() > c.lower.len() {
    } else if !occurs_at(c.lower, c.query, pos) {
        lemma_render_plain(c, pos + 1, prev);
    } else {
        let low_end = pos + c.query.len();
        let next = if c.query.len() > 0 {
            low_end
        } else {
            pos + 1
        };
        if pos >= c.starts.len() || low_end > c.ends.len() {
            lemma_render_plain(c, next, prev);
        } else {
            let os = c.starts[pos];
            let oe = if low_end > 0 {
                c.ends[low_end - 1]
            } else {
                c.starts[0]
            };
            if os < prev || os >= oe {
                lemma_render_plain(c, next, prev);
            } else {
                lemma_render_plain(c, next, oe);
                let n = c.text.len() as int;
                assert(c.text.subrange(prev, os) + e + c.text.subrange(os, oe) + e
                    + c.text.subrange(oe, n) =~= c.text.subrange(prev, n));
            }
        }
    }
}

/// Law: highlighting inserts only the two codes: with the codes left out, the
/// result is the text itself, whatever the lowercased forms are, as long as
/// one length is given per character of the text.
pub proof fn lemma_highlight_from_keeps_text(t: Seq<char>, lower: Seq<char>, lq: Seq<char>, lens: Seq<nat>)
    requires
        lens.len() == t.len(),
    ensures
        highlight_from(t, lower, lq, lens, Seq::empty(), Seq::empty()) == t,
{
    lemma_maps_bounds(lens);
    lemma_render_plain(scan_with(t, lower, lq, lens), 0, 0);
    assert(t.subrange(0, t.len() as int) == t);
}

/// Law: the highlighted text is the original text with the two terminal codes
/// inserted around matches; with the codes left out it is the original text.
pub proof fn lemma_highlight_keeps_text(t: Seq<char>, q: Seq<char>)
    ensures
        highlight_spec(t, q) == highlight_with(t, q, highlight_open(), highlight_close()),
        highlight_with(t, q, Seq::empty(), Seq::empty()) == t,
{
    if q.len() > 0 {
        lemma_highlight_from_keeps_text(t, str_lower(t), str_lower(q), lower_lens(t));
    }
}

/// Builds the start and end maps from lowercased positions back to the text.
fn lens_maps(lens: &Vec<usize>) -> (r: (Vec<usize>, Vec<usize>))
    ensures
        r.0@.len() == starts_of(nat_lens(lens@)).len(),
        r.1@.len() == ends_of(nat_lens(lens@)).len(),
        forall|k: int| 0 <= k < r.0@.len() ==> #[trigger] r.0@[k] as int == starts_of(nat_lens(lens@))[k],
        forall|k: int| 0 <= k < r.1@.len() ==> #[trigger] r.1@[k] as int == ends_of(nat_lens(lens@))[k],
{
    let ghost nl = nat_lens(lens@);
    let mut starts: Vec<usize> = Vec::new();
    let mut ends: Vec<usize> = Vec::new();
    let n = lens.len();
    let mut i: usize = 0;
    while i < n
        invariant
            n == lens@.len(),
            nl == nat_lens(lens@),
            i <= n,
            starts@.len() == origin_of(nl.take(i as int)).len(),
            ends@.len() == starts@.len(),
            forall|k: int|
                0 <= k < starts@.len() ==> #[trigger] starts@[k] as int == origin_of(nl.take(i as int))[k],
            forall|k: int|
                0 <= k < ends@.len() ==> #[trigger] ends@[k] as int == origin_of(nl.take(i as int))[k] + 1,
        decreases n - i,
    {
        let c = lens[i];
        let ghost before = origin_of(nl.take(i as int));
        let ghost old_len = starts@.len();
        let mut j: usize = 0;
        while j < c
            invariant
                i < n,
                n == lens@.len(),
                j <= c,
                starts@.len() == old_len + j,
                ends@.len() == old_len + j,
                old_len == before.len(),
                forall|k: int| 0 <= k < old_len ==> #[trigger] starts@[k] as int == before[k],
                forall|k: int| 0 <= k < old_len ==> #[trigger] ends@[k] as int == before[k] + 1,
                forall|k: int| old_len <= k < starts@.len() ==> #[trigger] starts@[k] == i,
                forall|k: int| old_len <= k < ends@.len() ==> #[trigger] ends@[k] == i + 1,
            decreases c - j,
        {
            starts.push(i);
            ends.push(i + 1);
            j = j + 1;
        }
        proof {
            let t1 = nl.take(i + 1);
            assert(t1.drop_last() == nl.take(i as int));
            assert(t1.last() == c as nat);
            let after = origin_of(t1);
            assert(after == before + Seq::new(c as nat, |j: int| t1.len() - 1));
            assert forall|k: int| 0 <= k < starts@.len() implies #[trigger] starts@[k] as int == after[k] by {
                if k >= old_len {
                    assert(after[k] == i);
                }
            }
            assert forall|k: int| 0 <= k < ends@.len() implies #[trigger] ends@[k] as int == after[k] + 1 by {
                if k >= old_len {
                    assert(after[k] == i);
                }
            }
        }
        i = i + 1;
    }
    assert(nl.take(n as int) == nl);
    starts.push(n);
    ends.push(n);
    (starts, ends)
}

/// Lengths as natural numbers.
pub open spec fn nat_lens(lens: Seq<usize>) -> Seq<nat> {
    lens.map_values(|x: usize| x as nat)
}

/// Wraps every match of the lowercased query in the lowercased text in the
/// terminal codes for bold yellow, given the text's lowercased form and the
/// query's (as `str::to_lowercase` gives them) and, for each character of the
/// text, how many characters it lowercases to (as `char::to_lowercase`
/// gives it). Matches are taken left to right without overlap and mapped back
/// to whole characters of the text.
pub fn highlight_lowered(text: &str, lower_text: &str, lower_query: &str, lower_lens: &Vec<usize>) -> (r:
    String)
    requires
        lower_lens@.len() == text@.len(),
    ensures
        r@ == highlight_from(
            text@,
            lower_text@,
            lower_query@,
            nat_lens(lower_lens@),
            highlight_open(),
            highlight_close(),
        ),
{
    let tc = chars_of(text);
    let lt = chars_of(lower_text);
    let lq = chars_of(lower_query);
    let (starts, ends) = lens_maps(lower_lens);
    let open = chars_of("\x1b[1;33m");
    let close = chars_of("\x1b[0m");
    let ghost c = scan_with(text@, lower_text@, lower_query@, nat_lens(lower_lens@));
    proof {
        lemma_maps_bounds(nat_lens(lower_lens@));
        assert forall|k: int| 0 <= k < starts@.len() implies #[trigger] starts@[k] <= tc@.len() by {
            assert(c.starts[k] <= nat_lens(lower_lens@).len());
        }
        assert forall|k: int| 0 <= k < ends@.len() implies #[trigger] ends@[k] <= tc@.len() by {
            assert(c.ends[k] <= nat_lens(lower_lens@).len());
        }
    }
    let n = tc.len();
    let mut out: Vec<char> = Vec::new();
    let mut pos: usize = 0;
    let mut prev: usize = 0;
    while pos <= lt.len() && lq.len() <= lt.len() - pos
        invariant
            tc@ == text@,
            n == tc@.len(),
            lt@ == c.lower,
            lq@ == c.query,
            c == scan_with(text@, lower_text@, lower_query@, nat_lens(lower_lens@)),
            open@ == highlight_open(),
            close@ == highlight_close(),
            starts@.len() == c.starts.len(),
            ends@.len() == c.ends.len(),
            starts@.len() > 0,
            forall|k: int| 0 <= k < starts@.len() ==> #[trigger] starts@[k] as int == c.starts[k],
            forall|k: int| 0 <= k < ends@.len() ==> #[trigger] ends@[k] as int == c.ends[k],
            forall|k: int| 0 <= k < starts@.len() ==> #[trigger] starts@[k] <= n,
            forall|k: int| 0 <= k < ends@.len() ==> #[trigger] ends@[k] <= n,
            prev <= n,
            pos <= lt@.len() + 1,
            out@ + render(c, pos as int, prev as int, open@, close@) == render(
                c,
                0,
                0,
                open@,
                close@,
            ),
        decreases lt.len() + 1 - pos,
    {
        if !window_matches(&lt, &lq, pos) {
            proof {
                if lq@.len() == 0 {
                    assert(lt@.subrange(pos as int, pos as int) =~= lq@);
                }
            }
            pos = pos + 1;
        } else {
            let low_end = pos + lq.len();
            let stop = lq.len() == 0 && pos == lt.len();
            let next = if lq.len() > 0 {
                low_end
            } else if stop {
                pos
            } else {
                pos + 1
            };
            let ghost gnext = if lq.len() > 0 {
                low_end as int
            } else {
                pos + 1
            };
            if !(pos >= starts.len() || low_end > ends.len()) {
                let os = starts[pos];
                let oe = if low_end > 0 {
                    ends[low_end - 1]
                } else {
                    starts[0]
                };
                if !(os < prev || os >= oe) {
                    let ghost before = out@;
                    push_range(&mut out, &tc, prev, os);
                    push_range(&mut out, &open, 0, open.len());
                    push_range(&mut out, &tc, os, oe);
                    push_range(&mut out, &close, 0, close.len());
                    proof {
                        assert(open@.subrange(0, open@.len() as int) == open@);
                        assert(close@.subrange(0, close@.len() as int) == close@);
                        assert(out@ == before + (tc@.subrange(prev as int, os as int) + open@
                            + tc@.subrange(os as int, oe as int) + close@));
                    }
                    prev = oe;
                }
            }
            if stop {
                assert(render(c, gnext, prev as int, open@, close@) == c.text.subrange(
                    prev as int,
                    c.text.len() as int,
                ));
                push_range(&mut out, &tc, prev, n);
                return string_from_chars(out.as_slice());
            }
            pos = next;
        }
    }
    push_range(&mut out, &tc, prev, n);
    string_from_chars(out.as_slice())
}

/// Wraps every case-insensitive match of `query` inside `text` in the
/// terminal codes for bold yellow. Case mapping can change lengths (German ß,
/// Turkish İ); matches are mapped back to whole characters of the text, so the
/// text itself always comes through intact.
pub fn highlight_match(text: &str, query: &str) -> (r: String)
    ensures
        r@ == highlight_spec(text@, query@),
        query@.len() == 0 ==> r@ == text@,
{
    if query.is_empty() {
        return text.to_owned();
    }
    let tc = chars_of(text);
    let mut lens: Vec<usize> = Vec::new();
    let mut i: usize = 0;
    while i < tc.len()
        invariant
            tc@ == text@,
            i <= tc@.len(),
            lens@.len() == i,
            forall|k: int| 0 <= k < i ==> #[trigger] lens@[k] as nat == char_lower(tc@[k]).len(),
        decreases tc.len() - i,
    {
        let lc = lowercase_char(tc[i]);
        lens.push(lc.len());
        i = i + 1;
    }
    assert(nat_lens(lens@) =~= lower_lens(text@));
    let lower_text = lowercase(text);
    let lower_query = lowercase(query);
    highlight_lowered(text, lower_text.as_str(), lower_query.as_str(), &lens)
}

} // verus!

verus! {

/// Whole seconds elapsed from an RFC 3339 timestamp to now: chrono's
/// `DateTime::parse_from_rfc3339`, then `Utc::now().signed_duration_since(..)`
/// and `num_seconds`. Claimed: a value exactly when the timestamp parses; the
/// value depends on the clock and is not stated.
#[verifier::external_body]
fn seconds_since(ts: &str) -> (r: Option<i64>)
    ensures
        r is Some <==> rfc3339_valid(ts@),
{
    let t = chrono::DateTime::parse_from_rfc3339(ts).ok()?;
    Some(chrono::Utc::now().signed_duration_since(t.with_timezone(&chrono::Utc)).num_seconds())
}

/// The compact relative age for `secs` elapsed seconds: under an hour, hours,
/// days (under two weeks), weeks (under eight), 30-day months (under two
/// years), 365-day years. Hours, days and weeks are whole, as chrono's
/// `num_hours`, `num_days` and `num_weeks` count them.
pub open spec fn age_label(secs: int) -> Seq<char> {
    if secs < 3600 {
        "<1h"@
    } else if secs < 24 * 3600 {
        decimal((secs / 3600) as nat) + "h"@
    } else if secs < 24 * 14 * 3600 {
        decimal((secs / 86400) as nat) + "d"@
    } else if secs < 24 * 56 * 3600 {
        decimal((secs / 86400 / 7) as nat) + "w"@
    } else if secs < 24 * 730 * 3600 {
        decimal((secs / 86400 / 30) as nat) + "mo"@
    } else {
        decimal((secs / 86400 / 365) as nat) + "y"@
    }
}

fn number_with_unit(n: u64, unit: &str) -> (r: String)
    ensures
        r@ == decimal(n as nat) + unit@,
{
    let mut v = decimal_chars(n);
    let mut u = chars_of(unit);
    v.append(&mut u);
    string_from_chars(v.as_slice())
}

/// The relative age label for `secs` elapsed seconds.
pub fn age_from_seconds(secs: i64) -> (r: String)
    ensures
        r@ == age_label(secs as int),
{
    if secs < 3600 {
        "<1h".to_owned()
    } else if secs < 24 * 3600 {
        number_with_unit((secs / 3600) as u64, "h")
    } else if secs < 24 * 14 * 3600 {
        number_with_unit((secs / 86400) as u64, "d")
    } else if secs < 24 * 56 * 3600 {
        number_with_unit((secs / 86400 / 7) as u64, "w")
    } else if secs < 24 * 730 * 3600 {
        number_with_unit((secs / 86400 / 30) as u64, "mo")
    } else {
        number_with_unit((secs / 86400 / 365) as u64, "y")
    }
}

/// Converts an RFC 3339 timestamp into a compact relative-age label, `"?"`
/// when it does not parse.
pub fn note_age(ts: &str) -> (r: String)
    ensures
        !rfc3339_valid(ts@) ==> r@ == "?"@,
        rfc3339_valid(ts@) ==> exists|secs: int| r@ == age_label(secs),
{
    match seconds_since(ts) {
        Some(secs) => age_from_seconds(secs),
        None => "?".to_owned(),
    }
}

/// Maximum bytes of text read from standard input.
pub const MAX_STDIN_BYTES: usize = 10 * 1024 * 1024;

/// A line without its trailing newline and carriage return characters.
pub open spec fn strip_line_end(l: Seq<char>) -> Seq<char>
    decreases l.len(),
{
    if l.len() > 0 && (l.last() == '\n' || l.last() == '\r') {
        strip_line_end(l.drop_last())
    } else {
        l
    }
}

/// What taking in one line read from standard input does to the text so far.
pub open spec fn stdin_line_outcome(
    out: Seq<char>,
    line: Seq<char>,
    r: Result<(), String>,
    new: Seq<char>,
) -> bool {
    if utf8_len(out) + utf8_len(line) > MAX_STDIN_BYTES {
        r matches Err(m) && m@ == "stdin input exceeds 10 MB limit"@ && new == out
    } else {
        r is Ok && new == out + strip_line_end(line) + seq!['\n']
    }
}

/// Takes in one line (as `read_line` returns it) of text piped on standard
/// input: refuses it when the text would exceed 10 MB, otherwise adds it
/// without its line ending, followed by a newline.
pub fn append_stdin_line(out: &mut Vec<char>, out_bytes: &mut usize, line: &str) -> (r: Result<
    (),
    String,
>)
    requires
        *old(out_bytes) == utf8_len(old(out)@),
    ensures
        stdin_line_outcome(old(out)@, line@, r, final(out)@),
        *final(out_bytes) == utf8_len(final(out)@),
{
    let n = line.as_bytes().len();
    if n > MAX_STDIN_BYTES || *out_bytes > MAX_STDIN_BYTES - n {
        return Err("stdin input exceeds 10 MB limit".to_owned());
    }
    let cs = chars_of(line);
    let mut end = cs.len();
    assert(cs@ == cs@.take(cs@.len() as int));
    while end > 0 && (cs[end - 1] == '\n' || cs[end - 1] == '\r')
        invariant
            end <= cs@.len(),
            cs@ == line@,
            strip_line_end(cs@.take(end as int)) == strip_line_end(line@),
        decreases end,
    {
        proof {
            assert(cs@.take(end as int).drop_last() == cs@.take(end - 1));
        }
        end = end - 1;
    }
    let ghost before = out@;
    let ghost kept = cs@.take(end as int);
    push_range(out, &cs, 0, end);
    out.push('\n');
    assert(cs@.subrange(0, end as int) == kept);
    assert(out@ == before + strip_line_end(line@) + seq!['\n']);
    let piece = string_from_chars(&cs.as_slice()[0..end]);
    let piece_bytes = piece.as_str().as_bytes().len();
    proof {
        assert(cs@ =~= kept + cs@.skip(end as int));
        lemma_encode_utf8_concat(kept, cs@.skip(end as int));
        lemma_encode_utf8_concat(before, kept);
        lemma_encode_utf8_concat(before + kept, seq!['\n']);
        assert(before + strip_line_end(line@) + seq!['\n'] == (before + kept) + seq!['\n']);
        assert(encode_utf8(seq!['\n']).len() == 1) by {
            let nl = seq!['\n'];
            assert(nl.drop_first() =~= Seq::<char>::empty());
            assert(encode_utf8(nl.drop_first()).len() == 0);
            assert(('\n' as u32) == 10);
            assert(encode_utf8(nl) == vstd::utf8::encode_scalar(nl[0] as u32) + encode_utf8(
                nl.drop_first(),
            ));
        }
    }
    *out_bytes = *out_bytes + piece_bytes + 1;
    Ok(())
}

/// The text piped on standard input once all lines are in: trimmed, and
/// refused when nothing is left.
pub fn finish_stdin_text(out: &Vec<char>) -> (r: Result<String, String>)
    ensures
        trim(out@).len() == 0 ==> (r matches Err(m) && m@ == "no text provided via stdin"@),
        trim(out@).len() > 0 ==> (r matches Ok(t) && t@ == trim(out@)),
{
    let t = trim_chars(out.as_slice());
    if t.len() == 0 {
        return Err("no text provided via stdin".to_owned());
    }
    Ok(string_from_chars(t.as_slice()))
}

} // verus!
