//! Tag usage counts across notes.

use vstd::prelude::*;
use vstd::hash_map::StringHashMap;
use crate::model::{Note, NoteView};

verus! {

/// Every tag of every note, in order.
pub open spec fn all_tags(s: Seq<NoteView>) -> Seq<Seq<char>>
    decreases s.len(),
{
    if s.len() == 0 {
        Seq::empty()
    } else {
        all_tags(s.drop_last()) + s.last().tags
    }
}

/// How often `t` occurs in `ts` (exact, case-sensitive comparison).
pub open spec fn occurrences(ts: Seq<Seq<char>>, t: Seq<char>) -> nat
    decreases ts.len(),
{
    if ts.len() == 0 {
        0
    } else {
        occurrences(ts.drop_last(), t) + if ts.last() == t {
            1nat
        } else {
            0nat
        }
    }
}

proof fn lemma_occurrences_bound(ts: Seq<Seq<char>>, t: Seq<char>)
    ensures
        occurrences(ts, t) <= ts.len(),
    decreases ts.len(),
{
    if ts.len() > 0 {
        lemma_occurrences_bound(ts.drop_last(), t);
    }
}

/// Each tag that occurs, with its number of occurrences.
pub open spec fn count_map(ts: Seq<Seq<char>>) -> Map<Seq<char>, usize> {
    Map::new(|t: Seq<char>| occurrences(ts, t) > 0, |t: Seq<char>| occurrences(ts, t) as usize)
}

/// Tag usage counts: each tag spelled exactly as in the notes, with the
/// number of times it occurs; tags are kept in the order first seen.
pub struct TagCounts {
    order: Vec<String>,
    counts: StringHashMap<usize>,
}

impl View for TagCounts {
    type V = Map<Seq<char>, usize>;

    closed spec fn view(&self) -> Map<Seq<char>, usize> {
        self.counts@
    }
}

impl TagCounts {
    #[verifier::type_invariant]
    closed spec fn well_formed(self) -> bool {
        &&& self.order.deep_view().no_duplicates()
        &&& self.order.deep_view().to_set() == self.counts@.dom()
    }

    /// The count of `tag`, if it occurs.
    pub fn get(&self, tag: &str) -> (r: Option<usize>)
        ensures
            r == (if self@.contains_key(tag@) {
                Some(self@[tag@])
            } else {
                None::<usize>
            }),
    {
        match self.counts.get(tag) {
            Some(c) => Some(*c),
            None => None,
        }
    }

    /// Whether `tag` occurs.
    pub fn contains_key(&self, tag: &str) -> (r: bool)
        ensures
            r == self@.contains_key(tag@),
    {
        self.counts.contains_key(tag)
    }

    /// The number of distinct tags.
    pub fn len(&self) -> (r: usize)
        ensures
            r == self@.len(),
    {
        self.counts.len()
    }

    /// Whether no tag occurs.
    pub fn is_empty(&self) -> (r: bool)
        ensures
            r == (self@.len() == 0),
    {
        proof {
            use_type_invariant(self);
            self.order.deep_view().unique_seq_to_set();
        }
        self.counts.len() == 0
    }

    /// The distinct tags, in the order first seen.
    pub fn tags(&self) -> (r: Vec<String>)
        ensures
            r.deep_view().no_duplicates(),
            r.deep_view().to_set() == self@.dom(),
    {
        proof {
            use_type_invariant(self);
        }
        crate::model::clone_strings(&self.order)
    }
}

/// Counts how often each tag is used across the notes.
pub fn collect_tags(notes: &[Note]) -> (r: TagCounts)
    requires
        all_tags(notes.deep_view()).len() <= usize::MAX,
    ensures
        r@ == count_map(all_tags(notes.deep_view())),
{
    let ghost s = notes.deep_view();
    let mut order: Vec<String> = Vec::new();
    let mut counts: StringHashMap<usize> = StringHashMap::new();
    assert(count_map(Seq::empty()) =~= counts@);
    let mut i: usize = 0;
    while i < notes.len()
        invariant
            s == notes.deep_view(),
            all_tags(s).len() <= usize::MAX,
            i <= s.len(),
            counts@ == count_map(all_tags(s.take(i as int))),
            order.deep_view().no_duplicates(),
            order.deep_view().to_set() == counts@.dom(),
            all_tags(s.take(i as int)).len() <= all_tags(s).len(),
        decreases notes.len() - i,
    {
        let ghost done = all_tags(s.take(i as int));
        let tags = &notes[i].tags;
        proof {
            assert(s.take(i + 1).drop_last() == s.take(i as int));
            assert(s.take(i + 1).last() == s[i as int]);
            lemma_all_tags_prefix(s, i + 1);
        }
        let mut j: usize = 0;
        while j < tags.len()
            invariant
                i < s.len(),
                tags.deep_view() == s[i as int].tags,
                j <= tags@.len(),
                done.len() + tags@.len() == all_tags(s.take(i + 1)).len(),
                all_tags(s.take(i + 1)).len() <= usize::MAX,
                counts@ == count_map(done + tags.deep_view().take(j as int)),
                order.deep_view().no_duplicates(),
                order.deep_view().to_set() == counts@.dom(),
            decreases tags.len() - j,
        {
            let ghost ts = done + tags.deep_view().take(j as int);
            let ghost t = tags.deep_view()[j as int];
            let ghost ts2 = ts.push(t);
            assert(done + tags.deep_view().take(j + 1) =~= ts2);
            proof {
                lemma_occurrences_bound(ts, t);
                assert(ts2.drop_last() == ts);
                assert(ts2.last() == t);
                assert forall|u: Seq<char>|
                    #[trigger] occurrences(ts2, u) == occurrences(ts, u) + if t == u {
                        1nat
                    } else {
                        0nat
                    } by {
                    assert(ts2.drop_last() == ts);
                }
            }
            let tag = tags[j].clone();
            match counts.get(tag.as_str()) {
                Some(c) => {
                    let c1 = *c + 1;
                    counts.insert(tag, c1);
                    assert(counts@ =~= count_map(ts2));
                },
                None => {
                    let ghost od = order.deep_view();
                    order.push(tags[j].clone());
                    assert(order.deep_view() =~= od.push(t));
                    counts.insert(tag, 1);
                    assert(counts@ =~= count_map(ts2));
                    proof {
                        let np = od.push(t);
                        assert forall|a: Seq<char>| np.contains(a) <==> (od.contains(a) || a == t) by {
                            if od.contains(a) {
                                let k = choose|k: int| 0 <= k < od.len() && od[k] == a;
                                assert(np[k] == a);
                            }
                            if a == t {
                                assert(np[od.len() as int] == t);
                            }
                            if np.contains(a) {
                                let k = choose|k: int| 0 <= k < np.len() && np[k] == a;
                                if k < od.len() {
                                    assert(od[k] == a);
                                }
                            }
                        }
                        assert(!od.contains(t)) by {
                            assert(!od.to_set().contains(t));
                        }
                    }
                    assert(order.deep_view().to_set() =~= counts@.dom());
                },
            }
            j = j + 1;
        }
        assert(done + tags.deep_view().take(j as int) =~= all_tags(s.take(i + 1)));
        i = i + 1;
    }
    assert(s.take(i as int) == s);
    let r = TagCounts { order, counts };
    r
}

proof fn lemma_all_tags_prefix(s: Seq<NoteView>, k: int)
    requires
        0 <= k <= s.len(),
    ensures
        all_tags(s.take(k)).len() <= all_tags(s).len(),
    decreases s.len() - k,
{
    if k < s.len() {
        lemma_all_tags_prefix(s, k + 1);
        assert(s.take(k + 1).drop_last() == s.take(k));
    } else {
        assert(s.take(k) == s);
    }
}

} // verus!
