//! The recency-ranked suggestion index.
//!
//! Scanning the stored entries newest-first, it offers up to five
//! templates whose trimmed, lower-cased description starts with or
//! contains the query.  Two entries collapse onto one template when they
//! share the trimmed, lower-cased description and the set of trimmed,
//! lower-cased tags; the most recent occurrence wins.  A template never
//! carries the synchronisation marker, so a suggestion cannot leak a
//! stale remote work-log id into a new entry.

use crate::entry::EntryModel;
use crate::entry::TimeSheetEntry;
use crate::entry::sync_marker_key;
use crate::strutil::begins_with;
use crate::strutil::begins_with_chars;
use crate::strutil::contains_chars;
use crate::strutil::eq_chars;
use crate::strutil::has_substring;
use crate::trusted::char_is_whitespace;
use crate::trusted::chars_to_string;
use crate::trusted::is_ws_char;
use crate::trusted::lower_of;
use crate::trusted::str_to_chars;
use crate::trusted::to_lowercase_str;
use vstd::prelude::*;

verus! {

// ---------------------------------------------------------------------
// Trimming
// ---------------------------------------------------------------------
pub open spec fn trim_start_spec(s: Seq<char>) -> Seq<char>
    decreases s.len(),
{
    if s.len() > 0 && is_ws_char(s[0]) {
        trim_start_spec(s.skip(1))
    } else {
        s
    }
}

pub open spec fn trim_end_spec(s: Seq<char>) -> Seq<char>
    decreases s.len(),
{
    if s.len() > 0 && is_ws_char(s.last()) {
        trim_end_spec(s.drop_last())
    } else {
        s
    }
}

/// `s` without leading and trailing whitespace.
pub open spec fn trim_spec(s: Seq<char>) -> Seq<char> {
    trim_end_spec(trim_start_spec(s))
}

proof fn lemma_trim_start_at(s: Seq<char>, lo: int)
    requires
        0 <= lo <= s.len(),
        forall|k: int| 0 <= k < lo ==> is_ws_char(#[trigger] s[k]),
        lo == s.len() || !is_ws_char(s[lo]),
    ensures
        trim_start_spec(s) == s.skip(lo),
    decreases lo,
{
    if lo == 0 {
        assert(s.skip(0) =~= s);
    } else {
        assert(is_ws_char(s[0]));
        let t = s.skip(1);
        assert forall|k: int| 0 <= k < lo - 1 implies is_ws_char(#[trigger] t[k]) by {
            assert(t[k] == s[k + 1]);
        }
        if lo - 1 < t.len() {
            assert(t[lo - 1] == s[lo]);
        }
        lemma_trim_start_at(t, lo - 1);
        assert(t.skip(lo - 1) =~= s.skip(lo));
    }
}

proof fn lemma_trim_end_at(s: Seq<char>, hi: int)
    requires
        0 <= hi <= s.len(),
        forall|k: int| hi <= k < s.len() ==> is_ws_char(#[trigger] s[k]),
        hi == 0 || !is_ws_char(s[hi - 1]),
    ensures
        trim_end_spec(s) == s.take(hi),
    decreases s.len() - hi,
{
    if hi == s.len() {
        if s.len() > 0 {
            assert(!is_ws_char(s.last()));
        }
        assert(s.take(hi) =~= s);
    } else {
        assert(is_ws_char(s.last()));
        let t = s.drop_last();
        assert forall|k: int| hi <= k < t.len() implies is_ws_char(#[trigger] t[k]) by {
            assert(t[k] == s[k]);
        }
        if hi > 0 {
            assert(t[hi - 1] == s[hi - 1]);
        }
        lemma_trim_end_at(t, hi);
        assert(t.take(hi) =~= s.take(hi));
    }
}

/// `v` without leading and trailing whitespace.
pub fn trim_chars(v: &Vec<char>) -> (r: Vec<char>)
    ensures
        r@ == trim_spec(v@),
{
    let mut lo: usize = 0;
    while lo < v.len() && char_is_whitespace(v[lo])
        invariant
            lo <= v@.len(),
            forall|k: int| 0 <= k < lo ==> is_ws_char(#[trigger] v@[k]),
        decreases v@.len() - lo,
    {
        lo = lo + 1;
    }
    proof {
        lemma_trim_start_at(v@, lo as int);
    }
    if lo == v.len() {
        let r: Vec<char> = Vec::new();
        proof {
            assert(v@.skip(lo as int) =~= Seq::<char>::empty());
            assert(r@ =~= trim_spec(v@));
        }
        return r;
    }
    let mut hi: usize = v.len();
    while hi > lo && char_is_whitespace(v[hi - 1])
        invariant
            lo <= hi <= v@.len(),
            lo < v@.len(),
            !is_ws_char(v@[lo as int]),
            forall|k: int| hi <= k < v@.len() ==> is_ws_char(#[trigger] v@[k]),
        decreases hi,
    {
        hi = hi - 1;
    }
    let mut r: Vec<char> = Vec::new();
    let mut k = lo;
    while k < hi
        invariant
            lo <= k <= hi <= v@.len(),
            r@ =~= v@.subrange(lo as int, k as int),
        decreases hi - k,
    {
        r.push(v[k]);
        k = k + 1;
    }
    proof {
        let t = v@.skip(lo as int);
        assert(hi > lo);
        assert(!is_ws_char(v@[hi - 1])) by {
            if hi - 1 > lo {
                assert(v@[hi - 1] == v@[hi - 1]);
            }
        }
        assert forall|k2: int| hi - lo <= k2 < t.len() implies is_ws_char(#[trigger] t[k2]) by {
            assert(t[k2] == v@[k2 + lo]);
        }
        assert(t[hi - lo - 1] == v@[hi - 1]);
        lemma_trim_end_at(t, hi - lo);
        assert(t.take(hi - lo) =~= v@.subrange(lo as int, hi as int));
        assert(r@ =~= trim_spec(v@));
    }
    r
}

// ---------------------------------------------------------------------
// Templates and the suggestion scan
// ---------------------------------------------------------------------
/// Mathematical value of a suggestion template.
pub ghost struct TemplateModel {
    pub description: Seq<char>,
    pub tags: Seq<Seq<char>>,
    pub properties: Seq<(Seq<char>, Seq<char>)>,
}

/// A deduplicated suggestion: the winning entry's original-cased
/// description and tags, and its properties less the synchronisation
/// marker.
pub struct TimeSheetEntryTemplate {
    pub description: String,
    pub tags: Vec<String>,
    pub properties: Vec<(String, String)>,
}

impl View for TimeSheetEntryTemplate {
    type V = TemplateModel;

    open spec fn view(&self) -> TemplateModel {
        TemplateModel {
            description: self.description@,
            tags: self.tags.deep_view(),
            properties: self.properties.deep_view(),
        }
    }
}

impl DeepView for TimeSheetEntryTemplate {
    type V = TemplateModel;

    open spec fn deep_view(&self) -> TemplateModel {
        self.view()
    }
}

/// The canonical form a description is matched and deduplicated by.
pub open spec fn desc_key(s: Seq<char>) -> Seq<char> {
    lower_of(trim_spec(s))
}

/// The set a tag list is deduplicated by.
pub open spec fn tag_key_set(tags: Seq<Seq<char>>) -> Set<Seq<char>> {
    tags.map_values(|t: Seq<char>| desc_key(t)).to_set()
}

/// The deduplication key of an entry.
pub open spec fn suggest_key(e: EntryModel) -> (Seq<char>, Set<Seq<char>>) {
    (desc_key(e.description), tag_key_set(e.tags))
}

/// Does the entry match an already lower-cased query?
pub open spec fn matches_partial(e: EntryModel, partial_lower: Seq<char>) -> bool {
    begins_with(desc_key(e.description), partial_lower) || has_substring(
        desc_key(e.description),
        partial_lower,
    )
}

/// The template an entry yields: its own description and tags, its
/// properties with the synchronisation marker stripped.
pub open spec fn template_of(e: EntryModel) -> TemplateModel {
    TemplateModel {
        description: e.description,
        tags: e.tags,
        properties: e.properties.filter(|p: (Seq<char>, Seq<char>)| p.0 != sync_marker_key()),
    }
}

/// The scan, newest first from position `i`, skipping keys in `seen`,
/// with `room` slots left.
pub open spec fn suggest_rec(
    entries: Seq<EntryModel>,
    partial_lower: Seq<char>,
    i: int,
    seen: Set<(Seq<char>, Set<Seq<char>>)>,
    room: nat,
) -> Seq<TemplateModel>
    decreases i + 1,
{
    if i < 0 || room == 0 {
        Seq::empty()
    } else {
        let e = entries[i];
        if matches_partial(e, partial_lower) && !seen.contains(suggest_key(e)) {
            seq![template_of(e)] + suggest_rec(
                entries,
                partial_lower,
                i - 1,
                seen.insert(suggest_key(e)),
                (room - 1) as nat,
            )
        } else {
            suggest_rec(entries, partial_lower, i - 1, seen, room)
        }
    }
}

/// What the suggestion index returns: up to five templates, most recent
/// first, one per distinct key.
pub open spec fn suggest_spec(entries: Seq<EntryModel>, partial: Seq<char>) -> Seq<TemplateModel> {
    suggest_rec(entries, lower_of(partial), entries.len() - 1, Set::empty(), 5)
}

/// The trimmed, lower-cased form of a string.
fn lower_trim(s: &String) -> (r: Vec<char>)
    ensures
        r@ == desc_key(s@),
{
    let cs = str_to_chars(s.as_str());
    let t = trim_chars(&cs);
    let ts = chars_to_string(&t);
    let ls = to_lowercase_str(ts.as_str());
    str_to_chars(ls.as_str())
}

/// The deduplication keys of a tag list.
fn tag_keys(tags: &Vec<String>) -> (r: Vec<Vec<char>>)
    ensures
        r.deep_view() == tags.deep_view().map_values(|t: Seq<char>| desc_key(t)),
{
    let mut r: Vec<Vec<char>> = Vec::new();
    let mut i: usize = 0;
    while i < tags.len()
        invariant
            i <= tags@.len(),
            r.deep_view() =~= tags.deep_view().take(i as int).map_values(
                |t: Seq<char>| desc_key(t),
            ),
        decreases tags@.len() - i,
    {
        let ghost pre = r.deep_view();
        r.push(lower_trim(&tags[i]));
        proof {
            assert(r.deep_view() =~~= pre.push(desc_key(tags.deep_view()[i as int])));
            assert(r.deep_view() =~~= tags.deep_view().take(i as int + 1).map_values(
                |t: Seq<char>| desc_key(t),
            ));
        }
        i = i + 1;
    }
    proof {
        assert(tags.deep_view().take(tags@.len() as int) =~= tags.deep_view());
    }
    r
}

fn char_seq_in(v: &Vec<Vec<char>>, x: &Vec<char>) -> (r: bool)
    ensures
        r == v.deep_view().contains(x@),
{
    let mut j: usize = 0;
    while j < v.len()
        invariant
            j <= v@.len(),
            forall|k: int| 0 <= k < j ==> v.deep_view()[k] != x@,
        decreases v@.len() - j,
    {
        proof {
            assert(v.deep_view()[j as int] =~= v@[j as int]@);
        }
        if eq_chars(&v[j], x) {
            proof {
                assert(v.deep_view()[j as int] == x@);
            }
            return true;
        }
        j = j + 1;
    }
    proof {
        if v.deep_view().contains(x@) {
            let w = choose|w: int| 0 <= w < v.deep_view().len() && v.deep_view()[w] == x@;
        }
    }
    false
}

/// Do two lists hold the same set of character sequences?
fn char_seq_set_eq(a: &Vec<Vec<char>>, b: &Vec<Vec<char>>) -> (r: bool)
    ensures
        r == (a.deep_view().to_set() == b.deep_view().to_set()),
{
    let mut i: usize = 0;
    while i < a.len()
        invariant
            i <= a@.len(),
            forall|k: int| 0 <= k < i ==> b.deep_view().contains(#[trigger] a.deep_view()[k]),
        decreases a@.len() - i,
    {
        proof {
            assert(a.deep_view()[i as int] =~= a@[i as int]@);
        }
        if !char_seq_in(b, &a[i]) {
            proof {
                let missing = a.deep_view()[i as int];
                assert(a.deep_view().to_set().contains(missing));
                assert(!b.deep_view().to_set().contains(missing));
            }
            return false;
        }
        i = i + 1;
    }
    let mut j: usize = 0;
    while j < b.len()
        invariant
            j <= b@.len(),
            forall|k: int| 0 <= k < a@.len() ==> b.deep_view().contains(#[trigger] a.deep_view()[k]),
            forall|k: int| 0 <= k < j ==> a.deep_view().contains(#[trigger] b.deep_view()[k]),
        decreases b@.len() - j,
    {
        proof {
            assert(b.deep_view()[j as int] =~= b@[j as int]@);
        }
        if !char_seq_in(a, &b[j]) {
            proof {
                let missing = b.deep_view()[j as int];
                assert(b.deep_view().to_set().contains(missing));
                assert(!a.deep_view().to_set().contains(missing));
            }
            return false;
        }
        j = j + 1;
    }
    proof {
        assert forall|x: Seq<char>| a.deep_view().to_set().contains(x) implies b.deep_view(
        ).to_set().contains(x) by {
            let w = choose|w: int| 0 <= w < a.deep_view().len() && a.deep_view()[w] == x;
        }
        assert forall|x: Seq<char>| b.deep_view().to_set().contains(x) implies a.deep_view(
        ).to_set().contains(x) by {
            let w = choose|w: int| 0 <= w < b.deep_view().len() && b.deep_view()[w] == x;
        }
        assert(a.deep_view().to_set() =~= b.deep_view().to_set());
    }
    true
}

/// The dedup key a stored scan pair stands for.
pub open spec fn pair_key(p: (Seq<char>, Seq<Seq<char>>)) -> (Seq<char>, Set<Seq<char>>) {
    (p.0, p.1.to_set())
}

/// An entry's properties with the synchronisation marker stripped.
fn strip_marker(props: &Vec<(String, String)>) -> (r: Vec<(String, String)>)
    ensures
        r.deep_view() == props.deep_view().filter(
            |p: (Seq<char>, Seq<char>)| p.0 != sync_marker_key(),
        ),
{
    let ghost pred = |p: (Seq<char>, Seq<char>)| p.0 != sync_marker_key();
    let marker = String::from_str("jira_worklog_id");
    let mut r: Vec<(String, String)> = Vec::new();
    proof {
        reveal(Seq::filter);
        assert(props.deep_view().take(0) =~= Seq::<(Seq<char>, Seq<char>)>::empty());
        assert(r.deep_view() =~= props.deep_view().take(0).filter(pred));
    }
    let mut i: usize = 0;
    while i < props.len()
        invariant
            i <= props@.len(),
            r.deep_view() == props.deep_view().take(i as int).filter(pred),
            pred == (|p: (Seq<char>, Seq<char>)| p.0 != sync_marker_key()),
            marker@ == sync_marker_key(),
        decreases props@.len() - i,
    {
        let ghost pre = r.deep_view();
        let keep = !props[i].0.eq(&marker);
        if keep {
            r.push((props[i].0.clone(), props[i].1.clone()));
        }
        proof {
            reveal(Seq::filter);
            let dv = props.deep_view();
            assert(dv.take(i as int + 1).drop_last() =~= dv.take(i as int));
            assert(dv.take(i as int + 1).last() == dv[i as int]);
            assert(dv[i as int].0 == props@[i as int].0@);
            if keep {
                assert(r.deep_view() =~= pre.push(dv[i as int]));
            }
            assert(r.deep_view() == dv.take(i as int + 1).filter(pred));
        }
        i = i + 1;
    }
    proof {
        assert(props.deep_view().take(props@.len() as int) =~= props.deep_view());
    }
    r
}

/// The template for one entry.
fn make_template(e: &TimeSheetEntry) -> (r: TimeSheetEntryTemplate)
    ensures
        r@ == template_of(e@),
{
    TimeSheetEntryTemplate {
        description: e.description.clone(),
        tags: e.tags.clone(),
        properties: strip_marker(&e.properties),
    }
}

/// Up to five templates matching the query, scanning the entries most
/// recent first and keeping the first occurrence of each key.
pub fn suggest_entry_descriptions(entries: &Vec<TimeSheetEntry>, partial: &str) -> (r: Vec<
    TimeSheetEntryTemplate,
>)
    ensures
        r.deep_view() == suggest_spec(entries.deep_view(), partial@),
{
    let lowered = to_lowercase_str(partial);
    let pl = str_to_chars(lowered.as_str());
    let dv = Ghost(entries.deep_view());
    let mut out: Vec<TimeSheetEntryTemplate> = Vec::new();
    let mut seen: Vec<(Vec<char>, Vec<Vec<char>>)> = Vec::new();
    let ghost mut seen_set: Set<(Seq<char>, Set<Seq<char>>)> = Set::empty();
    let mut ii: usize = entries.len();
    proof {
        assert(out.deep_view() =~~= Seq::<TemplateModel>::empty());
    }
    while ii > 0 && out.len() < 5
        invariant
            ii <= entries@.len(),
            dv@ == entries.deep_view(),
            pl@ == lower_of(partial@),
            out@.len() <= 5,
            suggest_spec(dv@, partial@) == out.deep_view() + suggest_rec(
                dv@,
                pl@,
                ii - 1,
                seen_set,
                (5 - out@.len()) as nat,
            ),
            forall|j: int|
                0 <= j < seen@.len() ==> seen_set.contains(pair_key(
                    #[trigger] seen.deep_view()[j],
                )),
            forall|k: (Seq<char>, Set<Seq<char>>)|
                #[trigger] seen_set.contains(k) ==> exists|j: int|
                    0 <= j < seen@.len() && pair_key(#[trigger] seen.deep_view()[j]) == k,
        ensures
            out.deep_view() == suggest_spec(dv@, partial@),
        decreases ii,
    {
        let i = ii - 1;
        let ghost e = dv@[i as int];
        let kd = lower_trim(&entries[i].description);
        let is_match = begins_with_chars(&kd, &pl) || contains_chars(&kd, &pl);
        proof {
            assert(entries.deep_view()[i as int] == entries@[i as int]@);
            assert(kd@ == desc_key(e.description));
            assert(is_match == matches_partial(e, pl@));
        }
        if is_match {
            let kt = tag_keys(&entries[i].tags);
            proof {
                assert(kt.deep_view().to_set() == tag_key_set(e.tags));
            }
            let mut dup = false;
            let mut j: usize = 0;
            while j < seen.len()
                invariant
                    j <= seen@.len(),
                    kd@ == suggest_key(e).0,
                    kt.deep_view().to_set() == suggest_key(e).1,
                    !dup ==> forall|k: int|
                        0 <= k < j ==> pair_key(#[trigger] seen.deep_view()[k]) != suggest_key(e),
                    dup ==> exists|k: int|
                        0 <= k < seen@.len() && pair_key(#[trigger] seen.deep_view()[k])
                            == suggest_key(e),
                decreases seen@.len() - j,
            {
                proof {
                    assert(seen.deep_view()[j as int].0 =~= seen@[j as int].0@);
                    assert(seen.deep_view()[j as int].1 =~~= seen@[j as int].1.deep_view());
                }
                let same_desc = eq_chars(&seen[j].0, &kd);
                if same_desc {
                    let same_tags = char_seq_set_eq(&seen[j].1, &kt);
                    if same_tags {
                        dup = true;
                        proof {
                            assert(seen.deep_view()[j as int].1.to_set() == kt.deep_view(
                            ).to_set());
                            assert(pair_key(seen.deep_view()[j as int]) == suggest_key(e));
                        }
                        j = seen.len();
                    } else {
                        proof {
                            assert(seen.deep_view()[j as int].1.to_set() != kt.deep_view(
                            ).to_set());
                            assert(pair_key(seen.deep_view()[j as int]) != suggest_key(e));
                        }
                        j = j + 1;
                    }
                } else {
                    proof {
                        assert(pair_key(seen.deep_view()[j as int]) != suggest_key(e));
                    }
                    j = j + 1;
                }
            }
            if !dup {
                proof {
                    if seen_set.contains(suggest_key(e)) {
                        let w = choose|w: int|
                            0 <= w < seen@.len() && pair_key(#[trigger] seen.deep_view()[w])
                                == suggest_key(e);
                    }
                    assert(!seen_set.contains(suggest_key(e)));
                }
                let ghost pre_out = out.deep_view();
                let ghost pre_room = (5 - out@.len()) as nat;
                out.push(make_template(&entries[i]));
                proof {
                    assert(out.deep_view() =~= pre_out.push(template_of(e)));
                    assert(pre_out + (seq![template_of(e)] + suggest_rec(
                        dv@,
                        pl@,
                        i - 1,
                        seen_set.insert(suggest_key(e)),
                        (pre_room - 1) as nat,
                    )) =~= out.deep_view() + suggest_rec(
                        dv@,
                        pl@,
                        i - 1,
                        seen_set.insert(suggest_key(e)),
                        (pre_room - 1) as nat,
                    ));
                }
                let ghost pre_seen = seen.deep_view();
                seen.push((kd, kt));
                proof {
                    seen_set = seen_set.insert(suggest_key(e));
                    assert(seen.deep_view() =~~= pre_seen.push((kd@, kt.deep_view())));
                    assert(pair_key(seen.deep_view()[seen@.len() - 1]) == suggest_key(e));
                    assert forall|jj: int| 0 <= jj < seen@.len() implies seen_set.contains(
                        pair_key(#[trigger] seen.deep_view()[jj]),
                    ) by {
                        if jj < pre_seen.len() {
                            assert(seen.deep_view()[jj] == pre_seen[jj]);
                        }
                    }
                    assert forall|k: (Seq<char>, Set<Seq<char>>)| #[trigger]
                        seen_set.contains(k) implies exists|jj: int|
                        0 <= jj < seen@.len() && pair_key(#[trigger] seen.deep_view()[jj])
                            == k by {
                        if k == suggest_key(e) {
                            assert(pair_key(seen.deep_view()[seen@.len() - 1]) == k);
                        } else {
                            let w = choose|w: int|
                                0 <= w < pre_seen.len() && pair_key(#[trigger] pre_seen[w]) == k;
                            assert(pair_key(seen.deep_view()[w]) == k);
                        }
                    }
                }
            } else {
                proof {
                    let w = choose|w: int|
                        0 <= w < seen@.len() && pair_key(#[trigger] seen.deep_view()[w])
                            == suggest_key(e);
                    assert(seen_set.contains(suggest_key(e)));
                }
            }
        }
        ii = ii - 1;
    }
    proof {
        let tail = suggest_rec(dv@, pl@, ii as int - 1, seen_set, (5 - out@.len()) as nat);
        assert(tail =~= Seq::<TemplateModel>::empty());
        assert(out.deep_view() + tail =~= out.deep_view());
    }
    out
}

} // verus!
