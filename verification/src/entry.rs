//! The canonical in-memory model of one recorded work interval.
//!
//! Timestamps are kept as millisecond Unix epoch values, exactly as the
//! native store serialises them.  Tags are an ordered list (duplicates
//! permitted); properties are an association list whose keys are unique,
//! standing for an unordered string-to-string map.

use vstd::prelude::*;

verus! {

/// Millisecond timestamps accepted by the store.  The bound (roughly
/// 126,000 years either side of the Unix epoch) lies safely inside the
/// range that the calendar library can represent, so every stored
/// timestamp can be converted to a calendar date.
pub const TS_MS_BOUND: i64 = 4_000_000_000_000_000;

pub open spec fn valid_ms(ms: int) -> bool {
    -TS_MS_BOUND <= ms <= TS_MS_BOUND
}

/// Mathematical value of an entry: what the contracts speak about.
pub ghost struct EntryModel {
    pub description: Seq<char>,
    pub start_time: int,
    pub end_time: Option<int>,
    pub tags: Seq<Seq<char>>,
    pub properties: Seq<(Seq<char>, Seq<char>)>,
}

/// One recorded work interval.
pub struct TimeSheetEntry {
    pub description: String,
    /// Milliseconds since the Unix epoch.
    pub start_time: i64,
    /// Milliseconds since the Unix epoch; `None` while the interval is open.
    pub end_time: Option<i64>,
    pub tags: Vec<String>,
    /// Key/value pairs; keys are unique.
    pub properties: Vec<(String, String)>,
}

impl View for TimeSheetEntry {
    type V = EntryModel;

    open spec fn view(&self) -> EntryModel {
        EntryModel {
            description: self.description@,
            start_time: self.start_time as int,
            end_time: match self.end_time {
                Some(ms) => Some(ms as int),
                None => None,
            },
            tags: self.tags.deep_view(),
            properties: self.properties.deep_view(),
        }
    }
}

/// Element-wise copy of a property list.
pub fn clone_props(props: &Vec<(String, String)>) -> (r: Vec<(String, String)>)
    ensures
        r.deep_view() == props.deep_view(),
{
    let mut r: Vec<(String, String)> = Vec::new();
    let mut i: usize = 0;
    while i < props.len()
        invariant
            i <= props.len(),
            r.deep_view() =~= props.deep_view().take(i as int),
        decreases props.len() - i,
    {
        let ghost pre = r.deep_view();
        let key = props[i].0.clone();
        let value = props[i].1.clone();
        r.push((key, value));
        proof {
            assert(r.deep_view() =~= pre.push((props[i as int].0@, props[i as int].1@)));
        }
        i = i + 1;
    }
    proof {
        assert(r.deep_view() =~= props.deep_view());
    }
    r
}

impl DeepView for TimeSheetEntry {
    type V = EntryModel;

    open spec fn deep_view(&self) -> EntryModel {
        self.view()
    }
}

impl Clone for TimeSheetEntry {
    fn clone(&self) -> (r: Self)
        ensures
            r@ == self@,
    {
        let r = TimeSheetEntry {
            description: self.description.clone(),
            start_time: self.start_time,
            end_time: self.end_time,
            tags: self.tags.clone(),
            properties: clone_props(&self.properties),
        };
        proof {
            assert(r.tags.deep_view() =~= self.tags.deep_view());
        }
        r
    }
}

/// First value bound to `key`, if any.  Since well-formed property lists
/// have unique keys, this is the map lookup.
pub open spec fn prop_lookup(props: Seq<(Seq<char>, Seq<char>)>, key: Seq<char>) -> Option<
    Seq<char>,
>
    decreases props.len(),
{
    if props.len() == 0 {
        None
    } else if props[0].0 == key {
        Some(props[0].1)
    } else {
        prop_lookup(props.skip(1), key)
    }
}

pub open spec fn has_prop(props: Seq<(Seq<char>, Seq<char>)>, key: Seq<char>) -> bool {
    prop_lookup(props, key) is Some
}

/// Property key that links an entry to a remote ticket.
pub open spec fn ticket_key() -> Seq<char> {
    "jira"@
}

/// Property key that records an already-created remote work-log id.
pub open spec fn sync_marker_key() -> Seq<char> {
    "jira_worklog_id"@
}

pub open spec fn comma() -> char {
    ','
}

pub open spec fn equals_sign() -> char {
    '='
}

/// Byte-order mark; the row reader strips it from the start of a line, so a
/// description beginning with it cannot be stored faithfully.
pub open spec fn bom_char() -> char {
    '\u{feff}'
}

/// Free of line breaks.  The store is one row per text line, so a value
/// holding a carriage return or line feed cannot survive a rewrite.
pub open spec fn line_clean(s: Seq<char>) -> bool {
    !s.contains('\n') && !s.contains('\r')
}

pub open spec fn valid_tag(t: Seq<char>) -> bool {
    !t.contains(comma()) && line_clean(t)
}

pub open spec fn valid_prop(p: (Seq<char>, Seq<char>)) -> bool {
    &&& !p.0.contains(comma())
    &&& !p.0.contains(equals_sign())
    &&& !p.1.contains(comma())
    &&& line_clean(p.0)
    &&& line_clean(p.1)
}

pub open spec fn unique_keys(props: Seq<(Seq<char>, Seq<char>)>) -> bool {
    forall|i: int, j: int|
        0 <= i < j < props.len() ==> (#[trigger] props[i]).0 != (#[trigger] props[j]).0
}

/// An entry the native store can hold and reproduce: timestamps in range,
/// no field content that collides with the row delimiters or the line
/// structure of the file, and unique property keys.  A single empty tag
/// is excluded because it serialises to the same row as "no tags at
/// all".
pub open spec fn valid_entry(e: EntryModel) -> bool {
    &&& valid_ms(e.start_time)
    &&& match e.end_time {
        Some(ms) => valid_ms(ms),
        None => true,
    }
    &&& !(e.description.len() > 0 && e.description[0] == bom_char())
    &&& line_clean(e.description)
    &&& forall|i: int| 0 <= i < e.tags.len() ==> valid_tag(#[trigger] e.tags[i])
    &&& !(e.tags.len() == 1 && e.tags[0].len() == 0)
    &&& forall|i: int| 0 <= i < e.properties.len() ==> valid_prop(#[trigger] e.properties[i])
    &&& unique_keys(e.properties)
}

/// Row parsing failures.
#[derive(Clone, Copy, PartialEq, Eq, Debug)]
pub enum DecodeError {
    /// The raw line is not a single well-formed delimited record.
    BadRow,
    /// A native record does not have exactly the five expected fields.
    FieldCount,
    /// A timestamp field could not be read, or is out of the supported range.
    MalformedTimestamp,
    /// An export file lacks one of the required columns, or a row is too
    /// short for the column positions the header announced.
    MissingColumn,
    /// A field cannot survive a store rewrite: the description begins
    /// with a byte-order mark (which the row reader strips), or a field
    /// holds a line break (which the one-row-per-line store cannot
    /// carry).
    UnstorableField,
}

} // verus!
