//! Ingestion of the read-only third-party time-tracker export.
//!
//! Export rows carry their date and time as separate `YYYY-MM-DD` and
//! `HH:MM:SS` text columns in local time, and always have both a start
//! and an end.  Every ingested entry is marked with a `Toggl` provenance
//! tag unless it already carries one; export entries are re-derived on
//! every load and never written back into the native store.

use crate::caldate::parse_hms;
use crate::caldate::parse_hms_spec;
use crate::caldate::parse_ymd;
use crate::caldate::parse_ymd_spec;
use crate::codec::tags_of_field;
use crate::entry::DecodeError;
use crate::entry::EntryModel;
use crate::entry::TimeSheetEntry;
use crate::entry::valid_ms;
use crate::strutil::contains_string;
use crate::trusted::csv_fields_of;
use crate::trusted::csv_split;
use crate::trusted::local_civil_to_ms;
use crate::trusted::str_to_chars;
use vstd::prelude::*;

verus! {

/// One raw row of the export: the six columns the ingester reads.
pub struct TogglRow {
    pub description: String,
    pub start_date: String,
    pub start_time: String,
    pub end_date: String,
    pub end_time: String,
    pub tags: String,
}

/// The tag list of an ingested export row: the tags column, with the
/// provenance tag appended when absent.
pub open spec fn toggl_tags_spec(f: Seq<char>) -> Seq<Seq<char>> {
    let base = tags_of_field(f);
    if base.contains("Toggl"@) {
        base
    } else {
        base.push("Toggl"@)
    }
}

/// The shape every ingested export entry has: closed interval, timestamps
/// the store can hold, no properties, and the provenance tag.
pub open spec fn toggl_entry_shape(e: EntryModel) -> bool {
    &&& valid_ms(e.start_time)
    &&& e.end_time matches Some(ms) && valid_ms(ms)
    &&& e.properties == Seq::<(Seq<char>, Seq<char>)>::empty()
    &&& e.tags.contains("Toggl"@)
}

/// The entry one export row denotes.  The timestamps come from the
/// machine's time zone, so only their presence and range are promised;
/// the text columns must parse, and a date or time that does not is the
/// row's one failure.
pub fn decode_toggl(row: &TogglRow) -> (r: Result<TimeSheetEntry, DecodeError>)
    ensures
        match r {
            Ok(e) => e@.description == row.description@ && e@.tags == toggl_tags_spec(row.tags@)
                && toggl_entry_shape(e@),
            Err(er) => er == DecodeError::MalformedTimestamp,
        },
        (parse_ymd_spec(row.start_date@) is None || parse_hms_spec(row.start_time@) is None
            || parse_ymd_spec(row.end_date@) is None || parse_hms_spec(row.end_time@) is None)
            ==> r is Err,
{
    let sd = str_to_chars(row.start_date.as_str());
    let (sy, sm, sdd) = match parse_ymd(&sd) {
        Some(v) => v,
        None => {
            return Err(DecodeError::MalformedTimestamp);
        },
    };
    let st = str_to_chars(row.start_time.as_str());
    let (sh, smi, ss) = match parse_hms(&st) {
        Some(v) => v,
        None => {
            return Err(DecodeError::MalformedTimestamp);
        },
    };
    let ed = str_to_chars(row.end_date.as_str());
    let (ey, em, edd) = match parse_ymd(&ed) {
        Some(v) => v,
        None => {
            return Err(DecodeError::MalformedTimestamp);
        },
    };
    let et = str_to_chars(row.end_time.as_str());
    let (eh, emi, es) = match parse_hms(&et) {
        Some(v) => v,
        None => {
            return Err(DecodeError::MalformedTimestamp);
        },
    };
    let start_ms = match local_civil_to_ms(sy, sm, sdd, sh, smi, ss) {
        Some(ms) => ms,
        None => {
            return Err(DecodeError::MalformedTimestamp);
        },
    };
    let end_ms = match local_civil_to_ms(ey, em, edd, eh, emi, es) {
        Some(ms) => ms,
        None => {
            return Err(DecodeError::MalformedTimestamp);
        },
    };
    let mut tags = crate::codec::decode_tags_field(&row.tags);
    let marker = String::from_str("Toggl");
    let ghost base = tags.deep_view();
    if !contains_string(&tags, &marker) {
        tags.push(marker);
        proof {
            assert(tags.deep_view() =~~= base.push("Toggl"@));
            assert(tags.deep_view()[tags.deep_view().len() - 1] == "Toggl"@);
        }
    }
    let e = TimeSheetEntry {
        description: row.description.clone(),
        start_time: start_ms,
        end_time: Some(end_ms),
        tags,
        properties: Vec::new(),
    };
    proof {
        assert(e@.properties =~= Seq::<(Seq<char>, Seq<char>)>::empty());
        assert(e@.tags.contains("Toggl"@));
    }
    Ok(e)
}

/// Position of the first header cell reading `name` or `alt`, or -1.
pub open spec fn first_column(header: Seq<Seq<char>>, name: Seq<char>, alt: Seq<char>) -> int
    decreases header.len(),
{
    if header.len() == 0 {
        -1
    } else if header[0] == name || header[0] == alt {
        0
    } else {
        let rest = first_column(header.skip(1), name, alt);
        if rest < 0 {
            -1
        } else {
            rest + 1
        }
    }
}

/// Does the header name every column the ingester reads?
pub open spec fn required_columns_found(header: Seq<Seq<char>>) -> bool {
    &&& first_column(header, "Description"@, "description"@) >= 0
    &&& first_column(header, "Start date"@, "start_date"@) >= 0
    &&& first_column(header, "Start time"@, "start_time"@) >= 0
    &&& first_column(header, "End date"@, "end_date"@) >= 0
    &&& first_column(header, "End time"@, "end_time"@) >= 0
    &&& first_column(header, "Tags"@, "tags"@) >= 0
}

pub open spec fn max2(a: int, b: int) -> int {
    if a >= b {
        a
    } else {
        b
    }
}

/// The largest position among the columns the ingester reads.
pub open spec fn max_required_column(header: Seq<Seq<char>>) -> int {
    max2(
        first_column(header, "Description"@, "description"@),
        max2(
            first_column(header, "Start date"@, "start_date"@),
            max2(
                first_column(header, "Start time"@, "start_time"@),
                max2(
                    first_column(header, "End date"@, "end_date"@),
                    max2(
                        first_column(header, "End time"@, "end_time"@),
                        first_column(header, "Tags"@, "tags"@),
                    ),
                ),
            ),
        ),
    )
}

proof fn lemma_first_column_at(header: Seq<Seq<char>>, name: Seq<char>, alt: Seq<char>, j: int)
    requires
        0 <= j < header.len(),
        header[j] == name || header[j] == alt,
        forall|k: int| 0 <= k < j ==> #[trigger] header[k] != name && header[k] != alt,
    ensures
        first_column(header, name, alt) == j,
    decreases j,
{
    if j > 0 {
        assert forall|k: int| 0 <= k < j - 1 implies #[trigger] header.skip(1)[k] != name
            && header.skip(1)[k] != alt by {
            assert(header.skip(1)[k] == header[k + 1]);
        }
        assert(header.skip(1)[j - 1] == header[j]);
        lemma_first_column_at(header.skip(1), name, alt, j - 1);
    }
}

proof fn lemma_first_column_none(header: Seq<Seq<char>>, name: Seq<char>, alt: Seq<char>)
    requires
        forall|k: int| 0 <= k < header.len() ==> #[trigger] header[k] != name && header[k] != alt,
    ensures
        first_column(header, name, alt) < 0,
    decreases header.len(),
{
    if header.len() > 0 {
        assert forall|k: int| 0 <= k < header.skip(1).len() implies #[trigger] header.skip(
            1,
        )[k] != name && header.skip(1)[k] != alt by {
            assert(header.skip(1)[k] == header[k + 1]);
        }
        lemma_first_column_none(header.skip(1), name, alt);
    }
}

/// The position of the column whose header is `name` or `alt`.
fn find_column(header: &Vec<String>, name: &String, alt: &String) -> (r: Option<usize>)
    ensures
        match r {
            Some(j) => j < header@.len() && first_column(header.deep_view(), name@, alt@)
                == j as int,
            None => first_column(header.deep_view(), name@, alt@) < 0,
        },
{
    let mut j: usize = 0;
    while j < header.len()
        invariant
            j <= header@.len(),
            forall|k: int|
                0 <= k < j ==> #[trigger] header.deep_view()[k] != name@ && header.deep_view()[k]
                    != alt@,
        decreases header@.len() - j,
    {
        if header[j].eq(name) || header[j].eq(alt) {
            proof {
                lemma_first_column_at(header.deep_view(), name@, alt@, j as int);
            }
            return Some(j);
        }
        j = j + 1;
    }
    proof {
        lemma_first_column_none(header.deep_view(), name@, alt@);
    }
    None
}

/// All entries of an export file: a header line naming the columns, then
/// one row per entry.  Fails on a line that is not one record, on a
/// header lacking a required column or a row too short for a found
/// column position, and on a row whose timestamps do not resolve.
pub fn parse_toggl_lines(lines: &Vec<String>) -> (r: Result<Vec<TimeSheetEntry>, DecodeError>)
    ensures
        match r {
            Ok(es) => es@.len() == (if lines@.len() == 0 {
                0int
            } else {
                lines@.len() - 1
            }) && forall|i: int|
                0 <= i < es@.len() ==> toggl_entry_shape(#[trigger] es.deep_view()[i]),
            Err(er) => {
                &&& (er == DecodeError::BadRow ==> exists|i: int|
                    0 <= i < lines@.len() && #[trigger] csv_fields_of(
                        lines.deep_view()[i],
                    ) is None)
                &&& (er == DecodeError::MissingColumn ==> lines@.len() > 0 && (csv_fields_of(
                    lines.deep_view()[0],
                ) matches Some(header) && (!required_columns_found(header) || exists|i: int|
                    1 <= i < lines@.len() && (#[trigger] csv_fields_of(
                        lines.deep_view()[i],
                    ) matches Some(row) && row.len() <= max_required_column(header)))))
                &&& (er == DecodeError::MalformedTimestamp ==> lines@.len() > 1 && (csv_fields_of(
                    lines.deep_view()[0],
                ) matches Some(h2) && required_columns_found(h2)))
                &&& (er == DecodeError::FieldCount ==> false)
                &&& (er == DecodeError::UnstorableField ==> false)
            },
        },
{
    let mut es: Vec<TimeSheetEntry> = Vec::new();
    if lines.len() == 0 {
        return Ok(es);
    }
    let header = match csv_split(lines[0].as_str()) {
        Some(fields) => fields,
        None => {
            proof {
                assert(csv_fields_of(lines.deep_view()[0]) is None);
            }
            return Err(DecodeError::BadRow);
        },
    };
    proof {
        assert(csv_fields_of(lines.deep_view()[0]) == Some(header.deep_view()));
    }
    let col_desc = match find_column(
        &header,
        &String::from_str("Description"),
        &String::from_str("description"),
    ) {
        Some(j) => j,
        None => {
            return Err(DecodeError::MissingColumn);
        },
    };
    let col_sd = match find_column(
        &header,
        &String::from_str("Start date"),
        &String::from_str("start_date"),
    ) {
        Some(j) => j,
        None => {
            return Err(DecodeError::MissingColumn);
        },
    };
    let col_st = match find_column(
        &header,
        &String::from_str("Start time"),
        &String::from_str("start_time"),
    ) {
        Some(j) => j,
        None => {
            return Err(DecodeError::MissingColumn);
        },
    };
    let col_ed = match find_column(
        &header,
        &String::from_str("End date"),
        &String::from_str("end_date"),
    ) {
        Some(j) => j,
        None => {
            return Err(DecodeError::MissingColumn);
        },
    };
    let col_et = match find_column(
        &header,
        &String::from_str("End time"),
        &String::from_str("end_time"),
    ) {
        Some(j) => j,
        None => {
            return Err(DecodeError::MissingColumn);
        },
    };
    let col_tags = match find_column(
        &header,
        &String::from_str("Tags"),
        &String::from_str("tags"),
    ) {
        Some(j) => j,
        None => {
            return Err(DecodeError::MissingColumn);
        },
    };
    let mut i: usize = 1;
    while i < lines.len()
        invariant
            1 <= i <= lines@.len(),
            es@.len() == i - 1,
            forall|k: int| 0 <= k < es@.len() ==> toggl_entry_shape(#[trigger] es.deep_view()[k]),
            csv_fields_of(lines.deep_view()[0]) == Some(header.deep_view()),
            required_columns_found(header.deep_view()),
            col_desc as int == first_column(header.deep_view(), "Description"@, "description"@),
            col_sd as int == first_column(header.deep_view(), "Start date"@, "start_date"@),
            col_st as int == first_column(header.deep_view(), "Start time"@, "start_time"@),
            col_ed as int == first_column(header.deep_view(), "End date"@, "end_date"@),
            col_et as int == first_column(header.deep_view(), "End time"@, "end_time"@),
            col_tags as int == first_column(header.deep_view(), "Tags"@, "tags"@),
        decreases lines@.len() - i,
    {
        let fields = match csv_split(lines[i].as_str()) {
            Some(fields) => fields,
            None => {
                proof {
                    assert(csv_fields_of(lines.deep_view()[i as int]) is None);
                }
                return Err(DecodeError::BadRow);
            },
        };
        let width = fields.len();
        if col_desc >= width || col_sd >= width || col_st >= width || col_ed >= width || col_et
            >= width || col_tags >= width {
            proof {
                let hd = header.deep_view();
                let mx = max_required_column(hd);
                assert(mx >= col_desc as int && mx >= col_sd as int && mx >= col_st as int && mx
                    >= col_ed as int && mx >= col_et as int && mx >= col_tags as int);
                assert(csv_fields_of(lines.deep_view()[i as int]) == Some(fields.deep_view()));
                assert(fields.deep_view().len() <= mx);
            }
            return Err(DecodeError::MissingColumn);
        }
        let row = TogglRow {
            description: fields[col_desc].clone(),
            start_date: fields[col_sd].clone(),
            start_time: fields[col_st].clone(),
            end_date: fields[col_ed].clone(),
            end_time: fields[col_et].clone(),
            tags: fields[col_tags].clone(),
        };
        let ghost pre = es.deep_view();
        match decode_toggl(&row) {
            Ok(e) => {
                es.push(e);
                proof {
                    assert(es.deep_view() =~= pre.push(e@));
                    assert forall|k: int| 0 <= k < es@.len() implies toggl_entry_shape(
                        #[trigger] es.deep_view()[k],
                    ) by {
                        if k < pre.len() {
                            assert(es.deep_view()[k] == pre[k]);
                        }
                    }
                }
            },
            Err(er) => {
                return Err(er);
            },
        }
        i = i + 1;
    }
    Ok(es)
}

} // verus!
