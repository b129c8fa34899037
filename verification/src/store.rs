//! The entry store as pure operations on a file image.
//!
//! The persisted store is a list of text lines: a header line, then one
//! delimited row per entry.  Every operation here takes the current lines
//! and returns the lines to write back, mirroring the load-everything /
//! rewrite-everything discipline of the persisted store; the surrounding
//! application only reads and writes whole files.

use crate::codec::decode_fields;
use crate::codec::decode_native;
use crate::codec::encode_fields;
use crate::codec::encode_native;
use crate::codec::lemma_decode_fields_valid;
use crate::codec::lemma_native_roundtrip;
use crate::entry::DecodeError;
use crate::entry::EntryModel;
use crate::entry::TimeSheetEntry;
use crate::entry::valid_entry;
use crate::trusted::csv_fields_of;
use crate::trusted::csv_join;
use crate::trusted::csv_line_of;
use crate::trusted::csv_split;
use vstd::prelude::*;

verus! {

/// Identity of an entry for update and delete: exact description and
/// start time.
pub open spec fn ident_match(e: EntryModel, description: Seq<char>, start_time: int) -> bool {
    e.description == description && e.start_time == start_time
}

/// `es2` is `es` with exactly its first identity match replaced by
/// `new_e`.
pub open spec fn replaces_first_match(
    es: Seq<EntryModel>,
    description: Seq<char>,
    start_time: int,
    new_e: EntryModel,
    es2: Seq<EntryModel>,
) -> bool {
    exists|i: int|
        0 <= i < es.len() && ident_match(#[trigger] es[i], description, start_time) && (forall|
            k: int,
        |
            0 <= k < i ==> !ident_match(#[trigger] es[k], description, start_time)) && es2
            == es.update(i, new_e)
}

/// Update and delete failures.
#[derive(Clone, Copy, PartialEq, Eq, Debug)]
pub enum UpdateError {
    /// No stored entry has the given identity.
    NotFound,
    /// A stored row could not be decoded.
    Decode(DecodeError),
}

pub open spec fn header_text() -> Seq<char> {
    "description,start_time,end_time,tags,properties"@
}

/// The row written for an entry.
pub open spec fn line_of_entry(e: EntryModel) -> Seq<char> {
    csv_line_of(encode_fields(e))
}

/// The entry a row denotes, or why it denotes none.
pub open spec fn entry_of_line(line: Seq<char>) -> Result<EntryModel, DecodeError> {
    match csv_fields_of(line) {
        Some(fields) => decode_fields(fields),
        None => Err(DecodeError::BadRow),
    }
}

/// The entries a list of record lines denotes; the first undecodable row
/// fails the whole read.
pub open spec fn decode_records(records: Seq<Seq<char>>) -> Result<Seq<EntryModel>, DecodeError>
    decreases records.len(),
{
    if records.len() == 0 {
        Ok(Seq::empty())
    } else {
        match decode_records(records.drop_last()) {
            Err(e) => Err(e),
            Ok(es) => match entry_of_line(records.last()) {
                Err(e) => Err(e),
                Ok(e) => Ok(es.push(e)),
            },
        }
    }
}

/// The entries a whole file image holds: nothing for an absent (empty)
/// file, else every row after the header line.
pub open spec fn store_entries(lines: Seq<Seq<char>>) -> Result<Seq<EntryModel>, DecodeError> {
    if lines.len() == 0 {
        Ok(Seq::empty())
    } else {
        decode_records(lines.skip(1))
    }
}

pub proof fn lemma_decode_records_ok(records: Seq<Seq<char>>, es: Seq<EntryModel>)
    requires
        decode_records(records) == Ok::<Seq<EntryModel>, DecodeError>(es),
    ensures
        es.len() == records.len(),
        forall|i: int| 0 <= i < es.len() ==> valid_entry(#[trigger] es[i]),
        forall|i: int|
            0 <= i < es.len() ==> entry_of_line(records[i]) == Ok::<EntryModel, DecodeError>(
                es[i],
            ),
    decreases records.len(),
{
    if records.len() > 0 {
        match decode_records(records.drop_last()) {
            Err(_) => {
                assert(false);
            },
            Ok(front) => {
                lemma_decode_records_ok(records.drop_last(), front);
                let e = match entry_of_line(records.last()) {
                    Ok(e) => e,
                    Err(_) => {
                        assert(false);
                        arbitrary()
                    },
                };
                match csv_fields_of(records.last()) {
                    Some(fields) => {
                        lemma_decode_fields_valid(fields, e);
                    },
                    None => {
                        assert(false);
                    },
                }
                assert(es =~= front.push(e));
                assert forall|i: int| 0 <= i < es.len() implies valid_entry(
                    #[trigger] es[i],
                ) by {
                    if i < front.len() {
                        assert(es[i] == front[i]);
                    }
                }
                assert forall|i: int| 0 <= i < es.len() implies entry_of_line(records[i])
                    == Ok::<EntryModel, DecodeError>(es[i]) by {
                    if i < front.len() {
                        assert(records.drop_last()[i] == records[i]);
                    }
                }
            },
        }
    }
}

/// The row for this entry; a storable entry's row decodes back to it.
pub fn encode_line(e: &TimeSheetEntry) -> (r: String)
    ensures
        r@ == line_of_entry(e@),
        valid_entry(e@) ==> entry_of_line(r@) == Ok::<EntryModel, DecodeError>(e@),
{
    let fields = encode_native(e);
    let line = csv_join(&fields);
    proof {
        if valid_entry(e@) {
            lemma_native_roundtrip(e@);
        }
    }
    line
}

/// The entry this row denotes.
pub fn parse_line(line: &str) -> (r: Result<TimeSheetEntry, DecodeError>)
    ensures
        match r {
            Ok(e) => entry_of_line(line@) == Ok::<EntryModel, DecodeError>(e@),
            Err(er) => entry_of_line(line@) == Err::<EntryModel, DecodeError>(er),
        },
{
    match csv_split(line) {
        None => Err(DecodeError::BadRow),
        Some(fields) => decode_native(&fields),
    }
}

/// All entries a file image holds, in file order.
pub fn load_native(lines: &Vec<String>) -> (r: Result<Vec<TimeSheetEntry>, DecodeError>)
    ensures
        match r {
            Ok(es) => store_entries(lines.deep_view()) == Ok::<Seq<EntryModel>, DecodeError>(
                es.deep_view(),
            ),
            Err(er) => store_entries(lines.deep_view()) == Err::<Seq<EntryModel>, DecodeError>(
                er,
            ),
        },
{
    let mut es: Vec<TimeSheetEntry> = Vec::new();
    if lines.len() == 0 {
        proof {
            assert(es.deep_view() =~= Seq::<EntryModel>::empty());
        }
        return Ok(es);
    }
    let ghost records = lines.deep_view().skip(1);
    proof {
        assert(records.take(0) =~= Seq::<Seq<char>>::empty());
        assert(es.deep_view() =~= Seq::<EntryModel>::empty());
    }
    let mut i: usize = 1;
    while i < lines.len()
        invariant
            1 <= i <= lines@.len(),
            records == lines.deep_view().skip(1),
            decode_records(records.take(i - 1)) == Ok::<Seq<EntryModel>, DecodeError>(
                es.deep_view(),
            ),
        decreases lines@.len() - i,
    {
        let ghost pre = es.deep_view();
        match parse_line(lines[i].as_str()) {
            Ok(e) => {
                es.push(e);
                proof {
                    assert(records[i - 1] == lines.deep_view()[i as int]);
                    assert(records.take(i as int).drop_last() =~= records.take(i - 1));
                    assert(records.take(i as int).last() == records[i - 1]);
                    assert(es.deep_view() =~= pre.push(e@));
                }
            },
            Err(er) => {
                proof {
                    assert(records[i - 1] == lines.deep_view()[i as int]);
                    assert(records.take(i as int).drop_last() =~= records.take(i - 1));
                    assert(records.take(i as int).last() == records[i - 1]);
                    assert(decode_records(records.take(i as int)) == Err::<
                        Seq<EntryModel>,
                        DecodeError,
                    >(er));
                    lemma_decode_prefix_err(records, i as int);
                }
                return Err(er);
            },
        }
        i = i + 1;
    }
    proof {
        assert(records.take(records.len() as int) =~= records);
    }
    Ok(es)
}

/// An undecodable row anywhere fails the whole read.
proof fn lemma_decode_prefix_err(records: Seq<Seq<char>>, n: int)
    requires
        0 <= n <= records.len(),
        decode_records(records.take(n)) is Err,
    ensures
        decode_records(records) == decode_records(records.take(n)),
    decreases records.len() - n,
{
    if n < records.len() {
        assert(records.take(n + 1).drop_last() =~= records.take(n));
        lemma_decode_prefix_err(records, n + 1);
    } else {
        assert(records.take(n) =~= records);
    }
}

/// The file image holding exactly these entries: the header line, then
/// one row per entry.
pub fn write_store(entries: &Vec<TimeSheetEntry>) -> (r: Vec<String>)
    requires
        forall|i: int| 0 <= i < entries@.len() ==> valid_entry(#[trigger] entries.deep_view()[i]),
    ensures
        r.deep_view() == seq![header_text()] + entries.deep_view().map_values(
            |e: EntryModel| line_of_entry(e),
        ),
        store_entries(r.deep_view()) == Ok::<Seq<EntryModel>, DecodeError>(entries.deep_view()),
        r@.len() == entries@.len() + 1,
{
    let mut out: Vec<String> = Vec::new();
    out.push(String::from_str("description,start_time,end_time,tags,properties"));
    proof {
        assert(out.deep_view() =~~= seq![header_text()]);
        assert(out.deep_view() =~~= seq![header_text()] + entries.deep_view().take(
            0,
        ).map_values(|e: EntryModel| line_of_entry(e)));
        assert(out.deep_view().skip(1) =~= Seq::<Seq<char>>::empty());
        assert(entries.deep_view().take(0) =~= Seq::<EntryModel>::empty());
    }
    let mut i: usize = 0;
    while i < entries.len()
        invariant
            i <= entries@.len(),
            out@.len() == i + 1,
            out.deep_view() =~= seq![header_text()] + entries.deep_view().take(
                i as int,
            ).map_values(|e: EntryModel| line_of_entry(e)),
            forall|k: int|
                0 <= k < entries@.len() ==> valid_entry(#[trigger] entries.deep_view()[k]),
            decode_records(out.deep_view().skip(1)) == Ok::<Seq<EntryModel>, DecodeError>(
                entries.deep_view().take(i as int),
            ),
        decreases entries@.len() - i,
    {
        let ghost pre = out.deep_view();
        let line = encode_line(&entries[i]);
        proof {
            assert(entries[i as int].deep_view() == entries.deep_view()[i as int]);
            assert(valid_entry(entries.deep_view()[i as int]));
        }
        out.push(line);
        proof {
            let dv = entries.deep_view();
            assert(out.deep_view() =~= pre.push(line_of_entry(dv[i as int])));
            assert(out.deep_view() =~~= seq![header_text()] + dv.take(i as int + 1).map_values(
                |e: EntryModel| line_of_entry(e),
            ));
            let recs = out.deep_view().skip(1);
            assert(recs.drop_last() =~= pre.skip(1));
            assert(recs.last() == line@);
            assert(dv.take(i as int + 1) =~= dv.take(i as int).push(dv[i as int]));
        }
        i = i + 1;
    }
    proof {
        assert(entries.deep_view().take(entries@.len() as int) =~= entries.deep_view());
    }
    out
}


/// A store holding `n` entries is written as `n + 1` lines: the header
/// and one row per entry, never more.
pub proof fn lemma_append_growth(models: Seq<EntryModel>)
    ensures
        (seq![header_text()] + models.map_values(|e: EntryModel| line_of_entry(e))).len()
            == models.len() + 1,
{
}

/// All entries the store holds, native rows first, then the read-only
/// external rows, freshly combined on every call.
pub fn get_entries(native_lines: &Vec<String>, external: &Vec<TimeSheetEntry>) -> (r: Result<
    Vec<TimeSheetEntry>,
    DecodeError,
>)
    ensures
        match r {
            Ok(es) => store_entries(native_lines.deep_view()) matches Ok(native)
                && es.deep_view() == native + external.deep_view(),
            Err(er) => store_entries(native_lines.deep_view()) == Err::<
                Seq<EntryModel>,
                DecodeError,
            >(er),
        },
{
    let mut es = match load_native(native_lines) {
        Ok(es) => es,
        Err(er) => {
            return Err(er);
        },
    };
    let ghost native = es.deep_view();
    let mut i: usize = 0;
    while i < external.len()
        invariant
            i <= external@.len(),
            es.deep_view() =~= native + external.deep_view().take(i as int),
        decreases external@.len() - i,
    {
        let ghost pre = es.deep_view();
        es.push(external[i].clone());
        proof {
            assert(es.deep_view() =~= pre.push(external.deep_view()[i as int]));
        }
        i = i + 1;
    }
    proof {
        assert(external.deep_view().take(external@.len() as int) =~= external.deep_view());
    }
    Ok(es)
}

/// Appends one entry: every stored entry is kept, the new one comes last,
/// and the file grows by exactly one line (two on a previously empty
/// store, which gains its header).
pub fn add_entry(lines: &Vec<String>, entry: &TimeSheetEntry) -> (r: Result<
    Vec<String>,
    DecodeError,
>)
    requires
        valid_entry(entry@),
    ensures
        match r {
            Ok(out) => store_entries(lines.deep_view()) matches Ok(es) && store_entries(
                out.deep_view(),
            ) == Ok::<Seq<EntryModel>, DecodeError>(es.push(entry@)) && out.deep_view() == seq![
                header_text(),
            ] + es.push(entry@).map_values(|e: EntryModel| line_of_entry(e)) && out@.len() == (
            if lines@.len() == 0 {
                2int
            } else {
                lines@.len() + 1int
            }),
            Err(er) => store_entries(lines.deep_view()) == Err::<Seq<EntryModel>, DecodeError>(
                er,
            ),
        },
{
    let mut es = match load_native(lines) {
        Ok(es) => es,
        Err(er) => {
            return Err(er);
        },
    };
    let ghost loaded = es.deep_view();
    proof {
        if lines@.len() > 0 {
            lemma_decode_records_ok(lines.deep_view().skip(1), loaded);
        }
    }
    es.push(entry.clone());
    proof {
        assert(es.deep_view() =~= loaded.push(entry@));
        assert forall|i: int| 0 <= i < es@.len() implies valid_entry(
            #[trigger] es.deep_view()[i],
        ) by {
            if i < loaded.len() {
                assert(es.deep_view()[i] == loaded[i]);
            }
        }
    }
    let out = write_store(&es);
    Ok(out)
}

/// Replaces the first entry whose description and start time exactly
/// match the given identity; every other entry and the line count are
/// unchanged.  Fails with `NotFound` exactly when no entry matches.
#[verifier::rlimit(60)]
pub fn update_entry(
    lines: &Vec<String>,
    old_description: &String,
    old_start_time: i64,
    entry: &TimeSheetEntry,
) -> (r: Result<Vec<String>, UpdateError>)
    requires
        valid_entry(entry@),
    ensures
        match r {
            Ok(out) => store_entries(lines.deep_view()) matches Ok(es)
                && store_entries(out.deep_view()) matches Ok(es2) && replaces_first_match(
                es,
                old_description@,
                old_start_time as int,
                entry@,
                es2,
            ) && out.deep_view() == seq![header_text()] + es2.map_values(
                |e: EntryModel| line_of_entry(e),
            ) && out@.len() == es.len() + 1,
            Err(UpdateError::NotFound) => store_entries(lines.deep_view()) matches Ok(es)
                && forall|k: int|
                0 <= k < es.len() ==> !ident_match(#[trigger] es[k], old_description@,
                    old_start_time as int,
                ),
            Err(UpdateError::Decode(er)) => store_entries(lines.deep_view()) == Err::<
                Seq<EntryModel>,
                DecodeError,
            >(er),
        },
{
    let mut es = match load_native(lines) {
        Ok(es) => es,
        Err(er) => {
            return Err(UpdateError::Decode(er));
        },
    };
    let ghost loaded = es.deep_view();
    proof {
        if lines@.len() > 0 {
            lemma_decode_records_ok(lines.deep_view().skip(1), loaded);
        }
    }
    let mut i: usize = 0;
    let mut found: Option<usize> = None;
    while i < es.len()
        invariant
            i <= es@.len(),
            es.deep_view() == loaded,
            match found {
                Some(j) => j < i && ident_match(loaded[j as int], old_description@,
                    old_start_time as int,
                ) && forall|k: int|
                    0 <= k < j ==> !ident_match(#[trigger] loaded[k], old_description@,
                        old_start_time as int,
                    ),
                None => forall|k: int|
                    0 <= k < i ==> !ident_match(#[trigger] loaded[k], old_description@,
                        old_start_time as int,
                    ),
            },
        decreases es@.len() - i,
    {
        if found.is_none() {
            let same_desc = es[i].description.eq(old_description);
            if same_desc && es[i].start_time == old_start_time {
                found = Some(i);
            }
        }
        i = i + 1;
    }
    let j = match found {
        Some(j) => j,
        None => {
            return Err(UpdateError::NotFound);
        },
    };
    es.set(j, entry.clone());
    proof {
        assert(es.deep_view() =~= loaded.update(j as int, entry@));
        assert forall|k: int| 0 <= k < es@.len() implies valid_entry(
            #[trigger] es.deep_view()[k],
        ) by {
            if k != j {
                assert(es.deep_view()[k] == loaded[k]);
            }
        }
    }
    let out = write_store(&es);
    proof {
        let w = j as int;
        assert(0 <= w < loaded.len() && ident_match(loaded[w], old_description@,
            old_start_time as int,
        ) && (forall|k: int|
            0 <= k < w ==> !ident_match(#[trigger] loaded[k], old_description@,
                old_start_time as int,
            )) && es.deep_view() == loaded.update(w, entry@));
        assert(replaces_first_match(loaded, old_description@, old_start_time as int, entry@,
            es.deep_view(),
        ));
        assert(out@.len() == loaded.len() + 1);
    }
    Ok(out)
}

/// Every entry a filter keeps came from the filtered list.
proof fn lemma_kept_entry_was_loaded(es: Seq<EntryModel>, pred: spec_fn(EntryModel) -> bool, k: int)
    requires
        0 <= k < es.filter(pred).len(),
    ensures
        exists|w: int| 0 <= w < es.len() && #[trigger] es[w] == es.filter(pred)[k],
    decreases es.len(),
{
    reveal(Seq::filter);
    if es.len() > 0 {
        let sub = es.drop_last().filter(pred);
        if pred(es.last()) && k == sub.len() {
            assert(es[es.len() - 1] == es.filter(pred)[k]);
        } else {
            lemma_kept_entry_was_loaded(es.drop_last(), pred, k);
            let w = choose|w: int|
                0 <= w < es.drop_last().len() && #[trigger] es.drop_last()[w] == es.drop_last(
                ).filter(pred)[k];
            assert(es[w] == es.filter(pred)[k]);
        }
    }
}

/// Removes every entry with the given identity; removing an identity that
/// is not stored leaves the entries unchanged.  A store left with no
/// entries becomes an empty file.
pub fn delete_entry(lines: &Vec<String>, description: &String, start_time: i64) -> (r: Result<
    Vec<String>,
    DecodeError,
>)
    ensures
        match r {
            Ok(out) => store_entries(lines.deep_view()) matches Ok(es) && {
                let kept = es.filter(
                    |e: EntryModel| !ident_match(e, description@, start_time as int),
                );
                store_entries(out.deep_view()) == Ok::<Seq<EntryModel>, DecodeError>(kept)
                    && out.deep_view() == (if kept.len() == 0 {
                    Seq::<Seq<char>>::empty()
                } else {
                    seq![header_text()] + kept.map_values(|e: EntryModel| line_of_entry(e))
                }) && out@.len() == (if kept.len() == 0 {
                    0int
                } else {
                    kept.len() + 1int
                })
            },
            Err(er) => store_entries(lines.deep_view()) == Err::<Seq<EntryModel>, DecodeError>(
                er,
            ),
        },
{
    let es = match load_native(lines) {
        Ok(es) => es,
        Err(er) => {
            return Err(er);
        },
    };
    let ghost loaded = es.deep_view();
    proof {
        if lines@.len() > 0 {
            lemma_decode_records_ok(lines.deep_view().skip(1), loaded);
        }
    }
    let ghost pred = |e: EntryModel| !ident_match(e, description@, start_time as int);
    let mut kept: Vec<TimeSheetEntry> = Vec::new();
    proof {
        reveal(Seq::filter);
        assert(loaded.take(0) =~= Seq::<EntryModel>::empty());
        assert(kept.deep_view() =~= loaded.take(0).filter(pred));
    }
    let mut i: usize = 0;
    while i < es.len()
        invariant
            i <= es@.len(),
            es.deep_view() == loaded,
            kept.deep_view() == loaded.take(i as int).filter(pred),
            pred == (|e: EntryModel| !ident_match(e, description@, start_time as int)),
        decreases es@.len() - i,
    {
        let ghost pre = kept.deep_view();
        let same_desc = es[i].description.eq(description);
        let matches_ident = same_desc && es[i].start_time == start_time;
        if !matches_ident {
            kept.push(es[i].clone());
        }
        proof {
            reveal(Seq::filter);
            let dv = loaded;
            assert(dv.take(i as int + 1).drop_last() =~= dv.take(i as int));
            assert(dv.take(i as int + 1).last() == dv[i as int]);
            if !matches_ident {
                assert(kept.deep_view() =~= pre.push(dv[i as int]));
            }
            assert(kept.deep_view() == dv.take(i as int + 1).filter(pred));
        }
        i = i + 1;
    }
    proof {
        assert(loaded.take(loaded.len() as int) =~= loaded);
        assert forall|k: int| 0 <= k < kept.deep_view().len() implies valid_entry(
            #[trigger] kept.deep_view()[k],
        ) by {
            lemma_kept_entry_was_loaded(loaded, pred, k);
            let w = choose|w: int|
                0 <= w < loaded.len() && loaded[w] == loaded.filter(pred)[k];
            assert(valid_entry(loaded[w]));
        }
    }
    if kept.len() == 0 {
        let out: Vec<String> = Vec::new();
        proof {
            assert(out.deep_view() =~= Seq::<Seq<char>>::empty());
            assert(kept.deep_view().len() == 0);
            assert(loaded.filter(pred) =~= Seq::<EntryModel>::empty());
            assert(store_entries(out.deep_view()) == Ok::<Seq<EntryModel>, DecodeError>(
                loaded.filter(pred),
            ));
        }
        return Ok(out);
    }
    let out = write_store(&kept);
    Ok(out)
}


/// Where identities are unique, replacing the first match replaces
/// exactly the matching entry: every other entry and the count are
/// unchanged.
pub proof fn lemma_unique_identity_update(
    es: Seq<EntryModel>,
    description: Seq<char>,
    start_time: int,
    new_e: EntryModel,
    es2: Seq<EntryModel>,
    i: int,
)
    requires
        forall|a: int, b: int|
            0 <= a < b < es.len() ==> !(ident_match(#[trigger] es[a], (#[trigger] es[b]).description,
                es[b].start_time,
            )),
        0 <= i < es.len(),
        ident_match(es[i], description, start_time),
        replaces_first_match(es, description, start_time, new_e, es2),
    ensures
        es2 == es.update(i, new_e),
        es2.len() == es.len(),
        forall|k: int| 0 <= k < es.len() && k != i ==> es2[k] == es[k],
{
    let j = choose|j: int|
        0 <= j < es.len() && ident_match(#[trigger] es[j], description, start_time) && (forall|
            k: int,
        |
            0 <= k < j ==> !ident_match(#[trigger] es[k], description, start_time)) && es2
            == es.update(j, new_e);
    if j != i {
        if j < i {
            assert(ident_match(es[j], es[i].description, es[i].start_time));
        } else {
            assert(ident_match(es[i], es[j].description, es[j].start_time));
        }
        assert(false);
    }
}

// ---------------------------------------------------------------------
// Exact-duplicate purge
// ---------------------------------------------------------------------
/// The record lines with every exact repeat of an earlier line removed;
/// first occurrences survive, in order.
pub open spec fn dedup_lines(records: Seq<Seq<char>>) -> Seq<Seq<char>>
    decreases records.len(),
{
    if records.len() == 0 {
        records
    } else {
        let front = dedup_lines(records.drop_last());
        if records.drop_last().contains(records.last()) {
            front
        } else {
            front.push(records.last())
        }
    }
}

/// What a purge leaves: the header line verbatim, then the first
/// occurrence of every distinct record line, in order.
pub open spec fn purge_spec(lines: Seq<Seq<char>>) -> Seq<Seq<char>> {
    if lines.len() == 0 {
        lines
    } else {
        seq![lines[0]] + dedup_lines(lines.skip(1))
    }
}

proof fn lemma_dedup_props(records: Seq<Seq<char>>)
    ensures
        dedup_lines(records).no_duplicates(),
        forall|x: Seq<char>| #[trigger] dedup_lines(records).contains(x) <==> records.contains(x),
    decreases records.len(),
{
    if records.len() > 0 {
        let front = records.drop_last();
        let last = records.last();
        lemma_dedup_props(front);
        let df = dedup_lines(front);
        assert forall|x: Seq<char>| #[trigger]
            records.contains(x) <==> front.contains(x) || x == last by {
            if records.contains(x) {
                let w = choose|w: int| 0 <= w < records.len() && records[w] == x;
                if w < records.len() - 1 {
                    assert(front[w] == x);
                }
            }
            if front.contains(x) {
                let w = choose|w: int| 0 <= w < front.len() && front[w] == x;
                assert(records[w] == x);
            }
            if x == last {
                assert(records[records.len() - 1] == x);
            }
        }
        if front.contains(last) {
            assert(dedup_lines(records) == df);
        } else {
            let dr = df.push(last);
            assert(dedup_lines(records) == dr);
            assert forall|x: Seq<char>| #[trigger] dr.contains(x) implies df.contains(x) || x
                == last by {
                let w = choose|w: int| 0 <= w < dr.len() && dr[w] == x;
                if w < df.len() {
                    assert(df[w] == x);
                }
            }
            assert forall|x: Seq<char>| df.contains(x) || x == last implies #[trigger] dr.contains(
                x,
            ) by {
                if df.contains(x) {
                    let w = choose|w: int| 0 <= w < df.len() && df[w] == x;
                    assert(dr[w] == x);
                } else {
                    assert(dr[dr.len() - 1] == x);
                }
            }
            assert(!df.contains(last));
            assert forall|i: int, j: int| 0 <= i < j < dr.len() implies dr[i] != dr[j] by {
                if j < df.len() {
                    assert(df[i] == dr[i] && df[j] == dr[j]);
                } else {
                    assert(dr[i] == df[i]);
                    if dr[i] == last {
                        assert(df.contains(last));
                    }
                }
            }
        }
    }
}

proof fn lemma_dedup_of_distinct(records: Seq<Seq<char>>)
    requires
        records.no_duplicates(),
    ensures
        dedup_lines(records) == records,
    decreases records.len(),
{
    if records.len() > 0 {
        let front = records.drop_last();
        assert forall|i: int, j: int| 0 <= i < j < front.len() implies front[i] != front[j] by {
            assert(front[i] == records[i] && front[j] == records[j]);
        }
        lemma_dedup_of_distinct(front);
        if front.contains(records.last()) {
            let w = choose|w: int| 0 <= w < front.len() && front[w] == records.last();
            assert(records[w] == records[records.len() - 1]);
            assert(false);
        }
        assert(dedup_lines(records) =~= records);
    }
}

/// Purging a second time changes nothing: one pass already leaves every
/// surviving record line distinct.
pub proof fn lemma_purge_idempotent(lines: Seq<Seq<char>>)
    requires
        lines.len() >= 1,
    ensures
        purge_spec(purge_spec(lines)) == purge_spec(lines),
{
    let records = lines.skip(1);
    lemma_dedup_props(records);
    let once = purge_spec(lines);
    assert(once[0] == lines[0]);
    assert(once.skip(1) =~= dedup_lines(records));
    lemma_dedup_of_distinct(dedup_lines(records));
    assert(purge_spec(once) =~= once);
}

/// Keeps the header line verbatim and the first occurrence of every
/// distinct record line, in original order; the result has one line per
/// distinct record, plus the header.
pub fn purge_duplicates(lines: &Vec<String>) -> (r: Vec<String>)
    requires
        lines@.len() >= 1,
    ensures
        r.deep_view() == purge_spec(lines.deep_view()),
        r@.len() == 1 + lines.deep_view().skip(1).to_set().len(),
{
    let ghost records = lines.deep_view().skip(1);
    let mut recs: Vec<String> = Vec::new();
    proof {
        assert(records.take(0) =~= Seq::<Seq<char>>::empty());
        assert(recs.deep_view() =~= dedup_lines(records.take(0)));
    }
    let mut i: usize = 1;
    while i < lines.len()
        invariant
            1 <= i <= lines@.len(),
            records == lines.deep_view().skip(1),
            recs.deep_view() == dedup_lines(records.take(i - 1)),
        decreases lines@.len() - i,
    {
        let ghost pre = recs.deep_view();
        let ghost prefix = records.take(i - 1);
        proof {
            lemma_dedup_props(prefix);
            assert(records.take(i as int).drop_last() =~= prefix);
            assert(records.take(i as int).last() == records[i - 1]);
            assert(records[i - 1] == lines.deep_view()[i as int]);
        }
        let seen = crate::strutil::contains_string(&recs, &lines[i]);
        if !seen {
            recs.push(lines[i].clone());
            proof {
                assert(recs.deep_view() =~= pre.push(lines.deep_view()[i as int]));
            }
        }
        i = i + 1;
    }
    proof {
        assert(records.take(records.len() as int) =~= records);
    }
    let mut r: Vec<String> = Vec::new();
    r.push(lines[0].clone());
    let ghost header_only = r.deep_view();
    proof {
        assert(header_only =~= seq![lines.deep_view()[0]]);
    }
    let mut k: usize = 0;
    while k < recs.len()
        invariant
            k <= recs@.len(),
            r.deep_view() == header_only + recs.deep_view().take(k as int),
            header_only == seq![lines.deep_view()[0]],
        decreases recs@.len() - k,
    {
        let ghost pre = r.deep_view();
        r.push(recs[k].clone());
        proof {
            assert(r.deep_view() =~= pre.push(recs.deep_view()[k as int]));
            assert(r.deep_view() =~= header_only + recs.deep_view().take(k as int + 1));
        }
        k = k + 1;
    }
    proof {
        assert(recs.deep_view().take(recs@.len() as int) =~= recs.deep_view());
        assert(r.deep_view() =~= purge_spec(lines.deep_view()));
        lemma_dedup_props(records);
        let dd = dedup_lines(records);
        assert(dd.to_set() =~= records.to_set());
        dd.unique_seq_to_set();
        assert(recs@.len() == dd.len());
    }
    r
}


} // verus!
