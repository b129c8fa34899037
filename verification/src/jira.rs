//! The decision core of the remote work-log synchronisation protocol.
//!
//! An entry is linked to a remote ticket by its `jira` property and marked
//! as already synchronised by its `jira_worklog_id` property.  This module
//! decides, from those properties alone, whether a remote work-log may be
//! created for an entry, and builds the exact request the remote API takes;
//! the surrounding application performs the network call and hands the
//! decoded response back, and the store's identity-update persists the
//! returned id.  An entry that already carries the marker is never offered
//! for creation, which keeps remote creation at most once per entry.

use crate::agg::valid_times;
use crate::codec::find_prop_key;
use crate::codec::lemma_upsert_absent;
use crate::codec::lemma_upsert_found;
use crate::codec::upsert;
use crate::entry::EntryModel;
use crate::entry::TimeSheetEntry;
use crate::entry::clone_props;
use crate::entry::has_prop;
use crate::entry::prop_lookup;
use crate::entry::sync_marker_key;
use crate::entry::ticket_key;
use crate::numfmt::int_str;
use crate::trusted::base64_of;
use crate::trusted::base64_encode;
use crate::trusted::format_for_jira;
use crate::trusted::jira_format_of;
use crate::trusted::str_to_chars;
use vstd::pervasive::VecAdditionalExecFns;
use vstd::prelude::*;
use vstd::string::StrSliceExecFns;
use vstd::string::StringExecFns;
use vstd::utf8::encode_utf8;

verus! {

/// Why an entry was not, or could not be, synchronised.
#[derive(Clone, Copy, PartialEq, Eq, Debug)]
pub enum SyncError {
    /// The entry carries no ticket id; it is outside the protocol.
    NoTicket,
    /// The entry already carries a synchronisation marker.
    AlreadySynced,
    /// The entry is still open; only closed intervals are synchronised.
    EntryOpen,
    /// The remote answered with something that does not decode.
    RemoteFormat,
    /// The remote request itself failed.
    RemoteRequestFailed,
}

/// A work-log as the remote system describes it; the local system keeps
/// only `id`, as the entry's synchronisation marker.
pub struct WorklogRecord {
    pub id: String,
    pub issue_id: String,
    pub comment: String,
    pub created: String,
    pub updated: String,
    pub started: String,
    pub time_spent: String,
    pub time_spent_seconds: u32,
}

/// Everything the application needs to issue one create-work-log call.
pub struct WorklogRequest {
    pub url: String,
    pub auth_header: String,
    pub body: String,
    pub started: String,
    pub time_spent_seconds: i64,
}

/// First value bound to `key` in the entry's properties, if any.
pub fn prop_get(props: &Vec<(String, String)>, key: &String) -> (r: Option<String>)
    ensures
        match r {
            Some(v) => prop_lookup(props.deep_view(), key@) == Some(v@),
            None => prop_lookup(props.deep_view(), key@) is None,
        },
{
    let key_chars = str_to_chars(key.as_str());
    match find_prop_key(props, &key_chars) {
        Some(j) => {
            proof {
                lemma_prop_lookup_at(props.deep_view(), key@, j as int);
            }
            Some(props[j].1.clone())
        },
        None => {
            proof {
                lemma_prop_lookup_none(props.deep_view(), key@);
            }
            None
        },
    }
}

proof fn lemma_prop_lookup_at(props: Seq<(Seq<char>, Seq<char>)>, key: Seq<char>, j: int)
    requires
        0 <= j < props.len(),
        props[j].0 == key,
        forall|k: int| 0 <= k < j ==> (#[trigger] props[k]).0 != key,
    ensures
        prop_lookup(props, key) == Some(props[j].1),
    decreases j,
{
    if j > 0 {
        assert forall|k: int| 0 <= k < j - 1 implies (#[trigger] props.skip(1)[k]).0 != key by {
            assert(props.skip(1)[k] == props[k + 1]);
        }
        assert(props.skip(1)[j - 1] == props[j]);
        lemma_prop_lookup_at(props.skip(1), key, j - 1);
    }
}

proof fn lemma_prop_lookup_none(props: Seq<(Seq<char>, Seq<char>)>, key: Seq<char>)
    requires
        forall|k: int| 0 <= k < props.len() ==> (#[trigger] props[k]).0 != key,
    ensures
        prop_lookup(props, key) is None,
    decreases props.len(),
{
    if props.len() > 0 {
        assert forall|k: int| 0 <= k < props.skip(1).len() implies (#[trigger] props.skip(
            1,
        )[k]).0 != key by {
            assert(props.skip(1)[k] == props[k + 1]);
        }
        lemma_prop_lookup_none(props.skip(1), key);
    }
}

/// Whole seconds the entry covers; a malformed interval whose end lies
/// before its start counts as zero.
pub open spec fn seconds_spec(e: EntryModel) -> int {
    match e.end_time {
        Some(end) => if end >= e.start_time {
            (end - e.start_time) / 1000
        } else {
            0
        },
        None => 0,
    }
}

/// The create-work-log endpoint for a ticket.
pub open spec fn url_spec(base: Seq<char>, ticket: Seq<char>) -> Seq<char> {
    base + "rest/api/2/issue/"@ + ticket + "/worklog"@
}

/// The request body: started timestamp, whole seconds, and the entry's
/// description as the comment.
pub open spec fn body_spec(started: Seq<char>, secs: int, description: Seq<char>) -> Seq<char> {
    "{\n        \"started\": \""@ + started + "\",\n        \"timeSpentSeconds\": "@ + int_str(
        secs,
    ) + ",\n        \"comment\": \""@ + description + "\"\n    }"@
}

/// The basic-auth header for these credentials.
pub open spec fn auth_spec(user: Seq<char>, pass: Seq<char>) -> Seq<char> {
    "Basic "@ + base64_of(encode_utf8(user + ":"@ + pass))
}

/// The `Basic` authorisation header for these credentials.
pub fn basic_auth_header(username: &str, password: &str) -> (r: String)
    ensures
        r@ == auth_spec(username@, password@),
{
    let mut joined = String::from_str(username);
    joined.append(":");
    joined.append(password);
    let bytes = joined.as_str().as_bytes_vec();
    let encoded = base64_encode(&bytes);
    let mut r = String::from_str("Basic ");
    r.append(encoded.as_str());
    r
}

/// Decides whether a work-log may be created for the entry and, if so,
/// builds the exact request: an entry already carrying the
/// synchronisation marker is refused outright, one without a ticket id is
/// outside the protocol, and an open entry cannot be billed yet.
pub fn prepare_worklog(
    entry: &TimeSheetEntry,
    base_url: &str,
    username: &str,
    password: &str,
) -> (r: Result<WorklogRequest, SyncError>)
    requires
        valid_times(entry@),
    ensures
        match r {
            Err(SyncError::AlreadySynced) => has_prop(entry@.properties, sync_marker_key()),
            Err(SyncError::NoTicket) => !has_prop(entry@.properties, sync_marker_key())
                && !has_prop(entry@.properties, ticket_key()),
            Err(SyncError::EntryOpen) => !has_prop(entry@.properties, sync_marker_key())
                && has_prop(entry@.properties, ticket_key()) && entry@.end_time is None,
            Err(SyncError::RemoteFormat) => false,
            Err(SyncError::RemoteRequestFailed) => false,
            Ok(req) => !has_prop(entry@.properties, sync_marker_key()) && has_prop(
                entry@.properties,
                ticket_key(),
            ) && entry@.end_time is Some && req.started@ == jira_format_of(entry@.start_time)
                && req.started@.len() >= 5 && req.started@.subrange(
                req.started@.len() - 5,
                req.started@.len() as int,
            ) == "+0000"@ && req.time_spent_seconds == seconds_spec(entry@) && req.url@ == url_spec(
                base_url@,
                prop_lookup(entry@.properties, ticket_key())->Some_0,
            ) && req.auth_header@ == auth_spec(username@, password@) && req.body@ == body_spec(
                jira_format_of(entry@.start_time),
                seconds_spec(entry@),
                entry@.description,
            ),
        },
{
    let marker = String::from_str("jira_worklog_id");
    if prop_get(&entry.properties, &marker).is_some() {
        return Err(SyncError::AlreadySynced);
    }
    let ticket_name = String::from_str("jira");
    let ticket = match prop_get(&entry.properties, &ticket_name) {
        Some(t) => t,
        None => {
            return Err(SyncError::NoTicket);
        },
    };
    let end = match entry.end_time {
        Some(end) => end,
        None => {
            return Err(SyncError::EntryOpen);
        },
    };
    let started = format_for_jira(entry.start_time);
    let secs: i64 = if end >= entry.start_time {
        (end - entry.start_time) / 1000
    } else {
        0
    };
    let mut url = String::from_str(base_url);
    url.append("rest/api/2/issue/");
    url.append(ticket.as_str());
    url.append("/worklog");
    let secs_chars = crate::numfmt::format_i64(secs);
    let secs_text = crate::trusted::chars_to_string(&secs_chars);
    let mut body = String::from_str("{\n        \"started\": \"");
    body.append(started.as_str());
    body.append("\",\n        \"timeSpentSeconds\": ");
    body.append(secs_text.as_str());
    body.append(",\n        \"comment\": \"");
    body.append(entry.description.as_str());
    body.append("\"\n    }");
    let auth_header = basic_auth_header(username, password);
    Ok(
        WorklogRequest {
            url,
            auth_header,
            body,
            started,
            time_spent_seconds: secs,
        },
    )
}

/// The entry with its synchronisation marker set to the given remote id;
/// everything else is unchanged.
pub fn mark_synced(entry: &TimeSheetEntry, worklog_id: &String) -> (r: TimeSheetEntry)
    ensures
        r@.description == entry@.description,
        r@.start_time == entry@.start_time,
        r@.end_time == entry@.end_time,
        r@.tags == entry@.tags,
        r@.properties == upsert(entry@.properties, sync_marker_key(), worklog_id@),
{
    let marker = String::from_str("jira_worklog_id");
    let marker_chars = str_to_chars(marker.as_str());
    let mut props = clone_props(&entry.properties);
    match find_prop_key(&props, &marker_chars) {
        Some(j) => {
            props.set(j, (marker, worklog_id.clone()));
            proof {
                lemma_upsert_found(entry@.properties, sync_marker_key(), worklog_id@, j as int);
                assert(props.deep_view() =~~= entry@.properties.update(
                    j as int,
                    (sync_marker_key(), worklog_id@),
                ));
            }
        },
        None => {
            props.push((marker, worklog_id.clone()));
            proof {
                lemma_upsert_absent(entry@.properties, sync_marker_key(), worklog_id@);
                assert(props.deep_view() =~~= entry@.properties.push(
                    (sync_marker_key(), worklog_id@),
                ));
            }
        },
    }
    TimeSheetEntry {
        description: entry.description.clone(),
        start_time: entry.start_time,
        end_time: entry.end_time,
        tags: entry.tags.clone(),
        properties: props,
    }
}

/// What one remote answer means for the entry: an undecodable answer is
/// `RemoteFormat` and touches nothing; a decoded one yields the entry to
/// write back, carrying the returned id as its marker.
pub fn apply_remote_worklog(entry: &TimeSheetEntry, response: Option<WorklogRecord>) -> (r: Result<
    (TimeSheetEntry, WorklogRecord),
    SyncError,
>)
    ensures
        r is Ok <==> response is Some,
        match r {
            Ok((updated, record)) => updated@.description == entry@.description
                && updated@.start_time == entry@.start_time && updated@.end_time
                == entry@.end_time && updated@.tags == entry@.tags && updated@.properties
                == upsert(entry@.properties, sync_marker_key(), record.id@),
            Err(er) => er == SyncError::RemoteFormat,
        },
{
    match response {
        None => Err(SyncError::RemoteFormat),
        Some(record) => {
            let updated = mark_synced(entry, &record.id);
            Ok((updated, record))
        },
    }
}

/// The distinct ticket ids the entries carry, in first-appearance order.
pub open spec fn distinct_tickets(es: Seq<EntryModel>) -> Seq<Seq<char>>
    decreases es.len(),
{
    if es.len() == 0 {
        Seq::empty()
    } else {
        let front = distinct_tickets(es.drop_last());
        match prop_lookup(es.last().properties, ticket_key()) {
            None => front,
            Some(t) => if front.contains(t) {
                front
            } else {
                front.push(t)
            },
        }
    }
}

/// The entries carrying exactly this ticket id, in store order.
pub open spec fn with_ticket(es: Seq<EntryModel>, t: Seq<char>) -> Seq<EntryModel> {
    es.filter(|e: EntryModel| prop_lookup(e.properties, ticket_key()) == Some(t))
}

/// The ticket ids the entries carry, one group per distinct id in
/// first-appearance order, each group holding its entries in store
/// order.  Entries without a ticket id belong to no group.
pub fn get_jira_entries(entries: &Vec<TimeSheetEntry>) -> (r: Vec<(String, Vec<TimeSheetEntry>)>)
    ensures
        r.deep_view().map_values(|g: (Seq<char>, Seq<EntryModel>)| g.0) == distinct_tickets(
            entries.deep_view(),
        ),
        forall|j: int|
            0 <= j < r@.len() ==> (#[trigger] r.deep_view()[j]).1 == with_ticket(
                entries.deep_view(),
                r.deep_view()[j].0,
            ),
{
    let tickets = distinct_tickets_exec(entries);
    let mut r: Vec<(String, Vec<TimeSheetEntry>)> = Vec::new();
    let mut i: usize = 0;
    while i < tickets.len()
        invariant
            i <= tickets@.len(),
            tickets.deep_view() == distinct_tickets(entries.deep_view()),
            r@.len() == i,
            r.deep_view().map_values(|g: (Seq<char>, Seq<EntryModel>)| g.0) =~= tickets.deep_view(
            ).take(i as int),
            forall|j: int|
                0 <= j < i ==> (#[trigger] r.deep_view()[j]).1 == with_ticket(
                    entries.deep_view(),
                    r.deep_view()[j].0,
                ),
        decreases tickets@.len() - i,
    {
        let ghost pre = r.deep_view();
        let group = entries_with_ticket(entries, &tickets[i]);
        let t = tickets[i].clone();
        r.push((t, group));
        proof {
            assert(r.deep_view() =~~= pre.push((tickets.deep_view()[i as int], group.deep_view())));
            assert(r.deep_view().map_values(|g: (Seq<char>, Seq<EntryModel>)| g.0)
                =~= tickets.deep_view().take(i as int + 1));
            assert forall|j: int| 0 <= j < i + 1 implies (#[trigger] r.deep_view()[j]).1
                == with_ticket(entries.deep_view(), r.deep_view()[j].0) by {
                if j < i {
                    assert(r.deep_view()[j] == pre[j]);
                }
            }
        }
        i = i + 1;
    }
    proof {
        assert(tickets.deep_view().take(tickets@.len() as int) =~= tickets.deep_view());
    }
    r
}

/// The distinct ticket ids, in first-appearance order.
fn distinct_tickets_exec(entries: &Vec<TimeSheetEntry>) -> (r: Vec<String>)
    ensures
        r.deep_view() == distinct_tickets(entries.deep_view()),
{
    let ticket_name = String::from_str("jira");
    let mut r: Vec<String> = Vec::new();
    proof {
        assert(entries.deep_view().take(0) =~= Seq::<EntryModel>::empty());
        assert(r.deep_view() =~= distinct_tickets(entries.deep_view().take(0)));
    }
    let mut i: usize = 0;
    while i < entries.len()
        invariant
            i <= entries@.len(),
            ticket_name@ == ticket_key(),
            r.deep_view() == distinct_tickets(entries.deep_view().take(i as int)),
        decreases entries@.len() - i,
    {
        let ghost pre = r.deep_view();
        proof {
            assert(entries.deep_view().take(i + 1).drop_last() =~= entries.deep_view().take(
                i as int,
            ));
            assert(entries.deep_view().take(i + 1).last() == entries.deep_view()[i as int]);
            assert(entries[i as int]@ == entries.deep_view()[i as int]);
        }
        match prop_get(&entries[i].properties, &ticket_name) {
            None => {},
            Some(t) => {
                if !crate::strutil::contains_string(&r, &t) {
                    r.push(t);
                    proof {
                        assert(r.deep_view() =~= pre.push(
                            prop_lookup(
                                entries.deep_view()[i as int].properties,
                                ticket_key(),
                            )->Some_0,
                        ));
                    }
                }
            },
        }
        i = i + 1;
    }
    proof {
        assert(entries.deep_view().take(entries@.len() as int) =~= entries.deep_view());
    }
    r
}

/// The entries carrying exactly this ticket id, in store order.
fn entries_with_ticket(entries: &Vec<TimeSheetEntry>, ticket: &String) -> (r: Vec<TimeSheetEntry>)
    ensures
        r.deep_view() == with_ticket(entries.deep_view(), ticket@),
{
    let ghost pred = |e: EntryModel| prop_lookup(e.properties, ticket_key()) == Some(ticket@);
    let ticket_name = String::from_str("jira");
    let mut r: Vec<TimeSheetEntry> = Vec::new();
    proof {
        reveal(Seq::filter);
        assert(entries.deep_view().take(0) =~= Seq::<EntryModel>::empty());
        assert(r.deep_view() =~= entries.deep_view().take(0).filter(pred));
    }
    let mut i: usize = 0;
    while i < entries.len()
        invariant
            i <= entries@.len(),
            ticket_name@ == ticket_key(),
            pred == (|e: EntryModel| prop_lookup(e.properties, ticket_key()) == Some(ticket@)),
            r.deep_view() == entries.deep_view().take(i as int).filter(pred),
        decreases entries@.len() - i,
    {
        let ghost pre = r.deep_view();
        proof {
            assert(entries[i as int]@ == entries.deep_view()[i as int]);
        }
        let keep = match prop_get(&entries[i].properties, &ticket_name) {
            Some(t) => t.eq(ticket),
            None => false,
        };
        if keep {
            r.push(entries[i].clone());
        }
        proof {
            reveal(Seq::filter);
            let dv = entries.deep_view();
            assert(dv.take(i as int + 1).drop_last() =~= dv.take(i as int));
            assert(dv.take(i as int + 1).last() == dv[i as int]);
            if keep {
                assert(r.deep_view() =~= pre.push(dv[i as int]));
            }
            assert(r.deep_view() == dv.take(i as int + 1).filter(pred));
        }
        i = i + 1;
    }
    proof {
        assert(entries.deep_view().take(entries@.len() as int) =~= entries.deep_view());
    }
    r
}

} // verus!
