//! The row codec: between the canonical entry model and the five text
//! fields of a native store row (`description, start_time, end_time, tags,
//! properties`), and from the six columns of the third-party export.
//!
//! Tag lists are comma-joined; property pairs are `key=value`, also
//! comma-joined.  An empty tags field stands for no tags at all (a
//! deliberate resolution of an ambiguity in the format: a lone empty tag
//! cannot be told apart from an absent list, so it is not representable).
//! Decoding an encoded entry gives the entry back
//! (`lemma_native_roundtrip`), and everything a decode produces is itself
//! storable (`lemma_decode_fields_valid`).

use crate::entry::DecodeError;
use crate::entry::EntryModel;
use crate::entry::TimeSheetEntry;
use crate::entry::bom_char;
use crate::entry::comma;
use crate::entry::equals_sign;
use crate::entry::line_clean;
use crate::entry::unique_keys;
use crate::entry::valid_entry;
use crate::entry::valid_ms;
use crate::entry::valid_prop;
use crate::entry::valid_tag;
use crate::numfmt::format_i64;
use crate::numfmt::int_str;
use crate::numfmt::lemma_int_str_roundtrip;
use crate::numfmt::parse_i64_chars;
use crate::numfmt::parse_i64_spec;
use crate::strutil::first_index_of;
use crate::strutil::join_chars;
use crate::strutil::join_with;
use crate::strutil::lemma_first_index_at;
use crate::strutil::lemma_first_index_of;
use crate::strutil::lemma_join_len;
use crate::strutil::lemma_split_join;
use crate::strutil::lemma_split_pieces_clean;
use crate::strutil::no_char;
use crate::strutil::parts_without;
use crate::strutil::scan_for;
use crate::strutil::split_chars;
use crate::strutil::split_on;
use crate::trusted::chars_to_string;
use crate::trusted::str_to_chars;
use vstd::pervasive::VecAdditionalExecFns;
use vstd::prelude::*;

verus! {

// ---------------------------------------------------------------------
// Tags
// ---------------------------------------------------------------------
/// The text of the tags field.
pub open spec fn tags_field_spec(tags: Seq<Seq<char>>) -> Seq<char> {
    join_with(tags, comma())
}

/// The tag list a tags field denotes; an empty field means no tags.
pub open spec fn tags_of_field(f: Seq<char>) -> Seq<Seq<char>> {
    if f.len() == 0 {
        Seq::empty()
    } else {
        split_on(f, comma())
    }
}

// ---------------------------------------------------------------------
// Properties
// ---------------------------------------------------------------------
pub open spec fn prop_piece(p: (Seq<char>, Seq<char>)) -> Seq<char> {
    p.0 + seq![equals_sign()] + p.1
}

/// The text of the properties field.
pub open spec fn props_field_spec(props: Seq<(Seq<char>, Seq<char>)>) -> Seq<char> {
    join_with(props.map_values(|p: (Seq<char>, Seq<char>)| prop_piece(p)), comma())
}

/// Binds `key` to `value`: in place where the key exists, appended
/// otherwise.
pub open spec fn upsert(
    props: Seq<(Seq<char>, Seq<char>)>,
    key: Seq<char>,
    value: Seq<char>,
) -> Seq<(Seq<char>, Seq<char>)>
    decreases props.len(),
{
    if props.len() == 0 {
        seq![(key, value)]
    } else if props[0].0 == key {
        seq![(key, value)] + props.skip(1)
    } else {
        seq![props[0]] + upsert(props.skip(1), key, value)
    }
}

/// One `key=value` piece added to a property list; a piece without `=` is
/// dropped.
pub open spec fn add_piece(props: Seq<(Seq<char>, Seq<char>)>, piece: Seq<char>) -> Seq<
    (Seq<char>, Seq<char>),
> {
    let i = first_index_of(piece, equals_sign());
    if i < 0 {
        props
    } else {
        upsert(props, piece.take(i), piece.skip(i + 1))
    }
}

pub open spec fn props_from_pieces(pieces: Seq<Seq<char>>) -> Seq<(Seq<char>, Seq<char>)>
    decreases pieces.len(),
{
    if pieces.len() == 0 {
        Seq::empty()
    } else {
        add_piece(props_from_pieces(pieces.drop_last()), pieces.last())
    }
}

/// The property list a properties field denotes.  An empty field splits
/// into one empty piece, which carries no `=` and is dropped, so it means
/// no properties.
pub open spec fn props_of_field(f: Seq<char>) -> Seq<(Seq<char>, Seq<char>)> {
    props_from_pieces(split_on(f, comma()))
}

// ---------------------------------------------------------------------
// Whole rows
// ---------------------------------------------------------------------
/// The five fields of a native row for this entry.
pub open spec fn encode_fields(e: EntryModel) -> Seq<Seq<char>> {
    seq![
        e.description,
        int_str(e.start_time),
        match e.end_time {
            Some(ms) => int_str(ms),
            None => Seq::empty(),
        },
        tags_field_spec(e.tags),
        props_field_spec(e.properties),
    ]
}

/// The entry five native fields denote, or why they denote none.
pub open spec fn decode_fields(fields: Seq<Seq<char>>) -> Result<EntryModel, DecodeError> {
    if fields.len() != 5 {
        Err(DecodeError::FieldCount)
    } else if (fields[0].len() > 0 && fields[0][0] == bom_char()) || !(line_clean(fields[0])
        && line_clean(fields[1]) && line_clean(fields[2]) && line_clean(fields[3]) && line_clean(
        fields[4],
    )) {
        Err(DecodeError::UnstorableField)
    } else {
        match parse_i64_spec(fields[1]) {
            None => Err(DecodeError::MalformedTimestamp),
            Some(start) => if !valid_ms(start as int) {
                Err(DecodeError::MalformedTimestamp)
            } else {
                let end = if fields[2].len() == 0 {
                    Ok::<Option<int>, DecodeError>(None)
                } else {
                    match parse_i64_spec(fields[2]) {
                        None => Err(DecodeError::MalformedTimestamp),
                        Some(ms) => if !valid_ms(ms as int) {
                            Err(DecodeError::MalformedTimestamp)
                        } else {
                            Ok(Some(ms as int))
                        },
                    }
                };
                match end {
                    Err(e) => Err(e),
                    Ok(end) => Ok(
                        EntryModel {
                            description: fields[0],
                            start_time: start as int,
                            end_time: end,
                            tags: tags_of_field(fields[3]),
                            properties: props_of_field(fields[4]),
                        },
                    ),
                }
            },
        }
    }
}

// ---------------------------------------------------------------------
// Executable encoding
// ---------------------------------------------------------------------
fn strings_to_char_vecs(v: &Vec<String>) -> (r: Vec<Vec<char>>)
    ensures
        r.deep_view() == v.deep_view(),
{
    let mut r: Vec<Vec<char>> = Vec::new();
    let mut i: usize = 0;
    while i < v.len()
        invariant
            i <= v@.len(),
            r.deep_view() =~= v.deep_view().take(i as int),
        decreases v@.len() - i,
    {
        let ghost pre = r.deep_view();
        r.push(str_to_chars(v[i].as_str()));
        proof {
            assert(r.deep_view() =~~= pre.push(v@[i as int]@));
            assert(r.deep_view() =~~= v.deep_view().take(i as int + 1));
        }
        i = i + 1;
    }
    proof {
        assert(v.deep_view().take(v@.len() as int) =~= v.deep_view());
    }
    r
}

/// The text of the tags field for this tag list.
fn encode_tags(tags: &Vec<String>) -> (r: String)
    ensures
        r@ == tags_field_spec(tags.deep_view()),
{
    let parts = strings_to_char_vecs(tags);
    let joined = join_chars(&parts, ',');
    chars_to_string(&joined)
}

/// The text of the properties field for this property list.
fn encode_props(props: &Vec<(String, String)>) -> (r: String)
    ensures
        r@ == props_field_spec(props.deep_view()),
{
    let mut pieces: Vec<Vec<char>> = Vec::new();
    let mut i: usize = 0;
    while i < props.len()
        invariant
            i <= props@.len(),
            pieces.deep_view() =~= props.deep_view().take(i as int).map_values(
                |p: (Seq<char>, Seq<char>)| prop_piece(p),
            ),
        decreases props@.len() - i,
    {
        let ghost pre = pieces.deep_view();
        let mut piece = str_to_chars(props[i].0.as_str());
        let val = str_to_chars(props[i].1.as_str());
        piece.push('=');
        let mut k: usize = 0;
        while k < val.len()
            invariant
                k <= val@.len(),
                i < props@.len(),
                val@ == props@[i as int].1@,
                piece@ =~= props@[i as int].0@ + seq!['='] + val@.take(k as int),
            decreases val@.len() - k,
        {
            piece.push(val[k]);
            k = k + 1;
        }
        proof {
            assert(piece@ =~= prop_piece(props.deep_view()[i as int]));
        }
        pieces.push(piece);
        proof {
            assert(pieces.deep_view() =~~= pre.push(prop_piece(props.deep_view()[i as int])));
            assert(pieces.deep_view() =~= props.deep_view().take(i as int + 1).map_values(
                |p: (Seq<char>, Seq<char>)| prop_piece(p),
            ));
        }
        i = i + 1;
    }
    proof {
        assert(props.deep_view().take(props@.len() as int) =~= props.deep_view());
    }
    let joined = join_chars(&pieces, ',');
    chars_to_string(&joined)
}

/// The five native row fields for this entry.
pub fn encode_native(e: &TimeSheetEntry) -> (r: Vec<String>)
    ensures
        r.deep_view() == encode_fields(e@),
{
    let mut fields: Vec<String> = Vec::new();
    fields.push(e.description.clone());
    let start_chars = format_i64(e.start_time);
    fields.push(chars_to_string(&start_chars));
    match e.end_time {
        Some(ms) => {
            let end_chars = format_i64(ms);
            fields.push(chars_to_string(&end_chars));
        },
        None => {
            fields.push(String::new());
        },
    }
    fields.push(encode_tags(&e.tags));
    fields.push(encode_props(&e.properties));
    proof {
        assert(fields.deep_view() =~~= encode_fields(e@));
    }
    fields
}

// ---------------------------------------------------------------------
// Executable decoding
// ---------------------------------------------------------------------
/// The tag list a tags field denotes.
pub fn decode_tags_field(field: &String) -> (r: Vec<String>)
    ensures
        r.deep_view() == tags_of_field(field@),
{
    let chars = str_to_chars(field.as_str());
    let mut r: Vec<String> = Vec::new();
    if chars.len() == 0 {
        proof {
            assert(r.deep_view() =~~= tags_of_field(field@));
        }
        return r;
    }
    let parts = split_chars(&chars, ',');
    let mut i: usize = 0;
    while i < parts.len()
        invariant
            i <= parts@.len(),
            r.deep_view() =~= parts.deep_view().take(i as int),
        decreases parts@.len() - i,
    {
        let ghost pre = r.deep_view();
        r.push(chars_to_string(&parts[i]));
        proof {
            assert(r.deep_view() =~~= pre.push(parts@[i as int]@));
            assert(r.deep_view() =~~= parts.deep_view().take(i as int + 1));
        }
        i = i + 1;
    }
    proof {
        assert(parts.deep_view().take(parts@.len() as int) =~= parts.deep_view());
        assert(r.deep_view() =~= tags_of_field(field@));
    }
    r
}

/// Where `props` already binds `key`, the position of that binding.
pub fn find_prop_key(props: &Vec<(String, String)>, key: &Vec<char>) -> (r: Option<usize>)
    ensures
        match r {
            Some(j) => j < props@.len() && props.deep_view()[j as int].0 == key@ && forall|k: int|
                0 <= k < j ==> props.deep_view()[k].0 != key@,
            None => forall|k: int| 0 <= k < props@.len() ==> props.deep_view()[k].0 != key@,
        },
{
    let mut j: usize = 0;
    while j < props.len()
        invariant
            j <= props@.len(),
            forall|k: int| 0 <= k < j ==> props.deep_view()[k].0 != key@,
        decreases props@.len() - j,
    {
        let cand = str_to_chars(props[j].0.as_str());
        if crate::strutil::eq_chars(&cand, key) {
            return Some(j);
        }
        j = j + 1;
    }
    None
}

pub proof fn lemma_upsert_found(
    props: Seq<(Seq<char>, Seq<char>)>,
    key: Seq<char>,
    value: Seq<char>,
    j: int,
)
    requires
        0 <= j < props.len(),
        props[j].0 == key,
        forall|k: int| 0 <= k < j ==> props[k].0 != key,
    ensures
        upsert(props, key, value) == props.update(j, (key, value)),
    decreases j,
{
    if j == 0 {
        assert(upsert(props, key, value) =~= props.update(0, (key, value)));
    } else {
        assert forall|k: int| 0 <= k < j - 1 implies props.skip(1)[k].0 != key by {
            assert(props.skip(1)[k] == props[k + 1]);
        }
        assert(props.skip(1)[j - 1] == props[j]);
        lemma_upsert_found(props.skip(1), key, value, j - 1);
        assert(upsert(props, key, value) =~= props.update(j, (key, value)));
    }
}

pub proof fn lemma_upsert_absent(props: Seq<(Seq<char>, Seq<char>)>, key: Seq<char>, value: Seq<char>)
    requires
        forall|k: int| 0 <= k < props.len() ==> props[k].0 != key,
    ensures
        upsert(props, key, value) == props.push((key, value)),
    decreases props.len(),
{
    if props.len() == 0 {
        assert(upsert(props, key, value) =~= props.push((key, value)));
    } else {
        assert forall|k: int| 0 <= k < props.skip(1).len() implies props.skip(1)[k].0 != key by {
            assert(props.skip(1)[k] == props[k + 1]);
        }
        lemma_upsert_absent(props.skip(1), key, value);
        assert(upsert(props, key, value) =~= props.push((key, value)));
    }
}

/// The property list a properties field denotes.
fn decode_props(field: &String) -> (r: Vec<(String, String)>)
    ensures
        r.deep_view() == props_of_field(field@),
{
    let chars = str_to_chars(field.as_str());
    let pieces = split_chars(&chars, ',');
    let mut r: Vec<(String, String)> = Vec::new();
    let mut i: usize = 0;
    while i < pieces.len()
        invariant
            i <= pieces@.len(),
            r.deep_view() =~= props_from_pieces(pieces.deep_view().take(i as int)),
        decreases pieces@.len() - i,
    {
        let ghost pre = r.deep_view();
        let ghost piece_v = pieces.deep_view()[i as int];
        let piece = &pieces[i];
        match scan_for(piece, '=', 0) {
            None => {
                proof {
                    crate::strutil::lemma_first_index_none(piece_v, '=');
                    assert(add_piece(pre, piece_v) == pre);
                }
            },
            Some(eq_at) => {
                let mut key: Vec<char> = Vec::new();
                let mut k: usize = 0;
                while k < eq_at
                    invariant
                        k <= eq_at,
                        eq_at < piece@.len(),
                        key@ =~= piece@.subrange(0, k as int),
                    decreases eq_at - k,
                {
                    key.push(piece[k]);
                    k = k + 1;
                }
                let mut value: Vec<char> = Vec::new();
                proof {
                    assert(eq_at < piece.len());
                }
                let mut k2: usize = eq_at + 1;
                while k2 < piece.len()
                    invariant
                        eq_at + 1 <= k2 <= piece@.len(),
                        value@ =~= piece@.subrange(eq_at + 1, k2 as int),
                    decreases piece@.len() - k2,
                {
                    value.push(piece[k2]);
                    k2 = k2 + 1;
                }
                proof {
                    lemma_first_index_at(piece_v, '=', eq_at as int);
                    assert(key@ =~= piece_v.take(eq_at as int));
                    assert(value@ =~= piece_v.skip(eq_at as int + 1));
                }
                let key_s = chars_to_string(&key);
                let value_s = chars_to_string(&value);
                match find_prop_key(&r, &key) {
                    Some(j) => {
                        r.set(j, (key_s, value_s));
                        proof {
                            lemma_upsert_found(pre, key@, value@, j as int);
                            assert(r.deep_view() =~~= pre.update(j as int, (key@, value@)));
                        }
                    },
                    None => {
                        r.push((key_s, value_s));
                        proof {
                            lemma_upsert_absent(pre, key@, value@);
                            assert(r.deep_view() =~~= pre.push((key@, value@)));
                        }
                    },
                }
                proof {
                    assert(r.deep_view() == add_piece(pre, piece_v));
                }
            },
        }
        proof {
            assert(pieces.deep_view().take(i as int + 1).drop_last() =~= pieces.deep_view().take(
                i as int,
            ));
            assert(pieces.deep_view().take(i as int + 1).last() == piece_v);
            assert(r.deep_view() =~= props_from_pieces(pieces.deep_view().take(i as int + 1)));
        }
        i = i + 1;
    }
    proof {
        assert(pieces.deep_view().take(pieces@.len() as int) =~= pieces.deep_view());
    }
    r
}

/// The entry five native fields denote, or why they denote none.
pub fn decode_native(fields: &Vec<String>) -> (r: Result<TimeSheetEntry, DecodeError>)
    ensures
        match r {
            Ok(e) => decode_fields(fields.deep_view()) == Ok::<EntryModel, DecodeError>(e@),
            Err(er) => decode_fields(fields.deep_view()) == Err::<EntryModel, DecodeError>(er),
        },
{
    if fields.len() != 5 {
        return Err(DecodeError::FieldCount);
    }
    let desc_chars = str_to_chars(fields[0].as_str());
    if desc_chars.len() > 0 {
        let first = desc_chars[0];
        if first == '\u{feff}' {
            return Err(DecodeError::UnstorableField);
        }
    }
    if !(string_line_clean(&fields[0]) && string_line_clean(&fields[1]) && string_line_clean(
        &fields[2],
    ) && string_line_clean(&fields[3]) && string_line_clean(&fields[4])) {
        return Err(DecodeError::UnstorableField);
    }
    let start_chars = str_to_chars(fields[1].as_str());
    let start = match parse_i64_chars(&start_chars) {
        Some(ms) => ms,
        None => {
            return Err(DecodeError::MalformedTimestamp);
        },
    };
    if start < -crate::entry::TS_MS_BOUND || start > crate::entry::TS_MS_BOUND {
        return Err(DecodeError::MalformedTimestamp);
    }
    let end_chars = str_to_chars(fields[2].as_str());
    let end: Option<i64> = if end_chars.len() == 0 {
        None
    } else {
        match parse_i64_chars(&end_chars) {
            Some(ms) => {
                if ms < -crate::entry::TS_MS_BOUND || ms > crate::entry::TS_MS_BOUND {
                    return Err(DecodeError::MalformedTimestamp);
                }
                Some(ms)
            },
            None => {
                return Err(DecodeError::MalformedTimestamp);
            },
        }
    };
    let tags = decode_tags_field(&fields[3]);
    let properties = decode_props(&fields[4]);
    let e = TimeSheetEntry {
        description: fields[0].clone(),
        start_time: start,
        end_time: end,
        tags,
        properties,
    };
    Ok(e)
}

// ---------------------------------------------------------------------
// Round-trip and well-formedness lemmas
// ---------------------------------------------------------------------
/// Is `key` bound somewhere in `props`?
pub open spec fn key_bound(props: Seq<(Seq<char>, Seq<char>)>, key: Seq<char>) -> bool {
    exists|i: int| 0 <= i < props.len() && (#[trigger] props[i]).0 == key
}

pub proof fn lemma_upsert_wf(props: Seq<(Seq<char>, Seq<char>)>, key: Seq<char>, value: Seq<char>)
    requires
        forall|i: int| 0 <= i < props.len() ==> valid_prop(#[trigger] props[i]),
        unique_keys(props),
        valid_prop((key, value)),
    ensures
        forall|i: int|
            0 <= i < upsert(props, key, value).len() ==> valid_prop(
                #[trigger] upsert(props, key, value)[i],
            ),
        unique_keys(upsert(props, key, value)),
        forall|k2: Seq<char>|
            #[trigger] key_bound(upsert(props, key, value), k2) <==> (key_bound(props, k2) || k2
                == key),
    decreases props.len(),
{
    let r = upsert(props, key, value);
    if props.len() == 0 {
        assert forall|k2: Seq<char>| #[trigger]
            key_bound(r, k2) <==> (key_bound(props, k2) || k2 == key) by {
            if k2 == key {
                assert(r[0].0 == key);
            }
        }
    } else if props[0].0 == key {
        assert forall|i: int| 0 <= i < r.len() implies valid_prop(#[trigger] r[i]) by {
            if i > 0 {
                assert(r[i] == props[i]);
            }
        }
        assert forall|i: int, j: int| 0 <= i < j < r.len() implies (#[trigger] r[i]).0 != (
        #[trigger] r[j]).0 by {
            assert(r[j] == props[j]);
            if i > 0 {
                assert(r[i] == props[i]);
            }
        }
        assert forall|k2: Seq<char>| #[trigger]
            key_bound(r, k2) <==> (key_bound(props, k2) || k2 == key) by {
            if key_bound(r, k2) {
                let i = choose|i: int| 0 <= i < r.len() && (#[trigger] r[i]).0 == k2;
                if i > 0 {
                    assert(props[i].0 == k2);
                }
            }
            if key_bound(props, k2) {
                let i = choose|i: int| 0 <= i < props.len() && (#[trigger] props[i]).0 == k2;
                if i > 0 {
                    assert(r[i].0 == k2);
                } else {
                    assert(r[0].0 == key);
                }
            }
            if k2 == key {
                assert(r[0].0 == key);
            }
        }
    } else {
        let tail = props.skip(1);
        assert forall|i: int| 0 <= i < tail.len() implies valid_prop(#[trigger] tail[i]) by {
            assert(tail[i] == props[i + 1]);
        }
        assert forall|i: int, j: int| 0 <= i < j < tail.len() implies (#[trigger] tail[i]).0 != (
        #[trigger] tail[j]).0 by {
            assert(tail[i] == props[i + 1]);
            assert(tail[j] == props[j + 1]);
        }
        lemma_upsert_wf(tail, key, value);
        let ru = upsert(tail, key, value);
        assert(r =~= seq![props[0]] + ru);
        assert forall|i: int| 0 <= i < r.len() implies valid_prop(#[trigger] r[i]) by {
            if i > 0 {
                assert(r[i] == ru[i - 1]);
            }
        }
        assert forall|i: int, j: int| 0 <= i < j < r.len() implies (#[trigger] r[i]).0 != (
        #[trigger] r[j]).0 by {
            assert(r[j] == ru[j - 1]);
            assert(key_bound(ru, ru[j - 1].0));
            if i > 0 {
                assert(r[i] == ru[i - 1]);
            } else {
                if ru[j - 1].0 == props[0].0 {
                    assert(key_bound(tail, props[0].0) || props[0].0 == key);
                    let w = choose|w: int|
                        0 <= w < tail.len() && (#[trigger] tail[w]).0 == props[0].0;
                    assert(key_bound(tail, props[0].0) ==> tail[w] == props[w + 1]
                        && props[w + 1].0 != props[0].0);
                }
            }
        }
        assert forall|k2: Seq<char>| #[trigger]
            key_bound(r, k2) <==> (key_bound(props, k2) || k2 == key) by {
            if key_bound(r, k2) {
                let i = choose|i: int| 0 <= i < r.len() && (#[trigger] r[i]).0 == k2;
                if i == 0 {
                    assert(props[0].0 == k2);
                } else {
                    assert(ru[i - 1].0 == k2);
                    assert(key_bound(ru, k2));
                    if key_bound(tail, k2) {
                        let w = choose|w: int|
                            0 <= w < tail.len() && (#[trigger] tail[w]).0 == k2;
                        assert(props[w + 1].0 == k2);
                    }
                }
            }
            if key_bound(props, k2) {
                let i = choose|i: int| 0 <= i < props.len() && (#[trigger] props[i]).0 == k2;
                if i == 0 {
                    assert(r[0].0 == k2);
                } else {
                    assert(tail[i - 1].0 == k2);
                    assert(key_bound(tail, k2));
                    assert(key_bound(ru, k2));
                    let w = choose|w: int| 0 <= w < ru.len() && (#[trigger] ru[w]).0 == k2;
                    assert(r[w + 1].0 == k2);
                }
            }
            if k2 == key {
                assert(key_bound(ru, k2));
                let w = choose|w: int| 0 <= w < ru.len() && (#[trigger] ru[w]).0 == k2;
                assert(r[w + 1].0 == k2);
            }
        }
    }
}

proof fn lemma_clean_to_no_char(s: Seq<char>)
    requires
        line_clean(s),
    ensures
        no_char(s, '\n'),
        no_char(s, '\r'),
{
    assert forall|k: int| 0 <= k < s.len() implies s[k] != '\n' && s[k] != '\r' by {
        if s[k] == '\n' {
            assert(s.contains('\n'));
        }
        if s[k] == '\r' {
            assert(s.contains('\r'));
        }
    }
}

proof fn lemma_no_char_to_clean(s: Seq<char>)
    requires
        no_char(s, '\n'),
        no_char(s, '\r'),
    ensures
        line_clean(s),
{
    if s.contains('\n') {
        let w = choose|w: int| 0 <= w < s.len() && s[w] == '\n';
    }
    if s.contains('\r') {
        let w = choose|w: int| 0 <= w < s.len() && s[w] == '\r';
    }
}

/// The pieces of a line-break-free text are line-break-free.
proof fn lemma_clean_pieces(s: Seq<char>, sep: char)
    requires
        line_clean(s),
    ensures
        forall|i: int|
            0 <= i < split_on(s, sep).len() ==> line_clean(#[trigger] split_on(s, sep)[i]),
{
    lemma_clean_to_no_char(s);
    crate::strutil::lemma_split_pieces_preserve(s, sep, '\n');
    crate::strutil::lemma_split_pieces_preserve(s, sep, '\r');
    assert forall|i: int| 0 <= i < split_on(s, sep).len() implies line_clean(
        #[trigger] split_on(s, sep)[i],
    ) by {
        lemma_no_char_to_clean(split_on(s, sep)[i]);
    }
}

/// A join of line-break-free parts on an ordinary separator is
/// line-break-free.
proof fn lemma_join_clean(parts: Seq<Seq<char>>, sep: char)
    requires
        forall|i: int| 0 <= i < parts.len() ==> line_clean(#[trigger] parts[i]),
        sep != '\n',
        sep != '\r',
    ensures
        line_clean(join_with(parts, sep)),
{
    assert forall|i: int| 0 <= i < parts.len() implies no_char(#[trigger] parts[i], '\n')
        && no_char(parts[i], '\r') by {
        lemma_clean_to_no_char(parts[i]);
    }
    crate::strutil::lemma_join_no_char(parts, sep, '\n');
    crate::strutil::lemma_join_no_char(parts, sep, '\r');
    lemma_no_char_to_clean(join_with(parts, sep));
}

/// A rendered integer holds only digits and a sign, never a line break.
proof fn lemma_int_str_clean(n: int)
    ensures
        line_clean(int_str(n)),
{
    let s = int_str(n);
    let m: nat = if n < 0 {
        (-n) as nat
    } else {
        n as nat
    };
    crate::numfmt::lemma_dec_rep_digits(m);
    assert forall|k: int| 0 <= k < s.len() implies s[k] != '\n' && s[k] != '\r' by {
        if n < 0 {
            if k == 0 {
                assert(s[0] == '-');
            } else {
                assert(s[k] == crate::numfmt::dec_rep(m)[k - 1]);
                assert(crate::numfmt::is_digit_char(s[k]));
            }
        } else {
            assert(crate::numfmt::is_digit_char(s[k]));
        }
    }
    lemma_no_char_to_clean(s);
}

/// Property lists built from comma-free pieces are well formed: every
/// pair respects the delimiters and keys are unique.
proof fn lemma_props_from_pieces_wf(pieces: Seq<Seq<char>>)
    requires
        parts_without(pieces, comma()),
        forall|i: int| 0 <= i < pieces.len() ==> line_clean(#[trigger] pieces[i]),
    ensures
        forall|i: int|
            0 <= i < props_from_pieces(pieces).len() ==> valid_prop(
                #[trigger] props_from_pieces(pieces)[i],
            ),
        unique_keys(props_from_pieces(pieces)),
    decreases pieces.len(),
{
    if pieces.len() > 0 {
        let rest = pieces.drop_last();
        assert forall|i: int| 0 <= i < rest.len() implies no_char(#[trigger] rest[i], comma())
            && line_clean(rest[i]) by {
            assert(rest[i] == pieces[i]);
        }
        lemma_props_from_pieces_wf(rest);
        let piece = pieces.last();
        assert(line_clean(piece)) by {
            assert(piece == pieces[pieces.len() - 1]);
        }
        let base = props_from_pieces(rest);
        let i = first_index_of(piece, equals_sign());
        if i >= 0 {
            lemma_first_index_of(piece, equals_sign());
            let key = piece.take(i);
            let value = piece.skip(i + 1);
            assert(no_char(piece, comma()));
            assert forall|k: int| 0 <= k < key.len() implies key[k] != comma() && key[k]
                != equals_sign() by {
                assert(key[k] == piece[k]);
            }
            assert forall|k: int| 0 <= k < value.len() implies value[k] != comma() by {
                assert(value[k] == piece[k + i + 1]);
            }
            lemma_clean_to_no_char(piece);
            assert forall|k: int| 0 <= k < key.len() implies key[k] != '\n' && key[k]
                != '\r' by {
                assert(key[k] == piece[k]);
            }
            assert forall|k: int| 0 <= k < value.len() implies value[k] != '\n' && value[k]
                != '\r' by {
                assert(value[k] == piece[k + i + 1]);
            }
            lemma_no_char_to_clean(key);
            lemma_no_char_to_clean(value);
            assert(valid_prop((key, value)));
            lemma_upsert_wf(base, key, value);
        }
    }
}

/// Decoded entries are storable: whatever five fields decode to an entry,
/// that entry satisfies the store invariant.
pub proof fn lemma_decode_fields_valid(fields: Seq<Seq<char>>, e: EntryModel)
    requires
        decode_fields(fields) == Ok::<EntryModel, DecodeError>(e),
    ensures
        valid_entry(e),
{
    let tf = fields[3];
    lemma_split_pieces_clean(tf, comma());
    lemma_clean_pieces(tf, comma());
    assert forall|i: int| 0 <= i < e.tags.len() implies valid_tag(#[trigger] e.tags[i]) by {
        if tf.len() > 0 {
            assert(e.tags[i] == split_on(tf, comma())[i]);
            lemma_no_char_to_clean(e.tags[i]);
        }
    }
    if tf.len() > 0 {
        let ci = first_index_of(tf, comma());
        lemma_first_index_of(tf, comma());
        if ci < 0 {
            assert(split_on(tf, comma()) == seq![tf]);
            assert(e.tags[0] == tf);
        } else {
            lemma_split_pieces_clean(tf.skip(ci + 1), comma());
            assert(split_on(tf, comma()).len() >= 2);
        }
    }
    lemma_split_pieces_clean(fields[4], comma());
    lemma_clean_pieces(fields[4], comma());
    lemma_props_from_pieces_wf(split_on(fields[4], comma()));
}

proof fn lemma_props_roundtrip(props: Seq<(Seq<char>, Seq<char>)>)
    requires
        forall|i: int| 0 <= i < props.len() ==> valid_prop(#[trigger] props[i]),
        unique_keys(props),
    ensures
        props_of_field(props_field_spec(props)) == props,
    decreases props.len(),
{
    let pieces = props.map_values(|p: (Seq<char>, Seq<char>)| prop_piece(p));
    assert forall|i: int| 0 <= i < pieces.len() implies no_char(#[trigger] pieces[i], comma()) by {
        let p = props[i];
        let piece = prop_piece(p);
        assert(pieces[i] == piece);
        assert forall|k: int| 0 <= k < piece.len() implies piece[k] != comma() by {
            if k < p.0.len() {
                assert(piece[k] == p.0[k]);
            } else if k == p.0.len() {
                assert(piece[k] == equals_sign());
            } else {
                assert(piece[k] == p.1[k - p.0.len() - 1]);
            }
        }
    }
    if props.len() == 0 {
        let f = props_field_spec(props);
        assert(pieces.len() == 0);
        assert(f == Seq::<char>::empty());
        crate::strutil::lemma_first_index_none(f, comma());
        assert(split_on(f, comma()) == seq![f]);
        assert(first_index_of(f, equals_sign()) < 0);
        let sp = split_on(f, comma());
        assert(sp.drop_last() =~= Seq::<Seq<char>>::empty());
        assert(props_from_pieces(sp.drop_last()) =~= Seq::<(Seq<char>, Seq<char>)>::empty());
        assert(sp.last() == f);
        assert(props_from_pieces(sp) == add_piece(props_from_pieces(sp.drop_last()), f));
        assert(add_piece(props_from_pieces(sp.drop_last()), f) =~= props);
        assert(props_of_field(f) =~= props);
    } else {
        let f = props_field_spec(props);
        if pieces.len() >= 2 {
            lemma_join_len(pieces, comma());
        } else {
            assert(f == pieces[0]);
            assert(prop_piece(props[0]).len() > 0);
        }
        lemma_split_join(pieces, comma());
        assert(props_of_field(f) == props_from_pieces(pieces));
        lemma_props_from_map(props);
    }
}

proof fn lemma_props_from_map(props: Seq<(Seq<char>, Seq<char>)>)
    requires
        forall|i: int| 0 <= i < props.len() ==> valid_prop(#[trigger] props[i]),
        unique_keys(props),
    ensures
        props_from_pieces(props.map_values(|p: (Seq<char>, Seq<char>)| prop_piece(p))) == props,
    decreases props.len(),
{
    let pieces = props.map_values(|p: (Seq<char>, Seq<char>)| prop_piece(p));
    if props.len() == 0 {
        assert(props_from_pieces(pieces) =~= props);
    } else {
        let front = props.drop_last();
        assert forall|i: int| 0 <= i < front.len() implies valid_prop(#[trigger] front[i]) by {
            assert(front[i] == props[i]);
        }
        assert forall|i: int, j: int| 0 <= i < j < front.len() implies (#[trigger] front[i]).0 != (
        #[trigger] front[j]).0 by {
            assert(front[i] == props[i]);
            assert(front[j] == props[j]);
        }
        lemma_props_from_map(front);
        assert(pieces.drop_last() =~= front.map_values(
            |p: (Seq<char>, Seq<char>)| prop_piece(p),
        ));
        let last = props.last();
        let piece = prop_piece(last);
        assert(pieces.last() == piece);
        assert(props_from_pieces(pieces) == add_piece(front, piece));
        assert(piece[last.0.len() as int] == equals_sign());
        assert forall|k: int| 0 <= k < last.0.len() implies piece[k] != equals_sign() by {
            assert(piece[k] == last.0[k]);
        }
        lemma_first_index_at(piece, equals_sign(), last.0.len() as int);
        assert(piece.take(last.0.len() as int) =~= last.0);
        assert(piece.skip(last.0.len() as int + 1) =~= last.1);
        assert forall|k: int| 0 <= k < front.len() implies front[k].0 != last.0 by {
            assert(front[k] == props[k]);
            assert(props.last() == props[props.len() - 1]);
        }
        lemma_upsert_absent(front, last.0, last.1);
        assert(front.push((last.0, last.1)) =~= props);
    }
}

proof fn lemma_tags_roundtrip(tags: Seq<Seq<char>>)
    requires
        forall|i: int| 0 <= i < tags.len() ==> valid_tag(#[trigger] tags[i]),
        !(tags.len() == 1 && tags[0].len() == 0),
    ensures
        tags_of_field(tags_field_spec(tags)) == tags,
{
    let f = tags_field_spec(tags);
    assert forall|i: int| 0 <= i < tags.len() implies no_char(#[trigger] tags[i], comma()) by {
        assert(valid_tag(tags[i]));
        assert forall|k: int| 0 <= k < tags[i].len() implies tags[i][k] != comma() by {
            if tags[i][k] == comma() {
                assert(tags[i].contains(comma()));
            }
        }
    }
    if tags.len() == 0 {
        assert(f =~= Seq::<char>::empty());
    } else {
        if tags.len() >= 2 {
            lemma_join_len(tags, comma());
        } else {
            assert(f == tags[0]);
        }
        lemma_split_join(tags, comma());
    }
}

/// Decoding what `encode_fields` produced gives the entry back.
pub proof fn lemma_native_roundtrip(e: EntryModel)
    requires
        valid_entry(e),
    ensures
        decode_fields(encode_fields(e)) == Ok::<EntryModel, DecodeError>(e),
{
    let fields = encode_fields(e);
    lemma_int_str_roundtrip(e.start_time as i64);
    assert(parse_i64_spec(fields[1]) == Some(e.start_time as i64));
    match e.end_time {
        Some(ms) => {
            lemma_int_str_roundtrip(ms as i64);
            assert(parse_i64_spec(fields[2]) == Some(ms as i64));
            crate::numfmt::lemma_dec_rep_digits((if ms < 0 {
                -ms
            } else {
                ms
            }) as nat);
            assert(fields[2].len() > 0);
        },
        None => {
            assert(fields[2].len() == 0);
        },
    }
    lemma_tags_roundtrip(e.tags);
    lemma_props_roundtrip(e.properties);
    lemma_int_str_clean(e.start_time);
    match e.end_time {
        Some(ms) => {
            lemma_int_str_clean(ms);
        },
        None => {
            lemma_no_char_to_clean(Seq::<char>::empty());
        },
    }
    lemma_join_clean(e.tags, comma());
    let pieces = e.properties.map_values(|p: (Seq<char>, Seq<char>)| prop_piece(p));
    assert forall|i: int| 0 <= i < pieces.len() implies line_clean(#[trigger] pieces[i]) by {
        let p = e.properties[i];
        let piece = prop_piece(p);
        assert(pieces[i] == piece);
        assert(valid_prop(p));
        lemma_clean_to_no_char(p.0);
        lemma_clean_to_no_char(p.1);
        assert forall|k: int| 0 <= k < piece.len() implies piece[k] != '\n' && piece[k]
            != '\r' by {
            if k < p.0.len() {
                assert(piece[k] == p.0[k]);
            } else if k == p.0.len() {
                assert(piece[k] == equals_sign());
            } else {
                assert(piece[k] == p.1[k - p.0.len() - 1]);
            }
        }
        lemma_no_char_to_clean(piece);
    }
    lemma_join_clean(pieces, comma());
    assert(line_clean(fields[4]));
    match decode_fields(fields) {
        Ok(d) => {
            assert(d == e);
        },
        Err(_) => {
            assert(false);
        },
    }
}


/// Re-encoding a decoded row reproduces the same entry: decoded entries
/// are storable, and storable entries survive the round trip.
pub proof fn lemma_row_reencode(fields: Seq<Seq<char>>, e: EntryModel)
    requires
        decode_fields(fields) == Ok::<EntryModel, DecodeError>(e),
    ensures
        decode_fields(encode_fields(e)) == Ok::<EntryModel, DecodeError>(e),
{
    lemma_decode_fields_valid(fields, e);
    lemma_native_roundtrip(e);
}

// ---------------------------------------------------------------------
// Runtime validity check
// ---------------------------------------------------------------------
/// Does the string contain this character?
fn string_has_char(s: &String, c: char) -> (r: bool)
    ensures
        r == s@.contains(c),
{
    let chars = str_to_chars(s.as_str());
    match scan_for(&chars, c, 0) {
        Some(j) => {
            proof {
                assert(s@[j as int] == c);
            }
            true
        },
        None => {
            proof {
                if s@.contains(c) {
                    let w = choose|w: int| 0 <= w < s@.len() && s@[w] == c;
                }
            }
            false
        },
    }
}

/// Is the string free of line breaks?
fn string_line_clean(s: &String) -> (r: bool)
    ensures
        r == line_clean(s@),
{
    !string_has_char(s, '\n') && !string_has_char(s, '\r')
}

/// Decides `valid_entry` at run time, so that an unverified caller can
/// test an entry before handing it to a store operation.
pub fn is_valid_entry(e: &TimeSheetEntry) -> (r: bool)
    ensures
        r == valid_entry(e@),
{
    if e.start_time < -crate::entry::TS_MS_BOUND || e.start_time > crate::entry::TS_MS_BOUND {
        return false;
    }
    match e.end_time {
        Some(ms) => {
            if ms < -crate::entry::TS_MS_BOUND || ms > crate::entry::TS_MS_BOUND {
                return false;
            }
        },
        None => {},
    }
    let desc_chars = str_to_chars(e.description.as_str());
    if desc_chars.len() > 0 {
        let first = desc_chars[0];
        if first == '\u{feff}' {
            return false;
        }
    }
    if !string_line_clean(&e.description) {
        return false;
    }
    let mut i: usize = 0;
    while i < e.tags.len()
        invariant
            i <= e.tags@.len(),
            forall|k: int| 0 <= k < i ==> valid_tag(#[trigger] e.tags.deep_view()[k]),
        decreases e.tags@.len() - i,
    {
        proof {
            assert(e.tags.deep_view()[i as int] == e.tags@[i as int]@);
        }
        if string_has_char(&e.tags[i], ',') || !string_line_clean(&e.tags[i]) {
            return false;
        }
        i = i + 1;
    }
    if e.tags.len() == 1 {
        let empty_tag = e.tags[0].as_str().is_empty();
        if empty_tag {
            return false;
        }
    }
    let mut j: usize = 0;
    while j < e.properties.len()
        invariant
            j <= e.properties@.len(),
            forall|k: int| 0 <= k < j ==> valid_prop(#[trigger] e.properties.deep_view()[k]),
        decreases e.properties@.len() - j,
    {
        proof {
            assert(e.properties.deep_view()[j as int] == (
                e.properties@[j as int].0@,
                e.properties@[j as int].1@,
            ));
        }
        if string_has_char(&e.properties[j].0, ',') || string_has_char(&e.properties[j].0, '=')
            || string_has_char(&e.properties[j].1, ',') || !string_line_clean(&e.properties[j].0)
            || !string_line_clean(&e.properties[j].1) {
            return false;
        }
        j = j + 1;
    }
    let mut a: usize = 0;
    while a < e.properties.len()
        invariant
            a <= e.properties@.len(),
            forall|x: int, y: int|
                0 <= x < a && x < y < e.properties@.len() ==> (
                #[trigger] e.properties.deep_view()[x]).0 != (
                #[trigger] e.properties.deep_view()[y]).0,
        decreases e.properties@.len() - a,
    {
        let mut b: usize = a + 1;
        while b < e.properties.len()
            invariant
                a < b <= e.properties@.len() || (a + 1 == b && b > e.properties@.len()),
                a < e.properties@.len(),
                forall|y: int|
                    a < y < b ==> (#[trigger] e.properties.deep_view()[y]).0
                        != e.properties.deep_view()[a as int].0,
            decreases e.properties@.len() - b,
        {
            proof {
                assert(e.properties.deep_view()[a as int].0 == e.properties@[a as int].0@);
                assert(e.properties.deep_view()[b as int].0 == e.properties@[b as int].0@);
            }
            if e.properties[a].0.eq(&e.properties[b].0) {
                proof {
                    assert(!unique_keys(e@.properties));
                }
                return false;
            }
            b = b + 1;
        }
        a = a + 1;
    }
    proof {
        assert(valid_entry(e@));
    }
    true
}

} // verus!
