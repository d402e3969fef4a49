//! Line-oriented parser for the wire form: per-line decoding with typed
//! error conditions, stream-header validation, and the proof that
//! decoding inverts the codec's rendering.

use vstd::prelude::*;
use crate::record::{
    event_arity, Coords, CoordsV, Event, EventKind, EventV, GlobalProperty, GlobalPropertyKind,
    GlobalPropertyV, Property, PropertyList, PropertyV, Record, RecordV, Update, UpdateV,
};
use crate::codec::{
    coord_field_segs, coords_field, encode_record, event_kind_name, event_segs, gp_name,
    prop_field, update_fields,
};
use crate::text::{
    char_digit, chars_eq_str, chars_to_string, coord_seq, coord_val, copy_range, dec_ok, esc_clean,
    escape_seq, find_char, frame_seq, frame_val, hex_ok, hex_seq, hex_val, is_dec_digit,
    is_hex_digit, is_reserved, join_with, lemma_clean_chars, lemma_clean_concat,
    lemma_coord_roundtrip, lemma_coord_seq_chars, lemma_escape_clean, lemma_find_char_is,
    lemma_frame_roundtrip, lemma_hex_seq_digits, lemma_hex_val_inverse, lemma_join_clean,
    lemma_split_join, lemma_unescape_escape, ok_event_text, ok_property_name, ok_property_value,
    parse_coord, parse_frame, parse_hex_u64, split_all, split_at_first, split_once_at,
    str_to_chars, unescape_seq, unescape_string, views_of,
};

verus! {

/// Per-line and stream-level parse conditions. Stream conditions (an
/// unrecognized format tag, a version other than 2.x) abort a whole
/// parse; the others are scoped to one line. `Io` stands for a read
/// failure surfaced by the caller's transport.
#[derive(Debug, Clone, Copy, PartialEq, Eq, Structural)]
pub enum ParseError {
    InvalidFileType,
    InvalidVersion,
    Io,
    Eol,
    InvalidId,
    InvalidNumeric,
    MissingDelimiter(char),
    InvalidEvent,
    InvalidCoordinateFormat,
}

/// The mission-metadata kind a wire name denotes, if any.
pub open spec fn gp_kind_of_name(n: Seq<char>) -> Option<GlobalPropertyKind> {
    if n == "Title"@ {
        Some(GlobalPropertyKind::Title)
    } else if n == "Category"@ {
        Some(GlobalPropertyKind::Category)
    } else if n == "Author"@ {
        Some(GlobalPropertyKind::Author)
    } else if n == "ReferenceTime"@ {
        Some(GlobalPropertyKind::ReferenceTime)
    } else if n == "RecordingTime"@ {
        Some(GlobalPropertyKind::RecordingTime)
    } else if n == "Briefing"@ {
        Some(GlobalPropertyKind::Briefing)
    } else if n == "Debriefing"@ {
        Some(GlobalPropertyKind::Debriefing)
    } else if n == "Comments"@ {
        Some(GlobalPropertyKind::Comments)
    } else if n == "DataSource"@ {
        Some(GlobalPropertyKind::DataSource)
    } else if n == "DataRecorder"@ {
        Some(GlobalPropertyKind::DataRecorder)
    } else {
        None
    }
}

/// The event kind a wire name denotes, if any.
pub open spec fn event_kind_of_name(n: Seq<char>) -> Option<EventKind> {
    if n == "Destroyed"@ {
        Some(EventKind::Destroyed)
    } else if n == "LeftArea"@ {
        Some(EventKind::LeftArea)
    } else if n == "Timeout"@ {
        Some(EventKind::Timeout)
    } else {
        None
    }
}

/// Reading of a `T=` field value: three to eight pipe-joined fixed-point
/// members.
pub open spec fn decode_coords(val: Seq<char>) -> Result<CoordsV, ParseError> {
    let segs = crate::text::split_esc(val, '|');
    if !(3 <= segs.len() <= 8) {
        Err(ParseError::InvalidCoordinateFormat)
    } else if exists|i: int| 0 <= i < segs.len() && coord_val(#[trigger] segs[i]) is None {
        Err(ParseError::InvalidCoordinateFormat)
    } else {
        Ok(CoordsV { fields: Seq::new(segs.len(), |i: int| coord_val(segs[i])->Some_0) })
    }
}

/// Reading of an `Event=` field value: kind name, the kind's fixed
/// number of parameters, and at most one trailing free-text member.
pub open spec fn decode_event(val: Seq<char>) -> Result<EventV, ParseError> {
    let segs = crate::text::split_esc(val, '|');
    match event_kind_of_name(segs[0]) {
        None => Err(ParseError::InvalidEvent),
        Some(k) => {
            let ar = event_arity(k);
            if segs.len() == 1 + ar {
                Ok(EventV { kind: k, params: segs.subrange(1, 1 + ar), text: None })
            } else if segs.len() == 2 + ar {
                Ok(
                    EventV {
                        kind: k,
                        params: segs.subrange(1, 1 + ar),
                        text: Some(segs[1 + ar]),
                    },
                )
            } else {
                Err(ParseError::InvalidEvent)
            }
        },
    }
}

/// Reading of one non-positional field: name before the first `=`, value
/// unescaped after it.
pub open spec fn decode_field(f: Seq<char>) -> Result<PropertyV, ParseError> {
    match split_once_at(f, '=') {
        None => Err(ParseError::MissingDelimiter('=')),
        Some(p) => Ok(PropertyV { name: p.0, value: unescape_seq(p.1) }),
    }
}

/// Reading of a run of non-positional fields, failing on the first bad
/// one.
pub open spec fn decode_props(fs: Seq<Seq<char>>) -> Result<Seq<PropertyV>, ParseError>
    decreases fs.len(),
{
    if fs.len() == 0 {
        Ok(Seq::<PropertyV>::empty())
    } else {
        match decode_field(fs[0]) {
            Err(e) => Err(e),
            Ok(p) => match decode_props(fs.skip(1)) {
                Err(e) => Err(e),
                Ok(ps) => Ok(seq![p] + ps),
            },
        }
    }
}

/// Reading of an update line's fields after the id: the positional field
/// first when present, then the property fields.
pub open spec fn decode_update(id: u64, fs: Seq<Seq<char>>) -> Result<RecordV, ParseError>
    recommends
        fs.len() >= 1,
{
    match split_once_at(fs[0], '=') {
        None => Err(ParseError::MissingDelimiter('=')),
        Some(p) => {
            if p.0 == "T"@ {
                match decode_coords(p.1) {
                    Err(e) => Err(e),
                    Ok(c) => match decode_props(fs.skip(1)) {
                        Err(e) => Err(e),
                        Ok(ps) => Ok(
                            RecordV::Update(UpdateV { id, coords: Some(c), props: ps }),
                        ),
                    },
                }
            } else {
                match decode_props(fs) {
                    Err(e) => Err(e),
                    Ok(ps) => Ok(RecordV::Update(UpdateV { id, coords: None, props: ps })),
                }
            }
        },
    }
}

/// Reading of one whole line into a record, with the error condition the
/// line exhibits otherwise.
pub open spec fn decode_line(s: Seq<char>) -> Result<RecordV, ParseError> {
    if s.len() == 0 {
        Err(ParseError::Eol)
    } else if s[0] == '#' {
        match frame_val(s.skip(1)) {
            Some(t) => Ok(RecordV::Frame(t as u64)),
            None => Err(ParseError::InvalidNumeric),
        }
    } else if s[0] == '-' {
        if hex_ok(s.skip(1)) && hex_val(s.skip(1)) <= u64::MAX {
            Ok(RecordV::Remove(hex_val(s.skip(1)) as u64))
        } else {
            Err(ParseError::InvalidId)
        }
    } else {
        let segs = crate::text::split_esc(s, ',');
        if segs.len() < 2 {
            Err(ParseError::MissingDelimiter(','))
        } else if !(hex_ok(segs[0]) && hex_val(segs[0]) <= u64::MAX) {
            Err(ParseError::InvalidId)
        } else {
            let id = hex_val(segs[0]) as u64;
            if id == 0 && segs.len() == 2 {
                match split_once_at(segs[1], '=') {
                    None => Err(ParseError::MissingDelimiter('=')),
                    Some(p) => {
                        if p.0 == "Event"@ {
                            match decode_event(p.1) {
                                Ok(e) => Ok(RecordV::Event(e)),
                                Err(e) => Err(e),
                            }
                        } else {
                            match gp_kind_of_name(p.0) {
                                Some(k) => Ok(
                                    RecordV::GlobalProperty(
                                        GlobalPropertyV { kind: k, value: unescape_seq(p.1) },
                                    ),
                                ),
                                None => decode_update(id, segs.skip(1)),
                            }
                        }
                    },
                }
            } else {
                decode_update(id, segs.skip(1))
            }
        }
    }
}

// ---------------------------------------------------------------------------
// Executable decoding
// ---------------------------------------------------------------------------

fn gp_kind_exec(n: &Vec<char>) -> (r: Option<GlobalPropertyKind>)
    ensures
        r == gp_kind_of_name(n@),
{
    if chars_eq_str(n, "Title") {
        Some(GlobalPropertyKind::Title)
    } else if chars_eq_str(n, "Category") {
        Some(GlobalPropertyKind::Category)
    } else if chars_eq_str(n, "Author") {
        Some(GlobalPropertyKind::Author)
    } else if chars_eq_str(n, "ReferenceTime") {
        Some(GlobalPropertyKind::ReferenceTime)
    } else if chars_eq_str(n, "RecordingTime") {
        Some(GlobalPropertyKind::RecordingTime)
    } else if chars_eq_str(n, "Briefing") {
        Some(GlobalPropertyKind::Briefing)
    } else if chars_eq_str(n, "Debriefing") {
        Some(GlobalPropertyKind::Debriefing)
    } else if chars_eq_str(n, "Comments") {
        Some(GlobalPropertyKind::Comments)
    } else if chars_eq_str(n, "DataSource") {
        Some(GlobalPropertyKind::DataSource)
    } else if chars_eq_str(n, "DataRecorder") {
        Some(GlobalPropertyKind::DataRecorder)
    } else {
        None
    }
}

fn event_kind_exec(n: &Vec<char>) -> (r: Option<EventKind>)
    ensures
        r == event_kind_of_name(n@),
{
    if chars_eq_str(n, "Destroyed") {
        Some(EventKind::Destroyed)
    } else if chars_eq_str(n, "LeftArea") {
        Some(EventKind::LeftArea)
    } else if chars_eq_str(n, "Timeout") {
        Some(EventKind::Timeout)
    } else {
        None
    }
}

fn event_arity_exec(k: EventKind) -> (n: usize)
    ensures
        n as int == event_arity(k),
{
    match k {
        EventKind::Destroyed => 1,
        EventKind::LeftArea => 1,
        EventKind::Timeout => 1,
    }
}

/// Reads a `T=` field value into a `Coords`.
pub fn decode_coords_exec(val: &Vec<char>) -> (r: Result<Coords, ParseError>)
    ensures
        r is Ok <==> decode_coords(val@) is Ok,
        r is Ok ==> r->Ok_0@ == decode_coords(val@)->Ok_0,
        r is Err ==> Err::<CoordsV, ParseError>(r->Err_0) == decode_coords(val@),
{
    let segs = split_all(val, '|');
    let n = segs.len();
    if n < 3 || n > 8 {
        return Err(ParseError::InvalidCoordinateFormat);
    }
    let mut fields: Vec<i64> = Vec::new();
    let mut i: usize = 0;
    while i < n
        invariant
            0 <= i <= n,
            n == segs@.len(),
            3 <= n <= 8,
            views_of(segs@) == crate::text::split_esc(val@, '|'),
            fields@.len() == i,
            forall|j: int|
                0 <= j < i ==> coord_val(#[trigger] views_of(segs@)[j]) == Some(
                    fields@[j] as int,
                ),
        decreases n - i,
    {
        match parse_coord(&segs[i]) {
            Some(x) => {
                fields.push(x);
            },
            None => {
                proof {
                    assert(coord_val(views_of(segs@)[i as int]) is None);
                }
                return Err(ParseError::InvalidCoordinateFormat);
            },
        }
        i += 1;
    }
    let c = Coords { fields };
    proof {
        let segsv = crate::text::split_esc(val@, '|');
        assert(forall|j: int| 0 <= j < segsv.len() ==> coord_val(#[trigger] segsv[j]) is Some);
        assert(c@.fields =~= Seq::new(segsv.len(), |j: int| coord_val(segsv[j])->Some_0));
        assert(c@ =~= decode_coords(val@)->Ok_0);
    }
    Ok(c)
}

/// Reads an `Event=` field value into an `Event`.
pub fn decode_event_exec(val: &Vec<char>) -> (r: Result<Event, ParseError>)
    ensures
        r is Ok <==> decode_event(val@) is Ok,
        r is Ok ==> r->Ok_0@ == decode_event(val@)->Ok_0,
        r is Err ==> Err::<EventV, ParseError>(r->Err_0) == decode_event(val@),
{
    let segs = split_all(val, '|');
    let kind = match event_kind_exec(&segs[0]) {
        Some(k) => k,
        None => {
            return Err(ParseError::InvalidEvent);
        },
    };
    let ar = event_arity_exec(kind);
    let n = segs.len();
    if n == 1 + ar {
        let mut params: Vec<String> = Vec::new();
        let mut i: usize = 1;
        while i < n
            invariant
                1 <= i <= n,
                n == segs@.len(),
                views_of(segs@) == crate::text::split_esc(val@, '|'),
                params@.len() == i - 1,
                forall|j: int|
                    0 <= j < i - 1 ==> #[trigger] params@[j]@ == views_of(segs@)[j + 1],
            decreases n - i,
        {
            params.push(chars_to_string(&segs[i]));
            i += 1;
        }
        let e = Event { kind, params, text: None };
        proof {
            let segsv = crate::text::split_esc(val@, '|');
            assert(e@.params =~= segsv.subrange(1, 1 + event_arity(kind)));
            assert(e@ =~= decode_event(val@)->Ok_0);
        }
        Ok(e)
    } else if n == 2 + ar {
        let mut params: Vec<String> = Vec::new();
        let mut i: usize = 1;
        while i < n - 1
            invariant
                1 <= i <= n - 1,
                n == segs@.len(),
                n == 2 + event_arity(kind),
                views_of(segs@) == crate::text::split_esc(val@, '|'),
                params@.len() == i - 1,
                forall|j: int|
                    0 <= j < i - 1 ==> #[trigger] params@[j]@ == views_of(segs@)[j + 1],
            decreases n - i,
        {
            params.push(chars_to_string(&segs[i]));
            i += 1;
        }
        let text = chars_to_string(&segs[n - 1]);
        let e = Event { kind, params, text: Some(text) };
        proof {
            let segsv = crate::text::split_esc(val@, '|');
            assert(e@.params =~= segsv.subrange(1, 1 + event_arity(kind)));
            assert(e@ =~= decode_event(val@)->Ok_0);
        }
        Ok(e)
    } else {
        Err(ParseError::InvalidEvent)
    }
}

fn decode_props_exec(fs: &Vec<Vec<char>>, i: usize) -> (r: Result<Vec<Property>, ParseError>)
    requires
        i <= fs.len(),
    ensures
        r is Ok <==> decode_props(views_of(fs@).skip(i as int)) is Ok,
        r is Ok ==> r->Ok_0@.map_values(|p: Property| p@) == decode_props(
            views_of(fs@).skip(i as int),
        )->Ok_0,
        r is Err ==> Err::<Seq<PropertyV>, ParseError>(r->Err_0) == decode_props(
            views_of(fs@).skip(i as int),
        ),
    decreases fs.len() - i,
{
    let ghost tail = views_of(fs@).skip(i as int);
    if i == fs.len() {
        let r: Vec<Property> = Vec::new();
        proof {
            assert(tail =~= Seq::<Seq<char>>::empty());
            assert(r@.map_values(|p: Property| p@) =~= decode_props(tail)->Ok_0);
        }
        Ok(r)
    } else {
        proof {
            assert(tail[0] == fs@[i as int]@);
            assert(tail.skip(1) =~= views_of(fs@).skip(i as int + 1));
        }
        match split_at_first(&fs[i], '=') {
            None => Err(ParseError::MissingDelimiter('=')),
            Some((n, v)) => {
                let name = chars_to_string(&n);
                let value = unescape_string(&v);
                match decode_props_exec(fs, i + 1) {
                    Err(e) => Err(e),
                    Ok(mut ps) => {
                        let p = Property { name, value };
                        let ghost pre = ps@;
                        ps.insert(0, p);
                        proof {
                            let f = (|p: Property| p@);
                            assert forall|j: int| 0 <= j < ps@.len() implies #[trigger] ps@.map_values(
                                f,
                            )[j] == (seq![p@] + pre.map_values(f))[j] by {
                                if j == 0 {
                                    assert(ps@[0] == p);
                                } else {
                                    assert(ps@[j] == pre[j - 1]);
                                }
                            }
                            assert(ps@.map_values(f) =~= seq![p@] + pre.map_values(f));
                            assert(ps@.map_values(f) =~= decode_props(tail)->Ok_0);
                        }
                        Ok(ps)
                    },
                }
            },
        }
    }
}

fn decode_update_exec(id: u64, fs: &Vec<Vec<char>>) -> (r: Result<Record, ParseError>)
    requires
        fs.len() >= 1,
    ensures
        r is Ok <==> decode_update(id, views_of(fs@)) is Ok,
        r is Ok ==> r->Ok_0@ == decode_update(id, views_of(fs@))->Ok_0,
        r is Err ==> Err::<RecordV, ParseError>(r->Err_0) == decode_update(id, views_of(fs@)),
{
    let ghost fsv = views_of(fs@);
    proof {
        assert(fsv[0] == fs@[0]@);
    }
    match split_at_first(&fs[0], '=') {
        None => Err(ParseError::MissingDelimiter('=')),
        Some((n, v)) => {
            if chars_eq_str(&n, "T") {
                match decode_coords_exec(&v) {
                    Err(e) => Err(e),
                    Ok(c) => {
                        match decode_props_exec(fs, 1) {
                            Err(e) => Err(e),
                            Ok(ps) => {
                                let u = Update {
                                    id,
                                    coords: Some(c),
                                    props: PropertyList(ps),
                                };
                                proof {
                                    assert(fsv.skip(1) =~= views_of(fs@).skip(1));
                                    assert(u@ =~= decode_update(id, fsv)->Ok_0->Update_0);
                                }
                                Ok(Record::Update(u))
                            },
                        }
                    },
                }
            } else {
                match decode_props_exec(fs, 0) {
                    Err(e) => {
                        proof {
                            assert(fsv.skip(0) =~= fsv);
                        }
                        Err(e)
                    },
                    Ok(ps) => {
                        let u = Update { id, coords: None, props: PropertyList(ps) };
                        proof {
                            assert(fsv.skip(0) =~= fsv);
                            assert(u@ =~= decode_update(id, fsv)->Ok_0->Update_0);
                        }
                        Ok(Record::Update(u))
                    },
                }
            }
        },
    }
}

/// Reads one line (without its newline) into a record, or reports the
/// error condition the line exhibits.
pub fn decode_line_str(line: &str) -> (r: Result<Record, ParseError>)
    ensures
        r is Ok <==> decode_line(line@) is Ok,
        r is Ok ==> r->Ok_0@ == decode_line(line@)->Ok_0,
        r is Err ==> Err::<RecordV, ParseError>(r->Err_0) == decode_line(line@),
{
    let v = str_to_chars(line);
    if v.len() == 0 {
        return Err(ParseError::Eol);
    }
    let c0 = v[0];
    if c0 == '#' {
        let t = copy_range(&v, 1, v.len());
        proof {
            assert(t@ =~= v@.skip(1));
        }
        match parse_frame(&t) {
            Some(x) => Ok(Record::Frame(x)),
            None => Err(ParseError::InvalidNumeric),
        }
    } else if c0 == '-' {
        let t = copy_range(&v, 1, v.len());
        proof {
            assert(t@ =~= v@.skip(1));
        }
        match parse_hex_u64(&t) {
            Some(x) => Ok(Record::Remove(x)),
            None => Err(ParseError::InvalidId),
        }
    } else {
        let mut segs = split_all(&v, ',');
        if segs.len() < 2 {
            return Err(ParseError::MissingDelimiter(','));
        }
        let id = match parse_hex_u64(&segs[0]) {
            Some(x) => x,
            None => {
                proof {
                    assert(views_of(segs@)[0] == segs@[0]@);
                }
                return Err(ParseError::InvalidId);
            },
        };
        proof {
            assert(views_of(segs@)[0] == segs@[0]@);
        }
        let ghost whole = views_of(segs@);
        segs.remove(0);
        proof {
            assert(views_of(segs@) =~~= whole.skip(1));
        }
        if id == 0 && segs.len() == 1 {
            proof {
                assert(views_of(segs@)[0] == segs@[0]@);
                assert(whole[1] == segs@[0]@);
            }
            match split_at_first(&segs[0], '=') {
                None => Err(ParseError::MissingDelimiter('=')),
                Some((n, val)) => {
                    if chars_eq_str(&n, "Event") {
                        match decode_event_exec(&val) {
                            Ok(e) => Ok(Record::Event(e)),
                            Err(e) => Err(e),
                        }
                    } else {
                        match gp_kind_exec(&n) {
                            Some(k) => {
                                let g = GlobalProperty { kind: k, value: unescape_string(&val) };
                                proof {
                                    assert(g@ =~= decode_line(
                                        line@,
                                    )->Ok_0->GlobalProperty_0);
                                }
                                Ok(Record::GlobalProperty(g))
                            },
                            None => decode_update_exec(id, &segs),
                        }
                    }
                },
            }
        } else {
            decode_update_exec(id, &segs)
        }
    }
}

/// Checks the two stream header lines: the fixed format tag, then a
/// version line naming some 2.x version.
pub fn validate_header(first: &str, second: &str) -> (r: Result<(), ParseError>)
    ensures
        r is Ok <==> (first@ == "FileType=text/acmi/tacview"@ && second@.len() >= 14 && second@.take(
            14,
        ) == "FileVersion=2."@ && dec_ok(second@.skip(14))),
        r is Err ==> (r->Err_0 == ParseError::InvalidFileType <==> first@
            != "FileType=text/acmi/tacview"@),
{
    let fv = str_to_chars(first);
    if !chars_eq_str(&fv, "FileType=text/acmi/tacview") {
        return Err(ParseError::InvalidFileType);
    }
    let sv = str_to_chars(second);
    if sv.len() < 14 {
        return Err(ParseError::InvalidVersion);
    }
    let pre = copy_range(&sv, 0, 14);
    let rest = copy_range(&sv, 14, sv.len());
    proof {
        assert(pre@ =~= second@.take(14));
        assert(rest@ =~= second@.skip(14));
    }
    if chars_eq_str(&pre, "FileVersion=2.") && is_dec_text(&rest) {
        Ok(())
    } else {
        Err(ParseError::InvalidVersion)
    }
}

/// Nonempty decimal-digit text, as the minor version after `2.` must be.
fn is_dec_text(v: &Vec<char>) -> (b: bool)
    ensures
        b == dec_ok(v@),
{
    if v.len() == 0 {
        return false;
    }
    let mut i: usize = 0;
    while i < v.len()
        invariant
            0 <= i <= v.len(),
            v@.len() > 0,
            forall|j: int| 0 <= j < i ==> is_dec_digit(#[trigger] v@[j]),
        decreases v.len() - i,
    {
        match char_digit(v[i]) {
            Some(d) => {
                if d >= 10 {
                    return false;
                }
            },
            None => {
                return false;
            },
        }
        i += 1;
    }
    true
}

// ---------------------------------------------------------------------------
// Decoding inverts encoding
// ---------------------------------------------------------------------------

proof fn lemma_gp_name_facts(k: GlobalPropertyKind)
    ensures
        gp_kind_of_name(gp_name(k)) == Some(k),
        gp_name(k) != "Event"@,
        gp_name(k) != "T"@,
        gp_name(k).len() >= 1,
        forall|i: int|
            0 <= i < gp_name(k).len() ==> #[trigger] gp_name(k)[i] != '=' && gp_name(k)[i] != ','
                && gp_name(k)[i] != '\\',
{
    reveal_strlit("Title");
    reveal_strlit("Category");
    reveal_strlit("Author");
    reveal_strlit("ReferenceTime");
    reveal_strlit("RecordingTime");
    reveal_strlit("Briefing");
    reveal_strlit("Debriefing");
    reveal_strlit("Comments");
    reveal_strlit("DataSource");
    reveal_strlit("DataRecorder");
    reveal_strlit("Event");
    reveal_strlit("T");
    assert("Title"@[0] == 'T');
    assert("Event"@[0] == 'E');
    assert("Category"@[0] == 'C');
    assert("Category"@[1] == 'a');
    assert("Briefing"@[0] == 'B');
    assert("Comments"@[0] == 'C');
    assert("Comments"@[1] == 'o');
    assert("ReferenceTime"@[2] == 'f');
    assert("RecordingTime"@[2] == 'c');
    assert("Debriefing"@[1] == 'e');
    assert("DataSource"@[1] == 'a');
    match k {
        GlobalPropertyKind::Title => {
            assert(gp_name(k) == "Title"@);
        },
        GlobalPropertyKind::Category => {
            assert(gp_name(k) == "Category"@);
        },
        GlobalPropertyKind::Author => {
            assert(gp_name(k) == "Author"@);
        },
        GlobalPropertyKind::ReferenceTime => {
            assert(gp_name(k) == "ReferenceTime"@);
        },
        GlobalPropertyKind::RecordingTime => {
            assert(gp_name(k) == "RecordingTime"@);
        },
        GlobalPropertyKind::Briefing => {
            assert(gp_name(k) == "Briefing"@);
        },
        GlobalPropertyKind::Debriefing => {
            assert(gp_name(k) == "Debriefing"@);
        },
        GlobalPropertyKind::Comments => {
            assert(gp_name(k) == "Comments"@);
        },
        GlobalPropertyKind::DataSource => {
            assert(gp_name(k) == "DataSource"@);
        },
        GlobalPropertyKind::DataRecorder => {
            assert(gp_name(k) == "DataRecorder"@);
        },
    }
}

proof fn lemma_event_name_facts(k: EventKind)
    ensures
        event_kind_of_name(event_kind_name(k)) == Some(k),
        forall|i: int|
            0 <= i < event_kind_name(k).len() ==> !is_reserved(#[trigger] event_kind_name(k)[i]),
{
    reveal_strlit("Destroyed");
    reveal_strlit("LeftArea");
    reveal_strlit("Timeout");
}

/// The canonical hexadecimal numeral is clean for the comma split and
/// reads back as the number.
proof fn lemma_hex_seg(n: nat)
    ensures
        esc_clean(hex_seq(n), ','),
        hex_ok(hex_seq(n)),
        hex_val(hex_seq(n)) == n,
        is_hex_digit(hex_seq(n)[0]),
{
    lemma_hex_seq_digits(n);
    lemma_hex_val_inverse(n);
    assert forall|i: int| 0 <= i < hex_seq(n).len() implies #[trigger] hex_seq(n)[i] != ','
        && hex_seq(n)[i] != '\\' by {
        assert(is_hex_digit(hex_seq(n)[i]));
    }
    lemma_clean_chars(hex_seq(n), ',');
}

/// A rendered coordinate member is clean for either delimiter.
proof fn lemma_coord_clean(v: int, d: char)
    requires
        d == ',' || d == '|',
    ensures
        esc_clean(coord_seq(v), d),
{
    lemma_coord_seq_chars(v);
    assert forall|i: int| 0 <= i < coord_seq(v).len() implies #[trigger] coord_seq(v)[i] != d
        && coord_seq(v)[i] != '\\' by {
        if is_dec_digit(coord_seq(v)[i]) {
        }
    }
    lemma_clean_chars(coord_seq(v), d);
}

/// Text free of reserved characters is clean for either delimiter.
proof fn lemma_plain_text_clean(s: Seq<char>, d: char)
    requires
        is_reserved(d),
        forall|i: int| 0 <= i < s.len() ==> !is_reserved(#[trigger] s[i]),
    ensures
        esc_clean(s, d),
{
    assert forall|i: int| 0 <= i < s.len() implies #[trigger] s[i] != d && s[i] != '\\' by {
        assert(!is_reserved(s[i]));
    }
    lemma_clean_chars(s, d);
}

/// The positional field is clean for the comma split.
proof fn lemma_coords_field_clean(c: CoordsV)
    ensures
        esc_clean(coords_field(c), ','),
{
    reveal_strlit("T");
    assert forall|i: int| 0 <= i < coord_field_segs(c).len() implies esc_clean(
        #[trigger] coord_field_segs(c)[i],
        ',',
    ) by {
        assert(coord_field_segs(c)[i] == coord_seq(c.fields[i]));
        lemma_coord_clean(c.fields[i], ',');
    }
    lemma_join_clean(coord_field_segs(c), '|', ',');
    assert forall|i: int| 0 <= i < "T"@.len() implies #[trigger] "T"@[i] != ',' && "T"@[i]
        != '\\' by {}
    lemma_clean_chars("T"@, ',');
    assert(esc_clean(seq!['='], ',')) by {
        reveal_with_fuel(esc_clean, 2);
        assert(seq!['='].skip(1) =~= Seq::<char>::empty());
    }
    lemma_clean_concat("T"@, seq!['='], ',');
    lemma_clean_concat("T"@ + seq!['='], join_with(coord_field_segs(c), '|'), ',');
    assert(coords_field(c) =~= ("T"@ + seq!['=']) + join_with(coord_field_segs(c), '|'));
}

/// A property field is clean for the comma split.
proof fn lemma_prop_field_clean(p: PropertyV)
    requires
        p.well_formed(),
    ensures
        esc_clean(prop_field(p), ','),
{
    assert forall|i: int| 0 <= i < p.name.len() implies #[trigger] p.name[i] != ','
        && p.name[i] != '\\' by {
        assert(!is_reserved(p.name[i]));
    }
    lemma_clean_chars(p.name, ',');
    assert(esc_clean(seq!['='], ',')) by {
        reveal_with_fuel(esc_clean, 2);
        assert(seq!['='].skip(1) =~= Seq::<char>::empty());
    }
    lemma_escape_clean(p.value, ',');
    lemma_clean_concat(p.name, seq!['='], ',');
    lemma_clean_concat(p.name + seq!['='], escape_seq(p.value), ',');
    assert(prop_field(p) =~= (p.name + seq!['=']) + escape_seq(p.value));
}

/// A field of shape `name=rest`, with no `=` in the name, splits back
/// into the name and the rest.
proof fn lemma_field_split(name: Seq<char>, rest: Seq<char>)
    requires
        forall|i: int| 0 <= i < name.len() ==> #[trigger] name[i] != '=',
    ensures
        split_once_at(name + seq!['='] + rest, '=') == Some((name, rest)),
{
    let f = name + seq!['='] + rest;
    assert(f[name.len() as int] == '=');
    assert forall|j: int| 0 <= j < name.len() implies f[j] != '=' by {
        assert(f[j] == name[j]);
    }
    lemma_find_char_is(f, '=', name.len() as int);
    assert(f.take(name.len() as int) =~= name);
    assert(f.skip(name.len() as int + 1) =~= rest);
}

/// Reading back rendered property fields yields the properties.
proof fn lemma_decode_props_inverse(props: Seq<PropertyV>)
    requires
        crate::record::props_well_formed(props),
    ensures
        decode_props(props.map_values(|p: PropertyV| prop_field(p))) == Ok::<Seq<PropertyV>, ParseError>(props),
    decreases props.len(),
{
    let fs = props.map_values(|p: PropertyV| prop_field(p));
    if props.len() == 0 {
        assert(fs =~= Seq::<Seq<char>>::empty());
        assert(props =~= Seq::<PropertyV>::empty());
    } else {
        let p0 = props[0];
        assert(fs[0] == prop_field(p0));
        lemma_field_split(p0.name, escape_seq(p0.value));
        lemma_unescape_escape(p0.value);
        assert(decode_field(fs[0]) == Ok::<PropertyV, ParseError>(
            PropertyV { name: p0.name, value: p0.value },
        ));
        assert(PropertyV { name: p0.name, value: p0.value } =~= p0);
        assert forall|i: int| 0 <= i < props.skip(1).len() implies (#[trigger] props.skip(
            1,
        )[i]).well_formed() by {
            assert(props.skip(1)[i] == props[i + 1]);
        }
        lemma_decode_props_inverse(props.skip(1));
        assert(fs.skip(1) =~~= props.skip(1).map_values(|p: PropertyV| prop_field(p)));
        assert(seq![p0] + props.skip(1) =~= props);
    }
}

/// Reading back a rendered positional value yields the coordinates.
proof fn lemma_decode_coords_inverse(c: CoordsV)
    requires
        c.well_formed(),
    ensures
        decode_coords(join_with(coord_field_segs(c), '|')) == Ok::<CoordsV, ParseError>(c),
{
    let segs = coord_field_segs(c);
    assert forall|i: int| 0 <= i < segs.len() implies esc_clean(#[trigger] segs[i], '|') by {
        assert(segs[i] == coord_seq(c.fields[i]));
        lemma_coord_clean(c.fields[i], '|');
    }
    lemma_split_join(segs, '|');
    assert forall|i: int| 0 <= i < segs.len() implies coord_val(#[trigger] segs[i]) == Some(
        c.fields[i],
    ) by {
        assert(segs[i] == coord_seq(c.fields[i]));
        lemma_coord_roundtrip(c.fields[i]);
    }
    assert(Seq::new(segs.len(), |i: int| coord_val(segs[i])->Some_0) =~= c.fields);
    assert(CoordsV { fields: Seq::new(segs.len(), |i: int| coord_val(segs[i])->Some_0) } =~= c);
}

/// A line of shape `0,field` splits into those two parts and carries
/// object id 0.
proof fn lemma_zero_line(field: Seq<char>)
    requires
        esc_clean(field, ','),
    ensures
        crate::text::split_esc(seq!['0', ','] + field, ',') == seq![seq!['0'], field],
        hex_ok(seq!['0']),
        hex_val(seq!['0']) == 0,
{
    let segs = seq![seq!['0'], field];
    assert(esc_clean(seq!['0'], ',')) by {
        reveal_with_fuel(esc_clean, 2);
        assert(seq!['0'].skip(1) =~= Seq::<char>::empty());
    }
    lemma_split_join(segs, ',');
    assert(join_with(segs, ',') == seq!['0'] + seq![','] + join_with(segs.skip(1), ','));
    assert(segs.skip(1) =~= seq![field]);
    assert(join_with(seq![field], ',') == field);
    assert(seq!['0', ','] + field =~= seq!['0'] + seq![','] + field);
    assert(hex_seq(0) =~= seq!['0']);
    lemma_hex_seg(0);
}

proof fn lemma_rt_frame(r: RecordV)
    requires
        r.well_formed(),
        r is Frame,
    ensures
        decode_line(encode_record(r)) == Ok::<RecordV, ParseError>(r),
{
    match r {
        RecordV::Frame(t) => {
            let s = encode_record(r);
            assert(s[0] == '#');
            assert(s.skip(1) =~= frame_seq(t as nat));
            lemma_frame_roundtrip(t as nat);
        },
        _ => {},
    }
}

proof fn lemma_rt_remove(r: RecordV)
    requires
        r.well_formed(),
        r is Remove,
    ensures
        decode_line(encode_record(r)) == Ok::<RecordV, ParseError>(r),
{
    match r {
        RecordV::Remove(id) => {
            let s = encode_record(r);
            lemma_hex_seg(id as nat);
            assert(s[0] == '-');
            assert(hex_seq(id as nat)[0] != '#') by {
                assert(is_hex_digit(hex_seq(id as nat)[0]));
            }
            assert(s[0] != '#');
            assert(s.skip(1) =~= hex_seq(id as nat));
        },
        _ => {},
    }
}

proof fn lemma_rt_global(r: RecordV)
    requires
        r.well_formed(),
        r is GlobalProperty,
    ensures
        decode_line(encode_record(r)) == Ok::<RecordV, ParseError>(r),
{
    match r {
        RecordV::GlobalProperty(g) => {
            let s = encode_record(r);
            let field = gp_name(g.kind) + seq!['='] + escape_seq(g.value);
            lemma_gp_name_facts(g.kind);
            assert forall|i: int| 0 <= i < gp_name(g.kind).len() implies #[trigger] gp_name(
                g.kind,
            )[i] != ',' && gp_name(g.kind)[i] != '\\' by {}
            lemma_clean_chars(gp_name(g.kind), ',');
            assert(esc_clean(seq!['='], ',')) by {
                reveal_with_fuel(esc_clean, 2);
                assert(seq!['='].skip(1) =~= Seq::<char>::empty());
            }
            lemma_escape_clean(g.value, ',');
            lemma_clean_concat(gp_name(g.kind), seq!['='], ',');
            lemma_clean_concat(gp_name(g.kind) + seq!['='], escape_seq(g.value), ',');
            assert(field =~= (gp_name(g.kind) + seq!['=']) + escape_seq(g.value));
            lemma_zero_line(field);
            assert(s =~= seq!['0', ','] + field);
            assert(s[0] == '0');
            assert(s[0] != '#' && s[0] != '-');
            let segs = crate::text::split_esc(s, ',');
            assert(segs == seq![seq!['0'], field]);
            assert(segs[0] == seq!['0']);
            assert(segs.len() == 2);
            lemma_field_split(gp_name(g.kind), escape_seq(g.value));
            assert(segs[1] == field);
            lemma_unescape_escape(g.value);
            assert(GlobalPropertyV { kind: g.kind, value: unescape_seq(escape_seq(g.value)) }
                =~= g);
        },
        _ => {},
    }
}

#[verifier::rlimit(60)]
proof fn lemma_rt_event(r: RecordV)
    requires
        r.well_formed(),
        r is Event,
    ensures
        decode_line(encode_record(r)) == Ok::<RecordV, ParseError>(r),
{
    match r {
        RecordV::Event(e) => {
            let s = encode_record(r);
            let body = join_with(event_segs(e), '|');
            let field = "Event"@ + seq!['='] + body;
            reveal_strlit("Event");
            lemma_event_name_facts(e.kind);
            // the event body is clean for the comma split
            assert forall|i: int| 0 <= i < event_segs(e).len() implies esc_clean(
                #[trigger] event_segs(e)[i],
                ',',
            ) by {
                if i == 0 {
                    lemma_plain_text_clean(event_kind_name(e.kind), ',');
                } else if i < 1 + e.params.len() {
                    assert(event_segs(e)[i] == e.params[i - 1]);
                    assert(ok_event_text(e.params[i - 1]));
                    lemma_plain_text_clean(e.params[i - 1], ',');
                } else {
                    assert(event_segs(e)[i] == e.text->Some_0);
                    lemma_plain_text_clean(e.text->Some_0, ',');
                }
            }
            lemma_join_clean(event_segs(e), '|', ',');
            assert forall|i: int| 0 <= i < "Event"@.len() implies #[trigger] "Event"@[i] != ','
                && "Event"@[i] != '\\' by {}
            lemma_clean_chars("Event"@, ',');
            assert(esc_clean(seq!['='], ',')) by {
                reveal_with_fuel(esc_clean, 2);
                assert(seq!['='].skip(1) =~= Seq::<char>::empty());
            }
            lemma_clean_concat("Event"@, seq!['='], ',');
            lemma_clean_concat("Event"@ + seq!['='], body, ',');
            assert(field =~= ("Event"@ + seq!['=']) + body);
            lemma_zero_line(field);
            assert(s =~= seq!['0', ','] + field);
            assert(s[0] == '0');
            assert(s[0] != '#' && s[0] != '-');
            let segs = crate::text::split_esc(s, ',');
            assert(segs == seq![seq!['0'], field]);
            assert(segs.len() == 2);
            assert forall|i: int| 0 <= i < "Event"@.len() implies #[trigger] "Event"@[i]
                != '=' by {}
            lemma_field_split("Event"@, body);
            // the body splits back into the event members
            assert forall|i: int| 0 <= i < event_segs(e).len() implies esc_clean(
                #[trigger] event_segs(e)[i],
                '|',
            ) by {
                if i == 0 {
                    lemma_plain_text_clean(event_kind_name(e.kind), '|');
                } else if i < 1 + e.params.len() {
                    assert(event_segs(e)[i] == e.params[i - 1]);
                    lemma_plain_text_clean(e.params[i - 1], '|');
                } else {
                    assert(event_segs(e)[i] == e.text->Some_0);
                    lemma_plain_text_clean(e.text->Some_0, '|');
                }
            }
            lemma_split_join(event_segs(e), '|');
            let bsegs = crate::text::split_esc(body, '|');
            assert(bsegs == event_segs(e));
            assert(bsegs[0] == event_kind_name(e.kind));
            let ar = event_arity(e.kind);
            assert(e.params.len() == ar);
            match e.text {
                None => {
                    assert(bsegs.len() == 1 + ar);
                    assert(bsegs.subrange(1, 1 + ar) =~= e.params);
                    assert(EventV { kind: e.kind, params: bsegs.subrange(1, 1 + ar), text: None }
                        =~= e);
                },
                Some(t) => {
                    assert(bsegs.len() == 2 + ar);
                    assert(bsegs.subrange(1, 1 + ar) =~= e.params);
                    assert(bsegs[1 + ar] == t);
                    assert(EventV {
                        kind: e.kind,
                        params: bsegs.subrange(1, 1 + ar),
                        text: Some(t),
                    } =~= e);
                },
            }
        },
        _ => {},
    }
}

#[verifier::rlimit(60)]
proof fn lemma_rt_update(r: RecordV)
    requires
        r.well_formed(),
        r is Update,
    ensures
        decode_line(encode_record(r)) == Ok::<RecordV, ParseError>(r),
{
    match r {
        RecordV::Update(u) => {
            let s = encode_record(r);
            let fields = update_fields(u);
            lemma_hex_seg(u.id as nat);
            assert forall|i: int| 0 <= i < fields.len() implies esc_clean(
                #[trigger] fields[i],
                ',',
            ) by {
                if i == 0 {
                    assert(fields[0] == hex_seq(u.id as nat));
                } else if u.coords is Some && i == 1 {
                    assert(fields[1] == coords_field(u.coords->Some_0));
                    lemma_coords_field_clean(u.coords->Some_0);
                } else {
                    let base: int = if u.coords is Some { 2 } else { 1 };
                    assert(fields[i] == prop_field(u.props[i - base]));
                    lemma_prop_field_clean(u.props[i - base]);
                }
            }
            lemma_split_join(fields, ',');
            assert(s == join_with(fields, ','));
            assert(fields.len() >= 2);
            // the first character of the line is the leading hex digit
            assert(s =~= fields[0] + seq![','] + join_with(fields.skip(1), ',')) by {
                assert(join_with(fields, ',') == fields[0] + seq![','] + join_with(
                    fields.skip(1),
                    ',',
                ));
            }
            assert(s[0] == hex_seq(u.id as nat)[0]);
            assert(is_hex_digit(s[0]));
            assert(s[0] != '#' && s[0] != '-');
            assert(s.len() > 0);
            let segs = crate::text::split_esc(s, ',');
            assert(segs == fields);
            assert(segs[0] == hex_seq(u.id as nat));
            assert(hex_val(segs[0]) == u.id);
            assert(u.id != 0);
            let fs = segs.skip(1);
            assert(fs.len() >= 1);
            match u.coords {
                Some(c) => {
                    reveal_strlit("T");
                    assert(fs[0] == coords_field(c));
                    assert(coords_field(c) =~= "T"@ + seq!['='] + join_with(
                        coord_field_segs(c),
                        '|',
                    ));
                    assert forall|i: int| 0 <= i < "T"@.len() implies #[trigger] "T"@[i]
                        != '=' by {}
                    lemma_field_split("T"@, join_with(coord_field_segs(c), '|'));
                    lemma_decode_coords_inverse(c);
                    lemma_decode_props_inverse(u.props);
                    assert(fs.skip(1) =~~= u.props.map_values(|p: PropertyV| prop_field(p)));
                    assert(UpdateV { id: u.id, coords: Some(c), props: u.props } =~= u);
                },
                None => {
                    assert(fs[0] == prop_field(u.props[0]));
                    assert(u.props.len() >= 1);
                    let p0 = u.props[0];
                    lemma_field_split(p0.name, escape_seq(p0.value));
                    assert(fs[0] =~= p0.name + seq!['='] + escape_seq(p0.value));
                    assert(p0.name != "T"@);
                    lemma_decode_props_inverse(u.props);
                    assert(fs =~~= u.props.map_values(|p: PropertyV| prop_field(p)));
                    assert(UpdateV { id: u.id, coords: None, props: u.props } =~= u);
                },
            }
        },
        _ => {},
    }
}

/// Decoding inverts encoding: reading back the rendered line of any
/// well-formed record yields that record.
pub proof fn lemma_round_trip(r: RecordV)
    requires
        r.well_formed(),
    ensures
        decode_line(encode_record(r)) == Ok::<RecordV, ParseError>(r),
{
    match r {
        RecordV::Frame(t) => lemma_rt_frame(r),
        RecordV::Remove(id) => lemma_rt_remove(r),
        RecordV::GlobalProperty(g) => lemma_rt_global(r),
        RecordV::Event(e) => lemma_rt_event(r),
        RecordV::Update(u) => lemma_rt_update(r),
    }
}

} // verus!
