//! Canonical text rendering of records: one line per record, fields
//! joined by commas, coordinate and event members joined by pipes,
//! reserved characters escaped inside property values.

use vstd::prelude::*;
use vstd::string::{StrSliceExecFns, StringExecFns};
use crate::record::{
    Coords, CoordsV, Event, EventKind, EventV, GlobalProperty, GlobalPropertyKind, GlobalPropertyV,
    PropertyV, Record, RecordV, Update, UpdateV,
};
use crate::text::{
    coord_seq, dec_seq, digit_char, escape_seq, frame_seq, hex_seq, join_with, lemma_views_push,
    push_char, push_dec_u64, push_escaped, push_hex_u64, str_to_chars, views_of, COORD_LIMIT,
};

verus! {

/// Wire name of a mission-metadata field.
pub open spec fn gp_name(k: GlobalPropertyKind) -> Seq<char> {
    match k {
        GlobalPropertyKind::Title => "Title"@,
        GlobalPropertyKind::Category => "Category"@,
        GlobalPropertyKind::Author => "Author"@,
        GlobalPropertyKind::ReferenceTime => "ReferenceTime"@,
        GlobalPropertyKind::RecordingTime => "RecordingTime"@,
        GlobalPropertyKind::Briefing => "Briefing"@,
        GlobalPropertyKind::Debriefing => "Debriefing"@,
        GlobalPropertyKind::Comments => "Comments"@,
        GlobalPropertyKind::DataSource => "DataSource"@,
        GlobalPropertyKind::DataRecorder => "DataRecorder"@,
    }
}

/// Wire name of an event kind.
pub open spec fn event_kind_name(k: EventKind) -> Seq<char> {
    match k {
        EventKind::Destroyed => "Destroyed"@,
        EventKind::LeftArea => "LeftArea"@,
        EventKind::Timeout => "Timeout"@,
    }
}

/// The rendered coordinate members, in order.
pub open spec fn coord_field_segs(c: CoordsV) -> Seq<Seq<char>> {
    c.fields.map_values(|v: int| coord_seq(v))
}

/// The positional field: `T=` then the pipe-joined coordinate members.
pub open spec fn coords_field(c: CoordsV) -> Seq<char> {
    "T"@ + seq!['='] + join_with(coord_field_segs(c), '|')
}

/// A non-positional field: name, `=`, escaped value.
pub open spec fn prop_field(p: PropertyV) -> Seq<char> {
    p.name + seq!['='] + escape_seq(p.value)
}

/// Every comma-joined field of an update line: the hexadecimal id, the
/// positional field when present, then the property fields in order.
pub open spec fn update_fields(u: UpdateV) -> Seq<Seq<char>> {
    seq![hex_seq(u.id as nat)] + (match u.coords {
        Some(c) => seq![coords_field(c)],
        None => Seq::<Seq<char>>::empty(),
    }) + u.props.map_values(|p: PropertyV| prop_field(p))
}

/// The pipe-joined members of an event field: kind name, parameters,
/// optional trailing text.
pub open spec fn event_segs(e: EventV) -> Seq<Seq<char>> {
    seq![event_kind_name(e.kind)] + e.params + (match e.text {
        Some(t) => seq![t],
        None => Seq::<Seq<char>>::empty(),
    })
}

/// The rendered line of a record, without the terminating newline.
pub open spec fn encode_record(r: RecordV) -> Seq<char> {
    match r {
        RecordV::Frame(t) => seq!['#'] + frame_seq(t as nat),
        RecordV::Remove(id) => seq!['-'] + hex_seq(id as nat),
        RecordV::GlobalProperty(g) => seq!['0', ','] + gp_name(g.kind) + seq!['='] + escape_seq(
            g.value,
        ),
        RecordV::Event(e) => seq!['0', ','] + "Event"@ + seq!['='] + join_with(
            event_segs(e),
            '|',
        ),
        RecordV::Update(u) => join_with(update_fields(u), ','),
    }
}

/// Joining one more segment appends a separator (except before the first
/// segment) and the segment itself.
pub proof fn lemma_join_snoc(segs: Seq<Seq<char>>, d: char, k: int)
    requires
        0 <= k < segs.len(),
    ensures
        join_with(segs.take(k + 1), d) == join_with(segs.take(k), d) + (if k == 0 {
            segs[k]
        } else {
            seq![d] + segs[k]
        }),
    decreases k,
{
    if k == 0 {
        assert(segs.take(1) =~= seq![segs[0]]);
        assert(segs.take(0) =~= Seq::<Seq<char>>::empty());
        assert(join_with(segs.take(1), d) =~= Seq::<char>::empty() + segs[0]);
    } else {
        lemma_join_snoc(segs.skip(1), d, k - 1);
        assert(segs.take(k + 1).skip(1) =~= segs.skip(1).take(k));
        assert(segs.take(k).skip(1) =~= segs.skip(1).take(k - 1));
        assert(segs.take(k + 1)[0] == segs[0]);
        assert(segs.take(k)[0] == segs[0]);
        assert(segs.take(k + 1).len() == k + 1);
        assert(segs.take(k).len() == k);
        assert(segs.skip(1)[k - 1] == segs[k]);
        if k == 1 {
            assert(join_with(segs.take(2), d) == segs[0] + seq![d] + join_with(
                segs.skip(1).take(1),
                d,
            ));
            assert(join_with(segs.skip(1).take(1), d) == Seq::<char>::empty() + segs[1]);
            assert(join_with(segs.take(1), d) == segs[0]);
            assert(join_with(segs.take(2), d) =~= join_with(segs.take(1), d) + (seq![d]
                + segs[1]));
        } else {
            assert(join_with(segs.take(k + 1), d) == segs[0] + seq![d] + join_with(
                segs.skip(1).take(k),
                d,
            ));
            assert(join_with(segs.take(k), d) == segs[0] + seq![d] + join_with(
                segs.skip(1).take(k - 1),
                d,
            ));
            assert(join_with(segs.take(k + 1), d) =~= join_with(segs.take(k), d) + (seq![d]
                + segs[k]));
        }
    }
}

/// Joins the segments with the given separator into a fresh string.
pub fn join_segs(segs: &Vec<Vec<char>>, d: char) -> (s: String)
    requires
        segs.len() >= 1,
    ensures
        s@ == join_with(views_of(segs@), d),
{
    let mut s = String::new();
    let mut k: usize = 0;
    while k < segs.len()
        invariant
            0 <= k <= segs.len(),
            s@ == join_with(views_of(segs@).take(k as int), d),
        decreases segs.len() - k,
    {
        if k > 0 {
            push_char(&mut s, d);
        }
        let mut j: usize = 0;
        let ghost mid = s@;
        while j < segs[k].len()
            invariant
                0 <= j <= segs[k as int].len(),
                k < segs.len(),
                s@ == mid + segs[k as int]@.take(j as int),
            decreases segs[k as int].len() - j,
        {
            push_char(&mut s, segs[k][j]);
            proof {
                assert(segs[k as int]@.take(j + 1 as int) =~= segs[k as int]@.take(j as int).push(
                    segs[k as int]@[j as int],
                ));
                assert(s@ =~= mid + segs[k as int]@.take(j + 1 as int));
            }
            j += 1;
        }
        proof {
            assert(segs[k as int]@.take(segs[k as int]@.len() as int) =~= segs[k as int]@);
            lemma_join_snoc(views_of(segs@), d, k as int);
            assert(views_of(segs@)[k as int] == segs[k as int]@);
            assert(s@ =~= join_with(views_of(segs@).take(k + 1 as int), d));
        }
        k += 1;
    }
    proof {
        assert(views_of(segs@).take(segs@.len() as int) =~~= views_of(segs@));
    }
    s
}

/// Wire name of a mission-metadata field, as a string slice.
pub fn gp_name_str(k: GlobalPropertyKind) -> (s: &'static str)
    ensures
        s@ == gp_name(k),
{
    match k {
        GlobalPropertyKind::Title => "Title",
        GlobalPropertyKind::Category => "Category",
        GlobalPropertyKind::Author => "Author",
        GlobalPropertyKind::ReferenceTime => "ReferenceTime",
        GlobalPropertyKind::RecordingTime => "RecordingTime",
        GlobalPropertyKind::Briefing => "Briefing",
        GlobalPropertyKind::Debriefing => "Debriefing",
        GlobalPropertyKind::Comments => "Comments",
        GlobalPropertyKind::DataSource => "DataSource",
        GlobalPropertyKind::DataRecorder => "DataRecorder",
    }
}

/// Wire name of an event kind, as a string slice.
pub fn event_kind_name_str(k: EventKind) -> (s: &'static str)
    ensures
        s@ == event_kind_name(k),
{
    match k {
        EventKind::Destroyed => "Destroyed",
        EventKind::LeftArea => "LeftArea",
        EventKind::Timeout => "Timeout",
    }
}

/// Appends the two-decimal frame time rendering of `t` centiseconds.
pub fn push_frame(out: &mut String, t: u64)
    ensures
        final(out)@ == old(out)@ + frame_seq(t as nat),
{
    push_dec_u64(out, t / 100);
    push_char(out, '.');
    let f = t % 100;
    push_char(out, digit_to_char_local(f / 10));
    push_char(out, digit_to_char_local(f % 10));
    proof {
        assert(final(out)@ =~= old(out)@ + frame_seq(t as nat));
    }
}

fn digit_to_char_local(d: u64) -> (c: char)
    requires
        d < 16,
    ensures
        c == digit_char(d as int),
{
    crate::text::digit_to_char(d)
}

/// Appends the trimmed fixed-point rendering of a coordinate field.
pub fn push_coord(out: &mut String, v: i64)
    requires
        -COORD_LIMIT <= v <= COORD_LIMIT,
    ensures
        final(out)@ == old(out)@ + coord_seq(v as int),
{
    if v < 0 {
        push_char(out, '-');
        push_coord_nn(out, (-v) as u64);
        proof {
            assert(final(out)@ =~= old(out)@ + coord_seq(v as int));
        }
    } else {
        push_coord_nn(out, v as u64);
    }
}

fn push_coord_nn(out: &mut String, v: u64)
    ensures
        final(out)@ == old(out)@ + crate::text::coord_seq_nn(v as int),
{
    let u = v / 100;
    let f = v % 100;
    push_dec_u64(out, u);
    if f != 0 {
        push_char(out, '.');
        push_char(out, digit_to_char_local(f / 10));
        if f % 10 != 0 {
            push_char(out, digit_to_char_local(f % 10));
        }
    }
    proof {
        assert(final(out)@ =~= old(out)@ + crate::text::coord_seq_nn(v as int));
    }
}

/// Renders one record as its wire line, without the newline.
pub fn encode_record_string(r: &Record) -> (s: String)
    requires
        r@.well_formed(),
    ensures
        s@ == encode_record(r@),
{
    match r {
        Record::Frame(t) => {
            let mut s = String::new();
            push_char(&mut s, '#');
            push_frame(&mut s, *t);
            proof {
                assert(s@ =~= encode_record(r@));
            }
            s
        },
        Record::Remove(id) => {
            let mut s = String::new();
            push_char(&mut s, '-');
            push_hex_u64(&mut s, *id);
            proof {
                assert(s@ =~= encode_record(r@));
            }
            s
        },
        Record::GlobalProperty(g) => {
            let mut s = String::new();
            push_char(&mut s, '0');
            push_char(&mut s, ',');
            s.append(gp_name_str(g.kind));
            push_char(&mut s, '=');
            push_escaped(&mut s, g.value.as_str());
            proof {
                assert(s@ =~= encode_record(r@));
            }
            s
        },
        Record::Event(e) => {
            let mut segs: Vec<Vec<char>> = Vec::new();
            let kn = str_to_chars(event_kind_name_str(e.kind));
            segs.push(kn);
            proof {
                lemma_views_push(Seq::<Vec<char>>::empty(), segs@[0]);
                assert(segs@ =~= Seq::<Vec<char>>::empty().push(segs@[0]));
                assert(views_of(segs@) =~~= event_segs(e@).take(1));
            }
            let mut k: usize = 0;
            while k < e.params.len()
                invariant
                    0 <= k <= e.params.len(),
                    views_of(segs@) == event_segs(e@).take(1 + k as int),
                decreases e.params.len() - k,
            {
                let ghost pre = segs@;
                segs.push(str_to_chars(e.params[k].as_str()));
                proof {
                    lemma_views_push(pre, segs@[pre.len() as int]);
                    assert(event_segs(e@)[1 + k as int] == e.params@[k as int]@);
                    assert(views_of(segs@) =~~= event_segs(e@).take(1 + k as int + 1));
                }
                k += 1;
            }
            match &e.text {
                Some(t) => {
                    let ghost pre = segs@;
                    segs.push(str_to_chars(t.as_str()));
                    proof {
                        lemma_views_push(pre, segs@[pre.len() as int]);
                        assert(event_segs(e@)[1 + e.params@.len() as int] == t@);
                        assert(views_of(segs@) =~~= event_segs(e@));
                    }
                },
                None => {
                    proof {
                        assert(views_of(segs@) =~~= event_segs(e@));
                    }
                },
            }
            let body = join_segs(&segs, '|');
            let mut s = String::new();
            push_char(&mut s, '0');
            push_char(&mut s, ',');
            s.append("Event");
            push_char(&mut s, '=');
            s.append(body.as_str());
            proof {
                assert(s@ =~= encode_record(r@));
            }
            s
        },
        Record::Update(u) => {
            let mut fields: Vec<Vec<char>> = Vec::new();
            let mut ids = String::new();
            push_hex_u64(&mut ids, u.id);
            let idc = str_to_chars(ids.as_str());
            fields.push(idc);
            let ghost base: int = 1 + (if u@.coords is Some {
                1int
            } else {
                0int
            });
            proof {
                lemma_views_push(Seq::<Vec<char>>::empty(), fields@[0]);
                assert(fields@ =~= Seq::<Vec<char>>::empty().push(fields@[0]));
                assert(update_fields(u@)[0] == hex_seq(u@.id as nat));
                assert(views_of(fields@) =~~= update_fields(u@).take(1));
            }
            match &u.coords {
                Some(c) => {
                    let mut csegs: Vec<Vec<char>> = Vec::new();
                    let mut k: usize = 0;
                    while k < c.fields.len()
                        invariant
                            0 <= k <= c.fields.len(),
                            c@.well_formed(),
                            views_of(csegs@) == coord_field_segs(c@).take(k as int),
                        decreases c.fields.len() - k,
                    {
                        let mut ct = String::new();
                        proof {
                            assert(c@.fields[k as int] == c.fields@[k as int] as int);
                        }
                        push_coord(&mut ct, c.fields[k]);
                        let ghost pre = csegs@;
                        csegs.push(str_to_chars(ct.as_str()));
                        proof {
                            lemma_views_push(pre, csegs@[pre.len() as int]);
                            assert(coord_field_segs(c@)[k as int] == coord_seq(
                                c@.fields[k as int],
                            ));
                            assert(views_of(csegs@) =~~= coord_field_segs(c@).take(k as int + 1));
                        }
                        k += 1;
                    }
                    proof {
                        assert(coord_field_segs(c@).take(c@.fields.len() as int) =~~= coord_field_segs(
                            c@,
                        ));
                    }
                    let jt = join_segs(&csegs, '|');
                    let mut f = String::new();
                    push_char(&mut f, 'T');
                    push_char(&mut f, '=');
                    f.append(jt.as_str());
                    proof {
                        reveal_strlit("T");
                        assert(f@ =~= coords_field(c@));
                    }
                    let ghost pre = fields@;
                    fields.push(str_to_chars(f.as_str()));
                    proof {
                        lemma_views_push(pre, fields@[pre.len() as int]);
                        assert(update_fields(u@)[1] == coords_field(c@));
                        assert(views_of(fields@) =~~= update_fields(u@).take(2));
                    }
                },
                None => {},
            }
            let mut k: usize = 0;
            while k < u.props.0.len()
                invariant
                    0 <= k <= u.props.0.len(),
                    u@.well_formed(),
                    u@ == u.view(),
                    base == 1 + (if u@.coords is Some {
                        1int
                    } else {
                        0int
                    }),
                    views_of(fields@) == update_fields(u@).take(base + k as int),
                decreases u.props.0.len() - k,
            {
                let p = &u.props.0[k];
                let mut f = String::new();
                f.append(p.name.as_str());
                push_char(&mut f, '=');
                push_escaped(&mut f, p.value.as_str());
                let ghost pre = fields@;
                fields.push(str_to_chars(f.as_str()));
                proof {
                    lemma_views_push(pre, fields@[pre.len() as int]);
                    assert(u@.props[k as int] == u.props.0@[k as int]@);
                    assert(f@ =~= prop_field(u@.props[k as int]));
                    assert(update_fields(u@)[base + k as int] == prop_field(u@.props[k as int]));
                    assert(views_of(fields@) =~~= update_fields(u@).take(base + k as int + 1));
                }
                k += 1;
            }
            proof {
                assert(update_fields(u@).len() == base + u@.props.len());
                assert(update_fields(u@).take(update_fields(u@).len() as int) =~~= update_fields(
                    u@,
                ));
            }
            let s = join_segs(&fields, ',');
            proof {
                assert(s@ =~= encode_record(r@));
            }
            s
        },
    }
}

} // verus!
