use tacview_stream::codec::encode_record_string;
use tacview_stream::parser::{decode_line_str, validate_header, ParseError};
use tacview_stream::record::{
    Coords, Event, EventKind, GlobalProperty, GlobalPropertyKind, Property, PropertyList, Record,
    Update,
};
use tacview_stream::writer::Writer;

fn coords(lon: i64, lat: i64, alt: i64) -> Coords {
    Coords::new(lon, lat, alt)
}

#[test]
fn scenario_metadata_lines() {
    let title = Record::GlobalProperty(GlobalProperty {
        kind: GlobalPropertyKind::Title,
        value: "Demo".to_string(),
    });
    assert_eq!(encode_record_string(&title), "0,Title=Demo");
    let rt = Record::GlobalProperty(GlobalProperty {
        kind: GlobalPropertyKind::ReferenceTime,
        value: "2024-01-01T00:00:00Z".to_string(),
    });
    assert_eq!(
        encode_record_string(&rt),
        "0,ReferenceTime=2024-01-01T00:00:00Z"
    );
}

#[test]
fn scenario_coords_trimming() {
    // object 0x42 renders as hex "42"; whole-unit fields drop the fraction
    let u = Record::Update(Update {
        id: 0x42,
        coords: Some(coords(1000, 2000, 100000)),
        props: PropertyList(Vec::new()),
    });
    assert_eq!(encode_record_string(&u), "42,T=10|20|1000");
}

#[test]
fn coords_fractions_render() {
    let u = Record::Update(Update {
        id: 1,
        coords: Some(coords(1050, -25, 12)),
        props: PropertyList(Vec::new()),
    });
    assert_eq!(encode_record_string(&u), "1,T=10.5|-0.25|0.12");
}

#[test]
fn frame_renders_two_decimals() {
    assert_eq!(encode_record_string(&Record::Frame(0)), "#0.00");
    assert_eq!(encode_record_string(&Record::Frame(1234)), "#12.34");
}

#[test]
fn remove_renders_hex() {
    assert_eq!(encode_record_string(&Record::Remove(0x2a)), "-2a");
    assert_eq!(encode_record_string(&Record::Remove(0)), "-0");
}

#[test]
fn event_renders_pipes() {
    let e = Record::Event(Event {
        kind: EventKind::Destroyed,
        params: vec!["42".to_string()],
        text: None,
    });
    assert_eq!(encode_record_string(&e), "0,Event=Destroyed|42");
    let e2 = Record::Event(Event {
        kind: EventKind::LeftArea,
        params: vec!["7".to_string()],
        text: Some("gone".to_string()),
    });
    assert_eq!(encode_record_string(&e2), "0,Event=LeftArea|7|gone");
}

#[test]
fn escaping_survives_round_trip() {
    let r = Record::Update(Update {
        id: 5,
        coords: None,
        props: PropertyList(vec![Property {
            name: "Name".to_string(),
            value: "a,b\\c|d".to_string(),
        }]),
    });
    let line = encode_record_string(&r);
    assert_eq!(line, "5,Name=a\\,b\\\\c\\|d");
    let back = decode_line_str(&line).unwrap();
    assert_eq!(back, r);
}

#[test]
fn round_trip_update_with_coords_and_props() {
    let r = Record::Update(Update {
        id: 0xdeadbeef,
        coords: Some(coords(-123456, 654321, 50)),
        props: PropertyList(vec![
            Property {
                name: "Type".to_string(),
                value: "Air+FixedWing".to_string(),
            },
            Property {
                name: "Name".to_string(),
                value: "Bandit 1".to_string(),
            },
        ]),
    });
    let line = encode_record_string(&r);
    let back = decode_line_str(&line).unwrap();
    assert_eq!(back, r);
}

#[test]
fn round_trip_all_kinds() {
    let records = vec![
        Record::Frame(987654),
        Record::Remove(u64::MAX),
        Record::GlobalProperty(GlobalProperty {
            kind: GlobalPropertyKind::Comments,
            value: "pipes | and, commas".to_string(),
        }),
        Record::Event(Event {
            kind: EventKind::Timeout,
            params: vec!["9".to_string()],
            text: None,
        }),
    ];
    for r in records {
        let line = encode_record_string(&r);
        assert_eq!(decode_line_str(&line).unwrap(), r);
    }
}

#[test]
fn decode_frame_and_remove() {
    assert_eq!(decode_line_str("#12.34").unwrap(), Record::Frame(1234));
    assert_eq!(decode_line_str("#7").unwrap(), Record::Frame(700));
    assert_eq!(decode_line_str("-2a").unwrap(), Record::Remove(0x2a));
}

#[test]
fn decode_error_conditions() {
    assert_eq!(decode_line_str(""), Err(ParseError::Eol));
    assert_eq!(decode_line_str("#abc"), Err(ParseError::InvalidNumeric));
    assert_eq!(decode_line_str("-zz"), Err(ParseError::InvalidId));
    assert_eq!(decode_line_str("zz,T=1|2|3"), Err(ParseError::InvalidId));
    assert_eq!(
        decode_line_str("justtext"),
        Err(ParseError::MissingDelimiter(','))
    );
    assert_eq!(
        decode_line_str("5,noequals"),
        Err(ParseError::MissingDelimiter('='))
    );
    assert_eq!(
        decode_line_str("5,T=1|2"),
        Err(ParseError::InvalidCoordinateFormat)
    );
    assert_eq!(
        decode_line_str("5,T=1|x|3"),
        Err(ParseError::InvalidCoordinateFormat)
    );
    assert_eq!(
        decode_line_str("0,Event=Nope|1"),
        Err(ParseError::InvalidEvent)
    );
    assert_eq!(
        decode_line_str("0,Event=Destroyed|1|t|extra"),
        Err(ParseError::InvalidEvent)
    );
}

#[test]
fn header_validation() {
    assert!(validate_header("FileType=text/acmi/tacview", "FileVersion=2.2").is_ok());
    assert!(validate_header("FileType=text/acmi/tacview", "FileVersion=2.1").is_ok());
    assert_eq!(
        validate_header("FileType=bogus", "FileVersion=2.2"),
        Err(ParseError::InvalidFileType)
    );
    assert_eq!(
        validate_header("FileType=text/acmi/tacview", "FileVersion=3.0"),
        Err(ParseError::InvalidVersion)
    );
    assert_eq!(
        validate_header("FileType=text/acmi/tacview", "bogus"),
        Err(ParseError::InvalidVersion)
    );
    // a bare "2." or a non-numeric minor version is no 2.x version
    assert_eq!(
        validate_header("FileType=text/acmi/tacview", "FileVersion=2."),
        Err(ParseError::InvalidVersion)
    );
    assert_eq!(
        validate_header("FileType=text/acmi/tacview", "FileVersion=2.x"),
        Err(ParseError::InvalidVersion)
    );
}

#[test]
fn writer_emits_header_and_lines() {
    let mut w = Writer::new(String::new());
    w.write(&Record::Frame(0));
    let out = w.into_inner();
    assert_eq!(out, "FileType=text/acmi/tacview\nFileVersion=2.2\n#0.00\n");
    let mut w2 = Writer::new_empty(String::new());
    w2.write(&Record::Remove(1));
    assert_eq!(w2.into_inner(), "-1\n");
}

#[test]
fn global_property_decodes_by_name() {
    let back = decode_line_str("0,Author=someone").unwrap();
    assert_eq!(
        back,
        Record::GlobalProperty(GlobalProperty {
            kind: GlobalPropertyKind::Author,
            value: "someone".to_string(),
        })
    );
}
