use tacview_stream::record::{Coords, Property, PropertyList};
use tacview_stream::sync::{ObjectNeedSync, SyncEngine, TacviewResource, TrackedObject};

const BANNER: &str = "XtraLib.Stream.0\nTacview.RealTimeTelemetry.0\nHost hoevo\n\0";

fn demo_res() -> TacviewResource {
    TacviewResource {
        title: "Demo".to_string(),
        category: String::new(),
        author: String::new(),
        reference_time: Some("2024-01-01T00:00:00Z".to_string()),
        recording_time: None,
        briefing: String::new(),
        debriefing: String::new(),
        comments: String::new(),
        data_source: String::new(),
        data_recorder: String::new(),
    }
}

fn demo_meta() -> String {
    // one line per field, in order; the absent recording time still
    // renders, with an empty value
    let lines = [
        "0,Title=Demo",
        "0,Category=",
        "0,Author=",
        "0,ReferenceTime=2024-01-01T00:00:00Z",
        "0,RecordingTime=",
        "0,Briefing=",
        "0,Debriefing=",
        "0,Comments=",
        "0,DataSource=",
        "0,DataRecorder=",
    ];
    let mut s = String::new();
    for l in lines.iter() {
        s.push_str(l);
        s.push('\n');
    }
    s
}

fn obj(id: u64, flag: ObjectNeedSync, coords: Coords, props: Vec<Property>) -> TrackedObject {
    TrackedObject {
        id,
        need_sync: flag,
        coords,
        props: PropertyList(props),
    }
}

#[test]
fn scenario_new_connection_full_sync() {
    let res = demo_res();
    let mut eng = SyncEngine::new();
    let hello = eng.on_connected(1, &res);
    assert_eq!(hello, format!("{}{}", BANNER, demo_meta()));

    let objs = vec![obj(
        0x2a,
        ObjectNeedSync::Update,
        Coords::new(1000, 2000, 100000),
        vec![Property {
            name: "Type".to_string(),
            value: "Air".to_string(),
        }],
    )];
    let outs = eng.tick(0, &objs);
    assert_eq!(outs.len(), 1);
    // the metadata went out with the handshake and is not re-sent here
    assert_eq!(outs[0], "#0.00\n2a,T=10|20|1000,Type=Air\n");
}

#[test]
fn scenario_incremental_keeps_full_coords() {
    let res = demo_res();
    let mut eng = SyncEngine::new();
    eng.on_connected(7, &res);
    let first = vec![obj(
        0x42,
        ObjectNeedSync::Spawn,
        Coords::new(1000, 2000, 100000),
        vec![Property {
            name: "Pilot".to_string(),
            value: "X".to_string(),
        }],
    )];
    let outs = eng.tick(0, &first);
    assert_eq!(outs[0], "#0.00\n42,T=10|20|1000,Pilot=X\n");

    // altitude changes to 1200; the incremental pass re-emits the whole
    // T= field but no properties
    let second = vec![obj(
        0x42,
        ObjectNeedSync::Update,
        Coords::new(1000, 2000, 120000),
        vec![Property {
            name: "Pilot".to_string(),
            value: "X".to_string(),
        }],
    )];
    let outs2 = eng.tick(100, &second);
    assert_eq!(outs2[0], "#1.00\n42,T=10|20|1200\n");
}

#[test]
fn full_sync_includes_every_object_exactly_once() {
    let res = demo_res();
    let mut eng = SyncEngine::new();
    eng.on_connected(1, &res);
    let objs = vec![
        obj(
            1,
            ObjectNeedSync::Update,
            Coords::new(100, 200, 300),
            vec![Property {
                name: "Name".to_string(),
                value: "A".to_string(),
            }],
        ),
        obj(
            2,
            ObjectNeedSync::Update,
            Coords::new(400, 500, 600),
            vec![Property {
                name: "Name".to_string(),
                value: "B".to_string(),
            }],
        ),
    ];
    let outs = eng.tick(0, &objs);
    let body = &outs[0];
    assert_eq!(body.matches("1,T=1|2|3,Name=A\n").count(), 1);
    assert_eq!(body.matches("2,T=4|5|6,Name=B\n").count(), 1);
}

#[test]
fn removal_emits_remove_and_event_then_resyncs() {
    let res = demo_res();
    let mut eng = SyncEngine::new();
    eng.on_connected(1, &res);
    let c = || Coords::new(1000, 2000, 100000);
    let props = || {
        vec![Property {
            name: "Pilot".to_string(),
            value: "X".to_string(),
        }]
    };
    eng.tick(0, &vec![obj(0x42, ObjectNeedSync::Spawn, c(), props())]);

    // destroyed: exactly one remove line and one matching event line,
    // with the id decimal in the event parameter
    let outs = eng.tick(100, &vec![obj(0x42, ObjectNeedSync::Destroy, c(), props())]);
    assert_eq!(outs[0], "#1.00\n-42\n0,Event=Destroyed|66\n");

    // absent afterwards: including the object again is a fresh spawn,
    // so the full property set is emitted even under an Update flag
    let outs2 = eng.tick(200, &vec![obj(0x42, ObjectNeedSync::Update, c(), props())]);
    assert_eq!(outs2[0], "#2.00\n42,T=10|20|1000,Pilot=X\n");
}

#[test]
fn left_area_and_timeout_events() {
    let res = demo_res();
    let mut eng = SyncEngine::new();
    eng.on_connected(1, &res);
    let c = || Coords::new(0, 0, 0);
    let outs = eng.tick(
        0,
        &vec![
            obj(5, ObjectNeedSync::LeftArea, c(), vec![]),
            obj(6, ObjectNeedSync::Timeout, c(), vec![]),
        ],
    );
    assert_eq!(outs[0], "#0.00\n-5\n0,Event=LeftArea|5\n-6\n0,Event=Timeout|6\n");
}

#[test]
fn frames_follow_ticks_monotonically() {
    let res = demo_res();
    let mut eng = SyncEngine::new();
    eng.on_connected(1, &res);
    let none: Vec<TrackedObject> = Vec::new();
    let a = eng.tick(100, &none);
    let b = eng.tick(250, &none);
    assert_eq!(a[0], "#1.00\n");
    assert_eq!(b[0], "#2.50\n");
}

#[test]
fn disconnect_discards_state() {
    let res = demo_res();
    let mut eng = SyncEngine::new();
    eng.on_connected(1, &res);
    eng.on_connected(2, &res);
    assert_eq!(eng.connection_ids(), vec![1, 2]);
    eng.on_disconnected(1);
    assert_eq!(eng.connection_ids(), vec![2]);
    let none: Vec<TrackedObject> = Vec::new();
    let outs = eng.tick(0, &none);
    assert_eq!(outs.len(), 1);
}

#[test]
fn reconnect_forces_full_resync() {
    let res = demo_res();
    let mut eng = SyncEngine::new();
    eng.on_connected(1, &res);
    let c = || Coords::new(100, 200, 300);
    let props = || {
        vec![Property {
            name: "Name".to_string(),
            value: "A".to_string(),
        }]
    };
    eng.tick(0, &vec![obj(9, ObjectNeedSync::Spawn, c(), props())]);
    // same peer connects again: its state resets, the next pass is full
    eng.on_connected(1, &res);
    let outs = eng.tick(100, &vec![obj(9, ObjectNeedSync::Update, c(), props())]);
    assert_eq!(outs[0], "#1.00\n9,T=1|2|3,Name=A\n");
}
