//! Value types for every ACMI wire record kind, together with their ghost
//! models (views) and well-formedness predicates.
//!
//! Times and coordinates are fixed-point values in hundredths of a unit
//! (centiseconds for frame offsets, hundredths of a degree or metre for
//! coordinate fields), so that the text rendering is exact.

use vstd::prelude::*;
use crate::text::{ok_event_text, ok_property_name, ok_property_value, COORD_LIMIT};

verus! {

/// Spatial pose of one object: an ordered list of fixed-point fields
/// (hundredths), pipe-delimited on the wire. The first three fields are
/// longitude, latitude and altitude; optional trailing fields are roll,
/// pitch, yaw and a local offset pair, droppable only as a contiguous
/// suffix.
#[derive(Debug, Clone, PartialEq, Eq)]
pub struct Coords {
    pub fields: Vec<i64>,
}

/// Ghost model of `Coords`: the fields as mathematical integers.
#[verifier::ext_equal]
pub ghost struct CoordsV {
    pub fields: Seq<int>,
}

impl View for Coords {
    type V = CoordsV;

    open spec fn view(&self) -> CoordsV {
        CoordsV { fields: self.fields@.map_values(|x: i64| x as int) }
    }
}

impl CoordsV {
    /// Three mandatory fields, at most eight in all, every field within
    /// the representable magnitude.
    pub open spec fn well_formed(self) -> bool {
        &&& 3 <= self.fields.len() <= 8
        &&& forall|i: int|
            0 <= i < self.fields.len() ==> -(COORD_LIMIT as int) <= #[trigger] self.fields[i]
                <= COORD_LIMIT as int
    }
}

impl Coords {
    /// Longitude, latitude and altitude only, in hundredths.
    pub fn new(lon: i64, lat: i64, alt: i64) -> (c: Coords)
        requires
            -COORD_LIMIT <= lon <= COORD_LIMIT,
            -COORD_LIMIT <= lat <= COORD_LIMIT,
            -COORD_LIMIT <= alt <= COORD_LIMIT,
        ensures
            c@.fields =~= seq![lon as int, lat as int, alt as int],
            c@.well_formed(),
    {
        let fields: Vec<i64> = vec![lon, lat, alt];
        Coords { fields }
    }
}

/// One non-positional attribute of an object: a name/value pair.
#[derive(Debug, Clone, PartialEq, Eq)]
pub struct Property {
    pub name: String,
    pub value: String,
}

/// Ghost model of `Property`.
#[verifier::ext_equal]
pub ghost struct PropertyV {
    pub name: Seq<char>,
    pub value: Seq<char>,
}

impl View for Property {
    type V = PropertyV;

    open spec fn view(&self) -> PropertyV {
        PropertyV { name: self.name@, value: self.value@ }
    }
}

impl PropertyV {
    /// The name is a plain identifier-like token distinct from the
    /// positional slot `T`; the value is any single-line text (reserved
    /// characters are escaped on the wire).
    pub open spec fn well_formed(self) -> bool {
        &&& ok_property_name(self.name)
        &&& self.name != "T"@
        &&& ok_property_value(self.value)
    }
}

/// Ordered list of properties attached to a tracked object; the order is
/// preserved through emission.
#[derive(Debug, Clone, PartialEq, Eq)]
pub struct PropertyList(pub Vec<Property>);

impl View for PropertyList {
    type V = Seq<PropertyV>;

    open spec fn view(&self) -> Seq<PropertyV> {
        self.0@.map_values(|p: Property| p@)
    }
}

pub open spec fn props_well_formed(props: Seq<PropertyV>) -> bool {
    forall|i: int| 0 <= i < props.len() ==> (#[trigger] props[i]).well_formed()
}

/// One object's emitted delta: its 64-bit identifier, its position when
/// included (always first on the wire), then its non-positional properties.
#[derive(Debug, Clone, PartialEq, Eq)]
pub struct Update {
    pub id: u64,
    pub coords: Option<Coords>,
    pub props: PropertyList,
}

/// Ghost model of `Update`.
#[verifier::ext_equal]
pub ghost struct UpdateV {
    pub id: u64,
    pub coords: Option<CoordsV>,
    pub props: Seq<PropertyV>,
}

impl View for Update {
    type V = UpdateV;

    open spec fn view(&self) -> UpdateV {
        UpdateV {
            id: self.id,
            coords: match self.coords {
                Some(c) => Some(c@),
                None => None,
            },
            props: self.props@,
        }
    }
}

impl UpdateV {
    /// Identifier 0 is reserved for metadata/global lines; an update must
    /// carry at least one field.
    pub open spec fn well_formed(self) -> bool {
        &&& self.id != 0
        &&& self.coords is Some || self.props.len() > 0
        &&& self.coords is Some ==> self.coords->Some_0.well_formed()
        &&& props_well_formed(self.props)
    }
}

/// Enumerated mission-metadata fields, each carrying a plain string value;
/// time-valued fields arrive pre-formatted to UTC with seconds precision.
#[derive(Debug, Clone, Copy, PartialEq, Eq, Structural)]
pub enum GlobalPropertyKind {
    Title,
    Category,
    Author,
    ReferenceTime,
    RecordingTime,
    Briefing,
    Debriefing,
    Comments,
    DataSource,
    DataRecorder,
}

/// One mission-metadata record: a kind and its string value; rendered on
/// the wire against the reserved object id 0.
#[derive(Debug, Clone, PartialEq, Eq)]
pub struct GlobalProperty {
    pub kind: GlobalPropertyKind,
    pub value: String,
}

/// Ghost model of `GlobalProperty`.
#[verifier::ext_equal]
pub ghost struct GlobalPropertyV {
    pub kind: GlobalPropertyKind,
    pub value: Seq<char>,
}

impl View for GlobalProperty {
    type V = GlobalPropertyV;

    open spec fn view(&self) -> GlobalPropertyV {
        GlobalPropertyV { kind: self.kind, value: self.value@ }
    }
}

impl GlobalPropertyV {
    pub open spec fn well_formed(self) -> bool {
        ok_property_value(self.value)
    }
}

/// Lifecycle event kinds; each kind has a fixed parameter arity.
#[derive(Debug, Clone, Copy, PartialEq, Eq, Structural)]
pub enum EventKind {
    Destroyed,
    LeftArea,
    Timeout,
}

/// Number of pipe-delimited parameters an event of the given kind carries
/// on the wire (today: the affected object id, for every kind).
pub open spec fn event_arity(kind: EventKind) -> int {
    match kind {
        EventKind::Destroyed => 1,
        EventKind::LeftArea => 1,
        EventKind::Timeout => 1,
    }
}

/// A lifecycle event: its kind, the kind's fixed-arity parameters, and an
/// optional free-text trailer.
#[derive(Debug, Clone, PartialEq, Eq)]
pub struct Event {
    pub kind: EventKind,
    pub params: Vec<String>,
    pub text: Option<String>,
}

/// Ghost model of `Event`.
#[verifier::ext_equal]
pub ghost struct EventV {
    pub kind: EventKind,
    pub params: Seq<Seq<char>>,
    pub text: Option<Seq<char>>,
}

impl View for Event {
    type V = EventV;

    open spec fn view(&self) -> EventV {
        EventV {
            kind: self.kind,
            params: self.params@.map_values(|p: String| p@),
            text: match self.text {
                Some(t) => Some(t@),
                None => None,
            },
        }
    }
}

impl EventV {
    /// Parameters match the kind's arity; parameters and text stay clear of
    /// the delimiters that structure the event field.
    pub open spec fn well_formed(self) -> bool {
        &&& self.params.len() == event_arity(self.kind)
        &&& forall|i: int| 0 <= i < self.params.len() ==> ok_event_text(#[trigger] self.params[i])
        &&& self.text is Some ==> ok_event_text(self.text->Some_0)
    }
}

/// Tagged union over every wire record kind. Frame offsets are in
/// centiseconds from the mission reference time and must be non-decreasing
/// within a stream.
#[derive(Debug, Clone, PartialEq, Eq)]
pub enum Record {
    GlobalProperty(GlobalProperty),
    Frame(u64),
    Update(Update),
    Remove(u64),
    Event(Event),
}

/// Ghost model of `Record`.
#[verifier::ext_equal]
pub ghost enum RecordV {
    GlobalProperty(GlobalPropertyV),
    Frame(u64),
    Update(UpdateV),
    Remove(u64),
    Event(EventV),
}

impl View for Record {
    type V = RecordV;

    open spec fn view(&self) -> RecordV {
        match self {
            Record::GlobalProperty(g) => RecordV::GlobalProperty(g@),
            Record::Frame(t) => RecordV::Frame(*t),
            Record::Update(u) => RecordV::Update(u@),
            Record::Remove(id) => RecordV::Remove(*id),
            Record::Event(e) => RecordV::Event(e@),
        }
    }
}

impl RecordV {
    pub open spec fn well_formed(self) -> bool {
        match self {
            RecordV::GlobalProperty(g) => g.well_formed(),
            RecordV::Frame(_) => true,
            RecordV::Update(u) => u.well_formed(),
            RecordV::Remove(_) => true,
            RecordV::Event(e) => e.well_formed(),
        }
    }
}

} // verus!
