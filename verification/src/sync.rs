//! Per-connection synchronization engine: the handshake on connect, and
//! the per-tick emission pass that decides, for every tracked object and
//! every connection, whether to send a full spawn update, a cheap
//! positional update, or a removal with its lifecycle event.

use vstd::prelude::*;
use vstd::pervasive::VecAdditionalExecFns;
use vstd::string::{StrSliceExecFns, StringExecFns};
use crate::codec::encode_record;
use crate::codec::encode_record_string;
use crate::record::{
    Coords, CoordsV, Event, EventKind, EventV, GlobalProperty, GlobalPropertyKind,
    GlobalPropertyV, Property, PropertyList, PropertyV, Record, RecordV, Update, UpdateV,
};
use crate::text::{
    dec_seq, frame_seq, frame_val, is_dec_digit, is_reserved, lemma_dec_seq_digits,
    lemma_frame_roundtrip, ok_property_value, push_char, push_dec_u64,
};
use crate::codec::push_frame;
use crate::writer::Writer;

verus! {

// ---------------------------------------------------------------------------
// Mission metadata
// ---------------------------------------------------------------------------

/// Mission-wide metadata handed in by the host simulation; time fields
/// arrive pre-formatted to UTC with seconds precision, or absent.
pub struct TacviewResource {
    /// Mission/flight title or designation.
    pub title: String,
    /// Category of the flight/mission.
    pub category: String,
    /// Author or operator who has created this recording.
    pub author: String,
    /// Base UTC time for the mission, combined with each frame offset.
    pub reference_time: Option<String>,
    /// Recording creation UTC time.
    pub recording_time: Option<String>,
    /// Free text containing the briefing of the flight/mission.
    pub briefing: String,
    /// Free text containing the debriefing.
    pub debriefing: String,
    /// Free comments about the flight.
    pub comments: String,
    /// Source simulator, control station or file format.
    pub data_source: String,
    /// Software or hardware used to record the data.
    pub data_recorder: String,
}

/// Ghost model of `TacviewResource`.
#[verifier::ext_equal]
pub ghost struct ResourceV {
    pub title: Seq<char>,
    pub category: Seq<char>,
    pub author: Seq<char>,
    pub reference_time: Option<Seq<char>>,
    pub recording_time: Option<Seq<char>>,
    pub briefing: Seq<char>,
    pub debriefing: Seq<char>,
    pub comments: Seq<char>,
    pub data_source: Seq<char>,
    pub data_recorder: Seq<char>,
}

impl View for TacviewResource {
    type V = ResourceV;

    open spec fn view(&self) -> ResourceV {
        ResourceV {
            title: self.title@,
            category: self.category@,
            author: self.author@,
            reference_time: match self.reference_time {
                Some(ref t) => Some(t@),
                None => None,
            },
            recording_time: match self.recording_time {
                Some(ref t) => Some(t@),
                None => None,
            },
            briefing: self.briefing@,
            debriefing: self.debriefing@,
            comments: self.comments@,
            data_source: self.data_source@,
            data_recorder: self.data_recorder@,
        }
    }
}

impl ResourceV {
    /// Every field is single-line text.
    pub open spec fn well_formed(self) -> bool {
        &&& ok_property_value(self.title)
        &&& ok_property_value(self.category)
        &&& ok_property_value(self.author)
        &&& (self.reference_time is Some ==> ok_property_value(self.reference_time->Some_0))
        &&& (self.recording_time is Some ==> ok_property_value(self.recording_time->Some_0))
        &&& ok_property_value(self.briefing)
        &&& ok_property_value(self.debriefing)
        &&& ok_property_value(self.comments)
        &&& ok_property_value(self.data_source)
        &&& ok_property_value(self.data_recorder)
    }
}

/// One rendered metadata line, newline-terminated.
pub open spec fn gp_line(k: GlobalPropertyKind, v: Seq<char>) -> Seq<char> {
    encode_record(RecordV::GlobalProperty(GlobalPropertyV { kind: k, value: v })) + seq!['\n']
}

/// The text of an optional field: absent means empty.
pub open spec fn opt_text(o: Option<Seq<char>>) -> Seq<char> {
    match o {
        Some(t) => t,
        None => Seq::<char>::empty(),
    }
}

/// The metadata block: one line per field in fixed order; absent or
/// empty fields render with empty values, never as omitted lines.
pub open spec fn meta_lines(r: ResourceV) -> Seq<char> {
    gp_line(GlobalPropertyKind::Title, r.title) + gp_line(GlobalPropertyKind::Category, r.category)
        + gp_line(GlobalPropertyKind::Author, r.author) + gp_line(
        GlobalPropertyKind::ReferenceTime,
        opt_text(r.reference_time),
    ) + gp_line(GlobalPropertyKind::RecordingTime, opt_text(r.recording_time)) + gp_line(
        GlobalPropertyKind::Briefing,
        r.briefing,
    ) + gp_line(GlobalPropertyKind::Debriefing, r.debriefing) + gp_line(
        GlobalPropertyKind::Comments,
        r.comments,
    ) + gp_line(GlobalPropertyKind::DataSource, r.data_source) + gp_line(
        GlobalPropertyKind::DataRecorder,
        r.data_recorder,
    )
}

/// Renders the metadata block: header-free, for the live stream.
#[verifier::rlimit(100)]
pub fn build_meta_data(res: &TacviewResource) -> (s: String)
    requires
        res@.well_formed(),
    ensures
        s@ == meta_lines(res@),
{
    let mut w = Writer::new_empty(String::new());
    w.write(&Record::GlobalProperty(GlobalProperty {
        kind: GlobalPropertyKind::Title,
        value: res.title.clone(),
    }));
    w.write(&Record::GlobalProperty(GlobalProperty {
        kind: GlobalPropertyKind::Category,
        value: res.category.clone(),
    }));
    w.write(&Record::GlobalProperty(GlobalProperty {
        kind: GlobalPropertyKind::Author,
        value: res.author.clone(),
    }));
    let reference = match &res.reference_time {
        Some(t) => t.clone(),
        None => String::new(),
    };
    w.write(&Record::GlobalProperty(GlobalProperty {
        kind: GlobalPropertyKind::ReferenceTime,
        value: reference,
    }));
    let recording = match &res.recording_time {
        Some(t) => t.clone(),
        None => String::new(),
    };
    w.write(&Record::GlobalProperty(GlobalProperty {
        kind: GlobalPropertyKind::RecordingTime,
        value: recording,
    }));
    w.write(&Record::GlobalProperty(GlobalProperty {
        kind: GlobalPropertyKind::Briefing,
        value: res.briefing.clone(),
    }));
    w.write(&Record::GlobalProperty(GlobalProperty {
        kind: GlobalPropertyKind::Debriefing,
        value: res.debriefing.clone(),
    }));
    w.write(&Record::GlobalProperty(GlobalProperty {
        kind: GlobalPropertyKind::Comments,
        value: res.comments.clone(),
    }));
    w.write(&Record::GlobalProperty(GlobalProperty {
        kind: GlobalPropertyKind::DataSource,
        value: res.data_source.clone(),
    }));
    w.write(&Record::GlobalProperty(GlobalProperty {
        kind: GlobalPropertyKind::DataRecorder,
        value: res.data_recorder.clone(),
    }));
    let s = w.into_inner();
    proof {
        assert(s@ =~= meta_lines(res@));
    }
    s
}

// ---------------------------------------------------------------------------
// Handshake banner
// ---------------------------------------------------------------------------

/// The fixed three-line real-time handshake banner, NUL-terminated.
pub open spec fn banner() -> Seq<char> {
    "XtraLib.Stream.0\nTacview.RealTimeTelemetry.0\nHost hoevo\n\u{0}"@
}

/// The banner as literal text.
pub fn real_time_protocol() -> (s: &'static str)
    ensures
        s@ == banner(),
{
    "XtraLib.Stream.0\nTacview.RealTimeTelemetry.0\nHost hoevo\n\u{0}"
}

// ---------------------------------------------------------------------------
// Tracked objects and the per-tick decision
// ---------------------------------------------------------------------------

/// The host's lifecycle flag for one tracked object this tick.
#[derive(Debug, Clone, Copy, PartialEq, Eq, Structural)]
pub enum ObjectNeedSync {
    Spawn,
    Update,
    LeftArea,
    Timeout,
    Destroy,
}

/// The lifecycle event kind a removal flag maps to, if the flag removes
/// the object at all.
pub open spec fn removal_kind(f: ObjectNeedSync) -> Option<EventKind> {
    match f {
        ObjectNeedSync::Destroy => Some(EventKind::Destroyed),
        ObjectNeedSync::LeftArea => Some(EventKind::LeftArea),
        ObjectNeedSync::Timeout => Some(EventKind::Timeout),
        ObjectNeedSync::Spawn => None,
        ObjectNeedSync::Update => None,
    }
}

fn removal_kind_exec(f: ObjectNeedSync) -> (r: Option<EventKind>)
    ensures
        r == removal_kind(f),
{
    match f {
        ObjectNeedSync::Destroy => Some(EventKind::Destroyed),
        ObjectNeedSync::LeftArea => Some(EventKind::LeftArea),
        ObjectNeedSync::Timeout => Some(EventKind::Timeout),
        ObjectNeedSync::Spawn => None,
        ObjectNeedSync::Update => None,
    }
}

/// One tracked object as the host hands it in each tick.
pub struct TrackedObject {
    pub id: u64,
    pub need_sync: ObjectNeedSync,
    pub coords: Coords,
    pub props: PropertyList,
}

/// Ghost model of `TrackedObject`.
#[verifier::ext_equal]
pub ghost struct TrackedObjectV {
    pub id: u64,
    pub need_sync: ObjectNeedSync,
    pub coords: CoordsV,
    pub props: Seq<PropertyV>,
}

impl View for TrackedObject {
    type V = TrackedObjectV;

    open spec fn view(&self) -> TrackedObjectV {
        TrackedObjectV {
            id: self.id,
            need_sync: self.need_sync,
            coords: self.coords@,
            props: self.props@,
        }
    }
}

impl TrackedObjectV {
    pub open spec fn well_formed(self) -> bool {
        &&& self.id != 0
        &&& self.coords.well_formed()
        &&& crate::record::props_well_formed(self.props)
    }
}

/// The snapshot's ghost form.
pub open spec fn snap(objs: Seq<TrackedObject>) -> Seq<TrackedObjectV> {
    objs.map_values(|o: TrackedObject| o@)
}

/// Every object well-formed, ids pairwise distinct.
pub open spec fn snapshot_wf(objs: Seq<TrackedObjectV>) -> bool {
    &&& forall|i: int| 0 <= i < objs.len() ==> (#[trigger] objs[i]).well_formed()
    &&& forall|i: int, j: int|
        0 <= i < j < objs.len() ==> (#[trigger] objs[i]).id != (#[trigger] objs[j]).id
}

/// The update line for one object: its coordinates always in full, its
/// property list only on a full sync.
pub open spec fn update_line(o: TrackedObjectV, full: bool) -> Seq<char> {
    encode_record(
        RecordV::Update(
            UpdateV {
                id: o.id,
                coords: Some(o.coords),
                props: if full {
                    o.props
                } else {
                    Seq::<PropertyV>::empty()
                },
            },
        ),
    ) + seq!['\n']
}

/// The two lines a removal produces: the remove line, then the matching
/// lifecycle event with the object id as its parameter.
pub open spec fn removal_lines(id: u64, k: EventKind) -> Seq<char> {
    encode_record(RecordV::Remove(id)) + seq!['\n'] + encode_record(
        RecordV::Event(EventV { kind: k, params: seq![dec_seq(id as nat)], text: None }),
    ) + seq!['\n']
}

/// What one object contributes to one connection's pass.
pub open spec fn obj_emission(full_sync: bool, synced: Seq<u64>, o: TrackedObjectV) -> Seq<char> {
    match removal_kind(o.need_sync) {
        Some(k) => removal_lines(o.id, k),
        None => update_line(
            o,
            full_sync || o.need_sync is Spawn || !synced.contains(o.id),
        ),
    }
}

/// Concatenated contributions of the first `k` snapshot objects.
pub open spec fn emissions_upto(
    full_sync: bool,
    synced: Seq<u64>,
    objs: Seq<TrackedObjectV>,
    k: int,
) -> Seq<char>
    decreases k,
{
    if k <= 0 {
        Seq::<char>::empty()
    } else {
        emissions_upto(full_sync, synced, objs, k - 1) + obj_emission(
            full_sync,
            synced,
            objs[k - 1],
        )
    }
}

/// Everything one connection is sent for one tick: the frame marker,
/// then the per-object lines in snapshot order. A connection owing a
/// full resync gets complete updates for every included object; the
/// metadata block itself went out once, with the handshake.
pub open spec fn pass_output(c: ConnectionV, t: u64, objs: Seq<TrackedObjectV>) -> Seq<char> {
    seq!['#'] + frame_seq(t as nat) + seq!['\n'] + emissions_upto(
        c.need_full_sync,
        c.synced,
        objs,
        objs.len() as int,
    )
}

// ---------------------------------------------------------------------------
// The synced set after a pass
// ---------------------------------------------------------------------------

/// The sequence with every occurrence of `id` removed.
pub open spec fn remove_id(s: Seq<u64>, id: u64) -> Seq<u64>
    decreases s.len(),
{
    if s.len() == 0 {
        Seq::<u64>::empty()
    } else {
        (if s[0] == id {
            Seq::<u64>::empty()
        } else {
            seq![s[0]]
        }) + remove_id(s.skip(1), id)
    }
}

/// The synced set after processing the snapshot from position `i`:
/// removals leave, freshly included objects enter.
pub open spec fn next_synced(s: Seq<u64>, objs: Seq<TrackedObjectV>, i: int) -> Seq<u64>
    decreases objs.len() - i,
{
    if i < 0 || i >= objs.len() {
        s
    } else {
        let o = objs[i];
        let s1 = if removal_kind(o.need_sync) is Some {
            remove_id(s, o.id)
        } else if s.contains(o.id) {
            s
        } else {
            s.push(o.id)
        };
        next_synced(s1, objs, i + 1)
    }
}

/// One connection's state after a pass: the resync flag consumed, the
/// synced set stepped.
pub open spec fn conn_after(c: ConnectionV, objs: Seq<TrackedObjectV>) -> ConnectionV {
    ConnectionV { id: c.id, need_full_sync: false, synced: next_synced(c.synced, objs, 0) }
}

// ---------------------------------------------------------------------------
// Connections and the engine
// ---------------------------------------------------------------------------

/// Synchronization state for one connected observer.
pub struct Connection {
    pub id: u64,
    pub need_full_sync: bool,
    pub synced: Vec<u64>,
}

/// Ghost model of `Connection`.
#[verifier::ext_equal]
pub ghost struct ConnectionV {
    pub id: u64,
    pub need_full_sync: bool,
    pub synced: Seq<u64>,
}

impl View for Connection {
    type V = ConnectionV;

    open spec fn view(&self) -> ConnectionV {
        ConnectionV { id: self.id, need_full_sync: self.need_full_sync, synced: self.synced@ }
    }
}

/// The engine's ghost form.
pub open spec fn conns_view(cs: Seq<Connection>) -> Seq<ConnectionV> {
    cs.map_values(|c: Connection| c@)
}

/// Connection identifiers pairwise distinct.
pub open spec fn engine_wf(cs: Seq<ConnectionV>) -> bool {
    forall|i: int, j: int|
        0 <= i < j < cs.len() ==> (#[trigger] cs[i]).id != (#[trigger] cs[j]).id
}

/// Position of the connection with the given identifier, if any.
pub open spec fn conn_index(cs: Seq<ConnectionV>, id: u64) -> Option<int>
    decreases cs.len(),
{
    if cs.len() == 0 {
        None
    } else if cs[0].id == id {
        Some(0)
    } else {
        match conn_index(cs.skip(1), id) {
            None => None,
            Some(i) => Some(i + 1),
        }
    }
}

/// A fresh connection entry: full resync owed, nothing synced yet.
pub open spec fn fresh_conn(id: u64) -> ConnectionV {
    ConnectionV { id, need_full_sync: true, synced: Seq::<u64>::empty() }
}

/// The connection table after a connect notification.
pub open spec fn connect_step(cs: Seq<ConnectionV>, id: u64) -> Seq<ConnectionV> {
    match conn_index(cs, id) {
        Some(i) => cs.update(i, fresh_conn(id)),
        None => cs.push(fresh_conn(id)),
    }
}

/// The connection table after a disconnect notification.
pub open spec fn disconnect_step(cs: Seq<ConnectionV>, id: u64) -> Seq<ConnectionV> {
    match conn_index(cs, id) {
        Some(i) => cs.remove(i),
        None => cs,
    }
}

proof fn lemma_conn_index_is(cs: Seq<ConnectionV>, id: u64, i: int)
    requires
        0 <= i < cs.len(),
        cs[i].id == id,
        forall|j: int| 0 <= j < i ==> (#[trigger] cs[j]).id != id,
    ensures
        conn_index(cs, id) == Some(i),
    decreases i,
{
    if i > 0 {
        assert(cs[0].id != id);
        assert(cs.skip(1)[i - 1].id == id);
        assert forall|j: int| 0 <= j < i - 1 implies (#[trigger] cs.skip(1)[j]).id != id by {
            assert(cs.skip(1)[j] == cs[j + 1]);
        }
        lemma_conn_index_is(cs.skip(1), id, i - 1);
    }
}

proof fn lemma_conn_index_none(cs: Seq<ConnectionV>, id: u64)
    requires
        forall|j: int| 0 <= j < cs.len() ==> (#[trigger] cs[j]).id != id,
    ensures
        conn_index(cs, id) is None,
    decreases cs.len(),
{
    if cs.len() > 0 {
        assert(cs[0].id != id);
        assert forall|j: int| 0 <= j < cs.skip(1).len() implies (#[trigger] cs.skip(1)[j]).id
            != id by {
            assert(cs.skip(1)[j] == cs[j + 1]);
        }
        lemma_conn_index_none(cs.skip(1), id);
    }
}

proof fn lemma_conn_index_bounds(cs: Seq<ConnectionV>, id: u64)
    ensures
        match conn_index(cs, id) {
            Some(i) => 0 <= i < cs.len() && cs[i].id == id,
            None => true,
        },
    decreases cs.len(),
{
    if cs.len() > 0 && cs[0].id != id {
        lemma_conn_index_bounds(cs.skip(1), id);
    }
}

/// The synchronization engine: one entry per connected observer, owned
/// here rather than in process-wide state.
pub struct SyncEngine {
    pub connections: Vec<Connection>,
}

impl View for SyncEngine {
    type V = Seq<ConnectionV>;

    open spec fn view(&self) -> Seq<ConnectionV> {
        conns_view(self.connections@)
    }
}

fn contains_id(v: &Vec<u64>, id: u64) -> (b: bool)
    ensures
        b == v@.contains(id),
{
    let mut i: usize = 0;
    while i < v.len()
        invariant
            0 <= i <= v.len(),
            forall|j: int| 0 <= j < i ==> v@[j] != id,
        decreases v.len() - i,
    {
        if v[i] == id {
            return true;
        }
        i += 1;
    }
    proof {
        assert(!v@.contains(id)) by {
            if v@.contains(id) {
                let j = choose|j: int| 0 <= j < v@.len() && v@[j] == id;
            }
        }
    }
    false
}

fn copy_u64s(v: &Vec<u64>) -> (r: Vec<u64>)
    ensures
        r@ == v@,
{
    let mut r: Vec<u64> = Vec::new();
    let mut i: usize = 0;
    while i < v.len()
        invariant
            0 <= i <= v.len(),
            r@ == v@.take(i as int),
        decreases v.len() - i,
    {
        r.push(v[i]);
        proof {
            assert(v@.take(i + 1 as int) =~= v@.take(i as int).push(v@[i as int]));
        }
        i += 1;
    }
    proof {
        assert(v@.take(v@.len() as int) =~= v@);
    }
    r
}

fn remove_id_exec(v: &Vec<u64>, id: u64) -> (r: Vec<u64>)
    ensures
        r@ == remove_id(v@, id),
{
    let mut r: Vec<u64> = Vec::new();
    let mut i: usize = 0;
    proof {
        assert(v@.skip(0) =~= v@);
        assert(Seq::<u64>::empty() + remove_id(v@, id) =~= remove_id(v@, id));
    }
    while i < v.len()
        invariant
            0 <= i <= v.len(),
            remove_id(v@, id) == r@ + remove_id(v@.skip(i as int), id),
        decreases v.len() - i,
    {
        proof {
            let t = v@.skip(i as int);
            assert(t[0] == v@[i as int]);
            assert(t.skip(1) =~= v@.skip(i + 1 as int));
        }
        if v[i] != id {
            r.push(v[i]);
            proof {
                assert(r@ + remove_id(v@.skip(i + 1 as int), id) =~= remove_id(v@, id));
            }
        } else {
            proof {
                assert(r@ + remove_id(v@.skip(i + 1 as int), id) =~= remove_id(v@, id));
            }
        }
        i += 1;
    }
    proof {
        assert(v@.skip(v@.len() as int) =~= Seq::<u64>::empty());
        assert(r@ =~= remove_id(v@, id));
    }
    r
}

fn copy_coords(c: &Coords) -> (r: Coords)
    ensures
        r@ == c@,
{
    let mut fields: Vec<i64> = Vec::new();
    let mut i: usize = 0;
    while i < c.fields.len()
        invariant
            0 <= i <= c.fields.len(),
            fields@ == c.fields@.take(i as int),
        decreases c.fields.len() - i,
    {
        fields.push(c.fields[i]);
        proof {
            assert(c.fields@.take(i + 1 as int) =~= c.fields@.take(i as int).push(
                c.fields@[i as int],
            ));
        }
        i += 1;
    }
    proof {
        assert(c.fields@.take(c.fields@.len() as int) =~= c.fields@);
    }
    let r = Coords { fields };
    proof {
        assert(r@ =~= c@);
    }
    r
}

fn copy_props(p: &PropertyList) -> (r: PropertyList)
    ensures
        r@ == p@,
{
    let mut out: Vec<Property> = Vec::new();
    let mut i: usize = 0;
    while i < p.0.len()
        invariant
            0 <= i <= p.0.len(),
            out@.len() == i,
            forall|j: int| 0 <= j < i ==> #[trigger] out@[j]@ == p.0@[j]@,
        decreases p.0.len() - i,
    {
        let q = Property { name: p.0[i].name.clone(), value: p.0[i].value.clone() };
        out.push(q);
        i += 1;
    }
    let r = PropertyList(out);
    proof {
        assert(r@ =~~= p@);
    }
    r
}

impl SyncEngine {
    /// An engine tracking no connections.
    pub fn new() -> (e: SyncEngine)
        ensures
            e@ =~= Seq::<ConnectionV>::empty(),
            engine_wf(e@),
    {
        SyncEngine { connections: Vec::new() }
    }

    /// Identifier of every tracked connection, in table order.
    pub fn connection_ids(&self) -> (r: Vec<u64>)
        ensures
            r@.len() == self@.len(),
            forall|i: int| 0 <= i < r@.len() ==> #[trigger] r@[i] == self@[i].id,
    {
        let mut r: Vec<u64> = Vec::new();
        let mut i: usize = 0;
        while i < self.connections.len()
            invariant
                0 <= i <= self.connections@.len(),
                r@.len() == i,
                forall|j: int| 0 <= j < i ==> #[trigger] r@[j] == conns_view(
                    self.connections@,
                )[j].id,
            decreases self.connections.len() - i,
        {
            r.push(self.connections[i].id);
            i += 1;
        }
        r
    }

    fn find_connection(&self, id: u64) -> (r: Option<usize>)
        ensures
            match r {
                Some(i) => i < self.connections@.len() && conn_index(self@, id) == Some(i as int),
                None => conn_index(self@, id) is None,
            },
    {
        let mut i: usize = 0;
        while i < self.connections.len()
            invariant
                0 <= i <= self.connections@.len(),
                forall|j: int| 0 <= j < i ==> (#[trigger] conns_view(self.connections@)[j]).id
                    != id,
            decreases self.connections.len() - i,
        {
            if self.connections[i].id == id {
                proof {
                    lemma_conn_index_is(self@, id, i as int);
                }
                return Some(i);
            }
            i += 1;
        }
        proof {
            lemma_conn_index_none(self@, id);
        }
        None
    }

    /// Handles a connect notification: returns the bytes to send at once
    /// (the banner, then the metadata block) and owes the connection a
    /// full resync on the next pass.
    pub fn on_connected(&mut self, conn_id: u64, res: &TacviewResource) -> (out: String)
        requires
            res@.well_formed(),
            engine_wf(old(self)@),
        ensures
            out@ == banner() + meta_lines(res@),
            final(self)@ == connect_step(old(self)@, conn_id),
            engine_wf(final(self)@),
    {
        let mut out = String::new();
        out.append(real_time_protocol());
        let meta = build_meta_data(res);
        out.append(meta.as_str());
        proof {
            assert(out@ =~= banner() + meta_lines(res@));
        }
        let fresh = Connection { id: conn_id, need_full_sync: true, synced: Vec::new() };
        proof {
            assert(fresh@ =~= fresh_conn(conn_id));
        }
        match self.find_connection(conn_id) {
            Some(i) => {
                self.connections.set(i, fresh);
                proof {
                    assert(final(self)@ =~~= old(self)@.update(i as int, fresh_conn(conn_id)));
                    assert forall|a: int, b: int|
                        0 <= a < b < final(self)@.len() implies (#[trigger] final(self)@[a]).id
                        != (#[trigger] final(self)@[b]).id by {
                        lemma_conn_index_bounds(old(self)@, conn_id);
                        assert(old(self)@[a].id != old(self)@[b].id);
                    }
                }
            },
            None => {
                self.connections.push(fresh);
                proof {
                    assert(final(self)@ =~~= old(self)@.push(fresh_conn(conn_id)));
                    assert forall|j: int| 0 <= j < old(self)@.len() implies (#[trigger] old(self)@[j]).id
                        != conn_id by {
                        if old(self)@[j].id == conn_id {
                            lemma_conn_index_is_exists(old(self)@, conn_id);
                        }
                    }
                }
            },
        }
        out
    }

    /// Handles a disconnect notification: discards all synchronization
    /// state kept for that connection.
    pub fn on_disconnected(&mut self, conn_id: u64)
        requires
            engine_wf(old(self)@),
        ensures
            final(self)@ == disconnect_step(old(self)@, conn_id),
            engine_wf(final(self)@),
    {
        match self.find_connection(conn_id) {
            Some(i) => {
                self.connections.remove(i);
                proof {
                    assert(final(self)@ =~~= old(self)@.remove(i as int));
                    assert forall|a: int, b: int|
                        0 <= a < b < final(self)@.len() implies (#[trigger] final(self)@[a]).id
                        != (#[trigger] final(self)@[b]).id by {
                        let oa: int = if a < i as int {
                            a
                        } else {
                            a + 1
                        };
                        let ob: int = if b < i as int {
                            b
                        } else {
                            b + 1
                        };
                        assert(final(self)@[a] == old(self)@[oa]);
                        assert(final(self)@[b] == old(self)@[ob]);
                    }
                }
            },
            None => {},
        }
    }

    /// Runs one emission pass: for every connection, in table order,
    /// returns the buffer to hand to that connection's sink, and steps
    /// the per-connection state.
    #[verifier::rlimit(100)]
    pub fn tick(&mut self, t: u64, objs: &Vec<TrackedObject>) -> (outs: Vec<String>)
        requires
            snapshot_wf(snap(objs@)),
            engine_wf(old(self)@),
        ensures
            outs@.len() == old(self)@.len(),
            forall|i: int|
                0 <= i < outs@.len() ==> #[trigger] outs@[i]@ == pass_output(
                    old(self)@[i],
                    t,
                    snap(objs@),
                ),
            final(self)@.len() == old(self)@.len(),
            forall|i: int|
                0 <= i < final(self)@.len() ==> #[trigger] final(self)@[i] == conn_after(
                    old(self)@[i],
                    snap(objs@),
                ),
            engine_wf(final(self)@),
    {
        let n = self.connections.len();
        let mut outs: Vec<String> = Vec::new();
        let mut i: usize = 0;
        while i < n
            invariant
                0 <= i <= n,
                n == self.connections@.len(),
                n == old(self)@.len(),
                snapshot_wf(snap(objs@)),
                forall|j: int|
                    i <= j < n ==> #[trigger] self.connections@[j] == old(self).connections@[j],
                forall|j: int|
                    0 <= j < i ==> #[trigger] conns_view(self.connections@)[j] == conn_after(
                        old(self)@[j],
                        snap(objs@),
                    ),
                outs@.len() == i,
                forall|j: int|
                    0 <= j < i ==> #[trigger] outs@[j]@ == pass_output(
                        old(self)@[j],
                        t,
                        snap(objs@),
                    ),
            decreases n - i,
        {
            let ghost cv = old(self)@[i as int];
            proof {
                assert(old(self)@[i as int] == old(self).connections@[i as int]@);
            }
            let c = &self.connections[i];
            proof {
                assert(c@ == cv);
            }
            let cid = c.id;
            let need_full = c.need_full_sync;
            let orig = copy_u64s(&c.synced);
            let mut cur = copy_u64s(&c.synced);
            let mut out = String::new();
            push_char(&mut out, '#');
            push_frame(&mut out, t);
            push_char(&mut out, '\n');
            let ghost head = seq!['#'] + frame_seq(t as nat) + seq!['\n'];
            proof {
                assert(out@ =~= head);
            }
            let mut k: usize = 0;
            while k < objs.len()
                invariant
                    0 <= k <= objs@.len(),
                    snapshot_wf(snap(objs@)),
                    orig@ == cv.synced,
                    need_full == cv.need_full_sync,
                    out@ == head + emissions_upto(
                        cv.need_full_sync,
                        cv.synced,
                        snap(objs@),
                        k as int,
                    ),
                    next_synced(cv.synced, snap(objs@), 0) == next_synced(
                        cur@,
                        snap(objs@),
                        k as int,
                    ),
                decreases objs@.len() - k,
            {
                let o = &objs[k];
                proof {
                    assert(snap(objs@)[k as int] == o@);
                    assert(o@.well_formed());
                }
                match removal_kind_exec(o.need_sync) {
                    Some(ek) => {
                        let rem = Record::Remove(o.id);
                        let rs = encode_record_string(&rem);
                        out.append(rs.as_str());
                        push_char(&mut out, '\n');
                        let mut pid = String::new();
                        push_dec_u64(&mut pid, o.id);
                        let mut params: Vec<String> = Vec::new();
                        params.push(pid);
                        let ev = Record::Event(Event { kind: ek, params, text: None });
                        proof {
                            lemma_dec_seq_digits(o.id as nat);
                            assert forall|x: int|
                                0 <= x < dec_seq(o.id as nat).len() implies !is_reserved(
                                #[trigger] dec_seq(o.id as nat)[x],
                            ) && dec_seq(o.id as nat)[x] != '\n' by {
                                assert(is_dec_digit(dec_seq(o.id as nat)[x]));
                            }
                            assert(ev@->Event_0 =~~= EventV {
                                kind: ek,
                                params: seq![dec_seq(o.id as nat)],
                                text: None,
                            });
                            assert(ev@.well_formed());
                        }
                        let es = encode_record_string(&ev);
                        out.append(es.as_str());
                        push_char(&mut out, '\n');
                        let newcur = remove_id_exec(&cur, o.id);
                        cur = newcur;
                        proof {
                            assert(out@ =~= head + emissions_upto(
                                cv.need_full_sync,
                                cv.synced,
                                snap(objs@),
                                k as int + 1,
                            ));
                        }
                    },
                    None => {
                        let spawn = match o.need_sync {
                            ObjectNeedSync::Spawn => true,
                            _ => false,
                        };
                        let full = need_full || spawn || !contains_id(&orig, o.id);
                        let props = if full {
                            copy_props(&o.props)
                        } else {
                            PropertyList(Vec::new())
                        };
                        let upd = Record::Update(Update {
                            id: o.id,
                            coords: Some(copy_coords(&o.coords)),
                            props,
                        });
                        proof {
                            assert(upd@->Update_0 =~~= UpdateV {
                                id: o@.id,
                                coords: Some(o@.coords),
                                props: if full {
                                    o@.props
                                } else {
                                    Seq::<PropertyV>::empty()
                                },
                            });
                            assert(upd@.well_formed());
                            assert(full == (cv.need_full_sync || o@.need_sync is Spawn
                                || !cv.synced.contains(o@.id)));
                        }
                        let us = encode_record_string(&upd);
                        out.append(us.as_str());
                        push_char(&mut out, '\n');
                        if !contains_id(&cur, o.id) {
                            cur.push(o.id);
                        }
                        proof {
                            assert(out@ =~= head + emissions_upto(
                                cv.need_full_sync,
                                cv.synced,
                                snap(objs@),
                                k as int + 1,
                            ));
                        }
                    },
                }
                k += 1;
            }
            proof {
                assert(out@ == pass_output(cv, t, snap(objs@)));
                assert(next_synced(cv.synced, snap(objs@), 0) == cur@);
            }
            let newc = Connection { id: cid, need_full_sync: false, synced: cur };
            proof {
                assert(newc@ =~= conn_after(cv, snap(objs@)));
            }
            let ghost precs = self.connections@;
            self.connections.set(i, newc);
            outs.push(out);
            proof {
                assert forall|j: int|
                    0 <= j < i + 1 implies #[trigger] conns_view(self.connections@)[j]
                    == conn_after(old(self)@[j], snap(objs@)) by {
                    assert(conns_view(self.connections@)[j] == self.connections@[j]@);
                    if j < i as int {
                        assert(self.connections@[j] == precs[j]);
                        assert(conns_view(precs)[j] == precs[j]@);
                    } else {
                        assert(self.connections@[j] == newc);
                    }
                }
            }
            i += 1;
        }
        proof {
            assert forall|a: int, b: int|
                0 <= a < b < final(self)@.len() implies (#[trigger] final(self)@[a]).id
                != (#[trigger] final(self)@[b]).id by {
                assert(final(self)@[a].id == old(self)@[a].id);
                assert(final(self)@[b].id == old(self)@[b].id);
            }
        }
        outs
    }
}

proof fn lemma_conn_index_is_exists(cs: Seq<ConnectionV>, id: u64)
    requires
        exists|j: int| 0 <= j < cs.len() && (#[trigger] cs[j]).id == id,
    ensures
        conn_index(cs, id) is Some,
    decreases cs.len(),
{
    let j = choose|j: int| 0 <= j < cs.len() && (#[trigger] cs[j]).id == id;
    if cs[0].id != id {
        assert(cs.skip(1)[j - 1].id == id);
        lemma_conn_index_is_exists(cs.skip(1), id);
    }
}

// ---------------------------------------------------------------------------
// Laws of the emission pass
// ---------------------------------------------------------------------------

/// Monotonic frames: the frame marker a pass renders carries exactly the
/// tick's time, so a non-decreasing tick sequence yields non-decreasing
/// emitted frame values.
pub proof fn lemma_monotonic_frames(t1: u64, t2: u64)
    requires
        t1 <= t2,
    ensures
        frame_val(frame_seq(t1 as nat)) == Some(t1 as int),
        frame_val(frame_seq(t2 as nat)) == Some(t2 as int),
        frame_val(frame_seq(t1 as nat))->Some_0 <= frame_val(frame_seq(t2 as nat))->Some_0,
{
    lemma_frame_roundtrip(t1 as nat);
    lemma_frame_roundtrip(t2 as nat);
}

/// Full-sync completeness: in the pass right after a connect, the frame
/// marker is followed by the per-object lines, and every object not
/// being removed contributes exactly its one full update line (its
/// complete property set), each object exactly once since snapshot ids
/// are distinct.
pub proof fn lemma_full_sync_completeness(
    c: ConnectionV,
    t: u64,
    objs: Seq<TrackedObjectV>,
    k: int,
)
    requires
        c.need_full_sync,
        snapshot_wf(objs),
        0 <= k < objs.len(),
        removal_kind(objs[k].need_sync) is None,
    ensures
        pass_output(c, t, objs) == seq!['#'] + frame_seq(t as nat) + seq!['\n']
            + emissions_upto(true, c.synced, objs, objs.len() as int),
        obj_emission(true, c.synced, objs[k]) == update_line(objs[k], true),
        forall|j: int| 0 <= j < objs.len() && j != k ==> (#[trigger] objs[j]).id != objs[k].id,
{
    assert forall|j: int| 0 <= j < objs.len() && j != k implies (#[trigger] objs[j]).id
        != objs[k].id by {
        if j < k {
            assert(objs[j].id != objs[k].id);
        } else {
            assert(objs[k].id != objs[j].id);
        }
    }
}

proof fn lemma_remove_id_gone(s: Seq<u64>, id: u64)
    ensures
        !remove_id(s, id).contains(id),
    decreases s.len(),
{
    if s.len() > 0 {
        lemma_remove_id_gone(s.skip(1), id);
        let head: Seq<u64> = if s[0] == id {
            Seq::<u64>::empty()
        } else {
            seq![s[0]]
        };
        let rest = remove_id(s.skip(1), id);
        assert(!(head + rest).contains(id)) by {
            if (head + rest).contains(id) {
                let j = choose|j: int| 0 <= j < (head + rest).len() && (head + rest)[j] == id;
                if j < head.len() {
                    assert(head[j] == id);
                } else {
                    assert(rest[j - head.len()] == id);
                    assert(rest.contains(id));
                }
            }
        }
    }
}

proof fn lemma_remove_id_other(s: Seq<u64>, id: u64, x: u64)
    requires
        x != id,
    ensures
        remove_id(s, id).contains(x) == s.contains(x),
    decreases s.len(),
{
    if s.len() == 0 {
        assert(!s.contains(x));
        assert(!remove_id(s, id).contains(x));
    } else {
        lemma_remove_id_other(s.skip(1), id, x);
        let head: Seq<u64> = if s[0] == id {
            Seq::<u64>::empty()
        } else {
            seq![s[0]]
        };
        let rest = remove_id(s.skip(1), id);
        if s.contains(x) {
            let j = choose|j: int| 0 <= j < s.len() && s[j] == x;
            if j == 0 {
                assert(head[0] == x);
                assert((head + rest)[0] == x);
            } else {
                assert(s.skip(1)[j - 1] == x);
                assert(s.skip(1).contains(x));
                assert(rest.contains(x));
                let m = choose|m: int| 0 <= m < rest.len() && rest[m] == x;
                assert((head + rest)[head.len() + m] == x);
            }
            assert((head + rest).contains(x));
        }
        if (head + rest).contains(x) {
            let j = choose|j: int| 0 <= j < (head + rest).len() && (head + rest)[j] == x;
            if j < head.len() {
                assert(head[j] == x);
                assert(s[0] == x);
            } else {
                assert(rest[j - head.len()] == x);
                assert(rest.contains(x));
                assert(s.skip(1).contains(x));
                let m = choose|m: int| 0 <= m < s.skip(1).len() && s.skip(1)[m] == x;
                assert(s[m + 1] == x);
            }
            assert(s.contains(x));
        }
    }
}

proof fn lemma_push_contains(s: Seq<u64>, y: u64, x: u64)
    ensures
        s.push(y).contains(x) == (s.contains(x) || x == y),
{
    if s.contains(x) {
        let j = choose|j: int| 0 <= j < s.len() && s[j] == x;
        assert(s.push(y)[j] == x);
        assert(s.push(y).contains(x));
    }
    if x == y {
        assert(s.push(y)[s.len() as int] == x);
        assert(s.push(y).contains(x));
    }
    if s.push(y).contains(x) {
        let j = choose|j: int| 0 <= j < s.push(y).len() && s.push(y)[j] == x;
        if j < s.len() {
            assert(s[j] == x);
            assert(s.contains(x));
        } else {
            assert(x == y);
        }
    }
}

proof fn lemma_step_membership(s: Seq<u64>, objs: Seq<TrackedObjectV>, i: int, id: u64)
    requires
        forall|j: int| i <= j < objs.len() ==> (#[trigger] objs[j]).id != id,
    ensures
        next_synced(s, objs, i).contains(id) == s.contains(id),
    decreases objs.len() - i,
{
    if 0 <= i < objs.len() {
        let o = objs[i];
        assert(o.id != id);
        let s1 = if removal_kind(o.need_sync) is Some {
            remove_id(s, o.id)
        } else if s.contains(o.id) {
            s
        } else {
            s.push(o.id)
        };
        if removal_kind(o.need_sync) is Some {
            lemma_remove_id_other(s, o.id, id);
        } else if !s.contains(o.id) {
            lemma_push_contains(s, o.id, id);
        }
        assert(s1.contains(id) == s.contains(id));
        lemma_step_membership(s1, objs, i + 1, id);
    } else if i < 0 {
        lemma_step_membership(s, objs, 0, id);
        assert(next_synced(s, objs, i) == s);
    }
}

proof fn lemma_removal_absent(s: Seq<u64>, objs: Seq<TrackedObjectV>, i: int, k: int)
    requires
        snapshot_wf(objs),
        0 <= i <= k < objs.len(),
        removal_kind(objs[k].need_sync) is Some,
    ensures
        !next_synced(s, objs, i).contains(objs[k].id),
    decreases k - i,
{
    let o = objs[i];
    let s1 = if removal_kind(o.need_sync) is Some {
        remove_id(s, o.id)
    } else if s.contains(o.id) {
        s
    } else {
        s.push(o.id)
    };
    if i == k {
        lemma_remove_id_gone(s, o.id);
        assert forall|j: int| i + 1 <= j < objs.len() implies (#[trigger] objs[j]).id
            != objs[k].id by {
            assert(objs[k].id != objs[j].id);
        }
        lemma_step_membership(s1, objs, i + 1, objs[k].id);
    } else {
        lemma_removal_absent(s1, objs, i + 1, k);
    }
}

/// Removal causality: a removal flag yields exactly one remove line and
/// one event line of the matching kind for that object id, and the id is
/// absent from the connection's synced set afterwards, so later passes
/// treat the object as fresh until it is included again.
pub proof fn lemma_removal_causality(
    full: bool,
    synced: Seq<u64>,
    objs: Seq<TrackedObjectV>,
    k: int,
)
    requires
        snapshot_wf(objs),
        0 <= k < objs.len(),
        removal_kind(objs[k].need_sync) is Some,
    ensures
        obj_emission(full, synced, objs[k]) == removal_lines(
            objs[k].id,
            removal_kind(objs[k].need_sync)->Some_0,
        ),
        !next_synced(synced, objs, 0).contains(objs[k].id),
{
    lemma_removal_absent(synced, objs, 0, k);
}

} // verus!
