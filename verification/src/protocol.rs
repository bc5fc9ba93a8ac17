//! Hub-to-app messages: newline-delimited JSON, version 1.

use crate::double::Double;
use crate::nmea;
use crate::nmea::{Coordinate, CoordinateView};
use crate::number;
use crate::number::Number;
use crate::text;
use vstd::prelude::*;
use vstd::string::*;

verus! {

pub const VERSION: u32 = 1;

/// What the hub sends an app.
pub enum Message<'a> {
    Hello { v: u32, keel: &'a str },
    State { v: u32, fix: &'a FixState, sources: &'a [SourceState] },
    Targets { v: u32, targets: &'a [Target] },
}

#[derive(Debug, Clone, Copy, PartialEq, Eq, Structural)]
pub enum FixStatus {
    /// No position sentence heard: `none`.
    Unheard,
    /// The receiver is talking but has no fix.
    Nofix,
    /// A fix less than five seconds old: `ok`.
    Current,
    /// The last fix is at least five seconds old.
    Stale,
}

/// What apps are told for a fix's status.
pub open spec fn fix_word(status: FixStatus) -> Seq<char> {
    match status {
        FixStatus::Unheard => "none"@,
        FixStatus::Nofix => "nofix"@,
        FixStatus::Current => "ok"@,
        FixStatus::Stale => "stale"@,
    }
}

impl FixStatus {
    /// The status as apps are told it.
    pub fn name(self) -> (name: &'static str)
        ensures
            name@ == fix_word(self),
    {
        match self {
            FixStatus::Unheard => "none",
            FixStatus::Nofix => "nofix",
            FixStatus::Current => "ok",
            FixStatus::Stale => "stale",
        }
    }
}

/// The boat's fix, as apps are told it. `None` where there is nothing to say.
#[derive(Debug, PartialEq)]
pub struct FixState {
    pub status: FixStatus,
    pub lat: Option<Coordinate>,
    pub lon: Option<Coordinate>,
    pub sog_kn: Option<Number>,
    pub cog_deg: Option<Number>,
    pub utc: Option<String>,
    pub satellites: Option<u8>,
    pub hdop: Option<Number>,
    pub age_seconds: Option<u64>,
}

pub struct FixStateView {
    pub status: FixStatus,
    pub lat: Option<CoordinateView>,
    pub lon: Option<CoordinateView>,
    pub sog_kn: Option<Seq<char>>,
    pub cog_deg: Option<Seq<char>>,
    pub utc: Option<Seq<char>>,
    pub satellites: Option<u8>,
    pub hdop: Option<Seq<char>>,
    pub age_seconds: Option<u64>,
}

impl View for FixState {
    type V = FixStateView;

    open spec fn view(&self) -> FixStateView {
        FixStateView {
            status: self.status,
            lat: nmea::place(self.lat),
            lon: nmea::place(self.lon),
            sog_kn: number::written(self.sog_kn),
            cog_deg: number::written(self.cog_deg),
            utc: text::text_of(self.utc),
            satellites: self.satellites,
            hdop: number::written(self.hdop),
            age_seconds: self.age_seconds,
        }
    }
}

/// A status, and nothing else to say.
pub open spec fn only_status(status: FixStatus) -> FixStateView {
    FixStateView {
        status,
        lat: None,
        lon: None,
        sog_kn: None,
        cog_deg: None,
        utc: None,
        satellites: None,
        hdop: None,
        age_seconds: None,
    }
}

impl FixState {
    pub fn without_position(status: FixStatus) -> (state: FixState)
        ensures
            state@ == only_status(status),
    {
        FixState {
            status,
            lat: None,
            lon: None,
            sog_kn: None,
            cog_deg: None,
            utc: None,
            satellites: None,
            hdop: None,
            age_seconds: None,
        }
    }
}

#[derive(Debug, Clone, Copy, PartialEq, Eq, Structural)]
pub enum SourceStatus {
    /// Opening or connecting, with nothing received yet.
    Connecting,
    /// Receiving: `ok`.
    Receiving,
    /// Connected, but nothing received for five seconds.
    Quiet,
    /// Can't be opened or reached.
    Error,
    /// A replay that has reached the end of its recording.
    Ended,
}

/// What apps are told for a source's status.
pub open spec fn source_word(status: SourceStatus) -> Seq<char> {
    match status {
        SourceStatus::Connecting => "connecting"@,
        SourceStatus::Receiving => "ok"@,
        SourceStatus::Quiet => "quiet"@,
        SourceStatus::Error => "error"@,
        SourceStatus::Ended => "ended"@,
    }
}

impl SourceStatus {
    /// The status as apps are told it.
    pub fn name(self) -> (name: &'static str)
        ensures
            name@ == source_word(self),
    {
        match self {
            SourceStatus::Connecting => "connecting",
            SourceStatus::Receiving => "ok",
            SourceStatus::Quiet => "quiet",
            SourceStatus::Error => "error",
            SourceStatus::Ended => "ended",
        }
    }
}

/// One source, as apps are told of it.
#[derive(Debug, PartialEq)]
pub struct SourceState {
    /// The source as given on the command line, like `serial:/dev/ttyUSB0:4800`.
    pub name: String,
    pub status: SourceStatus,
    pub message: Option<String>,
    /// Lines that checked out as NMEA sentences.
    pub sentences: u64,
    /// Lines that didn't: bad checksums or garbage.
    pub rejected: u64,
}

pub struct SourceStateView {
    pub name: Seq<char>,
    pub status: SourceStatus,
    pub message: Option<Seq<char>>,
    pub sentences: u64,
    pub rejected: u64,
}

impl View for SourceState {
    type V = SourceStateView;

    open spec fn view(&self) -> SourceStateView {
        SourceStateView {
            name: self.name@,
            status: self.status,
            message: text::text_of(self.message),
            sentences: self.sentences,
            rejected: self.rejected,
        }
    }
}

/// A source of which nothing has been heard.
pub open spec fn unheard(name: Seq<char>) -> SourceStateView {
    SourceStateView {
        name,
        status: SourceStatus::Connecting,
        message: None,
        sentences: 0,
        rejected: 0,
    }
}

impl Clone for SourceState {
    fn clone(&self) -> (copied: SourceState)
        ensures
            copied == *self,
    {
        SourceState {
            name: self.name.clone(),
            status: self.status,
            message: text::copy(&self.message),
            sentences: self.sentences,
            rejected: self.rejected,
        }
    }
}

impl SourceState {
    pub fn new(name: String) -> (state: SourceState)
        ensures
            state@ == unheard(name@),
    {
        SourceState {
            name,
            status: SourceStatus::Connecting,
            message: None,
            sentences: 0,
            rejected: 0,
        }
    }
}

/// One vessel heard on AIS, in the units its report was sent in. `None`
/// where there is nothing to say.
#[derive(Debug, PartialEq)]
pub struct Target {
    pub mmsi: u32,
    pub name: Option<String>,
    pub callsign: Option<String>,
    pub ship_type: Option<u8>,
    pub kind: Option<&'static str>,
    pub class: Option<&'static str>,
    pub status: Option<&'static str>,
    /// As reported, in 1/600,000 of a degree.
    pub lat: Option<i32>,
    pub lon: Option<i32>,
    pub sog_tenths: Option<u16>,
    pub cog_tenths: Option<u16>,
    pub heading_deg: Option<u16>,
    pub length_m: Option<u16>,
    pub beam_m: Option<u16>,
    pub destination: Option<String>,
    pub age_seconds: Option<u64>,
    /// Miles, to two places.
    pub range_nm: Option<Double>,
    /// Degrees true, to one place.
    pub bearing_deg: Option<Double>,
    /// Miles at the closest point of approach, to two places, and minutes to
    /// it, to one.
    pub cpa_nm: Option<Double>,
    pub tcpa_minutes: Option<Double>,
    pub danger: bool,
}

pub struct TargetView {
    pub mmsi: u32,
    pub name: Option<Seq<char>>,
    pub callsign: Option<Seq<char>>,
    pub ship_type: Option<u8>,
    pub kind: Option<Seq<char>>,
    pub class: Option<Seq<char>>,
    pub status: Option<Seq<char>>,
    pub lat: Option<i32>,
    pub lon: Option<i32>,
    pub sog_tenths: Option<u16>,
    pub cog_tenths: Option<u16>,
    pub heading_deg: Option<u16>,
    pub length_m: Option<u16>,
    pub beam_m: Option<u16>,
    pub destination: Option<Seq<char>>,
    pub age_seconds: Option<u64>,
    pub range_nm: Option<Double>,
    pub bearing_deg: Option<Double>,
    pub cpa_nm: Option<Double>,
    pub tcpa_minutes: Option<Double>,
    pub danger: bool,
}

/// The characters of a word that may be absent.
pub open spec fn word(w: Option<&str>) -> Option<Seq<char>> {
    match w {
        Some(t) => Some(t@),
        None => None,
    }
}

impl View for Target {
    type V = TargetView;

    open spec fn view(&self) -> TargetView {
        TargetView {
            mmsi: self.mmsi,
            name: text::text_of(self.name),
            callsign: text::text_of(self.callsign),
            ship_type: self.ship_type,
            kind: word(self.kind),
            class: word(self.class),
            status: word(self.status),
            lat: self.lat,
            lon: self.lon,
            sog_tenths: self.sog_tenths,
            cog_tenths: self.cog_tenths,
            heading_deg: self.heading_deg,
            length_m: self.length_m,
            beam_m: self.beam_m,
            destination: text::text_of(self.destination),
            age_seconds: self.age_seconds,
            range_nm: self.range_nm,
            bearing_deg: self.bearing_deg,
            cpa_nm: self.cpa_nm,
            tcpa_minutes: self.tcpa_minutes,
            danger: self.danger,
        }
    }
}

/// Each status of the fix has its word.
pub proof fn a_fix_status_has_its_word(status: FixStatus)
    ensures
        fix_word(status) == seq!['o', 'k'] <==> status is Current,
        fix_word(status) == seq!['s', 't', 'a', 'l', 'e'] <==> status is Stale,
        fix_word(status) == seq!['n', 'o', 'f', 'i', 'x'] <==> status is Nofix,
        fix_word(status) == seq!['n', 'o', 'n', 'e'] <==> status is Unheard,
{
    reveal_strlit("ok");
    reveal_strlit("stale");
    reveal_strlit("nofix");
    reveal_strlit("none");
    assert("ok"@ =~= seq!['o', 'k']);
    assert("stale"@ =~= seq!['s', 't', 'a', 'l', 'e']);
    assert("nofix"@ =~= seq!['n', 'o', 'f', 'i', 'x']);
    assert("none"@ =~= seq!['n', 'o', 'n', 'e']);
    assert("stale"@[0] != "nofix"@[0]);
}

/// Each status of a source has its word.
pub proof fn a_source_status_has_its_word(status: SourceStatus)
    ensures
        source_word(status) == seq!['o', 'k'] <==> status is Receiving,
        source_word(status) == seq!['q', 'u', 'i', 'e', 't'] <==> status is Quiet,
        source_word(status) == seq!['e', 'r', 'r', 'o', 'r'] <==> status is Error,
        source_word(status) == seq!['e', 'n', 'd', 'e', 'd'] <==> status is Ended,
        source_word(status) == seq!['c', 'o', 'n', 'n', 'e', 'c', 't', 'i', 'n', 'g'] <==> status
            is Connecting,
{
    reveal_strlit("ok");
    reveal_strlit("quiet");
    reveal_strlit("error");
    reveal_strlit("ended");
    reveal_strlit("connecting");
    assert("ok"@ =~= seq!['o', 'k']);
    assert("quiet"@ =~= seq!['q', 'u', 'i', 'e', 't']);
    assert("error"@ =~= seq!['e', 'r', 'r', 'o', 'r']);
    assert("ended"@ =~= seq!['e', 'n', 'd', 'e', 'd']);
    assert("connecting"@ =~= seq!['c', 'o', 'n', 'n', 'e', 'c', 't', 'i', 'n', 'g']);
    assert("quiet"@[0] != "error"@[0]);
    assert("quiet"@[0] != "ended"@[0]);
    assert("error"@[1] != "ended"@[1]);
}

/// A fix means what its fields hold.
pub proof fn a_fix_is_viewed_as_it_is(x: FixState)
    ensures
        x@.status == x.status,
        x@.lat is Some <==> x.lat is Some,
        x.lat matches Some(inner) ==> x@.lat == Some(inner@),
        x@.lon is Some <==> x.lon is Some,
        x.lon matches Some(inner) ==> x@.lon == Some(inner@),
        x@.sog_kn is Some <==> x.sog_kn is Some,
        x.sog_kn matches Some(inner) ==> x@.sog_kn == Some(inner@),
        x@.cog_deg is Some <==> x.cog_deg is Some,
        x.cog_deg matches Some(inner) ==> x@.cog_deg == Some(inner@),
        x@.utc is Some <==> x.utc is Some,
        x.utc matches Some(inner) ==> x@.utc == Some(inner@),
        x@.satellites == x.satellites,
        x@.hdop is Some <==> x.hdop is Some,
        x.hdop matches Some(inner) ==> x@.hdop == Some(inner@),
        x@.age_seconds == x.age_seconds,
{
}

/// A source's state means what its fields hold.
pub proof fn a_source_is_viewed_as_it_is(x: SourceState)
    ensures
        x@.name == x.name@,
        x@.status == x.status,
        x@.message is Some <==> x.message is Some,
        x.message matches Some(inner) ==> x@.message == Some(inner@),
        x@.sentences == x.sentences,
        x@.rejected == x.rejected,
{
}

/// A target means what its fields hold.
pub proof fn a_target_is_viewed_as_it_is(x: Target)
    ensures
        x@.mmsi == x.mmsi,
        x@.name is Some <==> x.name is Some,
        x.name matches Some(inner) ==> x@.name == Some(inner@),
        x@.callsign is Some <==> x.callsign is Some,
        x.callsign matches Some(inner) ==> x@.callsign == Some(inner@),
        x@.ship_type == x.ship_type,
        x@.kind is Some <==> x.kind is Some,
        x.kind matches Some(inner) ==> x@.kind == Some(inner@),
        x@.class is Some <==> x.class is Some,
        x.class matches Some(inner) ==> x@.class == Some(inner@),
        x@.status is Some <==> x.status is Some,
        x.status matches Some(inner) ==> x@.status == Some(inner@),
        x@.lat == x.lat,
        x@.lon == x.lon,
        x@.sog_tenths == x.sog_tenths,
        x@.cog_tenths == x.cog_tenths,
        x@.heading_deg == x.heading_deg,
        x@.length_m == x.length_m,
        x@.beam_m == x.beam_m,
        x@.destination is Some <==> x.destination is Some,
        x.destination matches Some(inner) ==> x@.destination == Some(inner@),
        x@.age_seconds == x.age_seconds,
        x@.range_nm == x.range_nm,
        x@.bearing_deg == x.bearing_deg,
        x@.cpa_nm == x.cpa_nm,
        x@.tcpa_minutes == x.tcpa_minutes,
        x@.danger == x.danger,
{
}

/// A status alone says nothing of where the boat is, how she moves, or when.
pub proof fn a_status_alone_says_no_more(status: FixStatus)
    ensures
        ({
            let state = only_status(status);
            &&& state.status == status
            &&& state.lat is None && state.lon is None
            &&& state.sog_kn is None && state.cog_deg is None
            &&& state.utc is None
            &&& state.satellites is None && state.hdop is None
            &&& state.age_seconds is None
        }),
{
}

} // verus!
