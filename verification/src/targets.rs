//! Every vessel heard on AIS, and how close each will come to the boat.

use crate::ais::{Class, Particulars, ParticularsView, Position, Report, ReportView};
use crate::clock;
use crate::double;
use crate::double::Double;
use crate::fix;
use crate::fix::NavigationView;
use crate::nmea;
use crate::nmea::{Coordinate, CoordinateView, PositionView};
use crate::number;
use crate::number::Number;
use crate::protocol;
use crate::protocol::{FixState, FixStateView, FixStatus, Target, TargetView};
use crate::text;
use std::collections::HashMap;
use vstd::arithmetic::power2::*;
use vstd::prelude::*;
use vstd::std_specs::hash::*;
use vstd::string::*;

verus! {

broadcast use group_hash_axioms;

/// A vessel not heard from in this long is gone. An anchored class A ship
/// reports every 3 minutes, so this is three missed reports.
pub const LOST_AFTER: u64 = 600_000_000_000;

/// Bounds memory on the busiest day any bay will see.
pub const MAX_VESSELS: usize = 1000;

/// A vessel that will pass within half a mile, 0.5 as the bits of a double...
pub const DANGER_CPA_NM: u64 = 0x3fe0_0000_0000_0000;

/// ...within 12 minutes, 12.0 as the bits of a double, is a danger.
pub const DANGER_TCPA_MIN: u64 = 0x4028_0000_0000_0000;

/// Half a knot, 0.5 as the bits of a double: a vessel slower than this may
/// send no course.
pub const STEERAGE_KN: u64 = 0x3fe0_0000_0000_0000;

/// All the way round, 360.0 as the bits of a double.
pub const CIRCLE_DEG: u64 = 0x4076_8000_0000_0000;

/// Where the boat is and how she's moving, from a current fix.
#[derive(Debug, PartialEq)]
pub struct Own {
    pub lat: Coordinate,
    pub lon: Coordinate,
    pub sog_kn: Option<Number>,
    pub cog_deg: Option<Number>,
}

pub struct OwnView {
    pub lat: CoordinateView,
    pub lon: CoordinateView,
    pub sog_kn: Option<Seq<char>>,
    pub cog_deg: Option<Seq<char>>,
}

impl View for Own {
    type V = OwnView;

    open spec fn view(&self) -> OwnView {
        OwnView {
            lat: self.lat@,
            lon: self.lon@,
            sog_kn: number::written(self.sog_kn),
            cog_deg: number::written(self.cog_deg),
        }
    }
}

/// Where the boat is, for ranging: only a current fix will do.
pub open spec fn own_of(fix: FixStateView) -> Option<OwnView> {
    match (fix.lat, fix.lon) {
        (Some(lat), Some(lon)) => if fix.status == FixStatus::Current {
            Some(OwnView { lat, lon, sog_kn: fix.sog_kn, cog_deg: fix.cog_deg })
        } else {
            None
        },
        _ => None,
    }
}

/// Where the boat is, for ranging.
pub fn own(fix: &FixState) -> (own: Option<Own>)
    ensures
        match own {
            Some(o) => own_of(fix@) == Some(o@),
            None => own_of(fix@) is None,
        },
        own is Some <==> fix.status == FixStatus::Current && fix.lat is Some && fix.lon is Some,
        own matches Some(o) ==> {
            &&& Some(o.lat@) == nmea::place(fix.lat)
            &&& Some(o.lon@) == nmea::place(fix.lon)
            &&& number::written(o.sog_kn) == number::written(fix.sog_kn)
            &&& number::written(o.cog_deg) == number::written(fix.cog_deg)
        },
{
    if fix.status != FixStatus::Current {
        return None;
    }
    match (&fix.lat, &fix.lon) {
        (Some(lat), Some(lon)) => Some(
            Own {
                lat: lat.clone(),
                lon: lon.clone(),
                sog_kn: number::copy(&fix.sog_kn),
                cog_deg: number::copy(&fix.cog_deg),
            },
        ),
        _ => None,
    }
}

/// What is known of how a vessel moves.
#[derive(Debug, Clone, Copy, PartialEq, Eq, Structural)]
pub enum Motion {
    Unknown,
    Stopped,
    /// Knots, and degrees true.
    UnderWay { sog_kn: Double, cog_deg: Double },
}

/// How a vessel moves, from its speed and course over ground. One barely
/// moving may send no course; it's taken as stopped. Otherwise no course
/// means no velocity.
pub open spec fn motion_of(sog_kn: Option<Double>, cog_deg: Option<Double>) -> Motion {
    match (sog_kn, cog_deg) {
        (None, _) => Motion::Unknown,
        (Some(sog_kn), Some(cog_deg)) => Motion::UnderWay { sog_kn, cog_deg },
        (Some(sog_kn), None) => if double::below(sog_kn, (Double { bits: STEERAGE_KN })) {
            Motion::Stopped
        } else {
            Motion::Unknown
        },
    }
}

/// How a vessel moves, from its speed and course over ground.
pub fn motion(sog_kn: Option<Double>, cog_deg: Option<Double>) -> (motion: Motion)
    ensures
        motion == motion_of(sog_kn, cog_deg),
{
    match (sog_kn, cog_deg) {
        (None, _) => Motion::Unknown,
        (Some(sog_kn), Some(cog_deg)) => Motion::UnderWay { sog_kn, cog_deg },
        (Some(sog_kn), None) => if sog_kn.below(Double { bits: STEERAGE_KN }) {
            Motion::Stopped
        } else {
            Motion::Unknown
        },
    }
}

/// How close a vessel comes.
#[derive(Debug, Clone, Copy, PartialEq, Eq, Structural)]
pub struct Closest {
    /// Miles at the closest point of approach, and minutes until it.
    pub cpa_nm: Double,
    pub tcpa_minutes: Double,
    /// The same, rounded to two places and to one.
    pub shown_cpa_nm: Double,
    pub shown_tcpa_minutes: Double,
}

/// A vessel as the boat sees it, carried forward along its reported course
/// and speed.
#[derive(Debug, Clone, Copy, PartialEq, Eq, Structural)]
pub struct Plot {
    pub mmsi: u32,
    /// Miles, to two places.
    pub range_nm: Double,
    /// Degrees true, to one place.
    pub bearing_deg: Double,
    /// Where both the vessel's motion and the boat's are known.
    pub closest: Option<Closest>,
}

/// A vessel as the boat sees it. How close it comes counts only where both
/// its motion and the boat's are known.
pub open spec fn plotted(
    mmsi: u32,
    range_nm: Double,
    bearing_deg: Double,
    theirs: Motion,
    ours: Motion,
    closest: Closest,
) -> Plot {
    Plot {
        mmsi,
        range_nm,
        bearing_deg,
        closest: if theirs != Motion::Unknown && ours != Motion::Unknown {
            Some(closest)
        } else {
            None
        },
    }
}

/// A vessel as the boat sees it.
pub fn plot(
    mmsi: u32,
    range_nm: Double,
    bearing_deg: Double,
    theirs: Motion,
    ours: Motion,
    closest: Closest,
) -> (plot: Plot)
    ensures
        plot == plotted(mmsi, range_nm, bearing_deg, theirs, ours, closest),
        plot == (Plot {
            mmsi,
            range_nm,
            bearing_deg,
            closest: if theirs != Motion::Unknown && ours != Motion::Unknown {
                Some(closest)
            } else {
                None
            },
        }),
{
    let known = theirs != Motion::Unknown && ours != Motion::Unknown;
    Plot {
        mmsi,
        range_nm,
        bearing_deg,
        closest: if known {
            Some(closest)
        } else {
            None
        },
    }
}

/// The first plot of a vessel.
pub open spec fn plot_of(plots: Seq<Plot>, mmsi: u32) -> Option<Plot>
    decreases plots.len(),
{
    if plots.len() == 0 {
        None
    } else if plots[0].mmsi == mmsi {
        Some(plots[0])
    } else {
        plot_of(plots.drop_first(), mmsi)
    }
}

/// A bearing that rounds to all the way round is due north.
pub open spec fn bearing_of(bearing_deg: Double) -> Double {
    if double::at_least(bearing_deg, (Double { bits: CIRCLE_DEG })) {
        Double { bits: 0 }
    } else {
        bearing_deg
    }
}

/// It will pass within `DANGER_CPA_NM`, in `DANGER_TCPA_MIN` or less.
pub open spec fn is_danger(closest: Closest) -> bool {
    double::at_most(closest.cpa_nm, (Double { bits: DANGER_CPA_NM })) && double::at_most(
        closest.tcpa_minutes,
        (Double { bits: DANGER_TCPA_MIN }),
    )
}

struct Vessel {
    heard: u64,
    class: Option<Class>,
    position: Option<(Position, u64)>,
    name: Option<String>,
    callsign: Option<String>,
    ship_type: Option<u8>,
    length_m: Option<u16>,
    beam_m: Option<u16>,
    destination: Option<String>,
}

/// What is known of a vessel.
pub struct VesselView {
    /// When it was last heard.
    pub heard: u64,
    pub class: Option<Class>,
    /// Its last position, and when that was heard.
    pub position: Option<(Position, u64)>,
    pub name: Option<Seq<char>>,
    pub callsign: Option<Seq<char>>,
    pub ship_type: Option<u8>,
    pub length_m: Option<u16>,
    pub beam_m: Option<u16>,
    pub destination: Option<Seq<char>>,
}

impl View for Vessel {
    type V = VesselView;

    closed spec fn view(&self) -> VesselView {
        VesselView {
            heard: self.heard,
            class: self.class,
            position: self.position,
            name: text::text_of(self.name),
            callsign: text::text_of(self.callsign),
            ship_type: self.ship_type,
            length_m: self.length_m,
            beam_m: self.beam_m,
            destination: text::text_of(self.destination),
        }
    }
}

/// The vessels heard, by MMSI.
pub struct Traffic {
    vessels: HashMap<u32, Vessel>,
}

impl View for Traffic {
    type V = Map<u32, VesselView>;

    closed spec fn view(&self) -> Map<u32, VesselView> {
        seen(self.vessels@)
    }
}

/// What is known of each vessel in a table.
spec fn seen(vessels: Map<u32, Vessel>) -> Map<u32, VesselView> {
    vessels.map_values(|v: Vessel| v@)
}

/// Heard at `at`, and nothing more known.
pub open spec fn newcomer(at: u64) -> VesselView {
    VesselView {
        heard: at,
        class: None,
        position: None,
        name: None,
        callsign: None,
        ship_type: None,
        length_m: None,
        beam_m: None,
        destination: None,
    }
}

/// What a message leaves unsaid stays as it was.
pub open spec fn or_else<T>(said: Option<T>, known: Option<T>) -> Option<T> {
    if said is Some {
        said
    } else {
        known
    }
}

/// What is known of a vessel after a report from it. Each message carries
/// some particulars (a type 24 part A is only the name), so what came is
/// taken and the rest kept.
pub open spec fn told_by(v: VesselView, report: ReportView, at: u64) -> VesselView {
    match report {
        ReportView::Position(p) => VesselView {
            heard: at,
            class: Some(p.class),
            position: Some((p, at)),
            ..v
        },
        ReportView::Particulars(p) => VesselView {
            heard: at,
            class: v.class,
            position: v.position,
            name: or_else(p.name, v.name),
            callsign: or_else(p.callsign, v.callsign),
            ship_type: or_else(p.ship_type, v.ship_type),
            length_m: or_else(p.length_m, v.length_m),
            beam_m: or_else(p.beam_m, v.beam_m),
            destination: or_else(p.destination, v.destination),
        },
    }
}

/// The vessel a report is from.
pub open spec fn sender(report: ReportView) -> u32 {
    match report {
        ReportView::Position(p) => p.mmsi,
        ReportView::Particulars(p) => p.mmsi,
    }
}

pub open spec fn is_lost(now: u64, then: u64) -> bool {
    clock::since(now, then) >= LOST_AFTER
}

/// A vessel's position, unless it is too old to go by.
pub open spec fn live_position(v: VesselView, now: u64) -> Option<(Position, u64)> {
    match v.position {
        Some((p, at)) => if is_lost(now, at) {
            None
        } else {
            Some((p, at))
        },
        None => None,
    }
}

/// The vessels without those not heard for `LOST_AFTER`, and without
/// positions that old even from vessels still sending their particulars.
pub open spec fn expired(vessels: Map<u32, VesselView>, now: u64) -> Map<u32, VesselView> {
    Map::new(
        |mmsi: u32| vessels.contains_key(mmsi) && !is_lost(now, vessels[mmsi].heard),
        |mmsi: u32|
            VesselView { position: live_position(vessels[mmsi], now), ..vessels[mmsi] },
    )
}

/// One without a position is worth less than one with; of two alike, the one
/// heard longer ago.
pub open spec fn worth_less(a: VesselView, b: VesselView) -> bool {
    ||| a.position is None && b.position is Some
    ||| (a.position is Some) == (b.position is Some) && a.heard < b.heard
}

/// No vessel is worth less than this one.
pub open spec fn is_least(vessels: Map<u32, VesselView>, mmsi: u32) -> bool {
    &&& vessels.contains_key(mmsi)
    &&& forall|other: u32|
        #![trigger vessels.contains_key(other)]
        vessels.contains_key(other) ==> !worth_less(vessels[other], vessels[mmsi])
}

/// A full table makes room for a newcomer: one with a position might be the
/// one on a collision course, so it replaces the vessel least worth keeping,
/// any of them where several are. A newcomer with only particulars never
/// displaces a vessel with a position.
pub open spec fn makes_room(
    vessels: Map<u32, VesselView>,
    report: ReportView,
    at: u64,
    after: Map<u32, VesselView>,
) -> bool {
    exists|victim: u32| #[trigger]
        is_least(vessels, victim) && after == (if vessels[victim].position is Some
            && report is Particulars {
            vessels
        } else {
            vessels.remove(victim).insert(sender(report), told_by(newcomer(at), report, at))
        })
}

/// `after` is what is known after a report.
pub open spec fn updated(
    before: Map<u32, VesselView>,
    report: ReportView,
    at: u64,
    after: Map<u32, VesselView>,
) -> bool {
    let mmsi = sender(report);
    let kept = expired(before, at);
    if before.contains_key(mmsi) {
        after == before.insert(mmsi, told_by(before[mmsi], report, at))
    } else if kept.len() < MAX_VESSELS {
        after == kept.insert(mmsi, told_by(newcomer(at), report, at))
    } else {
        makes_room(kept, report, at, after)
    }
}

impl Default for Traffic {
    fn default() -> (traffic: Traffic)
        ensures
            traffic@ == Map::<u32, VesselView>::empty(),
    {
        let traffic = Traffic { vessels: HashMap::new() };
        assert(traffic@ =~= Map::<u32, VesselView>::empty());
        traffic
    }
}

proof fn lemma_seen(vessels: Map<u32, Vessel>)
    ensures
        seen(vessels).dom() == vessels.dom(),
        forall|k: u32|
            #![trigger seen(vessels)[k]]
            vessels.contains_key(k) ==> seen(vessels)[k] == vessels[k]@,
{
    assert(seen(vessels).dom() =~= vessels.dom());
}

fn lost(now: u64, then: u64) -> (yes: bool)
    ensures
        yes == is_lost(now, then),
{
    clock::elapsed(now, then) >= LOST_AFTER
}

/// Every vessel's MMSI, in no particular order.
fn numbers(vessels: &HashMap<u32, Vessel>) -> (list: Vec<u32>)
    ensures
        list@.no_duplicates(),
        list@.to_set() == vessels@.dom(),
        list@.len() == vessels@.len(),
{
    let mut list: Vec<u32> = Vec::new();
    for mmsi in it: vessels.keys()
        invariant
            it.seq() == vstd::std_specs::iter::IteratorSpec::remaining(&spec_keys_iter(vessels)),
            list@.len() == it.index(),
            forall|i: int| 0 <= i < list@.len() ==> list@[i] == *it.seq()[i],
    {
        list.push(*mmsi);
    }
    proof {
        let keys = vstd::std_specs::iter::IteratorSpec::remaining(&spec_keys_iter(vessels));
        assert(list@ == keys.unref());
        assert forall|i: int, j: int|
            0 <= i < list@.len() && 0 <= j < list@.len() && i != j implies list@[i] != list@[j] by {
            assert(keys[i] != keys[j]);
        }
    }
    list
}

fn taken<T>(said: Option<T>, known: Option<T>) -> (all: Option<T>)
    ensures
        all == or_else(said, known),
{
    match said {
        Some(_) => said,
        None => known,
    }
}

impl Vessel {
    fn new(at: u64) -> (vessel: Vessel)
        ensures
            vessel@ == newcomer(at),
    {
        Vessel {
            heard: at,
            class: None,
            position: None,
            name: None,
            callsign: None,
            ship_type: None,
            length_m: None,
            beam_m: None,
            destination: None,
        }
    }

    /// What is known after a report.
    fn told(self, report: Report, at: u64) -> (vessel: Vessel)
        ensures
            vessel@ == told_by(self@, report@, at),
    {
        match report {
            Report::Position(p) => Vessel {
                heard: at,
                class: Some(p.class),
                position: Some((p, at)),
                name: self.name,
                callsign: self.callsign,
                ship_type: self.ship_type,
                length_m: self.length_m,
                beam_m: self.beam_m,
                destination: self.destination,
            },
            Report::Particulars(p) => Vessel {
                heard: at,
                class: self.class,
                position: self.position,
                name: taken(p.name, self.name),
                callsign: taken(p.callsign, self.callsign),
                ship_type: taken(p.ship_type, self.ship_type),
                length_m: taken(p.length_m, self.length_m),
                beam_m: taken(p.beam_m, self.beam_m),
                destination: taken(p.destination, self.destination),
            },
        }
    }
}

/// A vessel that no other is worth less than.
fn least(vessels: &HashMap<u32, Vessel>) -> (victim: Option<(u32, bool)>)
    ensures
        match victim {
            Some((mmsi, positioned)) => is_least(seen(vessels@), mmsi) && positioned == (
            vessels@[mmsi]@.position is Some),
            None => vessels@.len() == 0,
        },
{
    let list = numbers(vessels);
    let mut victim: Option<(u32, bool)> = None;
    let mut heard: u64 = 0;
    let mut i: usize = 0;
    proof {
        lemma_seen(vessels@);
    }
    while i < list.len()
        invariant
            i <= list.len(),
            list@.to_set() == vessels@.dom(),
            seen(vessels@).dom() == vessels@.dom(),
            victim is None ==> i == 0,
            victim matches Some((mmsi, positioned)) ==> {
                &&& vessels@.contains_key(mmsi)
                &&& positioned == (vessels@[mmsi]@.position is Some)
                &&& heard == vessels@[mmsi]@.heard
                &&& forall|j: int|
                    0 <= j < i ==> !worth_less(vessels@[#[trigger] list@[j]]@, vessels@[mmsi]@)
            },
        decreases list.len() - i,
    {
        let mmsi: u32 = list[i];
        assert(list@.to_set().contains(mmsi));
        if let Some(v) = vessels.get(&mmsi) {
            let positioned = v.position.is_some();
            let less = match victim {
                None => true,
                Some((_, other)) => (!positioned && other) || (positioned == other && v.heard
                    < heard),
            };
            if less {
                victim = Some((mmsi, positioned));
                heard = v.heard;
            }
        }
        i = i + 1;
    }
    proof {
        if victim is Some {
            let (mmsi, _) = victim->0;
            assert forall|other: u32| #![trigger seen(vessels@).contains_key(other)] seen(
                vessels@,
            ).contains_key(other) implies !worth_less(
                seen(vessels@)[other],
                seen(vessels@)[mmsi],
            ) by {
                assert(list@.to_set().contains(other));
                let j: int = choose|j: int| 0 <= j < list@.len() && list@[j] == other;
                assert(!worth_less(vessels@[list@[j]]@, vessels@[mmsi]@));
            }
        }
    }
    victim
}

impl Traffic {
    /// Takes a report heard at `at`.
    pub fn update(&mut self, report: Report, at: u64)
        ensures
            updated(old(self)@, report@, at, final(self)@),
    {
        let ghost before = self@;
        let mmsi: u32 = match &report {
            Report::Position(p) => p.mmsi,
            Report::Particulars(p) => p.mmsi,
        };
        proof {
            lemma_seen(self.vessels@);
        }
        if self.vessels.contains_key(&mmsi) {
            let ghost vessels = self.vessels@;
            if let Some(vessel) = self.vessels.remove(&mmsi) {
                self.vessels.insert(mmsi, vessel.told(report, at));
            }
            proof {
                lemma_seen(self.vessels@);
                assert(self@ =~= before.insert(mmsi, told_by(before[mmsi], report@, at)));
            }
            return;
        }
        self.expire(at);
        let ghost kept = self@;
        let ghost vessels = self.vessels@;
        proof {
            lemma_seen(vessels);
        }
        let mut victim: Option<u32> = None;
        if self.vessels.len() >= MAX_VESSELS {
            if let Some((mmsi, positioned)) = least(&self.vessels) {
                let only_named = match &report {
                    Report::Position(_) => false,
                    Report::Particulars(_) => true,
                };
                if positioned && only_named {
                    assert(makes_room(kept, report@, at, self@));
                    return;
                }
                self.vessels.remove(&mmsi);
                victim = Some(mmsi);
            }
        }
        let ghost told = told_by(newcomer(at), report@, at);
        self.vessels.insert(mmsi, Vessel::new(at).told(report, at));
        proof {
            lemma_seen(self.vessels@);
            if kept.len() < MAX_VESSELS {
                assert(self@ =~= kept.insert(mmsi, told));
            } else {
                let v = victim->0;
                assert(is_least(kept, v));
                assert(self@ =~= kept.remove(v).insert(mmsi, told));
                assert(makes_room(kept, report@, at, self@));
            }
        }
    }

    /// Drops vessels not heard for `LOST_AFTER`, and positions that old even
    /// from vessels still sending their particulars.
    pub fn expire(&mut self, now: u64)
        ensures
            final(self)@ == expired(old(self)@, now),
    {
        let ghost before = self.vessels@;
        let list = numbers(&self.vessels);
        let mut kept: HashMap<u32, Vessel> = HashMap::new();
        let mut i: usize = 0;
        while i < list.len()
            invariant
                i <= list.len(),
                list@.no_duplicates(),
                list@.to_set() == before.dom(),
                forall|j: int|
                    i <= j < list.len() ==> {
                        &&& self.vessels@.contains_key(#[trigger] list@[j])
                        &&& self.vessels@[list@[j]] == before[list@[j]]
                    },
                forall|k: u32| #[trigger]
                    kept@.contains_key(k) <==> list@.take(i as int).contains(k) && !is_lost(
                        now,
                        before[k]@.heard,
                    ),
                forall|k: u32| #[trigger]
                    kept@.contains_key(k) ==> kept@[k]@ == (VesselView {
                        position: live_position(before[k]@, now),
                        ..before[k]@
                    }),
            decreases list.len() - i,
        {
            let mmsi: u32 = list[i];
            assert(list@.to_set().contains(mmsi));
            assert(list@.take(i + 1) == list@.take(i as int).push(mmsi));
            assert forall|k: u32| #[trigger] list@.take(i + 1).contains(k) <==> list@.take(
                i as int,
            ).contains(k) || k == mmsi by {
                if list@.take(i as int).contains(k) {
                    let j: int = choose|j: int| 0 <= j < i && list@.take(i as int)[j] == k;
                    assert(list@.take(i + 1)[j] == k);
                }
                if k == mmsi {
                    assert(list@.take(i + 1)[i as int] == k);
                }
            }
            assert(!list@.take(i as int).contains(mmsi));
            if let Some(mut vessel) = self.vessels.remove(&mmsi) {
                if !lost(now, vessel.heard) {
                    if let Some((_, at)) = vessel.position {
                        if lost(now, at) {
                            vessel.position = None;
                        }
                    }
                    kept.insert(mmsi, vessel);
                }
            }
            i = i + 1;
        }
        self.vessels = kept;
        proof {
            lemma_seen(before);
            lemma_seen(self.vessels@);
            assert(list@.take(i as int) == list@);
            assert forall|k: u32| #[trigger] list@.contains(k) <==> before.contains_key(k) by {
                assert(list@.to_set().contains(k) == list@.contains(k));
            }
            assert(self@ =~= expired(seen(before), now));
        }
    }
}

/// The ITU ship type codes, in words.
pub open spec fn kind_of(code: u8) -> Option<Seq<char>> {
    if 20 <= code <= 29 {
        Some("wing in ground"@)
    } else if code == 30 {
        Some("fishing"@)
    } else if code == 31 || code == 32 {
        Some("towing"@)
    } else if code == 33 {
        Some("dredging"@)
    } else if code == 34 {
        Some("diving"@)
    } else if code == 35 {
        Some("military"@)
    } else if code == 36 {
        Some("sailing"@)
    } else if code == 37 {
        Some("pleasure craft"@)
    } else if 40 <= code <= 49 {
        Some("high speed craft"@)
    } else if code == 50 {
        Some("pilot"@)
    } else if code == 51 {
        Some("search and rescue"@)
    } else if code == 52 {
        Some("tug"@)
    } else if code == 53 {
        Some("port tender"@)
    } else if code == 55 {
        Some("law enforcement"@)
    } else if code == 58 {
        Some("medical transport"@)
    } else if 60 <= code <= 69 {
        Some("passenger"@)
    } else if 70 <= code <= 79 {
        Some("cargo"@)
    } else if 80 <= code <= 89 {
        Some("tanker"@)
    } else if 90 <= code <= 99 {
        Some("other"@)
    } else {
        None
    }
}

/// The ITU ship type codes, in words.
pub fn kind(code: u8) -> (words: Option<&'static str>)
    ensures
        protocol::word(words) == kind_of(code),
{
    if 20 <= code && code <= 29 {
        Some("wing in ground")
    } else if code == 30 {
        Some("fishing")
    } else if code == 31 || code == 32 {
        Some("towing")
    } else if code == 33 {
        Some("dredging")
    } else if code == 34 {
        Some("diving")
    } else if code == 35 {
        Some("military")
    } else if code == 36 {
        Some("sailing")
    } else if code == 37 {
        Some("pleasure craft")
    } else if 40 <= code && code <= 49 {
        Some("high speed craft")
    } else if code == 50 {
        Some("pilot")
    } else if code == 51 {
        Some("search and rescue")
    } else if code == 52 {
        Some("tug")
    } else if code == 53 {
        Some("port tender")
    } else if code == 55 {
        Some("law enforcement")
    } else if code == 58 {
        Some("medical transport")
    } else if 60 <= code && code <= 69 {
        Some("passenger")
    } else if 70 <= code && code <= 79 {
        Some("cargo")
    } else if 80 <= code && code <= 89 {
        Some("tanker")
    } else if 90 <= code && code <= 99 {
        Some("other")
    } else {
        None
    }
}

/// Class A navigational status, in words. 15 is "not defined".
pub open spec fn status_of(code: u8) -> Option<Seq<char>> {
    if code == 0 {
        Some("under way using engine"@)
    } else if code == 1 {
        Some("at anchor"@)
    } else if code == 2 {
        Some("not under command"@)
    } else if code == 3 {
        Some("restricted maneuverability"@)
    } else if code == 4 {
        Some("constrained by draught"@)
    } else if code == 5 {
        Some("moored"@)
    } else if code == 6 {
        Some("aground"@)
    } else if code == 7 {
        Some("engaged in fishing"@)
    } else if code == 8 {
        Some("under way sailing"@)
    } else if code == 14 {
        Some("AIS-SART active"@)
    } else {
        None
    }
}

/// Class A navigational status, in words. 15 is "not defined".
pub fn status(code: u8) -> (words: Option<&'static str>)
    ensures
        protocol::word(words) == status_of(code),
{
    if code == 0 {
        Some("under way using engine")
    } else if code == 1 {
        Some("at anchor")
    } else if code == 2 {
        Some("not under command")
    } else if code == 3 {
        Some("restricted maneuverability")
    } else if code == 4 {
        Some("constrained by draught")
    } else if code == 5 {
        Some("moored")
    } else if code == 6 {
        Some("aground")
    } else if code == 7 {
        Some("engaged in fishing")
    } else if code == 8 {
        Some("under way sailing")
    } else if code == 14 {
        Some("AIS-SART active")
    } else {
        None
    }
}

/// A class, as apps are told it.
pub open spec fn class_word(class: Class) -> Seq<char> {
    match class {
        Class::A => "A"@,
        Class::B => "B"@,
    }
}

/// What apps are told of a vessel: of one without a live position, only its
/// particulars; of one that the boat hasn't plotted, no range.
pub open spec fn target_of(
    mmsi: u32,
    v: VesselView,
    now: u64,
    plot: Option<Plot>,
) -> TargetView {
    let known = TargetView {
        mmsi,
        name: v.name,
        callsign: v.callsign,
        ship_type: v.ship_type,
        kind: match v.ship_type {
            Some(code) => kind_of(code),
            None => None,
        },
        class: match v.class {
            Some(class) => Some(class_word(class)),
            None => None,
        },
        status: None,
        lat: None,
        lon: None,
        sog_tenths: None,
        cog_tenths: None,
        heading_deg: None,
        length_m: v.length_m,
        beam_m: v.beam_m,
        destination: v.destination,
        age_seconds: None,
        range_nm: None,
        bearing_deg: None,
        cpa_nm: None,
        tcpa_minutes: None,
        danger: false,
    };
    match live_position(v, now) {
        None => known,
        Some((p, at)) => {
            let placed = TargetView {
                status: match p.status {
                    Some(code) => status_of(code),
                    None => None,
                },
                lat: Some(p.lat),
                lon: Some(p.lon),
                sog_tenths: p.sog_tenths,
                cog_tenths: p.cog_tenths,
                heading_deg: p.heading_deg,
                age_seconds: Some(clock::since(now, at) / clock::SECOND),
                ..known
            };
            match plot {
                None => placed,
                Some(plot) => TargetView {
                    range_nm: Some(plot.range_nm),
                    bearing_deg: Some(bearing_of(plot.bearing_deg)),
                    cpa_nm: match plot.closest {
                        Some(c) => Some(c.shown_cpa_nm),
                        None => None,
                    },
                    tcpa_minutes: match plot.closest {
                        Some(c) => Some(c.shown_tcpa_minutes),
                        None => None,
                    },
                    danger: plot.closest matches Some(c) && is_danger(c),
                    ..placed
                },
            }
        },
    }
}

/// The range at which a vessel is plotted, where it has a live position.
pub open spec fn range_of(v: VesselView, now: u64, plot: Option<Plot>) -> Option<Double> {
    match (live_position(v, now), plot) {
        (Some(_), Some(plot)) => Some(plot.range_nm),
        _ => None,
    }
}

/// Nearest first; any the boat can't range come last. By MMSI where that
/// leaves two even.
pub open spec fn is_before(
    a_range: Option<Double>,
    a_mmsi: u32,
    b_range: Option<Double>,
    b_mmsi: u32,
) -> bool {
    match (a_range, b_range) {
        (Some(a), Some(b)) => double::rank(a) < double::rank(b) || (double::rank(a)
            == double::rank(b) && a_mmsi < b_mmsi),
        (Some(_), None) => true,
        (None, Some(_)) => false,
        (None, None) => a_mmsi < b_mmsi,
    }
}

/// Whether one vessel is listed before another.
fn before(a_range: Option<Double>, a_mmsi: u32, b_range: Option<Double>, b_mmsi: u32) -> (yes: bool)
    ensures
        yes == is_before(a_range, a_mmsi, b_range, b_mmsi),
{
    match (a_range, b_range) {
        (Some(a), Some(b)) => a.precedes(b) || (!b.precedes(a) && a_mmsi < b_mmsi),
        (Some(_), None) => true,
        (None, Some(_)) => false,
        (None, None) => a_mmsi < b_mmsi,
    }
}

fn find_plot(plots: &Vec<Plot>, mmsi: u32) -> (plot: Option<Plot>)
    ensures
        plot == plot_of(plots@, mmsi),
{
    let mut i: usize = 0;
    assert(plots@.skip(0) == plots@);
    while i < plots.len()
        invariant
            i <= plots.len(),
            plot_of(plots@, mmsi) == plot_of(plots@.skip(i as int), mmsi),
        decreases plots.len() - i,
    {
        if plots[i].mmsi == mmsi {
            return Some(plots[i]);
        }
        assert(plots@.skip(i as int).drop_first() == plots@.skip(i + 1));
        i = i + 1;
    }
    None
}

impl Vessel {
    /// The position, unless it is too old to go by.
    fn live(&self, now: u64) -> (position: Option<(Position, u64)>)
        ensures
            position == live_position(self@, now),
    {
        match self.position {
            Some((p, at)) => if lost(now, at) {
                None
            } else {
                Some((p, at))
            },
            None => None,
        }
    }

    /// What apps are told of this vessel.
    fn target(&self, mmsi: u32, now: u64, plot: Option<Plot>) -> (target: Target)
        ensures
            target@ == target_of(mmsi, self@, now, plot),
    {
        let mut target = Target {
            mmsi,
            name: text::copy(&self.name),
            callsign: text::copy(&self.callsign),
            ship_type: self.ship_type,
            kind: match self.ship_type {
                Some(code) => kind(code),
                None => None,
            },
            class: match self.class {
                Some(Class::A) => Some("A"),
                Some(Class::B) => Some("B"),
                None => None,
            },
            status: None,
            lat: None,
            lon: None,
            sog_tenths: None,
            cog_tenths: None,
            heading_deg: None,
            length_m: self.length_m,
            beam_m: self.beam_m,
            destination: text::copy(&self.destination),
            age_seconds: None,
            range_nm: None,
            bearing_deg: None,
            cpa_nm: None,
            tcpa_minutes: None,
            danger: false,
        };
        let (p, at) = match self.live(now) {
            Some(position) => position,
            None => return target,
        };
        target.status = match p.status {
            Some(code) => status(code),
            None => None,
        };
        target.lat = Some(p.lat);
        target.lon = Some(p.lon);
        target.sog_tenths = p.sog_tenths;
        target.cog_tenths = p.cog_tenths;
        target.heading_deg = p.heading_deg;
        target.age_seconds = Some(clock::elapsed(now, at) / clock::SECOND);
        let plot = match plot {
            Some(plot) => plot,
            None => return target,
        };
        target.range_nm = Some(plot.range_nm);
        target.bearing_deg = Some(
            if plot.bearing_deg.at_least(Double { bits: CIRCLE_DEG }) {
                Double { bits: 0 }
            } else {
                plot.bearing_deg
            },
        );
        if let Some(closest) = plot.closest {
            target.cpa_nm = Some(closest.shown_cpa_nm);
            target.tcpa_minutes = Some(closest.shown_tcpa_minutes);
            target.danger = closest.cpa_nm.at_most(Double { bits: DANGER_CPA_NM })
                && closest.tcpa_minutes.at_most(Double { bits: DANGER_TCPA_MIN });
        }
        target
    }
}

/// A vessel with a live position, and how old that is.
#[derive(Debug, Clone, Copy, PartialEq, Eq)]
pub struct Sighting {
    pub mmsi: u32,
    pub position: Position,
    /// How long ago it was heard, in nanoseconds.
    pub age: u64,
}

/// A sighting of `mmsi` as `vessels` have it.
pub open spec fn is_sighting(vessels: Map<u32, VesselView>, now: u64, s: Sighting) -> bool {
    &&& vessels.contains_key(s.mmsi)
    &&& live_position(vessels[s.mmsi], now) matches Some((p, at)) && s.position == p && s.age
        == clock::since(now, at)
}

/// A vessel's place in the list.
struct Slot {
    mmsi: u32,
    range: Option<Double>,
    plot: Option<Plot>,
}

spec fn is_slot(vessels: Map<u32, VesselView>, now: u64, plots: Seq<Plot>, slot: Slot) -> bool {
    &&& vessels.contains_key(slot.mmsi)
    &&& slot.plot == plot_of(plots, slot.mmsi)
    &&& slot.range == range_of(vessels[slot.mmsi], now, slot.plot)
}

spec fn in_order(slots: Seq<Slot>) -> bool {
    forall|i: int, j: int|
        0 <= i < j < slots.len() ==> is_before(
            (#[trigger] slots[i]).range,
            slots[i].mmsi,
            (#[trigger] slots[j]).range,
            slots[j].mmsi,
        )
}

/// Puts a slot where it belongs among those in order.
fn place(slots: &mut Vec<Slot>, slot: Slot)
    requires
        in_order(old(slots)@),
        forall|i: int| 0 <= i < old(slots)@.len() ==> (#[trigger] old(slots)@[i]).mmsi != slot.mmsi,
    ensures
        in_order(final(slots)@),
        exists|i: int|
            0 <= i <= old(slots)@.len() && final(slots)@ == #[trigger] old(slots)@.insert(i, slot),
{
    let mut i: usize = 0;
    while i < slots.len() && !before(slot.range, slot.mmsi, slots[i].range, slots[i].mmsi)
        invariant
            i <= slots.len(),
            slots@ == old(slots)@,
            forall|j: int| 0 <= j < slots@.len() ==> (#[trigger] slots@[j]).mmsi != slot.mmsi,
            forall|j: int|
                0 <= j < i ==> !is_before(
                    slot.range,
                    slot.mmsi,
                    (#[trigger] slots@[j]).range,
                    slots@[j].mmsi,
                ),
        decreases slots.len() - i,
    {
        i = i + 1;
    }
    slots.insert(i, slot);
    proof {
        let was = old(slots)@;
        assert(slots@ == was.insert(i as int, slot));
        assert forall|a: int, b: int| 0 <= a < b < slots@.len() implies is_before(
            (#[trigger] slots@[a]).range,
            slots@[a].mmsi,
            (#[trigger] slots@[b]).range,
            slots@[b].mmsi,
        ) by {
            let x = if a < i {
                was[a]
            } else if a == i {
                slot
            } else {
                was[a - 1]
            };
            let y = if b < i {
                was[b]
            } else if b == i {
                slot
            } else {
                was[b - 1]
            };
            assert(slots@[a] == x && slots@[b] == y);
            if a == i && b > i + 1 {
                assert(is_before(was[i as int].range, was[i as int].mmsi, y.range, y.mmsi));
            }
            if b > i && a < i {
                assert(is_before(x.range, x.mmsi, y.range, y.mmsi));
            }
        }
    }
}

impl Traffic {
    /// Every vessel with a live position, in no particular order.
    pub fn sightings(&self, now: u64) -> (list: Vec<Sighting>)
        ensures
            forall|i: int| 0 <= i < list@.len() ==> is_sighting(self@, now, #[trigger] list@[i]),
            forall|i: int, j: int|
                0 <= i < j < list@.len() ==> (#[trigger] list@[i]).mmsi != (
                #[trigger] list@[j]).mmsi,
            forall|mmsi: u32| #[trigger]
                self@.contains_key(mmsi) && live_position(self@[mmsi], now) is Some ==> exists|
                    i: int,
                |
                    0 <= i < list@.len() && (#[trigger] list@[i]).mmsi == mmsi,
    {
        let all = numbers(&self.vessels);
        let mut list: Vec<Sighting> = Vec::new();
        let mut i: usize = 0;
        proof {
            lemma_seen(self.vessels@);
        }
        while i < all.len()
            invariant
                i <= all.len(),
                all@.no_duplicates(),
                all@.to_set() == self.vessels@.dom(),
                self@ == seen(self.vessels@),
                self@.dom() == self.vessels@.dom(),
                forall|k: int| 0 <= k < list@.len() ==> is_sighting(self@, now, #[trigger] list@[k]),
                forall|k: int, l: int|
                    0 <= k < l < list@.len() ==> (#[trigger] list@[k]).mmsi != (
                    #[trigger] list@[l]).mmsi,
                forall|k: int|
                    0 <= k < list@.len() ==> all@.take(i as int).contains(
                        (#[trigger] list@[k]).mmsi,
                    ),
                forall|k: int|
                    #![trigger all@[k]]
                    0 <= k < i && live_position(self@[all@[k]], now) is Some ==> exists|l: int|
                        0 <= l < list@.len() && (#[trigger] list@[l]).mmsi == all@[k],
            decreases all.len() - i,
        {
            let mmsi: u32 = all[i];
            assert(all@.to_set().contains(mmsi));
            proof {
                lemma_seen(self.vessels@);
                assert(all@.take(i + 1) == all@.take(i as int).push(mmsi));
                assert(!all@.take(i as int).contains(mmsi));
                assert forall|k: int| 0 <= k < list@.len() implies all@.take(i + 1).contains(
                    (#[trigger] list@[k]).mmsi,
                ) by {
                    let m = list@[k].mmsi;
                    let j: int = choose|j: int| 0 <= j < i && all@.take(i as int)[j] == m;
                    assert(all@.take(i + 1)[j] == m);
                }
                assert(all@.take(i + 1)[i as int] == mmsi);
            }
            let ghost before = list@;
            if let Some(vessel) = self.vessels.get(&mmsi) {
                if let Some((position, at)) = vessel.live(now) {
                    list.push(Sighting { mmsi, position, age: clock::elapsed(now, at) });
                    assert(list@[before.len() as int].mmsi == mmsi);
                }
            }
            assert forall|k: int|
                #![trigger all@[k]]
                0 <= k < i + 1 && live_position(self@[all@[k]], now) is Some implies exists|l: int|
                0 <= l < list@.len() && (#[trigger] list@[l]).mmsi == all@[k] by {
                if k < i {
                    let l: int = choose|l: int|
                        0 <= l < before.len() && (#[trigger] before[l]).mmsi == all@[k];
                    assert(list@[l] == before[l]);
                }
            }
            i = i + 1;
        }
        assert forall|mmsi: u32| #[trigger]
            self@.contains_key(mmsi) && live_position(self@[mmsi], now) is Some implies exists|
            i: int,
        |
            0 <= i < list@.len() && (#[trigger] list@[i]).mmsi == mmsi by {
            assert(all@.to_set().contains(mmsi));
            let k: int = choose|k: int| 0 <= k < all@.len() && all@[k] == mmsi;
            assert(all@[k] == mmsi);
        }
        list
    }

    /// Every vessel, nearest first; any the boat can't range come last.
    /// `plots` are what the boat makes of the vessels sighted; none where she
    /// has no current fix.
    pub fn targets(&self, now: u64, plots: &Vec<Plot>) -> (list: Vec<Target>)
        ensures
            list@.len() == self@.len(),
            forall|i: int|
                #![trigger list@[i]]
                0 <= i < list@.len() ==> {
                    &&& self@.contains_key(list@[i].mmsi)
                    &&& list@[i]@ == target_of(
                        list@[i].mmsi,
                        self@[list@[i].mmsi],
                        now,
                        plot_of(plots@, list@[i].mmsi),
                    )
                },
            forall|i: int, j: int|
                0 <= i < j < list@.len() ==> is_before(
                    (#[trigger] list@[i]).range_nm,
                    list@[i].mmsi,
                    (#[trigger] list@[j]).range_nm,
                    list@[j].mmsi,
                ),
            forall|mmsi: u32| #[trigger]
                self@.contains_key(mmsi) ==> exists|i: int|
                    0 <= i < list@.len() && (#[trigger] list@[i]).mmsi == mmsi,
    {
        let all = numbers(&self.vessels);
        let mut slots: Vec<Slot> = Vec::new();
        let mut i: usize = 0;
        proof {
            lemma_seen(self.vessels@);
        }
        while i < all.len()
            invariant
                i <= all.len(),
                all@.no_duplicates(),
                all@.to_set() == self.vessels@.dom(),
                self@ == seen(self.vessels@),
                self@.dom() == self.vessels@.dom(),
                slots@.len() == i,
                in_order(slots@),
                forall|k: int|
                    0 <= k < slots@.len() ==> is_slot(self@, now, plots@, #[trigger] slots@[k]),
                forall|k: int|
                    0 <= k < slots@.len() ==> all@.take(i as int).contains(
                        (#[trigger] slots@[k]).mmsi,
                    ),
                forall|k: int|
                    #![trigger all@[k]]
                    0 <= k < i ==> exists|l: int|
                        0 <= l < slots@.len() && (#[trigger] slots@[l]).mmsi == all@[k],
            decreases all.len() - i,
        {
            let mmsi: u32 = all[i];
            assert(all@.to_set().contains(mmsi));
            proof {
                lemma_seen(self.vessels@);
                assert(!all@.take(i as int).contains(mmsi));
            }
            let ghost before = slots@;
            let plot = find_plot(plots, mmsi);
            let mut range: Option<Double> = None;
            if let Some(vessel) = self.vessels.get(&mmsi) {
                if let (Some(_), Some(plot)) = (vessel.live(now), plot) {
                    range = Some(plot.range_nm);
                }
            }
            let slot = Slot { mmsi, range, plot };
            assert(is_slot(self@, now, plots@, slot));
            place(&mut slots, slot);
            proof {
                let at: int = choose|at: int|
                    0 <= at <= before.len() && slots@ == #[trigger] before.insert(at, slot);
                assert forall|k: int| 0 <= k < slots@.len() implies is_slot(
                    self@,
                    now,
                    plots@,
                    #[trigger] slots@[k],
                ) && all@.take(i + 1).contains(slots@[k].mmsi) by {
                    if k == at {
                        assert(all@.take(i + 1)[i as int] == mmsi);
                    } else {
                        let k0 = if k < at {
                            k
                        } else {
                            k - 1
                        };
                        let m = before[k0].mmsi;
                        assert(all@.take(i as int).contains(m));
                        let j: int = choose|j: int| 0 <= j < i && all@.take(i as int)[j] == m;
                        assert(all@.take(i + 1)[j] == m);
                    }
                }
                assert(slots@[at] == slot);
                assert forall|k: int| #![trigger all@[k]] 0 <= k < i + 1 implies exists|l: int|
                    0 <= l < slots@.len() && (#[trigger] slots@[l]).mmsi == all@[k] by {
                    if k < i {
                        let l: int = choose|l: int|
                            0 <= l < before.len() && (#[trigger] before[l]).mmsi == all@[k];
                        if l < at {
                            assert(slots@[l] == before[l]);
                        } else {
                            assert(slots@[l + 1] == before[l]);
                        }
                    }
                }
            }
            i = i + 1;
        }
        let mut list: Vec<Target> = Vec::new();
        let mut n: usize = 0;
        while n < slots.len()
            invariant
                n <= slots.len(),
                list@.len() == n,
                self@ == seen(self.vessels@),
                self@.dom() == self.vessels@.dom(),
                forall|k: int|
                    0 <= k < slots@.len() ==> is_slot(self@, now, plots@, #[trigger] slots@[k]),
                forall|k: int|
                    #![trigger list@[k]]
                    0 <= k < n ==> {
                        &&& list@[k].mmsi == slots@[k].mmsi
                        &&& list@[k].range_nm == slots@[k].range
                        &&& list@[k]@ == target_of(
                            slots@[k].mmsi,
                            self@[slots@[k].mmsi],
                            now,
                            slots@[k].plot,
                        )
                    },
            decreases slots.len() - n,
        {
            let slot = &slots[n];
            assert(is_slot(self@, now, plots@, slots@[n as int]));
            proof {
                lemma_seen(self.vessels@);
            }
            if let Some(vessel) = self.vessels.get(&slot.mmsi) {
                let target = vessel.target(slot.mmsi, now, slot.plot);
                assert(target@.mmsi == slot.mmsi);
                assert(target@.range_nm == slot.range);
                list.push(target);
            }
            n = n + 1;
        }
        proof {
            assert forall|i: int| #![trigger list@[i]] 0 <= i < list@.len() implies {
                &&& self@.contains_key(list@[i].mmsi)
                &&& list@[i]@ == target_of(
                    list@[i].mmsi,
                    self@[list@[i].mmsi],
                    now,
                    plot_of(plots@, list@[i].mmsi),
                )
            } by {
                assert(is_slot(self@, now, plots@, slots@[i]));
            }
            assert forall|i: int, j: int| 0 <= i < j < list@.len() implies is_before(
                (#[trigger] list@[i]).range_nm,
                list@[i].mmsi,
                (#[trigger] list@[j]).range_nm,
                list@[j].mmsi,
            ) by {
                assert(is_before(
                    slots@[i].range,
                    slots@[i].mmsi,
                    slots@[j].range,
                    slots@[j].mmsi,
                ));
            }
            assert forall|mmsi: u32| #[trigger] self@.contains_key(mmsi) implies exists|i: int|
                0 <= i < list@.len() && (#[trigger] list@[i]).mmsi == mmsi by {
                assert(all@.to_set().contains(mmsi));
                let k: int = choose|k: int| 0 <= k < all@.len() && all@[k] == mmsi;
                assert(all@[k] == mmsi);
                let l: int = choose|l: int|
                    0 <= l < slots@.len() && (#[trigger] slots@[l]).mmsi == mmsi;
                assert(list@[l].mmsi == mmsi);
            }
        }
        list
    }
}

/// However many vessels report, no more than `MAX_VESSELS` are kept.
pub proof fn the_table_stays_bounded(
    before: Map<u32, VesselView>,
    report: ReportView,
    at: u64,
    after: Map<u32, VesselView>,
)
    requires
        before.dom().finite(),
        before.len() <= 1000,
        updated(before, report, at, after),
    ensures
        after.dom().finite(),
        after.len() <= 1000,
{
    let kept = expired(before, at);
    assert(kept.dom().subset_of(before.dom()));
    vstd::set_lib::lemma_len_subset(kept.dom(), before.dom());
}

/// Room is made for a vessel with a position, whatever the table holds.
pub proof fn a_position_is_always_kept(
    before: Map<u32, VesselView>,
    position: Position,
    at: u64,
    after: Map<u32, VesselView>,
)
    requires
        updated(before, ReportView::Position(position), at, after),
    ensures
        after.contains_key(position.mmsi),
        after[position.mmsi].position == Some((position, at)),
        after[position.mmsi].heard == at,
        after[position.mmsi].class == Some(position.class),
{
}

/// A message with only particulars leaves every other vessel's live position
/// as it was: no danger is displaced by a name.
pub proof fn a_name_displaces_no_position(
    before: Map<u32, VesselView>,
    particulars: ParticularsView,
    at: u64,
    after: Map<u32, VesselView>,
    mmsi: u32,
)
    requires
        updated(before, ReportView::Particulars(particulars), at, after),
        before.contains_key(mmsi),
        !is_lost(at, before[mmsi].heard),
        live_position(before[mmsi], at) is Some,
    ensures
        after.contains_key(mmsi),
        after[mmsi].position == before[mmsi].position,
{
    let kept = expired(before, at);
    assert(kept.contains_key(mmsi));
    if !before.contains_key(particulars.mmsi) && kept.len() >= MAX_VESSELS {
        let victim: u32 = choose|victim: u32| #[trigger]
            is_least(kept, victim) && after == (if kept[victim].position is Some {
                kept
            } else {
                kept.remove(victim).insert(
                    particulars.mmsi,
                    told_by(newcomer(at), ReportView::Particulars(particulars), at),
                )
            });
        assert(kept[mmsi].position is Some);
    }
}

/// A report touches no other vessel that stays: its particulars, class and
/// live position are as they were.
pub proof fn a_report_is_about_its_sender(
    before: Map<u32, VesselView>,
    report: ReportView,
    at: u64,
    after: Map<u32, VesselView>,
    mmsi: u32,
)
    requires
        updated(before, report, at, after),
        mmsi != sender(report),
        after.contains_key(mmsi),
    ensures
        before.contains_key(mmsi),
        live_position(after[mmsi], at) == live_position(before[mmsi], at),
        (VesselView { position: None, ..after[mmsi] }) == (VesselView {
            position: None,
            ..before[mmsi]
        }),
{
}

/// Particulars fill in across messages: a message's own are taken, what it
/// leaves unsaid stays, and a position changes none of them.
pub proof fn particulars_fill_in(
    v: VesselView,
    particulars: ParticularsView,
    position: Position,
    at: u64,
    later: u64,
)
    ensures
        ({
            let said = told_by(v, ReportView::Particulars(particulars), at);
            let after = told_by(said, ReportView::Position(position), later);
            let p = particulars;
            &&& after.name == (if p.name is Some { p.name } else { v.name })
            &&& after.callsign == (if p.callsign is Some { p.callsign } else { v.callsign })
            &&& after.ship_type == (if p.ship_type is Some { p.ship_type } else { v.ship_type })
            &&& after.length_m == (if p.length_m is Some { p.length_m } else { v.length_m })
            &&& after.beam_m == (if p.beam_m is Some { p.beam_m } else { v.beam_m })
            &&& after.destination == (if p.destination is Some {
                p.destination
            } else {
                v.destination
            })
            &&& said.position == v.position
            &&& said.class == v.class
        }),
{
}

/// After expiry nothing is left that is `LOST_AFTER` old, and expiring again
/// changes nothing.
pub proof fn expiry_leaves_nothing_old(vessels: Map<u32, VesselView>, now: u64)
    ensures
        forall|mmsi: u32| #[trigger]
            expired(vessels, now).contains_key(mmsi) ==> {
                let v = expired(vessels, now)[mmsi];
                !is_lost(now, v.heard) && (v.position matches Some((_, at)) ==> !is_lost(now, at))
            },
        expired(expired(vessels, now), now) == expired(vessels, now),
{
    let once = expired(vessels, now);
    assert(expired(once, now) =~= once);
}

/// Expiry changes nothing of what apps are told of the vessels that stay.
pub proof fn expiry_changes_no_target(
    vessels: Map<u32, VesselView>,
    now: u64,
    mmsi: u32,
    plot: Option<Plot>,
)
    requires
        expired(vessels, now).contains_key(mmsi),
    ensures
        target_of(mmsi, expired(vessels, now)[mmsi], now, plot) == target_of(
            mmsi,
            vessels[mmsi],
            now,
            plot,
        ),
{
}

/// A danger has a live position, and will pass within `DANGER_CPA_NM` in
/// `DANGER_TCPA_MIN` or less; a vessel that will, and has one, is a danger.
pub proof fn a_danger_is_close_and_soon(
    mmsi: u32,
    v: VesselView,
    now: u64,
    plot: Option<Plot>,
)
    ensures
        target_of(mmsi, v, now, plot).danger <==> {
            &&& live_position(v, now) is Some
            &&& plot is Some
            &&& plot->0.closest matches Some(c) && is_danger(c)
        },
{
}

/// Nothing is shown of a position `LOST_AFTER` old: no place, no age, no
/// range, no danger.
pub proof fn an_old_position_is_not_shown(
    mmsi: u32,
    v: VesselView,
    now: u64,
    plot: Option<Plot>,
)
    requires
        v.position matches Some((_, at)) ==> is_lost(now, at),
    ensures
        ({
            let target = target_of(mmsi, v, now, plot);
            &&& target.lat is None && target.lon is None
            &&& target.sog_tenths is None && target.cog_tenths is None
            &&& target.age_seconds is None
            &&& target.range_nm is None && target.bearing_deg is None
            &&& target.cpa_nm is None && target.tcpa_minutes is None
            &&& !target.danger
            &&& target.name == v.name
        }),
{
}

/// Of two vessels in a list, exactly one comes first.
pub proof fn the_order_is_total(
    a_range: Option<Double>,
    a_mmsi: u32,
    b_range: Option<Double>,
    b_mmsi: u32,
)
    requires
        a_mmsi != b_mmsi,
    ensures
        is_before(a_range, a_mmsi, b_range, b_mmsi) != is_before(b_range, b_mmsi, a_range, a_mmsi),
{
}

/// What is shown of a vessel that has just reported a position is what it
/// reported, for ten minutes; its age is counted in whole seconds.
pub proof fn what_was_last_reported_is_shown(
    before: Map<u32, VesselView>,
    p: Position,
    at: u64,
    after: Map<u32, VesselView>,
    now: u64,
    plot: Option<Plot>,
)
    requires
        updated(before, ReportView::Position(p), at, after),
        now < at + 600_000_000_000,
    ensures
        after.contains_key(p.mmsi),
        ({
            let target = target_of(p.mmsi, after[p.mmsi], now, plot);
            &&& target.mmsi == p.mmsi
            &&& target.lat == Some(p.lat)
            &&& target.lon == Some(p.lon)
            &&& target.sog_tenths == p.sog_tenths
            &&& target.cog_tenths == p.cog_tenths
            &&& target.heading_deg == p.heading_deg
            &&& target.class == Some(
                if p.class == Class::A {
                    "A"@
                } else {
                    "B"@
                },
            )
            &&& p.status is None ==> target.status is None
            &&& p.status matches Some(code) ==> target.status == status_of(code)
            &&& target.age_seconds matches Some(age) && (if now < at {
                age == 0
            } else {
                age * 1_000_000_000 <= now - at < (age + 1) * 1_000_000_000
            })
        }),
{
}

/// Ten minutes after it was heard a position is no longer shown: no place, no
/// age, no range, no danger. What else is known still is.
pub proof fn a_position_is_shown_for_ten_minutes(
    mmsi: u32,
    v: VesselView,
    now: u64,
    plot: Option<Plot>,
)
    ensures
        ({
            let target = target_of(mmsi, v, now, plot);
            &&& target.lat is Some <==> (v.position matches Some((_, at)) && now < at
                + 600_000_000_000)
            &&& target.lat is None ==> {
                &&& target.lon is None && target.status is None
                &&& target.sog_tenths is None && target.cog_tenths is None
                &&& target.heading_deg is None && target.age_seconds is None
                &&& target.range_nm is None && target.bearing_deg is None
                &&& target.cpa_nm is None && target.tcpa_minutes is None
                &&& !target.danger
            }
            &&& target.mmsi == mmsi
            &&& target.name == v.name
            &&& target.callsign == v.callsign
            &&& target.ship_type == v.ship_type
            &&& target.length_m == v.length_m
            &&& target.beam_m == v.beam_m
            &&& target.destination == v.destination
        }),
{
}

/// What is shown of a vessel that has just sent its particulars is what it
/// sent, and for what it left out, what was known of it before.
pub proof fn what_was_last_said_is_shown(
    before: Map<u32, VesselView>,
    p: ParticularsView,
    at: u64,
    after: Map<u32, VesselView>,
    now: u64,
    plot: Option<Plot>,
)
    requires
        updated(before, ReportView::Particulars(p), at, after),
        after.contains_key(p.mmsi),
    ensures
        ({
            let target = target_of(p.mmsi, after[p.mmsi], now, plot);
            let known = before.contains_key(p.mmsi);
            let v = before[p.mmsi];
            &&& target.mmsi == p.mmsi
            &&& p.name is Some ==> target.name == p.name
            &&& p.callsign is Some ==> target.callsign == p.callsign
            &&& p.ship_type is Some ==> target.ship_type == p.ship_type
            &&& p.length_m is Some ==> target.length_m == p.length_m
            &&& p.beam_m is Some ==> target.beam_m == p.beam_m
            &&& p.destination is Some ==> target.destination == p.destination
            &&& p.name is None ==> target.name == (if known { v.name } else { None })
            &&& p.callsign is None ==> target.callsign == (if known { v.callsign } else { None })
            &&& p.ship_type is None ==> target.ship_type == (if known {
                v.ship_type
            } else {
                None
            })
            &&& p.length_m is None ==> target.length_m == (if known { v.length_m } else { None })
            &&& p.beam_m is None ==> target.beam_m == (if known { v.beam_m } else { None })
            &&& p.destination is None ==> target.destination == (if known {
                v.destination
            } else {
                None
            })
            &&& after[p.mmsi].heard == at
            &&& after[p.mmsi].position == (if known { v.position } else { None })
        }),
{
    let kept = expired(before, at);
    if !before.contains_key(p.mmsi) {
        assert(!kept.contains_key(p.mmsi));
    }
}

/// A report from a vessel already known drives no other out. One from a
/// newcomer does only in a table of a thousand, and then one vessel at most:
/// one without a position where there is any, and of those alike the one
/// heard longest ago.
pub proof fn who_makes_room(
    before: Map<u32, VesselView>,
    report: ReportView,
    at: u64,
    after: Map<u32, VesselView>,
    gone: u32,
    other: u32,
)
    requires
        updated(before, report, at, after),
        before.contains_key(gone),
        at < before[gone].heard + 600_000_000_000,
        !after.contains_key(gone),
        before.contains_key(other),
        at < before[other].heard + 600_000_000_000,
        other != gone,
    ensures
        ({
            let live = |v: VesselView| v.position matches Some((_, t)) && at < t + 600_000_000_000;
            &&& !before.contains_key(sender(report))
            &&& after.contains_key(sender(report))
            &&& expired(before, at).len() >= 1000
            &&& after.contains_key(other)
            &&& live(before[gone]) ==> live(before[other]) && report is Position
            &&& live(before[gone]) == live(before[other]) ==> before[gone].heard
                <= before[other].heard
        }),
{
    let kept = expired(before, at);
    assert(kept.contains_key(gone));
    assert(kept.contains_key(other));
    let victim: u32 = choose|victim: u32| #[trigger]
        is_least(kept, victim) && after == (if kept[victim].position is Some
            && report is Particulars {
            kept
        } else {
            kept.remove(victim).insert(sender(report), told_by(newcomer(at), report, at))
        });
    assert(victim == gone);
    assert(!worth_less(kept[other], kept[gone]));
}

/// Where there is room, everyone heard in the last ten minutes stays, with
/// the newcomer.
pub proof fn where_there_is_room_everyone_stays(
    before: Map<u32, VesselView>,
    report: ReportView,
    at: u64,
    after: Map<u32, VesselView>,
    mmsi: u32,
)
    requires
        updated(before, report, at, after),
        before.dom().finite(),
        before.len() < 1000,
        before.contains_key(mmsi),
        at < before[mmsi].heard + 600_000_000_000,
    ensures
        after.contains_key(mmsi),
        after.contains_key(sender(report)),
{
    let kept = expired(before, at);
    assert(kept.dom().subset_of(before.dom()));
    vstd::set_lib::lemma_len_subset(kept.dom(), before.dom());
    assert(kept.contains_key(mmsi));
}

/// Expiry takes the vessels not heard for ten minutes and no others, and of
/// those that stay the positions that old and nothing else.
pub proof fn expiry_takes_what_is_old(vessels: Map<u32, VesselView>, now: u64, mmsi: u32)
    ensures
        expired(vessels, now).contains_key(mmsi) <==> vessels.contains_key(mmsi) && now
            < vessels[mmsi].heard + 600_000_000_000,
        expired(vessels, now).contains_key(mmsi) ==> {
            let was = vessels[mmsi];
            let stays = expired(vessels, now)[mmsi];
            &&& stays.position == (if was.position matches Some((_, at)) && now < at
                + 600_000_000_000 {
                was.position
            } else {
                None
            })
            &&& stays.heard == was.heard
            &&& stays.class == was.class
            &&& stays.name == was.name
            &&& stays.callsign == was.callsign
            &&& stays.ship_type == was.ship_type
            &&& stays.length_m == was.length_m
            &&& stays.beam_m == was.beam_m
            &&& stays.destination == was.destination
        },
{
}

/// The limits are the numbers that they are meant to be: half a mile, twelve
/// minutes, half a knot and 360 degrees. A `size` of 2^1073 is a half.
proof fn lemma_limits()
    ensures
        double::size(DANGER_CPA_NM) == pow2(1073),
        double::size(DANGER_TCPA_MIN) == 24 * pow2(1073),
        double::size(STEERAGE_KN) == pow2(1073),
        double::size(CIRCLE_DEG) == 720 * pow2(1073),
{
    lemma2_to64();
    lemma2_to64_rest();
    double::lemma_halves(DANGER_CPA_NM, 0, 1022, 1, 52);
    double::lemma_halves(DANGER_TCPA_MIN, 0x8_0000_0000_0000, 1026, 24, 48);
    double::lemma_halves(CIRCLE_DEG, 0x6_8000_0000_0000, 1031, 720, 43);
}

/// A vessel at a live position that passes within half a mile in twelve
/// minutes or less is a danger, and no other is. A `size` of 2^1073 is a
/// half.
pub proof fn within_half_a_mile_in_twelve_minutes_is_a_danger(
    mmsi: u32,
    v: VesselView,
    now: u64,
    plot: Plot,
    c: Closest,
)
    requires
        plot.closest == Some(c),
        v.position matches Some((_, at)) && now < at + 600_000_000_000,
        c.cpa_nm.bits <= 0x7ff0_0000_0000_0000,
        c.tcpa_minutes.bits <= 0x7ff0_0000_0000_0000,
    ensures
        target_of(mmsi, v, now, Some(plot)).danger <==> double::size(c.cpa_nm.bits) <= pow2(1073)
            && double::size(c.tcpa_minutes.bits) <= 24 * pow2(1073),
        !target_of(mmsi, v, now, None).danger,
        !target_of(mmsi, v, now, Some(Plot { closest: None, ..plot })).danger,
{
    lemma_limits();
}

/// A vessel with a live position is shown at the range and bearing at which
/// it was plotted, and as close as it was found to come. A bearing of 360
/// degrees or more is shown as none, due north.
pub proof fn a_plot_is_shown_as_it_was_made(
    mmsi: u32,
    v: VesselView,
    now: u64,
    plot: Plot,
)
    requires
        v.position matches Some((_, at)) && now < at + 600_000_000_000,
        plot.bearing_deg.bits <= 0x7ff0_0000_0000_0000,
    ensures
        ({
            let target = target_of(mmsi, v, now, Some(plot));
            &&& target.range_nm == Some(plot.range_nm)
            &&& double::size(plot.bearing_deg.bits) < 720 * pow2(1073) ==> target.bearing_deg
                == Some(plot.bearing_deg)
            &&& double::size(plot.bearing_deg.bits) >= 720 * pow2(1073) ==> (
            target.bearing_deg matches Some(b) && b.bits == 0)
            &&& plot.closest matches Some(c) ==> target.cpa_nm == Some(c.shown_cpa_nm)
                && target.tcpa_minutes == Some(c.shown_tcpa_minutes)
            &&& plot.closest is None ==> target.cpa_nm is None && target.tcpa_minutes is None
        }),
{
    lemma_limits();
}

/// How close a vessel comes is known where both it and the boat are stopped
/// or under way, and nowhere else; range and bearing always are.
pub proof fn an_approach_needs_both_motions(
    mmsi: u32,
    range_nm: Double,
    bearing_deg: Double,
    theirs: Motion,
    ours: Motion,
    closest: Closest,
)
    ensures
        ({
            let plot = plotted(mmsi, range_nm, bearing_deg, theirs, ours, closest);
            let known = |m: Motion| m is Stopped || m is UnderWay;
            &&& plot.mmsi == mmsi
            &&& plot.range_nm == range_nm
            &&& plot.bearing_deg == bearing_deg
            &&& known(theirs) && known(ours) ==> plot.closest == Some(closest)
            &&& !known(theirs) || !known(ours) ==> plot.closest is None
        }),
{
}

/// A vessel that tells its speed and course is under way on them. One that
/// tells no course is stopped where it makes less than half a knot, and
/// nothing is known of its motion otherwise. A `size` of 2^1073 is a half.
pub proof fn a_vessel_without_a_course_is_stopped_or_unknown(
    sog_kn: Option<Double>,
    cog_deg: Option<Double>,
)
    requires
        sog_kn matches Some(s) ==> s.bits <= 0x7ff0_0000_0000_0000,
    ensures
        ({
            let m = motion_of(sog_kn, cog_deg);
            &&& m is Unknown <==> sog_kn is None || (cog_deg is None && double::size(sog_kn->0.bits)
                >= pow2(1073))
            &&& m is Stopped <==> sog_kn is Some && cog_deg is None && double::size(
                sog_kn->0.bits,
            ) < pow2(1073)
            &&& m matches Motion::UnderWay { sog_kn: s, cog_deg: c } ==> sog_kn == Some(s)
                && cog_deg == Some(c)
        }),
{
    lemma_limits();
}

/// The nearer vessel is listed first, one that has a range before one that
/// has none, and of two as near as each other, or both without a range, the
/// one with the lower MMSI.
pub proof fn the_nearest_is_listed_first(
    a_range: Option<Double>,
    a_mmsi: u32,
    b_range: Option<Double>,
    b_mmsi: u32,
)
    requires
        a_range matches Some(a) ==> !double::is_negative(a),
        b_range matches Some(b) ==> !double::is_negative(b),
    ensures
        a_range is Some && b_range is Some && double::size(a_range->0.bits) < double::size(
            b_range->0.bits,
        ) ==> is_before(a_range, a_mmsi, b_range, b_mmsi) && !is_before(
            b_range,
            b_mmsi,
            a_range,
            a_mmsi,
        ),
        a_range is Some && b_range is None ==> is_before(a_range, a_mmsi, b_range, b_mmsi)
            && !is_before(b_range, b_mmsi, a_range, a_mmsi),
        a_range == b_range ==> (is_before(a_range, a_mmsi, b_range, b_mmsi) <==> a_mmsi < b_mmsi),
{
    if let (Some(a), Some(b)) = (a_range, b_range) {
        double::ranks_order_as_numbers(a, b);
    }
}

/// Each ship type has the words that its code stands for: the tens say what
/// sort of vessel it is, and in the thirties and fifties the units say what
/// it does.
pub proof fn a_ship_type_has_its_words(code: u8)
    ensures
        ({
            let tens = code / 10;
            let units = code % 10;
            &&& tens <= 1 || tens >= 10 ==> kind_of(code) is None
            &&& tens == 2 ==> kind_of(code) == Some("wing in ground"@)
            &&& tens == 4 ==> kind_of(code) == Some("high speed craft"@)
            &&& tens == 6 ==> kind_of(code) == Some("passenger"@)
            &&& tens == 7 ==> kind_of(code) == Some("cargo"@)
            &&& tens == 8 ==> kind_of(code) == Some("tanker"@)
            &&& tens == 9 ==> kind_of(code) == Some("other"@)
            &&& tens == 3 ==> {
                &&& units == 0 ==> kind_of(code) == Some("fishing"@)
                &&& units == 1 || units == 2 ==> kind_of(code) == Some("towing"@)
                &&& units == 3 ==> kind_of(code) == Some("dredging"@)
                &&& units == 4 ==> kind_of(code) == Some("diving"@)
                &&& units == 5 ==> kind_of(code) == Some("military"@)
                &&& units == 6 ==> kind_of(code) == Some("sailing"@)
                &&& units == 7 ==> kind_of(code) == Some("pleasure craft"@)
                &&& units >= 8 ==> kind_of(code) is None
            }
            &&& tens == 5 ==> {
                &&& units == 0 ==> kind_of(code) == Some("pilot"@)
                &&& units == 1 ==> kind_of(code) == Some("search and rescue"@)
                &&& units == 2 ==> kind_of(code) == Some("tug"@)
                &&& units == 3 ==> kind_of(code) == Some("port tender"@)
                &&& units == 5 ==> kind_of(code) == Some("law enforcement"@)
                &&& units == 8 ==> kind_of(code) == Some("medical transport"@)
                &&& units == 4 || units == 6 || units == 7 || units == 9 ==> kind_of(code) is None
            }
        }),
{
}

/// A target that is shown has its type in words.
pub proof fn a_type_is_shown_in_words(mmsi: u32, v: VesselView, now: u64, plot: Option<Plot>)
    ensures
        target_of(mmsi, v, now, plot).kind == (if v.ship_type is Some {
            kind_of(v.ship_type->0)
        } else {
            None
        }),
{
}

/// Each status has the words that its code stands for; 9 to 13, which are
/// kept for later use, and 15, for none, have no words.
pub proof fn a_status_has_its_words(code: u8)
    ensures
        status_of(code) is Some <==> code <= 8 || code == 14,
        status_of(0) == Some("under way using engine"@),
        status_of(1) == Some("at anchor"@),
        status_of(2) == Some("not under command"@),
        status_of(3) == Some("restricted maneuverability"@),
        status_of(4) == Some("constrained by draught"@),
        status_of(5) == Some("moored"@),
        status_of(6) == Some("aground"@),
        status_of(7) == Some("engaged in fishing"@),
        status_of(8) == Some("under way sailing"@),
        status_of(14) == Some("AIS-SART active"@),
{
}

/// A vessel's plot is one of the plots made, and its own.
pub proof fn a_vessel_is_shown_by_its_own_plot(plots: Seq<Plot>, mmsi: u32)
    ensures
        match plot_of(plots, mmsi) {
            Some(plot) => plot.mmsi == mmsi && plots.contains(plot),
            None => forall|i: int| 0 <= i < plots.len() ==> (#[trigger] plots[i]).mmsi != mmsi,
        },
    decreases plots.len(),
{
    if plots.len() > 0 {
        let rest = plots.drop_first();
        a_vessel_is_shown_by_its_own_plot(rest, mmsi);
        if plots[0].mmsi == mmsi {
            assert(plots.contains(plots[0]));
        } else if let Some(plot) = plot_of(rest, mmsi) {
            let i: int = choose|i: int| 0 <= i < rest.len() && rest[i] == plot;
            assert(plots[i + 1] == plot);
        } else {
            assert forall|i: int| 0 <= i < plots.len() implies (#[trigger] plots[i]).mmsi
                != mmsi by {
                if i > 0 {
                    assert(rest[i - 1] == plots[i]);
                }
            }
        }
    }
}

/// Vessels are ranged from where the boat's last fix put her, moving as she
/// was last told to, while it is less than five seconds old; never from a fix
/// that isn't current.
pub proof fn the_boat_is_where_her_fix_is(
    nav: NavigationView,
    p: PositionView,
    at: u64,
    now: u64,
)
    requires
        fix::is_fix(p),
    ensures
        ({
            let own = own_of(fix::state_of(fix::updated(nav, p, at), now));
            &&& own is Some <==> now < at + 5_000_000_000
            &&& own matches Some(o) ==> {
                &&& Some(o.lat) == p.lat
                &&& Some(o.lon) == p.lon
                &&& p.kind == nmea::Kind::Rmc ==> o.sog_kn == p.sog_kn && o.cog_deg == p.cog_deg
            }
        }),
        own_of(fix::state_of(nav, now)) is Some ==> fix::state_of(nav, now).status
            == FixStatus::Current,
{
}

/// Where the boat is means what the fields hold.
pub proof fn the_boat_is_viewed_as_she_is(x: Own)
    ensures
        x@.lat == x.lat@,
        x@.lon == x.lon@,
        x@.sog_kn is Some <==> x.sog_kn is Some,
        x.sog_kn matches Some(inner) ==> x@.sog_kn == Some(inner@),
        x@.cog_deg is Some <==> x.cog_deg is Some,
        x.cog_deg matches Some(inner) ==> x@.cog_deg == Some(inner@),
{
}

/// Of several plots of a vessel the first counts.
pub proof fn the_first_plot_counts(plots: Seq<Plot>, i: int)
    requires
        0 <= i < plots.len(),
        forall|k: int| 0 <= k < i ==> (#[trigger] plots[k]).mmsi != plots[i].mmsi,
    ensures
        plot_of(plots, plots[i].mmsi) == Some(plots[i]),
    decreases plots.len(),
{
    if i > 0 {
        assert(plots[0].mmsi != plots[i].mmsi);
        let rest = plots.drop_first();
        assert(rest[i - 1] == plots[i]);
        assert forall|k: int| 0 <= k < i - 1 implies (#[trigger] rest[k]).mmsi
            != rest[i - 1].mmsi by {
            assert(plots[k + 1] == rest[k]);
        }
        the_first_plot_counts(rest, i - 1);
    }
}

/// A vessel is sighted where it last reported itself, as long ago as that is,
/// and only for ten minutes.
pub proof fn a_vessel_is_sighted_where_it_reported(
    before: Map<u32, VesselView>,
    p: Position,
    at: u64,
    after: Map<u32, VesselView>,
    now: u64,
    sighting: Sighting,
)
    requires
        updated(before, ReportView::Position(p), at, after),
        sighting.mmsi == p.mmsi,
    ensures
        is_sighting(after, now, sighting) <==> {
            &&& now < at + 600_000_000_000
            &&& sighting.position == p
            &&& now >= at ==> sighting.age == now - at
            &&& now < at ==> sighting.age == 0
        },
{
}

} // verus!
