//! The boat's fix as the hub knows it, and how fresh it is.

use crate::clock;
use crate::nmea::{Coordinate, CoordinateView, Kind, Position, PositionView};
use crate::number;
use crate::number::Number;
use crate::protocol;
use crate::protocol::{FixState, FixStateView, FixStatus};
use crate::text;
use vstd::prelude::*;
use vstd::string::*;

verus! {

/// A fix older than this is stale: still shown, never passed off as current.
pub const STALE_AFTER: u64 = 5_000_000_000;

/// What the last RMC to give a fix said besides.
struct Course {
    sog_kn: Option<Number>,
    cog_deg: Option<Number>,
    utc: Option<String>,
    at: u64,
}

/// What the last GGA to give a fix said besides.
struct Quality {
    satellites: Option<u8>,
    hdop: Option<Number>,
    at: u64,
}

struct Fix {
    lat: Coordinate,
    lon: Coordinate,
    at: u64,
    course: Option<Course>,
    quality: Option<Quality>,
}

/// The boat's fix, and what the receiver last said of it.
pub struct Navigation {
    fix: Option<Fix>,
    /// When a position sentence of any kind last arrived.
    heard: Option<u64>,
    /// The receiver is reporting no fix; cleared by the next good one.
    lost: bool,
}

pub struct CourseView {
    pub sog_kn: Option<Seq<char>>,
    pub cog_deg: Option<Seq<char>>,
    pub utc: Option<Seq<char>>,
    pub at: u64,
}

pub struct QualityView {
    pub satellites: Option<u8>,
    pub hdop: Option<Seq<char>>,
    pub at: u64,
}

pub struct FixView {
    pub lat: CoordinateView,
    pub lon: CoordinateView,
    pub at: u64,
    pub course: Option<CourseView>,
    pub quality: Option<QualityView>,
}

pub struct NavigationView {
    pub fix: Option<FixView>,
    pub heard: Option<u64>,
    pub lost: bool,
}

impl View for Course {
    type V = CourseView;

    closed spec fn view(&self) -> CourseView {
        CourseView {
            sog_kn: number::written(self.sog_kn),
            cog_deg: number::written(self.cog_deg),
            utc: text::text_of(self.utc),
            at: self.at,
        }
    }
}

impl View for Quality {
    type V = QualityView;

    closed spec fn view(&self) -> QualityView {
        QualityView {
            satellites: self.satellites,
            hdop: number::written(self.hdop),
            at: self.at,
        }
    }
}

impl View for Fix {
    type V = FixView;

    closed spec fn view(&self) -> FixView {
        FixView {
            lat: self.lat@,
            lon: self.lon@,
            at: self.at,
            course: match self.course {
                Some(c) => Some(c@),
                None => None,
            },
            quality: match self.quality {
                Some(q) => Some(q@),
                None => None,
            },
        }
    }
}

impl View for Navigation {
    type V = NavigationView;

    closed spec fn view(&self) -> NavigationView {
        NavigationView {
            fix: match self.fix {
                Some(f) => Some(f@),
                None => None,
            },
            heard: self.heard,
            lost: self.lost,
        }
    }
}

/// Nothing heard.
pub open spec fn silence() -> NavigationView {
    NavigationView { fix: None, heard: None, lost: false }
}

/// The fix after a valid position: the place is the new one's, and each
/// sentence replaces its own fields, even with empties, so an old speed never
/// outlives the sentence that stopped sending it.
pub open spec fn refreshed(
    fix: Option<FixView>,
    p: PositionView,
    lat: CoordinateView,
    lon: CoordinateView,
    at: u64,
) -> FixView {
    FixView {
        lat,
        lon,
        at,
        course: match p.kind {
            Kind::Rmc => Some(
                CourseView { sog_kn: p.sog_kn, cog_deg: p.cog_deg, utc: p.utc, at },
            ),
            Kind::Gga => match fix {
                Some(f) => f.course,
                None => None,
            },
        },
        quality: match p.kind {
            Kind::Rmc => match fix {
                Some(f) => f.quality,
                None => None,
            },
            Kind::Gga => Some(QualityView { satellites: p.satellites, hdop: p.hdop, at }),
        },
    }
}

/// What the hub knows after a position sentence.
pub open spec fn updated(nav: NavigationView, p: PositionView, at: u64) -> NavigationView {
    if !p.valid {
        NavigationView { heard: Some(at), lost: true, ..nav }
    } else {
        match (p.lat, p.lon) {
            (Some(lat), Some(lon)) => NavigationView {
                fix: Some(refreshed(nav.fix, p, lat, lon, at)),
                heard: Some(at),
                lost: false,
            },
            _ => NavigationView { heard: Some(at), ..nav },
        }
    }
}

/// The receiver has sent a position sentence in the last `STALE_AFTER`.
pub open spec fn is_talking(nav: NavigationView, now: u64) -> bool {
    nav.heard matches Some(t) && clock::since(now, t) < STALE_AFTER
}

/// How good a fix is: `Nofix` while the receiver keeps saying it has none,
/// `Stale` once it is `STALE_AFTER` old.
pub open spec fn fix_status(nav: NavigationView, fix: FixView, now: u64) -> FixStatus {
    let stale = clock::since(now, fix.at) >= STALE_AFTER;
    if nav.lost && (is_talking(nav, now) || !stale) {
        FixStatus::Nofix
    } else if stale {
        FixStatus::Stale
    } else {
        FixStatus::Current
    }
}

/// The newest RMC, unless the newest position is `STALE_AFTER` newer.
pub open spec fn current_course(fix: FixView) -> Option<CourseView> {
    match fix.course {
        Some(c) => if clock::since(fix.at, c.at) < STALE_AFTER {
            Some(c)
        } else {
            None
        },
        None => None,
    }
}

/// The newest GGA, unless the newest position is `STALE_AFTER` newer.
pub open spec fn current_quality(fix: FixView) -> Option<QualityView> {
    match fix.quality {
        Some(q) => if clock::since(fix.at, q.at) < STALE_AFTER {
            Some(q)
        } else {
            None
        },
        None => None,
    }
}

/// The fix as apps are told it.
pub open spec fn state_of(nav: NavigationView, now: u64) -> FixStateView {
    match nav.fix {
        None => protocol::only_status(
            if is_talking(nav, now) {
                FixStatus::Nofix
            } else {
                FixStatus::Unheard
            },
        ),
        Some(fix) => FixStateView {
            status: fix_status(nav, fix, now),
            lat: Some(fix.lat),
            lon: Some(fix.lon),
            sog_kn: match current_course(fix) {
                Some(c) => c.sog_kn,
                None => None,
            },
            cog_deg: match current_course(fix) {
                Some(c) => c.cog_deg,
                None => None,
            },
            utc: match current_course(fix) {
                Some(c) => c.utc,
                None => None,
            },
            satellites: match current_quality(fix) {
                Some(q) => q.satellites,
                None => None,
            },
            hdop: match current_quality(fix) {
                Some(q) => q.hdop,
                None => None,
            },
            age_seconds: Some(clock::since(now, fix.at) / clock::SECOND),
        },
    }
}

impl Default for Navigation {
    fn default() -> (nav: Navigation)
        ensures
            nav@ == silence(),
    {
        Navigation { fix: None, heard: None, lost: false }
    }
}

impl Navigation {
    /// Takes a position sentence that arrived at `at`.
    pub fn update(&mut self, p: Position, at: u64)
        ensures
            final(self)@ == updated(old(self)@, p@, at),
    {
        self.heard = Some(at);
        if !p.valid {
            self.lost = true;
            return;
        }
        let (lat, lon) = match (p.lat, p.lon) {
            (Some(lat), Some(lon)) => (lat, lon),
            _ => return,
        };
        self.lost = false;
        let (course, quality) = match self.fix.take() {
            Some(fix) => (fix.course, fix.quality),
            None => (None, None),
        };
        self.fix = match p.kind {
            Kind::Rmc => Some(
                Fix {
                    lat,
                    lon,
                    at,
                    course: Some(
                        Course { sog_kn: p.sog_kn, cog_deg: p.cog_deg, utc: p.utc, at },
                    ),
                    quality,
                },
            ),
            Kind::Gga => Some(
                Fix {
                    lat,
                    lon,
                    at,
                    course,
                    quality: Some(Quality { satellites: p.satellites, hdop: p.hdop, at }),
                },
            ),
        };
    }

    fn talking(&self, now: u64) -> (yes: bool)
        ensures
            yes == is_talking(self@, now),
    {
        match self.heard {
            Some(t) => clock::elapsed(now, t) < STALE_AFTER,
            None => false,
        }
    }

    /// The fix as apps are told it at `now`.
    pub fn state(&self, now: u64) -> (state: FixState)
        ensures
            state@ == state_of(self@, now),
    {
        let fix = match &self.fix {
            Some(fix) => fix,
            None => {
                return FixState::without_position(
                    if self.talking(now) {
                        FixStatus::Nofix
                    } else {
                        FixStatus::Unheard
                    },
                );
            },
        };
        let age: u64 = clock::elapsed(now, fix.at);
        let stale = age >= STALE_AFTER;
        let status = if self.lost && (self.talking(now) || !stale) {
            FixStatus::Nofix
        } else if stale {
            FixStatus::Stale
        } else {
            FixStatus::Current
        };
        let mut state = FixState {
            status,
            lat: Some(fix.lat.clone()),
            lon: Some(fix.lon.clone()),
            sog_kn: None,
            cog_deg: None,
            utc: None,
            satellites: None,
            hdop: None,
            age_seconds: Some(age / clock::SECOND),
        };
        if let Some(course) = &fix.course {
            if clock::elapsed(fix.at, course.at) < STALE_AFTER {
                state.sog_kn = number::copy(&course.sog_kn);
                state.cog_deg = number::copy(&course.cog_deg);
                state.utc = text::copy(&course.utc);
            }
        }
        if let Some(quality) = &fix.quality {
            if clock::elapsed(fix.at, quality.at) < STALE_AFTER {
                state.satellites = quality.satellites;
                state.hdop = number::copy(&quality.hdop);
            }
        }
        state
    }
}

/// A position good enough to navigate by.
pub open spec fn is_fix(p: PositionView) -> bool {
    p.valid && p.lat is Some && p.lon is Some
}

/// A fix is current for five seconds from when it came, and stale from then
/// on: still shown where it was, with its age.
pub proof fn a_fix_is_current_then_stale(
    nav: NavigationView,
    p: PositionView,
    at: u64,
    now: u64,
)
    requires
        is_fix(p),
    ensures
        state_of(updated(nav, p, at), now).status == (if clock::since(now, at) < 5_000_000_000 {
            FixStatus::Current
        } else {
            FixStatus::Stale
        }),
        state_of(updated(nav, p, at), now).lat == p.lat,
        state_of(updated(nav, p, at), now).lon == p.lon,
        state_of(updated(nav, p, at), now).age_seconds == Some(
            clock::since(now, at) / 1_000_000_000,
        ),
{
}

/// Nothing is passed off as current that isn't: a current fix is younger than
/// five seconds, and the receiver hasn't lost it since.
pub proof fn current_means_current(nav: NavigationView, now: u64)
    ensures
        state_of(nav, now).status == FixStatus::Current ==> {
            &&& !nav.lost
            &&& nav.fix matches Some(fix) && clock::since(now, fix.at) < 5_000_000_000
        },
{
}

/// Speed and course are never passed off as current once the receiver has
/// stopped sending them: those shown with a current fix are from an RMC less
/// than five seconds before the newest position, itself that fresh.
pub proof fn a_shown_speed_is_recent(nav: NavigationView, now: u64)
    requires
        state_of(nav, now).sog_kn is Some || state_of(nav, now).cog_deg is Some,
    ensures
        ({
            let fix = nav.fix->0;
            &&& nav.fix is Some
            &&& fix.course matches Some(c) && clock::since(fix.at, c.at) < 5_000_000_000 && state_of(
                nav,
                now,
            ).sog_kn == c.sog_kn && state_of(nav, now).cog_deg == c.cog_deg
            &&& state_of(nav, now).status == FixStatus::Current ==> clock::since(now, fix.at)
                < 5_000_000_000
        }),
{
}

/// A receiver that says it has no fix is believed while it talks; the last
/// position stays, with its age.
pub proof fn losing_the_fix_keeps_the_position(
    nav: NavigationView,
    p: PositionView,
    at: u64,
    now: u64,
)
    requires
        !p.valid,
    ensures
        state_of(updated(nav, p, at), now).status != FixStatus::Current,
        clock::since(now, at) < 5_000_000_000 ==> state_of(updated(nav, p, at), now).status
            == FixStatus::Nofix,
        state_of(updated(nav, p, at), now).lat == state_of(nav, now).lat,
        state_of(updated(nav, p, at), now).lon == state_of(nav, now).lon,
        state_of(updated(nav, p, at), now).age_seconds == state_of(nav, now).age_seconds,
{
}

/// Speed, course and time are those of the newest RMC, empty where it left
/// them empty; satellites and dilution those of the newest GGA. Neither
/// touches what is the other's.
pub proof fn each_sentence_fills_in_its_own(
    nav: NavigationView,
    p: PositionView,
    at: u64,
    now: u64,
)
    requires
        is_fix(p),
    ensures
        p.kind == Kind::Rmc ==> {
            let state = state_of(updated(nav, p, at), now);
            state.sog_kn == p.sog_kn && state.cog_deg == p.cog_deg && state.utc == p.utc
        },
        p.kind == Kind::Gga ==> {
            let state = state_of(updated(nav, p, at), now);
            state.satellites == p.satellites && state.hdop == p.hdop
        },
        (p.kind == Kind::Rmc && nav.fix is Some) ==> updated(nav, p, at).fix->0.quality
            == nav.fix->0.quality,
        (p.kind == Kind::Gga && nav.fix is Some) ==> updated(nav, p, at).fix->0.course
            == nav.fix->0.course,
{
}

/// Speed and course go missing once positions come five seconds after the
/// last RMC that gave them.
pub proof fn an_old_speed_goes_missing(
    nav: NavigationView,
    rmc: PositionView,
    at: u64,
    gga: PositionView,
    later: u64,
    now: u64,
)
    requires
        is_fix(rmc),
        rmc.kind == Kind::Rmc,
        is_fix(gga),
        gga.kind == Kind::Gga,
        clock::since(later, at) >= 5_000_000_000,
    ensures
        ({
            let state = state_of(updated(updated(nav, rmc, at), gga, later), now);
            state.sog_kn is None && state.cog_deg is None && state.utc is None && state.lat
                == gga.lat
        }),
{
}

/// Before the first fix the receiver is only as good as it is talking.
pub proof fn acquiring_is_nofix_until_quiet(nav: NavigationView, now: u64)
    requires
        nav.fix is None,
    ensures
        state_of(nav, now) == protocol::only_status(
            if nav.heard matches Some(t) && now < t + 5_000_000_000 {
                FixStatus::Nofix
            } else {
                FixStatus::Unheard
            },
        ),
{
}

/// Of two fixes, the one that came last is the one shown.
pub proof fn the_most_recent_fix_wins(
    nav: NavigationView,
    first: PositionView,
    second: PositionView,
    at: u64,
    later: u64,
    now: u64,
)
    requires
        is_fix(first),
        is_fix(second),
    ensures
        ({
            let state = state_of(updated(updated(nav, first, at), second, later), now);
            state.lat == second.lat && state.lon == second.lon && state.age_seconds == Some(
                clock::since(now, later) / 1_000_000_000,
            )
        }),
{
}

/// Speed and satellites are shown together where the sentences that gave them
/// came less than five seconds apart, whichever came first; the place is the
/// last one's.
pub proof fn both_sentences_are_shown_together(
    nav: NavigationView,
    rmc: PositionView,
    gga: PositionView,
    at: u64,
    later: u64,
    now: u64,
)
    requires
        is_fix(rmc),
        rmc.kind == Kind::Rmc,
        is_fix(gga),
        gga.kind == Kind::Gga,
        later < at + 5_000_000_000,
    ensures
        ({
            let state = state_of(updated(updated(nav, rmc, at), gga, later), now);
            &&& state.lat == gga.lat && state.lon == gga.lon
            &&& state.sog_kn == rmc.sog_kn && state.cog_deg == rmc.cog_deg && state.utc == rmc.utc
            &&& state.satellites == gga.satellites && state.hdop == gga.hdop
        }),
        ({
            let state = state_of(updated(updated(nav, gga, at), rmc, later), now);
            &&& state.lat == rmc.lat && state.lon == rmc.lon
            &&& state.sog_kn == rmc.sog_kn && state.cog_deg == rmc.cog_deg && state.utc == rmc.utc
            &&& state.satellites == gga.satellites && state.hdop == gga.hdop
        }),
{
}

/// Satellites and dilution go missing once positions come five seconds after
/// the last GGA that gave them.
pub proof fn old_satellites_go_missing(
    nav: NavigationView,
    gga: PositionView,
    at: u64,
    rmc: PositionView,
    later: u64,
    now: u64,
)
    requires
        is_fix(gga),
        gga.kind == Kind::Gga,
        is_fix(rmc),
        rmc.kind == Kind::Rmc,
        later >= at + 5_000_000_000,
    ensures
        ({
            let state = state_of(updated(updated(nav, gga, at), rmc, later), now);
            state.satellites is None && state.hdop is None && state.lat == rmc.lat
        }),
{
}

/// Once a receiver that said it had no fix falls silent, what is left is the
/// last fix, stale: five seconds after it last spoke, and five after the fix.
pub proof fn a_lost_fix_goes_stale_in_silence(
    nav: NavigationView,
    fix: PositionView,
    at: u64,
    none: PositionView,
    later: u64,
    now: u64,
)
    requires
        is_fix(fix),
        !none.valid,
        now >= later + 5_000_000_000,
    ensures
        ({
            let state = state_of(updated(updated(nav, fix, at), none, later), now);
            &&& state.status == (if now >= at + 5_000_000_000 {
                FixStatus::Stale
            } else {
                FixStatus::Nofix
            })
            &&& state.lat == fix.lat && state.lon == fix.lon
        }),
{
}

/// A sentence that has no place in it, though it is valid, leaves the fix as
/// it is: the receiver has spoken, and that is all.
pub proof fn a_sentence_without_a_place_gives_no_fix(
    nav: NavigationView,
    p: PositionView,
    at: u64,
    now: u64,
)
    requires
        p.valid,
        p.lat is None || p.lon is None,
    ensures
        updated(nav, p, at).fix == nav.fix,
        updated(nav, p, at).lost == nav.lost,
        nav.fix is None && now < at + 5_000_000_000 ==> state_of(updated(nav, p, at), now).status
            == FixStatus::Nofix,
        !nav.lost && nav.fix is Some ==> state_of(updated(nav, p, at), now) == state_of(nav, now),
{
}

/// A good fix ends whatever was lost before it.
pub proof fn a_good_fix_is_believed_again(
    nav: NavigationView,
    none: PositionView,
    at: u64,
    fix: PositionView,
    later: u64,
)
    requires
        !none.valid,
        is_fix(fix),
    ensures
        state_of(updated(updated(nav, none, at), fix, later), later).status == FixStatus::Current,
        state_of(updated(updated(nav, none, at), fix, later), later).age_seconds == Some(0u64),
{
}

/// Nothing is known of a silent receiver.
pub proof fn silence_tells_nothing(now: u64)
    ensures
        state_of(silence(), now) == protocol::only_status(FixStatus::Unheard),
        protocol::only_status(FixStatus::Unheard).lat is None,
        protocol::only_status(FixStatus::Unheard).age_seconds is None,
{
}

} // verus!
