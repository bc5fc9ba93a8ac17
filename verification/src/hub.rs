//! The hub: sentences in from every source, one state out to every app.

use crate::ais;
use crate::ais::{Assembler, PendingView, Report, ReportView};
use crate::clock;
use crate::fix;
use crate::fix::{Navigation, NavigationView};
use crate::nmea;
use crate::protocol;
use crate::protocol::{
    FixState,
    Message,
    SourceState,
    SourceStateView,
    SourceStatus,
    Target,
};
use crate::source;
use crate::source::{Event, EventView, Spec};
use crate::targets;
use crate::targets::{Traffic, VesselView};
use crate::text;
use vstd::prelude::*;
use vstd::string::*;

verus! {

/// Messages queued for one app. An app that falls this far behind is dropped.
pub const QUEUE: usize = 64;

/// An app that can't take one message in this long, in nanoseconds, has
/// stalled.
pub const WRITE_TIMEOUT: u64 = 2_000_000_000;

pub struct Config {
    pub sources: Vec<Spec>,
    /// The bytes of the socket's path.
    pub socket: Vec<u8>,
    /// Where to record every line received, if anywhere. Never overwritten.
    pub record: Option<String>,
}

struct Followed {
    state: SourceState,
    heard: Option<u64>,
    assembler: Assembler,
}

/// What the hub knows of a source.
pub struct FollowedView {
    /// What apps are told of it.
    pub state: SourceStateView,
    /// When it last sent a line.
    pub heard: Option<u64>,
    /// The AIS messages it has sent in part.
    pub pending: Seq<PendingView>,
}

impl View for Followed {
    type V = FollowedView;

    closed spec fn view(&self) -> FollowedView {
        FollowedView { state: self.state@, heard: self.heard, pending: self.assembler@ }
    }
}

/// Everything the hub knows.
pub struct Hub {
    sources: Vec<Followed>,
    nav: Navigation,
    traffic: Traffic,
}

pub struct HubView {
    pub sources: Seq<FollowedView>,
    pub nav: NavigationView,
    pub traffic: Map<u32, VesselView>,
}

spec fn followed(sources: Seq<Followed>) -> Seq<FollowedView> {
    Seq::new(sources.len(), |i: int| sources[i]@)
}

impl View for Hub {
    type V = HubView;

    closed spec fn view(&self) -> HubView {
        HubView {
            sources: followed(self.sources@),
            nav: self.nav@,
            traffic: self.traffic@,
        }
    }
}

/// What holds of a hub whatever it has heard: a few AIS messages wait at
/// each source, and the vessels are bounded.
pub open spec fn is_hub(hub: HubView) -> bool {
    &&& forall|i: int|
        0 <= i < hub.sources.len() ==> ais::is_queue((#[trigger] hub.sources[i]).pending)
    &&& hub.traffic.dom().finite()
    &&& hub.traffic.len() <= targets::MAX_VESSELS
}

/// A source that has yet to be heard.
pub open spec fn unfollowed(name: Seq<char>) -> FollowedView {
    FollowedView { state: protocol::unheard(name), heard: None, pending: Seq::empty() }
}

/// A hub that has heard nothing.
pub open spec fn silent(specs: Seq<Spec>) -> HubView {
    HubView {
        sources: Seq::new(specs.len(), |i: int| unfollowed(source::name_of(specs[i]@))),
        nav: fix::silence(),
        traffic: Map::empty(),
    }
}

/// The source that an event is from.
pub open spec fn origin(event: EventView) -> usize {
    match event {
        EventView::Line { source, .. } => source,
        EventView::Status { source, .. } => source,
    }
}

/// The event is from a source that the hub has, and its count isn't full.
pub open spec fn accepts(hub: HubView, event: EventView) -> bool {
    &&& origin(event) < hub.sources.len()
    &&& event is Line ==> hub.sources[origin(event) as int].state.sentences < u64::MAX
        && hub.sources[origin(event) as int].state.rejected < u64::MAX
}

/// A source that has just sent a line.
pub open spec fn receiving(t: FollowedView, now: u64) -> FollowedView {
    FollowedView {
        state: SourceStateView {
            status: SourceStatus::Receiving,
            message: None,
            ..t.state
        },
        heard: Some(now),
        ..t
    }
}

/// A source whose line was rejected.
pub open spec fn rejecting(t: FollowedView, now: u64) -> FollowedView {
    FollowedView {
        state: SourceStateView {
            rejected: (t.state.rejected + 1) as u64,
            ..receiving(t, now).state
        },
        ..receiving(t, now)
    }
}

/// A source whose line checked out as a sentence.
pub open spec fn counting(t: FollowedView, now: u64, pending: Seq<PendingView>) -> FollowedView {
    FollowedView {
        state: SourceStateView {
            sentences: (t.state.sentences + 1) as u64,
            ..receiving(t, now).state
        },
        pending,
        ..receiving(t, now)
    }
}

/// `history` is what is known of the vessels before reports, and after each
/// in turn.
pub open spec fn is_history(
    history: Seq<Map<u32, VesselView>>,
    reports: Seq<ReportView>,
    at: u64,
) -> bool {
    &&& history.len() == reports.len() + 1
    &&& forall|i: int|
        #![trigger reports[i]]
        0 <= i < reports.len() ==> targets::updated(history[i], reports[i], at, history[i + 1])
}

/// `after` is what is known of the vessels after reports in turn.
pub open spec fn all_heard(
    before: Map<u32, VesselView>,
    reports: Seq<ReportView>,
    at: u64,
    after: Map<u32, VesselView>,
) -> bool {
    exists|history: Seq<Map<u32, VesselView>>| #[trigger]
        is_history(history, reports, at) && history.first() == before && history.last() == after
}

/// `after` is what the hub knows after a line. A sentence counts, and gives
/// a position or completes an AIS message where it does; anything else is
/// only counted as rejected.
pub open spec fn line_taken(
    before: HubView,
    source: int,
    line: Seq<char>,
    now: u64,
    after: HubView,
) -> bool {
    let t = before.sources[source];
    match nmea::parsed(line) {
        Err(_) => after == (HubView {
            sources: before.sources.update(source, rejecting(t, now)),
            ..before
        }),
        Ok(sentence) => {
            let (pending, reports) = ais::fed(t.pending, sentence);
            &&& after.sources == before.sources.update(source, counting(t, now, pending))
            &&& after.nav == match nmea::position_of(sentence) {
                Some(p) => fix::updated(before.nav, p, now),
                None => before.nav,
            }
            &&& all_heard(before.traffic, reports, now, after.traffic)
        },
    }
}

/// `after` is what the hub knows after an event.
pub open spec fn taken(before: HubView, event: EventView, now: u64, after: HubView) -> bool {
    match event {
        EventView::Line { source, line } => line_taken(before, source as int, line, now, after),
        EventView::Status { source, status, message } => {
            let t = before.sources[source as int];
            after == (HubView {
                sources: before.sources.update(
                    source as int,
                    FollowedView {
                        state: SourceStateView { status, message, ..t.state },
                        ..t
                    },
                ),
                ..before
            })
        },
    }
}

/// A source that was receiving goes quiet after `STALE_AFTER` of nothing.
pub open spec fn judged_source(t: FollowedView, now: u64) -> FollowedView {
    if t.state.status == SourceStatus::Receiving && (t.heard matches Some(at) && clock::since(
        now,
        at,
    ) >= fix::STALE_AFTER) {
        FollowedView {
            state: SourceStateView { status: SourceStatus::Quiet, ..t.state },
            ..t
        }
    } else {
        t
    }
}

/// What the hub knows once it has judged how fresh everything is.
pub open spec fn judged(hub: HubView, now: u64) -> HubView {
    HubView {
        sources: Seq::new(hub.sources.len(), |i: int| judged_source(hub.sources[i], now)),
        nav: hub.nav,
        traffic: targets::expired(hub.traffic, now),
    }
}

proof fn lemma_followed(sources: Seq<Followed>, i: int, t: Followed)
    requires
        0 <= i < sources.len(),
    ensures
        followed(sources.update(i, t)) == followed(sources).update(i, t@),
{
    assert(followed(sources.update(i, t)) =~= followed(sources).update(i, t@));
}

/// Every report a sentence holds is taken in turn.
fn hear_all(traffic: &mut Traffic, reports: Vec<Report>, at: u64)
    requires
        old(traffic)@.dom().finite(),
        old(traffic)@.len() <= targets::MAX_VESSELS,
    ensures
        all_heard(old(traffic)@, ais::told(reports@), at, final(traffic)@),
        final(traffic)@.dom().finite(),
        final(traffic)@.len() <= targets::MAX_VESSELS,
{
    let ghost all = ais::told(reports@);
    let ghost mut history = seq![traffic@];
    let mut rest = reports;
    let ghost mut i: int = 0;
    assert(ais::told(rest@) =~= all.skip(0));
    while rest.len() > 0
        invariant
            i >= 0,
            i + rest@.len() == all.len(),
            ais::told(rest@) == all.skip(i),
            is_history(history, all.take(i), at),
            history.first() == old(traffic)@,
            history.last() == traffic@,
            traffic@.dom().finite(),
            traffic@.len() <= targets::MAX_VESSELS,
        decreases rest.len(),
    {
        let ghost shorter = rest@;
        let report = rest.remove(0);
        proof {
            assert(ais::told(shorter)[0] == all.skip(i)[0]);
            assert(report@ == all[i]);
            assert forall|k: int| 0 <= k < rest@.len() implies ais::told(rest@)[k] == all.skip(
                i + 1,
            )[k] by {
                assert(ais::told(shorter)[k + 1] == all.skip(i)[k + 1]);
            }
            assert(ais::told(rest@) =~= all.skip(i + 1));
        }
        let ghost between = traffic@;
        traffic.update(report, at);
        proof {
            targets::the_table_stays_bounded(between, all[i], at, traffic@);
            let after = history.push(traffic@);
            let taken = all.take(i + 1);
            assert forall|k: int| #![trigger taken[k]] 0 <= k < taken.len() implies targets::updated(
                after[k],
                taken[k],
                at,
                after[k + 1],
            ) by {
                if k < i {
                    assert(all.take(i)[k] == taken[k]);
                }
            }
            history = after;
            i = i + 1;
        }
    }
    assert(all.take(i) == all);
}

impl Hub {
    /// A hub that has heard nothing from these sources yet.
    pub fn new(specs: &Vec<Spec>) -> (hub: Hub)
        ensures
            hub@ == silent(specs@),
            is_hub(hub@),
    {
        let mut sources: Vec<Followed> = Vec::new();
        let mut i: usize = 0;
        while i < specs.len()
            invariant
                i <= specs.len(),
                sources@.len() == i,
                forall|k: int|
                    0 <= k < i ==> (#[trigger] sources@[k])@ == unfollowed(
                        source::name_of(specs@[k]@),
                    ),
            decreases specs.len() - i,
        {
            sources.push(
                Followed {
                    state: SourceState::new(specs[i].to_string()),
                    heard: None,
                    assembler: Assembler::default(),
                },
            );
            i = i + 1;
        }
        let hub = Hub { sources, nav: Navigation::default(), traffic: Traffic::default() };
        assert(hub@.sources =~= silent(specs@).sources);
        assert(hub@.traffic.dom() =~= Set::<u32>::empty());
        hub
    }

    /// Whether `take` can take an event.
    pub fn accepts(&self, event: &Event) -> (yes: bool)
        ensures
            yes == accepts(self@, event@),
    {
        match event {
            Event::Line { source, .. } => {
                *source < self.sources.len() && self.sources[*source].state.sentences < u64::MAX
                    && self.sources[*source].state.rejected < u64::MAX
            },
            Event::Status { source, .. } => *source < self.sources.len(),
        }
    }

    /// Takes what a source had to say at `now`.
    pub fn take(&mut self, event: Event, now: u64)
        requires
            is_hub(old(self)@),
            accepts(old(self)@, event@),
        ensures
            taken(old(self)@, event@, now, final(self)@),
            is_hub(final(self)@),
    {
        let ghost before = self@;
        let ghost all = self.sources@;
        match event {
            Event::Status { source, status, message } => {
                let mut t = self.sources.remove(source);
                t.state.status = status;
                t.state.message = message;
                self.sources.insert(source, t);
                proof {
                    assert(self.sources@ == all.update(source as int, t));
                    lemma_followed(all, source as int, t);
                    assert(t@.state.message == text::text_of(message));
                }
            },
            Event::Line { source, line } => {
                let mut t = self.sources.remove(source);
                let ghost was = t@;
                assert(was == before.sources[source as int]);
                t.heard = Some(now);
                t.state.status = SourceStatus::Receiving;
                t.state.message = None;
                match nmea::parse(line.as_str()) {
                    Ok(sentence) => {
                        t.state.sentences = t.state.sentences + 1;
                        if let Some(position) = nmea::position(&sentence) {
                            self.nav.update(position, now);
                        }
                        let reports = t.assembler.feed(&sentence);
                        hear_all(&mut self.traffic, reports, now);
                    },
                    Err(_) => {
                        t.state.rejected = t.state.rejected + 1;
                    },
                }
                self.sources.insert(source, t);
                proof {
                    assert(self.sources@ == all.update(source as int, t));
                    lemma_followed(all, source as int, t);
                }
            },
        }
    }

    /// Judges how fresh everything is: sources go quiet, and vessels not
    /// heard for long are dropped.
    pub fn judge(&mut self, now: u64)
        requires
            is_hub(old(self)@),
        ensures
            final(self)@ == judged(old(self)@, now),
            is_hub(final(self)@),
    {
        let ghost before = self@;
        let ghost all = self.sources@;
        let mut i: usize = 0;
        while i < self.sources.len()
            invariant
                i <= self.sources@.len(),
                self.sources@.len() == all.len(),
                before.sources == followed(all),
                self.nav@ == before.nav,
                self.traffic@ == before.traffic,
                forall|k: int| i <= k < all.len() ==> #[trigger] self.sources@[k] == all[k],
                forall|k: int|
                    0 <= k < i ==> (#[trigger] self.sources@[k])@ == judged_source(all[k]@, now),
            decreases all.len() - i,
        {
            let silent = match self.sources[i].heard {
                Some(at) => clock::elapsed(now, at) >= fix::STALE_AFTER,
                None => false,
            };
            if self.sources[i].state.status == SourceStatus::Receiving && silent {
                let mut t = self.sources.remove(i);
                t.state.status = SourceStatus::Quiet;
                self.sources.insert(i, t);
            }
            i = i + 1;
        }
        self.traffic.expire(now);
        proof {
            assert(self@.sources =~= judged(before, now).sources);
            let kept = targets::expired(before.traffic, now);
            assert(kept.dom().subset_of(before.traffic.dom()));
            vstd::set_lib::lemma_len_subset(kept.dom(), before.traffic.dom());
        }
    }

    /// The boat's fix at `now`.
    pub fn fix(&self, now: u64) -> (state: FixState)
        ensures
            state@ == fix::state_of(self@.nav, now),
    {
        self.nav.state(now)
    }

    /// What apps are told of each source, in command-line order.
    pub fn states(&self) -> (states: Vec<SourceState>)
        ensures
            states@.len() == self@.sources.len(),
            forall|i: int|
                0 <= i < states@.len() ==> (#[trigger] states@[i])@ == self@.sources[i].state,
    {
        let mut states: Vec<SourceState> = Vec::new();
        let mut i: usize = 0;
        while i < self.sources.len()
            invariant
                i <= self.sources@.len(),
                states@.len() == i,
                forall|k: int|
                    0 <= k < i ==> (#[trigger] states@[k])@ == self.sources@[k]@.state,
            decreases self.sources.len() - i,
        {
            states.push(self.sources[i].state.clone());
            i = i + 1;
        }
        states
    }

    /// The vessels heard.
    pub fn traffic(&self) -> (traffic: &Traffic)
        ensures
            traffic@ == self@.traffic,
    {
        &self.traffic
    }
}

/// Every line counts once, as a sentence or as rejected, and only for the
/// source that sent it.
pub proof fn every_line_counts_once(
    before: HubView,
    source: usize,
    line: Seq<char>,
    now: u64,
    after: HubView,
)
    requires
        accepts(before, (EventView::Line { source, line })),
        taken(before, (EventView::Line { source, line }), now, after),
    ensures
        after.sources.len() == before.sources.len(),
        ({
            let was = before.sources[source as int].state;
            let is = after.sources[source as int].state;
            &&& is.sentences + is.rejected == was.sentences + was.rejected + 1
            &&& is.sentences == was.sentences + 1 <==> nmea::parsed(line) is Ok
            &&& is.status == SourceStatus::Receiving
            &&& is.message is None
            &&& is.name == was.name
        }),
        forall|i: int|
            0 <= i < before.sources.len() && i != source ==> #[trigger] after.sources[i]
                == before.sources[i],
{
}

/// What a hub is given to do: an event to take, or everything to judge.
pub enum Step {
    Take { event: EventView, now: u64 },
    Judge { now: u64 },
}

/// `history` is what a hub knows before some steps, and after each in turn.
pub open spec fn is_run(history: Seq<HubView>, steps: Seq<Step>) -> bool {
    &&& history.len() == steps.len() + 1
    &&& forall|i: int|
        #![trigger steps[i]]
        0 <= i < steps.len() ==> match steps[i] {
            Step::Take { event, now } => accepts(history[i], event) && taken(
                history[i],
                event,
                now,
                history[i + 1],
            ),
            Step::Judge { now } => history[i + 1] == judged(history[i], now),
        }
}

/// A step that takes a line from `source`: one that checks out as a sentence
/// where `good`, and one that doesn't where not.
pub open spec fn is_line(step: Step, source: int, good: bool) -> bool {
    step matches Step::Take { event: EventView::Line { source: from, line }, .. } && from == source
        && (nmea::parsed(line) is Ok) == good
}

/// How many lines from `source` check out, or don't.
pub open spec fn lines_of(steps: Seq<Step>, source: int, good: bool) -> nat
    decreases steps.len(),
{
    if steps.len() == 0 {
        0
    } else {
        lines_of(steps.drop_last(), source, good) + (if is_line(steps.last(), source, good) {
            1nat
        } else {
            0nat
        })
    }
}

/// Over any run, a source's counts grow by the lines it sent that checked
/// out, and by those that didn't; and its name stays.
pub proof fn all_lines_are_counted(history: Seq<HubView>, steps: Seq<Step>, source: int)
    requires
        is_run(history, steps),
        0 <= source < history[0].sources.len(),
    ensures
        history.last().sources.len() == history[0].sources.len(),
        ({
            let was = history[0].sources[source].state;
            let is = history.last().sources[source].state;
            &&& is.sentences == was.sentences + lines_of(steps, source, true)
            &&& is.rejected == was.rejected + lines_of(steps, source, false)
            &&& is.name == was.name
        }),
    decreases steps.len(),
{
    if steps.len() > 0 {
        let n: int = steps.len() - 1;
        let before = history.drop_last();
        assert forall|i: int| #![trigger steps.drop_last()[i]] 0 <= i < n implies match steps.drop_last()[i] {
            Step::Take { event, now } => accepts(before[i], event) && taken(
                before[i],
                event,
                now,
                before[i + 1],
            ),
            Step::Judge { now } => before[i + 1] == judged(before[i], now),
        } by {
            assert(steps[i] == steps.drop_last()[i]);
        }
        all_lines_are_counted(before, steps.drop_last(), source);
        assert(before.last() == history[n]);
        assert(steps[n] == steps.last());
    }
}

/// A line that doesn't check out changes nothing of what the hub knows of the
/// boat and of other vessels.
pub proof fn a_rejected_line_changes_nothing_known(
    before: HubView,
    source: usize,
    line: Seq<char>,
    now: u64,
    after: HubView,
)
    requires
        nmea::parsed(line) is Err,
        taken(before, (EventView::Line { source, line }), now, after),
    ensures
        after.nav == before.nav,
        after.traffic == before.traffic,
{
}

/// Whichever source it comes from, the fix that came last is the one shown.
pub proof fn the_most_recent_source_wins(
    before: HubView,
    source: usize,
    line: Seq<char>,
    at: u64,
    after: HubView,
    now: u64,
)
    requires
        taken(before, (EventView::Line { source, line }), at, after),
        nmea::parsed(line) is Ok,
        nmea::position_of(nmea::parsed(line)->Ok_0) matches Some(p) && fix::is_fix(p),
    ensures
        ({
            let p = nmea::position_of(nmea::parsed(line)->Ok_0)->0;
            let state = fix::state_of(after.nav, now);
            &&& state.lat == p.lat && state.lon == p.lon
            &&& state.age_seconds == Some(clock::since(now, at) / 1_000_000_000)
        }),
{
}

/// A source that has sent a line is receiving for five seconds, and quiet from
/// then on until it sends another.
pub proof fn a_silent_source_goes_quiet(
    before: HubView,
    source: usize,
    line: Seq<char>,
    at: u64,
    after: HubView,
    now: u64,
)
    requires
        accepts(before, (EventView::Line { source, line })),
        taken(before, (EventView::Line { source, line }), at, after),
    ensures
        judged(after, now).sources[source as int].state.status == (if clock::since(now, at)
            < 5_000_000_000 {
            SourceStatus::Receiving
        } else {
            SourceStatus::Quiet
        }),
{
}

/// Judging twice at one time is judging once.
pub proof fn judging_again_changes_nothing(hub: HubView, now: u64)
    ensures
        judged(judged(hub, now), now) == judged(hub, now),
{
    targets::expiry_leaves_nothing_old(hub.traffic, now);
    assert(judged(judged(hub, now), now).sources =~= judged(hub, now).sources);
}

/// What an app is greeted with.
pub fn hello<'a>(keel: &'a str) -> (message: Message<'a>)
    ensures
        message == (Message::Hello { v: protocol::VERSION, keel }),
{
    Message::Hello { v: protocol::VERSION, keel }
}

/// The complete current state.
pub fn state<'a>(fix: &'a FixState, sources: &'a [SourceState]) -> (message: Message<'a>)
    ensures
        message == (Message::State { v: protocol::VERSION, fix, sources }),
{
    Message::State { v: protocol::VERSION, fix, sources }
}

/// Every vessel.
pub fn vessels<'a>(targets: &'a [Target]) -> (message: Message<'a>)
    ensures
        message == (Message::Targets { v: protocol::VERSION, targets }),
{
    Message::Targets { v: protocol::VERSION, targets }
}

/// A message as it goes over the socket: its JSON, and the end of the line.
pub open spec fn on_the_wire(json: Seq<char>) -> Seq<char> {
    json + "\n"@
}

/// A message as it goes over the socket.
pub fn framed(json: String) -> (line: String)
    ensures
        line@ == on_the_wire(json@),
        line@ == json@ + "\n"@,
{
    let mut line = json;
    line.append("\n");
    line
}

/// One connected app.
#[derive(Debug, Clone, Copy, PartialEq, Eq)]
pub struct App {
    pub id: u64,
    /// Hasn't been greeted and sent the current state yet.
    pub fresh: bool,
}

/// A message to send.
#[derive(Debug, Clone, Copy, PartialEq, Eq, Structural)]
pub enum Sent {
    /// The greeting, `hello`.
    Hello,
    /// The current state, `state`.
    State,
    /// Every vessel, `vessels`.
    Targets,
}

/// What an app is to be sent, in this order.
#[derive(Debug, PartialEq)]
pub struct Delivery {
    pub id: u64,
    pub messages: Vec<Sent>,
}

pub struct DeliveryView {
    pub id: u64,
    pub messages: Seq<Sent>,
}

impl View for Delivery {
    type V = DeliveryView;

    open spec fn view(&self) -> DeliveryView {
        DeliveryView { id: self.id, messages: self.messages@ }
    }
}

/// What each delivery in a list is.
pub open spec fn deliveries_of(list: Seq<Delivery>) -> Seq<DeliveryView> {
    Seq::new(list.len(), |i: int| list[i]@)
}

/// The apps connected, and what they were last sent.
pub struct Apps {
    list: Vec<App>,
    state: String,
    targets: String,
}

pub struct AppsView {
    pub list: Seq<App>,
    pub state: Seq<char>,
    pub targets: Seq<char>,
}

impl View for Apps {
    type V = AppsView;

    closed spec fn view(&self) -> AppsView {
        AppsView { list: self.list@, state: self.state@, targets: self.targets@ }
    }
}

/// One message, where it is due.
pub open spec fn if_due(due: bool, message: Sent) -> Seq<Sent> {
    if due {
        seq![message]
    } else {
        Seq::empty()
    }
}

/// A fresh app is greeted, then sent the state, then the vessels where there
/// are any; any other is sent what has changed.
pub open spec fn delivery(
    app: App,
    state_changed: bool,
    targets_changed: bool,
    vessels: nat,
) -> DeliveryView {
    DeliveryView {
        id: app.id,
        messages: if_due(app.fresh, Sent::Hello) + if_due(
            state_changed || app.fresh,
            Sent::State,
        ) + if_due(targets_changed || (app.fresh && vessels > 0), Sent::Targets),
    }
}

/// What each app is to be sent, in the order in which they came.
pub open spec fn deliveries(
    apps: AppsView,
    state: Seq<char>,
    targets: Seq<char>,
    vessels: nat,
) -> Seq<DeliveryView> {
    Seq::new(
        apps.list.len(),
        |i: int| delivery(apps.list[i], state != apps.state, targets != apps.targets, vessels),
    )
}

/// The apps once they have been sent it.
pub open spec fn served(apps: AppsView, state: Seq<char>, targets: Seq<char>) -> AppsView {
    AppsView {
        list: Seq::new(apps.list.len(), |i: int| App { id: apps.list[i].id, fresh: false }),
        state,
        targets,
    }
}

/// The apps without one that has left.
pub open spec fn without(list: Seq<App>, id: u64) -> Seq<App>
    decreases list.len(),
{
    if list.len() == 0 {
        list
    } else if list.last().id == id {
        without(list.drop_last(), id)
    } else {
        without(list.drop_last(), id).push(list.last())
    }
}

/// No apps yet. `nothing` is what they would be sent for no vessels.
pub open spec fn no_apps(nothing: Seq<char>) -> AppsView {
    AppsView { list: Seq::empty(), state: Seq::empty(), targets: nothing }
}

impl Apps {
    /// No apps yet. `nothing` is what they would be sent for no vessels.
    pub fn new(nothing: String) -> (apps: Apps)
        ensures
            apps@ == no_apps(nothing@),
            apps@ == (AppsView {
                list: Seq::empty(),
                state: Seq::empty(),
                targets: nothing@,
            }),
    {
        let apps = Apps { list: Vec::new(), state: String::new(), targets: nothing };
        assert(apps@.list =~= Seq::<App>::empty());
        assert(apps@.state =~= Seq::<char>::empty());
        apps
    }

    /// An app has come.
    pub fn join(&mut self, id: u64)
        ensures
            final(self)@ == turned(old(self)@, Turn::Join { id }),
            final(self)@ == (AppsView {
                list: old(self)@.list.push(App { id, fresh: true }),
                ..old(self)@
            }),
    {
        self.list.push(App { id, fresh: true });
    }

    /// An app has left, or can't keep up.
    pub fn leave(&mut self, id: u64)
        ensures
            final(self)@ == turned(old(self)@, Turn::Leave { id }),
            final(self)@ == (AppsView { list: without(old(self)@.list, id), ..old(self)@ }),
    {
        let mut kept: Vec<App> = Vec::new();
        let mut i: usize = 0;
        assert(self.list@.take(0) == Seq::<App>::empty());
        while i < self.list.len()
            invariant
                i <= self.list.len(),
                self.list@ == old(self).list@,
                self@ == old(self)@,
                kept@ == without(self.list@.take(i as int), id),
            decreases self.list.len() - i,
        {
            assert(self.list@.take(i + 1).drop_last() == self.list@.take(i as int));
            if self.list[i].id != id {
                kept.push(self.list[i]);
            }
            i = i + 1;
        }
        assert(self.list@.take(i as int) == self.list@);
        self.list = kept;
    }

    /// What each app is to be sent, now that this is the state and these are
    /// the vessels, so many of them.
    pub fn serve(&mut self, state: String, targets: String, vessels: usize) -> (due: Vec<Delivery>)
        ensures
            deliveries_of(due@) == deliveries(old(self)@, state@, targets@, vessels as nat),
            final(self)@ == turned(
                old(self)@,
                Turn::Serve { state: state@, targets: targets@, vessels: vessels as nat },
            ),
            final(self)@ == served(old(self)@, state@, targets@),
    {
        let state_changed = !text::same(state.as_str(), self.state.as_str());
        let targets_changed = !text::same(targets.as_str(), self.targets.as_str());
        let mut due: Vec<Delivery> = Vec::new();
        let mut list: Vec<App> = Vec::new();
        let mut i: usize = 0;
        while i < self.list.len()
            invariant
                i <= self.list.len(),
                self@ == old(self)@,
                self.list@ == self@.list,
                due@.len() == i,
                list@.len() == i,
                state_changed == (state@ != self@.state),
                targets_changed == (targets@ != self@.targets),
                forall|k: int|
                    0 <= k < i ==> (#[trigger] due@[k])@ == deliveries(
                        self@,
                        state@,
                        targets@,
                        vessels as nat,
                    )[k],
                forall|k: int|
                    0 <= k < i ==> #[trigger] list@[k] == served(self@, state@, targets@).list[k],
            decreases self.list.len() - i,
        {
            let app = self.list[i];
            let mut messages: Vec<Sent> = Vec::new();
            if app.fresh {
                messages.push(Sent::Hello);
            }
            if state_changed || app.fresh {
                messages.push(Sent::State);
            }
            if targets_changed || (app.fresh && vessels > 0) {
                messages.push(Sent::Targets);
            }
            assert(messages@ =~= delivery(
                app,
                state_changed,
                targets_changed,
                vessels as nat,
            ).messages);
            due.push(Delivery { id: app.id, messages });
            list.push(App { id: app.id, fresh: false });
            i = i + 1;
        }
        self.list = list;
        self.state = state;
        self.targets = targets;
        assert(deliveries_of(due@) =~= deliveries(old(self)@, state@, targets@, vessels as nat));
        assert(self@.list =~= served(old(self)@, state@, targets@).list);
        due
    }
}

/// What befalls the apps.
pub enum Turn {
    Join { id: u64 },
    Leave { id: u64 },
    Serve { state: Seq<char>, targets: Seq<char>, vessels: nat },
}

/// The apps after a turn.
pub open spec fn turned(apps: AppsView, turn: Turn) -> AppsView {
    match turn {
        Turn::Join { id } => AppsView { list: apps.list.push(App { id, fresh: true }), ..apps },
        Turn::Leave { id } => AppsView { list: without(apps.list, id), ..apps },
        Turn::Serve { state, targets, .. } => served(apps, state, targets),
    }
}

/// The apps after some turns.
pub open spec fn after(apps: AppsView, turns: Seq<Turn>) -> AppsView
    decreases turns.len(),
{
    if turns.len() == 0 {
        apps
    } else {
        turned(after(apps, turns.drop_last()), turns.last())
    }
}

/// What some deliveries hold for one app.
pub open spec fn addressed(list: Seq<DeliveryView>, id: u64) -> Seq<Sent>
    decreases list.len(),
{
    if list.len() == 0 {
        Seq::empty()
    } else {
        addressed(list.drop_last(), id) + (if list.last().id == id {
            list.last().messages
        } else {
            Seq::empty()
        })
    }
}

/// What one app is sent in a turn.
pub open spec fn sent_in(apps: AppsView, turn: Turn, id: u64) -> Seq<Sent> {
    match turn {
        Turn::Serve { state, targets, vessels } => addressed(
            deliveries(apps, state, targets, vessels),
            id,
        ),
        _ => Seq::empty(),
    }
}

/// All that one app is sent over some turns.
pub open spec fn sent(apps: AppsView, turns: Seq<Turn>, id: u64) -> Seq<Sent>
    decreases turns.len(),
{
    if turns.len() == 0 {
        Seq::empty()
    } else {
        sent(apps, turns.drop_last(), id) + sent_in(
            after(apps, turns.drop_last()),
            turns.last(),
            id,
        )
    }
}

/// Some turn serves the apps.
pub open spec fn any_served(turns: Seq<Turn>) -> bool {
    exists|i: int| 0 <= i < turns.len() && (#[trigger] turns[i]) is Serve
}

/// No turn is about `id` joining or leaving.
pub open spec fn stays(turns: Seq<Turn>, id: u64) -> bool {
    forall|i: int|
        0 <= i < turns.len() ==> (#[trigger] turns[i]) != (Turn::Join { id }) && turns[i] != (
        Turn::Leave { id })
}

/// `id` is one app, and fresh or not.
spec fn is_app(apps: AppsView, id: u64, fresh: bool) -> bool {
    &&& apps.list.contains(App { id, fresh })
    &&& forall|i: int, j: int|
        0 <= i < apps.list.len() && 0 <= j < apps.list.len() && (#[trigger] apps.list[i]).id == id
            && (#[trigger] apps.list[j]).id == id ==> i == j
}

/// An app that has come is greeted first and only once, before any state; then
/// comes the full state. Other apps may come, go and be served meanwhile.
pub proof fn the_greeting_comes_first_and_once(apps: AppsView, id: u64, turns: Seq<Turn>)
    requires
        forall|i: int| 0 <= i < apps.list.len() ==> (#[trigger] apps.list[i]).id != id,
        stays(turns, id),
    ensures
        ({
            let all = sent(turned(apps, Turn::Join { id }), turns, id);
            &&& !any_served(turns) ==> all.len() == 0
            &&& any_served(turns) ==> all.len() >= 2 && all[0] == Sent::Hello && all[1]
                == Sent::State
            &&& forall|i: int| 0 < i < all.len() ==> #[trigger] all[i] != Sent::Hello
        }),
    decreases turns.len(),
{
    lemma_app_stays(apps, id, turns);
    let joined = turned(apps, Turn::Join { id });
    if turns.len() > 0 {
        let front = turns.drop_last();
        lemma_stays(turns, id);
        the_greeting_comes_first_and_once(apps, id, front);
        lemma_app_stays(apps, id, front);
        let before = sent(joined, front, id);
        let now = after(joined, front);
        lemma_any_served(turns);
        if let Turn::Serve { state, targets, vessels } = turns.last() {
            lemma_addressed(now, id, !any_served(front), state, targets, vessels);
            let more = sent_in(now, turns.last(), id);
            let all = before + more;
            assert forall|i: int| 0 < i < all.len() implies #[trigger] all[i] != Sent::Hello by {
                if i >= before.len() {
                    assert(all[i] == more[i - before.len()]);
                } else {
                    assert(all[i] == before[i]);
                }
            }
            if any_served(front) {
                assert(all[0] == before[0] && all[1] == before[1]);
            } else {
                assert(all =~= more);
            }
        } else {
            assert(sent(joined, turns, id) =~= before);
        }
    }
}

/// Once greeted, an app is sent the state exactly when it differs from the one
/// served last, and the vessels likewise.
pub proof fn a_greeted_app_is_sent_what_changes(
    apps: AppsView,
    id: u64,
    turns: Seq<Turn>,
    state: Seq<char>,
    targets: Seq<char>,
    vessels: nat,
)
    requires
        forall|i: int| 0 <= i < apps.list.len() ==> (#[trigger] apps.list[i]).id != id,
        stays(turns, id),
        any_served(turns),
    ensures
        ({
            let now = after(turned(apps, Turn::Join { id }), turns);
            sent_in(now, Turn::Serve { state, targets, vessels }, id) == if_due(
                state != now.state,
                Sent::State,
            ) + if_due(targets != now.targets, Sent::Targets)
        }),
{
    lemma_app_stays(apps, id, turns);
    let now = after(turned(apps, Turn::Join { id }), turns);
    lemma_addressed(now, id, false, state, targets, vessels);
}

/// What was served last is what the apps are held to have.
pub proof fn the_last_served_is_remembered(apps: AppsView, turns: Seq<Turn>, i: int)
    requires
        0 <= i < turns.len(),
        turns[i] is Serve,
        forall|j: int| i < j < turns.len() ==> !((#[trigger] turns[j]) is Serve),
    ensures
        after(apps, turns).state == turns[i]->state,
        after(apps, turns).targets == turns[i]->targets,
    decreases turns.len(),
{
    if i < turns.len() - 1 {
        let front = turns.drop_last();
        assert(!(turns[turns.len() - 1] is Serve));
        assert(front[i] == turns[i]);
        assert forall|j: int| i < j < front.len() implies !((#[trigger] front[j]) is Serve) by {
            assert(front[j] == turns[j]);
        }
        the_last_served_is_remembered(apps, front, i);
    }
}

proof fn lemma_stays(turns: Seq<Turn>, id: u64)
    requires
        stays(turns, id),
        turns.len() > 0,
    ensures
        stays(turns.drop_last(), id),
        turns.last() != (Turn::Join { id }),
        turns.last() != (Turn::Leave { id }),
{
    assert forall|i: int| 0 <= i < turns.len() - 1 implies (#[trigger] turns.drop_last()[i]) != (
    Turn::Join { id }) && turns.drop_last()[i] != (Turn::Leave { id }) by {
        assert(turns[i] == turns.drop_last()[i]);
    }
    assert(turns[turns.len() - 1] == turns.last());
}

proof fn lemma_any_served(turns: Seq<Turn>)
    requires
        turns.len() > 0,
    ensures
        any_served(turns) <==> any_served(turns.drop_last()) || turns.last() is Serve,
{
    let front = turns.drop_last();
    if any_served(front) {
        let i: int = choose|i: int| 0 <= i < front.len() && (#[trigger] front[i]) is Serve;
        assert(turns[i] is Serve);
    }
    if turns.last() is Serve {
        assert(turns[turns.len() - 1] is Serve);
    }
    if any_served(turns) && !(turns.last() is Serve) {
        let i: int = choose|i: int| 0 <= i < turns.len() && (#[trigger] turns[i]) is Serve;
        assert(front[i] is Serve);
    }
}

/// An app that came and stays is one of the apps, and fresh until it is
/// served.
proof fn lemma_app_stays(apps: AppsView, id: u64, turns: Seq<Turn>)
    requires
        forall|i: int| 0 <= i < apps.list.len() ==> (#[trigger] apps.list[i]).id != id,
        stays(turns, id),
    ensures
        is_app(after(turned(apps, Turn::Join { id }), turns), id, !any_served(turns)),
    decreases turns.len(),
{
    let joined = turned(apps, Turn::Join { id });
    if turns.len() == 0 {
        assert(joined.list[apps.list.len() as int] == (App { id, fresh: true }));
    } else {
        let front = turns.drop_last();
        lemma_stays(turns, id);
        lemma_any_served(turns);
        lemma_app_stays(apps, id, front);
        let before = after(joined, front);
        let fresh = !any_served(front);
        let now = turned(before, turns.last());
        let at: int = choose|at: int|
            0 <= at < before.list.len() && before.list[at] == (App { id, fresh });
        assert(before.list[at].id == id);
        match turns.last() {
            Turn::Join { id: other } => {
                assert(now.list[at] == (App { id, fresh }));
                assert forall|i: int, j: int|
                    0 <= i < now.list.len() && 0 <= j < now.list.len() && (
                    #[trigger] now.list[i]).id == id && (#[trigger] now.list[j]).id
                        == id implies i == j by {
                    assert(i < before.list.len() && now.list[i] == before.list[i]);
                    assert(j < before.list.len() && now.list[j] == before.list[j]);
                }
            },
            Turn::Leave { id: other } => {
                lemma_one_stays(before.list, id, other, at);
            },
            Turn::Serve { .. } => {
                assert(now.list[at] == (App { id, fresh: false }));
                assert forall|i: int, j: int|
                    0 <= i < now.list.len() && 0 <= j < now.list.len() && (
                    #[trigger] now.list[i]).id == id && (#[trigger] now.list[j]).id
                        == id implies i == j by {
                    assert(before.list[i].id == id && before.list[j].id == id);
                }
            },
        }
    }
}

/// An app that is there once is there once after another has left.
proof fn lemma_one_stays(list: Seq<App>, id: u64, other: u64, at: int)
    requires
        other != id,
        0 <= at < list.len(),
        list[at].id == id,
        forall|i: int| 0 <= i < list.len() && (#[trigger] list[i]).id == id ==> i == at,
    ensures
        without(list, other).contains(list[at]),
        forall|i: int, j: int|
            0 <= i < without(list, other).len() && 0 <= j < without(list, other).len() && (
            #[trigger] without(list, other)[i]).id == id && (#[trigger] without(list, other)[j]).id
                == id ==> i == j,
    decreases list.len(),
{
    let front = list.drop_last();
    let rest = without(front, other);
    let all = without(list, other);
    if at == list.len() - 1 {
        assert forall|i: int| 0 <= i < front.len() implies (#[trigger] front[i]).id != id by {
            assert(front[i] == list[i]);
        }
        lemma_none_comes(front, id, other);
        assert(all[rest.len() as int] == list[at]);
        assert forall|i: int| 0 <= i < all.len() && (#[trigger] all[i]).id == id implies i
            == rest.len() by {
            if i < rest.len() {
                assert(all[i] == rest[i]);
            }
        }
    } else {
        assert(front[at] == list[at]);
        assert forall|i: int| 0 <= i < front.len() && (#[trigger] front[i]).id == id implies i
            == at by {
            assert(front[i] == list[i]);
        }
        lemma_one_stays(front, id, other, at);
        let k: int = choose|k: int| 0 <= k < rest.len() && rest[k] == front[at];
        assert(all[k] == list[at]);
        assert(list[list.len() - 1].id != id);
        assert forall|i: int, j: int|
            0 <= i < all.len() && 0 <= j < all.len() && (#[trigger] all[i]).id == id && (
            #[trigger] all[j]).id == id implies i == j by {
            assert(i < rest.len() && all[i] == rest[i]);
            assert(j < rest.len() && all[j] == rest[j]);
        }
    }
}

proof fn lemma_none_comes(list: Seq<App>, id: u64, other: u64)
    requires
        forall|i: int| 0 <= i < list.len() ==> (#[trigger] list[i]).id != id,
    ensures
        forall|i: int|
            0 <= i < without(list, other).len() ==> (#[trigger] without(list, other)[i]).id != id,
    decreases list.len(),
{
    if list.len() > 0 {
        let front = list.drop_last();
        assert forall|i: int| 0 <= i < front.len() implies (#[trigger] front[i]).id != id by {
            assert(front[i] == list[i]);
        }
        lemma_none_comes(front, id, other);
        assert(list[list.len() - 1].id != id);
        let rest = without(front, other);
        let all = without(list, other);
        assert forall|i: int| 0 <= i < all.len() implies (#[trigger] all[i]).id != id by {
            if i < rest.len() {
                assert(all[i] == rest[i]);
            }
        }
    }
}

/// An app that is there once is sent its own delivery.
proof fn lemma_addressed(
    apps: AppsView,
    id: u64,
    fresh: bool,
    state: Seq<char>,
    targets: Seq<char>,
    vessels: nat,
)
    requires
        is_app(apps, id, fresh),
    ensures
        addressed(deliveries(apps, state, targets, vessels), id) == delivery(
            App { id, fresh },
            state != apps.state,
            targets != apps.targets,
            vessels,
        ).messages,
{
    let all = deliveries(apps, state, targets, vessels);
    let at: int = choose|at: int|
        0 <= at < apps.list.len() && apps.list[at] == (App { id, fresh });
    assert(apps.list[at].id == id);
    assert forall|i: int| 0 <= i < all.len() && (#[trigger] all[i]).id == id implies i == at by {
        assert(apps.list[i].id == id);
    }
    lemma_addressed_once(all, id, at);
}

proof fn lemma_addressed_once(list: Seq<DeliveryView>, id: u64, at: int)
    requires
        0 <= at < list.len(),
        list[at].id == id,
        forall|i: int| 0 <= i < list.len() && (#[trigger] list[i]).id == id ==> i == at,
    ensures
        addressed(list, id) == list[at].messages,
    decreases list.len(),
{
    let front = list.drop_last();
    if at == list.len() - 1 {
        assert forall|i: int| 0 <= i < front.len() implies (#[trigger] front[i]).id != id by {
            assert(front[i] == list[i]);
        }
        lemma_addressed_none(front, id);
        assert(addressed(list, id) =~= list[at].messages);
    } else {
        assert(front[at] == list[at]);
        assert forall|i: int| 0 <= i < front.len() && (#[trigger] front[i]).id == id implies i
            == at by {
            assert(front[i] == list[i]);
        }
        lemma_addressed_once(front, id, at);
        assert(list[list.len() - 1].id != id);
        assert(addressed(list, id) =~= list[at].messages);
    }
}

proof fn lemma_addressed_none(list: Seq<DeliveryView>, id: u64)
    requires
        forall|i: int| 0 <= i < list.len() ==> (#[trigger] list[i]).id != id,
    ensures
        addressed(list, id) == Seq::<Sent>::empty(),
    decreases list.len(),
{
    if list.len() > 0 {
        let front = list.drop_last();
        assert forall|i: int| 0 <= i < front.len() implies (#[trigger] front[i]).id != id by {
            assert(front[i] == list[i]);
        }
        lemma_addressed_none(front, id);
        assert(list[list.len() - 1].id != id);
        assert(addressed(list, id) =~= Seq::<Sent>::empty());
    }
}

/// An app that has just come is greeted and sent all there is: the state, and
/// the vessels where there are any.
pub proof fn a_fresh_app_is_sent_everything(
    apps: AppsView,
    id: u64,
    state: Seq<char>,
    targets: Seq<char>,
    vessels: nat,
)
    requires
        vessels > 0,
    ensures
        deliveries(turned(apps, Turn::Join { id }), state, targets, vessels).last() == (
        DeliveryView { id, messages: seq![Sent::Hello, Sent::State, Sent::Targets] }),
{
    let all = deliveries(turned(apps, Turn::Join { id }), state, targets, vessels);
    assert(all.last().messages =~= seq![Sent::Hello, Sent::State, Sent::Targets]);
}

/// An app that leaves takes no other with it.
pub proof fn an_app_that_leaves_is_let_go(list: Seq<App>, id: u64)
    ensures
        forall|i: int|
            0 <= i < without(list, id).len() ==> (#[trigger] without(list, id)[i]).id != id,
        forall|i: int|
            0 <= i < list.len() && list[i].id != id ==> without(list, id).contains(
                #[trigger] list[i],
            ),
    decreases list.len(),
{
    if list.len() > 0 {
        let front = list.drop_last();
        an_app_that_leaves_is_let_go(front, id);
        assert forall|i: int| 0 <= i < without(list, id).len() implies (#[trigger] without(
            list,
            id,
        )[i]).id != id by {
            if i < without(front, id).len() {
                assert(without(list, id)[i] == without(front, id)[i]);
            }
        }
        assert forall|i: int| 0 <= i < list.len() && list[i].id != id implies without(
            list,
            id,
        ).contains(#[trigger] list[i]) by {
            let all = without(list, id);
            if i < front.len() {
                assert(front[i] == list[i]);
                let rest = without(front, id);
                let k: int = choose|k: int| 0 <= k < rest.len() && rest[k] == list[i];
                assert(all[k] == list[i]);
            } else {
                assert(all[all.len() - 1] == list[i]);
            }
        }
    }
}

/// Where the socket is by default, as the bytes of its path:
/// `$XDG_RUNTIME_DIR/omakeel/keel.sock`.
pub open spec fn socket_in(dir: Seq<u8>) -> Seq<u8> {
    (if dir.last() == SLASH {
        dir
    } else {
        dir.push(SLASH)
    }) + vstd::utf8::encode_utf8("omakeel/keel.sock"@)
}

/// Where the socket is by default: nowhere, unless the runtime directory is
/// set to an absolute path.
pub open spec fn socket_by_default(runtime_dir: Option<Seq<u8>>) -> Option<Seq<u8>> {
    match runtime_dir {
        Some(dir) => if dir.len() > 0 && dir[0] == SLASH {
            Some(socket_in(dir))
        } else {
            None
        },
        None => None,
    }
}

/// The byte between the names in a path.
pub const SLASH: u8 = 0x2f;

/// A copy of some bytes.
fn copied(bytes: &[u8]) -> (copy: Vec<u8>)
    ensures
        copy@ == bytes@,
{
    let mut copy: Vec<u8> = Vec::new();
    let mut i: usize = 0;
    while i < bytes.len()
        invariant
            i <= bytes@.len(),
            copy@ == bytes@.take(i as int),
        decreases bytes.len() - i,
    {
        copy.push(bytes[i]);
        assert(copy@ =~= bytes@.take(i + 1));
        i = i + 1;
    }
    assert(bytes@.take(i as int) =~= bytes@);
    copy
}

/// Adds the bytes of a text to a path.
fn add_text(path: &mut Vec<u8>, text: &str)
    ensures
        final(path)@ == old(path)@ + vstd::utf8::encode_utf8(text@),
{
    let more = text.as_bytes();
    let mut i: usize = 0;
    assert(path@ =~= old(path)@ + more@.take(0));
    while i < more.len()
        invariant
            i <= more@.len(),
            path@ == old(path)@ + more@.take(i as int),
        decreases more.len() - i,
    {
        path.push(more[i]);
        assert(path@ =~= old(path)@ + more@.take(i + 1));
        i = i + 1;
    }
    assert(more@.take(i as int) =~= more@);
}

/// The bytes of a path given as text.
pub fn path_bytes(path: &str) -> (bytes: Vec<u8>)
    ensures
        bytes@ == vstd::utf8::encode_utf8(path@),
{
    copied(path.as_bytes())
}

/// Where the socket is by default, in the runtime directory; the error where
/// that isn't set to an absolute path.
pub fn default_socket(runtime_dir: Option<&[u8]>) -> (path: Result<Vec<u8>, &'static str>)
    ensures
        match (path, runtime_dir) {
            (Ok(p), Some(dir)) => socket_by_default(Some(dir@)) == Some(p@),
            (Ok(_), None) => false,
            (Err(_), Some(dir)) => socket_by_default(Some(dir@)) is None,
            (Err(_), None) => socket_by_default(None) is None,
        },
        path is Ok <==> (runtime_dir matches Some(dir) && dir@.len() > 0 && dir@[0] == SLASH),
        path matches Ok(p) ==> p@ == socket_in(runtime_dir->0@),
        path matches Err(e) ==> e@ == "XDG_RUNTIME_DIR must be set to an absolute path"@,
{
    if let Some(dir) = runtime_dir {
        let count: usize = dir.len();
        if count > 0 && dir[0] == SLASH {
            let mut path = copied(dir);
            if dir[count - 1] != SLASH {
                path.push(SLASH);
            }
            add_text(&mut path, "omakeel/keel.sock");
            return Ok(path);
        }
    }
    Err("XDG_RUNTIME_DIR must be set to an absolute path")
}

/// The lock file beside a socket, which keeps a second hub from starting on
/// it.
pub open spec fn lock_beside(socket: Seq<u8>) -> Seq<u8> {
    socket + vstd::utf8::encode_utf8(".lock"@)
}

/// The lock file beside a socket.
pub fn lock_path(socket: &[u8]) -> (path: Vec<u8>)
    ensures
        path@ == lock_beside(socket@),
        path@ == socket@ + vstd::utf8::encode_utf8(".lock"@),
{
    let mut path = copied(socket);
    add_text(&mut path, ".lock");
    path
}

/// What there is where the socket should be.
#[derive(Debug, Clone, Copy, PartialEq, Eq, Structural)]
pub enum Found {
    /// Another hub holds the lock.
    Locked,
    Nothing,
    /// Something that isn't a socket.
    Other,
    /// A socket that a hub answers on.
    Live,
    /// A socket that nothing answers on.
    Leftover,
}

/// How to take the socket's place.
#[derive(Debug, Clone, Copy, PartialEq, Eq, Structural)]
pub enum Claim {
    Bind,
    /// Remove the leftover socket first.
    Replace,
}

/// Why the hub won't start, and what to say.
#[derive(Debug, PartialEq)]
pub enum Refusal {
    AlreadyExists(String),
    InUse(String),
}

/// A hub that is still running keeps a second one from starting beside it.
pub open spec fn running(path: Seq<char>) -> Seq<char> {
    "omakeel is already running on "@ + path
}

pub enum RefusalView {
    AlreadyExists(Seq<char>),
    InUse(Seq<char>),
}

impl View for Refusal {
    type V = RefusalView;

    open spec fn view(&self) -> RefusalView {
        match *self {
            Refusal::AlreadyExists(m) => RefusalView::AlreadyExists(m@),
            Refusal::InUse(m) => RefusalView::InUse(m@),
        }
    }
}

/// How to take the socket's place, replacing a leftover one from a hub that
/// didn't exit cleanly, or why not to start.
pub open spec fn claim_of(path: Seq<char>, found: Found) -> Result<Claim, RefusalView> {
    match found {
        Found::Nothing => Ok(Claim::Bind),
        Found::Leftover => Ok(Claim::Replace),
        Found::Other => Err(RefusalView::AlreadyExists(path + " exists and isn't a socket"@)),
        Found::Locked | Found::Live => Err(RefusalView::InUse(running(path))),
    }
}

/// Takes the socket's place, replacing a leftover one from a hub that didn't
/// exit cleanly, and refusing to start beside a hub that's still running.
pub fn claim(path: &str, found: Found) -> (claim: Result<Claim, Refusal>)
    ensures
        match claim {
            Ok(c) => claim_of(path@, found) == Ok::<Claim, RefusalView>(c),
            Err(e) => claim_of(path@, found) == Err::<Claim, RefusalView>(e@),
        },
        match found {
            Found::Nothing => claim == Ok::<Claim, Refusal>(Claim::Bind),
            Found::Leftover => claim == Ok::<Claim, Refusal>(Claim::Replace),
            Found::Other => claim matches Err(Refusal::AlreadyExists(m)) && m@ == path@
                + " exists and isn't a socket"@,
            Found::Locked | Found::Live => claim matches Err(Refusal::InUse(m)) && m@ == running(
                path@,
            ),
        },
{
    match found {
        Found::Nothing => Ok(Claim::Bind),
        Found::Leftover => Ok(Claim::Replace),
        Found::Other => {
            let mut message = path.to_owned();
            message.append(" exists and isn't a socket");
            Err(Refusal::AlreadyExists(message))
        },
        Found::Locked | Found::Live => {
            let mut message = "omakeel is already running on ".to_owned();
            message.append(path);
            Err(Refusal::InUse(message))
        },
    }
}

/// A hub that has just started has every source in the order in which they
/// were named, connecting, with nothing counted; it knows of no fix and of no
/// vessel.
pub proof fn a_new_hub_knows_nothing(specs: Seq<Spec>, i: int, now: u64)
    requires
        0 <= i < specs.len(),
    ensures
        ({
            let hub = silent(specs);
            let state = hub.sources[i].state;
            &&& hub.sources.len() == specs.len()
            &&& state.name == source::name_of(specs[i]@)
            &&& state.status == SourceStatus::Connecting
            &&& state.message is None
            &&& state.sentences == 0
            &&& state.rejected == 0
            &&& fix::state_of(hub.nav, now).status == protocol::FixStatus::Unheard
            &&& fix::state_of(hub.nav, now).lat is None
            &&& forall|mmsi: u32| !(#[trigger] hub.traffic.contains_key(mmsi))
        }),
{
}

/// A source that says how it does is shown so, with what it says; its counts
/// and its name stay, and so does all else that the hub knows.
pub proof fn a_status_is_shown_as_told(
    before: HubView,
    source: usize,
    status: SourceStatus,
    message: Option<Seq<char>>,
    now: u64,
    after: HubView,
)
    requires
        accepts(before, (EventView::Status { source, status, message })),
        taken(before, (EventView::Status { source, status, message }), now, after),
    ensures
        ({
            let was = before.sources[source as int];
            let shown = after.sources[source as int];
            &&& shown.state.status == status
            &&& shown.state.message == message
            &&& shown.state.name == was.state.name
            &&& shown.state.sentences == was.state.sentences
            &&& shown.state.rejected == was.state.rejected
            &&& shown.heard == was.heard
            &&& shown.pending == was.pending
        }),
        after.nav == before.nav,
        after.traffic == before.traffic,
        after.sources.len() == before.sources.len(),
        forall|i: int|
            0 <= i < before.sources.len() && i != source ==> #[trigger] after.sources[i]
                == before.sources[i],
{
}

/// Only a source that was receiving goes quiet; one that is connecting, has
/// failed or has ended stays so. Nothing else changes of a source as it is
/// judged, nor of the fix.
pub proof fn only_a_receiving_source_goes_quiet(hub: HubView, i: int, now: u64)
    requires
        0 <= i < hub.sources.len(),
    ensures
        ({
            let was = hub.sources[i];
            let shown = judged(hub, now).sources[i];
            &&& was.state.status != SourceStatus::Receiving ==> shown == was
            &&& was.state.status == SourceStatus::Receiving ==> (shown.state.status
                == SourceStatus::Quiet <==> (was.heard matches Some(at) && now >= at
                + 5_000_000_000))
            &&& shown.state.status == was.state.status || shown.state.status == SourceStatus::Quiet
            &&& shown.state.name == was.state.name
            &&& shown.state.message == was.state.message
            &&& shown.state.sentences == was.state.sentences
            &&& shown.state.rejected == was.state.rejected
            &&& shown.heard == was.heard
            &&& shown.pending == was.pending
        }),
        judged(hub, now).nav == hub.nav,
        judged(hub, now).sources.len() == hub.sources.len(),
{
}

/// A line that gives no position leaves the fix as it is; one that says there
/// is none is believed.
pub proof fn only_a_position_moves_the_fix(
    before: HubView,
    source: usize,
    line: Seq<char>,
    at: u64,
    after: HubView,
    now: u64,
)
    requires
        taken(before, (EventView::Line { source, line }), at, after),
        nmea::parsed(line) is Ok,
    ensures
        nmea::position_of(nmea::parsed(line)->Ok_0) is None ==> after.nav == before.nav,
        nmea::position_of(nmea::parsed(line)->Ok_0) matches Some(p) && !p.valid ==> {
            let state = fix::state_of(after.nav, now);
            &&& now < at + 5_000_000_000 ==> state.status == protocol::FixStatus::Nofix
            &&& state.status != protocol::FixStatus::Current
            &&& state.lat == fix::state_of(before.nav, now).lat
            &&& state.lon == fix::state_of(before.nav, now).lon
        },
{
}

/// A position that a vessel reports on AIS is shown of that vessel, from
/// whichever source it came, and for ten minutes.
pub proof fn a_reported_vessel_is_shown(
    before: HubView,
    source: usize,
    line: Seq<char>,
    at: u64,
    after: HubView,
    p: ais::Position,
    now: u64,
    plot: Option<targets::Plot>,
)
    requires
        taken(before, (EventView::Line { source, line }), at, after),
        nmea::parsed(line) is Ok,
        ais::fed(before.sources[source as int].pending, nmea::parsed(line)->Ok_0).1 == seq![
            ReportView::Position(p),
        ],
        now < at + 600_000_000_000,
    ensures
        after.traffic.contains_key(p.mmsi),
        ({
            let target = targets::target_of(p.mmsi, after.traffic[p.mmsi], now, plot);
            &&& target.lat == Some(p.lat)
            &&& target.lon == Some(p.lon)
            &&& target.sog_tenths == p.sog_tenths
            &&& target.cog_tenths == p.cog_tenths
            &&& target.heading_deg == p.heading_deg
        }),
{
    let reports = seq![ReportView::Position(p)];
    let history: Seq<Map<u32, VesselView>> = choose|history: Seq<Map<u32, VesselView>>| #[trigger]
        is_history(history, reports, at) && history.first() == before.traffic && history.last()
            == after.traffic;
    assert(reports[0] == ReportView::Position(p));
    assert(targets::updated(history[0], reports[0], at, history[1]));
    targets::what_was_last_reported_is_shown(
        before.traffic,
        p,
        at,
        after.traffic,
        now,
        plot,
    );
}

/// A line that completes no AIS message leaves the vessels as they are.
pub proof fn only_a_report_changes_the_vessels(
    before: HubView,
    source: usize,
    line: Seq<char>,
    at: u64,
    after: HubView,
)
    requires
        taken(before, (EventView::Line { source, line }), at, after),
        nmea::parsed(line) is Ok,
        ais::fed(before.sources[source as int].pending, nmea::parsed(line)->Ok_0).1.len() == 0,
    ensures
        after.traffic == before.traffic,
{
    let reports = ais::fed(
        before.sources[source as int].pending,
        nmea::parsed(line)->Ok_0,
    ).1;
    let history: Seq<Map<u32, VesselView>> = choose|history: Seq<Map<u32, VesselView>>| #[trigger]
        is_history(history, reports, at) && history.first() == before.traffic && history.last()
            == after.traffic;
    assert(history.len() == 1);
}

/// The parts of a message wait at the source that sent them: what another
/// source sends neither completes the message nor disturbs it.
pub proof fn sources_do_not_mix(
    before: HubView,
    source: usize,
    line: Seq<char>,
    at: u64,
    after: HubView,
    other: int,
)
    requires
        accepts(before, (EventView::Line { source, line })),
        taken(before, (EventView::Line { source, line }), at, after),
        nmea::parsed(line) is Ok,
        0 <= other < before.sources.len(),
    ensures
        after.sources[other].pending == (if other == source {
            ais::fed(before.sources[other].pending, nmea::parsed(line)->Ok_0).0
        } else {
            before.sources[other].pending
        }),
        after.sources[source as int].heard == Some(at),
{
}

/// An app that has just come where there are no vessels is greeted and sent
/// the state; of the vessels it hears only where they have just changed.
pub proof fn a_fresh_app_is_not_sent_nothing(
    apps: AppsView,
    id: u64,
    state: Seq<char>,
    targets: Seq<char>,
)
    ensures
        deliveries(turned(apps, Turn::Join { id }), state, targets, 0).last() == (DeliveryView {
            id,
            messages: if targets == apps.targets {
                seq![Sent::Hello, Sent::State]
            } else {
                seq![Sent::Hello, Sent::State, Sent::Targets]
            },
        }),
{
    let all = deliveries(turned(apps, Turn::Join { id }), state, targets, 0);
    if targets == apps.targets {
        assert(all.last().messages =~= seq![Sent::Hello, Sent::State]);
    } else {
        assert(all.last().messages =~= seq![Sent::Hello, Sent::State, Sent::Targets]);
    }
}

/// Where nothing has changed, no app that has been served is sent anything.
pub proof fn nothing_new_is_not_sent(
    apps: AppsView,
    state: Seq<char>,
    targets: Seq<char>,
    vessels: nat,
    i: int,
)
    requires
        0 <= i < apps.list.len(),
    ensures
        ({
            let all = deliveries(served(apps, state, targets), state, targets, vessels);
            &&& all.len() == apps.list.len()
            &&& all[i].id == apps.list[i].id
            &&& all[i].messages.len() == 0
        }),
{
}

/// Messages that follow each other on the socket come apart at the ends of
/// their lines.
pub proof fn messages_come_apart(first: Seq<char>, second: Seq<char>)
    requires
        !first.contains('\n'),
        !second.contains('\n'),
    ensures
        text::split(on_the_wire(first) + on_the_wire(second), '\n') == seq![
            first,
            second,
            Seq::<char>::empty(),
        ],
{
    reveal_strlit("\n");
    let none = Seq::<char>::empty();
    let pieces = seq![first, second, none];
    text::what_is_joined_comes_apart(pieces, '\n');
    assert(pieces.drop_last() =~= seq![first, second]);
    assert(seq![first, second].drop_last() =~= seq![first]);
    reveal_with_fuel(text::joined, 4);
    assert(text::joined(pieces, '\n') =~= on_the_wire(first) + on_the_wire(second));
}

/// The socket is in the runtime directory, under a name of its own, with one
/// slash between whether or not the directory was given with one.
pub proof fn the_socket_is_in_its_directory(dir: Seq<u8>)
    requires
        dir.len() > 0,
        dir.last() != 0x2f,
    ensures
        socket_in(dir) == dir + seq![0x2fu8] + vstd::utf8::encode_utf8("omakeel/keel.sock"@),
        socket_in(dir.push(0x2fu8)) == socket_in(dir),
{
    assert(dir.push(0x2fu8) =~= dir + seq![0x2fu8]);
}

/// The lock file has a name of its own beside the socket.
pub proof fn the_lock_is_beside_the_socket(socket: Seq<u8>, other: Seq<u8>)
    ensures
        lock_beside(socket).take(socket.len() as int) == socket,
        lock_beside(socket).skip(socket.len() as int) == vstd::utf8::encode_utf8(".lock"@),
        socket != other ==> lock_beside(socket) != lock_beside(other),
{
    let lock = lock_beside(socket);
    let tail = vstd::utf8::encode_utf8(".lock"@);
    assert(lock.take(socket.len() as int) =~= socket);
    assert(lock.skip(socket.len() as int) =~= tail);
    if lock == lock_beside(other) {
        assert(socket.len() == other.len());
        assert(lock_beside(other).take(other.len() as int) =~= other);
    }
}

/// A hub that is still running is never displaced, and nothing is ever removed
/// but a leftover socket.
pub proof fn a_running_hub_is_never_displaced(path: Seq<char>, found: Found)
    ensures
        found == Found::Live || found == Found::Locked ==> (claim_of(path, found) matches Err(
            RefusalView::InUse(said),
        ) && said.len() >= path.len() && said.skip(said.len() - path.len()) == path),
        found == Found::Other ==> (claim_of(path, found) matches Err(
            RefusalView::AlreadyExists(said),
        ) && said.len() >= path.len() && said.take(path.len() as int) == path),
        claim_of(path, found) == Ok::<Claim, RefusalView>(Claim::Replace) <==> found
            == Found::Leftover,
        claim_of(path, found) == Ok::<Claim, RefusalView>(Claim::Bind) <==> found
            == Found::Nothing,
{
    assert(running(path).skip(running(path).len() - path.len()) =~= path);
    let other = path + " exists and isn't a socket"@;
    assert(other.take(path.len() as int) =~= path);
}

/// Sixty-four messages may wait for an app, and it has two seconds to take
/// one.
pub proof fn an_app_has_its_time()
    ensures
        QUEUE == 64,
        WRITE_TIMEOUT == 2_000_000_000,
        protocol::VERSION == 1,
{
}

/// The socket is in an absolute directory or nowhere.
pub proof fn the_socket_needs_an_absolute_directory(dir: Seq<u8>)
    ensures
        socket_by_default(None) is None,
        dir.len() > 0 && dir[0] == 0x2f ==> socket_by_default(Some(dir)) == Some(socket_in(dir)),
        dir.len() == 0 || dir[0] != 0x2f ==> socket_by_default(Some(dir)) is None,
{
}

/// The first app to come before any vessel is heard is greeted and sent the
/// state, and nothing of vessels.
pub proof fn the_first_app_hears_of_no_vessels(
    id: u64,
    nothing: Seq<char>,
    state: Seq<char>,
)
    ensures
        deliveries(turned(no_apps(nothing), Turn::Join { id }), state, nothing, 0) == seq![
            DeliveryView { id, messages: seq![Sent::Hello, Sent::State] },
        ],
{
    let all = deliveries(turned(no_apps(nothing), Turn::Join { id }), state, nothing, 0);
    assert(all[0].messages =~= seq![Sent::Hello, Sent::State]);
    assert(all =~= seq![DeliveryView { id, messages: seq![Sent::Hello, Sent::State] }]);
}

/// A replay that ends is shown as ended from then on, however long nothing
/// comes, and a source that fails is shown with what failed and why.
pub proof fn an_end_and_a_failure_are_shown(
    before: HubView,
    source: usize,
    name: Seq<char>,
    why: Seq<char>,
    at: u64,
    ended: HubView,
    failed: HubView,
    now: u64,
)
    requires
        source < before.sources.len(),
        taken(before, source::ending(source), at, ended),
        taken(before, source::failure(source, name, why), at, failed),
    ensures
        judged(ended, now).sources[source as int].state.status == SourceStatus::Ended,
        judged(ended, now).sources[source as int].state.message is None,
        judged(failed, now).sources[source as int].state.status == SourceStatus::Error,
        judged(failed, now).sources[source as int].state.message == Some(name + ": "@ + why),
{
}

} // verus!
