//! Where sentences come from: a serial port, a TCP stream, or a recording.

use crate::protocol::SourceStatus;
use crate::text;
use std::str::FromStr;
use vstd::prelude::*;
use vstd::string::*;

verus! {

/// A line longer than this isn't NMEA; it is cut up and rejected.
pub const MAX_LINE: u64 = 1024;

/// Wait between attempts to reopen a device or reconnect a stream, in
/// nanoseconds.
pub const RETRY: u64 = 2_000_000_000;

/// NMEA 0183's standard rate, and the GlobalSat BU-353-S4's.
pub const DEFAULT_BAUD: u32 = 4800;

/// What a source has to say.
#[derive(Debug, PartialEq)]
pub enum Event {
    Line { source: usize, line: String },
    Status { source: usize, status: SourceStatus, message: Option<String> },
}

pub enum EventView {
    Line { source: usize, line: Seq<char> },
    Status { source: usize, status: SourceStatus, message: Option<Seq<char>> },
}

impl View for Event {
    type V = EventView;

    open spec fn view(&self) -> EventView {
        match *self {
            Event::Line { source, line } => EventView::Line { source, line: line@ },
            Event::Status { source, status, message } => EventView::Status {
                source,
                status,
                message: text::text_of(message),
            },
        }
    }
}

/// A source as the command line names it.
#[derive(Debug, PartialEq)]
pub enum Spec {
    Serial { path: String, baud: u32 },
    Tcp { address: String },
    Replay { path: String },
}

pub enum SpecView {
    Serial { path: Seq<char>, baud: u32 },
    Tcp { address: Seq<char> },
    Replay { path: Seq<char> },
}

impl View for Spec {
    type V = SpecView;

    open spec fn view(&self) -> SpecView {
        match *self {
            Spec::Serial { path, baud } => SpecView::Serial { path: path@, baud },
            Spec::Tcp { address } => SpecView::Tcp { address: address@ },
            Spec::Replay { path } => SpecView::Replay { path: path@ },
        }
    }
}

impl Clone for Spec {
    fn clone(&self) -> (copied: Spec)
        ensures
            copied == *self,
    {
        match self {
            Spec::Serial { path, baud } => Spec::Serial { path: path.clone(), baud: *baud },
            Spec::Tcp { address } => Spec::Tcp { address: address.clone() },
            Spec::Replay { path } => Spec::Replay { path: path.clone() },
        }
    }
}

/// A rate that a serial device can be opened at.
#[derive(Debug, Clone, Copy, PartialEq, Eq, Structural)]
pub enum Speed {
    B4800,
    B9600,
    B19200,
    B38400,
    B57600,
    B115200,
}

/// The rate with a number of its own.
pub open spec fn speed_of(baud: u32) -> Option<Speed> {
    if baud == 4800 {
        Some(Speed::B4800)
    } else if baud == 9600 {
        Some(Speed::B9600)
    } else if baud == 19200 {
        Some(Speed::B19200)
    } else if baud == 38400 {
        Some(Speed::B38400)
    } else if baud == 57600 {
        Some(Speed::B57600)
    } else if baud == 115200 {
        Some(Speed::B115200)
    } else {
        None
    }
}

/// The rate that `baud` asks for, where it is supported.
pub fn speed(baud: u32) -> (speed: Option<Speed>)
    ensures
        speed == speed_of(baud),
{
    match baud {
        4800 => Some(Speed::B4800),
        9600 => Some(Speed::B9600),
        19200 => Some(Speed::B19200),
        38400 => Some(Speed::B38400),
        57600 => Some(Speed::B57600),
        115200 => Some(Speed::B115200),
        _ => None,
    }
}

/// What is said of a source that isn't one.
pub open spec fn not_a_source(spec: Seq<char>) -> Seq<char> {
    "'"@ + spec
        + "' is not a source; use serial:PATH[:BAUD], tcp:HOST:PORT or replay:FILE"@
}

/// What is said of a rate that isn't supported.
pub open spec fn unsupported(baud: u32) -> Seq<char> {
    text::decimal(baud as nat)
        + " baud isn't supported; use 4800, 9600, 19200, 38400, 57600 or 115200"@
}

/// The path and the rate behind `serial:`. A colon and digits at the end are
/// a rate, unless nothing stands before them.
pub open spec fn path_and_baud(rest: Seq<char>) -> (Seq<char>, Seq<char>) {
    match text::rsplit_once(rest, ':') {
        Some((path, baud)) => if path.len() > 0 && text::all_digits(baud) {
            (path, baud)
        } else {
            (rest, text::decimal(DEFAULT_BAUD as nat))
        },
        None => (rest, text::decimal(DEFAULT_BAUD as nat)),
    }
}

/// The source that a command line names, or what to say instead.
pub open spec fn spec_of(spec: Seq<char>) -> Result<SpecView, Seq<char>> {
    match text::split_once(spec, ':') {
        None => Err(not_a_source(spec)),
        Some((kind, rest)) => if rest.len() == 0 {
            Err(not_a_source(spec))
        } else if kind == "serial"@ {
            let (path, baud) = path_and_baud(rest);
            let n = text::digits_value(baud);
            if n > u32::MAX {
                Err(not_a_source(spec))
            } else if speed_of(n as u32) is None {
                Err(unsupported(n as u32))
            } else {
                Ok(SpecView::Serial { path, baud: n as u32 })
            }
        } else if kind == "tcp"@ && rest.contains(':') {
            Ok(SpecView::Tcp { address: rest })
        } else if kind == "replay"@ {
            Ok(SpecView::Replay { path: rest })
        } else {
            Err(not_a_source(spec))
        },
    }
}

/// A source's name: what the command line could have said, in full.
pub open spec fn name_of(spec: SpecView) -> Seq<char> {
    match spec {
        SpecView::Serial { path, baud } => "serial:"@ + path + ":"@ + text::decimal(baud as nat),
        SpecView::Tcp { address } => "tcp:"@ + address,
        SpecView::Replay { path } => "replay:"@ + path,
    }
}

proof fn lemma_kinds()
    ensures
        "serial"@ != "tcp"@,
        "serial"@ != "replay"@,
        "tcp"@ != "replay"@,
{
    reveal_strlit("serial");
    reveal_strlit("tcp");
    reveal_strlit("replay");
    assert("serial"@[0] != "replay"@[0]);
}

impl Spec {
    /// The source that a command line names, or what to say instead.
    pub fn parse(spec: &str) -> (source: Result<Spec, String>)
        ensures
            match source {
                Ok(s) => spec_of(spec@) == Ok::<SpecView, Seq<char>>(s@),
                Err(e) => spec_of(spec@) == Err::<SpecView, Seq<char>>(e@),
            },
    {
        let (kind, rest) = match text::parted(spec, ':') {
            Some(parts) => parts,
            None => return Err(bad(spec)),
        };
        if rest.unicode_len() == 0 {
            return Err(bad(spec));
        }
        proof {
            lemma_kinds();
        }
        if text::same(kind, "serial") {
            let mut path = rest;
            let mut baud: u32 = DEFAULT_BAUD;
            proof {
                text::lemma_decimal(DEFAULT_BAUD as nat);
            }
            if let Some((front, digits)) = text::parted_last(rest, ':') {
                if front.unicode_len() > 0 && text::digits(digits) {
                    proof {
                        text::lemma_unsigned_digits(digits@, u32::MAX as nat);
                    }
                    match text::number_up_to(digits, u32::MAX as u64) {
                        Some(n) => {
                            path = front;
                            baud = n as u32;
                        },
                        None => return Err(bad(spec)),
                    }
                }
            }
            if speed(baud).is_none() {
                let mut message = String::new();
                text::push_decimal(&mut message, baud as u64);
                message.append(
                    " baud isn't supported; use 4800, 9600, 19200, 38400, 57600 or 115200",
                );
                assert(message@ =~= unsupported(baud));
                return Err(message);
            }
            Ok(Spec::Serial { path: path.to_owned(), baud })
        } else if text::same(kind, "tcp") && text::parted(rest, ':').is_some() {
            Ok(Spec::Tcp { address: rest.to_owned() })
        } else if text::same(kind, "replay") {
            Ok(Spec::Replay { path: rest.to_owned() })
        } else {
            Err(bad(spec))
        }
    }

    /// The source's name, such as `serial:/dev/ttyUSB0:4800`.
    pub fn to_string(&self) -> (name: String)
        ensures
            name@ == name_of(self@),
    {
        match self {
            Spec::Serial { path, baud } => {
                let mut name = "serial:".to_owned();
                name.append(path.as_str());
                name.append(":");
                text::push_decimal(&mut name, *baud as u64);
                name
            },
            Spec::Tcp { address } => {
                let mut name = "tcp:".to_owned();
                name.append(address.as_str());
                name
            },
            Spec::Replay { path } => {
                let mut name = "replay:".to_owned();
                name.append(path.as_str());
                name
            },
        }
    }
}

impl FromStr for Spec {
    type Err = String;

    fn from_str(spec: &str) -> (source: Result<Spec, String>)
        ensures
            match source {
                Ok(s) => spec_of(spec@) == Ok::<SpecView, Seq<char>>(s@),
                Err(e) => spec_of(spec@) == Err::<SpecView, Seq<char>>(e@),
            },
    {
        Spec::parse(spec)
    }
}

fn bad(spec: &str) -> (message: String)
    ensures
        message@ == not_a_source(spec@),
{
    let mut message = "'".to_owned();
    message.append(spec);
    message.append("' is not a source; use serial:PATH[:BAUD], tcp:HOST:PORT or replay:FILE");
    message
}

/// A source that can be: somewhere to read, at a rate that is supported.
pub open spec fn is_source(spec: SpecView) -> bool {
    match spec {
        SpecView::Serial { path, baud } => path.len() > 0 && speed_of(baud) is Some,
        SpecView::Tcp { address } => address.contains(':'),
        SpecView::Replay { path } => path.len() > 0,
    }
}

/// Whatever the command line named is a source that can be.
pub proof fn what_is_named_can_be(spec: Seq<char>)
    ensures
        spec_of(spec) matches Ok(source) ==> is_source(source),
{
    if let Some((kind, rest)) = text::split_once(spec, ':') {
        if rest.len() > 0 && kind == "tcp"@ {
            lemma_kinds();
        }
    }
}

/// A source's name names that source: what apps are shown can be given back
/// on the command line.
pub proof fn a_name_names_its_source(source: SpecView)
    requires
        is_source(source),
    ensures
        spec_of(name_of(source)) == Ok::<SpecView, Seq<char>>(source),
{
    lemma_kinds();
    let name = name_of(source);
    match source {
        SpecView::Serial { path, baud } => {
            reveal_strlit("serial:");
            reveal_strlit("serial");
            reveal_strlit(":");
            let digits = text::decimal(baud as nat);
            text::lemma_decimal(baud as nat);
            lemma_no_colon(baud as nat);
            let rest = path + ":"@ + digits;
            assert(name == "serial"@.push(':') + rest);
            lemma_kind_parted("serial"@, rest);
            assert(text::is_last(rest, ':', path.len() as int));
            text::lemma_is_last(rest, ':', path.len() as int);
            assert(rest.take(path.len() as int) == path);
            assert(rest.skip(path.len() as int + 1) == digits);
            assert(path_and_baud(rest) == (path, digits));
        },
        SpecView::Tcp { address } => {
            reveal_strlit("tcp:");
            reveal_strlit("tcp");
            assert(name == "tcp"@.push(':') + address);
            lemma_kind_parted("tcp"@, address);
        },
        SpecView::Replay { path } => {
            reveal_strlit("replay:");
            reveal_strlit("replay");
            assert(name == "replay"@.push(':') + path);
            lemma_kind_parted("replay"@, path);
        },
    }
}

proof fn lemma_no_colon(n: nat)
    ensures
        !text::decimal(n).contains(':'),
{
    text::lemma_decimal(n);
    let digits = text::decimal(n);
    if digits.contains(':') {
        let i: int = choose|i: int| 0 <= i < digits.len() && digits[i] == ':';
        assert(text::is_digit(digits[i]));
    }
}

proof fn lemma_kind_parted(kind: Seq<char>, rest: Seq<char>)
    requires
        !kind.contains(':'),
    ensures
        text::split_once(kind.push(':') + rest, ':') == Some((kind, rest)),
{
    let whole = kind.push(':') + rest;
    assert forall|j: int| 0 <= j < kind.len() implies whole[j] != ':' by {
        assert(kind.contains(kind[j]));
    }
    assert(text::is_first(whole, ':', kind.len() as int));
    text::lemma_is_first(whole, ':', kind.len() as int);
    assert(whole.take(kind.len() as int) == kind);
    assert(whole.skip(kind.len() as int + 1) == rest);
}

/// What `String::from_utf8_lossy` makes of bytes.
pub uninterp spec fn lossy_text(bytes: Seq<u8>) -> Seq<char>;

/// `String::from_utf8_lossy`: UTF-8 comes out as the text that it encodes;
/// elsewhere what isn't UTF-8 is replaced. What exactly is replaced is left
/// unsaid.
#[verifier::external_body]
fn lossy(bytes: &[u8]) -> (text: String)
    ensures
        text@ == lossy_text(bytes@),
        vstd::utf8::valid_utf8(bytes@) ==> text@ == vstd::utf8::decode_utf8(bytes@),
{
    String::from_utf8_lossy(bytes).into_owned()
}

/// A line's text without the white space around it; none where it is blank.
pub open spec fn line_of(text: Seq<char>) -> Option<Seq<char>> {
    if text::trim(text).len() > 0 {
        Some(text::trim(text))
    } else {
        None
    }
}

/// A line of text as an event, where it isn't blank.
pub open spec fn line_event(source: usize, text: Seq<char>) -> Option<EventView> {
    match line_of(text) {
        Some(line) => Some(EventView::Line { source, line }),
        None => None,
    }
}

/// What an event that may be absent says.
pub open spec fn event_of(event: Option<Event>) -> Option<EventView> {
    match event {
        Some(e) => Some(e@),
        None => None,
    }
}

/// A line of text as an event, where it isn't blank.
pub fn spoken(source: usize, text: &str) -> (event: Option<Event>)
    ensures
        event_of(event) == line_event(source, text@),
{
    let line = text::trimmed(text);
    if line.unicode_len() > 0 {
        Some(Event::Line { source, line: line.to_owned() })
    } else {
        None
    }
}

/// A line as it was read, where it isn't blank. Invalid UTF-8 is replaced.
pub fn line(source: usize, bytes: &[u8]) -> (event: Option<Event>)
    ensures
        event_of(event) == line_event(source, lossy_text(bytes@)),
        vstd::utf8::valid_utf8(bytes@) ==> event_of(event) == line_event(
            source,
            vstd::utf8::decode_utf8(bytes@),
        ),
{
    let text = lossy(bytes);
    spoken(source, text.as_str())
}

/// A source that can't be opened or reached, and why.
pub open spec fn failure(source: usize, name: Seq<char>, why: Seq<char>) -> EventView {
    EventView::Status {
        source,
        status: SourceStatus::Error,
        message: Some(name + ": "@ + why),
    }
}

/// A source that can't be opened or reached, and why.
pub fn failed(source: usize, name: &str, why: &str) -> (event: Event)
    ensures
        event@ == failure(source, name@, why@),
{
    let mut message = name.to_owned();
    message.append(": ");
    message.append(why);
    Event::Status { source, status: SourceStatus::Error, message: Some(message) }
}

/// A replay that has reached the end of its recording.
pub open spec fn ending(source: usize) -> EventView {
    EventView::Status { source, status: SourceStatus::Ended, message: None }
}

/// A replay that has reached the end of its recording.
pub fn ended(source: usize) -> (event: Event)
    ensures
        event@ == ending(source),
        event@ == (EventView::Status { source, status: SourceStatus::Ended, message: None }),
{
    Event::Status { source, status: SourceStatus::Ended, message: None }
}

/// What came of the last thing a reader asked for.
pub enum Outcome {
    /// It is open.
    Opened,
    /// A line, or as much of one as fits; nothing once it is closed.
    Read(Vec<u8>),
    /// It can't be opened, or reading failed, and why.
    Failed(String),
    /// The hub has the event.
    Delivered,
    /// The hub is gone.
    HubGone,
    /// `RETRY` has passed.
    Waited,
}

/// What a reader asks for.
pub enum Action {
    Open,
    /// Read a line of at most `MAX_LINE` bytes.
    Read,
    Deliver(Event),
    /// Wait for `RETRY`.
    Wait,
    Stop,
}

pub enum ActionView {
    Open,
    Read,
    Deliver(EventView),
    Wait,
    Stop,
}

impl View for Action {
    type V = ActionView;

    open spec fn view(&self) -> ActionView {
        match *self {
            Action::Open => ActionView::Open,
            Action::Read => ActionView::Read,
            Action::Deliver(event) => ActionView::Deliver(event@),
            Action::Wait => ActionView::Wait,
            Action::Stop => ActionView::Stop,
        }
    }
}

/// Reads a device or a stream line by line, reopening it when it drops.
pub struct Reader {
    source: usize,
    /// What is read: a path or an address.
    name: String,
    /// What is said once it is closed.
    closed: &'static str,
    failing: bool,
}

pub struct ReaderView {
    pub source: usize,
    pub name: Seq<char>,
    pub closed: Seq<char>,
    /// The last event told of a failure.
    pub failing: bool,
}

impl View for Reader {
    type V = ReaderView;

    closed spec fn view(&self) -> ReaderView {
        ReaderView {
            source: self.source,
            name: self.name@,
            closed: self.closed@,
            failing: self.failing,
        }
    }
}

/// What a reader does after a failure: it tells the hub why.
pub open spec fn fails(reader: ReaderView, why: Seq<char>) -> (ReaderView, ActionView) {
    (
        ReaderView { failing: true, ..reader },
        ActionView::Deliver(failure(reader.source, reader.name, why)),
    )
}

/// What a reader does with the text of a line.
pub open spec fn hears(reader: ReaderView, text: Seq<char>) -> (ReaderView, ActionView) {
    match line_event(reader.source, text) {
        Some(event) => (
            ReaderView { failing: false, ..reader },
            ActionView::Deliver(event),
        ),
        None => (ReaderView { failing: false, ..reader }, ActionView::Read),
    }
}

/// What a reader does next.
pub open spec fn next_step(reader: ReaderView, outcome: Outcome) -> (ReaderView, ActionView) {
    match outcome {
        Outcome::Opened => (ReaderView { failing: false, ..reader }, ActionView::Read),
        Outcome::Read(bytes) => if bytes@.len() == 0 {
            fails(reader, reader.closed)
        } else {
            hears(reader, lossy_text(bytes@))
        },
        Outcome::Failed(why) => fails(reader, why@),
        Outcome::Delivered => (
            reader,
            if reader.failing {
                ActionView::Wait
            } else {
                ActionView::Read
            },
        ),
        Outcome::HubGone => (reader, ActionView::Stop),
        Outcome::Waited => (ReaderView { failing: false, ..reader }, ActionView::Open),
    }
}

/// A reader that has yet to open what it reads.
pub open spec fn unopened(source: usize, name: Seq<char>, closed: Seq<char>) -> ReaderView {
    ReaderView { source, name, closed, failing: false }
}

impl Reader {
    /// A reader of the serial device at `path`, which it has yet to open.
    pub fn serial(source: usize, path: &str) -> (reader: Reader)
        ensures
            reader@ == unopened(source, path@, "device closed"@),
            reader@ == (ReaderView {
                source,
                name: path@,
                closed: "device closed"@,
                failing: false,
            }),
    {
        Reader { source, name: path.to_owned(), closed: "device closed", failing: false }
    }

    /// A reader of the stream at `address`, which it has yet to connect to.
    pub fn tcp(source: usize, address: &str) -> (reader: Reader)
        ensures
            reader@ == unopened(source, address@, "connection closed"@),
            reader@ == (ReaderView {
                source,
                name: address@,
                closed: "connection closed"@,
                failing: false,
            }),
    {
        Reader { source, name: address.to_owned(), closed: "connection closed", failing: false }
    }

    /// What to do next, after what came of the last thing.
    pub fn next(&mut self, outcome: Outcome) -> (action: Action)
        ensures
            (final(self)@, action@) == next_step(old(self)@, outcome),
            outcome matches Outcome::Read(bytes) && bytes@.len() > 0 && vstd::utf8::valid_utf8(
                bytes@,
            ) ==> (final(self)@, action@) == hears(
                old(self)@,
                vstd::utf8::decode_utf8(outcome->Read_0@),
            ),
    {
        match outcome {
            Outcome::Opened => {
                self.failing = false;
                Action::Read
            },
            Outcome::Read(bytes) => {
                if bytes.len() == 0 {
                    self.failing = true;
                    return Action::Deliver(
                        failed(self.source, self.name.as_str(), self.closed),
                    );
                }
                self.failing = false;
                match line(self.source, bytes.as_slice()) {
                    Some(event) => Action::Deliver(event),
                    None => Action::Read,
                }
            },
            Outcome::Failed(why) => {
                self.failing = true;
                Action::Deliver(failed(self.source, self.name.as_str(), why.as_str()))
            },
            Outcome::Delivered => {
                if self.failing {
                    Action::Wait
                } else {
                    Action::Read
                }
            },
            Outcome::HubGone => Action::Stop,
            Outcome::Waited => {
                self.failing = false;
                Action::Open
            },
        }
    }
}

/// A source that fails is reported, waited for and opened again, and what is
/// read then goes to the hub.
pub proof fn a_dropped_source_is_retried(reader: ReaderView, why: String, bytes: Vec<u8>)
    requires
        bytes@.len() > 0,
    ensures
        ({
            let (failing, told) = next_step(reader, Outcome::Failed(why));
            let (waiting, wait) = next_step(failing, Outcome::Delivered);
            let (opening, open) = next_step(waiting, Outcome::Waited);
            let (reading, read) = next_step(opening, Outcome::Opened);
            let (_, heard) = next_step(reading, Outcome::Read(bytes));
            &&& told == ActionView::Deliver(failure(reader.source, reader.name, why@))
            &&& wait == ActionView::Wait
            &&& open == ActionView::Open
            &&& read == ActionView::Read
            &&& line_event(reader.source, lossy_text(bytes@)) matches Some(event) ==> heard
                == ActionView::Deliver(event)
        }),
{
}

/// The number that each rate has.
pub open spec fn rate(speed: Speed) -> u32 {
    match speed {
        Speed::B4800 => 4800,
        Speed::B9600 => 9600,
        Speed::B19200 => 19200,
        Speed::B38400 => 38400,
        Speed::B57600 => 57600,
        Speed::B115200 => 115200,
    }
}

/// A device is opened at the rate that was asked for, and every rate can be
/// asked for by its number.
pub proof fn a_rate_is_the_one_asked_for(baud: u32, speed: Speed)
    ensures
        speed_of(baud) matches Some(s) ==> rate(s) == baud,
        speed_of(rate(speed)) == Some(speed),
{
}

/// A serial device may be named without a rate: it is opened at 4800 then.
/// Colons in its path are its own, unless digits alone follow the last.
pub proof fn a_device_without_a_rate_has_4800(path: Seq<char>)
    requires
        path.len() > 0,
        text::rsplit_once(path, ':') matches Some((front, digits)) ==> front.len() == 0
            || !text::all_digits(digits),
    ensures
        spec_of(seq!['s', 'e', 'r', 'i', 'a', 'l', ':'] + path) == Ok::<SpecView, Seq<char>>(
            SpecView::Serial { path, baud: 4800 },
        ),
{
    reveal_strlit("serial");
    lemma_kinds();
    assert(seq!['s', 'e', 'r', 'i', 'a', 'l', ':'] + path =~= "serial"@.push(':') + path);
    lemma_kind_parted("serial"@, path);
    text::lemma_decimal(4800);
}

/// A serial device named with a rate is opened at that rate where it is
/// supported; the rate is told where it isn't.
pub proof fn a_device_may_have_a_rate(path: Seq<char>, baud: u32)
    requires
        path.len() > 0,
    ensures
        ({
            let spec = seq!['s', 'e', 'r', 'i', 'a', 'l', ':'] + path + seq![':'] + text::decimal(
                baud as nat,
            );
            if baud == 4800 || baud == 9600 || baud == 19200 || baud == 38400 || baud == 57600
                || baud == 115200 {
                spec_of(spec) == Ok::<SpecView, Seq<char>>(SpecView::Serial { path, baud })
            } else {
                spec_of(spec) == Err::<SpecView, Seq<char>>(
                    text::decimal(baud as nat)
                        + " baud isn't supported; use 4800, 9600, 19200, 38400, 57600 or 115200"@,
                )
            }
        }),
{
    reveal_strlit("serial");
    lemma_kinds();
    let digits = text::decimal(baud as nat);
    let rest = path + seq![':'] + digits;
    let spec = seq!['s', 'e', 'r', 'i', 'a', 'l', ':'] + path + seq![':'] + digits;
    assert(spec =~= "serial"@.push(':') + rest);
    lemma_kind_parted("serial"@, rest);
    lemma_no_colon(baud as nat);
    text::lemma_decimal(baud as nat);
    text::text_parts_at_the_last(path, digits, ':');
}

/// A stream is named by its address, with a colon in it, and a recording by
/// its path, whatever that is.
pub proof fn a_stream_and_a_recording_are_named(rest: Seq<char>)
    requires
        rest.len() > 0,
    ensures
        rest.contains(':') ==> spec_of(seq!['t', 'c', 'p', ':'] + rest) == Ok::<
            SpecView,
            Seq<char>,
        >(SpecView::Tcp { address: rest }),
        !rest.contains(':') ==> spec_of(seq!['t', 'c', 'p', ':'] + rest) is Err,
        spec_of(seq!['r', 'e', 'p', 'l', 'a', 'y', ':'] + rest) == Ok::<SpecView, Seq<char>>(
            SpecView::Replay { path: rest },
        ),
{
    reveal_strlit("tcp");
    reveal_strlit("replay");
    lemma_kinds();
    assert(seq!['t', 'c', 'p', ':'] + rest =~= "tcp"@.push(':') + rest);
    assert(seq!['r', 'e', 'p', 'l', 'a', 'y', ':'] + rest =~= "replay"@.push(':') + rest);
    lemma_kind_parted("tcp"@, rest);
    lemma_kind_parted("replay"@, rest);
}

/// What has no colon, nothing behind it, or another word before it, names no
/// source, and what was said is said again.
pub proof fn what_names_no_source_is_refused(kind: Seq<char>, rest: Seq<char>)
    requires
        !kind.contains(':'),
        rest.len() == 0 || (kind != seq!['s', 'e', 'r', 'i', 'a', 'l'] && kind != seq![
            't',
            'c',
            'p',
        ] && kind != seq!['r', 'e', 'p', 'l', 'a', 'y']),
    ensures
        spec_of(kind) == Err::<SpecView, Seq<char>>(
            "'"@ + kind
                + "' is not a source; use serial:PATH[:BAUD], tcp:HOST:PORT or replay:FILE"@,
        ),
        spec_of(kind + seq![':'] + rest) == Err::<SpecView, Seq<char>>(
            "'"@ + (kind + seq![':'] + rest)
                + "' is not a source; use serial:PATH[:BAUD], tcp:HOST:PORT or replay:FILE"@,
        ),
{
    reveal_strlit("serial");
    reveal_strlit("tcp");
    reveal_strlit("replay");
    assert("serial"@ =~= seq!['s', 'e', 'r', 'i', 'a', 'l']);
    assert("tcp"@ =~= seq!['t', 'c', 'p']);
    assert("replay"@ =~= seq!['r', 'e', 'p', 'l', 'a', 'y']);
    text::text_parts_at_the_first(kind, rest, ':');
}

/// What a source sends is a line, without the white space around it; nothing
/// but white space is none.
pub proof fn a_line_is_what_was_sent(
    source: usize,
    lead: Seq<char>,
    line: Seq<char>,
    tail: Seq<char>,
)
    requires
        text::is_trimmed(line),
        forall|i: int| 0 <= i < lead.len() ==> text::is_space(#[trigger] lead[i]),
        forall|i: int| 0 <= i < tail.len() ==> text::is_space(#[trigger] tail[i]),
    ensures
        line.len() > 0 ==> line_event(source, lead + line + tail) == Some(
            EventView::Line { source, line },
        ),
        line.len() == 0 ==> line_event(source, lead + line + tail) is None,
{
    text::space_around_goes(lead, line, tail);
}

/// A reader goes on reading: a blank line is passed over, any other goes to
/// the hub and is followed by the next. It stops only when the hub is gone.
pub proof fn a_reader_reads_on(reader: ReaderView, bytes: Vec<u8>, outcome: Outcome)
    requires
        bytes@.len() > 0,
    ensures
        ({
            let (after, heard) = next_step(reader, Outcome::Read(bytes));
            let spoken = lossy_text(bytes@);
            &&& text::trim(spoken).len() == 0 ==> heard == ActionView::Read
            &&& text::trim(spoken).len() > 0 ==> heard == ActionView::Deliver(
                EventView::Line { source: reader.source, line: text::trim(spoken) },
            ) && next_step(after, Outcome::Delivered).1 == ActionView::Read
        }),
        next_step(reader, outcome).1 is Stop <==> outcome is HubGone,
        next_step(reader, outcome).1 is Open <==> outcome is Waited,
        next_step(reader, outcome).0.source == reader.source,
        next_step(reader, outcome).0.name == reader.name,
        next_step(reader, outcome).0.closed == reader.closed,
{
}

/// A source that closes has failed, and so has one that can't be read. The hub
/// is told which and why, and the reader waits before it tries again.
pub proof fn a_closed_source_is_told(reader: ReaderView, nothing: Vec<u8>, why: String)
    requires
        nothing@.len() == 0,
    ensures
        ({
            let (closed, told) = next_step(reader, Outcome::Read(nothing));
            let (failed, said) = next_step(reader, Outcome::Failed(why));
            &&& told == ActionView::Deliver(
                EventView::Status {
                    source: reader.source,
                    status: SourceStatus::Error,
                    message: Some(reader.name + ": "@ + reader.closed),
                },
            )
            &&& said == ActionView::Deliver(
                EventView::Status {
                    source: reader.source,
                    status: SourceStatus::Error,
                    message: Some(reader.name + ": "@ + why@),
                },
            )
            &&& next_step(closed, Outcome::Delivered).1 == ActionView::Wait
            &&& next_step(failed, Outcome::Delivered).1 == ActionView::Wait
        }),
{
}

/// What is first asked of what a reader reads is a line, once it is open, and
/// when it closes the hub is told so of what it is named.
pub proof fn a_new_reader_reads_what_is_named(
    source: usize,
    name: Seq<char>,
    closed: Seq<char>,
    nothing: Vec<u8>,
)
    requires
        nothing@.len() == 0,
    ensures
        ({
            let reader = unopened(source, name, closed);
            &&& next_step(reader, Outcome::Opened).1 == ActionView::Read
            &&& next_step(reader, Outcome::Delivered).1 == ActionView::Read
            &&& next_step(reader, Outcome::Read(nothing)).1 == ActionView::Deliver(
                EventView::Status {
                    source,
                    status: SourceStatus::Error,
                    message: Some(name + ": "@ + closed),
                },
            )
        }),
{
}

/// A reader waits two seconds before it tries again, and reads no more than
/// 1024 bytes as one line.
pub proof fn a_reader_is_patient()
    ensures
        RETRY == 2_000_000_000,
        MAX_LINE == 1024,
{
}

} // verus!
