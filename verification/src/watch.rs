//! `omakeel watch`: the hub's state as one line per change, for a terminal.

use crate::double::Double;
use crate::protocol;
use crate::text;
use vstd::prelude::*;
use vstd::string::*;

verus! {

/// `serde_json::Value`, a JSON value.
#[verifier::external_type_specification]
#[verifier::external_body]
pub struct ExValue(serde_json::Value);

/// What a JSON value holds: its text, as `serde_json::Value` is displayed. Two
/// values that differ are displayed differently, so the text tells what is in
/// the value.
pub uninterp spec fn json_text(value: serde_json::Value) -> Seq<char>;

/// The text of the value that `serde_json::from_str` reads, or what the error
/// says.
pub uninterp spec fn json_read(text: Seq<char>) -> Result<Seq<char>, Seq<char>>;

/// The text of a member, as `serde_json::Value::get` finds it; none where
/// there is no such member, or no object.
pub uninterp spec fn json_member(value: Seq<char>, key: Seq<char>) -> Option<Seq<char>>;

/// The text of each element, as `serde_json::Value::as_array` has them; none
/// where there is no array.
pub uninterp spec fn json_elements(value: Seq<char>) -> Option<Seq<Seq<char>>>;

/// The characters of a string, as `serde_json::Value::as_str` has them; none
/// where there is no string.
pub uninterp spec fn json_string(value: Seq<char>) -> Option<Seq<char>>;

/// A number as `serde_json::Value::as_u64` has it; none where there is no
/// unsigned integer.
pub uninterp spec fn json_unsigned(value: Seq<char>) -> Option<u64>;

/// The bits of a number as `serde_json::Value::as_f64` has it; none where
/// there is no number.
pub uninterp spec fn json_double(value: Seq<char>) -> Option<u64>;

/// `serde_json::from_str` into a value, or what the error says.
#[verifier::external_body]
fn read(text: &str) -> (value: Result<serde_json::Value, String>)
    ensures
        match value {
            Ok(v) => json_read(text@) == Ok::<Seq<char>, Seq<char>>(json_text(v)),
            Err(e) => json_read(text@) == Err::<Seq<char>, Seq<char>>(e@),
        },
{
    serde_json::from_str(text).map_err(|e| e.to_string())
}

/// `serde_json::Value::get`: an object's member.
#[verifier::external_body]
fn member<'a>(value: &'a serde_json::Value, key: &str) -> (found: Option<&'a serde_json::Value>)
    ensures
        text_in(found) == json_member(json_text(*value), key@),
{
    value.get(key)
}

/// `serde_json::Value::as_array`: an array's elements.
#[verifier::external_body]
fn elements<'a>(value: &'a serde_json::Value) -> (list: Option<&'a Vec<serde_json::Value>>)
    ensures
        match list {
            Some(l) => json_elements(json_text(*value)) == Some(texts(l@)),
            None => json_elements(json_text(*value)) is None,
        },
{
    value.as_array()
}

/// `serde_json::Value::as_str`: a string's characters.
#[verifier::external_body]
fn string(value: &serde_json::Value) -> (text: Option<String>)
    ensures
        text::text_of(text) == json_string(json_text(*value)),
{
    value.as_str().map(|s| s.to_owned())
}

/// `serde_json::Value::as_u64`: an unsigned integer.
#[verifier::external_body]
fn unsigned(value: &serde_json::Value) -> (n: Option<u64>)
    ensures
        n == json_unsigned(json_text(*value)),
{
    value.as_u64()
}

/// `serde_json::Value::as_f64`: a number, as the bits of a double.
#[verifier::external_body]
fn double(value: &serde_json::Value) -> (bits: Option<u64>)
    ensures
        bits == json_double(json_text(*value)),
{
    value.as_f64().map(|x| x.to_bits())
}

/// A `serde_json::Value` as it is displayed.
#[verifier::external_body]
fn shown(value: &serde_json::Value) -> (text: String)
    ensures
        text@ == json_text(*value),
{
    value.to_string()
}

/// The text of each value in a list.
pub open spec fn texts(list: Seq<serde_json::Value>) -> Seq<Seq<char>> {
    Seq::new(list.len(), |i: int| json_text(list[i]))
}

/// The text of a value that may be absent.
pub open spec fn text_in(value: Option<&serde_json::Value>) -> Option<Seq<char>> {
    match value {
        Some(v) => Some(json_text(*v)),
        None => None,
    }
}

/// A message's text; none where it isn't JSON.
pub open spec fn message_in(line: Seq<char>) -> Option<Seq<char>> {
    match json_read(line) {
        Ok(text) => Some(text),
        Err(_) => None,
    }
}

/// The text of a member; none where anything on the way to it is absent.
pub open spec fn member_in(object: Option<Seq<char>>, key: Seq<char>) -> Option<Seq<char>> {
    match object {
        Some(text) => json_member(text, key),
        None => None,
    }
}

/// The characters of the string that a member holds.
pub open spec fn string_in(object: Option<Seq<char>>, key: Seq<char>) -> Option<Seq<char>> {
    match member_in(object, key) {
        Some(value) => json_string(value),
        None => None,
    }
}

/// The unsigned integer that a member holds.
pub open spec fn unsigned_in(object: Option<Seq<char>>, key: Seq<char>) -> Option<u64> {
    match member_in(object, key) {
        Some(value) => json_unsigned(value),
        None => None,
    }
}

/// The number that a member holds.
pub open spec fn double_in(object: Option<Seq<char>>, key: Seq<char>) -> Option<Double> {
    match member_in(object, key) {
        Some(value) => match json_double(value) {
            Some(bits) => Some(Double { bits }),
            None => None,
        },
        None => None,
    }
}

/// A member as it is displayed; `null` where there is none.
pub open spec fn shown_in(object: Option<Seq<char>>, key: Seq<char>) -> Seq<char> {
    match member_in(object, key) {
        Some(value) => value,
        None => "null"@,
    }
}

/// The text of each element of the array that a member holds; none at all
/// where it holds no array.
pub open spec fn elements_in(object: Option<Seq<char>>, key: Seq<char>) -> Seq<Seq<char>> {
    match member_in(object, key) {
        Some(value) => match json_elements(value) {
            Some(list) => list,
            None => Seq::empty(),
        },
        None => Seq::empty(),
    }
}

fn member_at<'a>(object: Option<&'a serde_json::Value>, key: &str) -> (value: Option<
    &'a serde_json::Value,
>)
    ensures
        text_in(value) == member_in(text_in(object), key@),
{
    match object {
        Some(o) => member(o, key),
        None => None,
    }
}

fn string_at(object: Option<&serde_json::Value>, key: &str) -> (text: Option<String>)
    ensures
        text::text_of(text) == string_in(text_in(object), key@),
{
    match member_at(object, key) {
        Some(value) => string(value),
        None => None,
    }
}

fn unsigned_at(object: Option<&serde_json::Value>, key: &str) -> (n: Option<u64>)
    ensures
        n == unsigned_in(text_in(object), key@),
{
    match member_at(object, key) {
        Some(value) => unsigned(value),
        None => None,
    }
}

fn double_at(object: Option<&serde_json::Value>, key: &str) -> (number: Option<Double>)
    ensures
        number == double_in(text_in(object), key@),
{
    match member_at(object, key) {
        Some(value) => match double(value) {
            Some(bits) => Some(Double { bits }),
            None => None,
        },
        None => None,
    }
}

fn shown_at(object: Option<&serde_json::Value>, key: &str) -> (text: String)
    ensures
        text@ == shown_in(text_in(object), key@),
{
    match member_at(object, key) {
        Some(value) => shown(value),
        None => "null".to_owned(),
    }
}

fn elements_at<'a>(object: Option<&'a serde_json::Value>, key: &str) -> (list: Option<
    &'a Vec<serde_json::Value>,
>)
    ensures
        match list {
            Some(l) => elements_in(text_in(object), key@) == texts(l@),
            None => elements_in(text_in(object), key@).len() == 0,
        },
{
    match member_at(object, key) {
        Some(value) => elements(value),
        None => None,
    }
}

/// What to do with a message.
pub enum Heard {
    /// It isn't JSON: what is wrong with it.
    Unreadable(String),
    /// It is of another version: what to say of that.
    OtherVersion(String),
    /// The hub's greeting: what to print.
    Hello(String),
    /// A `state` to describe.
    State,
    /// `targets` to describe.
    Targets,
    /// Something else, to pass over.
    Nothing,
}

pub enum HeardView {
    Unreadable(Seq<char>),
    OtherVersion(Seq<char>),
    Hello(Seq<char>),
    State,
    Targets,
    Nothing,
}

impl View for Heard {
    type V = HeardView;

    open spec fn view(&self) -> HeardView {
        match *self {
            Heard::Unreadable(e) => HeardView::Unreadable(e@),
            Heard::OtherVersion(m) => HeardView::OtherVersion(m@),
            Heard::Hello(m) => HeardView::Hello(m@),
            Heard::State => HeardView::State,
            Heard::Targets => HeardView::Targets,
            Heard::Nothing => HeardView::Nothing,
        }
    }
}

/// Text, or a question mark where there is none.
pub open spec fn or_unknown(text: Option<Seq<char>>) -> Seq<char> {
    match text {
        Some(t) => t,
        None => "?"@,
    }
}

/// What to do with a message, from its version as a number and as it is
/// displayed, its type, and the hub's own version. A message of another
/// version is an error, whatever else it holds.
pub open spec fn judged(
    version: Option<u64>,
    shown: Seq<char>,
    kind: Option<Seq<char>>,
    keel: Option<Seq<char>>,
) -> HeardView {
    if version != Some(protocol::VERSION as u64) {
        HeardView::OtherVersion(
            "the hub speaks protocol v"@ + shown + "; this watch speaks v"@ + text::decimal(
                protocol::VERSION as nat,
            ),
        )
    } else if kind == Some("hello"@) {
        HeardView::Hello("omakeel "@ + or_unknown(keel) + " · protocol v"@ + shown)
    } else if kind == Some("state"@) {
        HeardView::State
    } else if kind == Some("targets"@) {
        HeardView::Targets
    } else {
        HeardView::Nothing
    }
}

/// What to do with a line from the hub.
pub open spec fn heard_in(line: Seq<char>) -> HeardView {
    match json_read(line) {
        Err(e) => HeardView::Unreadable(e),
        Ok(text) => judged(
            unsigned_in(Some(text), "v"@),
            shown_in(Some(text), "v"@),
            string_in(Some(text), "type"@),
            string_in(Some(text), "keel"@),
        ),
    }
}

fn is_kind(kind: &Option<String>, word: &str) -> (yes: bool)
    ensures
        yes == (text::text_of(*kind) == Some(word@)),
{
    match kind {
        Some(k) => text::same(k.as_str(), word),
        None => false,
    }
}

/// What to do with a message, from what it says of itself.
pub fn judge(
    version: Option<u64>,
    shown: &str,
    kind: &Option<String>,
    keel: &Option<String>,
) -> (heard: Heard)
    ensures
        heard@ == judged(version, shown@, text::text_of(*kind), text::text_of(*keel)),
{
    let same = match version {
        Some(v) => v == protocol::VERSION as u64,
        None => false,
    };
    if !same {
        let mut message = "the hub speaks protocol v".to_owned();
        message.append(shown);
        message.append("; this watch speaks v");
        text::push_decimal(&mut message, protocol::VERSION as u64);
        return Heard::OtherVersion(message);
    }
    if is_kind(kind, "hello") {
        let mut message = "omakeel ".to_owned();
        match keel {
            Some(k) => message.append(k.as_str()),
            None => message.append("?"),
        }
        message.append(" · protocol v");
        message.append(shown);
        Heard::Hello(message)
    } else if is_kind(kind, "state") {
        Heard::State
    } else if is_kind(kind, "targets") {
        Heard::Targets
    } else {
        Heard::Nothing
    }
}

/// What to do with a line from the hub.
pub fn hear(line: &str) -> (heard: Heard)
    ensures
        heard@ == heard_in(line@),
{
    let value = match read(line) {
        Ok(value) => value,
        Err(e) => return Heard::Unreadable(e),
    };
    let message = Some(&value);
    let version = unsigned_at(message, "v");
    let shown = shown_at(message, "v");
    let kind = string_at(message, "type");
    let keel = string_at(message, "keel");
    judge(version, shown.as_str(), &kind, &keel)
}

/// A source, as a `state` message tells of it.
#[derive(Debug, PartialEq)]
pub struct SourceGlance {
    pub name: Option<String>,
    pub status: Option<String>,
    /// The counts as they are displayed.
    pub sentences: String,
    pub rejected: String,
}

pub struct SourceGlanceView {
    pub name: Option<Seq<char>>,
    pub status: Option<Seq<char>>,
    pub sentences: Seq<char>,
    pub rejected: Seq<char>,
}

impl View for SourceGlance {
    type V = SourceGlanceView;

    open spec fn view(&self) -> SourceGlanceView {
        SourceGlanceView {
            name: text::text_of(self.name),
            status: text::text_of(self.status),
            sentences: self.sentences@,
            rejected: self.rejected@,
        }
    }
}

/// What a `state` message tells that is worth a line.
#[derive(Debug, PartialEq)]
pub struct Glance {
    pub status: Option<String>,
    pub lat: Option<Double>,
    pub lon: Option<Double>,
    pub sog_kn: Option<Double>,
    pub cog_deg: Option<Double>,
    pub age_seconds: Option<u64>,
    pub sources: Vec<SourceGlance>,
}

pub struct GlanceView {
    pub status: Option<Seq<char>>,
    pub lat: Option<Double>,
    pub lon: Option<Double>,
    pub sog_kn: Option<Double>,
    pub cog_deg: Option<Double>,
    pub age_seconds: Option<u64>,
    pub sources: Seq<SourceGlanceView>,
}

/// What each source in a list tells.
pub open spec fn sources_of(list: Seq<SourceGlance>) -> Seq<SourceGlanceView> {
    Seq::new(list.len(), |i: int| list[i]@)
}

impl View for Glance {
    type V = GlanceView;

    open spec fn view(&self) -> GlanceView {
        GlanceView {
            status: text::text_of(self.status),
            lat: self.lat,
            lon: self.lon,
            sog_kn: self.sog_kn,
            cog_deg: self.cog_deg,
            age_seconds: self.age_seconds,
            sources: sources_of(self.sources@),
        }
    }
}

pub open spec fn source_glance_in(source: Seq<char>) -> SourceGlanceView {
    SourceGlanceView {
        name: string_in(Some(source), "name"@),
        status: string_in(Some(source), "status"@),
        sentences: shown_in(Some(source), "sentences"@),
        rejected: shown_in(Some(source), "rejected"@),
    }
}

/// What a `state` message tells that is worth a line.
pub open spec fn glance_in(line: Seq<char>) -> GlanceView {
    let fix = member_in(message_in(line), "fix"@);
    let sources = elements_in(message_in(line), "sources"@);
    GlanceView {
        status: string_in(fix, "status"@),
        lat: double_in(fix, "lat"@),
        lon: double_in(fix, "lon"@),
        sog_kn: double_in(fix, "sogKn"@),
        cog_deg: double_in(fix, "cogDeg"@),
        age_seconds: unsigned_in(fix, "ageSeconds"@),
        sources: Seq::new(sources.len(), |i: int| source_glance_in(sources[i])),
    }
}

fn source_glances(list: &Vec<serde_json::Value>) -> (sources: Vec<SourceGlance>)
    ensures
        sources_of(sources@) == Seq::new(
            list@.len(),
            |i: int| source_glance_in(json_text(list@[i])),
        ),
{
    let mut sources: Vec<SourceGlance> = Vec::new();
    let mut i: usize = 0;
    while i < list.len()
        invariant
            i <= list.len(),
            sources@.len() == i,
            forall|k: int|
                0 <= k < i ==> (#[trigger] sources@[k])@ == source_glance_in(json_text(list@[k])),
        decreases list.len() - i,
    {
        let source = Some(&list[i]);
        sources.push(
            SourceGlance {
                name: string_at(source, "name"),
                status: string_at(source, "status"),
                sentences: shown_at(source, "sentences"),
                rejected: shown_at(source, "rejected"),
            },
        );
        i = i + 1;
    }
    assert(sources_of(sources@) =~= Seq::new(
        list@.len(),
        |i: int| source_glance_in(json_text(list@[i])),
    ));
    sources
}

/// The message that a line holds, where it is JSON.
fn message_at(line: &str) -> (message: Option<serde_json::Value>)
    ensures
        match message {
            Some(value) => message_in(line@) == Some(json_text(value)),
            None => message_in(line@) is None,
        },
{
    match read(line) {
        Ok(value) => Some(value),
        Err(_) => None,
    }
}

/// What a `state` message tells that is worth a line.
pub fn glance(line: &str) -> (glance: Glance)
    ensures
        glance@ == glance_in(line@),
{
    let value = message_at(line);
    let message = value.as_ref();
    let fix = member_at(message, "fix");
    let sources = match elements_at(message, "sources") {
        Some(list) => source_glances(list),
        None => Vec::new(),
    };
    let glance = Glance {
        status: string_at(fix, "status"),
        lat: double_at(fix, "lat"),
        lon: double_at(fix, "lon"),
        sog_kn: double_at(fix, "sogKn"),
        cog_deg: double_at(fix, "cogDeg"),
        age_seconds: unsigned_at(fix, "ageSeconds"),
        sources,
    };
    assert(glance@.sources =~= glance_in(line@).sources);
    glance
}

/// A latitude or longitude in whole degrees and thousandths of a minute.
#[derive(Debug, PartialEq)]
pub struct Angle {
    pub negative: bool,
    /// Whole degrees as they are printed, and one degree more.
    pub degrees: String,
    pub next_degrees: String,
    pub thousandths: u32,
}

pub struct AngleView {
    pub negative: bool,
    pub degrees: Seq<char>,
    pub next_degrees: Seq<char>,
    pub thousandths: u32,
}

impl View for Angle {
    type V = AngleView;

    open spec fn view(&self) -> AngleView {
        AngleView {
            negative: self.negative,
            degrees: self.degrees@,
            next_degrees: self.next_degrees@,
            thousandths: self.thousandths,
        }
    }
}

/// A latitude and a longitude that may be absent.
pub open spec fn place_of(place: Option<(Angle, Angle)>) -> Option<(AngleView, AngleView)> {
    match place {
        Some((lat, lon)) => Some((lat@, lon@)),
        None => None,
    }
}

/// A glance's numbers as they are printed; none where it has none.
#[derive(Debug, PartialEq)]
pub struct Shown {
    pub place: Option<(Angle, Angle)>,
    /// Knots to one place, four characters wide.
    pub sog_kn: Option<String>,
    /// Whole degrees, three digits wide.
    pub cog_deg: Option<String>,
}

/// Thousandths of a minute that round up to a whole degree carry over.
pub open spec fn carried(angle: AngleView) -> (Seq<char>, nat) {
    if angle.thousandths >= 60_000 {
        (angle.next_degrees, (angle.thousandths - 60_000) as nat)
    } else {
        (angle.degrees, angle.thousandths as nat)
    }
}

/// Degrees and decimal minutes, the way a chart and a GPS show them.
pub open spec fn dm_of(angle: AngleView, positive: char, negative: char, width: int) -> Seq<char> {
    let (degrees, thousandths) = carried(angle);
    text::pad_start(degrees, width, '0') + "°"@ + text::pad_start(
        text::decimal(thousandths / 1000),
        2,
        '0',
    ) + "."@ + text::pad_start(text::decimal(thousandths % 1000), 3, '0') + "′"@ + seq![
        if angle.negative {
            negative
        } else {
            positive
        },
    ]
}

fn push_number(out: &mut String, n: u64, width: usize)
    ensures
        final(out)@ == old(out)@ + text::pad_start(text::decimal(n as nat), width as int, '0'),
{
    let mut digits = String::new();
    text::push_decimal(&mut digits, n);
    assert(digits@ =~= text::decimal(n as nat));
    text::push_pad_start(out, digits.as_str(), width, '0');
}

/// Degrees and decimal minutes, the way a chart and a GPS show them.
pub fn dm(angle: &Angle, positive: char, negative: char, width: usize) -> (text: String)
    ensures
        text@ == dm_of(angle@, positive, negative, width as int),
{
    let mut degrees = angle.degrees.as_str();
    let mut thousandths: u64 = angle.thousandths as u64;
    if thousandths >= 60_000 {
        degrees = angle.next_degrees.as_str();
        thousandths = thousandths - 60_000;
    }
    let mut out = String::new();
    text::push_pad_start(&mut out, degrees, width, '0');
    out.append("°");
    push_number(&mut out, thousandths / 1000, 2);
    out.append(".");
    push_number(&mut out, thousandths % 1000, 3);
    out.append("′");
    out.push(if angle.negative { negative } else { positive });
    assert(out@ =~= dm_of(angle@, positive, negative, width as int));
    out
}

/// One source: its name, its status and its counts.
pub open spec fn source_words(source: SourceGlanceView) -> Seq<char> {
    "  | "@ + or_unknown(source.name) + " "@ + or_unknown(source.status) + " ("@
        + source.sentences + " ok, "@ + source.rejected + " bad)"@
}

/// Every source in turn.
pub open spec fn sources_words(sources: Seq<SourceGlanceView>) -> Seq<char>
    decreases sources.len(),
{
    if sources.len() == 0 {
        Seq::empty()
    } else {
        sources_words(sources.drop_last()) + source_words(sources.last())
    }
}

pub open spec fn place_words(place: Option<(AngleView, AngleView)>) -> Seq<char> {
    match place {
        Some((lat, lon)) => "  "@ + dm_of(lat, 'N', 'S', 2) + "  "@ + dm_of(lon, 'E', 'W', 3),
        None => Seq::empty(),
    }
}

pub open spec fn speed_words(sog_kn: Option<Seq<char>>) -> Seq<char> {
    match sog_kn {
        Some(sog) => "  "@ + sog + " kn"@,
        None => Seq::empty(),
    }
}

pub open spec fn course_words(cog_deg: Option<Seq<char>>) -> Seq<char> {
    match cog_deg {
        Some(cog) => "  "@ + cog + "°T"@,
        None => Seq::empty(),
    }
}

pub open spec fn age_words(age_seconds: Option<u64>) -> Seq<char> {
    match age_seconds {
        Some(age) => "  "@ + text::decimal(age as nat) + "s ago"@,
        None => Seq::empty(),
    }
}

/// A number's print, where there is the number.
pub open spec fn print_of<T>(told: bool, print: Option<T>) -> Option<T> {
    if told {
        print
    } else {
        None
    }
}

/// One `state` message as a line: fix, position, speed, course, age, sources.
/// Nothing is printed of what the message doesn't tell.
pub open spec fn description(
    glance: GlanceView,
    place: Option<(AngleView, AngleView)>,
    sog_kn: Option<Seq<char>>,
    cog_deg: Option<Seq<char>>,
) -> Seq<char> {
    text::pad_end(or_unknown(glance.status), 6, ' ') + place_words(
        print_of(glance.lat is Some && glance.lon is Some, place),
    ) + speed_words(print_of(glance.sog_kn is Some, sog_kn)) + course_words(
        print_of(glance.cog_deg is Some, cog_deg),
    ) + age_words(glance.age_seconds) + sources_words(glance.sources)
}

fn unknown<'a>(text: &'a Option<String>) -> (known: &'a str)
    ensures
        known@ == or_unknown(text::text_of(*text)),
{
    match text {
        Some(t) => t.as_str(),
        None => "?",
    }
}

fn push_source(out: &mut String, source: &SourceGlance)
    ensures
        final(out)@ == old(out)@ + source_words(source@),
{
    out.append("  | ");
    out.append(unknown(&source.name));
    out.append(" ");
    out.append(unknown(&source.status));
    out.append(" (");
    out.append(source.sentences.as_str());
    out.append(" ok, ");
    out.append(source.rejected.as_str());
    out.append(" bad)");
    assert(out@ =~= old(out)@ + source_words(source@));
}

fn push_place(out: &mut String, place: &Option<(Angle, Angle)>)
    ensures
        final(out)@ == old(out)@ + place_words(place_of(*place)),
{
    if let Some((lat, lon)) = place {
        out.append("  ");
        out.append(dm(lat, 'N', 'S', 2).as_str());
        out.append("  ");
        out.append(dm(lon, 'E', 'W', 3).as_str());
    }
    assert(out@ =~= old(out)@ + place_words(place_of(*place)));
}

fn push_speed(out: &mut String, sog_kn: Option<&String>)
    ensures
        final(out)@ == old(out)@ + speed_words(
            match sog_kn {
                Some(sog) => Some(sog@),
                None => None,
            },
        ),
{
    if let Some(sog) = sog_kn {
        out.append("  ");
        out.append(sog.as_str());
        out.append(" kn");
        assert(out@ =~= old(out)@ + ("  "@ + sog@ + " kn"@));
    } else {
        assert(out@ =~= old(out)@ + Seq::<char>::empty());
    }
}

fn push_course(out: &mut String, cog_deg: Option<&String>)
    ensures
        final(out)@ == old(out)@ + course_words(
            match cog_deg {
                Some(cog) => Some(cog@),
                None => None,
            },
        ),
{
    if let Some(cog) = cog_deg {
        out.append("  ");
        out.append(cog.as_str());
        out.append("°T");
        assert(out@ =~= old(out)@ + ("  "@ + cog@ + "°T"@));
    } else {
        assert(out@ =~= old(out)@ + Seq::<char>::empty());
    }
}

fn push_age(out: &mut String, age_seconds: Option<u64>)
    ensures
        final(out)@ == old(out)@ + age_words(age_seconds),
{
    if let Some(age) = age_seconds {
        out.append("  ");
        text::push_decimal(out, age);
        out.append("s ago");
    }
    assert(out@ =~= old(out)@ + age_words(age_seconds));
}

fn push_sources(out: &mut String, sources: &Vec<SourceGlance>)
    ensures
        final(out)@ == old(out)@ + sources_words(sources_of(sources@)),
{
    let ghost all = sources_of(sources@);
    let mut i: usize = 0;
    assert(all.take(0) == Seq::<SourceGlanceView>::empty());
    assert(out@ =~= old(out)@ + sources_words(all.take(0)));
    while i < sources.len()
        invariant
            i <= sources.len(),
            all == sources_of(sources@),
            out@ == old(out)@ + sources_words(all.take(i as int)),
        decreases sources.len() - i,
    {
        push_source(out, &sources[i]);
        proof {
            assert(all.take(i + 1).drop_last() == all.take(i as int));
            assert(all.take(i + 1).last() == sources@[i as int]@);
            assert(out@ =~= old(out)@ + sources_words(all.take(i + 1)));
        }
        i = i + 1;
    }
    assert(all.take(i as int) == all);
}

/// One `state` message as a line: fix, position, speed, course, age, sources.
pub fn describe(glance: &Glance, shown: &Shown) -> (line: String)
    ensures
        line@ == description(
            glance@,
            place_of(shown.place),
            text::text_of(shown.sog_kn),
            text::text_of(shown.cog_deg),
        ),
{
    let mut out = String::new();
    text::push_pad_end(&mut out, unknown(&glance.status), 6, ' ');
    assert(out@ =~= text::pad_end(or_unknown(glance@.status), 6, ' '));
    let located = glance.lat.is_some() && glance.lon.is_some();
    push_place(&mut out, if located { &shown.place } else { &None });
    push_speed(&mut out, if glance.sog_kn.is_some() { shown.sog_kn.as_ref() } else { None });
    push_course(&mut out, if glance.cog_deg.is_some() { shown.cog_deg.as_ref() } else { None });
    push_age(&mut out, glance.age_seconds);
    push_sources(&mut out, &glance.sources);
    out
}

/// A vessel, as a `targets` message tells of it.
#[derive(Debug, PartialEq)]
pub struct VesselGlance {
    pub name: Option<String>,
    /// The MMSI as it is displayed.
    pub mmsi: String,
    pub range_nm: Option<Double>,
    pub bearing_deg: Option<Double>,
    pub cpa_nm: Option<Double>,
    pub tcpa_minutes: Option<Double>,
    pub danger: bool,
}

pub struct VesselGlanceView {
    pub name: Option<Seq<char>>,
    pub mmsi: Seq<char>,
    pub range_nm: Option<Double>,
    pub bearing_deg: Option<Double>,
    pub cpa_nm: Option<Double>,
    pub tcpa_minutes: Option<Double>,
    pub danger: bool,
}

impl View for VesselGlance {
    type V = VesselGlanceView;

    open spec fn view(&self) -> VesselGlanceView {
        VesselGlanceView {
            name: text::text_of(self.name),
            mmsi: self.mmsi@,
            range_nm: self.range_nm,
            bearing_deg: self.bearing_deg,
            cpa_nm: self.cpa_nm,
            tcpa_minutes: self.tcpa_minutes,
            danger: self.danger,
        }
    }
}

/// What each vessel in a list tells.
pub open spec fn vessels_of(list: Seq<VesselGlance>) -> Seq<VesselGlanceView> {
    Seq::new(list.len(), |i: int| list[i]@)
}

pub open spec fn vessel_glance_in(vessel: Seq<char>) -> VesselGlanceView {
    VesselGlanceView {
        name: string_in(Some(vessel), "name"@),
        mmsi: shown_in(Some(vessel), "mmsi"@),
        range_nm: double_in(Some(vessel), "rangeNm"@),
        bearing_deg: double_in(Some(vessel), "bearingDeg"@),
        cpa_nm: double_in(Some(vessel), "cpaNm"@),
        tcpa_minutes: double_in(Some(vessel), "tcpaMinutes"@),
        danger: member_in(Some(vessel), "danger"@) == Some("true"@),
    }
}

/// What a `targets` message tells that is worth a line.
pub open spec fn vessels_in(line: Seq<char>) -> Seq<VesselGlanceView> {
    let list = elements_in(message_in(line), "targets"@);
    Seq::new(list.len(), |i: int| vessel_glance_in(list[i]))
}

fn vessel_glances(list: &Vec<serde_json::Value>) -> (vessels: Vec<VesselGlance>)
    ensures
        vessels_of(vessels@) == Seq::new(
            list@.len(),
            |i: int| vessel_glance_in(json_text(list@[i])),
        ),
{
    let mut vessels: Vec<VesselGlance> = Vec::new();
    let mut i: usize = 0;
    while i < list.len()
        invariant
            i <= list.len(),
            vessels@.len() == i,
            forall|k: int|
                0 <= k < i ==> (#[trigger] vessels@[k])@ == vessel_glance_in(json_text(list@[k])),
        decreases list.len() - i,
    {
        let vessel = Some(&list[i]);
        vessels.push(
            VesselGlance {
                name: string_at(vessel, "name"),
                mmsi: shown_at(vessel, "mmsi"),
                range_nm: double_at(vessel, "rangeNm"),
                bearing_deg: double_at(vessel, "bearingDeg"),
                cpa_nm: double_at(vessel, "cpaNm"),
                tcpa_minutes: double_at(vessel, "tcpaMinutes"),
                danger: match member_at(vessel, "danger") {
                    Some(value) => text::same(shown(value).as_str(), "true"),
                    None => false,
                },
            },
        );
        i = i + 1;
    }
    assert(vessels_of(vessels@) =~= Seq::new(
        list@.len(),
        |i: int| vessel_glance_in(json_text(list@[i])),
    ));
    vessels
}

/// What a `targets` message tells that is worth a line.
pub fn glance_targets(line: &str) -> (vessels: Vec<VesselGlance>)
    ensures
        vessels_of(vessels@) == vessels_in(line@),
{
    let value = message_at(line);
    let vessels = match elements_at(value.as_ref(), "targets") {
        Some(list) => vessel_glances(list),
        None => Vec::new(),
    };
    assert(vessels_of(vessels@) =~= vessels_in(line@));
    vessels
}

/// Where the first vessel with a range is in a list.
pub open spec fn first_ranged(vessels: Seq<VesselGlanceView>) -> Option<int>
    decreases vessels.len(),
{
    if vessels.len() == 0 {
        None
    } else {
        match first_ranged(vessels.drop_last()) {
            Some(i) => Some(i),
            None => if vessels.last().range_nm is Some {
                Some(vessels.len() - 1)
            } else {
                None
            },
        }
    }
}

/// The first vessel with a range, which is the nearest.
pub fn nearest(vessels: &Vec<VesselGlance>) -> (at: Option<usize>)
    ensures
        match at {
            Some(i) => i < vessels@.len() && first_ranged(vessels_of(vessels@)) == Some(i as int),
            None => first_ranged(vessels_of(vessels@)) is None,
        },
{
    let ghost all = vessels_of(vessels@);
    let mut found: Option<usize> = None;
    let mut i: usize = 0;
    while i < vessels.len()
        invariant
            i <= vessels.len(),
            all == vessels_of(vessels@),
            match found {
                Some(k) => k < i && first_ranged(all.take(i as int)) == Some(k as int),
                None => first_ranged(all.take(i as int)) is None,
            },
        decreases vessels.len() - i,
    {
        proof {
            assert(all.take(i + 1).drop_last() == all.take(i as int));
            assert(all.take(i + 1).last() == vessels@[i as int]@);
        }
        if found.is_none() && vessels[i].range_nm.is_some() {
            found = Some(i);
        }
        i = i + 1;
    }
    assert(all.take(i as int) == all);
    found
}

/// A vessel's name, or its MMSI.
pub open spec fn called(vessel: VesselGlanceView) -> Seq<char> {
    match vessel.name {
        Some(name) => name,
        None => "MMSI "@ + vessel.mmsi,
    }
}

/// The nearest vessel's numbers as they are printed.
#[derive(Debug, PartialEq)]
pub struct ShownNearest {
    /// Miles to two places.
    pub range_nm: String,
    /// Whole degrees, three digits wide.
    pub bearing_deg: String,
    /// Miles to two places, and minutes to one.
    pub cpa_nm: String,
    pub tcpa_minutes: String,
}

pub struct ShownNearestView {
    pub range_nm: Seq<char>,
    pub bearing_deg: Seq<char>,
    pub cpa_nm: Seq<char>,
    pub tcpa_minutes: Seq<char>,
}

impl View for ShownNearest {
    type V = ShownNearestView;

    open spec fn view(&self) -> ShownNearestView {
        ShownNearestView {
            range_nm: self.range_nm@,
            bearing_deg: self.bearing_deg@,
            cpa_nm: self.cpa_nm@,
            tcpa_minutes: self.tcpa_minutes@,
        }
    }
}

/// A vessel's numbers to print; zero where the message gives none.
#[derive(Debug, Clone, Copy, PartialEq, Eq, Structural)]
pub struct Figures {
    pub range_nm: Double,
    pub bearing_deg: Double,
    pub cpa_nm: Double,
    pub tcpa_minutes: Double,
}

pub open spec fn or_zero(number: Option<Double>) -> Double {
    match number {
        Some(x) => x,
        None => Double { bits: 0 },
    }
}

fn zero(number: Option<Double>) -> (x: Double)
    ensures
        x == or_zero(number),
{
    match number {
        Some(x) => x,
        None => Double { bits: 0 },
    }
}

pub open spec fn figures_of(vessel: VesselGlanceView) -> Figures {
    Figures {
        range_nm: or_zero(vessel.range_nm),
        bearing_deg: or_zero(vessel.bearing_deg),
        cpa_nm: or_zero(vessel.cpa_nm),
        tcpa_minutes: or_zero(vessel.tcpa_minutes),
    }
}

/// A vessel's numbers to print; zero where the message gives none.
pub fn figures(vessel: &VesselGlance) -> (figures: Figures)
    ensures
        figures == figures_of(vessel@),
        figures == (Figures {
            range_nm: or_zero(vessel.range_nm),
            bearing_deg: or_zero(vessel.bearing_deg),
            cpa_nm: or_zero(vessel.cpa_nm),
            tcpa_minutes: or_zero(vessel.tcpa_minutes),
        }),
{
    Figures {
        range_nm: zero(vessel.range_nm),
        bearing_deg: zero(vessel.bearing_deg),
        cpa_nm: zero(vessel.cpa_nm),
        tcpa_minutes: zero(vessel.tcpa_minutes),
    }
}

pub open spec fn count_words(n: nat) -> Seq<char> {
    if n == 1 {
        "AIS    1 vessel"@
    } else {
        "AIS    "@ + text::decimal(n) + " vessels"@
    }
}

pub open spec fn approach_words(vessel: VesselGlanceView, shown: ShownNearestView) -> Seq<char> {
    if vessel.cpa_nm is Some && vessel.tcpa_minutes is Some {
        ", CPA "@ + shown.cpa_nm + " nm in "@ + shown.tcpa_minutes + " min"@
    } else {
        Seq::empty()
    }
}

/// The nearest vessel, its range and bearing, and how close it comes.
pub open spec fn nearest_words(
    vessels: Seq<VesselGlanceView>,
    shown: ShownNearestView,
) -> Seq<char> {
    match first_ranged(vessels) {
        Some(i) => "  · nearest "@ + called(vessels[i]) + " "@ + shown.range_nm + " nm "@
            + shown.bearing_deg + "°T"@ + approach_words(vessels[i], shown),
        None => Seq::empty(),
    }
}

/// The names of the dangers in a list, with commas between.
pub open spec fn danger_names(vessels: Seq<VesselGlanceView>) -> Seq<char>
    decreases vessels.len(),
{
    if vessels.len() == 0 {
        Seq::empty()
    } else {
        let before = danger_names(vessels.drop_last());
        if !vessels.last().danger {
            before
        } else if any_danger(vessels.drop_last()) {
            before + ", "@ + called(vessels.last())
        } else {
            called(vessels.last())
        }
    }
}

pub open spec fn any_danger(vessels: Seq<VesselGlanceView>) -> bool {
    exists|i: int| 0 <= i < vessels.len() && (#[trigger] vessels[i]).danger
}

pub open spec fn danger_words(vessels: Seq<VesselGlanceView>) -> Seq<char> {
    if any_danger(vessels) {
        "  DANGER "@ + danger_names(vessels)
    } else {
        Seq::empty()
    }
}

/// One `targets` message as a line: how many vessels, the nearest, and any
/// danger by name.
pub open spec fn targets_description(
    vessels: Seq<VesselGlanceView>,
    shown: ShownNearestView,
) -> Seq<char> {
    count_words(vessels.len()) + nearest_words(vessels, shown) + danger_words(vessels)
}

fn push_called(out: &mut String, vessel: &VesselGlance)
    ensures
        final(out)@ == old(out)@ + called(vessel@),
{
    match &vessel.name {
        Some(name) => {
            out.append(name.as_str());
        },
        None => {
            out.append("MMSI ");
            out.append(vessel.mmsi.as_str());
        },
    }
    assert(out@ =~= old(out)@ + called(vessel@));
}

fn push_nearest(out: &mut String, vessels: &Vec<VesselGlance>, shown: &ShownNearest)
    ensures
        final(out)@ == old(out)@ + nearest_words(vessels_of(vessels@), shown@),
{
    let ghost all = vessels_of(vessels@);
    if let Some(i) = nearest(vessels) {
        let vessel = &vessels[i];
        assert(all[i as int] == vessel@);
        out.append("  · nearest ");
        push_called(out, vessel);
        out.append(" ");
        out.append(shown.range_nm.as_str());
        out.append(" nm ");
        out.append(shown.bearing_deg.as_str());
        out.append("°T");
        if vessel.cpa_nm.is_some() && vessel.tcpa_minutes.is_some() {
            out.append(", CPA ");
            out.append(shown.cpa_nm.as_str());
            out.append(" nm in ");
            out.append(shown.tcpa_minutes.as_str());
            out.append(" min");
        }
    }
    assert(out@ =~= old(out)@ + nearest_words(all, shown@));
}

fn push_dangers(out: &mut String, vessels: &Vec<VesselGlance>)
    ensures
        final(out)@ == old(out)@ + danger_words(vessels_of(vessels@)),
{
    let ghost all = vessels_of(vessels@);
    let mut any = false;
    let mut i: usize = 0;
    assert(out@ =~= old(out)@ + danger_words(all.take(0)));
    while i < vessels.len()
        invariant
            i <= vessels.len(),
            all == vessels_of(vessels@),
            any == any_danger(all.take(i as int)),
            out@ == old(out)@ + danger_words(all.take(i as int)),
        decreases vessels.len() - i,
    {
        let ghost shorter = all.take(i as int);
        let ghost longer = all.take(i + 1);
        proof {
            assert(longer.drop_last() == shorter);
            assert(longer.last() == vessels@[i as int]@);
            assert forall|k: int| 0 <= k < shorter.len() implies #[trigger] longer[k]
                == shorter[k] by {}
            if any_danger(shorter) {
                let k: int = choose|k: int|
                    0 <= k < shorter.len() && (#[trigger] shorter[k]).danger;
                assert(longer[k].danger);
            }
            if any_danger(longer) && !longer.last().danger {
                let k: int = choose|k: int| 0 <= k < longer.len() && (#[trigger] longer[k]).danger;
                assert(shorter[k].danger);
            }
        }
        if vessels[i].danger {
            assert(longer[i as int].danger);
            if any {
                out.append(", ");
            } else {
                out.append("  DANGER ");
            }
            push_called(out, &vessels[i]);
            any = true;
        }
        assert(out@ =~= old(out)@ + danger_words(longer));
        i = i + 1;
    }
    assert(all.take(i as int) == all);
}

/// One `targets` message as a line: how many vessels, the nearest, and any
/// danger by name.
pub fn describe_targets(vessels: &Vec<VesselGlance>, shown: &ShownNearest) -> (line: String)
    ensures
        line@ == targets_description(vessels_of(vessels@), shown@),
{
    let mut out = String::new();
    if vessels.len() == 1 {
        out.append("AIS    1 vessel");
    } else {
        out.append("AIS    ");
        text::push_decimal(&mut out, vessels.len() as u64);
        out.append(" vessels");
    }
    assert(out@ =~= count_words(vessels@.len()));
    push_nearest(&mut out, vessels, shown);
    push_dangers(&mut out, vessels);
    out
}

/// A message of another version is refused, whatever else it holds.
pub proof fn another_version_is_refused(
    version: Option<u64>,
    shown: Seq<char>,
    kind: Option<Seq<char>>,
    keel: Option<Seq<char>>,
)
    ensures
        judged(version, shown, kind, keel) is OtherVersion <==> version != Some(1u64),
        judged(version, shown, kind, keel) matches HeardView::OtherVersion(words) ==> words
            == "the hub speaks protocol v"@ + shown + "; this watch speaks v"@ + seq!['1'],
{
    assert(text::decimal(1) =~= seq!['1']);
}

/// Of a message of this version, its type alone decides what is made of it.
pub proof fn the_type_decides(
    shown: Seq<char>,
    kind: Option<Seq<char>>,
    keel: Option<Seq<char>>,
)
    ensures
        ({
            let heard = judged(Some(1u64), shown, kind, keel);
            &&& heard is Hello <==> kind == Some("hello"@)
            &&& heard is State <==> kind == Some("state"@)
            &&& heard is Targets <==> kind == Some("targets"@)
            &&& heard is Nothing <==> kind != Some("hello"@) && kind != Some("state"@) && kind
                != Some("targets"@)
            &&& heard matches HeardView::Hello(words) ==> words == "omakeel "@ + (if keel is Some {
                keel->0
            } else {
                "?"@
            }) + " · protocol v"@ + shown
        }),
{
    reveal_strlit("hello");
    reveal_strlit("state");
    reveal_strlit("targets");
    assert("hello"@[0] != "state"@[0]);
    assert("hello"@[0] != "targets"@[0]);
    assert("state"@.len() != "targets"@.len());
}

/// A fix without a position is described without inventing one: the status,
/// then the sources.
pub proof fn no_fix_is_invented(
    glance: GlanceView,
    place: Option<(AngleView, AngleView)>,
    sog_kn: Option<Seq<char>>,
    cog_deg: Option<Seq<char>>,
)
    requires
        glance.lat is None,
        glance.sog_kn is None,
        glance.cog_deg is None,
        glance.age_seconds is None,
    ensures
        description(glance, place, sog_kn, cog_deg) == text::pad_end(
            or_unknown(glance.status),
            6,
            ' ',
        ) + sources_words(glance.sources),
{
    let status = text::pad_end(or_unknown(glance.status), 6, ' ');
    assert(status + Seq::<char>::empty() =~= status);
}

/// Carrying over to the next degree leaves the place as it is, and fewer than
/// 60 minutes.
pub proof fn carrying_keeps_the_place(angle: AngleView)
    requires
        angle.thousandths <= 60_000,
        text::digits_value(angle.next_degrees) == text::digits_value(angle.degrees) + 1,
    ensures
        text::digits_value(carried(angle).0) * 60_000 + carried(angle).1 == text::digits_value(
            angle.degrees,
        ) * 60_000 + angle.thousandths,
        carried(angle).1 < 60_000,
{
}

/// Every danger is named.
pub proof fn every_danger_is_named(vessels: Seq<VesselGlanceView>, i: int)
    requires
        0 <= i < vessels.len(),
        vessels[i].danger,
    ensures
        exists|at: int|
            0 <= at <= danger_names(vessels).len() - called(vessels[i]).len()
                && #[trigger] danger_names(vessels).subrange(at, at + called(vessels[i]).len())
                == called(vessels[i]),
    decreases vessels.len(),
{
    let front = vessels.drop_last();
    let names = danger_names(vessels);
    let name = called(vessels[i]);
    if i == vessels.len() - 1 {
        let at = names.len() - name.len();
        assert(names.subrange(at, at + name.len()) =~= name);
    } else {
        assert(front[i] == vessels[i]);
        assert(any_danger(front));
        every_danger_is_named(front, i);
        let before = danger_names(front);
        let at: int = choose|at: int|
            0 <= at <= before.len() - name.len() && #[trigger] before.subrange(at, at + name.len())
                == name;
        assert(names.subrange(at, at + name.len()) =~= before.subrange(at, at + name.len()));
    }
}

/// A number below 100 fills two characters, zeros in front.
proof fn lemma_two_wide(n: nat)
    requires
        n < 100,
    ensures
        text::pad_start(text::decimal(n), 2, '0') == seq![
            text::digit(n / 10),
            text::digit(n % 10),
        ],
{
    reveal_with_fuel(text::decimal, 2);
    assert(text::pad_start(text::decimal(n), 2, '0') =~= seq![
        text::digit(n / 10),
        text::digit(n % 10),
    ]);
}

/// A number below 1000 fills three characters, zeros in front.
proof fn lemma_three_wide(n: nat)
    requires
        n < 1000,
    ensures
        text::pad_start(text::decimal(n), 3, '0') == seq![
            text::digit(n / 100),
            text::digit(n / 10 % 10),
            text::digit(n % 10),
        ],
{
    reveal_with_fuel(text::decimal, 3);
    assert(text::pad_start(text::decimal(n), 3, '0') =~= seq![
        text::digit(n / 100),
        text::digit(n / 10 % 10),
        text::digit(n % 10),
    ]);
}

/// An angle of so many whole degrees and thousandths of a minute; these may
/// have rounded up to a whole degree.
pub open spec fn angle(negative: bool, degrees: nat, thousandths: nat) -> AngleView {
    AngleView {
        negative,
        degrees: text::decimal(degrees),
        next_degrees: text::decimal(degrees + 1),
        thousandths: thousandths as u32,
    }
}

/// Minutes as they are shown: two digits, a point, three digits, the mark,
/// and the letter of the hemisphere.
pub open spec fn shown_minutes(thousandths: nat, letter: char) -> Seq<char> {
    let whole = thousandths / 1000 % 60;
    let parts = thousandths % 1000;
    seq![
        '°',
        text::digit(whole / 10),
        text::digit(whole % 10),
        '.',
        text::digit(parts / 100),
        text::digit(parts / 10 % 10),
        text::digit(parts % 10),
        '′',
        letter,
    ]
}

/// A latitude of so many thousandths of a minute as it is shown: two digits of
/// degrees, and the minutes.
pub open spec fn shown_latitude(total: nat, south: bool) -> Seq<char> {
    let degrees = total / 60_000;
    seq![text::digit(degrees / 10), text::digit(degrees % 10)] + shown_minutes(
        total,
        if south {
            'S'
        } else {
            'N'
        },
    )
}

/// A longitude of so many thousandths of a minute as it is shown: three digits
/// of degrees, and the minutes.
pub open spec fn shown_longitude(total: nat, west: bool) -> Seq<char> {
    let degrees = total / 60_000;
    seq![
        text::digit(degrees / 100),
        text::digit(degrees / 10 % 10),
        text::digit(degrees % 10),
    ] + shown_minutes(
        total,
        if west {
            'W'
        } else {
            'E'
        },
    )
}

#[verifier::spinoff_prover]
proof fn lemma_dm(a: AngleView, degrees: nat, thousandths: nat, positive: char, negative: char)
    requires
        thousandths <= 60_000,
        a == angle(a.negative, degrees, thousandths),
    ensures
        ({
            let total: nat = degrees * 60_000 + thousandths;
            let letter = if a.negative {
                negative
            } else {
                positive
            };
            &&& total / 60_000 < 100 ==> dm_of(a, positive, negative, 2) == seq![
                text::digit(total / 60_000 / 10),
                text::digit(total / 60_000 % 10),
            ] + shown_minutes(total, letter)
            &&& total / 60_000 < 1000 ==> dm_of(a, positive, negative, 3) == seq![
                text::digit(total / 60_000 / 100),
                text::digit(total / 60_000 / 10 % 10),
                text::digit(total / 60_000 % 10),
            ] + shown_minutes(total, letter)
        }),
{
    let total: nat = degrees * 60_000 + thousandths;
    let (text, left) = carried(a);
    let whole = total / 60_000;
    assert(text == text::decimal(whole));
    assert(left == total % 60_000);
    assert(left / 1000 == total / 1000 % 60);
    assert(left % 1000 == total % 1000);
    lemma_two_wide(left / 1000);
    lemma_three_wide(left % 1000);
    reveal_strlit("°");
    reveal_strlit(".");
    reveal_strlit("′");
    let letter = if a.negative {
        negative
    } else {
        positive
    };
    if whole < 100 {
        lemma_two_wide(whole);
        assert(dm_of(a, positive, negative, 2) =~= seq![
            text::digit(whole / 10),
            text::digit(whole % 10),
        ] + shown_minutes(total, letter));
    }
    if whole < 1000 {
        lemma_three_wide(whole);
        assert(dm_of(a, positive, negative, 3) =~= seq![
            text::digit(whole / 100),
            text::digit(whole / 10 % 10),
            text::digit(whole % 10),
        ] + shown_minutes(total, letter));
    }
}

/// Where the status ends in a line: it is six characters wide, or as long as
/// it is.
pub open spec fn status_width(glance: GlanceView) -> int {
    if or_unknown(glance.status).len() > 6 {
        or_unknown(glance.status).len() as int
    } else {
        6
    }
}

/// A line starts with the status, or a question mark, and then spaces.
pub proof fn a_line_starts_with_the_status(
    glance: GlanceView,
    place: Option<(AngleView, AngleView)>,
    sog_kn: Option<Seq<char>>,
    cog_deg: Option<Seq<char>>,
    i: int,
)
    requires
        0 <= i < status_width(glance),
    ensures
        ({
            let line = description(glance, place, sog_kn, cog_deg);
            let status = if glance.status is Some {
                glance.status->0
            } else {
                seq!['?']
            };
            &&& line.len() >= status_width(glance)
            &&& line[i] == (if i < status.len() {
                status[i]
            } else {
                ' '
            })
        }),
{
    reveal_strlit("?");
    assert("?"@ =~= seq!['?']);
}

/// A latitude and a longitude as they are shown, with spaces in front.
pub open spec fn shown_place(lat: nat, south: bool, lon: nat, west: bool) -> Seq<char> {
    seq![' ', ' '] + shown_latitude(lat, south) + seq![' ', ' '] + shown_longitude(lon, west)
}

#[verifier::spinoff_prover]
proof fn lemma_shown_place(south: bool, west: bool, lat: (nat, nat), lon: (nat, nat))
    requires
        lat.0 <= 90 && lat.1 <= 60_000,
        lon.0 <= 180 && lon.1 <= 60_000,
    ensures
        place_words(Some((angle(south, lat.0, lat.1), angle(west, lon.0, lon.1)))) == shown_place(
            lat.0 * 60_000 + lat.1,
            south,
            lon.0 * 60_000 + lon.1,
            west,
        ),
        shown_place(lat.0 * 60_000 + lat.1, south, lon.0 * 60_000 + lon.1, west).len() == 27,
{
    let place = (angle(south, lat.0, lat.1), angle(west, lon.0, lon.1));
    lemma_dm(place.0, lat.0, lat.1, 'N', 'S');
    lemma_dm(place.1, lon.0, lon.1, 'E', 'W');
    assert("  "@ == seq![' ', ' ']) by {
        reveal_strlit("  ");
    }
    let lat_words = shown_latitude(lat.0 * 60_000 + lat.1, south);
    let lon_words = shown_longitude(lon.0 * 60_000 + lon.1, west);
    assert(dm_of(place.0, 'N', 'S', 2) == lat_words);
    assert(dm_of(place.1, 'E', 'W', 3) == lon_words);
}

/// A position that is told is shown behind the status: the latitude in two
/// digits of degrees and the longitude in three, the minutes of both to three
/// places, and the letter of each hemisphere: `S` where the latitude is
/// negative and `N` where not, `W` where the longitude is and `E` where not.
#[verifier::spinoff_prover]
pub proof fn a_place_is_shown_as_it_is(
    glance: GlanceView,
    south: bool,
    west: bool,
    lat: (nat, nat),
    lon: (nat, nat),
    sog_kn: Option<Seq<char>>,
    cog_deg: Option<Seq<char>>,
)
    requires
        glance.lat is Some,
        glance.lon is Some,
        lat.0 <= 90 && lat.1 <= 60_000,
        lon.0 <= 180 && lon.1 <= 60_000,
    ensures
        is_shown_at(
            description(
                glance,
                Some((angle(south, lat.0, lat.1), angle(west, lon.0, lon.1))),
                sog_kn,
                cog_deg,
            ),
            status_width(glance),
            shown_place(lat.0 * 60_000 + lat.1, south, lon.0 * 60_000 + lon.1, west),
        ),
{
    lemma_shown_place(south, west, lat, lon);
    lemma_place_in_line(
        glance,
        (angle(south, lat.0, lat.1), angle(west, lon.0, lon.1)),
        sog_kn,
        cog_deg,
    );
}

/// The line has these words at this place.
pub open spec fn is_shown_at(line: Seq<char>, at: int, words: Seq<char>) -> bool {
    at + words.len() <= line.len() && line.subrange(at, at + words.len()) == words
}

/// A place that is told stands behind the status.
proof fn lemma_place_in_line(
    glance: GlanceView,
    place: (AngleView, AngleView),
    sog_kn: Option<Seq<char>>,
    cog_deg: Option<Seq<char>>,
)
    requires
        glance.lat is Some,
        glance.lon is Some,
    ensures
        is_shown_at(
            description(glance, Some(place), sog_kn, cog_deg),
            status_width(glance),
            place_words(Some(place)),
        ),
{
    let line = description(glance, Some(place), sog_kn, cog_deg);
    let words = place_words(Some(place));
    let start = status_width(glance);
    assert(line.subrange(start, start + words.len()) =~= words);
}

/// The places of two boats that differ only in a hemisphere are never
/// described alike, however they are printed.
pub proof fn hemispheres_are_told_apart(
    glance: GlanceView,
    lat: AngleView,
    lon: AngleView,
    sog_kn: Option<Seq<char>>,
    cog_deg: Option<Seq<char>>,
)
    requires
        glance.lat is Some,
        glance.lon is Some,
    ensures
        ({
            let line = description(glance, Some((lat, lon)), sog_kn, cog_deg);
            let over = AngleView { negative: !lat.negative, ..lat };
            let across = AngleView { negative: !lon.negative, ..lon };
            &&& line != description(glance, Some((over, lon)), sog_kn, cog_deg)
            &&& line != description(glance, Some((lat, across)), sog_kn, cog_deg)
        }),
{
    let line = description(glance, Some((lat, lon)), sog_kn, cog_deg);
    let over = AngleView { negative: !lat.negative, ..lat };
    let across = AngleView { negative: !lon.negative, ..lon };
    let other = description(glance, Some((over, lon)), sog_kn, cog_deg);
    let another = description(glance, Some((lat, across)), sog_kn, cog_deg);
    reveal_strlit("  ");
    let start = status_width(glance);
    let lat_words = dm_of(lat, 'N', 'S', 2);
    let lon_words = dm_of(lon, 'E', 'W', 3);
    let lat_letter: int = start + 2 + lat_words.len() - 1;
    let lon_letter: int = start + 4 + lat_words.len() + lon_words.len() - 1;
    assert(dm_of(over, 'N', 'S', 2).len() == lat_words.len());
    assert(dm_of(across, 'E', 'W', 3).len() == lon_words.len());
    assert(line[lat_letter] == lat_words.last());
    assert(other[lat_letter] == dm_of(over, 'N', 'S', 2).last());
    assert(line[lon_letter] == lon_words.last());
    assert(another[lon_letter] == dm_of(across, 'E', 'W', 3).last());
}

/// A speed that is told is shown behind the place, in knots.
pub proof fn a_speed_is_shown_in_knots(
    glance: GlanceView,
    place: Option<(AngleView, AngleView)>,
    sog: Seq<char>,
    cog_deg: Option<Seq<char>>,
)
    requires
        glance.sog_kn is Some,
    ensures
        description(
            (GlanceView { cog_deg: None, age_seconds: None, sources: Seq::empty(), ..glance }),
            place,
            Some(sog),
            cog_deg,
        ) == description(
            (GlanceView {
                sog_kn: None,
                cog_deg: None,
                age_seconds: None,
                sources: Seq::empty(),
                ..glance
            }),
            place,
            Some(sog),
            cog_deg,
        ) + "  "@ + sog + " kn"@,
{
    assert(description(
            (GlanceView { cog_deg: None, age_seconds: None, sources: Seq::empty(), ..glance }),
            place,
            Some(sog),
            cog_deg,
        ) =~= description(
            (GlanceView {
                sog_kn: None,
                cog_deg: None,
                age_seconds: None,
                sources: Seq::empty(),
                ..glance
            }),
            place,
            Some(sog),
            cog_deg,
        ) + "  "@ + sog + " kn"@);
}

/// A course that is told is shown behind the speed, in degrees true.
pub proof fn a_course_is_shown_in_degrees(
    glance: GlanceView,
    place: Option<(AngleView, AngleView)>,
    sog_kn: Option<Seq<char>>,
    cog: Seq<char>,
)
    requires
        glance.cog_deg is Some,
    ensures
        description(
            (GlanceView { age_seconds: None, sources: Seq::empty(), ..glance }),
            place,
            sog_kn,
            Some(cog),
        ) == description(
            (GlanceView { cog_deg: None, age_seconds: None, sources: Seq::empty(), ..glance }),
            place,
            sog_kn,
            Some(cog),
        ) + "  "@ + cog + "°T"@,
{
    assert(description(
            (GlanceView { age_seconds: None, sources: Seq::empty(), ..glance }),
            place,
            sog_kn,
            Some(cog),
        ) =~= description(
            (GlanceView { cog_deg: None, age_seconds: None, sources: Seq::empty(), ..glance }),
            place,
            sog_kn,
            Some(cog),
        ) + "  "@ + cog + "°T"@);
}

/// An age that is told is shown behind the course, in seconds.
pub proof fn an_age_is_shown_in_seconds(
    glance: GlanceView,
    place: Option<(AngleView, AngleView)>,
    sog_kn: Option<Seq<char>>,
    cog_deg: Option<Seq<char>>,
    age: u64,
)
    requires
        glance.age_seconds == Some(age),
    ensures
        description(
            (GlanceView { sources: Seq::empty(), ..glance }),
            place,
            sog_kn,
            cog_deg,
        ) == description(
            (GlanceView { age_seconds: None, sources: Seq::empty(), ..glance }),
            place,
            sog_kn,
            cog_deg,
        ) + "  "@ + text::decimal(age as nat)
            + "s ago"@,
{
    assert(description(
            (GlanceView { sources: Seq::empty(), ..glance }),
            place,
            sog_kn,
            cog_deg,
        ) =~= description(
            (GlanceView { age_seconds: None, sources: Seq::empty(), ..glance }),
            place,
            sog_kn,
            cog_deg,
        ) + "  "@ + text::decimal(age as nat)
            + "s ago"@);
}

/// Every source is shown behind all that, in turn, with its status and its
/// counts.
pub proof fn a_source_is_shown_with_its_counts(
    glance: GlanceView,
    place: Option<(AngleView, AngleView)>,
    sog_kn: Option<Seq<char>>,
    cog_deg: Option<Seq<char>>,
    source: SourceGlanceView,
)
    ensures
        description(
            (GlanceView { sources: glance.sources.push(source), ..glance }),
            place,
            sog_kn,
            cog_deg,
        ) == description(glance, place, sog_kn, cog_deg) + ("  | "@ + (if source.name is Some {
            source.name->0
        } else {
            "?"@
        }) + " "@ + (if source.status is Some {
            source.status->0
        } else {
            "?"@
        }) + " ("@ + source.sentences + " ok, "@ + source.rejected + " bad)"@),
{
    let sources = glance.sources.push(source);
    assert(sources.drop_last() =~= glance.sources);
    let words = source_words(source);
    assert(sources_words(sources) == sources_words(glance.sources) + words);
    assert(description((GlanceView { sources, ..glance }), place, sog_kn, cog_deg) =~= description(
        glance,
        place,
        sog_kn,
        cog_deg,
    ) + words);
}

/// A number that is told but can't be printed, like one that isn't told, adds
/// nothing to the line.
pub proof fn what_has_no_print_is_left_out(
    glance: GlanceView,
    sog_kn: Option<Seq<char>>,
    cog_deg: Option<Seq<char>>,
    place: (AngleView, AngleView),
)
    ensures
        description(glance, None, None, None) == description(
            (GlanceView { lat: None, lon: None, sog_kn: None, cog_deg: None, ..glance }),
            Some(place),
            sog_kn,
            cog_deg,
        ),
        description((GlanceView { lat: None, ..glance }), Some(place), sog_kn, cog_deg)
            == description(glance, None, sog_kn, cog_deg),
        description((GlanceView { lon: None, ..glance }), Some(place), sog_kn, cog_deg)
            == description(glance, None, sog_kn, cog_deg),
{
}

/// The nearest vessel is the first in the list that has a range.
pub proof fn the_nearest_is_the_first_with_a_range(vessels: Seq<VesselGlanceView>)
    ensures
        match first_ranged(vessels) {
            Some(i) => {
                &&& 0 <= i < vessels.len()
                &&& vessels[i].range_nm is Some
                &&& forall|k: int| 0 <= k < i ==> (#[trigger] vessels[k]).range_nm is None
            },
            None => forall|k: int|
                0 <= k < vessels.len() ==> (#[trigger] vessels[k]).range_nm is None,
        },
    decreases vessels.len(),
{
    if vessels.len() > 0 {
        let front = vessels.drop_last();
        the_nearest_is_the_first_with_a_range(front);
        if first_ranged(front) is None {
            assert forall|k: int| 0 <= k < vessels.len() - 1 implies (
            #[trigger] vessels[k]).range_nm is None by {
                assert(front[k] == vessels[k]);
            }
        } else {
            let i = first_ranged(front)->0;
            assert forall|k: int| 0 <= k < i implies (#[trigger] vessels[k]).range_nm is None by {
                assert(front[k] == vessels[k]);
            }
        }
    }
}

/// A `targets` line tells how many vessels there are, then the nearest by
/// name, its range and bearing, how close it comes where that is known, and
/// the dangers by name. There is no word of a nearest where none has a range,
/// nor of a danger where there is none.
pub proof fn a_targets_line_tells_the_nearest(
    vessels: Seq<VesselGlanceView>,
    shown: ShownNearestView,
    i: int,
)
    requires
        0 <= i < vessels.len(),
        vessels[i].range_nm is Some,
        forall|k: int| 0 <= k < i ==> (#[trigger] vessels[k]).range_nm is None,
    ensures
        ({
            let v = vessels[i];
            let n = vessels.len();
            let known = v.cpa_nm is Some && v.tcpa_minutes is Some;
            let count = if n == 1 {
                "AIS    1 vessel"@
            } else {
                "AIS    "@ + text::decimal(n) + " vessels"@
            };
            let name = if v.name is Some {
                v.name->0
            } else {
                "MMSI "@ + v.mmsi
            };
            let near = count + "  · nearest "@ + name + " "@ + shown.range_nm + " nm "@
                + shown.bearing_deg + "°T"@;
            let close = if known {
                near + ", CPA "@ + shown.cpa_nm + " nm in "@ + shown.tcpa_minutes + " min"@
            } else {
                near
            };
            &&& any_danger(vessels) ==> targets_description(vessels, shown) == close
                + "  DANGER "@ + danger_names(vessels)
            &&& !any_danger(vessels) ==> targets_description(vessels, shown) == close
        }),
{
    the_nearest_is_the_first_with_a_range(vessels);
    assert(first_ranged(vessels) == Some(i));
    let v = vessels[i];
    let n = vessels.len();
    let known = v.cpa_nm is Some && v.tcpa_minutes is Some;
    let near = count_words(n) + "  · nearest "@ + called(v) + " "@ + shown.range_nm + " nm "@
        + shown.bearing_deg + "°T"@;
    let close = if known {
        near + ", CPA "@ + shown.cpa_nm + " nm in "@ + shown.tcpa_minutes + " min"@
    } else {
        near
    };
    assert(count_words(n) + nearest_words(vessels, shown) =~= close);
    if any_danger(vessels) {
        assert(targets_description(vessels, shown) =~= close + "  DANGER "@ + danger_names(
            vessels,
        ));
    } else {
        assert(targets_description(vessels, shown) =~= close);
    }
}

/// Of vessels without a range there is a count, and the dangers by name.
pub proof fn without_a_range_there_is_a_count(
    vessels: Seq<VesselGlanceView>,
    shown: ShownNearestView,
)
    requires
        forall|k: int| 0 <= k < vessels.len() ==> (#[trigger] vessels[k]).range_nm is None,
    ensures
        ({
            let n = vessels.len();
            let count = "AIS    "@ + text::decimal(n) + (if n == 1 {
                " vessel"@
            } else {
                " vessels"@
            });
            &&& any_danger(vessels) ==> targets_description(vessels, shown) == count
                + "  DANGER "@ + danger_names(vessels)
            &&& !any_danger(vessels) ==> targets_description(vessels, shown) == count
        }),
{
    the_nearest_is_the_first_with_a_range(vessels);
    let n = vessels.len();
    let count = "AIS    "@ + text::decimal(n) + (if n == 1 {
        " vessel"@
    } else {
        " vessels"@
    });
    if n == 1 {
        reveal_strlit("AIS    1 vessel");
        reveal_strlit("AIS    ");
        reveal_strlit(" vessel");
        assert(text::decimal(1) =~= seq!['1']);
        assert(count_words(n) =~= count);
    }
    assert(nearest_words(vessels, shown) =~= Seq::<char>::empty());
    if any_danger(vessels) {
        assert(targets_description(vessels, shown) =~= count + "  DANGER "@ + danger_names(
            vessels,
        ));
    } else {
        assert(targets_description(vessels, shown) =~= count);
    }
}

proof fn lemma_dangers(a: Seq<VesselGlanceView>, b: Seq<VesselGlanceView>)
    ensures
        any_danger(a + b) <==> any_danger(a) || any_danger(b),
{
    let whole = a + b;
    if any_danger(whole) {
        let i: int = choose|i: int| 0 <= i < whole.len() && (#[trigger] whole[i]).danger;
        if i < a.len() {
            assert(a[i].danger);
        } else {
            assert(b[i - a.len()].danger);
        }
    }
    if any_danger(a) {
        let i: int = choose|i: int| 0 <= i < a.len() && (#[trigger] a[i]).danger;
        assert(whole[i].danger);
    }
    if any_danger(b) {
        let i: int = choose|i: int| 0 <= i < b.len() && (#[trigger] b[i]).danger;
        assert(whole[i + a.len()].danger);
    }
}

/// The dangers are named in the order of the list, with commas between, each
/// by its name or else its MMSI, and no other vessel is.
pub proof fn dangers_are_named_in_order(
    a: Seq<VesselGlanceView>,
    b: Seq<VesselGlanceView>,
    v: VesselGlanceView,
)
    ensures
        any_danger(a) && any_danger(b) ==> danger_names(a + b) == danger_names(a) + ", "@
            + danger_names(b),
        !any_danger(b) ==> danger_names(a + b) == danger_names(a),
        !any_danger(a) ==> danger_names(a + b) == danger_names(b),
        v.danger ==> any_danger(seq![v]) && danger_names(seq![v]) == (if v.name is Some {
            v.name->0
        } else {
            "MMSI "@ + v.mmsi
        }),
        !v.danger ==> !any_danger(seq![v]),
    decreases b.len(),
{
    let whole = a + b;
    let one = seq![v];
    assert(one.drop_last() =~= Seq::<VesselGlanceView>::empty());
    assert(!any_danger(one.drop_last()));
    if v.danger {
        assert(one[0].danger);
    }
    if b.len() == 0 {
        assert(whole =~= a);
        if !any_danger(a) {
            lemma_no_names(a);
        }
    } else {
        let front = b.drop_last();
        let last = b.last();
        dangers_are_named_in_order(a, front, v);
        assert(whole.drop_last() =~= a + front);
        assert(whole.last() == last);
        lemma_dangers(a, front);
        lemma_dangers(front, seq![last]);
        assert(front + seq![last] =~= b);
        if last.danger {
            assert(b[b.len() - 1].danger);
            assert(any_danger(b));
            if any_danger(a) && any_danger(front) {
                assert(danger_names(whole) =~= danger_names(a) + ", "@ + danger_names(b));
            } else if any_danger(a) {
                assert(danger_names(whole) =~= danger_names(a) + ", "@ + danger_names(b));
            }
        } else {
            if any_danger(seq![last]) {
                let k: int = choose|k: int| 0 <= k < 1 && (#[trigger] seq![last][k]).danger;
                assert(seq![last][k] == last);
            }
        }
    }
}

proof fn lemma_no_names(vessels: Seq<VesselGlanceView>)
    requires
        !any_danger(vessels),
    ensures
        danger_names(vessels) == Seq::<char>::empty(),
    decreases vessels.len(),
{
    if vessels.len() > 0 {
        assert(!vessels[vessels.len() - 1].danger);
        assert forall|k: int| 0 <= k < vessels.len() - 1 implies !(
        #[trigger] vessels.drop_last()[k]).danger by {
            assert(!vessels[k].danger);
        }
        lemma_no_names(vessels.drop_last());
    }
}

/// The figures to print of a vessel are those that the message gives, and
/// zero for those that it doesn't.
pub proof fn figures_are_those_given(vessel: VesselGlanceView)
    ensures
        ({
            let f = figures_of(vessel);
            &&& vessel.range_nm is Some ==> vessel.range_nm == Some(f.range_nm)
            &&& vessel.bearing_deg is Some ==> vessel.bearing_deg == Some(f.bearing_deg)
            &&& vessel.cpa_nm is Some ==> vessel.cpa_nm == Some(f.cpa_nm)
            &&& vessel.tcpa_minutes is Some ==> vessel.tcpa_minutes == Some(f.tcpa_minutes)
            &&& vessel.range_nm is None ==> f.range_nm.bits == 0
            &&& vessel.bearing_deg is None ==> f.bearing_deg.bits == 0
            &&& vessel.cpa_nm is None ==> f.cpa_nm.bits == 0
            &&& vessel.tcpa_minutes is None ==> f.tcpa_minutes.bits == 0
        }),
{
}

/// A glance at a source means what its fields hold.
pub proof fn a_source_glance_is_viewed_as_it_is(x: SourceGlance)
    ensures
        x@.name is Some <==> x.name is Some,
        x.name matches Some(inner) ==> x@.name == Some(inner@),
        x@.status is Some <==> x.status is Some,
        x.status matches Some(inner) ==> x@.status == Some(inner@),
        x@.sentences == x.sentences@,
        x@.rejected == x.rejected@,
{
}

/// A glance means what its fields hold.
pub proof fn a_glance_is_viewed_as_it_is(x: Glance)
    ensures
        x@.status is Some <==> x.status is Some,
        x.status matches Some(inner) ==> x@.status == Some(inner@),
        x@.lat == x.lat,
        x@.lon == x.lon,
        x@.sog_kn == x.sog_kn,
        x@.cog_deg == x.cog_deg,
        x@.age_seconds == x.age_seconds,
        x@.sources.len() == x.sources@.len(),
        forall|i: int| 0 <= i < x.sources@.len() ==> #[trigger] x@.sources[i] == x.sources@[i]@,
{
}

/// An angle means what its fields hold.
pub proof fn an_angle_is_viewed_as_it_is(x: Angle)
    ensures
        x@.negative == x.negative,
        x@.degrees == x.degrees@,
        x@.next_degrees == x.next_degrees@,
        x@.thousandths == x.thousandths,
{
}

/// A glance at a vessel means what its fields hold.
pub proof fn a_vessel_glance_is_viewed_as_it_is(x: VesselGlance)
    ensures
        x@.name is Some <==> x.name is Some,
        x.name matches Some(inner) ==> x@.name == Some(inner@),
        x@.mmsi == x.mmsi@,
        x@.range_nm == x.range_nm,
        x@.bearing_deg == x.bearing_deg,
        x@.cpa_nm == x.cpa_nm,
        x@.tcpa_minutes == x.tcpa_minutes,
        x@.danger == x.danger,
{
}

/// The nearest vessel's print means what its fields hold.
pub proof fn the_nearest_is_viewed_as_it_is(x: ShownNearest)
    ensures
        x@.range_nm == x.range_nm@,
        x@.bearing_deg == x.bearing_deg@,
        x@.cpa_nm == x.cpa_nm@,
        x@.tcpa_minutes == x.tcpa_minutes@,
{
}

/// What is glanced of the boat is what the `fix` of the message says under the
/// name of each thing, where it says it in the right form.
pub proof fn a_glance_is_at_the_fix(
    line: Seq<char>,
    message: Seq<char>,
    fix: Seq<char>,
    value: Seq<char>,
)
    requires
        json_read(line) == Ok::<Seq<char>, Seq<char>>(message),
        json_member(message, "fix"@) == Some(fix),
    ensures
        ({
            let glance = glance_in(line);
            let said = |key: Seq<char>| json_member(fix, key) == Some(value);
            &&& said("status"@) ==> glance.status == json_string(value)
            &&& said("lat"@) ==> (glance.lat matches Some(x) ==> Some(x.bits) == json_double(
                value,
            )) && (glance.lat is Some <==> json_double(value) is Some)
            &&& said("lon"@) ==> (glance.lon matches Some(x) ==> Some(x.bits) == json_double(
                value,
            )) && (glance.lon is Some <==> json_double(value) is Some)
            &&& said("sogKn"@) ==> (glance.sog_kn matches Some(x) ==> Some(x.bits) == json_double(
                value,
            )) && (glance.sog_kn is Some <==> json_double(value) is Some)
            &&& said("cogDeg"@) ==> (glance.cog_deg matches Some(x) ==> Some(x.bits)
                == json_double(value)) && (glance.cog_deg is Some <==> json_double(value) is Some)
            &&& said("ageSeconds"@) ==> glance.age_seconds == json_unsigned(value)
        }),
{
}

/// Of what a message doesn't say there is nothing to glance at.
pub proof fn what_is_not_said_is_not_glanced(line: Seq<char>)
    requires
        json_read(line) is Err || json_member(json_read(line)->Ok_0, "fix"@) is None,
    ensures
        ({
            let glance = glance_in(line);
            &&& glance.status is None
            &&& glance.lat is None && glance.lon is None
            &&& glance.sog_kn is None && glance.cog_deg is None
            &&& glance.age_seconds is None
            &&& json_read(line) is Err ==> glance.sources.len() == 0
        }),
{
}

/// Each source of a message is glanced at in turn, by the name of each thing.
pub proof fn a_glance_is_at_every_source(
    line: Seq<char>,
    message: Seq<char>,
    list: Seq<char>,
    sources: Seq<Seq<char>>,
    i: int,
)
    requires
        json_read(line) == Ok::<Seq<char>, Seq<char>>(message),
        json_member(message, "sources"@) == Some(list),
        json_elements(list) == Some(sources),
        0 <= i < sources.len(),
    ensures
        ({
            let glance = glance_in(line).sources[i];
            let said = |key: Seq<char>| json_member(sources[i], key);
            &&& glance_in(line).sources.len() == sources.len()
            &&& said("name"@) matches Some(value) ==> glance.name == json_string(value)
            &&& said("status"@) matches Some(value) ==> glance.status == json_string(value)
            &&& said("sentences"@) matches Some(value) ==> glance.sentences == value
            &&& said("rejected"@) matches Some(value) ==> glance.rejected == value
            &&& said("name"@) is None ==> glance.name is None
            &&& said("status"@) is None ==> glance.status is None
        }),
{
}

/// Each vessel of a message is glanced at in turn, by the name of each thing;
/// it is a danger where the message says `true`.
pub proof fn a_glance_is_at_every_vessel(
    line: Seq<char>,
    message: Seq<char>,
    list: Seq<char>,
    vessels: Seq<Seq<char>>,
    i: int,
)
    requires
        json_read(line) == Ok::<Seq<char>, Seq<char>>(message),
        json_member(message, "targets"@) == Some(list),
        json_elements(list) == Some(vessels),
        0 <= i < vessels.len(),
    ensures
        ({
            let glance = vessels_in(line)[i];
            let said = |key: Seq<char>| json_member(vessels[i], key);
            let bits = |x: Option<Double>|
                match x {
                    Some(d) => Some(d.bits),
                    None => None,
                };
            &&& vessels_in(line).len() == vessels.len()
            &&& said("name"@) matches Some(value) ==> glance.name == json_string(value)
            &&& said("name"@) is None ==> glance.name is None
            &&& said("mmsi"@) matches Some(value) ==> glance.mmsi == value
            &&& said("rangeNm"@) matches Some(value) ==> bits(glance.range_nm) == json_double(value)
            &&& said("bearingDeg"@) matches Some(value) ==> bits(glance.bearing_deg) == json_double(
                value,
            )
            &&& said("cpaNm"@) matches Some(value) ==> bits(glance.cpa_nm) == json_double(value)
            &&& said("tcpaMinutes"@) matches Some(value) ==> bits(glance.tcpa_minutes)
                == json_double(value)
            &&& said("rangeNm"@) is None ==> glance.range_nm is None
            &&& said("cpaNm"@) is None ==> glance.cpa_nm is None
            &&& said("tcpaMinutes"@) is None ==> glance.tcpa_minutes is None
            &&& glance.danger <==> said("danger"@) == Some(seq!['t', 'r', 'u', 'e'])
        }),
{
    reveal_strlit("true");
    assert("true"@ =~= seq!['t', 'r', 'u', 'e']);
}

/// A line is heard by the version and the type that its message gives.
pub proof fn a_line_is_heard_by_its_version_and_type(line: Seq<char>, message: Seq<char>)
    requires
        json_read(line) == Ok::<Seq<char>, Seq<char>>(message),
        json_member(message, "v"@) is Some,
        json_member(message, "type"@) is Some,
    ensures
        ({
            let heard = heard_in(line);
            let version = json_member(message, "v"@)->0;
            let kind = json_member(message, "type"@)->0;
            &&& heard is OtherVersion <==> json_unsigned(version) != Some(1u64)
            &&& json_unsigned(version) == Some(1u64) ==> {
                &&& heard is Hello <==> json_string(kind) == Some("hello"@)
                &&& heard is State <==> json_string(kind) == Some("state"@)
                &&& heard is Targets <==> json_string(kind) == Some("targets"@)
            }
        }),
{
    let version = json_member(message, "v"@)->0;
    let kind = json_member(message, "type"@)->0;
    the_type_decides(version, json_string(kind), string_in(Some(message), "keel"@));
}

/// A line that isn't JSON is told as what is wrong with it.
pub proof fn what_is_not_json_is_unreadable(line: Seq<char>)
    ensures
        heard_in(line) is Unreadable <==> json_read(line) is Err,
        json_read(line) matches Err(e) ==> heard_in(line) == HeardView::Unreadable(e),
        vessels_in(line).len() > 0 ==> json_read(line) is Ok,
{
}

} // verus!
