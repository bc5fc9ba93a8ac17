//! Recordings: every line received, stamped with the time it arrived, and
//! played back with the timing it was recorded with.

use crate::clock;
use crate::source;
use crate::text;
use vstd::prelude::*;
use vstd::string::*;

verus! {

/// The line that a recording starts with.
pub open spec fn header() -> Seq<char> {
    "# omakeel recording v1"@
}

/// The text that a recording starts with.
pub fn opening() -> (text: String)
    ensures
        text@ == recorded(Seq::empty()),
        text@ == header() + "\n"@,
{
    let mut text = "# omakeel recording v1".to_owned();
    text.append("\n");
    text
}

/// A line and the Unix milliseconds at which it arrived.
pub open spec fn stamp(ms: u64, line: Seq<char>) -> Seq<char> {
    text::decimal(ms as nat) + " "@ + line
}

/// A line as it is recorded.
pub fn stamped(ms: u64, line: &str) -> (text: String)
    ensures
        text@ == stamp(ms, line@) + "\n"@,
        forall|lines: Seq<(u64, Seq<char>)>| #[trigger]
            recorded(lines.push((ms, line@))) == recorded(lines) + text@,
{
    let mut text = String::new();
    text::push_decimal(&mut text, ms);
    text.append(" ");
    text.append(line);
    text.append("\n");
    assert(text@ =~= stamp(ms, line@) + "\n"@);
    assert forall|lines: Seq<(u64, Seq<char>)>| #[trigger]
        recorded(lines.push((ms, line@))) == recorded(lines) + text@ by {
        assert(lines.push((ms, line@)).drop_last() =~= lines);
    }
    text
}

/// A line of a recording: its time and what was received, without white
/// space around. None for blanks, comments, and whatever else has no time.
pub open spec fn record_of(line: Seq<char>) -> Option<(u64, Seq<char>)> {
    let record = text::trim(line);
    if record.len() == 0 || record[0] == '#' {
        None
    } else {
        match text::split_once(record, ' ') {
            None => None,
            Some((ms, received)) => match text::unsigned(ms, u64::MAX as nat) {
                Some(n) => Some((n as u64, text::trim(received))),
                None => None,
            },
        }
    }
}

/// What is recorded in some lines, in order.
pub open spec fn records(lines: Seq<Seq<char>>) -> Seq<(u64, Seq<char>)>
    decreases lines.len(),
{
    if lines.len() == 0 {
        Seq::empty()
    } else {
        match record_of(lines.last()) {
            Some(record) => records(lines.drop_last()).push(record),
            None => records(lines.drop_last()),
        }
    }
}

/// A line to play, so many milliseconds after the replay starts.
#[derive(Debug, PartialEq)]
pub struct Cue {
    pub offset_ms: u64,
    pub line: String,
}

pub struct CueView {
    pub offset_ms: u64,
    pub line: Seq<char>,
}

impl View for Cue {
    type V = CueView;

    open spec fn view(&self) -> CueView {
        CueView { offset_ms: self.offset_ms, line: self.line@ }
    }
}

/// What each cue in a list says.
pub open spec fn views(cues: Seq<Cue>) -> Seq<CueView> {
    Seq::new(cues.len(), |i: int| cues[i]@)
}

/// How long after `first` something was recorded; no time at all where the
/// clock had gone back.
pub open spec fn later(ms: u64, first: u64) -> u64 {
    if ms >= first {
        (ms - first) as u64
    } else {
        0
    }
}

/// When to play what was recorded: the first line at once, each other one as
/// long after it as it arrived.
pub open spec fn cues_of(recorded: Seq<(u64, Seq<char>)>) -> Seq<CueView> {
    Seq::new(
        recorded.len(),
        |i: int|
            CueView { offset_ms: later(recorded[i].0, recorded[0].0), line: recorded[i].1 },
    )
}

/// When to play each line of a recording.
pub open spec fn schedule(recording: Seq<char>) -> Seq<CueView> {
    cues_of(records(text::split(recording, '\n')))
}

fn record(line: &str) -> (record: Option<(u64, &str)>)
    ensures
        match record {
            Some((ms, received)) => record_of(line@) == Some((ms, received@)),
            None => record_of(line@) is None,
        },
{
    let whole = text::trimmed(line);
    if whole.unicode_len() == 0 || whole.get_char(0) == '#' {
        return None;
    }
    let (ms, received) = match text::parted(whole, ' ') {
        Some(parts) => parts,
        None => return None,
    };
    match text::number_up_to(ms, u64::MAX) {
        Some(n) => Some((n, text::trimmed(received))),
        None => None,
    }
}

/// When to play each line of a recording.
pub fn replay(recording: &str) -> (cues: Vec<Cue>)
    ensures
        views(cues@) == schedule(recording@),
{
    let lines = text::pieces(recording, '\n');
    let ghost all = text::views(lines@);
    let mut cues: Vec<Cue> = Vec::new();
    let mut first: Option<u64> = None;
    let mut i: usize = 0;
    assert(all.take(0) == Seq::<Seq<char>>::empty());
    assert(views(cues@) =~= cues_of(records(all.take(0))));
    while i < lines.len()
        invariant
            i <= lines.len(),
            all == text::views(lines@),
            views(cues@) == cues_of(records(all.take(i as int))),
            match first {
                Some(ms) => records(all.take(i as int)).len() > 0 && records(
                    all.take(i as int),
                )[0].0 == ms,
                None => records(all.take(i as int)).len() == 0,
            },
        decreases lines.len() - i,
    {
        assert(all.take(i + 1).drop_last() == all.take(i as int));
        assert(all.take(i + 1).last() == lines@[i as int]@);
        let ghost before = records(all.take(i as int));
        if let Some((ms, received)) = record(lines[i]) {
            let start: u64 = match first {
                Some(start) => start,
                None => ms,
            };
            first = Some(start);
            let ghost shorter = cues@;
            let cue = Cue {
                offset_ms: if ms >= start {
                    ms - start
                } else {
                    0
                },
                line: received.to_owned(),
            };
            cues.push(cue);
            proof {
                let after = records(all.take(i + 1));
                assert(after == before.push((ms, received@)));
                assert(after[0].0 == start);
                assert(views(cues@) =~= views(shorter).push(cue@));
                assert forall|k: int| 0 <= k < after.len() implies views(cues@)[k] == cues_of(
                    after,
                )[k] by {
                    if k < before.len() {
                        assert(views(shorter)[k] == cues_of(before)[k]);
                    }
                }
                assert(views(cues@) =~= cues_of(after));
            }
        }
        i = i + 1;
    }
    assert(all.take(i as int) == all);
    cues
}

/// Lines wait for the disk this far, and no further: beyond that they are
/// dropped.
pub const BACKLOG: usize = 10_000;

/// How long after it was written a line is synced to the disk, in
/// nanoseconds, so that it is there within 10 seconds.
pub const SYNC_AFTER: u64 = 5_000_000_000;

/// How long to wait on exit for the last lines to reach the disk.
pub const EXIT_WAIT: u64 = 5_000_000_000;

/// How long the disk may be left alone, where the first line that isn't
/// synced was written at `unsynced`; without end where every line is.
pub open spec fn idle_for(unsynced: Option<u64>, now: u64) -> Option<u64> {
    match unsynced {
        Some(at) => Some(clock::since(SYNC_AFTER, clock::since(now, at))),
        None => None,
    }
}

/// How long the disk may be left alone.
pub fn idle(unsynced: Option<u64>, now: u64) -> (span: Option<u64>)
    ensures
        span == idle_for(unsynced, now),
{
    match unsynced {
        Some(at) => Some(clock::elapsed(SYNC_AFTER, clock::elapsed(now, at))),
        None => None,
    }
}

/// No line is left for longer than five seconds without being synced, and
/// none is synced sooner; with none to sync there is no hurry at all.
pub proof fn a_line_is_synced_in_time(at: u64, now: u64)
    requires
        at <= now,
    ensures
        idle_for(Some(at), now) matches Some(span) && {
            &&& now - at >= 5_000_000_000 ==> span == 0
            &&& now - at < 5_000_000_000 ==> now + span == at + 5_000_000_000
        },
        idle_for(None, now) is None,
{
}

/// What became of a line for the recording.
pub enum Handed {
    /// It waits for the disk.
    Queued,
    /// The backlog is full.
    Full,
    /// The recording has stopped, and why.
    Stopped(String),
}

/// What is being recorded, and how that goes.
pub struct Journal {
    path: String,
    dropped: u64,
}

pub struct JournalView {
    pub path: Seq<char>,
    /// Lines dropped since the disk fell behind.
    pub dropped: u64,
}

impl View for Journal {
    type V = JournalView;

    closed spec fn view(&self) -> JournalView {
        JournalView { path: self.path@, dropped: self.dropped }
    }
}

/// What is known after a line, and what to say on stderr: when lines start to
/// be dropped, when they no longer are, and when the recording stops.
pub open spec fn noted(journal: JournalView, handed: Handed) -> (JournalView, Option<Seq<char>>) {
    match handed {
        Handed::Queued => (
            JournalView { dropped: 0, ..journal },
            if journal.dropped > 0 {
                Some(
                    "omakeel: recording to "@ + journal.path + " again; lines dropped: "@
                        + text::decimal(journal.dropped as nat),
                )
            } else {
                None
            },
        ),
        Handed::Full => (
            JournalView {
                dropped: if journal.dropped < u64::MAX {
                    (journal.dropped + 1) as u64
                } else {
                    journal.dropped
                },
                ..journal
            },
            if journal.dropped == 0 {
                Some(
                    "omakeel: the disk has fallen behind; dropping lines for "@ + journal.path,
                )
            } else {
                None
            },
        ),
        Handed::Stopped(why) => (
            journal,
            Some("omakeel: stopped recording to "@ + journal.path + ": "@ + why@),
        ),
    }
}

impl Journal {
    pub fn new(path: String) -> (journal: Journal)
        ensures
            journal@ == (JournalView { path: path@, dropped: 0 }),
    {
        Journal { path, dropped: 0 }
    }

    /// Takes note of what became of a line, and returns what to say of it.
    pub fn note(&mut self, handed: Handed) -> (message: Option<String>)
        ensures
            (final(self)@, text::text_of(message)) == noted(old(self)@, handed),
    {
        match handed {
            Handed::Queued => {
                if self.dropped == 0 {
                    return None;
                }
                let mut message = "omakeel: recording to ".to_owned();
                message.append(self.path.as_str());
                message.append(" again; lines dropped: ");
                text::push_decimal(&mut message, self.dropped);
                self.dropped = 0;
                Some(message)
            },
            Handed::Full => {
                let first = self.dropped == 0;
                if self.dropped < u64::MAX {
                    self.dropped = self.dropped + 1;
                }
                if first {
                    let mut message = "omakeel: the disk has fallen behind; dropping lines for "
                        .to_owned();
                    message.append(self.path.as_str());
                    Some(message)
                } else {
                    None
                }
            },
            Handed::Stopped(why) => {
                let mut message = "omakeel: stopped recording to ".to_owned();
                message.append(self.path.as_str());
                message.append(": ");
                message.append(why.as_str());
                Some(message)
            },
        }
    }
}

/// What is played is never blank, and has no white space around it.
pub proof fn what_is_played_is_a_line(line: Seq<char>)
    ensures
        record_of(line) matches Some((_, received)) ==> source::line_of(received) == Some(received),
{
    let record = text::trim(line);
    text::lemma_trim(line);
    if let Some((ms, received)) = text::split_once(record, ' ') {
        lemma_first(record, ' ');
        if received.len() == 0 {
            assert(record.last() == ' ');
        } else {
            assert(received.last() == record.last());
        }
        text::lemma_trim(received);
    }
}

proof fn lemma_first(s: Seq<char>, sep: char)
    requires
        s.contains(sep),
    ensures
        exists|i: int| text::is_first(s, sep, i),
    decreases s.len(),
{
    let i: int = choose|i: int| 0 <= i < s.len() && s[i] == sep;
    if s.take(i).contains(sep) {
        lemma_first(s.take(i), sep);
        let k: int = choose|k: int| text::is_first(s.take(i), sep, k);
        assert forall|j: int| 0 <= j < k implies s[j] != sep by {
            assert(s.take(i)[j] == s[j]);
        }
        assert(text::is_first(s, sep, k));
    } else {
        assert forall|j: int| 0 <= j < i implies s[j] != sep by {
            assert(s.take(i)[j] == s[j]);
        }
        assert(text::is_first(s, sep, i));
    }
}

/// A line as the hub receives it: not blank, no white space around it, and
/// in one piece.
pub open spec fn is_line(line: Seq<char>) -> bool {
    source::line_of(line) == Some(line) && !line.contains('\n')
}

/// The text of a recording of some lines.
pub open spec fn recorded(lines: Seq<(u64, Seq<char>)>) -> Seq<char>
    decreases lines.len(),
{
    if lines.len() == 0 {
        header() + "\n"@
    } else {
        recorded(lines.drop_last()) + (stamp(lines.last().0, lines.last().1) + "\n"@)
    }
}

/// A recording plays back every line, in order, with the timing it was
/// recorded with.
pub proof fn a_recording_plays_back(lines: Seq<(u64, Seq<char>)>)
    requires
        forall|i: int| 0 <= i < lines.len() ==> is_line((#[trigger] lines[i]).1),
    ensures
        schedule(recorded(lines)) == cues_of(lines),
{
    lemma_pages(lines);
    let pieces = text::split(recorded(lines), '\n');
    assert(pieces.last() == Seq::<char>::empty());
    text::lemma_trim(Seq::empty());
    assert(record_of(pieces.last()) is None);
}

/// The pieces of a recording up to the end of its last line hold what was
/// recorded.
proof fn lemma_pages(lines: Seq<(u64, Seq<char>)>)
    requires
        forall|i: int| 0 <= i < lines.len() ==> is_line((#[trigger] lines[i]).1),
    ensures
        text::split(recorded(lines), '\n').len() > 0,
        text::split(recorded(lines), '\n').last() == Seq::<char>::empty(),
        records(text::split(recorded(lines), '\n').drop_last()) == lines,
    decreases lines.len(),
{
    if lines.len() == 0 {
        let nothing = Seq::<char>::empty();
        reveal_strlit("# omakeel recording v1");
        assert(text::split(nothing, '\n') == seq![nothing]);
        lemma_page(nothing, header());
        assert(nothing + (header() + "\n"@) == recorded(lines));
        let page = text::split(recorded(lines), '\n').drop_last();
        assert(page == seq![header()]);
        text::lemma_trim(header());
        assert(text::is_trimmed(header()));
        assert(page.drop_last() == Seq::<Seq<char>>::empty());
        assert(records(page.drop_last()) == Seq::<(u64, Seq<char>)>::empty());
        assert(record_of(page.last()) is None);
        assert(records(page) =~= lines);
    } else {
        let (ms, line) = lines.last();
        let before = lines.drop_last();
        assert(is_line(lines[lines.len() - 1].1));
        assert forall|i: int| 0 <= i < before.len() implies is_line((#[trigger] before[i]).1) by {
            assert(before[i] == lines[i]);
        }
        lemma_pages(before);
        lemma_stamp(ms, line);
        lemma_page(recorded(before), stamp(ms, line));
        let page = text::split(recorded(lines), '\n').drop_last();
        assert(page == text::split(recorded(before), '\n').drop_last().push(stamp(ms, line)));
        assert(page.drop_last() == text::split(recorded(before), '\n').drop_last());
        assert(records(page) == before.push((ms, line)));
        assert(before.push((ms, line)) =~= lines);
    }
}

/// A page more, after a line that has ended.
proof fn lemma_page(s: Seq<char>, page: Seq<char>)
    requires
        text::split(s, '\n').len() > 0,
        text::split(s, '\n').last() == Seq::<char>::empty(),
        !page.contains('\n'),
    ensures
        text::split(s + (page + "\n"@), '\n') == text::split(s, '\n').drop_last().push(page).push(
            Seq::<char>::empty(),
        ),
{
    reveal_strlit("\n");
    text::lemma_split_append(s, page, '\n');
    let whole = s + (page + "\n"@);
    assert(whole.last() == '\n');
    assert(whole.drop_last() == s + page);
    assert(Seq::<char>::empty() + page == page);
}

/// What is stamped is recorded.
proof fn lemma_stamp(ms: u64, line: Seq<char>)
    requires
        is_line(line),
    ensures
        !stamp(ms, line).contains('\n'),
        record_of(stamp(ms, line)) == Some((ms, line)),
{
    reveal_strlit(" ");
    let digits = text::decimal(ms as nat);
    let whole = stamp(ms, line);
    text::lemma_decimal(ms as nat);
    text::lemma_trim(line);
    assert forall|i: int| 0 <= i < whole.len() implies whole[i] != '\n' by {
        if i < digits.len() {
            assert(text::is_digit(digits[i]));
        } else if i > digits.len() {
            assert(line.contains(line[i - digits.len() - 1]));
        }
    }
    assert(text::is_digit(digits[0]));
    assert(whole.first() == digits[0]);
    assert(whole.last() == line.last());
    assert(text::is_trimmed(whole));
    text::lemma_trim(whole);
    assert forall|j: int| 0 <= j < digits.len() implies whole[j] != ' ' by {
        assert(text::is_digit(digits[j]));
    }
    assert(text::is_first(whole, ' ', digits.len() as int));
    text::lemma_is_first(whole, ' ', digits.len() as int);
    assert(whole.take(digits.len() as int) == digits);
    assert(whole.skip(digits.len() as int + 1) == line);
    text::lemma_unsigned_digits(digits, u64::MAX as nat);
}

/// A recording plays back as it was recorded: every line, in order, the first
/// at once, and each as long after another as it had arrived after it. The
/// times are those stamped, which do not go back.
pub proof fn a_recording_keeps_its_timing(lines: Seq<(u64, Seq<char>)>, i: int, j: int)
    requires
        forall|k: int| 0 <= k < lines.len() ==> is_line((#[trigger] lines[k]).1),
        forall|k: int, l: int|
            0 <= k <= l < lines.len() ==> (#[trigger] lines[k]).0 <= (#[trigger] lines[l]).0,
        0 <= i <= j < lines.len(),
    ensures
        ({
            let cues = schedule(recorded(lines));
            &&& cues.len() == lines.len()
            &&& cues[0].offset_ms == 0
            &&& cues[j].offset_ms - cues[i].offset_ms == lines[j].0 - lines[i].0
            &&& cues[i].line == lines[i].1
            &&& cues[j].line == lines[j].1
        }),
{
    a_recording_plays_back(lines);
}

/// Where the clock went back before the time of the first line, a line plays
/// at once; any other plays as long after the start as it arrived after the
/// first, whatever came between.
pub proof fn a_line_from_before_the_first_plays_at_once(lines: Seq<(u64, Seq<char>)>, i: int)
    requires
        forall|k: int| 0 <= k < lines.len() ==> is_line((#[trigger] lines[k]).1),
        0 <= i < lines.len(),
    ensures
        ({
            let cue = schedule(recorded(lines))[i];
            &&& lines[i].0 < lines[0].0 ==> cue.offset_ms == 0
            &&& lines[i].0 >= lines[0].0 ==> lines[0].0 + cue.offset_ms == lines[i].0
            &&& cue.line == lines[i].1
        }),
{
    a_recording_plays_back(lines);
}

/// Blank lines, comments, and lines without a time and a space behind it are
/// not played.
pub proof fn only_stamped_lines_are_played(line: Seq<char>)
    requires
        text::is_trimmed(line),
        ({
            ||| line.len() == 0
            ||| line[0] == '#'
            ||| !line.contains(' ')
            ||| !('0' <= line[0] <= '9') && line[0] != '+'
        }),
    ensures
        record_of(line) is None,
{
    text::lemma_trim(line);
    if line.len() > 0 && line.contains(' ') {
        lemma_first(line, ' ');
        let i: int = choose|i: int| text::is_first(line, ' ', i);
        text::lemma_is_first(line, ' ', i);
        let ms = line.take(i);
        text::only_digits_are_a_number(ms, u64::MAX as nat);
        if i > 0 {
            assert(ms[0] == line[0]);
        }
    }
}

/// White space around a stamped line, and between its time and what was
/// received, changes nothing of what is played: a line stamped by hand plays
/// too.
pub proof fn space_in_a_recording_changes_nothing(
    lead: Seq<char>,
    ms: u64,
    gap: Seq<char>,
    line: Seq<char>,
    tail: Seq<char>,
)
    requires
        is_line(line),
        forall|i: int| 0 <= i < lead.len() ==> text::is_space(#[trigger] lead[i]),
        forall|i: int| 0 <= i < gap.len() ==> text::is_space(#[trigger] gap[i]),
        forall|i: int| 0 <= i < tail.len() ==> text::is_space(#[trigger] tail[i]),
    ensures
        record_of(lead + (text::decimal(ms as nat) + seq![' '] + (gap + line)) + tail) == Some(
            (ms, line),
        ),
{
    let digits = text::decimal(ms as nat);
    let body = digits + seq![' '] + (gap + line);
    text::lemma_decimal(ms as nat);
    text::lemma_trim(line);
    assert(text::is_digit(digits[0]));
    assert(body.first() == digits[0]);
    assert(body.last() == line.last());
    text::space_around_goes(lead, body, tail);
    assert(!digits.contains(' ')) by {
        if digits.contains(' ') {
            let k: int = choose|k: int| 0 <= k < digits.len() && digits[k] == ' ';
            assert(text::is_digit(digits[k]));
        }
    }
    text::text_parts_at_the_first(digits, gap + line, ' ');
    text::lemma_unsigned_digits(digits, u64::MAX as nat);
    let none = Seq::<char>::empty();
    text::space_around_goes(gap, line, none);
    assert(gap + line + none =~= gap + line);
}

/// What is known after `n` lines in a row for which there was no room.
pub open spec fn after_dropping(journal: JournalView, n: nat) -> JournalView
    decreases n,
{
    if n == 0 {
        journal
    } else {
        noted(after_dropping(journal, (n - 1) as nat), Handed::Full).0
    }
}

/// Lines dropped are counted: the first of them is told, the others pass
/// without a word, and when a line gets through again it is told how many
/// there were, and counting starts anew.
pub proof fn dropped_lines_are_counted(journal: JournalView, n: nat)
    requires
        journal.dropped == 0,
        n < u64::MAX,
    ensures
        ({
            let behind = after_dropping(journal, n);
            let (next, said) = noted(behind, Handed::Full);
            let (again, told) = noted(behind, Handed::Queued);
            &&& behind.dropped == n
            &&& behind.path == journal.path
            &&& next.dropped == n + 1
            &&& said is Some <==> n == 0
            &&& told is Some <==> n > 0
            &&& n == 0 ==> said->0 == "omakeel: the disk has fallen behind; dropping lines for "@
                + journal.path
            &&& n > 0 ==> told->0 == "omakeel: recording to "@ + journal.path
                + " again; lines dropped: "@ + text::decimal(n)
            &&& again == journal
        }),
    decreases n,
{
    if n > 0 {
        dropped_lines_are_counted(journal, (n - 1) as nat);
    }
}

/// A recording that stops is told as it does, and what was counted stays.
pub proof fn a_stop_is_told(journal: JournalView, why: String)
    ensures
        noted(journal, Handed::Stopped(why)).0 == journal,
        noted(journal, Handed::Stopped(why)).1 == Some(
            "omakeel: stopped recording to "@ + journal.path + ": "@ + why@,
        ),
{
}

/// Ten thousand lines may wait for the disk, and five seconds are allowed for
/// the last of them.
pub proof fn the_disk_has_its_time()
    ensures
        BACKLOG == 10_000,
        EXIT_WAIT == 5_000_000_000,
{
}

/// A cue means what its fields hold.
pub proof fn a_cue_is_viewed_as_it_is(x: Cue)
    ensures

{
}

} // verus!
