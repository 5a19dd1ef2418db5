//! Reading the append-only log back: which lines count, which failures are
//! fatal, and the events that the log holds.

use vstd::prelude::*;

use crate::error::FlintError;
use crate::integrity::{opt_str_view, record_problem, verify_entry_checksum};
use crate::text::{trim, trimmed_chars};
use crate::types::{events_view, Event, EventModel};

verus! {

/// What decoding one line of the log gave.
#[derive(Debug)]
pub enum LineParse {
    /// A record: its format version and checksum, if it has them, the encoded
    /// payload that the checksum covers (empty when there is none to check),
    /// and its event.
    Entry { version: Option<u32>, checksum: Option<String>, payload: Vec<u8>, event: Event },
    /// Text that is not a record; `eof` tells whether the text merely ended too
    /// early, as a record cut short by a crash does.
    Malformed { eof: bool, message: String },
}

/// One line of the log, with what decoding it gave.
#[derive(Debug)]
pub struct LogLine {
    pub text: String,
    pub parsed: LineParse,
}

/// Whether a line holds nothing but white space.
pub open spec fn is_blank(text: Seq<char>) -> bool {
    trim(text).len() == 0
}

/// The position of the last line that is not blank, or -1 when there is none.
pub open spec fn last_filled(lines: Seq<LogLine>) -> int
    decreases lines.len(),
{
    if lines.len() == 0 {
        -1
    } else if !is_blank(lines.last().text@) {
        lines.len() - 1
    } else {
        last_filled(lines.drop_last())
    }
}

/// What reading a log gives: its events, or the error that stops it.
pub enum ReplayModel {
    Done(Seq<EventModel>),
    /// A line that is not a record, other than a final one cut short.
    Corrupt(nat, Seq<char>),
    /// A record that fails its integrity check.
    Tampered(Seq<char>),
}

/// What reading the lines from position `i` on gives, when `last` is the last
/// line that is not blank: blank lines are skipped; a record is checked and
/// gives its event; text that is not a record is fatal, unless it is the last
/// line and was merely cut short, which ends the log.
pub open spec fn replay_from_line(lines: Seq<LogLine>, i: int, last: int) -> ReplayModel
    decreases lines.len() - i,
{
    if i < 0 || i >= lines.len() {
        ReplayModel::Done(Seq::empty())
    } else if is_blank(lines[i].text@) {
        replay_from_line(lines, i + 1, last)
    } else {
        match lines[i].parsed {
            LineParse::Entry { version, checksum, payload, event } => match record_problem(
                opt_str_view(match checksum {
                    Some(c) => Some(&c),
                    None => None,
                }),
                version,
                payload@,
                (i + 1) as nat,
            ) {
                Some(msg) => ReplayModel::Tampered(msg),
                None => match replay_from_line(lines, i + 1, last) {
                    ReplayModel::Done(rest) => ReplayModel::Done(seq![event@] + rest),
                    other => other,
                },
            },
            LineParse::Malformed { eof, message } => if i == last && eof {
                ReplayModel::Done(Seq::empty())
            } else {
                ReplayModel::Corrupt((i + 1) as nat, message@)
            },
        }
    }
}

/// `r` with `first` read before it.
pub open spec fn after(first: Seq<EventModel>, r: ReplayModel) -> ReplayModel {
    match r {
        ReplayModel::Done(rest) => ReplayModel::Done(first + rest),
        other => other,
    }
}

/// Whether `res` is what the replay model `r` describes.
pub open spec fn replays_as(res: Result<Vec<Event>, FlintError>, r: ReplayModel) -> bool {
    match r {
        ReplayModel::Done(events) => res matches Ok(v) && events_view(v@) == events,
        ReplayModel::Corrupt(line, msg) => res matches Err(FlintError::CorruptLog { line: l, message: m })
            && l == line && m@ == msg,
        ReplayModel::Tampered(msg) => res matches Err(FlintError::StorageIntegrity(m)) && m@ == msg,
    }
}

proof fn lemma_last_filled(lines: Seq<LogLine>)
    ensures
        -1 <= last_filled(lines) < lines.len(),
        forall|j: int| last_filled(lines) < j < lines.len() ==> is_blank(#[trigger] lines[j].text@),
        last_filled(lines) >= 0 ==> !is_blank(lines[last_filled(lines)].text@),
    decreases lines.len(),
{
    if lines.len() > 0 && is_blank(lines.last().text@) {
        lemma_last_filled(lines.drop_last());
        assert forall|j: int| last_filled(lines) < j < lines.len() implies is_blank(
            #[trigger] lines[j].text@,
        ) by {
            if j < lines.len() - 1 {
                assert(lines.drop_last()[j] == lines[j]);
            }
        }
    }
}

/// Whether a line is blank.
fn blank(text: &String) -> (res: bool)
    ensures
        res == is_blank(text@),
{
    trimmed_chars(text.as_str()).len() == 0
}

/// Reads the events of the log lines `lines`, in order (see
/// [`replay_from_line`]); line numbers in errors count from one.
pub fn replay_lines(lines: &Vec<LogLine>) -> (res: Result<Vec<Event>, FlintError>)
    ensures
        replays_as(res, replay_from_line(lines@, 0, last_filled(lines@))),
{
    let ghost last = last_filled(lines@);
    proof {
        lemma_last_filled(lines@);
    }
    let n = lines.len();
    let mut last_idx: usize = n;
    let mut k: usize = n;
    while k > 0
        invariant
            k <= n == lines@.len(),
            -1 <= last < n,
            forall|j: int| last < j < n ==> is_blank(#[trigger] lines@[j].text@),
            last >= 0 ==> !is_blank(lines@[last].text@),
            last_idx <= n,
            last_idx == n ==> last < k,
            last_idx < n ==> last_idx == last,
        decreases k,
    {
        if last_idx == n && !blank(&lines[k - 1].text) {
            last_idx = k - 1;
        }
        k = k - 1;
    }
    let mut events: Vec<Event> = Vec::new();
    let mut i: usize = 0;
    while i < n
        invariant
            i <= n == lines@.len(),
            last == last_filled(lines@),
            last_idx <= n,
            last_idx == n ==> last == -1,
            last_idx < n ==> last_idx == last,
            replay_from_line(lines@, 0, last) == after(
                events_view(events@),
                replay_from_line(lines@, i as int, last),
            ),
        ensures
            replay_from_line(lines@, 0, last) == ReplayModel::Done(events_view(events@)),
        decreases n - i,
    {
        let line = &lines[i];
        if blank(&line.text) {
            i = i + 1;
            continue;
        }
        match &line.parsed {
            LineParse::Entry { version, checksum, payload, event } => {
                let chk = match checksum {
                    Some(c) => Some(c),
                    None => None,
                };
                let ghost spec_chk = opt_str_view(match checksum {
                    Some(c) => Some(&c),
                    None => None,
                });
                assert(opt_str_view(chk) == spec_chk);
                match verify_entry_checksum(chk, *version, payload.as_slice(), i + 1) {
                    Ok(()) => {},
                    Err(e) => {
                        return Err(e);
                    },
                }
                let ghost before = events@;
                events.push(event.clone());
                proof {
                    assert(events_view(events@) =~= events_view(before) + seq![event@]);
                    assert(record_problem(spec_chk, *version, payload@, (i + 1) as nat) is None);
                    match replay_from_line(lines@, i + 1, last) {
                        ReplayModel::Done(rest) => {
                            assert(replay_from_line(lines@, i as int, last) == ReplayModel::Done(
                                seq![event@] + rest,
                            ));
                            assert((events_view(before) + seq![event@]) + rest =~= events_view(before)
                                + (seq![event@] + rest));
                        },
                        _ => {},
                    }
                }
            },
            LineParse::Malformed { eof, message } => {
                if last_idx == i && *eof {
                    proof {
                        assert(events_view(events@) + Seq::<EventModel>::empty() =~= events_view(events@));
                    }
                    break;
                }
                proof {
                    assert(!is_blank(lines@[i as int].text@));
                    assert(*line == lines@[i as int]);
                    assert(line.parsed matches LineParse::Malformed { eof: e2, message: m2 } && e2
                        == *eof && m2@ == message@);
                    assert(!(i == last && *eof));
                    assert(replay_from_line(lines@, i as int, last) == ReplayModel::Corrupt(
                        (i + 1) as nat,
                        message@,
                    ));
                }
                return Err(FlintError::CorruptLog { line: i + 1, message: message.clone() });
            },
        }
        i = i + 1;
        proof {
            if i == n {
                assert(events_view(events@) + Seq::<EventModel>::empty() =~= events_view(events@));
            }
        }
    }
    Ok(events)
}

/// Whether a line's text merely ended too early, as a record cut short does.
pub open spec fn cut_short(p: LineParse) -> bool {
    match p {
        LineParse::Malformed { eof, .. } => eof,
        LineParse::Entry { .. } => false,
    }
}

proof fn lemma_done_lines(lines: Seq<LogLine>, i: int, last: int)
    requires
        0 <= i,
        last == last_filled(lines),
    ensures
        replay_from_line(lines, i, last) is Done ==> forall|j: int|
            i <= j < lines.len() && !is_blank(#[trigger] lines[j].text@) ==> lines[j].parsed is Entry || (j
                == last && cut_short(lines[j].parsed)),
    decreases lines.len() - i,
{
    lemma_last_filled(lines);
    if i < lines.len() {
        lemma_done_lines(lines, i + 1, last);
    }
}

/// A log reads back only when every line that is not blank is a record,
/// except perhaps its last such line cut short: text that is not a record for
/// any other reason, last line or not, makes the log fail to open.
pub proof fn only_a_cut_short_last_line_is_skipped(lines: Seq<LogLine>)
    ensures
        replay_from_line(lines, 0, last_filled(lines)) is Done ==> forall|j: int|
            0 <= j < lines.len() && !is_blank(#[trigger] lines[j].text@) ==> lines[j].parsed is Entry || (j
                == last_filled(lines) && cut_short(lines[j].parsed)),
        forall|j: int|
            0 <= j < lines.len() && !is_blank(#[trigger] lines[j].text@) && lines[j].parsed is Malformed
                && !cut_short(lines[j].parsed) ==> !(replay_from_line(lines, 0, last_filled(lines)) is Done),
{
    lemma_done_lines(lines, 0, last_filled(lines));
}

} // verus!
