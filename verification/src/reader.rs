//! The incremental command-log reader.
//!
//! The log file is append-only and polled repeatedly; reading it and
//! splitting it into lines is the caller's affair. The reader is handed
//! the lines from the physical end of the file backward — newest first —
//! and discovers the commands appended since the previous poll without
//! reprocessing old ones: it stops at the first command whose frame
//! number is at or below the watermark of the previous poll. The one
//! deliberate exception is the very first poll, where a command exactly
//! at the watermark (frame zero on a cold start) is still accepted, so an
//! event placed on the very first frame is not silently dropped.

use vstd::math::max;
use vstd::prelude::*;

use crate::command::{spec_parse_command, spec_to_event, BPCommand};
use crate::event::BPSimEvent;

verus! {

/// The mathematical state of the reader: the log's path, the highest
/// frame seen so far, and whether a poll has completed yet.
pub ghost struct ParserModel {
    pub file_path: Seq<char>,
    pub prev_reached_frame: u64,
    pub first_read: bool,
}

/// What one poll over a line sequence yields: the discovered events in
/// chronological order, the highest frame number seen, and whether the
/// scan stopped at an already-seen command.
pub ghost struct ScanResult {
    pub events: Seq<BPSimEvent>,
    pub max_frame: u64,
    pub broke: bool,
}

/// The lines as byte strings.
pub open spec fn spec_lines_view(lines: Seq<Vec<u8>>) -> Seq<Seq<u8>> {
    lines.map_values(|l: Vec<u8>| l@)
}

/// The scan from position `i` on: unparseable lines are skipped, every
/// parsed command raises the running maximum, and the scan stops at the
/// first command whose frame is at or below the watermark — except, on a
/// first read, one exactly at the watermark. Events are collected so that
/// the earliest-discovered (newest) line's event comes last.
pub open spec fn spec_scan(lines: Seq<Seq<u8>>, i: int, prev: u64, first: bool) -> ScanResult
    decreases lines.len() - i,
{
    if i < 0 || i >= lines.len() {
        ScanResult { events: Seq::empty(), max_frame: 0, broke: false }
    } else {
        match spec_parse_command(lines[i]) {
            None => spec_scan(lines, i + 1, prev, first),
            Some(cmd) => {
                if cmd.game_frame <= prev && !(first && prev == cmd.game_frame) {
                    ScanResult { events: Seq::empty(), max_frame: cmd.game_frame, broke: true }
                } else {
                    let rest = spec_scan(lines, i + 1, prev, first);
                    ScanResult {
                        events: match spec_to_event(cmd) {
                            None => rest.events,
                            Some(ev) => rest.events.push(ev),
                        },
                        max_frame: max(cmd.game_frame as int, rest.max_frame as int) as u64,
                        broke: rest.broke,
                    }
                }
            },
        }
    }
}

/// The reader. It holds no file handle: it is handed each poll's lines
/// and only keeps the watermark between polls.
pub struct BPDataParser {
    file_path: String,
    prev_reached_frame: u64,
    first_read: bool,
}

impl View for BPDataParser {
    type V = ParserModel;

    closed spec fn view(&self) -> ParserModel {
        ParserModel {
            file_path: self.file_path@,
            prev_reached_frame: self.prev_reached_frame,
            first_read: self.first_read,
        }
    }
}

impl BPDataParser {
    /// A fresh reader for the given log file, with the watermark at zero
    /// and the first read ahead of it.
    pub fn new(file_address: String) -> (p: BPDataParser)
        ensures
            p@ == (ParserModel {
                file_path: file_address@,
                prev_reached_frame: 0u64,
                first_read: true,
            }),
    {
        BPDataParser { file_path: file_address, prev_reached_frame: 0, first_read: true }
    }

    /// The path the reader was created for.
    pub fn file_path(&self) -> (r: &str)
        ensures
            r@ == self@.file_path,
    {
        self.file_path.as_str()
    }

    /// One poll. `lines` are the log's lines from the end backward —
    /// newest first — and `complete` says whether the caller read them
    /// all the way back without an error. The new events come back in
    /// chronological order. The watermark advances to the highest frame
    /// seen — even if no events resulted — unless the scan ran off the
    /// lines with the read incomplete, in which case the state is left
    /// unchanged, exactly as if the poll had been aborted mid-file.
    pub fn get_new_events(&mut self, lines: &Vec<Vec<u8>>, complete: bool) -> (events: std::collections::VecDeque<BPSimEvent>)
        ensures
            ({
                let scan = spec_scan(
                    spec_lines_view(lines@),
                    0,
                    old(self)@.prev_reached_frame,
                    old(self)@.first_read,
                );
                &&& events@ == scan.events
                &&& (scan.broke || complete) ==> final(self)@ == (ParserModel {
                    file_path: old(self)@.file_path,
                    prev_reached_frame: scan.max_frame,
                    first_read: false,
                })
                &&& !(scan.broke || complete) ==> final(self)@ == old(self)@
            }),
    {
        let ghost lv = spec_lines_view(lines@);
        let ghost prev0 = self@.prev_reached_frame;
        let ghost first0 = self@.first_read;
        let mut event_queue: std::collections::VecDeque<BPSimEvent> =
            std::collections::VecDeque::new();
        let mut current_end_frame: u64 = 0;
        let n = lines.len();
        let mut i: usize = 0;
        let mut broke = false;
        while i < n && !broke
            invariant
                n == lines@.len(),
                i <= n,
                lv == spec_lines_view(lines@),
                lv.len() == n,
                forall|k: int| 0 <= k < n ==> #[trigger] lv[k] == lines@[k]@,
                prev0 == self@.prev_reached_frame,
                first0 == self@.first_read,
                self@ == old(self)@,
                !broke ==> spec_scan(lv, 0, prev0, first0) == (ScanResult {
                    events: spec_scan(lv, i as int, prev0, first0).events.add(event_queue@),
                    max_frame: max(
                        current_end_frame as int,
                        spec_scan(lv, i as int, prev0, first0).max_frame as int,
                    ) as u64,
                    broke: spec_scan(lv, i as int, prev0, first0).broke,
                }),
                broke ==> spec_scan(lv, 0, prev0, first0) == (ScanResult {
                    events: event_queue@,
                    max_frame: current_end_frame,
                    broke: true,
                }),
            decreases n - i,
        {
            let line = &lines[i];
            match BPCommand::new(line.as_slice()) {
                None => {
                    proof {
                        assert(spec_parse_command(lv[i as int]) is None);
                    }
                },
                Some(cmd) => {
                    let ghost cm = spec_parse_command(lv[i as int])->0;
                    let frame = cmd.game_frame();
                    if current_end_frame < frame {
                        current_end_frame = frame;
                    }
                    if frame <= self.prev_reached_frame && !(self.first_read
                        && self.prev_reached_frame == frame) {
                        broke = true;
                    } else {
                        match cmd.to_event() {
                            None => {},
                            Some(ev) => {
                                proof {
                                    let rest = spec_scan(lv, i + 1, prev0, first0);
                                    assert(rest.events.push(ev).add(event_queue@) =~= rest.events.add(
                                        seq![ev].add(event_queue@),
                                    ));
                                }
                                event_queue.push_front(ev);
                                proof {
                                    assert(event_queue@ =~= seq![ev].add(
                                        event_queue@.skip(1),
                                    ));
                                }
                            },
                        }
                    }
                },
            }
            i = i + 1;
        }
        proof {
            if !broke {
                assert(spec_scan(lv, n as int, prev0, first0).events.add(event_queue@)
                    =~= event_queue@);
            }
        }
        if broke || complete {
            self.prev_reached_frame = current_end_frame;
            self.first_read = false;
        }
        event_queue
    }
}

/// The position of the first parseable line at or after `i`, or the
/// length if there is none.
pub open spec fn spec_first_parseable(lines: Seq<Seq<u8>>, i: int) -> int
    decreases lines.len() - i,
{
    if i < 0 || i >= lines.len() {
        lines.len() as int
    } else if spec_parse_command(lines[i]) is Some {
        i
    } else {
        spec_first_parseable(lines, i + 1)
    }
}

/// A scan's maximum frame covers the first parseable line's frame: that
/// command is processed — and counted into the maximum — whether or not
/// the scan stops at it.
proof fn lemma_scan_max_covers_first(lines: Seq<Seq<u8>>, i: int, prev: u64, first: bool)
    requires
        0 <= i,
        spec_first_parseable(lines, i) < lines.len(),
    ensures
        spec_scan(lines, i, prev, first).max_frame >= spec_parse_command(
            lines[spec_first_parseable(lines, i)],
        )->0.game_frame,
    decreases lines.len() - i,
{
    if i < lines.len() {
        if spec_parse_command(lines[i]) is Some {
        } else {
            lemma_scan_max_covers_first(lines, i + 1, prev, first);
        }
    }
}

/// After the first read, a scan whose first parseable command is already
/// at or below the watermark yields no events at all.
proof fn lemma_scan_empty_when_seen(lines: Seq<Seq<u8>>, i: int, prev: u64)
    requires
        0 <= i,
        spec_first_parseable(lines, i) < lines.len() ==> spec_parse_command(
            lines[spec_first_parseable(lines, i)],
        )->0.game_frame <= prev,
    ensures
        spec_scan(lines, i, prev, false).events.len() == 0,
    decreases lines.len() - i,
{
    if i < lines.len() {
        if spec_parse_command(lines[i]) is Some {
        } else {
            lemma_scan_empty_when_seen(lines, i + 1, prev);
        }
    }
}

/// Polling twice in a row over an unchanged log yields nothing the second
/// time: the first poll's watermark covers every command the second scan
/// can reach before it stops.
pub proof fn lemma_repoll_yields_nothing(p: ParserModel, lines: Seq<Seq<u8>>)
    ensures
        ({
            let once = spec_scan(lines, 0, p.prev_reached_frame, p.first_read);
            spec_scan(lines, 0, once.max_frame, false).events.len() == 0
        }),
{
    let once = spec_scan(lines, 0, p.prev_reached_frame, p.first_read);
    let fp = spec_first_parseable(lines, 0);
    if fp < lines.len() {
        lemma_scan_max_covers_first(lines, 0, p.prev_reached_frame, p.first_read);
    }
    lemma_scan_empty_when_seen(lines, 0, once.max_frame);
}

} // verus!
