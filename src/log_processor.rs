//! The aggregation engine: the scans over a log and the state they share.

use vstd::prelude::*;
use crate::count_table::keys_of;
use crate::file_reader::ReaderDirection;
use crate::ip_info::{collected, InfoView};
use crate::ip_map::{
    kept, map_collect, map_increment, map_remove, request_counts, IpMap, MapView,
};
use crate::keys::{distinct, key_index, Keys};
use crate::log_entry::{address_of, lemma_unquoted_line, timestamp_of, LogEntry};
use crate::rank::{is_ranking, ranks_before};
use crate::text::{opt_view, views};

verus! {

/// What a scan extracts from each line.
#[derive(PartialEq, Eq, Structural, Clone, Copy, Debug)]
pub enum ParseType {
    /// Address only, forward.
    IpOnly,
    /// Address and timestamp, in reverse, stopping at the recency cutoff.
    IpAndTimestamp,
    /// Every field, forward.
    Full,
    /// Every field, in reverse, stopping at the line where the first scan stopped.
    FullReverse,
}

/// The state that the scans of one run share.
pub struct ScanState {
    /// The recency window in seconds, when the run filters by time.
    pub window: Option<i64>,
    /// The latest instant seen so far; none before the first.
    pub most_recent: Option<i64>,
    /// The line at which the first scan stopped.
    pub break_line: Option<Seq<char>>,
    /// The addresses kept after the first scan; empty keeps all.
    pub selected: Seq<Seq<char>>,
}

/// `t` is later than the latest instant so far, or the first one.
pub open spec fn is_later(latest: Option<i64>, t: i64) -> bool {
    match latest {
        Some(l) => t > l,
        None => true,
    }
}

/// The latest instant after also seeing `ts`.
pub open spec fn raised(latest: Option<i64>, ts: Option<i64>) -> Option<i64> {
    match ts {
        Some(t) => if is_later(latest, t) {
            Some(t)
        } else {
            latest
        },
        None => latest,
    }
}

/// The line at instant `t` lies further than the window behind the latest instant.
pub open spec fn beyond_window(s: ScanState, t: i64) -> bool {
    match (s.window, s.most_recent) {
        (Some(w), Some(l)) => l - t > w,
        _ => false,
    }
}

/// Appends `t` to the timestamps of `a`, which has an entry.
pub open spec fn map_push_timestamp(m: MapView, a: Seq<char>, t: i64) -> MapView {
    let i = key_index(keys_of(m), a);
    m.update(i, (a, InfoView { timestamps: m[i].1.timestamps.push(t), ..m[i].1 }))
}

/// One line of the first scan of a filtered run, with address `a` and
/// timestamp `ts`: the request counts; a newer (or the first) instant becomes the latest; an
/// instant further than the window behind the latest stops the scan at this
/// line; any other instant is recorded.
pub open spec fn step_timed(
    s: ScanState,
    m: MapView,
    a: Seq<char>,
    ts: Option<i64>,
    line: Seq<char>,
) -> (ScanState, MapView, bool) {
    let m1 = map_increment(m, a);
    match ts {
        Some(t) => if is_later(s.most_recent, t) {
            (ScanState { most_recent: Some(t), ..s }, map_push_timestamp(m1, a, t), false)
        } else if beyond_window(s, t) {
            (ScanState { break_line: Some(line), ..s }, m1, true)
        } else {
            (s, map_push_timestamp(m1, a, t), false)
        },
        None => (s, m1, false),
    }
}

/// One line of a scan: the next state, the next map, and whether the scan stops here.
pub open spec fn step(pt: ParseType, s: ScanState, m: MapView, line: Seq<char>) -> (
    ScanState,
    MapView,
    bool,
) {
    match pt {
        ParseType::IpOnly => match address_of(line) {
            Some(a) => (s, map_increment(m, a), false),
            None => (s, m, false),
        },
        ParseType::IpAndTimestamp => match address_of(line) {
            Some(a) => step_timed(s, m, a, timestamp_of(line), line),
            None => (s, m, false),
        },
        _ => match address_of(line) {
            Some(a) => {
                let m1 = if s.selected.len() > 0 && !s.selected.contains(a) {
                    map_remove(m, a)
                } else {
                    map_collect(m, a, line)
                };
                let s1 = ScanState { most_recent: raised(s.most_recent, timestamp_of(line)), ..s };
                (s1, m1, s.break_line == Some(line))
            },
            None => (s, m, s.break_line == Some(line)),
        },
    }
}

/// A scan over `lines`: the final state, the final map, and how many lines it
/// processed, the one it stopped at included.
pub open spec fn run(pt: ParseType, s: ScanState, m: MapView, lines: Seq<Seq<char>>) -> (
    ScanState,
    MapView,
    nat,
)
    decreases lines.len(),
{
    if lines.len() == 0 {
        (s, m, 0)
    } else {
        let (s1, m1, stop) = step(pt, s, m, lines[0]);
        if stop {
            (s1, m1, 1)
        } else {
            let r = run(pt, s1, m1, lines.drop_first());
            (r.0, r.1, r.2 + 1)
        }
    }
}

/// Flags the positions that the first `n` entries of `order` name.
pub open spec fn top_flags(order: Seq<usize>, n: int, len: nat) -> Seq<bool> {
    Seq::new(len, |q: int| exists|p: int| 0 <= p < n && order[p] == q)
}

/// The direction in which a scan of type `pt` reads the log.
pub open spec fn spec_direction(pt: ParseType) -> ReaderDirection {
    match pt {
        ParseType::IpAndTimestamp | ParseType::FullReverse => ReaderDirection::Reverse,
        _ => ReaderDirection::Normal,
    }
}

/// The latest instant after the first scan has read `lines` from `mr` on,
/// where it has not stopped among them.
pub open spec fn recent_after(mr: Option<i64>, lines: Seq<Seq<char>>) -> Option<i64>
    decreases lines.len(),
{
    if lines.len() == 0 {
        mr
    } else {
        let next = match address_of(lines[0]) {
            Some(_) => raised(mr, timestamp_of(lines[0])),
            None => mr,
        };
        recent_after(next, lines.drop_first())
    }
}

/// Line `k` lies further than the window behind the latest instant of the
/// lines before it (starting from `mr`): the first scan would stop there.
pub open spec fn is_cutoff(window: Option<i64>, mr: Option<i64>, lines: Seq<Seq<char>>, k: int) -> bool {
    let latest = recent_after(mr, lines.take(k));
    &&& 0 <= k < lines.len()
    &&& address_of(lines[k]) is Some
    &&& match (timestamp_of(lines[k]), window, latest) {
        (Some(t), Some(w), Some(l)) => t <= l && l - t > w,
        _ => false,
    }
}

/// The first scan of a filtered run stops at the first line that lies further
/// than the window behind the latest instant before it, records that line as
/// the cutoff, and reports the lines up to it; where there is no such line it
/// reads every line and records none.
pub proof fn lemma_first_scan_cutoff(s: ScanState, m: MapView, lines: Seq<Seq<char>>)
    ensures
        ({
            let r = run(ParseType::IpAndTimestamp, s, m, lines);
            &&& forall|k: int|
                #![trigger is_cutoff(s.window, s.most_recent, lines, k)]
                is_cutoff(s.window, s.most_recent, lines, k) && (forall|j: int|
                    0 <= j < k ==> !is_cutoff(s.window, s.most_recent, lines, j)) ==> r.2 == k + 1
                    && r.0.break_line == Some(lines[k])
            &&& (forall|k: int| 0 <= k < lines.len() ==> !is_cutoff(s.window, s.most_recent, lines, k))
                ==> r.2 == lines.len() && r.0.break_line == s.break_line
        }),
    decreases lines.len(),
{
    let pt = ParseType::IpAndTimestamp;
    if lines.len() > 0 {
        let (s1, m1, stop) = step(pt, s, m, lines[0]);
        assert(lines.take(0) =~= Seq::<Seq<char>>::empty());
        let tail = lines.drop_first();
        if stop {
            assert(is_cutoff(s.window, s.most_recent, lines, 0));
        } else {
            assert(!is_cutoff(s.window, s.most_recent, lines, 0));
            lemma_first_scan_cutoff(s1, m1, tail);
            assert(s1.window == s.window);
            assert(s1.break_line == s.break_line);
            assert forall|k: int| 0 <= k < tail.len() implies is_cutoff(
                s.window,
                s.most_recent,
                lines,
                k + 1,
            ) == is_cutoff(s1.window, s1.most_recent, tail, k) by {
                assert(lines.take(k + 1).drop_first() =~= tail.take(k));
                assert(lines.take(k + 1)[0] == lines[0]);
                assert(lines[k + 1] == tail[k]);
            }
            assert forall|k: int|
                is_cutoff(s.window, s.most_recent, lines, k) && (forall|j: int|
                    0 <= j < k ==> !is_cutoff(s.window, s.most_recent, lines, j)) implies run(
                pt,
                s,
                m,
                lines,
            ).2 == k + 1 && run(pt, s, m, lines).0.break_line == Some(lines[k]) by {
                assert(k >= 1);
                assert(is_cutoff(s1.window, s1.most_recent, tail, k - 1));
                assert forall|j: int| 0 <= j < k - 1 implies !is_cutoff(
                    s1.window,
                    s1.most_recent,
                    tail,
                    j,
                ) by {
                    assert(!is_cutoff(s.window, s.most_recent, lines, j + 1));
                }
            }
            if forall|k: int| 0 <= k < lines.len() ==> !is_cutoff(s.window, s.most_recent, lines, k) {
                assert forall|k: int| 0 <= k < tail.len() implies !is_cutoff(
                    s1.window,
                    s1.most_recent,
                    tail,
                    k,
                ) by {
                    assert(!is_cutoff(s.window, s.most_recent, lines, k + 1));
                }
            }
        }
    }
}

/// Lines no later than `l` leave the latest instant at `l`.
proof fn lemma_latest_stays(l: i64, lines: Seq<Seq<char>>, ts: Seq<i64>)
    requires
        lines.len() == ts.len(),
        forall|i: int| 0 <= i < lines.len() ==> #[trigger] timestamp_of(lines[i]) == Some(ts[i]),
        forall|i: int| 0 <= i < ts.len() ==> #[trigger] ts[i] <= l,
    ensures
        recent_after(Some(l), lines) == Some(l),
    decreases lines.len(),
{
    if lines.len() > 0 {
        assert(timestamp_of(lines[0]) == Some(ts[0]));
        assert(ts[0] <= l);
        let (tl, tt) = (lines.drop_first(), ts.drop_first());
        assert forall|i: int| 0 <= i < tl.len() implies #[trigger] timestamp_of(tl[i]) == Some(tt[i]) by {
            assert(timestamp_of(lines[i + 1]) == Some(ts[i + 1]));
        }
        assert forall|i: int| 0 <= i < tt.len() implies #[trigger] tt[i] <= l by {
            assert(ts[i + 1] <= l);
        }
        lemma_latest_stays(l, tl, tt);
    }
}

/// Position `k` is the first whose instant lies more than `w` behind the first one.
pub open spec fn first_beyond(ts: Seq<i64>, w: i64, k: int) -> bool {
    &&& 0 <= k < ts.len()
    &&& ts[0] - ts[k] > w
    &&& forall|j: int| 0 <= j < k ==> ts[0] - #[trigger] ts[j] <= w
}

/// A log whose instants never decrease, read newest first: the first scan of
/// a run with window `w` stops at the first line that lies more than `w`
/// behind the newest line, and records it as the cutoff; where no line does, it
/// reads them all and records none.
pub proof fn lemma_monotone_cutoff(
    s: ScanState,
    m: MapView,
    lines: Seq<Seq<char>>,
    ts: Seq<i64>,
    w: i64,
)
    requires
        s.window == Some(w),
        w >= 0,
        s.most_recent is None,
        s.break_line is None,
        lines.len() == ts.len(),
        forall|i: int| 0 <= i < lines.len() ==> #[trigger] address_of(lines[i]) is Some,
        forall|i: int| 0 <= i < lines.len() ==> #[trigger] timestamp_of(lines[i]) == Some(ts[i]),
        forall|i: int, j: int| 0 <= i <= j < ts.len() ==> ts[j] <= ts[i],
    ensures
        ({
            let r = run(ParseType::IpAndTimestamp, s, m, lines);
            &&& forall|k: int|
                #[trigger] first_beyond(ts, w, k) ==> r.2 == k + 1 && r.0.break_line == Some(lines[k])
            &&& (forall|k: int| 0 <= k < lines.len() ==> ts[0] - #[trigger] ts[k] <= w) ==> r.2 == lines.len()
                && r.0.break_line is None
        }),
{
    lemma_first_scan_cutoff(s, m, lines);
    assert forall|k: int| 0 <= k < lines.len() implies #[trigger] is_cutoff(
        s.window,
        s.most_recent,
        lines,
        k,
    ) == (ts[0] - ts[k] > w) by {
        assert(timestamp_of(lines[k]) == Some(ts[k]));
        assert(address_of(lines[k]) is Some);
        if k == 0 {
            assert(lines.take(0) =~= Seq::<Seq<char>>::empty());
        } else {
            let pre = lines.take(k);
            assert(pre[0] == lines[0]);
            assert(address_of(lines[0]) is Some);
            assert(timestamp_of(lines[0]) == Some(ts[0]));
            let (tl, tt) = (pre.drop_first(), ts.subrange(1, k));
            assert forall|i: int| 0 <= i < tl.len() implies #[trigger] timestamp_of(tl[i]) == Some(
                tt[i],
            ) by {
                assert(tl[i] == lines[i + 1]);
                assert(timestamp_of(lines[i + 1]) == Some(ts[i + 1]));
            }
            assert forall|i: int| 0 <= i < tt.len() implies #[trigger] tt[i] <= ts[0] by {
                assert(ts[i + 1] <= ts[0]);
            }
            lemma_latest_stays(ts[0], tl, tt);
            assert(recent_after(None, pre) == recent_after(Some(ts[0]), tl));
            assert(ts[k] <= ts[0]);
        }
    }
    let r = run(ParseType::IpAndTimestamp, s, m, lines);
    assert forall|k: int| #[trigger] first_beyond(ts, w, k) implies r.2 == k + 1 && r.0.break_line
        == Some(lines[k]) by {
        assert(is_cutoff(s.window, s.most_recent, lines, k));
        assert forall|j: int| 0 <= j < k implies !is_cutoff(s.window, s.most_recent, lines, j) by {
            assert(is_cutoff(s.window, s.most_recent, lines, j) == (ts[0] - ts[j] > w));
        }
    }
    if forall|k: int| 0 <= k < lines.len() ==> ts[0] - #[trigger] ts[k] <= w {
        assert forall|k: int| 0 <= k < lines.len() implies !is_cutoff(
            s.window,
            s.most_recent,
            lines,
            k,
        ) by {
            assert(is_cutoff(s.window, s.most_recent, lines, k) == (ts[0] - ts[k] > w));
        }
    }
}

/// In a log whose instants never decrease, read newest first, both scans of a
/// run with window `w` stop at the first line more than `w` behind the newest,
/// provided no earlier line has the same text.
pub proof fn lemma_monotone_cutoff_shared(
    s: ScanState,
    m: MapView,
    m2: MapView,
    selected: Seq<Seq<char>>,
    pt: ParseType,
    lines: Seq<Seq<char>>,
    ts: Seq<i64>,
    w: i64,
    k: int,
)
    requires
        pt == ParseType::Full || pt == ParseType::FullReverse,
        s.window == Some(w),
        w >= 0,
        s.most_recent is None,
        s.break_line is None,
        lines.len() == ts.len(),
        forall|i: int| 0 <= i < lines.len() ==> #[trigger] address_of(lines[i]) is Some,
        forall|i: int| 0 <= i < lines.len() ==> #[trigger] timestamp_of(lines[i]) == Some(ts[i]),
        forall|i: int, j: int| 0 <= i <= j < ts.len() ==> ts[j] <= ts[i],
        first_beyond(ts, w, k),
        forall|j: int| 0 <= j < k ==> lines[j] != lines[k],
    ensures
        ({
            let r1 = run(ParseType::IpAndTimestamp, s, m, lines);
            let r2 = run(pt, ScanState { selected, ..r1.0 }, m2, lines);
            &&& r1.2 == k + 1
            &&& r1.0.break_line == Some(lines[k])
            &&& r2.2 == k + 1
        }),
{
    lemma_monotone_cutoff(s, m, lines, ts, w);
    let r1 = run(ParseType::IpAndTimestamp, s, m, lines);
    assert(r1.2 == k + 1 && r1.0.break_line == Some(lines[k]));
    let s2 = ScanState { selected, ..r1.0 };
    lemma_second_scan_stop(pt, s2, m2, lines);
    assert(s2.break_line == Some(lines[k]));
}

/// A second scan changes neither the window, the selection nor the cutoff, and stops at the first line equal to
/// the recorded cutoff; where none is recorded, or no line equals it, it reads
/// every line.
pub proof fn lemma_second_scan_stop(pt: ParseType, s: ScanState, m: MapView, lines: Seq<Seq<char>>)
    requires
        pt == ParseType::Full || pt == ParseType::FullReverse,
    ensures
        ({
            let r = run(pt, s, m, lines);
            &&& r.0.break_line == s.break_line
            &&& r.0.window == s.window
            &&& r.0.selected == s.selected
            &&& forall|k: int|
                0 <= k < lines.len() && s.break_line == Some(#[trigger] lines[k]) && (forall|j: int|
                    0 <= j < k ==> s.break_line != Some(lines[j])) ==> r.2 == k + 1
            &&& (forall|k: int| 0 <= k < lines.len() ==> s.break_line != Some(lines[k])) ==> r.2
                == lines.len()
        }),
    decreases lines.len(),
{
    if lines.len() > 0 {
        let (s1, m1, stop) = step(pt, s, m, lines[0]);
        let tail = lines.drop_first();
        lemma_second_scan_stop(pt, s1, m1, tail);
        assert(s1.break_line == s.break_line && s1.window == s.window && s1.selected == s.selected);
        if !stop {
            assert forall|k: int|
                0 <= k < lines.len() && s.break_line == Some(#[trigger] lines[k]) && (forall|j: int|
                    0 <= j < k ==> s.break_line != Some(lines[j])) implies run(pt, s, m, lines).2 == k
                + 1 by {
                assert(k >= 1);
                assert(tail[k - 1] == lines[k]);
                assert forall|j: int| 0 <= j < k - 1 implies s.break_line != Some(tail[j]) by {
                    assert(tail[j] == lines[j + 1]);
                }
            }
            if forall|k: int| 0 <= k < lines.len() ==> s.break_line != Some(lines[k]) {
                assert forall|k: int| 0 <= k < tail.len() implies s.break_line != Some(tail[k]) by {
                    assert(tail[k] == lines[k + 1]);
                }
            }
        }
    }
}

/// The two scans of a filtered run stop at the same line: the first records
/// the first line beyond the window as the cutoff, and the second, reading the
/// same lines in the same order, stops on reaching it, provided no earlier line
/// has the same text.
pub proof fn lemma_cutoff_shared(
    s: ScanState,
    m: MapView,
    m2: MapView,
    selected: Seq<Seq<char>>,
    pt: ParseType,
    lines: Seq<Seq<char>>,
    k: int,
)
    requires
        pt == ParseType::Full || pt == ParseType::FullReverse,
        s.break_line is None,
        is_cutoff(s.window, s.most_recent, lines, k),
        forall|j: int| 0 <= j < k ==> !is_cutoff(s.window, s.most_recent, lines, j),
        forall|j: int| 0 <= j < k ==> lines[j] != lines[k],
    ensures
        ({
            let r1 = run(ParseType::IpAndTimestamp, s, m, lines);
            let r2 = run(pt, ScanState { selected, ..r1.0 }, m2, lines);
            &&& r1.2 == k + 1
            &&& r1.0.break_line == Some(lines[k])
            &&& r2.2 == k + 1
        }),
{
    lemma_first_scan_cutoff(s, m, lines);
    let r1 = run(ParseType::IpAndTimestamp, s, m, lines);
    assert(r1.2 == k + 1 && r1.0.break_line == Some(lines[k]));
    let s2 = ScanState { selected, ..r1.0 };
    lemma_second_scan_stop(pt, s2, m2, lines);
    assert(s2.break_line == Some(lines[k]));
}

/// A line without double quotes still counts one request for its address in
/// the first scan, while merging it leaves the request, referrer and
/// user-agent tables as they were.
pub proof fn lemma_unquoted_line_counts(
    s: ScanState,
    m: MapView,
    v: InfoView,
    line: Seq<char>,
    a: Seq<char>,
)
    requires
        forall|j: int| 0 <= j < line.len() ==> line[j] != '"',
        address_of(line) == Some(a),
    ensures
        step(ParseType::IpOnly, s, m, line) == (s, map_increment(m, a), false),
        collected(v, line).count == v.count,
        collected(v, line).urls == v.urls,
        collected(v, line).referrers == v.referrers,
        collected(v, line).uas == v.uas,
{
    lemma_unquoted_line(line);
}

/// Runs the scans of one log and holds what they share.
pub struct LogProcessor {
    window_secs: Option<i64>,
    most_recent_timestamp: Option<i64>,
    break_line: Option<String>,
    filter_ips: Keys,
}

impl View for LogProcessor {
    type V = ScanState;

    closed spec fn view(&self) -> ScanState {
        ScanState {
            window: self.window_secs,
            most_recent: self.most_recent_timestamp,
            break_line: opt_view(self.break_line),
            selected: self.filter_ips@,
        }
    }
}

impl LogProcessor {
    /// The selected addresses are indexed.
    pub closed spec fn wf(&self) -> bool {
        self.filter_ips.wf()
    }

    /// A processor for a run; `window_secs` is the recency window, if any.
    pub fn new(window_secs: Option<i64>) -> (r: LogProcessor)
        ensures
            r.wf(),
            r@ == (ScanState {
                window: window_secs,
                most_recent: None,
                break_line: None,
                selected: Seq::empty(),
            }),
    {
        let r = LogProcessor {
            window_secs,
            most_recent_timestamp: None,
            break_line: None,
            filter_ips: Keys::new(),
        };
        r
    }

    /// The latest instant seen so far in the run, if any.
    pub fn get_latest_timestamp(&self) -> (r: Option<i64>)
        ensures
            r == self@.most_recent,
    {
        self.most_recent_timestamp
    }

    /// The line at which the first scan stopped, if it did.
    pub fn break_line(&self) -> (r: Option<&String>)
        ensures
            opt_view(match r {
                Some(x) => Some(*x),
                None => None,
            }) == self@.break_line,
    {
        match &self.break_line {
            Some(b) => Some(b),
            None => None,
        }
    }

    /// The addresses selected for the second scan.
    pub fn filter_ips(&self) -> (r: Vec<String>)
        ensures
            views(r@) == self@.selected,
    {
        let mut r: Vec<String> = Vec::new();
        let mut i: usize = 0;
        while i < self.filter_ips.len()
            invariant
                i <= self@.selected.len(),
                views(r@) == self@.selected.subrange(0, i as int),
            decreases self@.selected.len() - i,
        {
            let ghost prev = r@;
            r.push(self.filter_ips.get(i).clone());
            assert(views(r@) =~= views(prev).push(self@.selected[i as int]));
            assert(self@.selected.subrange(0, i + 1) =~= self@.selected.subrange(0, i as int).push(
                self@.selected[i as int],
            ));
            i = i + 1;
        }
        assert(self@.selected.subrange(0, i as int) =~= self@.selected);
        r
    }

    /// The direction in which a scan of type `pt` reads the log.
    pub fn direction(pt: ParseType) -> (r: ReaderDirection)
        ensures
            r == spec_direction(pt),
    {
        match pt {
            ParseType::IpAndTimestamp | ParseType::FullReverse => ReaderDirection::Reverse,
            _ => ReaderDirection::Normal,
        }
    }

    /// Runs a scan of type `pt` over `lines`, given in the order the scan reads
    /// them, up to the line where it stops; returns how many lines it processed.
    pub fn process_log(&mut self, ip_map: &mut IpMap, pt: ParseType, lines: &Vec<String>) -> (r:
        usize)
        requires
            old(self).wf(),
            old(ip_map).wf(),
        ensures
            final(self).wf(),
            final(ip_map).wf(),
            final(self)@ == run(pt, old(self)@, old(ip_map)@, views(lines@)).0,
            final(ip_map)@ == run(pt, old(self)@, old(ip_map)@, views(lines@)).1,
            r == run(pt, old(self)@, old(ip_map)@, views(lines@)).2,
    {
        let ghost ls = views(lines@);
        let ghost total = run(pt, self@, ip_map@, ls);
        let n = lines.len();
        let mut i: usize = 0;
        assert(ls.subrange(0, n as int) =~= ls);
        while i < n
            invariant
                self.wf(),
                ip_map.wf(),
                i <= n == lines@.len() == ls.len(),
                ls == views(lines@),
                total == run(pt, old(self)@, old(ip_map)@, ls),
                total == ({
                    let r = run(pt, self@, ip_map@, ls.subrange(i as int, n as int));
                    (r.0, r.1, (r.2 + i) as nat)
                }),
            decreases n - i,
        {
            let ghost rest = ls.subrange(i as int, n as int);
            assert(rest[0] == lines@[i as int]@);
            assert(rest.drop_first() =~= ls.subrange(i + 1, n as int));
            let ghost s0 = self@;
            let ghost m0 = ip_map@;
            let stop = self.process_line(ip_map, pt, &lines[i]);
            assert(run(pt, s0, m0, rest) == if stop {
                (self@, ip_map@, 1nat)
            } else {
                let r = run(pt, self@, ip_map@, rest.drop_first());
                (r.0, r.1, r.2 + 1)
            });
            if stop {
                return i + 1;
            }
            i = i + 1;
        }
        assert(ls.subrange(n as int, n as int) =~= Seq::<Seq<char>>::empty());
        n
    }

    /// Keeps the `max_ips` addresses with the most requests (ties in
    /// first-seen order) for the second scan and drops the others from the map;
    /// 0 keeps every address.
    pub fn select_top(&mut self, ip_map: &mut IpMap, max_ips: usize)
        requires
            old(self).wf(),
            old(ip_map).wf(),
        ensures
            final(self).wf(),
            final(ip_map).wf(),
            max_ips == 0 ==> final(self)@ == old(self)@ && final(ip_map)@ == old(ip_map)@,
            max_ips > 0 ==> exists|order: Seq<usize>|
                {
                    let m = old(ip_map)@;
                    let n = if max_ips < m.len() { max_ips as int } else { m.len() as int };
                    &&& #[trigger] is_ranking(request_counts(old(ip_map)@), order)
                    &&& final(self)@ == ScanState {
                        selected: Seq::new(n as nat, |k: int| m[order[k] as int].0),
                        ..old(self)@
                    }
                    &&& final(ip_map)@ == kept(m, top_flags(order, n, m.len()))
                },
    {
        if max_ips == 0 {
            return;
        }
        let ghost m = ip_map@;
        let order = ip_map.ranked();
        let len = ip_map.len();
        let n = if max_ips < len { max_ips } else { len };
        let mut selected = Keys::new();
        let mut keep: Vec<bool> = Vec::new();
        proof {
            ip_map.lemma_distinct();
        }
        let mut j: usize = 0;
        while j < len
            invariant
                j <= len,
                keep@.len() == j,
                forall|q: int| 0 <= q < j ==> !keep@[q],
            decreases len - j,
        {
            keep.push(false);
            j = j + 1;
        }
        let mut k: usize = 0;
        while k < n
            invariant
                ip_map.wf(),
                ip_map@ == m,
                n <= len == m.len() == order@.len() == keep@.len(),
                is_ranking(request_counts(m), order@),
                distinct(keys_of(m)),
                k <= n,
                selected.wf(),
                selected@ == Seq::new(k as nat, |q: int| m[order@[q] as int].0),
                forall|q: int|
                    0 <= q < len ==> keep@[q] == exists|p: int| 0 <= p < k && order@[p] == q,
            decreases n - k,
        {
            let (address, _) = ip_map.entry(order[k]);
            let ghost prev = selected@;
            proof {
                assert forall|p: int| 0 <= p < k implies prev[p] != address@ by {
                    assert(ranks_before(request_counts(m), order@[p] as int, order@[k as int] as int));
                    assert(keys_of(m)[order@[p] as int] != keys_of(m)[order@[k as int] as int]);
                }
            }
            selected.push(address.clone());
            assert(selected@ =~= Seq::new((k + 1) as nat, |q: int| m[order@[q] as int].0));
            let ghost kprev = keep@;
            keep.set(order[k], true);
            assert forall|q: int| 0 <= q < len implies keep@[q] == exists|p: int|
                0 <= p < k + 1 && order@[p] == q by {
                if q == order@[k as int] {
                    assert(0 <= k < k + 1 && order@[k as int] == q);
                } else {
                    assert(keep@[q] == kprev[q]);
                    if exists|p: int| 0 <= p < k + 1 && order@[p] == q {
                        let p = choose|p: int| 0 <= p < k + 1 && order@[p] == q;
                        assert(p < k);
                    }
                }
            }
            k = k + 1;
        }
        assert(keep@ =~= top_flags(order@, n as int, len as nat));
        ip_map.retain_where(&keep);
        self.filter_ips = selected;
        assert(self@ =~= ScanState {
            selected: Seq::new(n as nat, |q: int| m[order@[q] as int].0),
            ..old(self)@
        });
    }

    /// Takes in one more instant, if any.
    fn raise_latest(&mut self, timestamp: Option<i64>)
        requires
            old(self).wf(),
        ensures
            final(self).wf(),
            final(self)@ == (ScanState {
                most_recent: raised(old(self)@.most_recent, timestamp),
                ..old(self)@
            }),
    {
        if let Some(t) = timestamp {
            let later = match self.most_recent_timestamp {
                Some(l) => t > l,
                None => true,
            };
            if later {
                self.most_recent_timestamp = Some(t);
            }
        }
    }

    /// Processes a line of the first scan of a filtered run, given its address
    /// and timestamp; true where the scan stops here.
    pub fn process_timestamped(
        &mut self,
        ip_map: &mut IpMap,
        ip: &str,
        timestamp: Option<i64>,
        line: &str,
    ) -> (r: bool)
        requires
            old(self).wf(),
            old(ip_map).wf(),
        ensures
            final(self).wf(),
            final(ip_map).wf(),
            final(self)@ == step_timed(old(self)@, old(ip_map)@, ip@, timestamp, line@).0,
            final(ip_map)@ == step_timed(old(self)@, old(ip_map)@, ip@, timestamp, line@).1,
            r == step_timed(old(self)@, old(ip_map)@, ip@, timestamp, line@).2,
    {
        ip_map.increment(ip);
        if let Some(t) = timestamp {
            let later = match self.most_recent_timestamp {
                Some(l) => t > l,
                None => true,
            };
            if later {
                self.most_recent_timestamp = Some(t);
            } else if let (Some(w), Some(l)) = (self.window_secs, self.most_recent_timestamp) {
                if l as i128 - t as i128 > w as i128 {
                    self.break_line = Some(line.to_owned());
                    return true;
                }
            }
            ip_map.push_timestamp(ip, t);
        }
        false
    }

    /// Processes one line of a scan of type `pt`; true where the scan stops here.
    pub fn process_line(&mut self, ip_map: &mut IpMap, pt: ParseType, line: &str) -> (r: bool)
        requires
            old(self).wf(),
            old(ip_map).wf(),
        ensures
            final(self).wf(),
            final(ip_map).wf(),
            final(self)@ == step(pt, old(self)@, old(ip_map)@, line@).0,
            final(ip_map)@ == step(pt, old(self)@, old(ip_map)@, line@).1,
            r == step(pt, old(self)@, old(ip_map)@, line@).2,
    {
        match pt {
            ParseType::IpOnly => {
                if let Some(ip) = LogEntry::parse_ip(line) {
                    ip_map.increment(ip);
                }
                false
            },
            ParseType::IpAndTimestamp => {
                let (ip, timestamp) = LogEntry::parse_ip_and_timestamp(line);
                match ip {
                    Some(ip) => self.process_timestamped(ip_map, ip, timestamp, line),
                    None => false,
                }
            },
            _ => {
                let (ip, timestamp) = LogEntry::parse_ip_and_timestamp(line);
                if let Some(ip) = ip {
                    if self.filter_ips.len() > 0 && self.filter_ips.find(ip).is_none() {
                        ip_map.remove(ip);
                    } else {
                        let entry = LogEntry::parse(line);
                        ip_map.collect(ip, entry, Ghost(line@));
                    }
                    self.raise_latest(timestamp);
                }
                match &self.break_line {
                    Some(b) => *b == line.to_owned(),
                    None => false,
                }
            },
        }
    }
}

} // verus!
