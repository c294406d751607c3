//! The access-log line grammar: address, bracketed timestamp and quoted fields.

use vstd::prelude::*;
use crate::text::{chars_of, find_in, is_first, lemma_first_index, opt_view, split_all, split_on, split_once, views};

verus! {

broadcast use vstd::string::group_string_axioms;

/// The timestamp layout inside the brackets: `10/Oct/2023:13:55:36 +0200`.
pub const LOG_TIME_FORMAT: &'static str = "%d/%b/%Y:%H:%M:%S %z";

/// The instant that `text` denotes in the strftime `format`, in seconds since the
/// Unix epoch, or `None` where `text` does not match `format`.
pub uninterp spec fn parsed_time(text: Seq<char>, format: Seq<char>) -> Option<i64>;

/// Relies on chrono's `DateTime::parse_from_str` (a fixed-offset date-time, or an
/// error where the text does not match the format) and `DateTime::timestamp`
/// (its instant in seconds since the Unix epoch).
#[verifier::external_body]
fn parse_time(text: &str, format: &str) -> (r: Option<i64>)
    ensures
        r == parsed_time(text@, format@),
{
    match chrono::DateTime::parse_from_str(text, format) {
        Ok(t) => Some(t.timestamp()),
        Err(_) => None,
    }
}

/// The address of a line: the text before its first space.
pub open spec fn address_of(line: Seq<char>) -> Option<Seq<char>> {
    match split_once(line, ' ') {
        Some((address, _)) => Some(address),
        None => None,
    }
}

/// The text between the first `[` and the first `]` that follow the address.
pub open spec fn bracket_of(line: Seq<char>) -> Option<Seq<char>> {
    match split_once(line, ' ') {
        Some((_, rest)) => match split_once(rest, ']') {
            Some((head, _)) => match split_once(head, '[') {
                Some((_, date)) => Some(date),
                None => None,
            },
            None => None,
        },
        None => None,
    }
}

/// The instant of a line's bracketed timestamp, where it has one that parses.
pub open spec fn timestamp_of(line: Seq<char>) -> Option<i64> {
    match bracket_of(line) {
        Some(date) => parsed_time(date, LOG_TIME_FORMAT@),
        None => None,
    }
}

/// The pieces of a line between double quotes.
pub open spec fn quoted_segments(line: Seq<char>) -> Seq<Seq<char>> {
    split_all(line, '"')
}

/// The request (second piece), present where the line has at least five pieces.
pub open spec fn url_of(line: Seq<char>) -> Option<Seq<char>> {
    let segs = quoted_segments(line);
    if segs.len() >= 5 {
        Some(segs[1])
    } else {
        None
    }
}

/// The referrer (fourth piece), present where the line has at least five pieces.
pub open spec fn referrer_of(line: Seq<char>) -> Option<Seq<char>> {
    let segs = quoted_segments(line);
    if segs.len() >= 5 {
        Some(segs[3])
    } else {
        None
    }
}

/// The user agent (sixth piece), present where the line has at least five
/// pieces and the sixth exists.
pub open spec fn user_agent_of(line: Seq<char>) -> Option<Seq<char>> {
    let segs = quoted_segments(line);
    if segs.len() >= 6 {
        Some(segs[5])
    } else {
        None
    }
}

/// The fields that a full parse of a line yields.
pub struct LogEntry {
    pub timestamp: Option<i64>,
    pub url: Option<String>,
    pub referrer: Option<String>,
    pub ua: Option<String>,
}

impl LogEntry {
    /// The entry that `line` holds.
    pub open spec fn spec_parse(line: Seq<char>, e: LogEntry) -> bool {
        &&& e.timestamp == timestamp_of(line)
        &&& opt_view(e.url) == url_of(line)
        &&& opt_view(e.referrer) == referrer_of(line)
        &&& opt_view(e.ua) == user_agent_of(line)
    }

    /// Full parse of a line. Never fails: what is missing stays `None`.
    pub fn parse(line: &str) -> (r: LogEntry)
        ensures
            LogEntry::spec_parse(line@, r),
    {
        let v = chars_of(line);
        let timestamp = timestamp_in(line, &v);
        let parts = split_on(line, &v, '"');
        proof {
            assert(views(parts@) == quoted_segments(line@));
        }
        let mut url: Option<String> = None;
        let mut referrer: Option<String> = None;
        let mut ua: Option<String> = None;
        if parts.len() >= 5 {
            url = Some(parts[1].clone());
            referrer = Some(parts[3].clone());
            if parts.len() >= 6 {
                ua = Some(parts[5].clone());
            }
        }
        LogEntry { timestamp, url, referrer, ua }
    }

    /// The address of a line: the text before its first space.
    pub fn parse_ip(line: &str) -> (r: Option<&str>)
        ensures
            match r {
                Some(a) => address_of(line@) == Some(a@),
                None => address_of(line@) is None,
            },
    {
        let v = chars_of(line);
        match find_in(&v, ' ', 0, v.len()) {
            Some(i) => {
                proof {
                    assert(v@.subrange(0, v@.len() as int) =~= line@);
                }
                Some(line.substring_char(0, i))
            },
            None => {
                proof {
                    assert(v@.subrange(0, v@.len() as int) =~= line@);
                }
                None
            },
        }
    }

    /// The address of a line and the instant of its bracketed timestamp.
    pub fn parse_ip_and_timestamp(line: &str) -> (r: (Option<&str>, Option<i64>))
        ensures
            match r.0 {
                Some(a) => address_of(line@) == Some(a@),
                None => address_of(line@) is None,
            },
            r.1 == timestamp_of(line@),
    {
        let v = chars_of(line);
        let timestamp = timestamp_in(line, &v);
        (LogEntry::parse_ip(line), timestamp)
    }
}

/// The address of a line that holds a space is the text before its first space.
pub proof fn lemma_address_before_first_space(line: Seq<char>, i: int)
    requires
        0 <= i < line.len(),
        line[i] == ' ',
        forall|j: int| 0 <= j < i ==> line[j] != ' ',
    ensures
        address_of(line) == Some(line.subrange(0, i)),
{
    assert(is_first(line, ' ', i));
    lemma_first_index(line, ' ', i);
}

/// A line without a double quote is one piece, so it has no request,
/// referrer or user agent.
pub proof fn lemma_unquoted_line(line: Seq<char>)
    requires
        forall|j: int| 0 <= j < line.len() ==> line[j] != '"',
    ensures
        quoted_segments(line) == seq![line],
        url_of(line) is None,
        referrer_of(line) is None,
        user_agent_of(line) is None,
    decreases line.len(),
{
    if line.len() > 0 {
        lemma_unquoted_line(line.drop_last());
        assert(line.drop_last().push(line.last()) =~= line);
        assert(line.last() != '"');
        assert(seq![line.drop_last()].update(0, line.drop_last().push(line.last())) =~= seq![line]);
    } else {
        assert(line =~= Seq::<char>::empty());
    }
}

/// The instant of the bracketed timestamp of `line`; `v` holds its characters.
fn timestamp_in(line: &str, v: &Vec<char>) -> (r: Option<i64>)
    requires
        v@ == line@,
    ensures
        r == timestamp_of(line@),
{
    let n = v.len();
    let ghost s = line@;
    assert(v@.subrange(0, n as int) =~= s);
    let space = match find_in(v, ' ', 0, n) {
        Some(i) => i,
        None => {
            return None;
        },
    };
    let ghost rest = s.subrange(space + 1, n as int);
    assert(v@.subrange(space + 1, n as int) =~= rest);
    let close = match find_in(v, ']', space + 1, n) {
        Some(j) => j,
        None => {
            return None;
        },
    };
    let ghost head = rest.subrange(0, close - (space + 1));
    assert(v@.subrange(space + 1, close as int) =~= head);
    let open = match find_in(v, '[', space + 1, close) {
        Some(k) => k,
        None => {
            return None;
        },
    };
    let ghost date = head.subrange(open - (space + 1) + 1, head.len() as int);
    let text = line.substring_char(open + 1, close);
    assert(text@ =~= date);
    parse_time(text, LOG_TIME_FORMAT)
}

} // verus!
