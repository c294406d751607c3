use accessparser::log_entry::{LogEntry, LOG_TIME_FORMAT};

const LINE: &str = "1.2.3.4 - - [10/Oct/2023:13:55:36 +0200] \"GET /index.html HTTP/1.1\" 200 512 \"http://example.com/\" \"Mozilla/5.0\"";

#[test]
fn parse_ip_takes_text_before_first_space() {
    assert_eq!(LogEntry::parse_ip(LINE), Some("1.2.3.4"));
    assert_eq!(LogEntry::parse_ip("a b c"), Some("a"));
    assert_eq!(LogEntry::parse_ip(" leading"), Some(""));
}

#[test]
fn parse_ip_without_space_is_none() {
    assert_eq!(LogEntry::parse_ip("no-space-here"), None);
    assert_eq!(LogEntry::parse_ip(""), None);
}

#[test]
fn parse_ip_and_timestamp_reads_bracket() {
    let (ip, ts) = LogEntry::parse_ip_and_timestamp(LINE);
    assert_eq!(ip, Some("1.2.3.4"));
    assert_eq!(ts, Some(1696938936));
}

#[test]
fn parse_ip_and_timestamp_normalises_offset() {
    let (_, a) = LogEntry::parse_ip_and_timestamp("x - - [10/Oct/2023:12:00:00 +0000] \"r\"");
    let (_, b) = LogEntry::parse_ip_and_timestamp("y - - [10/Oct/2023:14:00:00 +0200] \"r\"");
    assert_eq!(a, Some(1696939200));
    assert_eq!(a, b);
}

#[test]
fn parse_ip_and_timestamp_bad_date_keeps_address() {
    let (ip, ts) = LogEntry::parse_ip_and_timestamp("9.9.9.9 - - [not a date] \"GET / HTTP/1.1\"");
    assert_eq!(ip, Some("9.9.9.9"));
    assert_eq!(ts, None);
    let (ip, ts) = LogEntry::parse_ip_and_timestamp("9.9.9.9 no brackets at all");
    assert_eq!(ip, Some("9.9.9.9"));
    assert_eq!(ts, None);
    let (ip, ts) = LogEntry::parse_ip_and_timestamp("[10/Oct/2023:13:55:36 +0200]");
    assert_eq!(ip, Some("[10/Oct/2023:13:55:36"));
    assert_eq!(ts, None);
    let (ip, ts) = LogEntry::parse_ip_and_timestamp("[10/Oct/2023:13:55:36]");
    assert_eq!(ip, None);
    assert_eq!(ts, None);
}

#[test]
fn timestamp_round_trips_through_format() {
    let (_, ts) = LogEntry::parse_ip_and_timestamp(LINE);
    let instant = chrono::DateTime::from_timestamp(ts.unwrap(), 0).unwrap();
    let local = instant.with_timezone(&chrono::Local);
    let text = format!("a - - [{}] x", local.format(LOG_TIME_FORMAT));
    let (_, again) = LogEntry::parse_ip_and_timestamp(&text);
    assert_eq!(again, ts);
}

#[test]
fn parse_full_reads_quoted_fields() {
    let e = LogEntry::parse(LINE);
    assert_eq!(e.timestamp, Some(1696938936));
    assert_eq!(e.url.as_deref(), Some("GET /index.html HTTP/1.1"));
    assert_eq!(e.referrer.as_deref(), Some("http://example.com/"));
    assert_eq!(e.ua.as_deref(), Some("Mozilla/5.0"));
}

#[test]
fn parse_full_with_five_pieces_has_no_user_agent() {
    let e = LogEntry::parse("1.1.1.1 - - \"GET / HTTP/1.1\" 200 1 \"ref\"");
    assert_eq!(e.url.as_deref(), Some("GET / HTTP/1.1"));
    assert_eq!(e.referrer.as_deref(), Some("ref"));
    assert_eq!(e.ua, None);
}

#[test]
fn parse_full_with_few_quotes_sets_nothing() {
    let e = LogEntry::parse("1.1.1.1 - - [10/Oct/2023:13:55:36 +0200] \"GET / HTTP/1.1\" 200");
    assert_eq!(e.url, None);
    assert_eq!(e.referrer, None);
    assert_eq!(e.ua, None);
    assert_eq!(e.timestamp, Some(1696938936));
    let e = LogEntry::parse("plain line without quotes");
    assert_eq!(e.url, None);
    assert_eq!(e.referrer, None);
    assert_eq!(e.ua, None);
    assert_eq!(e.timestamp, None);
}
