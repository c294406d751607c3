use accessparser::count_table::count_hashmap_to_vect;
use accessparser::file_reader::ReaderDirection;
use accessparser::ip_location::IpLocation;
use accessparser::ip_map::{ip_map_to_vect, IpMap};
use accessparser::log_processor::{LogProcessor, ParseType};

fn line(ip: &str, minute: u32, url: &str) -> String {
    format!(
        "{ip} - - [10/Oct/2023:12:{minute:02}:00 +0000] \"GET {url} HTTP/1.1\" 200 10 \"-\" \"agent\""
    )
}

fn counts(map: &IpMap) -> Vec<(String, usize)> {
    ip_map_to_vect(map).into_iter().map(|(a, i)| (a.clone(), i.count)).collect()
}

#[test]
fn directions_follow_parse_type() {
    assert_eq!(LogProcessor::direction(ParseType::IpOnly), ReaderDirection::Normal);
    assert_eq!(LogProcessor::direction(ParseType::Full), ReaderDirection::Normal);
    assert_eq!(LogProcessor::direction(ParseType::IpAndTimestamp), ReaderDirection::Reverse);
    assert_eq!(LogProcessor::direction(ParseType::FullReverse), ReaderDirection::Reverse);
}

#[test]
fn top_two_of_four_breaks_tie_by_first_seen() {
    let mut lines = Vec::new();
    for (ip, n) in [("A", 5), ("B", 3), ("C", 3), ("D", 1)] {
        for _ in 0..n {
            lines.push(format!("{ip} - - x"));
        }
    }
    let mut p = LogProcessor::new(None);
    let mut map = IpMap::new();
    assert_eq!(p.process_log(&mut map, ParseType::IpOnly, &lines), 12);
    p.select_top(&mut map, 2);
    assert_eq!(p.filter_ips(), vec!["A".to_string(), "B".to_string()]);
    assert_eq!(counts(&map), vec![("A".to_string(), 5), ("B".to_string(), 3)]);
}

#[test]
fn select_top_zero_keeps_all() {
    let lines: Vec<String> = vec!["a x".into(), "b x".into(), "a x".into()];
    let mut p = LogProcessor::new(None);
    let mut map = IpMap::new();
    p.process_log(&mut map, ParseType::IpOnly, &lines);
    p.select_top(&mut map, 0);
    assert!(p.filter_ips().is_empty());
    assert_eq!(map.len(), 2);
}

#[test]
fn end_to_end_single_top_address() {
    let lines = vec![
        line("1.2.3.4", 0, "/a"),
        line("5.6.7.8", 1, "/b"),
        line("1.2.3.4", 2, "/a"),
    ];
    let mut p = LogProcessor::new(None);
    let mut map = IpMap::new();
    assert_eq!(p.process_log(&mut map, ParseType::IpOnly, &lines), 3);
    p.select_top(&mut map, 1);
    assert_eq!(p.process_log(&mut map, ParseType::Full, &lines), 3);
    let ranked = ip_map_to_vect(&map);
    assert_eq!(ranked.len(), 1);
    assert_eq!(ranked[0].0, "1.2.3.4");
    assert_eq!(ranked[0].1.count, 2);
    let urls = count_hashmap_to_vect(&ranked[0].1.url_map);
    let top: Vec<(String, usize)> = urls.into_iter().take(1).collect();
    assert_eq!(top, vec![("GET /a HTTP/1.1".to_string(), 2)]);
}

#[test]
fn line_without_quotes_counts_but_adds_no_fields() {
    let lines = vec!["7.7.7.7 - - [10/Oct/2023:12:00:00 +0000] GET / 200".to_string()];
    let mut p = LogProcessor::new(None);
    let mut map = IpMap::new();
    p.process_log(&mut map, ParseType::IpOnly, &lines);
    p.process_log(&mut map, ParseType::Full, &lines);
    let (_, info) = map.entry(0);
    assert_eq!(info.count, 1);
    assert_eq!(info.url_map.len(), 0);
    assert_eq!(info.referrer_map.len(), 0);
    assert_eq!(info.ua_map.len(), 0);
    assert_eq!(info.timestamps, vec![1696939200]);
}

#[test]
fn unparseable_lines_are_skipped_but_counted_as_processed() {
    let lines: Vec<String> = vec!["nospace".into(), "a b".into()];
    let mut p = LogProcessor::new(None);
    let mut map = IpMap::new();
    assert_eq!(p.process_log(&mut map, ParseType::IpOnly, &lines), 2);
    assert_eq!(map.len(), 1);
}

#[test]
fn recency_cutoff_is_shared_by_both_scans() {
    // one line per minute from 12:00 to 12:09, read newest first
    let forward: Vec<String> =
        (0..10).map(|m| line(if m % 2 == 0 { "1.1.1.1" } else { "2.2.2.2" }, m, "/x")).collect();
    let reverse: Vec<String> = forward.iter().rev().cloned().collect();
    // a window of 3 minutes: 12:09 is the latest, 12:05 is the first more than 3 minutes behind
    let mut p = LogProcessor::new(Some(180));
    let mut map = IpMap::new();
    let first = p.process_log(&mut map, ParseType::IpAndTimestamp, &reverse);
    assert_eq!(first, 5);
    assert_eq!(p.break_line().map(|s| s.as_str()), Some(forward[5].as_str()));
    assert_eq!(p.get_latest_timestamp(), Some(1696939200 + 9 * 60));
    let requests: usize = (0..map.len()).map(|i| map.entry(i).1.count).sum();
    assert_eq!(requests, 5);
    p.select_top(&mut map, 0);
    let second = p.process_log(&mut map, ParseType::FullReverse, &reverse);
    assert_eq!(second, first);
}

#[test]
fn no_cutoff_without_window() {
    let forward: Vec<String> = (0..10).map(|m| line("1.1.1.1", m, "/x")).collect();
    let reverse: Vec<String> = forward.iter().rev().cloned().collect();
    let mut p = LogProcessor::new(None);
    let mut map = IpMap::new();
    assert_eq!(p.process_log(&mut map, ParseType::IpAndTimestamp, &reverse), 10);
    assert!(p.break_line().is_none());
    assert_eq!(p.process_log(&mut map, ParseType::FullReverse, &reverse), 10);
}

#[test]
fn second_scan_drops_unselected_addresses() {
    let lines = vec![line("a", 0, "/"), line("b", 1, "/"), line("a", 2, "/")];
    let mut p = LogProcessor::new(None);
    let mut map = IpMap::new();
    p.process_log(&mut map, ParseType::IpOnly, &lines);
    p.select_top(&mut map, 1);
    p.process_log(&mut map, ParseType::Full, &lines);
    assert_eq!(map.len(), 1);
    assert_eq!(map.entry(0).0, "a");
    assert_eq!(map.entry(0).1.url_map.len(), 1);
}

#[test]
fn minimums_filter_by_rate_and_count() {
    // a: 3 requests within a minute (rate 3); b: 2 requests 10 minutes apart (rate 0.2)
    let lines = vec![line("a", 0, "/"), line("a", 0, "/"), line("a", 0, "/"), line("b", 0, "/"), line("b", 10, "/")];
    let mut p = LogProcessor::new(None);
    let mut map = IpMap::new();
    p.process_log(&mut map, ParseType::IpOnly, &lines);
    p.process_log(&mut map, ParseType::Full, &lines);
    let mut by_rate = IpMap::new();
    let mut q = LogProcessor::new(None);
    q.process_log(&mut by_rate, ParseType::IpOnly, &lines);
    q.process_log(&mut by_rate, ParseType::Full, &lines);
    by_rate.retain_minimums(Some(1), None);
    assert_eq!(counts(&by_rate), vec![("a".to_string(), 3)]);
    map.retain_minimums(None, Some(3));
    assert_eq!(counts(&map), vec![("a".to_string(), 3)]);
}

#[test]
fn locations_attach_to_known_addresses() {
    let lines: Vec<String> = vec!["a x".into(), "b x".into()];
    let mut p = LogProcessor::new(None);
    let mut map = IpMap::new();
    p.process_log(&mut map, ParseType::IpOnly, &lines);
    let loc = |ip: Option<&str>, country: &str| IpLocation {
        ip_address: ip.map(|s| s.to_string()),
        country_name: Some(country.to_string()),
        city_name: None,
        region_name: None,
    };
    map.set_locations(vec![loc(Some("b"), "SK"), loc(Some("zzz"), "CZ"), loc(None, "AT")]);
    assert!(map.entry(0).1.location_data.is_none());
    let b = map.entry(1).1.location_data.as_ref().unwrap();
    assert_eq!(b.country_name.as_deref(), Some("SK"));
}

#[test]
fn timestamped_line_decisions() {
    let mut p = LogProcessor::new(Some(60));
    let mut map = IpMap::new();
    // newest first: becomes the latest instant
    assert!(!p.process_timestamped(&mut map, "a", Some(1000), "l1"));
    assert_eq!(p.get_latest_timestamp(), Some(1000));
    // within the window: recorded
    assert!(!p.process_timestamped(&mut map, "b", Some(940), "l2"));
    // no timestamp: counted only
    assert!(!p.process_timestamped(&mut map, "b", None, "l3"));
    // further than the window behind: the cutoff, counted but not recorded
    assert!(p.process_timestamped(&mut map, "a", Some(939), "l4"));
    assert_eq!(p.break_line().map(|s| s.as_str()), Some("l4"));
    let a = map.get(&"a".to_string()).unwrap();
    assert_eq!(a.count, 2);
    assert_eq!(a.timestamps, vec![1000]);
    let b = map.get(&"b".to_string()).unwrap();
    assert_eq!(b.count, 2);
    assert_eq!(b.timestamps, vec![940]);
    assert!(map.get(&"c".to_string()).is_none());
}

#[test]
fn latest_timestamp_starts_empty_and_takes_first_instant() {
    let mut p = LogProcessor::new(Some(60));
    assert_eq!(p.get_latest_timestamp(), None);
    let mut map = IpMap::new();
    let lines = vec![
        "a - - [31/Dec/1969:23:59:55 +0000] \"GET / HTTP/1.1\"".to_string(),
        "b - - [31/Dec/1969:23:59:30 +0000] \"GET / HTTP/1.1\"".to_string(),
    ];
    // instants before 1970 are ordinary: no cutoff within the window
    assert_eq!(p.process_log(&mut map, ParseType::IpAndTimestamp, &lines), 2);
    assert_eq!(p.get_latest_timestamp(), Some(-5));
    assert!(p.break_line().is_none());
}

#[test]
fn full_scan_records_latest_timestamp_of_run() {
    let lines = vec![line("a", 3, "/"), line("b", 7, "/"), line("a", 5, "/")];
    let mut p = LogProcessor::new(None);
    let mut map = IpMap::new();
    p.process_log(&mut map, ParseType::IpOnly, &lines);
    assert_eq!(p.get_latest_timestamp(), None);
    p.select_top(&mut map, 1);
    p.process_log(&mut map, ParseType::Full, &lines);
    // "b" was dropped, yet its instant is the latest of the run
    assert_eq!(map.len(), 1);
    assert_eq!(p.get_latest_timestamp(), Some(1696939200 + 7 * 60));
}

#[test]
fn ranking_is_the_same_on_every_call() {
    let lines: Vec<String> =
        ["c x", "b x", "c x", "b x", "a x", "d x"].iter().map(|s| s.to_string()).collect();
    let mut p = LogProcessor::new(None);
    let mut map = IpMap::new();
    p.process_log(&mut map, ParseType::IpOnly, &lines);
    let first = counts(&map);
    assert_eq!(first, counts(&map));
    let names: Vec<&str> = first.iter().map(|(a, _)| a.as_str()).collect();
    assert_eq!(names, vec!["c", "b", "a", "d"]);
}
