use accessparser::count_table::{count_hashmap_to_vect, CountTable};
use accessparser::ip_info::IpInfo;
use accessparser::log_entry::LogEntry;
use accessparser::rank::rank_by_count;

#[test]
fn rank_by_count_orders_ties_by_index() {
    assert_eq!(rank_by_count(&vec![1, 5, 3, 3, 5]), vec![1, 4, 2, 3, 0]);
    assert_eq!(rank_by_count(&vec![]), Vec::<usize>::new());
}

#[test]
fn count_table_counts_and_ranks() {
    let mut t = CountTable::new();
    for k in ["b", "a", "b", "c", "a", "b"] {
        t.add(k.to_string());
    }
    assert_eq!(t.len(), 3);
    let (k, c) = t.entry(0);
    assert_eq!((k.as_str(), c), ("b", 3));
    let v = count_hashmap_to_vect(&t);
    let got: Vec<(&str, usize)> = v.iter().map(|(k, c)| (k.as_str(), *c)).collect();
    assert_eq!(got, vec![("b", 3), ("a", 2), ("c", 1)]);
}

#[test]
fn collect_entry_fills_tables_but_not_count() {
    let mut info = IpInfo::new();
    info.increment();
    info.collect_entry(LogEntry::parse(
        "1.1.1.1 - - [10/Oct/2023:13:55:36 +0200] \"GET / HTTP/1.1\" 200 1 \"r\" \"ua\"",
    ));
    assert_eq!(info.count, 1);
    assert_eq!(info.url_map.len(), 1);
    assert_eq!(info.referrer_map.len(), 1);
    assert_eq!(info.ua_map.len(), 1);
    assert_eq!(info.timestamps, vec![1696938936]);
}

#[test]
fn unquoted_line_adds_no_table_entries() {
    let mut info = IpInfo::new();
    info.increment();
    info.collect_entry(LogEntry::parse("2.2.2.2 - - [10/Oct/2023:13:55:36 +0200] GET / 200"));
    assert_eq!(info.count, 1);
    assert_eq!(info.url_map.len(), 0);
    assert_eq!(info.referrer_map.len(), 0);
    assert_eq!(info.ua_map.len(), 0);
}

fn with_timestamps(ts: &[i64]) -> IpInfo {
    let mut info = IpInfo::new();
    for t in ts {
        info.timestamps.push(*t);
    }
    info
}

#[test]
fn average_rpm_without_timestamps_is_zero() {
    assert_eq!(IpInfo::new().average_rpm_parts(), (0, 1));
}

#[test]
fn average_rpm_under_a_minute_is_count() {
    assert_eq!(with_timestamps(&[100, 130, 159]).average_rpm_parts(), (3, 1));
}

#[test]
fn average_rpm_over_span_in_minutes() {
    // unsorted on purpose: a reverse scan appends newest first
    let info = with_timestamps(&[1000 + 600, 1000, 1000 + 300, 1000 + 659]);
    assert_eq!(info.average_rpm_parts(), (4, 10));
}

#[test]
fn requests_since_counts_window() {
    let info = with_timestamps(&[0, 3599, 3600, 7200]);
    assert_eq!(info.requests_since(7200, 3600), 2);
    assert_eq!(info.requests_since(7199, 3600), 3);
    assert_eq!(info.requests_since(100_000, 3600), 0);
}

#[test]
fn last_timestamp_is_max() {
    assert_eq!(IpInfo::new().last_timestamp(), None);
    assert_eq!(with_timestamps(&[5, 9, 2]).last_timestamp(), Some(9));
}
