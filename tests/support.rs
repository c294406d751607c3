use accessparser::cache::{Cache, CACHE_FILE};
use accessparser::free_ip_api::FreeIpApi;
use accessparser::key_values::{get_config, lines_of};
use accessparser::printer::{Hue, Printer};
use accessparser::slack_webhook::{Message, SlackWebhook};

#[test]
fn cache_set_get_overwrite() {
    let mut c = Cache::new();
    assert_eq!(c.path(), CACHE_FILE);
    assert_eq!(c.get("k"), None);
    c.set("k", "v1");
    c.set("j", "w");
    c.set("k", "v2");
    assert_eq!(c.get("k").as_deref(), Some("v2"));
    assert_eq!(c.get("j").as_deref(), Some("w"));
    assert_eq!(c.to_text(), "k=v2\nj=w\n");
}

#[test]
fn cache_load_reads_pairs() {
    let mut c = Cache::new();
    c.load("a=1\r\nnot a pair\nb=x=y\na=3\n");
    assert_eq!(c.get("a").as_deref(), Some("3"));
    assert_eq!(c.get("b").as_deref(), Some("x=y"));
    assert_eq!(c.get("not a pair"), None);
    assert_eq!(c.to_text(), "a=3\nb=x=y\n");
}

#[test]
fn lines_of_matches_buffered_reader() {
    assert_eq!(lines_of(""), Vec::<String>::new());
    assert_eq!(lines_of("a\r\nb\n"), vec!["a".to_string(), "b".to_string()]);
    assert_eq!(lines_of("a\n\nb"), vec!["a".to_string(), "".to_string(), "b".to_string()]);
}

#[test]
fn config_keeps_carriage_returns() {
    let cfg = get_config("WEBHOOK=http://hook\r\nX=1\nX=2\njunk");
    assert_eq!(cfg.len(), 2);
    assert_eq!(cfg.get("WEBHOOK").as_deref(), Some("http://hook\r"));
    assert_eq!(cfg.get("X").as_deref(), Some("2"));
}

#[test]
fn printer_colours_when_enabled() {
    let on = Printer::new(true);
    assert_eq!(on.opt_color("abc", Hue::Cyan, true), "\x1b[1;36mabc\x1b[0m");
    assert_eq!(on.opt_color("abc", Hue::Red, false), "\x1b[31mabc\x1b[0m");
    let off = Printer::new(false);
    assert_eq!(off.opt_color("abc", Hue::Purple, true), "abc");
}

#[test]
fn messages_and_urls() {
    assert_eq!(Message::new("hi").text(), "hi");
    assert_eq!(
        Message::alert("body").text(),
        "SUSPICIOUS ACTIVITY\n----------------------------\nbody"
    );
    assert_eq!(SlackWebhook::new("http://h".to_string()).webhook_url(), "http://h");
    assert_eq!(FreeIpApi::lookup_url("1.2.3.4"), "https://freeipapi.com/api/json/1.2.3.4");
}
