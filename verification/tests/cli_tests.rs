use iptv_speed_tester::cli::{interval_in_range, parse_interval, parse_u64, Cli, SharedData};
use iptv_speed_tester::config::DEFAULT_SUB_URL;

fn cli() -> Cli {
    Cli {
        port: 3030,
        workers: 20,
        top_n: 5,
        interval: "6h".to_string(),
        url1: None,
        url2: None,
        url3: None,
        url4: None,
        url5: None,
        url6: None,
        url7: None,
        url8: None,
        url9: None,
        url10: None,
        url11: None,
        url12: None,
        url13: None,
        url14: None,
        url15: None,
        url16: None,
        url17: None,
        url18: None,
        url19: None,
        url20: None,
    }
}

#[test]
fn parse_interval_examples() {
    assert_eq!(parse_interval("6h"), 21600);
    assert_eq!(parse_interval("30m"), 1800);
    assert_eq!(parse_interval("3600s"), 3600);
    assert_eq!(parse_interval("3600"), 3600);
}

#[test]
fn parse_interval_defaults() {
    assert_eq!(parse_interval("abc"), 21600);
    assert_eq!(parse_interval("xh"), 21600);
    assert_eq!(parse_interval("xm"), 21600);
    assert_eq!(parse_interval("xs"), 21600);
    assert_eq!(parse_interval(""), 21600);
    assert_eq!(parse_interval("+5s"), 5);
    assert_eq!(parse_interval("0h"), 0);
}

#[test]
fn interval_range() {
    assert!(interval_in_range("6h"));
    assert!(interval_in_range("99999999999999999999h"));
    assert!(interval_in_range("5124095576030431h"));
    assert!(!interval_in_range("5124095576030432h"));
    assert!(!interval_in_range("18446744073709551615m"));
    assert!(interval_in_range("18446744073709551615s"));
}

#[test]
fn parse_u64_like_std() {
    for s in ["0", "+7", "-1", "18446744073709551615", "18446744073709551616", "+", "", "１", "12a", "007"] {
        assert_eq!(parse_u64(s), s.parse::<u64>().ok(), "input {:?}", s);
    }
}

#[test]
fn collect_urls_keeps_order_and_adds_default() {
    let mut c = cli();
    c.url1 = Some("a".to_string());
    c.url3 = Some("c".to_string());
    c.url20 = Some("t".to_string());
    assert_eq!(
        c.collect_urls(),
        vec!["a".to_string(), "c".to_string(), "t".to_string(), DEFAULT_SUB_URL.to_string()]
    );
}

#[test]
fn collect_urls_default_only() {
    assert_eq!(cli().collect_urls(), vec![DEFAULT_SUB_URL.to_string()]);
}

#[test]
fn shared_data_default_is_empty() {
    let d = SharedData::default();
    assert!(d.m3u8.is_empty() && d.txt.is_empty() && d.last_run.is_empty());
}
