use iptv_speed_tester::channel::{
    base_group, build_logo_url, build_m3u8_entry, full_group, group_from_upper, tier_label,
    tier_order, SpeedTier,
};
use iptv_speed_tester::config::LOGO_BASE_URL;

#[test]
fn tier_order_ranks_labels() {
    assert_eq!(tier_order("高速"), 0);
    assert_eq!(tier_order("普通"), 1);
    assert_eq!(tier_order("低速"), 2);
    assert_eq!(tier_order("unknown"), 2);
    assert_eq!(tier_order(""), 2);
}

#[test]
fn tier_labels() {
    assert_eq!(tier_label(SpeedTier::High), "高速");
    assert_eq!(tier_label(SpeedTier::Normal), "普通");
    assert_eq!(tier_label(SpeedTier::Low), "低速");
}

#[test]
fn tier_ranks_follow_speed() {
    let high = tier_order(tier_label(SpeedTier::High));
    let normal = tier_order(tier_label(SpeedTier::Normal));
    let low = tier_order(tier_label(SpeedTier::Low));
    assert!(high < normal && normal < low);
}

#[test]
fn base_group_of_names() {
    assert_eq!(base_group("CCTV1"), "央视");
    assert_eq!(base_group("cctv13"), "央视");
    assert_eq!(base_group("湖南卫视"), "卫视");
    assert_eq!(base_group("凤凰中文"), "其他");
    assert_eq!(base_group("央视一套"), "其他");
}

#[test]
fn group_from_upper_uses_both_forms() {
    assert_eq!(group_from_upper("cctv5", "CCTV5"), "央视");
    assert_eq!(group_from_upper("cctv5", "cctv5"), "其他");
    assert_eq!(group_from_upper("东方卫视", "东方卫视"), "卫视");
}

#[test]
fn full_group_titles() {
    assert_eq!(full_group("CCTV1", SpeedTier::High), "央视（高速）");
    assert_eq!(full_group("湖南卫视", SpeedTier::Normal), "卫视（普通）");
    assert_eq!(full_group("其它台", SpeedTier::Low), "其他（低速）");
}

#[test]
fn logo_url_encodes_space_as_percent_20() {
    assert_eq!(build_logo_url("CCTV 1"), format!("{}CCTV%201.png", LOGO_BASE_URL));
}

#[test]
fn logo_url_encodes_utf8_bytes() {
    assert_eq!(
        build_logo_url("湖南卫视"),
        format!("{}%E6%B9%96%E5%8D%97%E5%8D%AB%E8%A7%86.png", LOGO_BASE_URL)
    );
}

#[test]
fn logo_url_keeps_safe_bytes_and_escapes_plus() {
    assert_eq!(
        build_logo_url("A+B*c-d.e_f~g"),
        format!("{}A%2BB*c-d.e_f%7Eg.png", LOGO_BASE_URL)
    );
    let url = build_logo_url("a b+c");
    let name_part = &url[LOGO_BASE_URL.len()..];
    assert!(!name_part.contains('+') && !name_part.contains(' '));
}

#[test]
fn m3u8_entry_layout() {
    let e = build_m3u8_entry("CCTV1", "http://x/1.m3u8", SpeedTier::High);
    let expected = format!(
        "#EXTINF:-1 tvg-name=\"CCTV1\" tvg-logo=\"{}CCTV1.png\" group-title=\"央视（高速）\",CCTV1\nhttp://x/1.m3u8",
        LOGO_BASE_URL
    );
    assert_eq!(e, expected);
}
