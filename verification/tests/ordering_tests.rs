use iptv_speed_tester::ordering::{channel_sort_key, key_less, sort_key_from, weixi_sort_index};

fn before(a: &str, b: &str) -> bool {
    key_less(&channel_sort_key(a), &channel_sort_key(b))
}

fn tie(a: &str, b: &str) -> bool {
    !before(a, b) && !before(b, a)
}

#[test]
fn weixi_positions() {
    assert_eq!(weixi_sort_index("湖南卫视HD"), Some(0));
    assert_eq!(weixi_sort_index("东方卫视"), Some(1));
    assert_eq!(weixi_sort_index("福建东南卫视"), Some(22));
    assert_eq!(weixi_sort_index("兵团卫视"), Some(32));
    assert_eq!(weixi_sort_index("东南卫视"), None);
    assert_eq!(weixi_sort_index("CCTV1"), None);
}

#[test]
fn categories() {
    assert_eq!(channel_sort_key("CCTV1").category(), 0);
    assert_eq!(channel_sort_key("cctv1").category(), 0);
    assert_eq!(channel_sort_key("湖南卫视").category(), 1);
    assert_eq!(channel_sort_key("凤凰中文").category(), 2);
    assert_eq!(channel_sort_key("CCTV1").name(), "");
    assert_eq!(channel_sort_key("湖南卫视").name(), "湖南卫视");
}

#[test]
fn cctv_numbers_compare_numerically() {
    assert!(before("CCTV2", "CCTV10"));
    assert!(before("CCTV9", "CCTV00012"));
    assert!(before("CCTV00012", "CCTV13"));
    assert!(tie("CCTV1", "CCTV01"));
    assert!(before("CCTV17", "CCTV"));
    assert!(before("CCTV", "CCTV99999999999"));
    assert!(before("CCTV1234567890", "CCTV12345678901"));
    assert!(before("CCTV12345678901", "CCTV12345678902"));
}

#[test]
fn cctv_five_plus() {
    assert!(tie("CCTV5", "CCTV5+"));
    assert!(before("CCTV5", "CCTV 5+"));
    assert!(before("CCTV 5+", "CCTV6"));
}

#[test]
fn cctv_non_ascii_digits_count_as_999() {
    assert!(tie("CCTV١", "CCTV"));
    assert!(before("CCTV998", "CCTV١"));
    assert!(tie("CCTV999", "CCTV١"));
}

#[test]
fn categories_in_order() {
    assert!(before("CCTV", "湖南卫视"));
    assert!(before("湖南卫视", "东方卫视"));
    assert!(before("兵团卫视", "某某卫视"));
    assert!(before("A卫视", "B卫视"));
    assert!(before("某某卫视", "A台"));
    assert!(before("A台", "B台"));
    assert!(!before("B台", "B台"));
}

#[test]
fn sort_key_from_given_parts() {
    let a = sort_key_from("x", "CCTV", Some("7"));
    let b = sort_key_from("y", "CCTV", Some("10"));
    assert!(key_less(&a, &b));
    let c = sort_key_from("z", "CCTV", None);
    assert!(key_less(&b, &c));
    let d = sort_key_from("z", "CCTV 5+", None);
    assert!(key_less(&a, &c) && key_less(&d, &a));
    assert_eq!(sort_key_from("湖南卫视", "湖南卫视", None).category(), 1);
}

#[test]
fn position_halves_of_each_category() {
    assert_eq!(channel_sort_key("CCTV13").position_halves(), Some(26));
    assert_eq!(channel_sort_key("CCTV0").position_halves(), Some(0));
    assert_eq!(channel_sort_key("CCTV5+").position_halves(), Some(10));
    assert_eq!(channel_sort_key("CCTV 5+").position_halves(), Some(11));
    assert_eq!(channel_sort_key("CCTV").position_halves(), Some(1998));
    assert_eq!(channel_sort_key("CCTV١").position_halves(), Some(1998));
    assert_eq!(channel_sort_key("湖南卫视").position_halves(), Some(0));
    assert_eq!(channel_sort_key("东方卫视").position_halves(), Some(2));
    assert_eq!(channel_sort_key("某某卫视").position_halves(), Some(66));
    assert_eq!(channel_sort_key("凤凰中文").position_halves(), Some(0));
}

#[test]
fn position_halves_of_long_cctv_numbers() {
    assert_eq!(
        channel_sort_key("CCTV1000000000000000000").position_halves(),
        Some(2000000000000000000)
    );
    assert_eq!(channel_sort_key("CCTV9999999999999999999").position_halves(), None);
    assert_eq!(channel_sort_key("CCTV99999999999999999999").position_halves(), None);
}
