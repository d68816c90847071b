use iptv_speed_tester::text::{str_contains, str_eq, str_replace, string_of, chars_of};

#[test]
fn replace_like_std() {
    for (s, p, r) in [("aaa", "aa", "b"), ("abcabc", "bc", ""), ("中央中央", "中央", "CCTV"), ("x", "xy", "z"), ("", "a", "b")] {
        assert_eq!(str_replace(s, p, r), s.replace(p, r));
    }
}

#[test]
fn contains_and_eq() {
    assert!(str_contains("湖南卫视", "卫视"));
    assert!(!str_contains("湖南", "卫视"));
    assert!(str_contains("abc", ""));
    assert!(str_eq("高速", "高速"));
    assert!(!str_eq("高速", "普通"));
}

#[test]
fn chars_round_trip() {
    assert_eq!(string_of(&chars_of("湖南 TV")), "湖南 TV");
}
