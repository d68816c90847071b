use iptv_speed_tester::naming::{
    clean_channel_name, key_from_upper, map_to_standard_name, normal_key, pre_clean,
    resolve_alias, split_lines, standard_channel_map, StandardMap,
};

#[test]
fn clean_removes_quality_words_and_punctuation() {
    assert_eq!(clean_channel_name("cctv-1 高清"), "CCTV1");
    assert_eq!(clean_channel_name("湖南卫视HD"), "湖南卫视");
    assert_eq!(clean_channel_name("(东方卫视)超高"), "东方卫视");
}

#[test]
fn clean_rewrites_station_suffix() {
    assert_eq!(clean_channel_name("中央5台"), "CCTV5");
    assert_eq!(clean_channel_name("CCTV12台"), "CCTV12");
}

#[test]
fn clean_maps_aliases() {
    assert_eq!(clean_channel_name("CCTV5+体育赛事"), "CCTV5+");
    assert_eq!(clean_channel_name("CCTV-5PLUS"), "CCTV5+");
    assert_eq!(clean_channel_name("CCTV＋"), "CCTV+");
    assert_eq!(clean_channel_name("CCTV01"), "CCTV1");
    assert_eq!(clean_channel_name("CCTV-1综合"), "CCTV1");
    assert_eq!(clean_channel_name("央视新闻频道"), "CCTV13");
}

#[test]
fn pre_clean_without_regex() {
    assert_eq!(pre_clean("中央5台"), "CCTV5台");
    assert_eq!(pre_clean("CCTV 5 PLUS"), "CCTV5+");
}

#[test]
fn resolve_alias_table() {
    assert_eq!(resolve_alias("CCTV4欧洲"), "CCTV4");
    assert_eq!(resolve_alias("CCTV新闻"), "CCTV13");
    assert_eq!(resolve_alias("CCTV09"), "CCTV9");
    assert_eq!(resolve_alias("foo"), "foo");
}

#[test]
fn normal_key_upper_without_dashes_and_spaces() {
    assert_eq!(normal_key("cctv-1 hd"), "CCTV1HD");
    assert_eq!(normal_key("ab"), "AB");
    assert_eq!(key_from_upper("A-B C"), "ABC");
}

#[test]
fn split_lines_like_std() {
    assert_eq!(split_lines("a\r\nb\n"), vec!["a".to_string(), "b".to_string()]);
    assert_eq!(split_lines("a\r"), vec!["a\r".to_string()]);
    assert_eq!(split_lines(""), Vec::<String>::new());
    assert_eq!(split_lines("\n\nx"), vec!["".to_string(), "".to_string(), "x".to_string()]);
    let text = "one\ntwo\r\n\nthree";
    let expected: Vec<String> = text.lines().map(|l| l.to_string()).collect();
    assert_eq!(split_lines(text), expected);
}

#[test]
fn standard_map_from_list() {
    let m = standard_channel_map("CCTV-1\n  湖南卫视  \r\n\n");
    assert_eq!(m.len(), 2);
    assert_eq!(m.get("CCTV1").map(|s| s.as_str()), Some("CCTV-1"));
    assert_eq!(m.get("湖南卫视").map(|s| s.as_str()), Some("湖南卫视"));
    assert_eq!(map_to_standard_name("cctv 1", &m), "CCTV-1");
    assert_eq!(map_to_standard_name("湖南卫视", &m), "湖南卫视");
    assert_eq!(map_to_standard_name("unknown", &m), "unknown");
}

#[test]
fn standard_map_later_line_wins() {
    let m = standard_channel_map("cctv 1\nCCTV-1");
    assert_eq!(m.len(), 1);
    assert_eq!(map_to_standard_name("CCTV1", &m), "CCTV-1");
}

#[test]
fn standard_map_insert_get() {
    let mut m = StandardMap::new();
    assert_eq!(m.len(), 0);
    assert!(m.get("A").is_none());
    m.insert("A".to_string(), "x".to_string());
    m.insert("B".to_string(), "y".to_string());
    m.insert("A".to_string(), "z".to_string());
    assert_eq!(m.len(), 2);
    assert_eq!(m.get("A").map(|s| s.as_str()), Some("z"));
    assert_eq!(m.get("B").map(|s| s.as_str()), Some("y"));
}

#[test]
fn add_standard_name_uses_given_upper_form() {
    let mut m = StandardMap::new();
    m.add_standard_name("cctv-1", "CCTV-1");
    m.add_standard_name("", "");
    assert_eq!(m.len(), 1);
    assert_eq!(m.get("CCTV1").map(|s| s.as_str()), Some("cctv-1"));
}

#[test]
fn clean_keeps_clean_names_and_drops_punctuation() {
    assert_eq!(clean_channel_name("湖南卫视"), "湖南卫视");
    assert_eq!(clean_channel_name("CCTV5+"), "CCTV5+");
    for name in ["CCTV (1)-x", "a - b", "((x))", "cctv-5 高清"] {
        let c = clean_channel_name(name);
        assert!(!c.contains('-') && !c.contains(' ') && !c.contains('(') && !c.contains(')'), "{}", c);
    }
}

#[test]
fn key_ignores_dashes_and_spaces() {
    assert_eq!(key_from_upper("CCTV-1"), key_from_upper("CCTV1"));
    assert_eq!(key_from_upper(" C-C TV 1 "), key_from_upper("CCTV1"));
    assert_eq!(normal_key("cctv - 1"), normal_key("cctv1"));
}

#[test]
fn clean_turns_full_width_plus_into_plus() {
    assert_eq!(clean_channel_name("CCTV＋"), "CCTV+");
    assert_eq!(clean_channel_name("CCTV5＋体育"), "CCTV5+");
    for name in ["＋", "a＋b＋c", "CCTV5＋ 高清", "＋台"] {
        assert!(!clean_channel_name(name).contains('＋'), "{}", name);
    }
}

#[test]
fn clean_keeps_station_names_without_cctv_number() {
    assert_eq!(clean_channel_name("北京台"), "北京台");
    assert_eq!(clean_channel_name("湖南台"), "湖南台");
    assert_eq!(clean_channel_name("CCTV台"), "CCTV台");
    assert_eq!(clean_channel_name("CCTV5台"), "CCTV5");
}
