use iptv_speed_tester::channel::SpeedTier;
use iptv_speed_tester::output::{build_playlists, distinct_channel_names, join, Entry};

fn entry(name: &str, url: &str, tier: SpeedTier, index: usize, content: &str) -> Entry {
    Entry {
        name: name.to_string(),
        url: url.to_string(),
        tier,
        index,
        content: content.to_string(),
    }
}

#[test]
fn playlists_group_sort_and_dedup() {
    let entries = vec![
        entry("湖南卫视", "u1", SpeedTier::Normal, 0, "C0"),
        entry("CCTV1", "u2", SpeedTier::High, 1, "C1"),
        entry("湖南卫视", "u3", SpeedTier::High, 2, "C2"),
        entry("湖南卫视", "u1", SpeedTier::High, 3, "C3"),
        entry("其它台", "u4", SpeedTier::Low, 4, "C4"),
    ];
    let (m3u8, txt) = build_playlists(&entries, "2024-01-01 00:00:00");
    assert_eq!(
        m3u8,
        "#EXTM3U x-tvg-url=\"https://epg.zsdc.eu.org/t.xml\"\n#EXT-X-UPDATED: 2024-01-01 00:00:00\nC1\nC2\nC0\nC4\n#EXTINF:-1 group-title=\"更新时间\",更新时间: 2024-01-01 00:00:00\nhttp://127.0.0.1/"
    );
    assert_eq!(
        txt,
        "央视（高速）,#genre#\nCCTV1,u2\n\n卫视（高速）,#genre#\n湖南卫视,u3\n\n卫视（普通）,#genre#\n湖南卫视,u1\n\n其他（低速）,#genre#\n其它台,u4\n\n更新时间,#genre#\n更新时间: 2024-01-01 00:00:00,http://127.0.0.1/"
    );
}

#[test]
fn playlists_of_nothing() {
    let (m3u8, txt) = build_playlists(&Vec::new(), "T");
    assert_eq!(
        m3u8,
        "#EXTM3U x-tvg-url=\"https://epg.zsdc.eu.org/t.xml\"\n#EXT-X-UPDATED: T\n#EXTINF:-1 group-title=\"更新时间\",更新时间: T\nhttp://127.0.0.1/"
    );
    assert_eq!(txt, "更新时间,#genre#\n更新时间: T,http://127.0.0.1/");
}

#[test]
fn entries_sorted_by_tier_then_index() {
    let entries = vec![
        entry("CCTV2", "a", SpeedTier::Low, 5, "L5"),
        entry("CCTV2", "b", SpeedTier::High, 9, "H9"),
        entry("CCTV2", "c", SpeedTier::High, 3, "H3"),
        entry("CCTV2", "d", SpeedTier::Normal, 1, "N1"),
        entry("CCTV10", "e", SpeedTier::High, 0, "X"),
    ];
    let (m3u8, _) = build_playlists(&entries, "T");
    let body: Vec<&str> = m3u8.split('\n').skip(2).take(5).collect();
    assert_eq!(body, vec!["H3", "H9", "N1", "L5", "X"]);
}

#[test]
fn equal_keys_keep_first_appearance() {
    let entries = vec![
        entry("CCTV1综合", "a", SpeedTier::High, 0, "A"),
        entry("CCTV1", "b", SpeedTier::High, 1, "B"),
    ];
    let (m3u8, _) = build_playlists(&entries, "T");
    let body: Vec<&str> = m3u8.split('\n').skip(2).take(2).collect();
    assert_eq!(body, vec!["A", "B"]);
}

#[test]
fn join_lines() {
    assert_eq!(join(&vec![]), "");
    assert_eq!(join(&vec!["a".to_string()]), "a");
    assert_eq!(join(&vec!["a".to_string(), "".to_string(), "b".to_string()]), "a\n\nb");
}

#[test]
fn distinct_names_in_first_appearance_order() {
    let entries = vec![
        entry("B", "1", SpeedTier::High, 0, ""),
        entry("A", "2", SpeedTier::High, 1, ""),
        entry("B", "3", SpeedTier::Low, 2, ""),
    ];
    assert_eq!(distinct_channel_names(&entries), vec!["B".to_string(), "A".to_string()]);
}

#[test]
fn every_stream_is_listed() {
    let entries = vec![
        entry("东方卫视", "s1", SpeedTier::Low, 0, "E0"),
        entry("CCTV13", "s2", SpeedTier::Normal, 1, "E1"),
        entry("东方卫视", "s1", SpeedTier::High, 2, "E2"),
        entry("凤凰中文", "s3", SpeedTier::High, 3, "E3"),
        entry("CCTV13", "s4", SpeedTier::Low, 4, "E4"),
    ];
    let (m3u8, txt) = build_playlists(&entries, "T");
    let m3u8_lines: Vec<&str> = m3u8.split('\n').collect();
    let txt_lines: Vec<&str> = txt.split('\n').collect();
    for e in &entries {
        let line = format!("{},{}", e.name, e.url);
        assert!(txt_lines.contains(&line.as_str()), "missing {}", line);
        assert!(entries
            .iter()
            .any(|k| k.name == e.name && k.url == e.url && m3u8_lines.contains(&k.content.as_str())));
    }
    assert!(!m3u8_lines.contains(&"E2"));
    assert_eq!(txt_lines.iter().filter(|l| **l == "东方卫视,s1").count(), 1);
}

#[test]
fn first_entry_of_each_pair_kept_in_order() {
    let entries = vec![
        entry("CCTV1", "a", SpeedTier::High, 7, "first-a"),
        entry("CCTV1", "b", SpeedTier::High, 7, "first-b"),
        entry("CCTV1", "a", SpeedTier::High, 1, "second-a"),
        entry("CCTV1", "c", SpeedTier::High, 7, "first-c"),
    ];
    let (m3u8, _) = build_playlists(&entries, "T");
    let body: Vec<&str> = m3u8.split('\n').skip(2).take(3).collect();
    assert_eq!(body, vec!["first-a", "first-b", "first-c"]);
}
