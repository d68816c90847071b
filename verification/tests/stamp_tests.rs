use chrono::{NaiveDate, NaiveDateTime};
use iptv_speed_tester::stamp::format_timestamp;

fn chrono_text(y: i32, mo: u32, d: u32, h: u32, mi: u32, s: u32) -> String {
    let dt: NaiveDateTime = NaiveDate::from_ymd_opt(y, mo, d).unwrap().and_hms_opt(h, mi, s).unwrap();
    dt.format("%Y-%m-%d %H:%M:%S").to_string()
}

#[test]
fn timestamp_layout() {
    assert_eq!(format_timestamp(2024, 1, 5, 3, 4, 9), "2024-01-05 03:04:09");
    assert_eq!(format_timestamp(1999, 12, 31, 23, 59, 60), "1999-12-31 23:59:60");
}

#[test]
fn timestamp_years_like_chrono() {
    for (y, mo, d) in [(2024, 1, 5), (5, 2, 3), (999, 10, 10), (12345, 6, 7), (-1, 1, 1), (-12345, 3, 4), (0, 1, 1)] {
        assert_eq!(format_timestamp(y, mo, d, 7, 8, 9), chrono_text(y, mo, d, 7, 8, 9), "year {}", y);
    }
    assert_eq!(format_timestamp(-1, 1, 1, 0, 0, 0), "-0001-01-01 00:00:00");
    assert_eq!(format_timestamp(12345, 1, 1, 0, 0, 0), "+12345-01-01 00:00:00");
}
