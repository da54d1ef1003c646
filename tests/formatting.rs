use cef_finder::disk_usage::parse_disk_usage;
use cef_finder::search::{runtime_signatures, search_pattern};
use cef_finder::size_format::format_size;

#[test]
fn format_zero() {
    assert_eq!(format_size(0), "0.00KB");
}

#[test]
fn format_one_megabyte() {
    assert_eq!(format_size(1024), "1.00MB");
}

#[test]
fn format_just_below_a_megabyte() {
    assert_eq!(format_size(1023), "1023.00KB");
}

#[test]
fn format_two_megabytes() {
    assert_eq!(format_size(2048), "2.00MB");
}

#[test]
fn format_fractions() {
    assert_eq!(format_size(1536), "1.50MB");
    assert_eq!(format_size(1234567), "1.18GB");
    assert_eq!(format_size(1025), "1.00MB");
}

#[test]
fn format_ties_round_to_even() {
    // 1152 KB is 1.125 MB, 1176 KB is 1.1484375 MB, 1160 KB is 1.1328125 MB.
    assert_eq!(format_size(1152), "1.12MB");
    assert_eq!(format_size(1176), "1.15MB");
    assert_eq!(format_size(1160), "1.13MB");
}

#[test]
fn format_rounds_up_into_next_whole() {
    // 1048575 KB is 1023.999 MB: it stays in MB and rounds to 1024.00.
    assert_eq!(format_size(1048575), "1024.00MB");
}

#[test]
fn format_stays_in_last_unit() {
    let yb: u128 = 1 << 70;
    assert_eq!(format_size(yb), "1.00YB");
    assert_eq!(format_size(yb * 1024), "1024.00YB");
    assert_eq!(format_size(u128::MAX), "288230376151711744.00YB");
}

#[test]
fn format_each_unit() {
    let units = ["KB", "MB", "GB", "TB", "PB", "EB", "ZB", "YB"];
    let mut size: u128 = 3;
    for unit in units {
        assert_eq!(format_size(size), format!("3.00{}", unit));
        size *= 1024;
    }
}

#[test]
fn parse_usual_report() {
    assert_eq!(parse_disk_usage("2048\t/opt/app1\n"), Some(2048));
}

#[test]
fn parse_leading_space_and_plus() {
    assert_eq!(parse_disk_usage("  \n 17 x"), Some(17));
    assert_eq!(parse_disk_usage("+12\t/x"), Some(12));
}

#[test]
fn parse_rejects_missing_or_bad_field() {
    assert_eq!(parse_disk_usage(""), None);
    assert_eq!(parse_disk_usage("   \n"), None);
    assert_eq!(parse_disk_usage("du: cannot access '/x'"), None);
    assert_eq!(parse_disk_usage("12a\t/x"), None);
    assert_eq!(parse_disk_usage("+\t/x"), None);
    assert_eq!(parse_disk_usage("-5\t/x"), None);
}

#[test]
fn parse_bounds_of_u128() {
    assert_eq!(
        parse_disk_usage("340282366920938463463374607431768211455\t/x"),
        Some(u128::MAX)
    );
    assert_eq!(parse_disk_usage("340282366920938463463374607431768211456\t/x"), None);
    assert_eq!(parse_disk_usage("9999999999999999999999999999999999999999999"), None);
}

#[test]
fn pattern_anchors_signature() {
    assert_eq!(search_pattern("a.bin"), "\\/a.bin$");
    assert_eq!(search_pattern("libcef\\.so"), "\\/libcef\\.so$");
}

#[test]
fn signatures_in_order() {
    assert_eq!(
        runtime_signatures(),
        vec![
            "chrome_100_percent\\.pak".to_string(),
            "chrome_crashpad_handler".to_string(),
            "chrome-sandbox".to_string(),
            "libcef\\.so".to_string(),
            "resources\\.pak".to_string(),
        ]
    );
}
