use discord_desktop_fixer::clean::format_bytes;
use discord_desktop_fixer::units::decimal_string;

#[test]
fn formats_bytes_readably() {
    assert_eq!(format_bytes(0), "0 B");
    assert_eq!(format_bytes(512), "512 B");
    assert_eq!(format_bytes(1024), "1.00 KB");
    assert_eq!(format_bytes(1024 * 1024 * 3 / 2), "1.50 MB");
    assert_eq!(format_bytes(1024 * 1024 * 1024), "1.00 GB");
}

/// The text that dividing the size as a double and printing it with two
/// decimals gives.
fn through_a_double(bytes: u64) -> String {
    let units = ["B", "KB", "MB", "GB", "TB"];
    let mut value = bytes as f64;
    let mut unit = 0;
    while value >= 1024.0 && unit < units.len() - 1 {
        value /= 1024.0;
        unit += 1;
    }
    if unit == 0 {
        format!("{bytes} B")
    } else {
        format!("{value:.2} {}", units[unit])
    }
}

#[test]
fn sizes_read_as_a_double_would_print_them() {
    let mut samples: Vec<u64> = vec![
        0, 1, 1023, 1024, 1025, 1152, 1153, 1536, 10239, 10240, 1048575, 1048576,
        1073741823, 1073741824, 1099511627775, 1099511627776, 1125899906842623,
        1125899906842624, 9007199254740991, 9007199254740992, 9007199254740993,
        9007199254740995, 18014398509481983, u64::MAX - 1, u64::MAX,
    ];
    let mut x: u64 = 0x9e37_79b9_7f4a_7c15;
    for _ in 0..20000 {
        x ^= x << 13;
        x ^= x >> 7;
        x ^= x << 17;
        samples.push(x >> (x % 64));
    }
    for b in samples {
        assert_eq!(format_bytes(b), through_a_double(b), "{b}");
    }
}

#[test]
fn a_tie_rounds_to_the_even_digit() {
    // 1152 bytes is exactly 1.125 KB.
    assert_eq!(format_bytes(1152), "1.12 KB");
    assert_eq!(format_bytes(1024 * 1024 * 1024 * 1024 * 2000), "2000.00 TB");
    assert_eq!(format_bytes(u64::MAX), "16777216.00 TB");
}

#[test]
fn decimals_have_no_leading_zeros() {
    assert_eq!(decimal_string(0), "0");
    assert_eq!(decimal_string(7), "7");
    assert_eq!(decimal_string(1000), "1000");
    assert_eq!(decimal_string(u64::MAX), "18446744073709551615");
}
