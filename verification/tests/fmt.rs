//! Numbers and names in words.

use dd_gui::fmt::{block_size, bytes, duration, fs_name};

#[test]
fn file_systems() {
    assert_eq!(fs_name("vfat"), "FAT");
    assert_eq!(fs_name("crypto_LUKS"), "LUKS");
    assert_eq!(fs_name("hfsplus"), "HFS+");
    assert_eq!(fs_name("ext4"), "ext4");
    assert_eq!(fs_name("something_new"), "something_new");
}

#[test]
fn sizes() {
    assert_eq!(bytes(512), "512 B");
    assert_eq!(bytes(5_910_000_000), "5.91 GB");
    assert_eq!(bytes(31_914_983_424), "31.9 GB");
    assert_eq!(bytes(256_060_514_304), "256 GB");
    assert_eq!(bytes(999_999), "1.00 MB");
    assert_eq!(block_size(4 << 20), "4M");
    assert_eq!(block_size(512 << 10), "512K");
    assert_eq!(block_size(1000), "1000");
    assert_eq!(duration(42_000_000_000), "42s");
    assert_eq!(duration(78_000_000_000), "1m 18s");
    assert_eq!(duration(3_900_000_000_000), "1h 05m");
}

#[test]
fn edges_of_amounts_and_durations() {
    assert_eq!(bytes(0), "0 B");
    assert_eq!(bytes(999), "999 B");
    assert_eq!(bytes(1000), "1.00 kB");
    assert_eq!(block_size(3 << 30), "3G");
    assert_eq!(block_size(0), "0");
    assert_eq!(duration(0), "0s");
    assert_eq!(duration(1), "<1s");
    assert_eq!(duration(499_999_999), "<1s");
    assert_eq!(duration(500_000_000), "1s");
    assert_eq!(duration(59_499_999_999), "59s");
    assert_eq!(duration(59_500_000_000), "1m 00s");
}

/// What floating point makes of the same numbers.
fn by_floats(n: u64) -> String {
    if n < 1000 {
        return format!("{n} B");
    }
    let mut v = n as f64;
    let mut unit = "B";
    for next in ["kB", "MB", "GB", "TB", "PB"] {
        if v < 999.5 {
            break;
        }
        v /= 1000.0;
        unit = next;
    }
    let digits = if v < 9.995 {
        2
    } else if v < 99.95 {
        1
    } else {
        0
    };
    format!("{v:.digits$} {unit}")
}

#[test]
fn amounts_are_rounded_as_floats_are() {
    let mut n: u64 = 1;
    for i in 0..60_000u64 {
        n = n.wrapping_mul(6_364_136_223_846_793_005).wrapping_add(1_442_695_040_888_963_407);
        let v = n >> (i % 64);
        assert_eq!(bytes(v), by_floats(v), "for {v}");
    }
    for v in [9_994, 9_995, 9_996, 99_949, 99_950, 99_951, 999_499, 999_500, 999_501, u64::MAX] {
        assert_eq!(bytes(v), by_floats(v), "for {v}");
    }
}
