use dedoop::format::{
    cyan_bold, decimal_text, dim, format_bytes, green, pad_left, right_aligned, timestamp, yellow,
    zero_padded,
};
use dedoop::path::FilePath;
use dedoop::report::path_text;
use dedoop::scan::{enters, is_hidden};
use dedoop::text::is_trimmed_char;

fn by_floats(n: u64) -> String {
    let units = ["B", "KiB", "MiB", "GiB", "TiB", "PiB"];
    let mut v = n as f64;
    for unit in units {
        if v < 1024.0 {
            return format!("{v:.2} {unit}");
        }
        v /= 1024.0;
    }
    format!("{v:.2} EiB")
}

#[test]
fn sizes_have_exact_texts() {
    assert_eq!(format_bytes(0), "0.00 B");
    assert_eq!(format_bytes(1), "1.00 B");
    assert_eq!(format_bytes(1023), "1023.00 B");
    assert_eq!(format_bytes(1024), "1.00 KiB");
    assert_eq!(format_bytes(1152), "1.12 KiB");
    assert_eq!(format_bytes(1408), "1.38 KiB");
    assert_eq!(format_bytes(1536), "1.50 KiB");
    assert_eq!(format_bytes(1048575), "1024.00 KiB");
    assert_eq!(format_bytes(1048576), "1.00 MiB");
    assert_eq!(format_bytes(1 << 60), "1.00 EiB");
    assert_eq!(format_bytes(u64::MAX), "16.00 EiB");
}

#[test]
fn sizes_agree_with_floating_point() {
    let mut values: Vec<u64> = (0..5000).collect();
    for shift in 0..64u32 {
        let power = 1u64 << shift;
        for step in 0..40u64 {
            values.push(power.wrapping_add(step));
            values.push(power.wrapping_sub(step));
            values.push(power.wrapping_add(power / 1000 * step));
            values.push(power.wrapping_add(power / 8 * (step % 8)));
            values.push(power.wrapping_add(power / 2).wrapping_sub(step));
        }
    }
    let mut x: u64 = 0x9E37_79B9_7F4A_7C15;
    for i in 0..20000u32 {
        x ^= x << 13;
        x ^= x >> 7;
        x ^= x << 17;
        values.push(x >> (i % 64));
    }
    for n in values {
        assert_eq!(format_bytes(n), by_floats(n), "{n}");
    }
}

#[test]
fn numbers_are_decimal() {
    for n in [0u64, 7, 10, 99, 100, 1234567890, u64::MAX] {
        assert_eq!(decimal_text(n), format!("{n}"));
        assert_eq!(zero_padded(n, 4), format!("{n:04}"));
        assert_eq!(right_aligned(&format!("{n}"), 10), format!("{n:>10}"));
    }
    assert_eq!(pad_left("", 5, "="), "=====");
    assert_eq!(pad_left("abc", 2, "="), "abc");
}

#[test]
fn times_of_day_wrap_around() {
    assert_eq!(timestamp(0), "00:00:00");
    assert_eq!(timestamp(59), "00:00:59");
    assert_eq!(timestamp(3661), "01:01:01");
    assert_eq!(timestamp(86399), "23:59:59");
    assert_eq!(timestamp(86400), "00:00:00");
    assert_eq!(timestamp(1_700_000_000), "22:13:20");
}

#[test]
fn colours_are_for_terminals() {
    assert_eq!(dim("x", true), "\x1b[90mx\x1b[0m");
    assert_eq!(green("x", true), "\x1b[92mx\x1b[0m");
    assert_eq!(yellow("x", true), "\x1b[93mx\x1b[0m");
    assert_eq!(cyan_bold("x", true), "\x1b[1;96mx\x1b[0m");
    assert_eq!(dim("x", false), "x");
    assert_eq!(green("x", false), "x");
    assert_eq!(yellow("x", false), "x");
    assert_eq!(cyan_bold("x", false), "x");
}

#[test]
fn white_space_is_that_of_std() {
    for n in 0..0x11_0000u32 {
        if let Some(c) = char::from_u32(n) {
            let text = format!("{c}1{c}");
            assert_eq!(is_trimmed_char(&text, '1'), text.trim() == "1", "{n:x}");
        }
    }
    for text in ["1", "1\n", " 1 ", "11", "0", "", " ", "1 1", "1x", "x1"] {
        assert_eq!(is_trimmed_char(text, '1'), text.trim() == "1", "{text:?}");
    }
}

#[test]
fn what_is_no_text_is_replaced() {
    let odd = FilePath { bytes: vec![b'a', 0xff, b'b'] };
    assert_eq!(path_text(&odd), "a\u{fffd}b");
    let plain = FilePath { bytes: "/tmp/ä…".as_bytes().to_vec() };
    assert_eq!(path_text(&plain), "/tmp/ä…");
}

#[test]
fn hidden_names_begin_with_a_full_stop() {
    let path = |bytes: &[u8]| FilePath { bytes: bytes.to_vec() };
    assert!(is_hidden(&path(b"/a/.git")));
    assert!(!is_hidden(&path(b"/.a/git")));
    assert!(is_hidden(&path(&[b'/', b'.', 0xff])));
    assert!(!is_hidden(&path(&[b'/', 0xff, b'.'])));
    assert!(!is_hidden(&path(b"/a/..")));
    assert!(!enters(b".git", true));
    assert!(enters(b".git", false));
    assert!(enters(b"git", true));
    assert!(enters(b"\xff.txt", true));
    assert!(!enters(&[b'.', 0xff], true));
    assert!(enters(&[b'.', 0xff], false));
}
