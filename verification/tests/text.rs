use vgc_netwatch::clock::{elapsed_millis, timestamp_iso, LocalTime};
use vgc_netwatch::text::{buffer_text, decimal_string, padded_string, wide_buffer_text, wide_nul};

#[test]
fn decimals() {
    for n in [0, 7, 9, 10, 99, 100, 65535, 4294967295, u64::MAX] {
        assert_eq!(decimal_string(n), format!("{}", n));
    }
}

#[test]
fn padded_decimals() {
    assert_eq!(padded_string(7, 2), "07");
    assert_eq!(padded_string(0, 3), "000");
    assert_eq!(padded_string(2026, 4), "2026");
    assert_eq!(padded_string(12345, 4), "12345");
    assert_eq!(padded_string(5, 0), "5");
    for n in [0u64, 9, 10, 99] {
        assert_eq!(padded_string(n, 2).len(), 2);
    }
}

#[test]
fn timestamps() {
    let t = LocalTime {
        year: 2026,
        month: 5,
        day: 6,
        hour: 14,
        minute: 32,
        second: 4,
        milliseconds: 12,
    };
    assert_eq!(timestamp_iso(&t), "2026-05-06 14:32:04.012");
    let e = LocalTime { year: 7, month: 12, day: 31, hour: 0, minute: 0, second: 59, milliseconds: 0 };
    assert_eq!(timestamp_iso(&e), "0007-12-31 00:00:59.000");
    assert_eq!(timestamp_iso(&e).len(), 23);
}

#[test]
fn durations() {
    assert_eq!(elapsed_millis(1_000_000, 1_821_000_000), 1820);
    assert_eq!(elapsed_millis(0, 999_999), 0);
    assert_eq!(elapsed_millis(0, 1_000_000), 1);
    assert_eq!(elapsed_millis(5_000_000, 0), 0);
    assert_eq!(elapsed_millis(0, (1u128 << 64) * 1_000_000 + 3_000_000), 3);
}

#[test]
fn byte_buffers_read_as_utf8() {
    assert_eq!(buffer_text(b"riotgames.com\0rest"), "riotgames.com");
    assert_eq!(buffer_text(b""), "");
    assert_eq!(buffer_text(b"\0"), "");
    assert_eq!(buffer_text("grüße".as_bytes()), "grüße");
    assert_eq!(buffer_text(b"a\xffb"), "a\u{FFFD}b");
}

#[test]
fn wide_buffers_read_as_utf16() {
    let mut b = [0u16; 260];
    for (i, u) in "vgc.exe".encode_utf16().enumerate() {
        b[i] = u;
    }
    assert_eq!(wide_buffer_text(&b), "vgc.exe");
    let music =
        [0xD834, 0xDD1E, 0x006d, 0x0075, 0x0073, 0xDD1E, 0x0069, 0x0063, 0xD834];
    assert_eq!(wide_buffer_text(&music), "\u{1D11E}mus\u{FFFD}ic\u{FFFD}");
    assert_eq!(wide_buffer_text(&[0xD834, 0xD834, 0xDD1E]), "\u{FFFD}\u{1D11E}");
    assert_eq!(wide_buffer_text(&[]), "");
}

#[test]
fn wide_texts_end_with_nul() {
    assert_eq!(wide_nul("1.2"), vec![49, 46, 50, 0]);
    assert_eq!(wide_nul(""), vec![0]);
    assert_eq!(wide_nul("\u{1D11E}"), vec![0xD834, 0xDD1E, 0]);
    for s in ["104.18.32.1", "fe80::1", "grüße \u{10FFFF}"] {
        let w = wide_nul(s);
        let expected: Vec<u16> = s.encode_utf16().chain(std::iter::once(0)).collect();
        assert_eq!(w, expected);
        assert_eq!(wide_buffer_text(&w), s);
    }
}
