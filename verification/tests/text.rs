use solder_sse::text::{decimal_text, parse_u64, parse_usize, split_lines, trimmed};
use solder_sse::time::Duration;

#[test]
fn numbers_are_written_and_read_in_base_ten() {
    for n in [0u64, 9, 10, 48_211, u64::MAX] {
        assert_eq!(decimal_text(n as u128), n.to_string());
        assert_eq!(parse_u64(&n.to_string()), Some(n));
    }
    assert_eq!(decimal_text(u128::MAX), u128::MAX.to_string());
    for odd in ["", "+", "-1", " 1", "1 ", "0x1", "18446744073709551616", "++1", "١"] {
        assert_eq!(parse_u64(odd), odd.parse::<u64>().ok(), "{odd}");
    }
    for fine in ["+7", "007", "0"] {
        assert_eq!(parse_u64(fine), fine.parse::<u64>().ok(), "{fine}");
        assert_eq!(parse_usize(fine), fine.parse::<usize>().ok(), "{fine}");
    }
}

#[test]
fn white_space_is_what_unicode_says() {
    for c in (0..=0x10FFFF).filter_map(char::from_u32) {
        let padded = format!("{c}x{c}");
        assert_eq!(trimmed(&padded), padded.trim(), "{:x}", c as u32);
    }
    assert_eq!(trimmed(" \t\n"), "");
}

#[test]
fn lines_end_at_lf_cr_and_the_pair() {
    assert_eq!(split_lines("a\nb\r\nc\rd"), vec!["a", "b", "c", "d"]);
    assert_eq!(split_lines(""), vec![""]);
    assert_eq!(split_lines("\r\r\n\n"), vec!["", "", "", ""]);
}

#[test]
fn spans_agree_with_the_standard_ones() {
    for (secs, nanos) in [(0, 0), (0, 999_999_999), (3, 1), (u64::MAX, 999_999_999)] {
        let ours = Duration::new(secs, nanos);
        let std = std::time::Duration::new(secs, nanos);
        assert_eq!(ours.as_secs(), std.as_secs());
        assert_eq!(ours.subsec_nanos(), std.subsec_nanos());
        assert_eq!(ours.as_millis(), std.as_millis());
        assert_eq!(ours.as_millis_u64(), std.as_millis() as u64);
        assert_eq!(ours.is_zero(), std.is_zero());
    }
    assert_eq!(Duration::from_millis(1_500), Duration::new(1, 500_000_000));
    let last = Duration::new(u64::MAX, 999_999_999);
    assert_eq!(last.later(&Duration::from_secs(1)), last);
    assert_eq!(Duration::from_secs(1).later(&Duration::from_millis(5)), Duration::new(1, 5_000_000));
}
