use pview::text::{decimal_string, parse_u32, parse_u64};

#[test]
fn parse_follows_std_for_unsigned_integers() {
    let cases = [
        "", "+", "-", "0", "+0", "-0", "00", "007", "+12", "++1", "1+", " 1", "1 ", "12a",
        "4294967295", "4294967296", "18446744073709551615", "18446744073709551616",
        "99999999999999999999999", "٣", "1_000",
    ];
    for s in cases {
        assert_eq!(parse_u64(s), s.parse::<u64>().ok(), "u64 {s:?}");
        assert_eq!(parse_u32(s), s.parse::<u32>().ok(), "u32 {s:?}");
    }
}

#[test]
fn decimal_rendering_matches_display() {
    for n in [0u64, 1, 9, 10, 99, 100, 12345, u32::MAX as u64, u64::MAX] {
        assert_eq!(decimal_string(n), n.to_string());
        assert_eq!(parse_u64(&decimal_string(n)), Some(n));
    }
}
