use filesplit::size_spec::parse_size;

#[test]
fn test_parse_size() {
    let values = [
        ("0", Some(0)),
        ("1", Some(1)),
        ("42", Some(42)),
        ("789B", Some(789)),
        ("789b", Some(789)),
        ("12KB", Some(12 * 1024)),
        ("12Kb", Some(12 * 1024)),
        ("12kB", Some(12 * 1024)),
        ("12kb", Some(12 * 1024)),
        ("144MB", Some(144 * 1024 * 1024)),
        ("144Mb", Some(144 * 1024 * 1024)),
        ("144mB", Some(144 * 1024 * 1024)),
        ("144mb", Some(144 * 1024 * 1024)),
        ("4GB", Some(4 * 1024 * 1024 * 1024)),
        ("4Gb", Some(4 * 1024 * 1024 * 1024)),
        ("4gB", Some(4 * 1024 * 1024 * 1024)),
        ("4gb", Some(4 * 1024 * 1024 * 1024)),
        ("-1", None),
        ("-51", None),
        ("4a", None),
        ("42bb", None),
        ("789AB", None),
    ];

    for (_i, val) in values.iter().enumerate() {
        assert_eq!(parse_size(val.0), val.1);
    }
}

#[test]
fn parse_size_exact_values() {
    assert_eq!(parse_size("0"), Some(0));
    assert_eq!(parse_size("789B"), Some(789));
    assert_eq!(parse_size("12KB"), Some(12288));
    assert_eq!(parse_size("144MB"), Some(150994944));
    assert_eq!(parse_size("4GB"), Some(4294967296));
}

#[test]
fn parse_size_bare_multiplier_letters() {
    assert_eq!(parse_size("12K"), Some(12288));
    assert_eq!(parse_size("12k"), Some(12288));
    assert_eq!(parse_size("3M"), Some(3 * 1024 * 1024));
    assert_eq!(parse_size("2G"), Some(2 * 1024 * 1024 * 1024));
}

#[test]
fn parse_size_rejects_missing_magnitude() {
    assert_eq!(parse_size(""), None);
    assert_eq!(parse_size("B"), None);
    assert_eq!(parse_size("b"), None);
    assert_eq!(parse_size("KB"), None);
    assert_eq!(parse_size("+1"), None);
    assert_eq!(parse_size(" 1"), None);
    assert_eq!(parse_size("1 "), None);
}

#[test]
fn parse_size_rejects_overflow() {
    assert_eq!(parse_size("18446744073709551615"), Some(u64::MAX));
    assert_eq!(parse_size("18446744073709551615B"), Some(u64::MAX));
    assert_eq!(parse_size("18446744073709551616"), None);
    assert_eq!(parse_size("99999999999999999999999"), None);
    // 2^34 gibibytes is exactly 2^64 bytes: one past the largest count.
    assert_eq!(parse_size("17179869184G"), None);
    assert_eq!(parse_size("17179869183G"), Some(17179869183 * 1024 * 1024 * 1024));
}

#[test]
fn parse_size_leading_zeroes_are_plain_digits() {
    assert_eq!(parse_size("007"), Some(7));
    assert_eq!(parse_size("00"), Some(0));
    assert_eq!(parse_size("010KB"), Some(10240));
}
