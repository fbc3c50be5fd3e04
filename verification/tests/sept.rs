use zipng::sept::{sept, seven, DEC_MAX, HEX_MAX, HEX_PAD};

#[test]
fn test() {
    for (s, n) in [
        ("0000000", u32::MIN),
        ("0025137", 25137),
        ("0062074", 62074),
        ("1118956", 1118956),
        ("1401653", 1401653),
        ("9999997", DEC_MAX - 2),
        ("9999998", DEC_MAX - 1),
        ("9999999", DEC_MAX),
        ("A000000", DEC_MAX + 1),
        ("A000001", DEC_MAX + 2),
        ("A05810C", 10360716),
        ("H1PETBX", HEX_PAD - 2),
        ("H1PETBY", HEX_PAD - 1),
        ("H1PETBZ", HEX_PAD),
        ("H1PETC0", HEX_PAD + 1),
        ("H1PETC1", HEX_PAD + 2),
        ("H4PETBX", HEX_MAX - 2),
        ("H4PETBY", HEX_MAX - 1),
        ("H4PETBZ", HEX_MAX),
        ("H4PETC0", HEX_MAX + 1),
        ("H4PETC1", HEX_MAX + 2),
        ("MWPETBZ", u32::MAX),
    ] {
        assert_eq!(s, sept(n));
    }
}

#[test]
fn seven_reads_back_sept() {
    for n in [
        0u32,
        1,
        9,
        10,
        25137,
        DEC_MAX,
        DEC_MAX + 1,
        10360716,
        110_663_295,
        110_663_296,
        HEX_PAD,
        HEX_MAX,
        u32::MAX - 1,
        u32::MAX,
    ] {
        assert_eq!(seven(&sept(n)), n);
    }
}

#[test]
fn seven_of_known_codes() {
    assert_eq!(seven("0025137"), 25137);
    assert_eq!(seven("A05810C"), 10360716);
    assert_eq!(seven("H000000"), 110_663_296);
    assert_eq!(seven("MWPETBZ"), u32::MAX);
}

#[test]
fn sept_leading_digits_by_range() {
    assert_eq!(sept(DEC_MAX).chars().next(), Some('9'));
    assert_eq!(sept(DEC_MAX + 1).chars().next(), Some('A'));
    assert_eq!(sept(110_663_295), "FFFFFFF");
    assert_eq!(sept(110_663_296), "H000000");
    assert_eq!(sept(12345).len(), 7);
}

#[test]
fn codes_sort_like_their_numbers() {
    let numbers = [0u32, 1, 9_999_999, 10_000_000, 110_663_295, 110_663_296, 0xFFFF_FFF0, u32::MAX];
    for pair in numbers.windows(2) {
        assert!(sept(pair[0]) < sept(pair[1]), "{} {}", pair[0], pair[1]);
    }
}
