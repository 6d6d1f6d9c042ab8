use repo_mirror::error::SyncError;
use repo_mirror::version::{parse_sign, white_space};

#[test]
fn reads_what_the_utility_prints() {
    assert_eq!(parse_sign(b"1\n"), Ok(1));
    assert_eq!(parse_sign(b"0\n"), Ok(0));
    assert_eq!(parse_sign(b"-1\n"), Ok(-1));
}

#[test]
fn reads_signs_and_leading_zeros() {
    assert_eq!(parse_sign(b"+7"), Ok(7));
    assert_eq!(parse_sign(b"-0"), Ok(0));
    assert_eq!(parse_sign(b"007"), Ok(7));
    assert_eq!(parse_sign(b"  \t42\r\n"), Ok(42));
    assert_eq!(parse_sign(b"-12345"), Ok(-12345));
}

#[test]
fn trims_unicode_white_space() {
    assert_eq!(parse_sign("\u{a0}5\u{3000}".as_bytes()), Ok(5));
    assert_eq!(parse_sign("\u{2003}-3\u{85}".as_bytes()), Ok(-3));
}

#[test]
fn refuses_what_is_no_number() {
    assert_eq!(parse_sign(b""), Err(SyncError::Comparator));
    assert_eq!(parse_sign(b"\n"), Err(SyncError::Comparator));
    assert_eq!(parse_sign(b"+"), Err(SyncError::Comparator));
    assert_eq!(parse_sign(b"-"), Err(SyncError::Comparator));
    assert_eq!(parse_sign(b"1 2"), Err(SyncError::Comparator));
    assert_eq!(parse_sign(b"+ 1"), Err(SyncError::Comparator));
    assert_eq!(parse_sign(b"--1"), Err(SyncError::Comparator));
    assert_eq!(parse_sign(b"1x"), Err(SyncError::Comparator));
    assert_eq!(parse_sign(b"x1"), Err(SyncError::Comparator));
    assert_eq!(parse_sign(b"1.0"), Err(SyncError::Comparator));
}

#[test]
fn refuses_bytes_that_are_no_text() {
    assert_eq!(parse_sign(b"1\xff"), Err(SyncError::Comparator));
    assert_eq!(parse_sign(b"\xc3"), Err(SyncError::Comparator));
}

#[test]
fn agrees_with_the_standard_parser_at_the_limits() {
    let max = format!("{}", isize::MAX);
    let min = format!("{}", isize::MIN);
    assert_eq!(parse_sign(max.as_bytes()), Ok(isize::MAX));
    assert_eq!(parse_sign(min.as_bytes()), Ok(isize::MIN));
    let over = format!("{}", isize::MAX as i128 + 1);
    let under = format!("{}", isize::MIN as i128 - 1);
    assert_eq!(parse_sign(over.as_bytes()), Err(SyncError::Comparator));
    assert_eq!(parse_sign(under.as_bytes()), Err(SyncError::Comparator));
    assert_eq!(
        parse_sign(b"99999999999999999999999999999999999999999999"),
        Err(SyncError::Comparator)
    );
}

#[test]
fn agrees_with_the_standard_parser_on_samples() {
    let samples = [
        "1", "-1", "0", " 3 ", "+3", "++3", "3-", "", " ", "0x10", "١", "1_000", "\t-9\n", "9\n9",
    ];
    for s in samples {
        let expected: Option<isize> = s.trim().parse().ok();
        assert_eq!(parse_sign(s.as_bytes()).ok(), expected);
    }
}

#[test]
fn white_space_is_what_the_standard_says() {
    let mut u: u32 = 0;
    while u < 0x3100 {
        if let Some(c) = char::from_u32(u) {
            assert_eq!(white_space(c), c.is_whitespace());
        }
        u += 1;
    }
}
