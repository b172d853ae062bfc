use wallpaper::resolution::{ParseError, Resolution};

#[test]
fn parse_whole_name() {
    assert_eq!(Resolution::new("1920x1080"), Ok(Resolution { width: 1920, height: 1080 }));
}

#[test]
fn parse_substring_of_name() {
    assert_eq!(Resolution::new("foo_800x600_bar"), Ok(Resolution { width: 800, height: 600 }));
}

#[test]
fn parse_without_pattern() {
    assert_eq!(Resolution::new("nopattern"), Err(ParseError::NoResolutionPattern));
}

#[test]
fn parse_full_path() {
    assert_eq!(
        Resolution::new("/srv/wallpapers/2560x1440"),
        Ok(Resolution { width: 2560, height: 1440 })
    );
}

#[test]
fn parse_takes_first_match() {
    assert_eq!(Resolution::new("a12b34x56x78"), Ok(Resolution { width: 34, height: 56 }));
    assert_eq!(Resolution::new("1x2 3x4"), Ok(Resolution { width: 1, height: 2 }));
}

#[test]
fn parse_skips_incomplete_candidates() {
    assert_eq!(Resolution::new("12x_3x4"), Ok(Resolution { width: 3, height: 4 }));
    assert_eq!(Resolution::new("x100"), Err(ParseError::NoResolutionPattern));
    assert_eq!(Resolution::new("100x"), Err(ParseError::NoResolutionPattern));
    assert_eq!(Resolution::new("100X200"), Err(ParseError::NoResolutionPattern));
    assert_eq!(Resolution::new(""), Err(ParseError::NoResolutionPattern));
}

#[test]
fn parse_zero_and_leading_zeros() {
    assert_eq!(Resolution::new("0x007"), Ok(Resolution { width: 0, height: 7 }));
}

#[test]
fn parse_largest_values() {
    assert_eq!(
        Resolution::new("18446744073709551615x18446744073709551615"),
        Ok(Resolution { width: u64::MAX, height: u64::MAX })
    );
}

#[test]
fn parse_width_overflow() {
    assert_eq!(Resolution::new("18446744073709551616x1"), Err(ParseError::IntegerOverflow));
}

#[test]
fn parse_height_overflow() {
    assert_eq!(
        Resolution::new("dir_1x999999999999999999999_end"),
        Err(ParseError::IntegerOverflow)
    );
}

#[test]
fn parse_non_ascii_around_match() {
    assert_eq!(Resolution::new("é_640x480_ü"), Ok(Resolution { width: 640, height: 480 }));
}
