use quackin::records::{parse_id, parse_rating, parse_rating_row, parse_record, Field, ReadError, ReadOptions};

#[test]
fn default_options_columns() {
    let o = ReadOptions::default();
    assert_eq!(Ok((0, 1, 2)), o.columns());
    assert!(!o.has_headers());
    assert_eq!(',', o.delimiter());
}

#[test]
fn custom_options_columns() {
    let o = ReadOptions::custom(vec![Field::ItemID, Field::UserID, Field::Other, Field::Rating], true, ' ');
    assert_eq!(Ok((1, 0, 3)), o.columns());
    assert!(o.has_headers());
    assert_eq!(' ', o.delimiter());
}

#[test]
fn repeated_field_takes_last_column() {
    let o = ReadOptions::custom(vec![Field::UserID, Field::UserID, Field::ItemID, Field::Rating], false, ',');
    assert_eq!(Ok((1, 2, 3)), o.columns());
}

#[test]
fn missing_field_is_inconsistent() {
    let o = ReadOptions::custom(vec![Field::UserID, Field::Other, Field::Rating], false, ',');
    assert_eq!(Err(ReadError::InconsistentFields), o.columns());
    let empty = ReadOptions::custom(vec![], false, ',');
    assert_eq!(Err(ReadError::InconsistentFields), empty.columns());
}

#[test]
fn parse_rating_accepts_decimals() {
    assert_eq!(Some(400), parse_rating("4"));
    assert_eq!(Some(-350), parse_rating("-3.5"));
    assert_eq!(Some(25), parse_rating("0.25"));
    assert_eq!(Some(1250), parse_rating("00012.5"));
    assert_eq!(Some(32767), parse_rating("327.67"));
    assert_eq!(Some(-32768), parse_rating("-327.68"));
    assert_eq!(Some(0), parse_rating("-0"));
}

#[test]
fn parse_rating_rejects_other_text() {
    assert_eq!(None, parse_rating("327.68"));
    assert_eq!(None, parse_rating("-327.69"));
    assert_eq!(None, parse_rating("99999999999999999999"));
    assert_eq!(None, parse_rating(""));
    assert_eq!(None, parse_rating("-"));
    assert_eq!(None, parse_rating("abc"));
    assert_eq!(None, parse_rating("1."));
    assert_eq!(None, parse_rating(".5"));
    assert_eq!(None, parse_rating("1.234"));
    assert_eq!(None, parse_rating("1.x"));
    assert_eq!(None, parse_rating("1.2x"));
    assert_eq!(None, parse_rating("+1"));
    assert_eq!(None, parse_rating(" 1"));
}

#[test]
fn parse_record_takes_columns() {
    let row = vec!["i_7".to_string(), "u_3".to_string(), "x".to_string(), "4.5".to_string()];
    assert_eq!(Ok(("u_3".to_string(), "i_7".to_string(), 450)), parse_record(&row, (1, 0, 3)));
    assert_eq!(Err(ReadError::MissingColumn), parse_record(&row, (1, 0, 4)));
    assert_eq!(Err(ReadError::BadRating), parse_record(&row, (1, 0, 2)));
}

#[test]
fn parse_id_values() {
    assert_eq!(Some(0), parse_id("0"));
    assert_eq!(Some(42), parse_id("042"));
    assert_eq!(Some(4294967295), parse_id("4294967295"));
    assert_eq!(None, parse_id("4294967296"));
    assert_eq!(None, parse_id("123456789012345678901234567890"));
    assert_eq!(None, parse_id(""));
    assert_eq!(None, parse_id("-1"));
    assert_eq!(None, parse_id("12a"));
}

#[test]
fn parse_rating_row_values() {
    let row = vec!["7".to_string(), "12".to_string(), "3.5".to_string()];
    assert_eq!(Ok((7, 12, 350)), parse_rating_row(&row, (0, 1, 2)));
    assert_eq!(Ok((12, 7, 350)), parse_rating_row(&row, (1, 0, 2)));
    assert_eq!(Err(ReadError::MissingColumn), parse_rating_row(&row, (0, 1, 3)));
    let bad_id = vec!["u7".to_string(), "12".to_string(), "3.5".to_string()];
    assert_eq!(Err(ReadError::BadId), parse_rating_row(&bad_id, (0, 1, 2)));
    let bad_rating = vec!["7".to_string(), "12".to_string(), "high".to_string()];
    assert_eq!(Err(ReadError::BadRating), parse_rating_row(&bad_rating, (0, 1, 2)));
}
