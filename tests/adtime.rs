use ldap_recon::adtime::{
    decode, decode_text, encode_offset, parse_decimal, ticks_from_unix_nanos, to_decimal,
    TimeError, TimeReference, MONTH_TICKS, TICKS_PER_DAY, WEEK_TICKS, YEAR_TICKS,
};

#[test]
fn decode_zero_is_never_set() {
    assert_eq!(decode(0).unwrap(), "0000-00-00 00:00:00");
    assert_eq!(decode(0).unwrap(), decode(0).unwrap());
}

#[test]
fn decode_new_year_2021() {
    assert_eq!(decode(132_539_328_000_000_000).unwrap(), "2021-01-01 00:00:00");
}

#[test]
fn decode_keeps_sub_second_ticks_out() {
    assert_eq!(decode(132_539_328_009_999_999).unwrap(), "2021-01-01 00:00:00");
    assert_eq!(decode(132_539_328_010_000_000).unwrap(), "2021-01-01 00:00:01");
}

#[test]
fn decode_epoch_start_and_unix_epoch() {
    assert_eq!(decode(1).unwrap(), "1601-01-01 00:00:00");
    assert_eq!(decode(116_444_736_000_000_000).unwrap(), "1970-01-01 00:00:00");
}

#[test]
fn decode_largest_u64_tick_count() {
    assert!(decode(u64::MAX as u128).is_ok());
    assert!(decode(1u128 << 63).is_ok());
}

#[test]
fn decode_out_of_range_is_parse_error() {
    assert_eq!(decode(u128::MAX), Err(TimeError::Parse));
}

#[test]
fn decode_text_reads_decimal() {
    assert_eq!(decode_text("132539328000000000").unwrap(), "2021-01-01 00:00:00");
    assert_eq!(decode_text("0").unwrap(), "0000-00-00 00:00:00");
    assert_eq!(decode_text("abc"), Err(TimeError::Parse));
    assert_eq!(decode_text(""), Err(TimeError::Parse));
    assert_eq!(decode_text("-5"), Err(TimeError::Parse));
}

#[test]
fn parse_decimal_limits() {
    assert_eq!(parse_decimal("0"), Some(0));
    assert_eq!(parse_decimal("00042"), Some(42));
    assert_eq!(parse_decimal("340282366920938463463374607431768211455"), Some(u128::MAX));
    assert_eq!(parse_decimal("340282366920938463463374607431768211456"), None);
    assert_eq!(parse_decimal("12a"), None);
    assert_eq!(parse_decimal(" 1"), None);
}

#[test]
fn encode_offset_values() {
    assert_eq!(encode_offset(100, 30), Ok(70));
    assert_eq!(encode_offset(100, 100), Ok(0));
    assert_eq!(encode_offset(100, 101), Err(TimeError::Range));
}

#[test]
fn encode_offset_decreases_with_longer_look_back() {
    let now: u128 = 132_539_328_000_000_000;
    let week = encode_offset(now, WEEK_TICKS).unwrap();
    let month = encode_offset(now, MONTH_TICKS).unwrap();
    let year = encode_offset(now, YEAR_TICKS).unwrap();
    assert!(year < month && month < week && week < now);
}

#[test]
fn time_reference_at() {
    let now: u128 = 132_539_328_000_000_000;
    let t = TimeReference::at(now).unwrap();
    assert_eq!(t.now, now);
    assert_eq!(t.one_year_ago, now - 365 * TICKS_PER_DAY);
    assert_eq!(t.thirty_days_ago, now - 30 * TICKS_PER_DAY);
    assert_eq!(t.seven_days_ago, now - 7 * TICKS_PER_DAY);
    assert_eq!(t.one_year_ago, 132_223_968_000_000_000);
    assert_eq!(TimeReference::at(YEAR_TICKS - 1), Err(TimeError::Range));
}

#[test]
fn unix_nanos_to_ticks() {
    assert_eq!(ticks_from_unix_nanos(0), 116_444_736_000_000_000);
    assert_eq!(ticks_from_unix_nanos(1_609_459_200_000_000_099), 132_539_328_000_000_000);
    assert_eq!(ticks_from_unix_nanos(u128::MAX), u128::MAX / 100 + 116_444_736_000_000_000);
}

#[test]
fn decimal_text() {
    assert_eq!(to_decimal(0), "0");
    assert_eq!(to_decimal(7), "7");
    assert_eq!(to_decimal(1234567890), "1234567890");
    assert_eq!(to_decimal(u128::MAX), "340282366920938463463374607431768211455");
}
