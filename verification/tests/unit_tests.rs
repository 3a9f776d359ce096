use unit_size::{err_message, Unit, UnitError};

#[test]
fn from_str() {
    assert_eq!(Unit::from_bytes(1), Unit::from_str("1B").unwrap());
    assert_eq!(Unit::from_bytes(1024), Unit::from_str("1KB").unwrap());
    assert_eq!(Unit::from_bytes(1_048_576), Unit::from_str("1MB").unwrap());
    assert_eq!(Unit::from_bytes(1_073_741_824), Unit::from_str("1GB").unwrap());
    assert_eq!(Unit::from_bytes(1_099_511_627_776), Unit::from_str("1TB").unwrap());
}

#[test]
fn from_str_negative() {
    assert_eq!(Unit::from_bytes(-1), Unit::from_str("-1B").unwrap());
    assert_eq!(Unit::from_bytes(-1024), Unit::from_str("-1KB").unwrap());
    assert_eq!(Unit::from_bytes(-1_048_576), Unit::from_str("-1MB").unwrap());
    assert_eq!(Unit::from_bytes(-1_073_741_824), Unit::from_str("-1GB").unwrap());
    assert_eq!(Unit::from_bytes(-1_099_511_627_776), Unit::from_str("-1TB").unwrap());
}

#[test]
fn to_string() {
    let size = Unit::from_str("10TB").unwrap();
    assert_eq!("10.00TB", size.to_display_string());
    let size = Unit::from_str("10GB").unwrap();
    assert_eq!("10.00GB", size.to_display_string());
    let size = Unit::from_str("10MB").unwrap();
    assert_eq!("10.00MB", size.to_display_string());
    let size = Unit::from_str("10KB").unwrap();
    assert_eq!("10.00KB", size.to_display_string());
    let size = Unit::from_str("10B").unwrap();
    assert_eq!("10B", size.to_display_string());
}

#[test]
fn to_string_negative() {
    let size = Unit::from_str("-10TB").unwrap();
    assert_eq!("-10.00TB", size.to_display_string());
    let size = Unit::from_str("-10GB").unwrap();
    assert_eq!("-10.00GB", size.to_display_string());
    let size = Unit::from_str("-10MB").unwrap();
    assert_eq!("-10.00MB", size.to_display_string());
    let size = Unit::from_str("-10KB").unwrap();
    assert_eq!("-10.00KB", size.to_display_string());
    let size = Unit::from_str("-10B").unwrap();
    assert_eq!("-10B", size.to_display_string());
}

#[test]
fn round_trip_scales() {
    assert_eq!(1024, Unit::from_kilo_bytes(1).as_bytes());
    assert_eq!(1_048_576, Unit::from_mega_bytes(1).as_bytes());
    assert_eq!(1_073_741_824, Unit::from_giga_bytes(1).as_bytes());
    assert_eq!(1_099_511_627_776, Unit::from_tera_bytes(1).as_bytes());
    assert_eq!(7, Unit::from_bytes(7).as_bytes());
}

#[test]
fn parse_correctness() {
    assert_eq!(1024, Unit::from_str("1KB").unwrap().as_bytes());
    assert_eq!(-1_099_511_627_776, Unit::from_str("-1TB").unwrap().as_bytes());
}

#[test]
fn format_correctness() {
    assert_eq!("10.00TB", Unit::from_tera_bytes(10).to_display_string());
    assert_eq!("10B", Unit::from_bytes(10).to_display_string());
    assert_eq!("-10.00GB", Unit::from_giga_bytes(-10).to_display_string());
}

#[test]
fn tier_selection_uses_absolute_value() {
    // -1.5 * 2^30 bytes must format in the GB tier, not fall through.
    assert_eq!("-1.50GB", Unit::from_bytes(-1_610_612_736).to_display_string());
    assert_eq!("1.50GB", Unit::from_bytes(1_610_612_736).to_display_string());
}

#[test]
fn invalid_inputs() {
    assert!(matches!(
        Unit::from_str("10XB"),
        Err(UnitError::InvalidFormat { .. })
    ));
    assert!(matches!(
        Unit::from_str("abc"),
        Err(UnitError::InvalidFormat { .. })
    ));
    assert!(matches!(
        Unit::from_str(""),
        Err(UnitError::InvalidFormat { .. })
    ));
}

#[test]
fn decimal_comma_normalization() {
    assert_eq!(1536, Unit::from_str("1,5KB").unwrap().as_bytes());
}

#[test]
fn quantities_order_by_value() {
    assert!(Unit::from_bytes(-1) < Unit::from_bytes(1));
    assert!(Unit::from_kilo_bytes(1) < Unit::from_mega_bytes(1));
}

#[test]
fn parse_is_from_str() {
    assert_eq!(Unit::from_str("2MB").unwrap(), Unit::parse("2MB").unwrap());
}

#[test]
fn addition() {
    assert_eq!(
        Unit::from_bytes(8),
        Unit::from_bytes(5).add(Unit::from_bytes(3))
    );
}

#[test]
fn in_place_addition_matches_addition() {
    let mut left = Unit::from_bytes(5);
    left.add_assign(Unit::from_bytes(3));
    assert_eq!(Unit::from_bytes(5).add(Unit::from_bytes(3)), left);
    assert_eq!(Unit::from_bytes(8), left);
}

#[test]
fn subtraction() {
    assert_eq!(
        Unit::from_bytes(2),
        Unit::from_bytes(5).subtract(Unit::from_bytes(3))
    );
    let mut left = Unit::from_bytes(5);
    left.sub_assign(Unit::from_bytes(3));
    assert_eq!(Unit::from_bytes(2), left);
}

#[test]
fn multiplication() {
    assert_eq!(
        Unit::from_bytes(42),
        Unit::from_bytes(6).multiply(Unit::from_bytes(7))
    );
    let mut left = Unit::from_bytes(6);
    left.mul_assign(Unit::from_bytes(7));
    assert_eq!(Unit::from_bytes(42), left);
}

#[test]
fn division() {
    assert_eq!(
        Unit::from_bytes(42),
        Unit::from_bytes(84).divide(Unit::from_bytes(2))
    );
    let mut left = Unit::from_bytes(84);
    left.div_assign(Unit::from_bytes(2));
    assert_eq!(Unit::from_bytes(42), left);
}

#[test]
fn fractional_division_is_exact_to_the_tick() {
    // 1 / 3 bytes rounds to the nearest 10^-10 of a byte ...
    let third = Unit::from_bytes(1).divide(Unit::from_bytes(3));
    // ... so tripling it lands within one tick of a byte, not at one byte.
    let back = third.multiply(Unit::from_bytes(3));
    assert_eq!(0, back.as_bytes());
    assert_eq!("1B", back.to_display_string());
}

#[test]
fn whitespace_is_trimmed() {
    assert_eq!(1024, Unit::from_str(" 1 KB ").unwrap().as_bytes());
    assert_eq!(1024, Unit::from_str("1\tKB").unwrap().as_bytes());
}

#[test]
fn fractional_bytes_truncate_in_as_bytes() {
    assert_eq!(1, Unit::from_str("1.5B").unwrap().as_bytes());
    assert_eq!(-1, Unit::from_str("-1.5B").unwrap().as_bytes());
}

#[test]
fn display_boundaries() {
    assert_eq!("1023B", Unit::from_bytes(1023).to_display_string());
    assert_eq!("1.00KB", Unit::from_bytes(1024).to_display_string());
    assert_eq!("1.50KB", Unit::from_bytes(1536).to_display_string());
    assert_eq!("0B", Unit::default().to_display_string());
}

#[test]
fn explicit_sign_and_fraction_forms_parse() {
    assert_eq!(1024, Unit::from_str("+1KB").unwrap().as_bytes());
    assert_eq!(512, Unit::from_str(".5KB").unwrap().as_bytes());
    assert_eq!(1536, Unit::from_str("1.5KB").unwrap().as_bytes());
}

#[test]
fn lowercase_and_bare_suffixes_are_rejected() {
    assert!(matches!(
        Unit::from_str("1kb"),
        Err(UnitError::InvalidFormat { .. })
    ));
    assert!(matches!(
        Unit::from_str("1"),
        Err(UnitError::InvalidFormat { .. })
    ));
    assert!(matches!(
        Unit::from_str("1.2.3KB"),
        Err(UnitError::InvalidFormat { .. })
    ));
}

#[test]
fn out_of_range_quantities_are_rejected() {
    // more than ten fractional digits survive the trailing-zero trim
    assert!(matches!(
        Unit::from_str("0.12345678901KB"),
        Err(UnitError::InvalidFormat { .. })
    ));
    // ten fractional digits are exact, and trailing zeros do not count
    assert_eq!(0, Unit::from_str("0.0000000001B").unwrap().as_bytes());
    assert_eq!(
        512,
        Unit::from_str("0.5000000000KB").unwrap().as_bytes()
    );
    // a mantissa past the representable range is refused, not wrapped
    assert!(matches!(
        Unit::from_str("99999999999999999999999999999999999999999B"),
        Err(UnitError::InvalidFormat { .. })
    ));
}

#[test]
fn error_reports_the_input() {
    let err = Unit::from_str("10XB").unwrap_err();
    let UnitError::InvalidFormat { input } = &err;
    assert_eq!("10XB", input.as_str());
    assert_eq!(
        "invalid format for unit size: 10XB. Acceptable formats are nB, nKB, nMB,nGB, nTB",
        err.message()
    );
}

#[test]
fn err_message_shape() {
    assert_eq!(
        "invalid format for unit size: x. Acceptable formats are nB, nKB, nMB,nGB, nTB",
        err_message("x")
    );
}
