use facturas::decimal::{parse_decimal, fmt_decimal_micros};
use facturas::errors::{ParserError, ParserErrorType};
use facturas::fields::{
    parse, parse_currency, parse_date, parse_i32, parse_u32, Currencies, Date, ScalarKind,
    ScalarValue,
};

#[test]
fn unsigned_tokens_decode_strictly() {
    assert_eq!(parse_u32("42").unwrap(), 42);
    assert_eq!(parse_u32("+42").unwrap(), 42);
    assert_eq!(parse_u32("007").unwrap(), 7);
    assert_eq!(parse_u32("4294967295").unwrap(), u32::MAX);
    let e = parse_u32("4294967296").unwrap_err();
    assert!(matches!(e.kind, ParserErrorType::ParseInteger));
    assert_eq!(e.message, "Expected u32 found 4294967296");
    assert!(parse_u32("").is_err());
    assert!(parse_u32("-1").is_err());
    assert!(parse_u32("1 2").is_err());
    assert!(parse_u32(" 1").is_err());
}

#[test]
fn signed_tokens_decode_strictly() {
    assert_eq!(parse_i32("-5").unwrap(), -5);
    assert_eq!(parse_i32("+5").unwrap(), 5);
    assert_eq!(parse_i32("2147483647").unwrap(), i32::MAX);
    assert_eq!(parse_i32("-2147483648").unwrap(), i32::MIN);
    assert!(parse_i32("2147483648").is_err());
    assert!(parse_i32("-2147483649").is_err());
    let e = parse_i32("12a").unwrap_err();
    assert!(matches!(e.kind, ParserErrorType::ParseInteger));
    assert_eq!(e.message, "Expected i32 found 12a");
}

#[test]
fn decimal_tokens_decode_to_exact_millionths() {
    assert_eq!(parse_decimal("10.0").unwrap().micros, 10_000_000);
    assert_eq!(parse_decimal("0.1").unwrap().micros, 100_000);
    assert_eq!(parse_decimal("-1.5").unwrap().micros, -1_500_000);
    assert_eq!(parse_decimal(".5").unwrap().micros, 500_000);
    assert_eq!(parse_decimal("5.").unwrap().micros, 5_000_000);
    assert_eq!(parse_decimal("1.234567").unwrap().micros, 1_234_567);
    let e = parse_decimal("1.2345678").unwrap_err();
    assert!(matches!(e.kind, ParserErrorType::ParseFloat));
    assert_eq!(e.message, "Expected decimal found 1.2345678");
    assert!(parse_decimal("").is_err());
    assert!(parse_decimal(".").is_err());
    assert!(parse_decimal("-").is_err());
    assert!(parse_decimal("1e5").is_err());
    assert!(parse_decimal("NaN").is_err());
    assert!(parse_decimal("1.2.3").is_err());
    assert!(parse_decimal("1000000000000").is_err());
    assert_eq!(parse_decimal("999999999999.999999").unwrap().micros, 999_999_999_999_999_999);
}

#[test]
fn decimal_rendering_strips_trailing_zeros() {
    assert_eq!(fmt_decimal_micros(15_000_000), "15");
    assert_eq!(fmt_decimal_micros(10_000_000), "10");
    assert_eq!(fmt_decimal_micros(-1_500_000), "-1.5");
    assert_eq!(fmt_decimal_micros(1_234_567), "1.234567");
    assert_eq!(fmt_decimal_micros(100_000), "0.1");
    assert_eq!(fmt_decimal_micros(0), "0");
}

#[test]
fn currency_codes_are_a_closed_case_sensitive_set() {
    assert!(matches!(parse_currency("USD").unwrap(), Currencies::Usd));
    assert!(matches!(parse_currency("MXN").unwrap(), Currencies::Mxn));
    assert!(matches!(parse_currency("EUR").unwrap(), Currencies::Eur));
    let e = parse_currency("usd").unwrap_err();
    assert!(matches!(e.kind, ParserErrorType::CurrencyError));
    assert_eq!(e.message, "Expected Currency found usd");
    assert!(parse_currency("GBP").is_err());
    assert!(Currencies::from_str("EUR").is_ok());
}

#[test]
fn dates_must_be_real_calendar_days() {
    assert_eq!(parse_date("20230115").unwrap(), Date { year: 2023, month: 1, day: 15 });
    assert_eq!(parse_date("20240229").unwrap(), Date { year: 2024, month: 2, day: 29 });
    assert!(parse_date("20230229").is_err());
    assert!(parse_date("20230132").is_err());
    assert!(parse_date("20231301").is_err());
    assert!(parse_date("20230100").is_err());
    assert!(parse_date("2023011").is_err());
    assert!(parse_date("202301155").is_err());
    let e = parse_date("2023A115").unwrap_err();
    assert!(matches!(e.kind, ParserErrorType::InvalidDate));
    assert_eq!(e.message, "Expected %Y%m%d found 2023A115");
    assert_eq!(parse_date("20000229").unwrap(), Date { year: 2000, month: 2, day: 29 });
    assert!(parse_date("19000229").is_err());
}

#[test]
fn tagged_parse_dispatches_on_the_scalar_kind() {
    assert!(matches!(parse("-7", ScalarKind::Integer).unwrap(), ScalarValue::Integer(-7)));
    assert!(matches!(parse("7", ScalarKind::Unsigned).unwrap(), ScalarValue::Unsigned(7)));
    match parse("2.5", ScalarKind::Decimal).unwrap() {
        ScalarValue::Decimal(d) => assert_eq!(d.micros, 2_500_000),
        other => panic!("wrong scalar: {:?}", other),
    }
    assert!(parse("x", ScalarKind::Integer).is_err());
}

#[test]
fn error_messages_share_one_shape() {
    let e = ParserError::new(ParserErrorType::InvalidPath, "a path", "nothing");
    assert!(matches!(e.kind, ParserErrorType::InvalidPath));
    assert_eq!(e.message, "Expected a path found nothing");
}

#[test]
fn help_message_names_both_options() {
    let h = facturas::help_message();
    assert!(h.contains("-f <path>"));
    assert!(h.contains("--initial"));
}
