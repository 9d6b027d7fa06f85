use text_histogram::decimal::power_of_ten;
use text_histogram::decimal::Decimal;
use text_histogram::text::parse_decimal;
use text_histogram::text::read_samples;

fn parse(text: &str) -> Option<Decimal> {
    parse_decimal(text.as_bytes(), 0, text.len())
}

#[test]
fn plain_numbers_are_read() {
    assert_eq!(parse("0"), Some(Decimal { mantissa: 0, scale: 0 }));
    assert_eq!(parse("42"), Some(Decimal { mantissa: 42, scale: 0 }));
    assert_eq!(parse("-42"), Some(Decimal { mantissa: -42, scale: 0 }));
    assert_eq!(parse("+42"), Some(Decimal { mantissa: 42, scale: 0 }));
    assert_eq!(parse("3.14"), Some(Decimal { mantissa: 314, scale: 2 }));
    assert_eq!(parse("-0.5"), Some(Decimal { mantissa: -5, scale: 1 }));
    assert_eq!(parse("1.0"), Some(Decimal { mantissa: 10, scale: 1 }));
    assert_eq!(parse("007"), Some(Decimal { mantissa: 7, scale: 0 }));
}

#[test]
fn a_dot_may_stand_first_or_last() {
    assert_eq!(parse(".5"), Some(Decimal { mantissa: 5, scale: 1 }));
    assert_eq!(parse("5."), Some(Decimal { mantissa: 5, scale: 0 }));
    assert_eq!(parse("-.25"), Some(Decimal { mantissa: -25, scale: 2 }));
}

#[test]
fn what_is_no_number_is_refused() {
    for text in ["", "+", "-", ".", "-.", "1.2.3", "1,5", " 1", "1 ", "abc", "NaN", "inf", "--1", "1-", "0x10"] {
        assert_eq!(parse(text), None, "{:?}", text);
    }
}

#[test]
fn an_exponent_shifts_the_digits() {
    assert_eq!(parse("1e3"), Some(Decimal { mantissa: 1000, scale: 0 }));
    assert_eq!(parse("1.5e1"), Some(Decimal { mantissa: 15, scale: 0 }));
    assert_eq!(parse("1.5e0"), Some(Decimal { mantissa: 15, scale: 1 }));
    assert_eq!(parse("15e-1"), Some(Decimal { mantissa: 15, scale: 1 }));
    assert_eq!(parse("1E-2"), Some(Decimal { mantissa: 1, scale: 2 }));
    assert_eq!(parse("1.25e+2"), Some(Decimal { mantissa: 125, scale: 0 }));
    assert_eq!(parse("1.25e1"), Some(Decimal { mantissa: 125, scale: 1 }));
    assert_eq!(parse("1.e2"), Some(Decimal { mantissa: 100, scale: 0 }));
    assert_eq!(parse(".5e1"), Some(Decimal { mantissa: 5, scale: 0 }));
    assert_eq!(parse("-2.5e-3"), Some(Decimal { mantissa: -25, scale: 4 }));
    assert_eq!(parse("+7e-0"), Some(Decimal { mantissa: 7, scale: 0 }));
    assert_eq!(parse("3e007"), Some(Decimal { mantissa: 30_000_000, scale: 0 }));
}

#[test]
fn an_exponent_needs_digits_on_both_sides() {
    for text in ["e5", "1e", "1e+", "1e-", "-e1", ".e1", "1e5.0", "1e5e5", "1ee5", "1e 5", "1e+-5", "1x5"] {
        assert_eq!(parse(text), None, "{:?}", text);
    }
}

#[test]
fn exponents_are_held_to_the_limits() {
    assert_eq!(
        parse("1e17"),
        Some(Decimal { mantissa: 100_000_000_000_000_000, scale: 0 })
    );
    assert_eq!(parse("1e18"), None);
    assert_eq!(parse("0.1e19"), None);
    assert_eq!(
        parse("9.99999999999999999e17"),
        Some(Decimal { mantissa: 999_999_999_999_999_999, scale: 0 })
    );
    assert_eq!(parse("1e-18"), Some(Decimal { mantissa: 1, scale: 18 }));
    assert_eq!(parse("1e-19"), None);
    assert_eq!(parse("0.1e-18"), None);
    assert_eq!(parse("1e99999999999999999999999999999999999999999999"), None);
    assert_eq!(parse("1e-99999999999999999999999999999999999999999999"), None);
    // zero stays zero under any power of ten that is not negative
    assert_eq!(
        parse("0e99999999999999999999999999999999999999999999"),
        Some(Decimal { mantissa: 0, scale: 0 })
    );
    assert_eq!(parse("0e-5"), Some(Decimal { mantissa: 0, scale: 5 }));
    assert_eq!(parse("0e-19"), None);
    // many places are no hindrance where the exponent takes them back
    assert_eq!(
        parse("0.000000000000000000001e21"),
        Some(Decimal { mantissa: 1, scale: 0 })
    );
    assert_eq!(
        parse("0.000000000000000000001e3"),
        Some(Decimal { mantissa: 1, scale: 18 })
    );
}

#[test]
fn the_limits_of_a_decimal_are_kept() {
    assert_eq!(
        parse("999999999999999999"),
        Some(Decimal { mantissa: 999_999_999_999_999_999, scale: 0 })
    );
    assert_eq!(parse("1000000000000000000"), None);
    assert_eq!(
        parse("0.000000000000000001"),
        Some(Decimal { mantissa: 1, scale: 18 })
    );
    assert_eq!(parse("0.0000000000000000001"), None);
    assert_eq!(parse("0.9999999999999999999"), None);
    assert_eq!(
        parse("0000000000000000000000001"),
        Some(Decimal { mantissa: 1, scale: 0 })
    );
}

#[test]
fn a_part_of_the_bytes_can_be_read() {
    let bytes = "ab12.5cd".as_bytes();
    assert_eq!(parse_decimal(bytes, 2, 6), Some(Decimal { mantissa: 125, scale: 1 }));
    assert_eq!(parse_decimal(bytes, 2, 7), None);
    assert_eq!(parse_decimal(bytes, 3, 3), None);
}

#[test]
fn new_checks_the_limits() {
    assert_eq!(Decimal::new(5, 3), Some(Decimal { mantissa: 5, scale: 3 }));
    assert_eq!(Decimal::new(5, 19), None);
    assert_eq!(Decimal::new(1_000_000_000_000_000_000, 0), None);
    assert_eq!(Decimal::new(-1_000_000_000_000_000_000, 0), None);
    assert!(Decimal::new(-999_999_999_999_999_999, 18).is_some());
    assert!(Decimal { mantissa: 1, scale: 18 }.is_valid());
    assert!(!Decimal { mantissa: 1, scale: 19 }.is_valid());
}

#[test]
fn ticks_are_sixtieths_of_the_last_place() {
    let d = Decimal::new(15, 1).unwrap();
    assert_eq!(d.ticks(1), 900);
    assert_eq!(d.ticks(3), 90_000);
    let d = Decimal::new(-2, 0).unwrap();
    assert_eq!(d.ticks(0), -120);
    assert_eq!(d.ticks(18), -120_000_000_000_000_000_000);
}

#[test]
fn powers_of_ten() {
    assert_eq!(power_of_ten(0), 1);
    assert_eq!(power_of_ten(1), 10);
    assert_eq!(power_of_ten(18), 1_000_000_000_000_000_000);
}

#[test]
fn lines_end_at_line_feeds() {
    let samples = read_samples("1\n2.5\n-3".as_bytes()).unwrap();
    assert_eq!(
        samples,
        vec![
            Decimal { mantissa: 1, scale: 0 },
            Decimal { mantissa: 25, scale: 1 },
            Decimal { mantissa: -3, scale: 0 },
        ]
    );
    // a last line feed opens no further line
    assert_eq!(read_samples("1\n2\n".as_bytes()).unwrap().len(), 2);
    assert_eq!(read_samples("".as_bytes()).unwrap().len(), 0);
    // an empty line is a line, and no number
    assert_eq!(read_samples("\n".as_bytes()), Err(0));
    assert_eq!(read_samples("1\n\n".as_bytes()), Err(1));
}

#[test]
fn a_carriage_return_before_a_line_feed_ends_the_line() {
    let samples = read_samples("1\r\n2\r\n".as_bytes()).unwrap();
    assert_eq!(samples.len(), 2);
    assert_eq!(samples[1], Decimal { mantissa: 2, scale: 0 });
    // without a line feed behind it, it is part of the line
    assert_eq!(read_samples("1\r\n2\r".as_bytes()), Err(1));
    assert_eq!(read_samples("1\r2\n".as_bytes()), Err(0));
}

#[test]
fn text_that_is_not_ascii_is_no_number() {
    assert_eq!(read_samples("1\n\u{662}\n".as_bytes()), Err(1));
    assert_eq!(parse("１"), None);
}
