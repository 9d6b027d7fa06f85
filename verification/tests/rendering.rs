use text_histogram::decimal::Decimal;
use text_histogram::format::push_digits;
use text_histogram::format::push_fixed;
use text_histogram::format::push_padded_digits;
use text_histogram::format::push_repeated;
use text_histogram::histogram::Histgram;
use text_histogram::render::calculate_bar_length;
use text_histogram::render::display_precision;
use text_histogram::render::present_histogram;

fn fixed(value: i128, scale: u8, places: u8) -> String {
    let mut out = String::new();
    push_fixed(&mut out, value, scale, places);
    out
}

#[test]
fn five_samples_are_rendered() {
    let h = Histgram::build(String::from("1.0\n2.0\n3.0\n4.0\n5.0"), Decimal::new(1, 0)).unwrap();
    let text = present_histogram(&h, 10);
    let expected = "1.5|**********\n\
                    2.5|*****\n\
                    3.5|*****\n\
                    4.5|*****\n\
                    \x20\x20\x20+----------+ 2 times\n\
                    \x20\x20\x20+-----+ 1 times";
    assert_eq!(text, expected);
}

#[test]
fn the_empty_histogram_renders_as_nothing() {
    let h = Histgram::build(String::new(), None).unwrap();
    assert_eq!(present_histogram(&h, 80), "");
    assert_eq!(present_histogram(&Histgram::empty(), 80), "");
}

#[test]
fn a_single_sample_renders_one_bar() {
    let h = Histgram::build(String::from("5.0"), None).unwrap();
    let text = present_histogram(&h, 4);
    // a width of zero asks for the most places there are
    let expected = "5.0000000000000000|****\n\
                    \x20\x20\x20\x20\x20\x20\x20\x20\x20\x20\x20\x20\x20\x20\x20\x20\x20\x20+----+ 1 times\n\
                    \x20\x20\x20\x20\x20\x20\x20\x20\x20\x20\x20\x20\x20\x20\x20\x20\x20\x20+--+ 0 times";
    assert_eq!(text, expected);
}

#[test]
fn rendering_twice_gives_the_same_text() {
    let h = Histgram::build(String::from("3.5\n-2\n10.25\n0\n0\n7\n"), None).unwrap();
    let first = present_histogram(&h, 80);
    let second = present_histogram(&h, 80);
    assert_eq!(first, second);
    assert_eq!(first.lines().count(), 32);
}

#[test]
fn labels_are_aligned_to_the_right() {
    let h = Histgram::build(String::from("-15\n5\n95\n105"), Decimal::new(50, 0)).unwrap();
    let text = present_histogram(&h, 6);
    let expected = "\x2010|******\n\
                    \x2060|\n\
                    110|******\n\
                    \x20\x20\x20+------+ 2 times\n\
                    \x20\x20\x20+---+ 1 times";
    assert_eq!(text, expected);
}

#[test]
fn negative_labels_carry_a_sign() {
    let h = Histgram::build(String::from("-3\n-1\n-1\n-1"), Decimal::new(1, 0)).unwrap();
    let text = present_histogram(&h, 9);
    let expected = "-2.5|***\n\
                    -1.5|*********\n\
                    \x20\x20\x20\x20+---------+ 3 times\n\
                    \x20\x20\x20\x20+----+ 1 times";
    assert_eq!(text, expected);
}

#[test]
fn bars_are_scaled_to_the_largest_frequency() {
    let h = Histgram::build(String::from("1\n1\n1\n2\n2\n3\n3\n3\n3\n3\n3\n3"), Decimal::new(5, 1)).unwrap();
    let text = present_histogram(&h, 10);
    // frequencies 3, 2, 0, 7 of at most 7: 30 / 7 = 4, 20 / 7 = 2
    let expected = "1.25|****\n\
                    1.75|**\n\
                    2.25|\n\
                    2.75|**********\n\
                    \x20\x20\x20\x20+----------+ 7 times\n\
                    \x20\x20\x20\x20+-----+ 3 times";
    assert_eq!(text, expected);
}

#[test]
fn a_bar_length_of_zero_leaves_only_labels() {
    let h = Histgram::build(String::from("1\n2"), Decimal::new(1, 0)).unwrap();
    assert_eq!(present_histogram(&h, 0), "1.5|\n   ++ 2 times\n   ++ 1 times");
    assert_eq!(present_histogram(&h, 1), "1.5|*\n   +-+ 2 times\n   ++ 1 times");
}

#[test]
fn precision_follows_the_bin_width() {
    // 0.1 at scale 1: 60 ticks of 600
    assert_eq!(display_precision(60, 1), 2);
    // 1.0
    assert_eq!(display_precision(600, 1), 1);
    assert_eq!(display_precision(60, 0), 1);
    // 10.0
    assert_eq!(display_precision(600, 0), 0);
    assert_eq!(display_precision(6000, 1), 0);
    // just below ten, and far above
    assert_eq!(display_precision(599, 0), 1);
    assert_eq!(display_precision(60_000_000_000_000_000_000_000_000_000_000_000_000, 0), 0);
    // 0.5, 0.25, 0.01, 0.011, 0.009
    assert_eq!(display_precision(30, 0), 2);
    assert_eq!(display_precision(15, 0), 2);
    assert_eq!(display_precision(600, 3), 3);
    assert_eq!(display_precision(660, 3), 3);
    assert_eq!(display_precision(540, 3), 4);
}

#[test]
fn precision_stays_within_sixteen_places() {
    assert_eq!(display_precision(0, 0), 16);
    assert_eq!(display_precision(0, 18), 16);
    assert_eq!(display_precision(1, 18), 16);
    // 10^-15 and 10^-16 and 10^-14
    assert_eq!(display_precision(60_000, 18), 16);
    assert_eq!(display_precision(6_000, 18), 16);
    assert_eq!(display_precision(600_000, 18), 15);
}

#[test]
fn bar_lengths_are_rounded_down() {
    assert_eq!(calculate_bar_length(1, 3, 80), 26);
    assert_eq!(calculate_bar_length(2, 3, 80), 53);
    assert_eq!(calculate_bar_length(3, 3, 80), 80);
    assert_eq!(calculate_bar_length(0, 3, 80), 0);
    assert_eq!(calculate_bar_length(1, 2, 1), 0);
    assert_eq!(calculate_bar_length(u64::MAX, u64::MAX, usize::MAX), usize::MAX);
    assert_eq!(calculate_bar_length(u64::MAX - 1, u64::MAX, usize::MAX), usize::MAX - 1);
}

#[test]
fn fixed_numbers_are_rounded_to_their_places() {
    // 1.5 as 90 ticks of 60
    assert_eq!(fixed(90, 0, 1), "1.5");
    assert_eq!(fixed(90, 0, 3), "1.500");
    assert_eq!(fixed(-90, 0, 1), "-1.5");
    assert_eq!(fixed(0, 0, 0), "0");
    assert_eq!(fixed(0, 0, 2), "0.00");
    // a third: 20 ticks of 60
    assert_eq!(fixed(20, 0, 4), "0.3333");
    assert_eq!(fixed(40, 0, 4), "0.6667");
    assert_eq!(fixed(40, 0, 16), "0.6666666666666667");
    // 0.05 at scale 2: 300 ticks of 6000
    assert_eq!(fixed(300, 2, 1), "0.0");
    assert_eq!(fixed(300, 2, 2), "0.05");
    // 9.96 rounds up into the whole part
    assert_eq!(fixed(59_760, 2, 1), "10.0");
    assert_eq!(fixed(59_760, 2, 0), "10");
}

#[test]
fn a_half_goes_to_the_even_neighbour() {
    assert_eq!(fixed(30, 0, 0), "0");
    assert_eq!(fixed(90, 0, 0), "2");
    assert_eq!(fixed(150, 0, 0), "2");
    assert_eq!(fixed(210, 0, 0), "4");
    assert_eq!(fixed(-30, 0, 0), "-0");
    assert_eq!(fixed(-90, 0, 0), "-2");
    // 0.125 and 0.375 to two places
    assert_eq!(fixed(7_500, 3, 2), "0.12");
    assert_eq!(fixed(22_500, 3, 2), "0.38");
    // 0.25 and 0.35 to one place
    assert_eq!(fixed(1_500, 2, 1), "0.2");
    assert_eq!(fixed(2_100, 2, 1), "0.4");
}

#[test]
fn the_widest_numbers_are_written() {
    assert_eq!(
        fixed(i128::MAX, 0, 2),
        "2835686391007820528861455061931401762.12"
    );
    assert_eq!(
        fixed(i128::MIN, 0, 0),
        "-2835686391007820528861455061931401762"
    );
    assert_eq!(fixed(1, 18, 16), "0.0000000000000000");
    assert_eq!(fixed(3_001, 18, 16), "0.0000000000000001");
}

#[test]
fn digits_are_written_most_significant_first() {
    let mut out = String::from("n=");
    push_digits(&mut out, 0);
    push_digits(&mut out, 1234567890);
    assert_eq!(out, "n=01234567890");
    let mut out = String::new();
    push_digits(&mut out, u128::MAX);
    assert_eq!(out, "340282366920938463463374607431768211455");
}

#[test]
fn padded_digits_keep_their_zeros() {
    let mut out = String::new();
    push_padded_digits(&mut out, 42, 5);
    assert_eq!(out, "00042");
    push_padded_digits(&mut out, 12345, 3);
    assert_eq!(out, "00042345");
    push_padded_digits(&mut out, 7, 0);
    assert_eq!(out, "00042345");
}

#[test]
fn a_character_is_repeated() {
    let mut out = String::from("a");
    push_repeated(&mut out, "*", 3);
    push_repeated(&mut out, "-", 0);
    assert_eq!(out, "a***");
}
