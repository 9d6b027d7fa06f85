use text_histogram::bins::Bar;
use text_histogram::decimal::Decimal;
use text_histogram::histogram::BuildError;
use text_histogram::histogram::Histgram;

fn frequencies(h: &Histgram) -> Vec<u64> {
    h.bars().iter().map(|bar| bar.frequency).collect()
}

#[test]
fn five_samples_with_unit_width() {
    let width = Decimal::new(1, 0).unwrap();
    let h = Histgram::build(String::from("1.0\n2.0\n3.0\n4.0\n5.0"), Some(width)).unwrap();
    // one decimal place: a unit has 600 ticks
    assert_eq!(h.scale(), 1);
    assert_eq!(h.bin(), Some(600));
    let bars = h.bars();
    // a sample on the upper edge of a bin stays in that bin: 1 and 2 share the first
    assert_eq!(bars.len(), 4);
    assert_eq!(bars[0], Bar { representative: 900, frequency: 2 });
    assert_eq!(bars[1], Bar { representative: 1500, frequency: 1 });
    assert_eq!(bars[2], Bar { representative: 2100, frequency: 1 });
    assert_eq!(bars[3], Bar { representative: 2700, frequency: 1 });
}

#[test]
fn empty_input_gives_no_bars() {
    let h = Histgram::build(String::new(), None).unwrap();
    assert_eq!(h.bars().len(), 0);
    assert_eq!(h.bin(), None);
    let with_width = Histgram::build(String::new(), Decimal::new(0, 0)).unwrap();
    assert_eq!(with_width.bars().len(), 0);
}

#[test]
fn single_sample_gives_one_bar() {
    let h = Histgram::build(String::from("5.0"), None).unwrap();
    assert_eq!(h.bin(), Some(0));
    assert_eq!(h.scale(), 1);
    assert_eq!(h.bars().len(), 1);
    assert_eq!(h.bars()[0], Bar { representative: 3000, frequency: 1 });
}

#[test]
fn identical_samples_share_one_bar() {
    let h = Histgram::build(String::from("7\n7\n7\n"), None).unwrap();
    assert_eq!(h.bin(), Some(0));
    assert_eq!(h.bars().len(), 1);
    assert_eq!(h.bars()[0], Bar { representative: 420, frequency: 3 });
}

#[test]
fn default_width_is_a_thirtieth_of_the_range() {
    let h = Histgram::build(String::from("0\n30\n"), None).unwrap();
    assert_eq!(h.scale(), 0);
    // (30 - 0) / 30 = 1 unit = 60 ticks
    assert_eq!(h.bin(), Some(60));
    let bars = h.bars();
    assert_eq!(bars.len(), 30);
    assert_eq!(bars[0], Bar { representative: 30, frequency: 1 });
    assert_eq!(bars[29], Bar { representative: 29 * 60 + 30, frequency: 1 });
    for k in 1..29 {
        assert_eq!(bars[k].frequency, 0);
        assert_eq!(bars[k].representative, (k as i128) * 60 + 30);
    }
}

#[test]
fn default_width_need_not_be_a_decimal() {
    // the range is 1, a bin is a thirtieth of it: two ticks of a sixtieth
    let h = Histgram::build(String::from("1\n0\n"), None).unwrap();
    assert_eq!(h.bin(), Some(2));
    assert_eq!(h.bars().len(), 30);
    assert_eq!(h.bars()[0], Bar { representative: 1, frequency: 1 });
    assert_eq!(h.bars()[29], Bar { representative: 59, frequency: 1 });
}

#[test]
fn samples_are_sorted_before_the_sweep() {
    let width = Decimal::new(1, 0).unwrap();
    let h = Histgram::build(String::from("5\n1\n4\n2\n3\n1\n"), Some(width)).unwrap();
    assert_eq!(frequencies(&h), vec![3, 1, 1, 1]);
    let first = h.bars()[0].representative;
    assert_eq!(first, 90);
}

#[test]
fn a_sample_on_an_edge_stays_in_the_lower_bin() {
    let width = Decimal::new(10, 0).unwrap();
    let h = Histgram::build(String::from("0\n10\n10\n10\n11\n20\n21"), Some(width)).unwrap();
    assert_eq!(frequencies(&h), vec![4, 2, 1]);
}

#[test]
fn frequencies_add_up_to_the_number_of_samples() {
    let text = "3.5\n-2\n10.25\n0\n0\n7\n7.0\n-2.00\n9.999\n";
    for width in [None, Decimal::new(1, 0), Decimal::new(25, 2), Decimal::new(7, 0)] {
        let h = Histgram::build(String::from(text), width).unwrap();
        let total: u64 = frequencies(&h).iter().sum();
        assert_eq!(total, 9);
    }
}

#[test]
fn representatives_ascend_strictly() {
    let h = Histgram::build(String::from("3.5\n-2\n10.25\n0\n0\n7\n"), None).unwrap();
    let bars = h.bars();
    assert_eq!(bars.len(), 30);
    for k in 1..bars.len() {
        assert!(bars[k - 1].representative < bars[k].representative);
        assert_eq!(bars[k].representative - bars[k - 1].representative, h.bin().unwrap());
    }
}

#[test]
fn each_sample_lies_within_the_edges_of_its_bin() {
    // scale 2: a unit has 6000 ticks
    let samples: [i128; 6] = [350, -200, 1025, 0, 0, 700];
    let h = Histgram::build(String::from("3.5\n-2\n10.25\n0\n0\n7\n"), Decimal::new(15, 1)).unwrap();
    assert_eq!(h.scale(), 2);
    let width = h.bin().unwrap();
    assert_eq!(width, 9000);
    let bars = h.bars();
    let mut counted = vec![0u64; bars.len()];
    for hundredths in samples {
        let ticks = hundredths * 60;
        let k = bars
            .iter()
            .position(|bar| ticks <= bar.representative + width / 2)
            .unwrap();
        let low = bars[k].representative - width / 2;
        assert!(low < ticks || (k == 0 && ticks == low));
        counted[k] += 1;
    }
    assert_eq!(counted, frequencies(&h));
    assert_eq!(frequencies(&h), vec![1, 2, 0, 1, 0, 1, 0, 0, 1]);
}

#[test]
fn a_line_that_is_no_number_fails_the_build() {
    let r = Histgram::build(String::from("1\n2\nabc\n4"), None);
    assert_eq!(r.err(), Some(BuildError::InvalidNumber { line: 2 }));
    let r = Histgram::build(String::from("NaN\n"), None);
    assert_eq!(r.err(), Some(BuildError::InvalidNumber { line: 0 }));
    let r = Histgram::build(String::from("1\n\n2\n"), None);
    assert_eq!(r.err(), Some(BuildError::InvalidNumber { line: 1 }));
    let r = Histgram::build(String::from("1\ninf\n"), None);
    assert_eq!(r.err(), Some(BuildError::InvalidNumber { line: 1 }));
}

#[test]
fn numbers_with_exponents_are_counted() {
    let h = Histgram::build(String::from("1e1\n2.5E0\n100e-1\n"), Decimal::new(5, 0)).unwrap();
    assert_eq!(h.scale(), 1);
    assert_eq!(frequencies(&h), vec![1, 2]);
    assert_eq!(h.bars()[0].representative, 3000);
}

#[test]
fn a_width_that_is_not_positive_is_refused() {
    let r = Histgram::build(String::from("1\n2\n"), Decimal::new(0, 0));
    assert_eq!(r.err(), Some(BuildError::InvalidBinWidth));
    let r = Histgram::build(String::from("1\n2\n"), Decimal::new(-5, 1));
    assert_eq!(r.err(), Some(BuildError::InvalidBinWidth));
    let r = Histgram::build(String::from("1\n2\n"), Some(Decimal { mantissa: 1, scale: 19 }));
    assert_eq!(r.err(), Some(BuildError::InvalidBinWidth));
    // a line that is no number is found first
    let r = Histgram::build(String::from("1\nx\n"), Decimal::new(0, 0));
    assert_eq!(r.err(), Some(BuildError::InvalidNumber { line: 1 }));
}

#[test]
fn samples_outside_the_limits_are_refused() {
    let samples = vec![
        Decimal { mantissa: 1, scale: 0 },
        Decimal { mantissa: 1_000_000_000_000_000_000, scale: 0 },
    ];
    let r = Histgram::from_samples(&samples, None);
    assert_eq!(r.err(), Some(BuildError::InvalidNumber { line: 1 }));
}

#[test]
fn from_samples_agrees_with_build() {
    let samples = vec![
        Decimal::new(10, 1).unwrap(),
        Decimal::new(2, 0).unwrap(),
        Decimal::new(300, 2).unwrap(),
    ];
    let a = Histgram::from_samples(&samples, Decimal::new(1, 0)).unwrap();
    let b = Histgram::build(String::from("1.0\n2\n3.00"), Decimal::new(1, 0)).unwrap();
    assert_eq!(a.scale(), b.scale());
    assert_eq!(a.bin(), b.bin());
    assert_eq!(a.bars(), b.bars());
    assert_eq!(frequencies(&a), vec![2, 1]);
}

#[test]
fn largest_values_are_counted() {
    let text = "999999999999999999\n-999999999999999999\n0.000000000000000001\n";
    let h = Histgram::build(String::from(text), None).unwrap();
    assert_eq!(h.scale(), 18);
    assert_eq!(h.bars().len(), 30);
    assert_eq!(frequencies(&h).iter().sum::<u64>(), 3);
    assert_eq!(h.bars()[0].frequency, 1);
    assert_eq!(h.bars()[15].frequency, 1);
    assert_eq!(h.bars()[29].frequency, 1);
}
