use dirsize::results::ResultMap;
use dirsize::sort::sort_descending;
use dirsize::text::{to_decimal, to_signed_decimal};
use dirsize::view::{
    ansi_bold, ansi_fg, color, fmt, is_shown, report, unit_of, FormatOptions, Unit,
    HIGHLIGHT_0, HIGHLIGHT_1, HIGHLIGHT_2, HIGHLIGHT_3, HIGHLIGHT_4,
};

fn options(human: bool, nosummary: bool, zeroes: bool, colors: bool) -> FormatOptions {
    FormatOptions { human, nosummary, zeroes, colors }
}

fn sample() -> ResultMap {
    let mut results = ResultMap::new();
    results.insert("/r".to_string(), 50);
    results.insert("/r/big".to_string(), 9_000);
    results.insert("/r/empty".to_string(), 0);
    results.insert("/r/mid".to_string(), 900);
    results.insert("/r/edge".to_string(), 100);
    results.insert("/r/over".to_string(), 101);
    results.insert("/r/small".to_string(), 3);
    results
}

fn sizes(rows: &[(String, u64)]) -> Vec<u64> {
    rows.iter().map(|row| row.1).collect()
}

#[test]
fn decimal_numerals() {
    assert_eq!(to_decimal(0), "0");
    assert_eq!(to_decimal(7), "7");
    assert_eq!(to_decimal(10), "10");
    assert_eq!(to_decimal(1_234_567_890), "1234567890");
    assert_eq!(to_decimal(u64::MAX), "18446744073709551615");
    assert_eq!(to_signed_decimal(0), "0");
    assert_eq!(to_signed_decimal(31), "31");
    assert_eq!(to_signed_decimal(-5), "-5");
    assert_eq!(to_signed_decimal(i32::MAX), "2147483647");
    assert_eq!(to_signed_decimal(i32::MIN), "-2147483648");
}

#[test]
fn escape_sequences() {
    assert_eq!(ansi_fg(31, "x".to_string()), "\x1B[31mx\x1B[0m");
    assert_eq!(ansi_fg(-1, String::new()), "\x1B[-1m\x1B[0m");
    assert_eq!(ansi_bold("big".to_string()), "\x1B[1mbig\x1B[0m");
    assert_eq!(color("x".to_string(), true, 35), "\x1B[35mx\x1B[0m");
    assert_eq!(color("x".to_string(), false, 35), "x");
    assert_eq!(dirsize::view::format("x".to_string(), true), "\x1B[1mx\x1B[0m");
    assert_eq!(dirsize::view::format("x".to_string(), false), "x");
    assert_eq!(
        [HIGHLIGHT_0, HIGHLIGHT_1, HIGHLIGHT_2, HIGHLIGHT_3, HIGHLIGHT_4],
        [36, 32, 35, 33, 31]
    );
}

#[test]
fn units() {
    assert_eq!(unit_of(0), Unit::Bytes);
    assert_eq!(unit_of(1_000), Unit::Bytes);
    assert_eq!(unit_of(1_001), Unit::Kilo);
    assert_eq!(unit_of(1_000_000), Unit::Kilo);
    assert_eq!(unit_of(1_000_001), Unit::Mega);
    assert_eq!(unit_of(1_000_000_000), Unit::Mega);
    assert_eq!(unit_of(1_000_000_001), Unit::Giga);
    assert_eq!(unit_of(u64::MAX), Unit::Giga);
    assert_eq!(Unit::Bytes.divisor(), 1);
    assert_eq!(Unit::Kilo.divisor(), 1_000);
    assert_eq!(Unit::Mega.divisor(), 1_000_000);
    assert_eq!(Unit::Giga.divisor(), 1_000_000_000);
}

#[test]
fn plain_sizes() {
    assert_eq!(fmt(0, false, true, ""), "0");
    assert_eq!(fmt(1_500, false, true, "1.5"), "1500");
    assert_eq!(fmt(3_000_000_000, false, false, "3"), "3000000000");
}

#[test]
fn scaled_sizes_without_colour() {
    assert_eq!(fmt(999, true, false, "ignored"), "999");
    assert_eq!(fmt(1_000, true, false, "1"), "1000");
    assert_eq!(fmt(1_500, true, false, "1.5"), "1.5K");
    assert_eq!(fmt(2_340_000, true, false, "2.34"), "2.34M");
    assert_eq!(fmt(7_000_000_000, true, false, "7"), "7G");
}

#[test]
fn scaled_sizes_with_colour() {
    assert_eq!(fmt(999, true, true, ""), "\x1B[32m999\x1B[0m");
    assert_eq!(fmt(1_500, true, true, "1.5"), "\x1B[35m1.5K\x1B[0m");
    assert_eq!(fmt(2_340_000, true, true, "2.34"), "\x1B[31m2.34M\x1B[0m");
    assert_eq!(fmt(7_000_000_000, true, true, "7"), "\x1B[1m\x1B[31m7G\x1B[0m\x1B[0m");
}

#[test]
fn sorting_from_the_largest_down() {
    let items = vec![(5, 0), (9, 1), (0, 2), (9, 3), (7, 4), (1, 5)];
    let sorted = sort_descending(&items);
    let keys: Vec<u64> = sorted.iter().map(|item| item.0).collect();
    assert_eq!(keys, vec![9, 9, 7, 5, 1, 0]);
    let mut back = sorted.clone();
    back.sort();
    let mut expected = items.clone();
    expected.sort();
    assert_eq!(back, expected);
    assert!(sort_descending(&vec![]).is_empty());
    assert_eq!(sort_descending(&vec![(4, 0)]), vec![(4, 0)]);
}

#[test]
fn entries_shown() {
    let summary = options(false, false, false, false);
    assert!(is_shown(101, 10_000, summary));
    assert!(is_shown(100, 10_000, summary));
    assert!(!is_shown(99, 10_000, summary));
    assert!(!is_shown(100, 10_001, summary));
    assert!(!is_shown(0, 0, summary));
    assert!(is_shown(1, 99, summary));
    assert!(is_shown(1, 100, summary));
    assert!(!is_shown(1, 101, summary));
    // The comparison is exact at the top of the range too.
    assert!(is_shown(u64::MAX / 100 + 1, u64::MAX, summary));
    assert!(!is_shown(u64::MAX / 100, u64::MAX, summary));
    assert!(is_shown(u64::MAX, u64::MAX, summary));
    let everything = options(false, true, false, false);
    assert!(is_shown(1, 10_000, everything));
    assert!(!is_shown(0, 10_000, everything));
    let with_zeroes = options(false, false, true, false);
    assert!(is_shown(0, 10_000, with_zeroes));
    assert!(is_shown(1, 10_000, with_zeroes));
}

#[test]
fn summary_report() {
    let out = report("/r", &sample(), options(true, false, false, true)).unwrap();
    assert_eq!(out.root_size, 50);
    assert_eq!(out.full_size, 10_154);
    assert!(out.summary);
    // One hundredth of the sum is 101.54: an entry of 101 is below it.
    assert_eq!(
        out.rows,
        vec![("/r/big".to_string(), 9_000), ("/r/mid".to_string(), 900)]
    );
}

#[test]
fn full_report() {
    let out = report("/r", &sample(), options(false, true, false, false)).unwrap();
    assert!(!out.summary);
    assert_eq!(sizes(&out.rows), vec![9_000, 900, 101, 100, 50, 3]);
    assert_eq!(out.rows[0].0, "/r/big");
    assert_eq!(out.rows[5].0, "/r/small");
}

#[test]
fn report_with_zeroes() {
    let out = report("/r", &sample(), options(false, false, true, false)).unwrap();
    assert!(!out.summary);
    assert_eq!(sizes(&out.rows), vec![9_000, 900, 101, 100, 50, 3, 0]);
    assert_eq!(out.rows[6].0, "/r/empty");
}

#[test]
fn entry_of_exactly_one_hundredth_is_shown() {
    let mut results = ResultMap::new();
    results.insert("/r".to_string(), 990);
    results.insert("/r/child".to_string(), 10);
    let out = report("/r", &results, options(false, false, false, false)).unwrap();
    assert!(out.summary);
    assert_eq!(out.full_size, 1_000);
    assert_eq!(out.rows, vec![("/r".to_string(), 990), ("/r/child".to_string(), 10)]);

    results.insert("/r/child".to_string(), 9);
    results.insert("/r/other".to_string(), 1);
    let out = report("/r", &results, options(false, false, false, false)).unwrap();
    assert_eq!(out.full_size, 1_000);
    assert_eq!(out.rows, vec![("/r".to_string(), 990)]);
}

#[test]
fn report_on_the_root_alone() {
    let mut results = ResultMap::new();
    results.insert("/r".to_string(), 0);
    let out = report("/r", &results, options(false, false, false, false)).unwrap();
    assert_eq!(out.root_size, 0);
    assert_eq!(out.full_size, 0);
    assert!(out.rows.is_empty());
    let out = report("/r", &results, options(false, false, true, false)).unwrap();
    assert_eq!(out.rows, vec![("/r".to_string(), 0)]);
}

#[test]
fn no_report_where_the_sum_does_not_fit() {
    let mut results = sample();
    results.insert("/r/huge".to_string(), u64::MAX);
    assert!(report("/r", &results, options(false, true, false, false)).is_none());
}
