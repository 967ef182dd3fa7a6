use rasa::SCALE;
use rasa::parse::live_fields;
use rasa::parse::parse_fixed;
use rasa::parse::parse_line;
use rasa::parse::replay_values;
use rasa::util::average_vec;
use rasa::util::average_vec_deque;
use rasa::util::normalize_array;
use rasa::util::std_dev;
use rasa::util::std_dev_vec_deque;

#[test]
fn parses_decimal_tokens_into_ticks() {
    assert_eq!(parse_fixed(b"405.23"), Some(405_230_000));
    assert_eq!(parse_fixed(b"-1.5"), Some(-1_500_000));
    assert_eq!(parse_fixed(b"+7"), Some(7_000_000));
    assert_eq!(parse_fixed(b"0"), Some(0));
    assert_eq!(parse_fixed(b".5"), Some(500_000));
    assert_eq!(parse_fixed(b"2."), Some(2_000_000));
    assert_eq!(parse_fixed(b"0.1234567"), Some(123_456));
}

#[test]
fn parses_exponent_tokens() {
    assert_eq!(parse_fixed(b"1e3"), Some(1_000_000_000));
    assert_eq!(parse_fixed(b"1E2"), Some(100_000_000));
    assert_eq!(parse_fixed(b"2.5e-2"), Some(25_000));
    assert_eq!(parse_fixed(b"-1.5e1"), Some(-15_000_000));
    assert_eq!(parse_fixed(b"1e+1"), Some(10_000_000));
    // below one tick: truncated toward zero
    assert_eq!(parse_fixed(b"5e-7"), Some(0));
    // an enormous negative exponent still reads as zero
    assert_eq!(parse_fixed(b"1e-100000"), Some(0));
    assert_eq!(parse_fixed(b"0e100000"), Some(0));
    // out of the fixed-point range
    assert_eq!(parse_fixed(b"1e100000"), None);
    assert_eq!(parse_fixed(b"1e7"), None);
}

#[test]
fn drops_malformed_tokens() {
    assert_eq!(parse_fixed(b""), None);
    assert_eq!(parse_fixed(b"-"), None);
    assert_eq!(parse_fixed(b"."), None);
    assert_eq!(parse_fixed(b"abc"), None);
    assert_eq!(parse_fixed(b"1.2.3"), None);
    assert_eq!(parse_fixed(b"12a"), None);
    assert_eq!(parse_fixed(b"1e"), None);
    assert_eq!(parse_fixed(b"1e+"), None);
    assert_eq!(parse_fixed(b"1e2.5"), None);
    assert_eq!(parse_fixed(b"e5"), None);
    assert_eq!(parse_fixed(b"99999999999999999999999"), None);
}

#[test]
fn splits_lines_on_whitespace_and_keeps_numeric_fields() {
    assert_eq!(
        parse_line(b"1.5 2\tx 3"),
        vec![1_500_000, 2_000_000, 3_000_000]
    );
    assert_eq!(parse_line(b"  404.25 398.75 1\r\n"), vec![
        404_250_000,
        398_750_000,
        1_000_000,
    ]);
    assert_eq!(parse_line(b""), Vec::<i64>::new());
    assert_eq!(parse_line(b"junk only"), Vec::<i64>::new());
}

#[test]
fn live_fields_need_two_values() {
    assert_eq!(live_fields(&vec![1, 2, 3]), Some((1, 2, 3)));
    assert_eq!(live_fields(&vec![1, 2]), Some((1, 2, 0)));
    assert_eq!(live_fields(&vec![1]), None);
    assert_eq!(live_fields(&vec![]), None);
}

#[test]
fn replay_rows_yield_channel_values_or_zeros() {
    let good: Vec<Vec<u8>> = vec![
        b"0.5".to_vec(),
        b"1700000000000".to_vec(),
        b"404.25".to_vec(),
        b"398.5".to_vec(),
        b"1".to_vec(),
    ];
    assert_eq!(replay_values(&good), Some((404_250_000, 398_500_000)));
    let bad: Vec<Vec<u8>> = vec![
        b"0.5".to_vec(),
        b"1700000000000".to_vec(),
        b"x".to_vec(),
        b"398.5".to_vec(),
        b"1".to_vec(),
    ];
    assert_eq!(replay_values(&bad), None);
}

#[test]
fn statistics_helpers_return_undefined_below_two_elements() {
    assert_eq!(std_dev_vec_deque(&vec![]), None);
    assert_eq!(std_dev_vec_deque(&vec![5 * SCALE]), None);
    assert_eq!(average_vec_deque(&vec![]), None);
    assert_eq!(std_dev(&[], &[1]), None);
    assert_eq!(std_dev(&[1], &[]), None);
    assert_eq!(average_vec(&vec![]), None);
}

#[test]
fn population_std_of_known_sample() {
    let c0 = [1 * SCALE, 3 * SCALE, 5 * SCALE];
    let c1 = [2 * SCALE, 4 * SCALE, 6 * SCALE];
    assert_eq!(std_dev(&c0, &c1), Some((1_632_993, 1_632_993)));
    assert_eq!(std_dev_vec_deque(&vec![4 * SCALE, 4 * SCALE]), Some(0));
    assert_eq!(
        average_vec_deque(&vec![1 * SCALE, 2 * SCALE]),
        Some(1_500_000)
    );
}

#[test]
fn column_means_of_accumulated_rows() {
    let rows = vec![vec![1 * SCALE, 2 * SCALE], vec![3 * SCALE, 4 * SCALE]];
    assert_eq!(average_vec(&rows), Some((2 * SCALE, 3 * SCALE)));
}

#[test]
fn normalization_centers_and_offsets_the_windows() {
    let lower = vec![0, 100];
    let high = vec![50, 150];
    let (n0, n1) = normalize_array(&lower, &high).unwrap();
    // common minimum 0, spread divisor 50: scaled windows [0, 2] and
    // [1, 3], centred, the second offset three whole units down
    assert_eq!(n0, vec![-1, 1]);
    assert_eq!(n1, vec![1 - (2 + 3 * SCALE), 3 - (2 + 3 * SCALE)]);
    assert!(normalize_array(&vec![], &high).is_none());
}
