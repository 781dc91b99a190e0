use divisible_numbers::decimal::parse_u32;
use divisible_numbers::divisible::{
    divisible_numbers, generate_divisible_numbers, is_number_divisible_by, InputError,
    LineNumbers, ResultNumbers,
};
use divisible_numbers::input::{parse_line, read_items};
use divisible_numbers::output::{parse_result_line, render_results, run};

const TWO_ROWS: &str = "2 3 10\n5 7 20\n";
const TWO_ROWS_RESULTS: &str = "10:2 3 4 6 8 9 10\n20:5 7 10 14 15 20\n";

fn read_result_numbers(text: &str) -> Vec<ResultNumbers> {
    text.lines()
        .map(|line| parse_result_line(line.as_bytes()).unwrap())
        .collect()
}

fn text_of(r: &ResultNumbers) -> String {
    String::from_utf8(r.to_text()).unwrap()
}

#[test]
fn test_read_items() {
    let items = read_items(TWO_ROWS.as_bytes()).unwrap();
    assert_eq!(items.len(), 2);
}

#[test]
fn test_is_number_divisible_by() {
    let item = LineNumbers { a: 2, b: 3, end: 10 };
    let expected_results = vec![
        (1, false),
        (2, true),
        (3, true),
        (4, true),
        (5, false),
        (6, true),
        (7, false),
        (8, true),
        (9, true),
        (10, true),
    ];
    for (n, expected) in expected_results {
        assert_eq!(is_number_divisible_by(&item, &n), expected, "Failed for number {}", n);
    }
}

#[test]
fn test_generate_divisible_numbers() {
    let expected_results = read_result_numbers(TWO_ROWS_RESULTS);
    let actual_results = generate_divisible_numbers(TWO_ROWS.as_bytes()).unwrap();
    assert_eq!(actual_results.len(), expected_results.len());
    for (actual, expected) in actual_results.iter().zip(expected_results.iter()) {
        assert!(actual == expected);
    }
}

#[test]
fn test_read_items_incorrect_format() {
    let result = read_items("4 abc 10\n".as_bytes());
    assert!(result.is_err());
}

#[test]
fn test_read_items_empty_file() {
    let items = read_items("".as_bytes()).unwrap();
    assert!(items.is_empty());
}

#[test]
fn test_read_items_mixed_format() {
    let result = read_items("2 3 10\n4 10\n".as_bytes());
    assert!(result.is_err());
}

#[test]
fn test_generate_divisible_numbers_large_numbers() {
    let input = "2 3 100000\n".as_bytes();
    let items = read_items(input).unwrap();
    assert_eq!(items.len(), 1);
    let result = generate_divisible_numbers(input).unwrap();
    let expected_numbers: Vec<u32> = (1..=100000).filter(|&n| n % 2 == 0 || n % 3 == 0).collect();
    assert_eq!(result[0].numbers, expected_numbers);
}

#[test]
fn single_line_renders_expected_text() {
    let results = generate_divisible_numbers("2 3 10".as_bytes()).unwrap();
    assert_eq!(results.len(), 1);
    assert_eq!(results[0].end, 10);
    assert_eq!(results[0].numbers, vec![2, 3, 4, 6, 8, 9, 10]);
    assert_eq!(text_of(&results[0]), "10:2 3 4 6 8 9 10");
}

#[test]
fn two_lines_sorted_by_end() {
    let out = run(TWO_ROWS.as_bytes()).unwrap();
    assert_eq!(String::from_utf8(out).unwrap(), TWO_ROWS_RESULTS);
    let reversed = run("5 7 20\n2 3 10\n".as_bytes()).unwrap();
    assert_eq!(String::from_utf8(reversed).unwrap(), TWO_ROWS_RESULTS);
}

#[test]
fn equal_ends_keep_input_order() {
    let out = run("5 7 10\n2 3 10\n1 1 2\n".as_bytes()).unwrap();
    assert_eq!(
        String::from_utf8(out).unwrap(),
        "2:1 2\n10:5 7 10\n10:2 3 4 6 8 9 10\n"
    );
}

#[test]
fn empty_input_gives_empty_output() {
    assert_eq!(run("".as_bytes()).unwrap(), Vec::<u8>::new());
}

#[test]
fn unparseable_token_is_format_error_on_its_line() {
    assert_eq!(
        read_items("2 3 10\n4 abc 10\n".as_bytes()).unwrap_err(),
        InputError::Format { line: 2 }
    );
    assert_eq!(
        run("4 abc 10".as_bytes()).unwrap_err(),
        InputError::Format { line: 1 }
    );
}

#[test]
fn two_numbers_is_format_error() {
    assert_eq!(
        read_items("4 10\n".as_bytes()).unwrap_err(),
        InputError::Format { line: 1 }
    );
}

#[test]
fn four_numbers_is_format_error() {
    assert_eq!(
        read_items("1 2 3 4\n".as_bytes()).unwrap_err(),
        InputError::Format { line: 1 }
    );
}

#[test]
fn blank_line_is_format_error() {
    assert_eq!(
        read_items("2 3 10\n\n5 7 20\n".as_bytes()).unwrap_err(),
        InputError::Format { line: 2 }
    );
}

#[test]
fn first_bad_line_is_reported() {
    assert_eq!(
        read_items("2 3 10\nx\n4\n".as_bytes()).unwrap_err(),
        InputError::Format { line: 2 }
    );
}

#[test]
fn final_line_without_newline_and_crlf() {
    let items = read_items("2 3 10\r\n5 7 20".as_bytes()).unwrap();
    assert_eq!(items, vec![
        LineNumbers { a: 2, b: 3, end: 10 },
        LineNumbers { a: 5, b: 7, end: 20 },
    ]);
}

#[test]
fn words_that_are_not_numbers_are_skipped() {
    assert_eq!(
        parse_line("2 x 3\t10".as_bytes()),
        Some(LineNumbers { a: 2, b: 3, end: 10 })
    );
    assert_eq!(parse_line("  +4 007 12  ".as_bytes()), Some(LineNumbers { a: 4, b: 7, end: 12 }));
}

#[test]
fn u32_parsing_limits() {
    assert_eq!(parse_u32("4294967295".as_bytes()), Some(4294967295));
    assert_eq!(parse_u32("4294967296".as_bytes()), None);
    assert_eq!(parse_u32("-1".as_bytes()), None);
    assert_eq!(parse_u32("+".as_bytes()), None);
    assert_eq!(parse_u32("".as_bytes()), None);
    assert_eq!(parse_u32("+0".as_bytes()), Some(0));
    assert_eq!(parse_u32("12a".as_bytes()), None);
}

#[test]
fn zero_divisor_is_rejected_with_its_line() {
    assert_eq!(
        generate_divisible_numbers("2 3 10\n0 3 10\n".as_bytes()).unwrap_err(),
        InputError::InvalidDivisor { line: 2 }
    );
    assert_eq!(
        run("2 0 5\n".as_bytes()).unwrap_err(),
        InputError::InvalidDivisor { line: 1 }
    );
}

#[test]
fn end_zero_is_empty() {
    let r = divisible_numbers(&LineNumbers { a: 2, b: 3, end: 0 });
    assert!(r.numbers.is_empty());
    assert_eq!(text_of(&r), "0:");
}

#[test]
fn equal_divisors_act_as_one() {
    let r = divisible_numbers(&LineNumbers { a: 4, b: 4, end: 17 });
    let single: Vec<u32> = (1..=17).filter(|n| n % 4 == 0).collect();
    assert_eq!(r.numbers, single);
}

#[test]
fn every_number_qualifies_with_divisor_one() {
    let r = divisible_numbers(&LineNumbers { a: 1, b: 9, end: 5 });
    assert_eq!(r.numbers, vec![1, 2, 3, 4, 5]);
}

#[test]
fn range_matches_filter() {
    for (a, b, end) in [(3u32, 5u32, 30u32), (7, 7, 50), (11, 13, 200), (1000, 999, 10)] {
        let r = divisible_numbers(&LineNumbers { a, b, end });
        let expected: Vec<u32> = (1..=end).filter(|n| n % a == 0 || n % b == 0).collect();
        assert_eq!(r.numbers, expected);
        assert_eq!(r.end, end);
    }
}

#[test]
fn rendered_result_reads_back() {
    for (a, b, end) in [(2u32, 3u32, 10u32), (5, 7, 20), (4, 6, 0), (1, 1, 3)] {
        let r = divisible_numbers(&LineNumbers { a, b, end });
        let back = parse_result_line(&r.to_text()).unwrap();
        assert!(back == r);
    }
    let big = ResultNumbers { end: 4294967295, numbers: vec![0, 10, 4294967295] };
    assert_eq!(text_of(&big), "4294967295:0 10 4294967295");
    assert!(parse_result_line(&big.to_text()).unwrap() == big);
}

#[test]
fn result_line_parse_failures() {
    assert!(parse_result_line("10 2 3".as_bytes()).is_none());
    assert!(parse_result_line("x:2 3".as_bytes()).is_none());
    assert!(parse_result_line("10:2 y".as_bytes()).is_none());
    assert!(parse_result_line("10:".as_bytes()).unwrap().numbers.is_empty());
}

#[test]
fn running_twice_gives_identical_bytes() {
    let input = "5 7 20\n2 3 10\n3 4 0\n".as_bytes();
    let first = run(input).unwrap();
    let second = run(input).unwrap();
    assert_eq!(first, second);
    assert_eq!(String::from_utf8(first).unwrap(), "0:\n10:2 3 4 6 8 9 10\n20:5 7 10 14 15 20\n");
}

#[test]
fn render_results_ends_each_line() {
    let results = vec![
        ResultNumbers { end: 0, numbers: vec![] },
        ResultNumbers { end: 3, numbers: vec![3] },
    ];
    assert_eq!(String::from_utf8(render_results(&results)).unwrap(), "0:\n3:3\n");
}
