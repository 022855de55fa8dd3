use search_bench::codec::parse_line;
use search_bench::codec::render_line;
use search_bench::codec::render_sizes_line;

#[test]
fn render_empty_line() {
    let s = render_line(&vec![]);
    assert_eq!(s.as_str(), "\n");
}

#[test]
fn render_single_value() {
    let s = render_line(&vec![0]);
    assert_eq!(s.as_str(), "0\n");
}

#[test]
fn render_joins_with_spaces() {
    let s = render_line(&vec![10, 200, 3]);
    assert_eq!(s.as_str(), "10 200 3\n");
}

#[test]
fn render_sizes_matches_decimal() {
    let s = render_sizes_line(&vec![0usize, 1000, 100000]);
    assert_eq!(s.as_str(), "0 1000 100000\n");
}

#[test]
fn render_largest_value() {
    let s = render_line(&vec![u128::MAX]);
    assert_eq!(s.as_str(), "340282366920938463463374607431768211455\n");
}

#[test]
fn parse_concrete_line() {
    let r = parse_line("0 1 2 3\n");
    assert_eq!(r, Some(vec![0, 1, 2, 3]));
}

#[test]
fn parse_handles_extra_whitespace() {
    let r = parse_line("  7\t 8 \r\n 9 ");
    assert_eq!(r, Some(vec![7, 8, 9]));
}

#[test]
fn parse_empty_line() {
    assert_eq!(parse_line(""), Some(vec![]));
    assert_eq!(parse_line(" \n \t"), Some(vec![]));
}

#[test]
fn parse_rejects_non_digits() {
    assert_eq!(parse_line("12x\n"), None);
    assert_eq!(parse_line("1 -2\n"), None);
    assert_eq!(parse_line("3.5\n"), None);
}

#[test]
fn parse_rejects_overflow() {
    // one more than u128::MAX
    assert_eq!(parse_line("340282366920938463463374607431768211456\n"), None);
    assert_eq!(parse_line("999999999999999999999999999999999999999999\n"), None);
}

#[test]
fn parse_accepts_largest_value() {
    let r = parse_line("340282366920938463463374607431768211455\n");
    assert_eq!(r, Some(vec![u128::MAX]));
}

#[test]
fn totals_file_round_trip() {
    let totals: Vec<u128> = vec![0, 1, 42, 99999, u128::MAX];
    let line = render_line(&totals);
    assert_eq!(parse_line(line.as_str()), Some(totals));
}

#[test]
fn sizes_file_round_trip() {
    let sizes: Vec<usize> = vec![0, 1000, 2000, 100000];
    let line = render_sizes_line(&sizes);
    let back = parse_line(line.as_str()).unwrap();
    let as_wide: Vec<u128> = sizes.iter().map(|s| *s as u128).collect();
    assert_eq!(back, as_wide);
}
