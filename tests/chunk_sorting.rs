use external_sorting::{parse_chunk, parse_field, push_int, render_chunk, ParseError, ProcessHugeFile};

fn run() -> ProcessHugeFile {
    ProcessHugeFile::new(String::from("./huge.txt"))
}

fn values_of(text: &[u8]) -> Vec<i64> {
    parse_chunk(text).unwrap()
}

#[test]
fn sorts_small_chunk() {
    assert_eq!(run().sort_chunk(b"5 3 1"), Ok(b"1 3 5".to_vec()));
}

#[test]
fn sorts_with_negatives_and_duplicates() {
    assert_eq!(
        run().sort_chunk(b"  4 -7 4 0 +2 -7\n"),
        Ok(b"-7 -7 0 2 4 4".to_vec())
    );
}

#[test]
fn sorted_chunk_is_permutation_in_order() {
    let input = b"9 -1 3 3 100 -50 7";
    let out = run().sort_chunk(input).unwrap();
    let before = values_of(input);
    let after = values_of(&out);
    assert!(after.windows(2).all(|w| w[0] <= w[1]));
    let mut expected = before.clone();
    expected.sort();
    assert_eq!(after, expected);
    assert_eq!(after.len(), before.len());
}

#[test]
fn sorting_twice_gives_same_bytes() {
    let once = run().sort_chunk(b"31 -4 15 9 -26 5").unwrap();
    let twice = run().sort_chunk(&once).unwrap();
    assert_eq!(once, twice);
    assert_eq!(once, b"-26 -4 5 9 15 31".to_vec());
}

#[test]
fn empty_chunk_is_a_parse_error() {
    assert_eq!(run().sort_chunk(b""), Err(ParseError { field_index: 0 }));
    assert_eq!(run().sort_chunk(b" \n "), Err(ParseError { field_index: 0 }));
}

#[test]
fn double_space_is_a_parse_error() {
    assert_eq!(run().sort_chunk(b"1  2"), Err(ParseError { field_index: 1 }));
}

#[test]
fn non_numeric_field_is_a_parse_error() {
    assert_eq!(run().sort_chunk(b"1 2 x3 y"), Err(ParseError { field_index: 2 }));
}

#[test]
fn token_cut_at_sign_is_a_parse_error() {
    // the source "10 -5 2" cut after four bytes
    assert_eq!(run().sort_chunk(b"10 -"), Err(ParseError { field_index: 1 }));
    assert_eq!(run().sort_chunk(b"5 2"), Ok(b"2 5".to_vec()));
}

#[test]
fn token_cut_inside_digits_is_garbled() {
    // the source "7 123 4" cut after four bytes: "123" becomes "12" and "3"
    assert_eq!(run().sort_chunk(b"7 12"), Ok(b"7 12".to_vec()));
    assert_eq!(run().sort_chunk(b"3 4"), Ok(b"3 4".to_vec()));
}

#[test]
fn newline_inside_is_not_a_separator() {
    assert_eq!(run().sort_chunk(b"1\n2"), Err(ParseError { field_index: 0 }));
}

#[test]
fn parse_field_limits() {
    let s = b"-9223372036854775808 9223372036854775807 9223372036854775808 -9223372036854775809";
    assert_eq!(parse_field(s, 0, 20), Some(i64::MIN));
    assert_eq!(parse_field(s, 21, 40), Some(i64::MAX));
    assert_eq!(parse_field(s, 41, 60), None);
    assert_eq!(parse_field(s, 61, 81), None);
}

#[test]
fn parse_field_signs() {
    let s = b"+17 -0 - + 007";
    assert_eq!(parse_field(s, 0, 3), Some(17));
    assert_eq!(parse_field(s, 4, 6), Some(0));
    assert_eq!(parse_field(s, 7, 8), None);
    assert_eq!(parse_field(s, 9, 10), None);
    assert_eq!(parse_field(s, 11, 14), Some(7));
    assert_eq!(parse_field(s, 3, 3), None);
}

#[test]
fn render_extremes() {
    let mut out = b"x".to_vec();
    push_int(&mut out, i64::MIN);
    assert_eq!(out, b"x-9223372036854775808".to_vec());
    assert_eq!(render_chunk(&vec![0, -1, 42, i64::MAX]), b"0 -1 42 9223372036854775807".to_vec());
    assert_eq!(render_chunk(&vec![]), Vec::<u8>::new());
}

#[test]
fn internal_sort_sorts() {
    let mut v = vec![3, 1, 2, 1, -5, 10, 0];
    run().internal_sort(&mut v);
    assert_eq!(v, vec![-5, 0, 1, 1, 2, 3, 10]);
    let mut e: Vec<i64> = vec![];
    run().internal_sort(&mut e);
    assert!(e.is_empty());
    let mut one = vec![7];
    run().internal_sort(&mut one);
    assert_eq!(one, vec![7]);
}

#[test]
fn unicode_whitespace_trimmed_at_ends() {
    assert_eq!(run().sort_chunk("\u{a0}5 3\u{3000}\n".as_bytes()), Ok(b"3 5".to_vec()));
    assert_eq!(run().sort_chunk("\u{2028} 7 1\u{85}".as_bytes()), Ok(b"1 7".to_vec()));
    assert_eq!(run().sort_chunk("\u{1680}\u{2000}\u{200a}2\u{2029}\u{202f}\u{205f}".as_bytes()), Ok(b"2".to_vec()));
}

#[test]
fn unicode_whitespace_inside_is_a_parse_error() {
    assert_eq!(run().sort_chunk("5\u{a0}3".as_bytes()), Err(ParseError { field_index: 0 }));
    // a zero-width space is not whitespace
    assert_eq!(run().sort_chunk("\u{200b}5".as_bytes()), Err(ParseError { field_index: 0 }));
}
