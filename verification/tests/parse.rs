use mandelbrot::parse::{find_separator, pair_of, parse_pair, split_pair};
use std::str::FromStr;

#[test]
fn test_parse_pair() {
    assert_eq!(parse_pair("", ',', i32::from_str), None);
    assert_eq!(parse_pair("10,", ',', i32::from_str), None);
    assert_eq!(parse_pair(",10", ',', i32::from_str), None);
    assert_eq!(parse_pair("10,20", ',', i32::from_str), Some((10, 20)));
    assert_eq!(parse_pair("10,20xy", ',', i32::from_str), None);
    assert_eq!(parse_pair("0.5x", 'x', f64::from_str), None);
    assert_eq!(parse_pair("0.5x1.5", 'x', f64::from_str), Some((0.5, 1.5)));
}

#[test]
fn parse_pair_reads_both_parts_of_a_point() {
    assert_eq!(
        parse_pair("1.23,-0.012", ',', f64::from_str),
        Some((1.23, -0.012))
    );
    assert_eq!(parse_pair(",-0.012", ',', f64::from_str), None);
}

#[test]
fn parse_pair_without_separator_reads_nothing() {
    let calls = std::cell::Cell::new(0);
    let read = |part: &str| {
        calls.set(calls.get() + 1);
        i32::from_str(part)
    };
    assert_eq!(parse_pair("1020", ',', read), None);
    assert_eq!(calls.get(), 0);
}

#[test]
fn parse_pair_hands_each_side_to_the_reader() {
    let read = |part: &str| -> Result<String, ()> { Ok(part.to_string()) };
    assert_eq!(
        parse_pair("left|right", '|', read),
        Some(("left".to_string(), "right".to_string()))
    );
    assert_eq!(
        parse_pair("a,b,c", ',', read),
        Some(("a".to_string(), "b,c".to_string()))
    );
    assert_eq!(
        parse_pair(",", ',', read),
        Some((String::new(), String::new()))
    );
}

#[test]
fn parse_pair_rejects_surrounding_text() {
    assert_eq!(parse_pair(" 10,20", ',', i32::from_str), None);
    assert_eq!(parse_pair("10, 20", ',', i32::from_str), None);
    assert_eq!(parse_pair("10,20 ", ',', i32::from_str), None);
    assert_eq!(parse_pair("10,,20", ',', i32::from_str), None);
    assert_eq!(parse_pair("-1,+2", ',', i32::from_str), Some((-1, 2)));
}

#[test]
fn parse_pair_with_other_separators() {
    assert_eq!(parse_pair("640x480", 'x', usize::from_str), Some((640, 480)));
    assert_eq!(parse_pair("640x480", ',', usize::from_str), None);
    assert_eq!(parse_pair("3→4", '→', u8::from_str), Some((3, 4)));
    assert_eq!(parse_pair("-1.20,0.35", ',', f64::from_str), Some((-1.20, 0.35)));
}

#[test]
fn find_separator_counts_characters() {
    assert_eq!(find_separator("", ','), None);
    assert_eq!(find_separator("abc", ','), None);
    assert_eq!(find_separator(",", ','), Some(0));
    assert_eq!(find_separator("ab,cd,ef", ','), Some(2));
    assert_eq!(find_separator("äö,ü", ','), Some(2));
    assert_eq!(find_separator("äö,ü", 'ü'), Some(3));
}

#[test]
fn split_pair_cuts_at_the_first_separator() {
    assert_eq!(split_pair("", ','), None);
    assert_eq!(split_pair("abc", ','), None);
    assert_eq!(split_pair(",", ','), Some(("", "")));
    assert_eq!(split_pair("10,", ','), Some(("10", "")));
    assert_eq!(split_pair(",10", ','), Some(("", "10")));
    assert_eq!(split_pair("10,20", ','), Some(("10", "20")));
    assert_eq!(split_pair("a,b,c", ','), Some(("a", "b,c")));
    assert_eq!(split_pair("äö→üß", '→'), Some(("äö", "üß")));
}

#[test]
fn pair_of_needs_both_sides() {
    assert_eq!(pair_of::<i32, ()>(Ok(1), Ok(2)), Some((1, 2)));
    assert_eq!(pair_of::<i32, ()>(Err(()), Ok(2)), None);
    assert_eq!(pair_of::<i32, ()>(Ok(1), Err(())), None);
    assert_eq!(pair_of::<i32, ()>(Err(()), Err(())), None);
}
