use route::grammar::{parse_number, parse_rect, parse_rectangles, split_bytes};

#[test]
fn one_rectangle() {
    assert_eq!(parse_rectangles(b"1,2,3,4"), Some(vec![(1, 2, 3, 4)]));
}

#[test]
fn several_rectangles() {
    assert_eq!(
        parse_rectangles(b"10,20,30,40;0,0,7,9;1249,849,1249,849"),
        Some(vec![(10, 20, 30, 40), (0, 0, 7, 9), (1249, 849, 1249, 849)])
    );
}

#[test]
fn leading_zeros_are_digits_too() {
    assert_eq!(parse_rectangles(b"007,0,00,10"), Some(vec![(7, 0, 0, 10)]));
}

#[test]
fn empty_text_is_no_rectangle() {
    assert_eq!(parse_rectangles(b""), None);
}

#[test]
fn dangling_separators_are_refused() {
    assert_eq!(parse_rectangles(b"1,2,3,4;"), None);
    assert_eq!(parse_rectangles(b";1,2,3,4"), None);
    assert_eq!(parse_rectangles(b"1,2,3,4;;5,6,7,8"), None);
    assert_eq!(parse_rectangles(b"1,2,3,"), None);
    assert_eq!(parse_rectangles(b",1,2,3"), None);
}

#[test]
fn wrong_number_of_fields_is_refused() {
    assert_eq!(parse_rectangles(b"1,2,3"), None);
    assert_eq!(parse_rectangles(b"1,2,3,4,5"), None);
    assert_eq!(parse_rectangles(b"1,2,3,4;5,6,7"), None);
}

#[test]
fn signs_blanks_and_letters_are_refused() {
    assert_eq!(parse_rectangles(b"+1,2,3,4"), None);
    assert_eq!(parse_rectangles(b"-1,2,3,4"), None);
    assert_eq!(parse_rectangles(b"1, 2,3,4"), None);
    assert_eq!(parse_rectangles(b"1,2,3,4 "), None);
    assert_eq!(parse_rectangles(b"1,2,x,4"), None);
    assert_eq!(parse_rectangles(b"1.0,2,3,4"), None);
}

#[test]
fn numbers_up_to_the_greatest_are_read() {
    let greatest = usize::MAX.to_string();
    assert_eq!(parse_number(&greatest.clone().into_bytes()), Some(usize::MAX));
    let mut beyond = greatest.into_bytes();
    let last = beyond.len() - 1;
    beyond[last] += 1;
    assert_eq!(parse_number(&beyond), None);
    assert_eq!(parse_number(&b"99999999999999999999999999".to_vec()), None);
    assert_eq!(parse_number(&b"0".to_vec()), Some(0));
    assert_eq!(parse_number(&b"".to_vec()), None);
    assert_eq!(parse_number(&b"12a".to_vec()), None);
    assert_eq!(parse_number(&b"4096".to_vec()), Some(4096));
}

#[test]
fn rect_is_four_numbers() {
    assert_eq!(parse_rect(&b"5,6,7,8".to_vec()), Some((5, 6, 7, 8)));
    assert_eq!(parse_rect(&b"5,6,7".to_vec()), None);
    assert_eq!(parse_rect(&b"5;6,7,8".to_vec()), None);
}

#[test]
fn split_keeps_empty_pieces() {
    assert_eq!(split_bytes(b"a,b", b','), vec![b"a".to_vec(), b"b".to_vec()]);
    assert_eq!(split_bytes(b"", b','), vec![Vec::<u8>::new()]);
    assert_eq!(split_bytes(b",", b','), vec![Vec::<u8>::new(), Vec::new()]);
    assert_eq!(
        split_bytes(b"ab,,c,", b','),
        vec![b"ab".to_vec(), Vec::new(), b"c".to_vec(), Vec::new()]
    );
    assert_eq!(split_bytes(b"abc", b';'), vec![b"abc".to_vec()]);
}
