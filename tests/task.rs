use binairo::task::{fetch_task, get_puzzle_id, parse_task, scrape, ParseError};

#[test]
fn task_is_read_after_its_marker() {
    let body = "<script> var task = \\'0a1c\\'; </script>";
    assert_eq!(fetch_task(body), "0a1c");
    assert_eq!(scrape(body), "0a1c");
}

#[test]
fn task_runs_to_end_without_backslash() {
    let body = "var task = \\'b01";
    assert_eq!(fetch_task(body), "b01");
}

#[test]
fn puzzle_id_is_read_up_to_tag() {
    let body = "<span id=\\\"puzzleID\\\">7,123,456</span>";
    assert_eq!(get_puzzle_id(body), "7,123,456");
}

#[test]
fn missing_puzzle_id_is_special() {
    assert_eq!(get_puzzle_id("no id here"), "Special puzzle");
}

#[test]
fn digits_and_skips_decode_row_by_row() {
    let b = parse_task(String::from("0b1"), 2).unwrap();
    assert_eq!(b, vec![vec![0, -1], vec![-1, 1]]);
    let b = parse_task(String::from("a1c0zz"), 3).unwrap();
    assert_eq!(b, vec![vec![-1, 1, -1], vec![-1, -1, 0], vec![-1, -1, -1]]);
}

#[test]
fn empty_task_leaves_board_unknown() {
    assert_eq!(parse_task(String::new(), 2).unwrap(), vec![vec![-1, -1], vec![-1, -1]]);
}

#[test]
fn invalid_character_is_an_error() {
    assert_eq!(parse_task(String::from("0?1"), 2), Err(ParseError::InvalidCharacter('?')));
}

#[test]
fn digit_past_the_board_is_an_error() {
    assert_eq!(parse_task(String::from("d0"), 2), Err(ParseError::OutsideBoard));
    assert_eq!(parse_task(String::from("00000"), 2), Err(ParseError::OutsideBoard));
}
