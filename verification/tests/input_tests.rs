use parsercher::parser::input::Input;

// Input::new()
#[test]
fn new_input_with_empty_str() {
    assert!(Input::new("").is_err())
}

#[test]
fn new_input() {
    let input = Input::new("test").unwrap();
    assert_eq!(input.get_input(), vec!('t', 'e', 's', 't'));
    assert_eq!(input.get_cursor(), 0);
}

// Input.set_cursor()
#[test]
fn set_cursor_less_than_input_len() {
    let mut input = Input::new("test").unwrap();
    input.set_cursor(2);
    assert_eq!(input.get_cursor(), 2);
}

#[test]
fn set_cursor_equal_input_len() {
    let mut input = Input::new("test").unwrap();
    input.set_cursor(4);
    assert_eq!(input.get_cursor(), 3);
}

#[test]
fn set_cursor_greater_than_input_len() {
    let mut input = Input::new("test").unwrap();
    input.set_cursor(10);
    assert_eq!(input.get_cursor(), 3);
}

// Input.next()
#[test]
fn next() {
    let mut input = Input::new("test").unwrap();
    assert_eq!(input.get_cursor(), 0);
    input.next();
    assert_eq!(input.get_cursor(), 1);
    input.next();
    assert_eq!(input.get_cursor(), 2);
}

#[test]
fn next_longer_than_input() {
    let mut input = Input::new("test").unwrap();
    for _ in 0..10 {
        input.next();
    }
    assert_eq!(input.get_cursor(), 3);
}

// Input.next_char()
#[test]
fn next_char() {
    let mut input = Input::new("test").unwrap();
    assert_eq!(input.get_cursor(), 0);
    input.next_char();
    assert_eq!(input.get_cursor(), 1);
    input.next_char();
    assert_eq!(input.get_cursor(), 2);
}

#[test]
fn next_char_skip_space() {
    let mut input = Input::new(" te s t").unwrap();
    assert_eq!(input.get_cursor(), 0);
    input.next_char();
    assert_eq!(input.get_cursor(), 1);
    input.next_char();
    assert_eq!(input.get_cursor(), 2);
    input.next_char();
    assert_eq!(input.get_cursor(), 4);
    input.next_char();
    assert_eq!(input.get_cursor(), 6);
}

#[test]
fn next_char_skip_line_feed() {
    let mut input = Input::new("\nte\ns\nt").unwrap();
    assert_eq!(input.get_cursor(), 0);
    input.next_char();
    assert_eq!(input.get_cursor(), 1);
    input.next_char();
    assert_eq!(input.get_cursor(), 2);
    input.next_char();
    assert_eq!(input.get_cursor(), 4);
    input.next_char();
    assert_eq!(input.get_cursor(), 6);
}

#[test]
fn next_char_skip_space_line_feed() {
    let mut input = Input::new("\nt   e \ns  \nt\n ").unwrap();
    assert_eq!(input.get_cursor(), 0);
    input.next_char();
    assert_eq!(input.get_cursor(), 1);
    input.next_char();
    assert_eq!(input.get_cursor(), 5);
    input.next_char();
    assert_eq!(input.get_cursor(), 8);
    input.next_char();
    assert_eq!(input.get_cursor(), 12);
    input.next_char();
    assert_eq!(input.get_cursor(), 12);
}

// Input.is_end()
#[test]
fn is_end() {
    let mut input = Input::new("test").unwrap();
    assert_eq!(input.is_end(), false);
    input.set_cursor(3);
    assert_eq!(input.is_end(), true);
}

// Input.expect()
#[test]
fn expect() {
    let mut input = Input::new("test").unwrap();
    assert_eq!(input.expect('t'), true);
    assert_eq!(input.expect('x'), false);
    input.next();
    assert_eq!(input.expect('e'), true);
    assert_eq!(input.expect('x'), false);
}

// Input.expect_str()
#[test]
fn expect_str() {
    let mut input = Input::new("TeSt").unwrap();
    assert_eq!(input.expect_str("TeS"), true);
    assert_eq!(input.expect_str("tes"), false);
    assert_eq!(input.expect_str("est"), false);
    input.next();
    assert_eq!(input.expect_str("eSt"), true);
    assert_eq!(input.expect_str("est"), false);
    assert_eq!(input.expect_str("test"), false);
}

// Input.get_string() / Input.get_char()
#[test]
fn get_string_rejects_bad_ranges() {
    let input = parsercher::parser::input::Input::new("test").unwrap();
    assert_eq!(input.get_string(1, 3).unwrap(), "es".to_string());
    assert_eq!(input.get_string(0, 4).unwrap(), "test".to_string());
    assert_eq!(input.get_string(2, 2), Err(parsercher::ParseError::InvalidSlice));
    assert_eq!(input.get_string(3, 1), Err(parsercher::ParseError::InvalidSlice));
    assert_eq!(input.get_string(0, 5), Err(parsercher::ParseError::InvalidSlice));
    assert_eq!(input.get_char(2), Ok('s'));
    assert_eq!(input.get_char(4), Err(parsercher::ParseError::InvalidSlice));
}

// Input.expect_str_insensitive()
#[test]
fn expect_str_insensitive() {
    let mut input = Input::new("TeSt").unwrap();
    assert_eq!(input.expect_str_insensitive("TeS"), true);
    assert_eq!(input.expect_str_insensitive("tes"), true);
    assert_eq!(input.expect_str_insensitive("est"), false);
    input.next();
    assert_eq!(input.expect_str_insensitive("eSt"), true);
    assert_eq!(input.expect_str_insensitive("est"), true);
    assert_eq!(input.expect_str_insensitive("test"), false);
}
