use parsercher::dom::Text;

#[test]
fn text_eq_test() {
    let a = Text::new("a text".to_string());
    let b = Text::new("a text".to_string());
    assert_eq!(a == b, true);
    assert_eq!(a != b, false);
}

#[test]
fn text_ne_test() {
    let a = Text::new("a text".to_string());
    let b = Text::new("b text".to_string());
    assert_eq!(a != b, true);
    assert_eq!(a == b, false);
}
