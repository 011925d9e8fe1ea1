use parsercher::dom::Comment;

#[test]
fn comment_eq_test() {
    let a = Comment::new("a comment".to_string());
    let b = Comment::new("a comment".to_string());
    assert_eq!(a == b, true);
    assert_eq!(a != b, false);
}

#[test]
fn comment_ne_test() {
    let a = Comment::new("a comment".to_string());
    let b = Comment::new("b comment".to_string());
    assert_eq!(a != b, true);
    assert_eq!(a == b, false);
}
