use parsercher::dom::Tag;
use parsercher::satisfy_sufficient_condition;

#[test]
fn get_empty_attr() {
    let tag = Tag::new("h1");
    assert_eq!(None, tag.get_attr("class"));
}

#[test]
fn set_attr() {
    let mut tag = Tag::new("h1");
    tag.set_attr("class", "section1");
    assert_eq!(Some("section1".to_string()), tag.get_attr("class"));
    assert_eq!(None, tag.get_attr("id"));
}

#[test]
fn tag_sufficient_condition() {
    let mut p = Tag::new("h1");
    p.set_attr("class", "target");

    let mut q = Tag::new("h1");
    q.set_attr("id", "q");
    q.set_attr("class", "target");

    assert_eq!(satisfy_sufficient_condition(&p, &q), true);
}

#[test]
fn tag_not_sufficient_condition() {
    let mut p = Tag::new("h1");
    p.set_attr("class", "target");

    let mut q = Tag::new("h1");
    q.set_attr("id", "q");

    assert_eq!(satisfy_sufficient_condition(&p, &q), false);
}

#[test]
fn tag_eq_test() {
    let mut a = Tag::new("h1");
    a.set_attr("id", "idA");
    a.set_attr("class", "classA");

    let mut b = Tag::new("h1");
    b.set_attr("id", "idA");
    b.set_attr("class", "classA");

    assert_eq!(a == b, true);
    assert_eq!(a != b, false);
}

#[test]
fn tag_ne_test() {
    let mut a = Tag::new("h1");
    a.set_attr("id", "idA");
    a.set_attr("class", "classA");

    let mut b = Tag::new("h2");
    b.set_attr("id", "idB");
    b.set_attr("class", "classB");

    assert_eq!(a == b, false);
    assert_eq!(a != b, true);
}
