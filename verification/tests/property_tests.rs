use parsercher::dom::Dom;
use parsercher::dom::DomType;
use parsercher::dom::Tag;
use parsercher::satisfy_sufficient_condition;
use parsercher::ParseError;

// The sufficient-condition relation is reflexive on any concrete tag.
#[test]
fn sufficient_condition_reflexive() {
    let mut t = Tag::new("div");
    t.set_attr("id", "a");
    t.set_attr("class", "b c");
    assert_eq!(satisfy_sufficient_condition(&t, &t), true);
}

// A pattern attribute with an empty value matches any value of that
// attribute, but still requires the attribute to be present.
#[test]
fn wildcard_attr_matches_any_value() {
    let mut p = Tag::new("li");
    p.set_attr("class", "");

    let mut q1 = Tag::new("li");
    q1.set_attr("class", "anything");
    assert_eq!(satisfy_sufficient_condition(&p, &q1), true);

    let mut q2 = Tag::new("li");
    q2.set_attr("class", "other");
    assert_eq!(satisfy_sufficient_condition(&p, &q2), true);

    let mut q3 = Tag::new("li");
    q3.set_attr("id", "no-class-here");
    assert_eq!(satisfy_sufficient_condition(&p, &q3), false);
}

// Extra, unrelated attributes on a matching candidate never break the match.
#[test]
fn extra_attrs_keep_match() {
    let mut p = Tag::new("li");
    p.set_attr("class", "target");

    let mut q = Tag::new("li");
    q.set_attr("class", "target");
    assert_eq!(satisfy_sufficient_condition(&p, &q), true);

    q.set_attr("id", "third");
    q.set_attr("style", "color: red");
    assert_eq!(satisfy_sufficient_condition(&p, &q), true);
}

// Self-closed tags never acquire children, whatever follows them.
#[test]
fn self_closed_tag_stays_childless() {
    let doc = r#"<div><br />some text<p>para</p></div>"#;
    let root = parsercher::parse(&doc).unwrap();
    let div = root.get_children().unwrap().get(0).unwrap();
    let br = div.get_children().unwrap().get(0).unwrap();
    assert_eq!("br".to_string(), br.get_tag().unwrap().get_name());
    assert_eq!(br.get_tag().unwrap().is_terminated(), true);
    assert!(br.get_children().is_none());
    // the text and the paragraph become siblings of <br/>, not children
    let text = div.get_children().unwrap().get(1).unwrap();
    assert_eq!("some text", text.get_text().unwrap().get_text());
    let p = div.get_children().unwrap().get(2).unwrap();
    assert_eq!("p".to_string(), p.get_tag().unwrap().get_name());
}

// A script body is captured verbatim, literal '<' and '>' included, up to
// the closing sequence.
#[test]
fn script_body_verbatim() {
    let doc = "<body><script>if (a<b && c>d) { e(); }</script></body>";
    let root = parsercher::parse(&doc).unwrap();
    let body = root.get_children().unwrap().get(0).unwrap();
    let script = body.get_children().unwrap().get(0).unwrap();
    assert_eq!("script".to_string(), script.get_tag().unwrap().get_name());
    let code = script.get_children().unwrap().get(0).unwrap();
    assert_eq!("if (a<b && c>d) { e(); }", code.get_text().unwrap().get_text());
}

// Scenario: search_tag over the <ol> document returns exactly the two
// matching <li> tags, in document order.
#[test]
fn search_tag_scenario() {
    let doc = r#"<ol><li class="target">first</li><li>second</li><li id="third" class="target">therd</li></ol>"#;
    let root = parsercher::parse(&doc).unwrap();

    let mut needle = Tag::new("li");
    needle.set_attr("class", "target");

    let tags = parsercher::search_tag(&root, &needle).unwrap();
    assert_eq!(tags.len(), 2);
    assert_eq!(Some("target".to_string()), tags[0].get_attr("class"));
    assert_eq!(None, tags[0].get_attr("id"));
    assert_eq!(Some("target".to_string()), tags[1].get_attr("class"));
    assert_eq!(Some("third".to_string()), tags[1].get_attr("id"));
}

// Scenario: search_attr returns the attribute's four values in pre-order
// traversal order.
#[test]
fn search_attr_scenario() {
    let html = r#"
<!DOCTYPE html>
<html>
  <head>
    <meta charset="UTF-8">
    <meta target="value1">
    <title>sample html</title>
  </head>
  <body target="value2">
    <h1>sample</h1>

    <div id="content" target="value3"></div>

    <ol>
      <li>first</li>
      <li target="value4">second</li>
      <li>therd</li>
    </ol>
  </body>
</html>
"#;
    let dom = parsercher::parse(&html).unwrap();

    let values = parsercher::search_attr(&dom, "target").unwrap();
    assert_eq!(values.len(), 4);
    assert_eq!(values[0], "value1".to_string());
    assert_eq!(values[1], "value2".to_string());
    assert_eq!(values[2], "value3".to_string());
    assert_eq!(values[3], "value4".to_string());
}

// search_text_from_tag_children collects the texts of the matched tags'
// direct Text children, in document order.
#[test]
fn search_text_scenario() {
    let html = r#"
<body>
  <ol>
    <li class="target">first</li>
    <li>second</li>
    <li class="target">therd</li>
  </ol>
</body>
"#;
    let root = parsercher::parse(&html).unwrap();
    let mut needle = Tag::new("li");
    needle.set_attr("class", "target");
    let texts = parsercher::search_text_from_tag_children(&root, &needle).unwrap();
    assert_eq!(texts.len(), 2);
    assert_eq!(texts[0], "first".to_string());
    assert_eq!(texts[1], "therd".to_string());
}

// search_tag_from_name matches by exact name, without pattern semantics.
#[test]
fn search_tag_from_name_scenario() {
    let html = r#"
<body>
   <h1 class="h1">section1</h1>
   <h2 class="h2">section2</h2>
   <h3 class="h3">section3</h3>
</body>
"#;
    let root = parsercher::parse(&html).unwrap();
    let tags = parsercher::search_tag_from_name(&root, "h2").unwrap();
    assert_eq!(tags.len(), 1);
    assert_eq!("h2".to_string(), tags[0].get_name());
    assert_eq!(Some("h2".to_string()), tags[0].get_attr("class"));
    assert!(parsercher::search_tag_from_name(&root, "h4").is_none());
}

// Running the same query twice against the same tree yields deep-equal
// results.
#[test]
fn queries_idempotent() {
    let html = r#"
<body>
  <ul class="targetList">
    <li class="key1">1-1</li>
    <li class="key2">1-2</li>
  </ul>
</body>
"#;
    let root = parsercher::parse(&html).unwrap();

    let mut needle = Tag::new("li");
    needle.set_attr("class", "");
    let r1 = parsercher::search_tag(&root, &needle);
    let r2 = parsercher::search_tag(&root, &needle);
    assert_eq!(r1, r2);

    let a1 = parsercher::search_attr(&root, "class");
    let a2 = parsercher::search_attr(&root, "class");
    assert_eq!(a1, a2);

    let mut pattern = Dom::new(DomType::Tag);
    let mut ul = Tag::new("ul");
    ul.set_attr("class", "targetList");
    pattern.set_tag(ul);
    let d1 = parsercher::search_dom(&root, &pattern);
    let d2 = parsercher::search_dom(&root, &pattern);
    assert_eq!(d1, d2);
}

// A document without any tag yields the bare synthetic root.
#[test]
fn document_without_tags_yields_empty_root() {
    let root = parsercher::parse("plain text only").unwrap();
    assert_eq!("root".to_string(), root.get_tag().unwrap().get_name());
    assert!(root.get_children().is_none());
}

// The structural match is not bijective: one candidate child may satisfy
// several pattern children at once.
#[test]
fn structural_match_is_not_bijective() {
    let html = r#"<body><ul class="x"><li class="a">only</li></ul></body>"#;
    let root = parsercher::parse(&html).unwrap();

    // a pattern asking twice for an li of class "a"
    let mut pattern = Dom::new(DomType::Tag);
    let mut ul = Tag::new("ul");
    ul.set_attr("class", "x");
    pattern.set_tag(ul);
    for _ in 0..2 {
        let mut li = Dom::new(DomType::Tag);
        let mut li_tag = Tag::new("li");
        li_tag.set_attr("class", "a");
        li.set_tag(li_tag);
        pattern.add_child(li);
    }

    // the single candidate child answers for both pattern children
    let found = parsercher::search_dom(&root, &pattern).unwrap();
    let matches = found.get_children().unwrap();
    assert_eq!(matches.len(), 1);
    assert_eq!("ul".to_string(), matches[0].get_tag().unwrap().get_name());
}

// A pattern child without any counterpart makes the whole tree match fail.
#[test]
fn tree_match_fails_without_counterpart() {
    let html = r#"<ul class="x"><li class="a">1</li></ul>"#;
    let root = parsercher::parse(&html).unwrap();
    let candidate = root.get_children().unwrap().get(0).unwrap();

    let mut pattern = Dom::new(DomType::Tag);
    let mut ul = Tag::new("ul");
    ul.set_attr("class", "x");
    pattern.set_tag(ul);
    let mut li = Dom::new(DomType::Tag);
    let mut li_tag = Tag::new("li");
    li_tag.set_attr("class", "b");
    li.set_tag(li_tag);
    pattern.add_child(li);

    assert_eq!(Dom::p_implies_q_tree(&pattern, candidate), false);
}

// Each parse error comes from the input that provokes it.
#[test]
fn parse_error_variants() {
    assert_eq!(parsercher::parse(""), Err(ParseError::EmptyInput));
    assert_eq!(parsercher::parse("  \n  "), Err(ParseError::EmptyInput));
    assert_eq!(parsercher::parse("<body><div"), Err(ParseError::UnterminatedTag));
    assert_eq!(parsercher::parse("<body><!-- lost"), Err(ParseError::UnterminatedComment));
    assert_eq!(
        parsercher::parse(r#"<body><a href="x</body>"#),
        Err(ParseError::UnterminatedAttributeValue)
    );
}

// Even a degenerate empty attribute name parses: the empty name is kept as a
// key, and the slice guard never surfaces from a parse.
#[test]
fn empty_attr_name_parses() {
    let root = parsercher::parse("<a =1>").unwrap();
    let a = root.get_children().unwrap().get(0).unwrap();
    assert_eq!("a".to_string(), a.get_tag().unwrap().get_name());
    assert_eq!(Some("".to_string()), a.get_tag().unwrap().get_attr(""));
}

// An empty comment parses to a Comment node with the empty interior.
#[test]
fn empty_comment_parses() {
    let root = parsercher::parse("<body><!----></body>").unwrap();
    let body = root.get_children().unwrap().get(0).unwrap();
    let comment = body.get_children().unwrap().get(0).unwrap();
    assert_eq!("", comment.get_comment().unwrap().get_comment());
    assert_eq!(DomType::Comment, comment.dom_type);
}

// Text after the last tag runs to the end of the input, as one fragment.
#[test]
fn trailing_text_runs_to_end() {
    let root = parsercher::parse("<a>tail").unwrap();
    let kids = root.get_children().unwrap();
    assert_eq!(kids.len(), 2);
    assert_eq!("a".to_string(), kids[0].get_tag().unwrap().get_name());
    assert_eq!("tail", kids[1].get_text().unwrap().get_text());

    // the same with a space before a short tail
    let root = parsercher::parse("<a> b").unwrap();
    let kids = root.get_children().unwrap();
    assert_eq!(kids.len(), 2);
    assert_eq!("b", kids[1].get_text().unwrap().get_text());
}

// A bare `<>` parses to a tag with the empty name, not an error.
#[test]
fn empty_tag_name_parses() {
    let root = parsercher::parse("<>").unwrap();
    let kids = root.get_children().unwrap();
    assert_eq!(kids.len(), 1);
    assert_eq!("".to_string(), kids[0].get_tag().unwrap().get_name());
}

// One exact parse: names, attributes, quoting variants, and nesting.
#[test]
fn parse_exact_shape() {
    let doc = r#"<div id="a" class='b c'><span>inner</span>tail</div>"#;
    let root = parsercher::parse(&doc).unwrap();
    assert_eq!(DomType::Tag, root.dom_type);
    assert_eq!("root".to_string(), root.get_tag().unwrap().get_name());

    let children = root.get_children().unwrap();
    assert_eq!(children.len(), 1);
    let div = children.get(0).unwrap();
    assert_eq!("div".to_string(), div.get_tag().unwrap().get_name());
    assert_eq!(Some("a".to_string()), div.get_tag().unwrap().get_attr("id"));
    assert_eq!(Some("b c".to_string()), div.get_tag().unwrap().get_attr("class"));

    let div_children = div.get_children().unwrap();
    assert_eq!(div_children.len(), 2);
    let span = div_children.get(0).unwrap();
    assert_eq!("span".to_string(), span.get_tag().unwrap().get_name());
    let inner = span.get_children().unwrap().get(0).unwrap();
    assert_eq!("inner", inner.get_text().unwrap().get_text());
    let tail = div_children.get(1).unwrap();
    assert_eq!("tail", tail.get_text().unwrap().get_text());
}

// Sibling order in the tree equals declaration order in the source.
#[test]
fn sibling_order_is_declaration_order() {
    let doc = "<body><em>x</em><ol>t</ol><p>y</p><hr /></body>";
    let root = parsercher::parse(&doc).unwrap();
    let body = root.get_children().unwrap().get(0).unwrap();
    let kids = body.get_children().unwrap();
    assert_eq!(kids.len(), 4);
    assert_eq!("em".to_string(), kids[0].get_tag().unwrap().get_name());
    assert_eq!("ol".to_string(), kids[1].get_tag().unwrap().get_name());
    assert_eq!("p".to_string(), kids[2].get_tag().unwrap().get_name());
    assert_eq!("hr".to_string(), kids[3].get_tag().unwrap().get_name());
}
