use parsercher::dom::Dom;
use parsercher::dom::DomType;
use parsercher::dom::Tag;
use parsercher::dom::Text;

#[test]
fn mod_sufficient_condition() {
    let mut p = Dom::new(DomType::Tag);
    let mut tag = Tag::new("h1");
    tag.set_attr("class", "target");
    p.set_tag(tag);

    let mut q = Dom::new(DomType::Tag);
    let mut tag = Tag::new("h1");
    tag.set_attr("id", "q");
    tag.set_attr("class", "target");
    q.set_tag(tag);

    assert_eq!(Dom::p_implies_q(&p, &q), true);
}

#[test]
fn mod_not_sufficient_condition() {
    let mut p = Dom::new(DomType::Tag);
    let mut tag = Tag::new("h1");
    tag.set_attr("class", "target");
    p.set_tag(tag);

    let mut q = Dom::new(DomType::Tag);
    let mut tag = Tag::new("h1");
    tag.set_attr("id", "q");
    q.set_tag(tag);

    assert_eq!(Dom::p_implies_q(&p, &q), false);
}

#[test]
fn text_sufficient_condition() {
    let mut p = Dom::new(DomType::Text);
    let text = Text::new("def".to_string());
    p.set_text(text);

    let mut q = Dom::new(DomType::Text);
    let text = Text::new("abcdefghi".to_string());
    q.set_text(text);

    assert_eq!(Dom::p_implies_q(&p, &q), true);
}

#[test]
fn p_implies_q_tree_test() {
    // <h1>
    //   <div>
    //   <ul>
    //     <li>
    let mut p = Dom::new(DomType::Tag);
    let h1_tag = Tag::new("h1");
    p.set_tag(h1_tag);
    // div
    let mut div_dom = Dom::new(DomType::Tag);
    let div_tag = Tag::new("div");
    div_dom.set_tag(div_tag);
    p.add_child(div_dom);
    // ul
    let mut ul_dom = Dom::new(DomType::Tag);
    let ul_tag = Tag::new("ul");
    ul_dom.set_tag(ul_tag);
    // li
    let mut li_dom = Dom::new(DomType::Tag);
    let li_tag = Tag::new("li");
    li_dom.set_tag(li_tag);
    ul_dom.add_child(li_dom);
    p.add_child(ul_dom);

    // <h1>
    //   <div id="divid">
    //   <ul>
    //     <li>
    let mut q = Dom::new(DomType::Tag);
    let h1_tag = Tag::new("h1");
    q.set_tag(h1_tag);
    // div
    let mut div_dom = Dom::new(DomType::Tag);
    let mut div_tag = Tag::new("div");
    div_tag.set_attr("id", "divid");
    div_dom.set_tag(div_tag);
    q.add_child(div_dom);
    // ul
    let mut ul_dom = Dom::new(DomType::Tag);
    let ul_tag = Tag::new("ul");
    ul_dom.set_tag(ul_tag);
    // li
    let mut li_dom = Dom::new(DomType::Tag);
    let li_tag = Tag::new("li");
    li_dom.set_tag(li_tag);
    ul_dom.add_child(li_dom);
    q.add_child(ul_dom);

    assert_eq!(Dom::p_implies_q_tree(&p, &q), true);
}

#[test]
fn mod_eq_test() {
    let a = r#"
        <head>
          <title>sample</title>
        </head>
        <body>
          <h1>section</h1>
          <ul>
            <li>list1</li>
            <li>list2</li>
          </ul>
        </body>
        "#;
    let a_dom = parsercher::parse(&a);

    let b = r#"
        <head>
          <title>sample</title>
        </head>
        <body>
          <h1>section</h1>
          <ul>
            <li>list1</li>
            <li>list2</li>
          </ul>
        </body>
        "#;
    let b_dom = parsercher::parse(&b);

    assert_eq!(a_dom == b_dom, true);
    assert_eq!(a_dom != b_dom, false);
}

#[test]
fn mod_ne_test() {
    let a = r#"
        <head>
          <title>sample</title>
        </head>
        <body>
          <h1>section</h1>
          <ul>
            <li>list1</li>
            <li>list2</li>
          </ul>
        </body>
        "#;
    let a_dom = parsercher::parse(&a);

    let b = r#"
        <head>
          <title>sample</title>
        </head>
        <body>
          <h1>section</h1>
          <ul>
            <li>list1</li>
            <li>list3</li>
          </ul>
        </body>
        "#;
    let b_dom = parsercher::parse(&b);

    assert_eq!(a_dom == b_dom, false);
    assert_eq!(a_dom != b_dom, true);
}
