use rendering_tree::dom::{AttrMap, Element, Node, Text};
use rendering_tree::error::ParseError;
use rendering_tree::html::{parse, parse_raw};

fn attrs(pairs: &[(&str, &str)]) -> AttrMap {
    AttrMap::from_entries(pairs.iter().map(|(k, v)| (k.to_string(), v.to_string())).collect())
}

fn element(tag: &str, pairs: &[(&str, &str)], children: Vec<Box<Node>>) -> Box<Node> {
    Element::new(tag.to_string(), attrs(pairs), children)
}

fn text(data: &str) -> Box<Node> {
    Text::new(data.to_string())
}

#[test]
fn parse_raw_reads_text_and_elements() {
    assert_eq!(parse_raw(""), Ok(vec![]));
    assert_eq!(parse_raw("hello"), Ok(vec![text("hello")]));
    assert_eq!(parse_raw("<p></p>"), Ok(vec![element("p", &[], vec![])]));
    assert_eq!(
        parse_raw("a<p>b</p>c"),
        Ok(vec![text("a"), element("p", &[], vec![text("b")]), text("c")])
    );
    assert_eq!(
        parse_raw("<div><p>x</p><p>y</p></div>"),
        Ok(vec![element(
            "div",
            &[],
            vec![element("p", &[], vec![text("x")]), element("p", &[], vec![text("y")])]
        )])
    );
}

#[test]
fn parse_raw_reads_attributes() {
    assert_eq!(
        parse_raw("<p id=\"x\" class=\"a b\">t</p>"),
        Ok(vec![element("p", &[("id", "x"), ("class", "a b")], vec![text("t")])])
    );
    assert_eq!(parse_raw("<p id=\"\"></p>"), Ok(vec![element("p", &[("id", "")], vec![])]));
    assert_eq!(
        parse_raw("<p id=\"1\" id=\"2\"></p>"),
        Ok(vec![element("p", &[("id", "2")], vec![])])
    );
}

#[test]
fn parse_raw_keeps_blanks_as_text() {
    assert_eq!(
        parse_raw("<body>\n  <p>hello</p>\n</body>"),
        Ok(vec![element(
            "body",
            &[],
            vec![text("\n  "), element("p", &[], vec![text("hello")]), text("\n")]
        )])
    );
}

#[test]
fn parse_raw_refuses_malformed_markup() {
    for bad in [
        "<p>",
        "<p>text",
        "</p>",
        "<p></div>",
        "<>x</>",
        "<p id></p>",
        "<p id=x></p>",
        "<p id=\"x></p>",
        "<p ></p>",
        "<p  id=\"x\"></p>",
        "<p/>",
        "a<",
        "<p><b></p></b>",
        "<p></p",
    ] {
        assert_eq!(parse_raw(bad), Err(ParseError::Markup), "{}", bad);
    }
}

#[test]
fn parse_reads_one_element() {
    assert_eq!(
        parse("<body><p>hello</p></body>"),
        Ok(element("body", &[], vec![element("p", &[], vec![text("hello")])]))
    );
    assert_eq!(parse(""), Err(ParseError::Markup));
    assert_eq!(parse("text"), Err(ParseError::Markup));
    assert_eq!(parse("<p></p><p></p>"), Err(ParseError::Markup));
    assert_eq!(parse("<p></p> "), Err(ParseError::Markup));
    assert_eq!(parse("<p>"), Err(ParseError::Markup));
}

#[test]
fn what_is_written_is_read_again() {
    let nodes = vec![
        text("one "),
        element(
            "div",
            &[("id", "d"), ("data-x", "1 < 2")],
            vec![element("p", &[], vec![text("two")]), element("br", &[], vec![])],
        ),
        text(" three"),
    ];
    let written: String = nodes.iter().map(|n| n.to_string()).collect();
    assert_eq!(parse_raw(&written), Ok(nodes));
}

#[test]
fn text_with_an_angle_bracket_is_not_read_again() {
    let nodes = vec![text("a < b")];
    let written: String = nodes.iter().map(|n| n.to_string()).collect();
    assert_eq!(parse_raw(&written), Err(ParseError::Markup));
    let written = "ab".to_string();
    assert_eq!(parse_raw(&written), Ok(vec![text("ab")]));
    assert_ne!(parse_raw(&written), Ok(vec![text("a"), text("b")]));
}
