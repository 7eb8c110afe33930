use rendering_tree::css::CSSValue;
use rendering_tree::dom::{AttrMap, Element, NodeType, Text};
use rendering_tree::layout::{BoxProps, BoxType, LayoutBox};
use rendering_tree::render::{
    new_element_container, to_element_container, visible_text, ElementContainer,
};
use rendering_tree::style::PropertyMap;

fn props(value: &str) -> PropertyMap {
    PropertyMap::from_entries(vec![("display".to_string(), CSSValue::Keyword(value.to_string()))])
}

fn block<'a>(node: &'a NodeType, children: Vec<LayoutBox<'a>>) -> LayoutBox<'a> {
    LayoutBox { box_type: BoxType::BlockBox(BoxProps { node_type: node, properties: props("block") }), children }
}

fn inline<'a>(node: &'a NodeType, children: Vec<LayoutBox<'a>>) -> LayoutBox<'a> {
    LayoutBox {
        box_type: BoxType::InlineBox(BoxProps { node_type: node, properties: props("inline") }),
        children,
    }
}

fn anonymous<'a>(children: Vec<LayoutBox<'a>>) -> LayoutBox<'a> {
    LayoutBox { box_type: BoxType::AnonymousBox, children }
}

#[test]
fn visible_text_drops_line_feeds_and_trims() {
    assert_eq!(visible_text("hello"), "hello");
    assert_eq!(visible_text("  hello world \t"), "hello world");
    assert_eq!(visible_text("\n    hello\n    "), "hello");
    assert_eq!(visible_text("a\nb"), "ab");
    assert_eq!(visible_text("a \n b"), "a  b");
    assert_eq!(visible_text(""), "");
    assert_eq!(visible_text(" \n\t \r "), "");
    assert_eq!(visible_text("\u{3000}x\u{a0}"), "x");
    assert_eq!(visible_text("_x_"), "_x_");
}

#[test]
fn new_element_container_shows_nothing() {
    assert_eq!(new_element_container(), ElementContainer::Empty);
}

#[test]
fn an_element_gives_a_titled_container() {
    let div = NodeType::Element(Element { tag_name: "div".into(), attributes: AttrMap::new() });
    let p = NodeType::Element(Element { tag_name: "p".into(), attributes: AttrMap::new() });
    let made = to_element_container(block(&div, vec![inline(&p, vec![]), block(&p, vec![])]));
    assert_eq!(
        made,
        ElementContainer::Titled {
            title: "div".to_string(),
            children: vec![
                ElementContainer::Titled { title: "p".to_string(), children: vec![] },
                ElementContainer::Titled { title: "p".to_string(), children: vec![] },
            ],
        }
    );
}

#[test]
fn an_anonymous_box_gives_a_group() {
    let p = NodeType::Element(Element { tag_name: "p".into(), attributes: AttrMap::new() });
    let text = NodeType::Text(Text { data: " hi ".to_string() });
    let made = to_element_container(anonymous(vec![inline(&p, vec![]), inline(&text, vec![])]));
    assert_eq!(
        made,
        ElementContainer::Group {
            children: vec![
                ElementContainer::Titled { title: "p".to_string(), children: vec![] },
                ElementContainer::Text { text: "hi".to_string() },
            ],
        }
    );
    assert_eq!(to_element_container(anonymous(vec![])), ElementContainer::Group { children: vec![] });
}

#[test]
fn text_gives_a_leaf_and_blank_text_an_empty_one() {
    let text = NodeType::Text(Text { data: "\n  shown\n".to_string() });
    let blank = NodeType::Text(Text { data: "\n   \n".to_string() });
    let none = NodeType::Text(Text { data: String::new() });
    assert_eq!(
        to_element_container(inline(&text, vec![])),
        ElementContainer::Text { text: "shown".to_string() }
    );
    assert_eq!(to_element_container(block(&text, vec![])), ElementContainer::Text { text: "shown".to_string() });
    assert_eq!(to_element_container(inline(&blank, vec![])), ElementContainer::Empty);
    assert_eq!(to_element_container(inline(&none, vec![])), ElementContainer::Empty);
}
