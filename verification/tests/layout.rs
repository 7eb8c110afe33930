use rendering_tree::css::CSSValue;
use rendering_tree::dom::{AttrMap, Element, NodeType};
use rendering_tree::layout::{to_layout_box, BoxProps, BoxType, LayoutBox};
use rendering_tree::style::{PropertyMap, StyledNode};

fn display(value: &str) -> PropertyMap {
    PropertyMap::from_entries(vec![("display".to_string(), CSSValue::Keyword(value.to_string()))])
}

#[test]
fn test_to_layout_box() {
    let block = || display("block");
    let inline = || display("inline");

    let node = NodeType::Element(Element { tag_name: "div".into(), attributes: AttrMap::new() });
    let snode = StyledNode {
        node_type: &node,
        properties: block(),
        children: vec![
            StyledNode { node_type: &node, properties: block(), children: vec![] },
            StyledNode {
                node_type: &node,
                properties: inline(),
                children: vec![
                    StyledNode { node_type: &node, properties: block(), children: vec![] },
                    StyledNode { node_type: &node, properties: block(), children: vec![] },
                ],
            },
            StyledNode { node_type: &node, properties: inline(), children: vec![] },
            StyledNode { node_type: &node, properties: block(), children: vec![] },
        ],
    };

    assert_eq!(
        to_layout_box(snode),
        LayoutBox {
            box_type: BoxType::BlockBox(BoxProps { node_type: &node, properties: block() }),
            children: vec![
                LayoutBox {
                    box_type: BoxType::BlockBox(BoxProps {
                        node_type: &node,
                        properties: block(),
                    }),
                    children: vec![],
                },
                LayoutBox {
                    box_type: BoxType::AnonymousBox,
                    children: vec![
                        LayoutBox {
                            box_type: BoxType::InlineBox(BoxProps {
                                node_type: &node,
                                properties: inline(),
                            }),
                            children: vec![
                                LayoutBox {
                                    box_type: BoxType::BlockBox(BoxProps {
                                        node_type: &node,
                                        properties: block(),
                                    }),
                                    children: vec![],
                                },
                                LayoutBox {
                                    box_type: BoxType::BlockBox(BoxProps {
                                        node_type: &node,
                                        properties: block(),
                                    }),
                                    children: vec![],
                                }
                            ],
                        },
                        LayoutBox {
                            box_type: BoxType::InlineBox(BoxProps {
                                node_type: &node,
                                properties: inline(),
                            }),
                            children: vec![],
                        }
                    ]
                },
                LayoutBox {
                    box_type: BoxType::BlockBox(BoxProps {
                        node_type: &node,
                        properties: block(),
                    }),
                    children: vec![],
                }
            ],
        }
    );
}

fn styled<'a>(node: &'a NodeType, value: &str, children: Vec<StyledNode<'a>>) -> StyledNode<'a> {
    StyledNode { node_type: node, properties: display(value), children }
}

fn kinds(boxes: &[LayoutBox]) -> Vec<&'static str> {
    boxes
        .iter()
        .map(|b| match b.box_type {
            BoxType::BlockBox(_) => "block",
            BoxType::InlineBox(_) => "inline",
            BoxType::AnonymousBox => "anonymous",
        })
        .collect()
}

#[test]
fn block_inline_inline_block_gives_three_boxes() {
    let node = NodeType::Element(Element { tag_name: "div".into(), attributes: AttrMap::new() });
    let a = NodeType::Element(Element { tag_name: "a".into(), attributes: AttrMap::new() });
    let b = NodeType::Element(Element { tag_name: "b".into(), attributes: AttrMap::new() });
    let parent = styled(
        &node,
        "block",
        vec![
            styled(&node, "block", vec![]),
            styled(&a, "inline", vec![]),
            styled(&b, "inline", vec![]),
            styled(&node, "block", vec![]),
        ],
    );
    let layout = to_layout_box(parent);
    assert_eq!(kinds(&layout.children), vec!["block", "anonymous", "block"]);
    assert_eq!(kinds(&layout.children[1].children), vec!["inline", "inline"]);
    assert_eq!(
        layout.children[1].children[0].box_type,
        BoxType::InlineBox(BoxProps { node_type: &a, properties: display("inline") })
    );
    assert_eq!(
        layout.children[1].children[1].box_type,
        BoxType::InlineBox(BoxProps { node_type: &b, properties: display("inline") })
    );
}

#[test]
fn inline_runs_are_wrapped_at_both_ends_too() {
    let node = NodeType::Element(Element { tag_name: "div".into(), attributes: AttrMap::new() });
    let parent = styled(
        &node,
        "block",
        vec![
            styled(&node, "inline", vec![]),
            styled(&node, "block", vec![]),
            styled(&node, "block", vec![]),
            styled(&node, "inline", vec![]),
            styled(&node, "inline", vec![]),
            styled(&node, "inline", vec![]),
        ],
    );
    let layout = to_layout_box(parent);
    assert_eq!(kinds(&layout.children), vec!["anonymous", "block", "block", "anonymous"]);
    assert_eq!(layout.children[0].children.len(), 1);
    assert_eq!(layout.children[3].children.len(), 3);
}

#[test]
fn a_node_without_children_gives_a_box_without_children() {
    let node = NodeType::Element(Element { tag_name: "div".into(), attributes: AttrMap::new() });
    let layout = to_layout_box(styled(&node, "inline", vec![]));
    assert_eq!(
        layout,
        LayoutBox {
            box_type: BoxType::InlineBox(BoxProps { node_type: &node, properties: display("inline") }),
            children: vec![],
        }
    );
    let unset = StyledNode { node_type: &node, properties: PropertyMap::new(), children: vec![] };
    assert_eq!(kinds(&[to_layout_box(unset)]), vec!["inline"]);
}

#[test]
fn an_inline_parent_wraps_its_inline_children_too() {
    let node = NodeType::Element(Element { tag_name: "span".into(), attributes: AttrMap::new() });
    let parent = styled(&node, "inline", vec![styled(&node, "inline", vec![])]);
    let layout = to_layout_box(parent);
    assert_eq!(kinds(&layout.children), vec!["anonymous"]);
    assert_eq!(kinds(&layout.children[0].children), vec!["inline"]);
}
