use rendering_tree::css::{
    AttributeSelectorOp, CSSValue, Declaration, Rule, SimpleSelector, Stylesheet,
};
use rendering_tree::dom::{AttrMap, Element, Node};
use rendering_tree::style::{
    display_of_properties, resolve_properties, to_styled_node, Display, PropertyMap, StyledNode,
};

fn attrs(pairs: &[(&str, &str)]) -> AttrMap {
    AttrMap::from_entries(pairs.iter().map(|(k, v)| (k.to_string(), v.to_string())).collect())
}

fn props(pairs: &[(String, CSSValue)]) -> PropertyMap {
    PropertyMap::from_entries(pairs.iter().cloned().collect())
}

fn p_with_id() -> Box<Node> {
    Element::new("p".to_string(), attrs(&[("id", "test")]), vec![])
}

#[test]
fn test_to_styled_node_single() {
    let e = &p_with_id();
    let testcases = vec![
        (
            // * { display: block; }
            Stylesheet::new(vec![Rule {
                selectors: vec![SimpleSelector::UniversalSelector],
                declarations: vec![Declaration {
                    name: "display".to_string(),
                    value: CSSValue::Keyword("block".to_string()),
                }],
            }]),
            vec![("display".to_string(), CSSValue::Keyword("block".to_string()))],
        ),
        (
            // div { display: block; }
            Stylesheet::new(vec![Rule {
                selectors: vec![SimpleSelector::TypeSelector { tag_name: "div".into() }],
                declarations: vec![Declaration {
                    name: "display".into(),
                    value: CSSValue::Keyword("block".to_string()),
                }],
            }]),
            vec![],
        ),
        (
            // * { display: block; }
            // div { display: inline; }
            Stylesheet::new(vec![
                Rule {
                    selectors: vec![SimpleSelector::UniversalSelector],
                    declarations: vec![Declaration {
                        name: "display".to_string(),
                        value: CSSValue::Keyword("block".into()),
                    }],
                },
                Rule {
                    selectors: vec![SimpleSelector::TypeSelector { tag_name: "div".into() }],
                    declarations: vec![Declaration {
                        name: "display".into(),
                        value: CSSValue::Keyword("inline".into()),
                    }],
                },
            ]),
            vec![("display".to_string(), CSSValue::Keyword("block".to_string()))],
        ),
        (
            // * { display: block; }
            // p { display: inline; testname: testvalue; }
            Stylesheet::new(vec![
                Rule {
                    selectors: vec![SimpleSelector::UniversalSelector],
                    declarations: vec![Declaration {
                        name: "display".to_string(),
                        value: CSSValue::Keyword("block".into()),
                    }],
                },
                Rule {
                    selectors: vec![SimpleSelector::TypeSelector { tag_name: "p".into() }],
                    declarations: vec![
                        Declaration {
                            name: "display".into(),
                            value: CSSValue::Keyword("inline".into()),
                        },
                        Declaration {
                            name: "testname".into(),
                            value: CSSValue::Keyword("testvalue".into()),
                        },
                    ],
                },
            ]),
            vec![
                ("display".into(), CSSValue::Keyword("inline".into())),
                ("testname".into(), CSSValue::Keyword("testvalue".into())),
            ],
        ),
        (
            // * { display: block; }
            // p[id=hello] { testname: testvalue; }
            Stylesheet::new(vec![
                Rule {
                    selectors: vec![SimpleSelector::UniversalSelector],
                    declarations: vec![Declaration {
                        name: "display".to_string(),
                        value: CSSValue::Keyword("block".into()),
                    }],
                },
                Rule {
                    selectors: vec![SimpleSelector::AttributeSelector {
                        tag_name: "p".into(),
                        op: AttributeSelectorOp::Eq,
                        attribute: "id".into(),
                        value: "hello".into(),
                    }],
                    declarations: vec![Declaration {
                        name: "testname".into(),
                        value: CSSValue::Keyword("testvalue".into()),
                    }],
                },
            ]),
            vec![("display".into(), CSSValue::Keyword("block".into()))],
        ),
        (
            // * { display: block; }
            // p[id=test] { testname: testvalue; }
            Stylesheet::new(vec![
                Rule {
                    selectors: vec![SimpleSelector::UniversalSelector],
                    declarations: vec![Declaration {
                        name: "display".to_string(),
                        value: CSSValue::Keyword("block".into()),
                    }],
                },
                Rule {
                    selectors: vec![SimpleSelector::AttributeSelector {
                        tag_name: "p".into(),
                        op: AttributeSelectorOp::Eq,
                        attribute: "id".into(),
                        value: "test".into(),
                    }],
                    declarations: vec![Declaration {
                        name: "testname".into(),
                        value: CSSValue::Keyword("testvalue".into()),
                    }],
                },
            ]),
            vec![
                ("display".into(), CSSValue::Keyword("block".into())),
                ("testname".into(), CSSValue::Keyword("testvalue".into())),
            ],
        ),
    ];

    for (stylesheet, properties) in testcases {
        assert_eq!(
            to_styled_node(e, &stylesheet),
            Some(StyledNode { node_type: &e.node_type, properties: props(&properties), children: vec![] })
        );
    }
}

#[test]
fn test_to_styled_node_nested() {
    let parent = &Element::new("div".to_string(), attrs(&[("id", "test")]), vec![p_with_id()]);
    let child_node_type = p_with_id().node_type;

    {
        // * { display: block; }
        let stylesheet = Stylesheet::new(vec![Rule {
            selectors: vec![SimpleSelector::UniversalSelector],
            declarations: vec![Declaration {
                name: "display".to_string(),
                value: CSSValue::Keyword("block".to_string()),
            }],
        }]);

        assert_eq!(
            to_styled_node(parent, &stylesheet),
            Some(StyledNode {
                node_type: &parent.node_type,
                properties: props(&[("display".to_string(), CSSValue::Keyword("block".to_string()))]),
                children: vec![StyledNode {
                    node_type: &child_node_type,
                    properties: props(&[(
                        "display".to_string(),
                        CSSValue::Keyword("block".to_string()),
                    )]),
                    children: vec![],
                }],
            })
        );
    }

    {
        // p { display: block; }
        let stylesheet = Stylesheet::new(vec![Rule {
            selectors: vec![SimpleSelector::TypeSelector { tag_name: "p".into() }],
            declarations: vec![Declaration {
                name: "display".to_string(),
                value: CSSValue::Keyword("block".to_string()),
            }],
        }]);

        assert_eq!(
            to_styled_node(parent, &stylesheet),
            Some(StyledNode {
                node_type: &parent.node_type,
                properties: props(&[]),
                children: vec![StyledNode {
                    node_type: &child_node_type,
                    properties: props(&[(
                        "display".to_string(),
                        CSSValue::Keyword("block".to_string()),
                    )]),
                    children: vec![],
                }],
            })
        );
    }
}

#[test]
fn test_to_styled_node_nested_single() {
    let parent = &Element::new("div".to_string(), attrs(&[("id", "test")]), vec![]);

    // div { display: none; }
    let stylesheet = Stylesheet::new(vec![Rule {
        selectors: vec![SimpleSelector::TypeSelector { tag_name: "div".into() }],
        declarations: vec![Declaration {
            name: "display".to_string(),
            value: CSSValue::Keyword("none".to_string()),
        }],
    }]);

    assert_eq!(to_styled_node(parent, &stylesheet), None);
}

#[test]
fn test_to_styled_node_nested_none() {
    let parent = &Element::new("div".to_string(), attrs(&[("id", "test")]), vec![p_with_id()]);

    // p { display: none; }
    let stylesheet = Stylesheet::new(vec![Rule {
        selectors: vec![SimpleSelector::TypeSelector { tag_name: "p".into() }],
        declarations: vec![Declaration {
            name: "display".to_string(),
            value: CSSValue::Keyword("none".to_string()),
        }],
    }]);

    assert_eq!(
        to_styled_node(parent, &stylesheet),
        Some(StyledNode { node_type: &parent.node_type, properties: props(&[]), children: vec![] })
    );
}

fn rule(selectors: Vec<SimpleSelector>, declarations: &[(&str, &str)]) -> Rule {
    Rule {
        selectors,
        declarations: declarations
            .iter()
            .map(|(n, v)| Declaration { name: n.to_string(), value: CSSValue::Keyword(v.to_string()) })
            .collect(),
    }
}

fn keyword(value: &str) -> CSSValue {
    CSSValue::Keyword(value.to_string())
}

fn universal() -> SimpleSelector {
    SimpleSelector::UniversalSelector
}

fn of_type(tag: &str) -> SimpleSelector {
    SimpleSelector::TypeSelector { tag_name: tag.to_string() }
}

fn with_attribute(attribute: &str, value: &str) -> SimpleSelector {
    SimpleSelector::AttributeSelector {
        tag_name: String::new(),
        op: AttributeSelectorOp::Eq,
        attribute: attribute.to_string(),
        value: value.to_string(),
    }
}

#[test]
fn a_node_that_no_rule_matches_has_no_property_and_is_inline() {
    let div = Element::new("div".to_string(), attrs(&[]), vec![]);
    let sheet = Stylesheet::new(vec![
        rule(vec![of_type("p")], &[("display", "block")]),
        rule(vec![with_attribute("id", "x")], &[("display", "none")]),
        rule(vec![], &[("display", "none")]),
    ]);
    let styled = to_styled_node(&div, &sheet).expect("the node is shown");
    assert!(styled.properties.is_empty());
    assert_eq!(styled.display(), Display::Inline);
    let empty = Stylesheet::new(vec![]);
    let styled = to_styled_node(&div, &empty).expect("the node is shown");
    assert!(styled.properties.is_empty());
    assert_eq!(styled.display(), Display::Inline);
}

#[test]
fn a_text_node_takes_no_declaration() {
    let text = rendering_tree::dom::Text::new("hello".to_string());
    let sheet = Stylesheet::new(vec![rule(vec![universal()], &[("display", "none")])]);
    let styled = to_styled_node(&text, &sheet).expect("text is shown");
    assert!(styled.properties.is_empty());
    assert_eq!(styled.display(), Display::Inline);
}

#[test]
fn the_type_selector_overrides_the_universal_one_in_either_order() {
    let div = Element::new("div".to_string(), attrs(&[]), vec![]);
    let star = || rule(vec![universal()], &[("display", "block")]);
    let typed = || rule(vec![of_type("div")], &[("display", "inline")]);
    for sheet in [Stylesheet::new(vec![star(), typed()]), Stylesheet::new(vec![typed(), star()])] {
        let styled = to_styled_node(&div, &sheet).expect("the node is shown");
        assert_eq!(styled.properties.get("display"), Some(&keyword("inline")));
        assert_eq!(styled.display(), Display::Inline);
    }
}

#[test]
fn the_attribute_selector_overrides_the_type_selector_in_either_order() {
    let p = Element::new("p".to_string(), attrs(&[("class", "inline")]), vec![]);
    let typed = || rule(vec![of_type("p")], &[("display", "block"), ("color", "red")]);
    let class = || rule(vec![with_attribute("class", "inline")], &[("display", "inline")]);
    for sheet in [Stylesheet::new(vec![typed(), class()]), Stylesheet::new(vec![class(), typed()])] {
        let styled = to_styled_node(&p, &sheet).expect("the node is shown");
        assert_eq!(styled.properties.get("display"), Some(&keyword("inline")));
        assert_eq!(styled.properties.get("color"), Some(&keyword("red")));
        assert_eq!(styled.properties.len(), 2);
    }
}

#[test]
fn of_two_rules_of_one_priority_the_later_wins() {
    let p = Element::new("p".to_string(), attrs(&[]), vec![]);
    let sheet = Stylesheet::new(vec![
        rule(vec![of_type("p")], &[("display", "none"), ("display", "block")]),
        rule(vec![of_type("p")], &[("display", "inline")]),
    ]);
    let styled = to_styled_node(&p, &sheet).expect("the node is shown");
    assert_eq!(styled.properties.get("display"), Some(&keyword("inline")));
    let sheet = Stylesheet::new(vec![rule(vec![of_type("p")], &[("display", "none"), ("display", "block")])]);
    let styled = to_styled_node(&p, &sheet).expect("the node is shown");
    assert_eq!(styled.display(), Display::Block);
}

#[test]
fn a_rule_counts_with_its_strongest_matching_selector() {
    let p = Element::new("p".to_string(), attrs(&[("id", "x")]), vec![]);
    let sheet = Stylesheet::new(vec![
        rule(vec![universal(), with_attribute("id", "x")], &[("display", "block")]),
        rule(vec![of_type("p")], &[("display", "inline")]),
    ]);
    let styled = to_styled_node(&p, &sheet).expect("the node is shown");
    assert_eq!(styled.display(), Display::Block);
}

#[test]
fn display_reads_block_none_and_anything_else() {
    let of = |value: &str| {
        display_of_properties(&PropertyMap::from_entries(vec![("display".to_string(), keyword(value))]))
    };
    assert_eq!(of("block"), Display::Block);
    assert_eq!(of("none"), Display::Hidden);
    assert_eq!(of("inline"), Display::Inline);
    assert_eq!(of("flex"), Display::Inline);
    assert_eq!(of(""), Display::Inline);
    assert_eq!(display_of_properties(&PropertyMap::new()), Display::Inline);
    assert_eq!(
        display_of_properties(&PropertyMap::from_entries(vec![("color".to_string(), keyword("none"))])),
        Display::Inline
    );
}

#[test]
fn a_hidden_node_is_absent_and_so_is_all_below_it() {
    let div = Element::new("div".to_string(), attrs(&[]), vec![]);
    let hide_div = Stylesheet::new(vec![rule(vec![of_type("div")], &[("display", "none")])]);
    assert_eq!(to_styled_node(&div, &hide_div), None);
    let parent = Element::new(
        "body".to_string(),
        attrs(&[]),
        vec![Element::new(
            "div".to_string(),
            attrs(&[]),
            vec![Element::new("p".to_string(), attrs(&[]), vec![])],
        )],
    );
    let styled = to_styled_node(&parent, &hide_div).expect("the parent is shown");
    assert!(styled.children.is_empty());
    assert_eq!(styled.node_type, &parent.node_type);
}

#[test]
fn hidden_children_leave_the_others_in_order() {
    let parent = Element::new(
        "body".to_string(),
        attrs(&[]),
        vec![
            Element::new("a".to_string(), attrs(&[]), vec![]),
            Element::new("script".to_string(), attrs(&[]), vec![]),
            Element::new("b".to_string(), attrs(&[]), vec![]),
            Element::new("script".to_string(), attrs(&[]), vec![]),
            Element::new("c".to_string(), attrs(&[]), vec![]),
        ],
    );
    let sheet = Stylesheet::new(vec![rule(vec![of_type("script")], &[("display", "none")])]);
    let styled = to_styled_node(&parent, &sheet).expect("the parent is shown");
    let tags: Vec<String> = styled
        .children
        .iter()
        .map(|c| match c.node_type {
            rendering_tree::dom::NodeType::Element(e) => e.tag_name.clone(),
            rendering_tree::dom::NodeType::Text(_) => String::new(),
        })
        .collect();
    assert_eq!(tags, vec!["a", "b", "c"]);
}

#[test]
fn resolve_properties_keeps_the_order_of_first_declaration() {
    let p = Element::new("p".to_string(), attrs(&[]), vec![]);
    let sheet = Stylesheet::new(vec![
        rule(vec![of_type("p")], &[("b", "1")]),
        rule(vec![universal()], &[("a", "1"), ("b", "0")]),
    ]);
    let properties = resolve_properties(&p.node_type, &sheet);
    assert_eq!(properties.len(), 2);
    assert_eq!(properties.key_at(0), "a");
    assert_eq!(properties.key_at(1), "b");
    assert_eq!(properties.value_at(1), &keyword("1"));
}
