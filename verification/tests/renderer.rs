use rendering_tree::css::parse as parse_stylesheet;
use rendering_tree::dom::{Node, NodeType};
use rendering_tree::error::ParseError;
use rendering_tree::html::parse;
use rendering_tree::layout::{to_layout_box, BoxType, LayoutBox};
use rendering_tree::render::ElementContainer;
use rendering_tree::renderer::{
    collect_tag_inners, inline_scripts, join, present, render, stylesheet_source, RenderError,
    Renderer, DEFAULT_STYLESHEET,
};
use rendering_tree::style::to_styled_node;

fn document(markup: &str) -> Box<Node> {
    parse(markup).expect("the markup is well formed")
}

fn titled(title: &str, children: Vec<ElementContainer>) -> ElementContainer {
    ElementContainer::Titled { title: title.to_string(), children }
}

fn group(children: Vec<ElementContainer>) -> ElementContainer {
    ElementContainer::Group { children }
}

fn leaf(text: &str) -> ElementContainer {
    ElementContainer::Text { text: text.to_string() }
}

fn kind(layout: &LayoutBox) -> &'static str {
    match layout.box_type {
        BoxType::BlockBox(_) => "block",
        BoxType::InlineBox(_) => "inline",
        BoxType::AnonymousBox => "anonymous",
    }
}

fn text_of(layout: &LayoutBox) -> String {
    match &layout.box_type {
        BoxType::BlockBox(props) | BoxType::InlineBox(props) => match props.node_type {
            NodeType::Text(t) => t.data.clone(),
            NodeType::Element(_) => layout.children.iter().map(text_of).collect(),
        },
        BoxType::AnonymousBox => layout.children.iter().map(text_of).collect(),
    }
}

#[test]
fn collect_tag_inners_gathers_in_document_order() {
    let doc = document(
        "<body><style>a</style><div><style>b<i>c</i></style><p>x</p></div><style></style><style>d<style>e</style></style></body>",
    );
    assert_eq!(collect_tag_inners(&doc, "style"), vec!["a", "bc", "", "de"]);
    assert_eq!(collect_tag_inners(&doc, "p"), vec!["x"]);
    assert_eq!(collect_tag_inners(&doc, "script"), Vec::<String>::new());
    assert_eq!(collect_tag_inners(&doc, "body"), vec!["abcxde"]);
}

#[test]
fn join_puts_the_separator_between() {
    assert_eq!(join(&vec![], "\n"), "");
    assert_eq!(join(&vec!["a".to_string()], "\n"), "a");
    assert_eq!(join(&vec!["a".to_string(), "".to_string(), "b".to_string()], ", "), "a, , b");
}

#[test]
fn stylesheet_source_starts_with_the_default_rules() {
    let doc = document("<body><style>p { x: y }</style><p>t</p><style>q { z: w }</style></body>");
    assert_eq!(
        stylesheet_source(&doc),
        "\nscript, style {\n    display: none;\n}\np, div {\n    display: block;\n}\n\np { x: y }\nq { z: w }"
    );
    let plain = document("<body></body>");
    assert_eq!(stylesheet_source(&plain), format!("{}\n", DEFAULT_STYLESHEET));
}

#[test]
fn inline_scripts_joins_the_scripts() {
    let doc = document("<body><script>a()</script><p>t</p><script>b()</script></body>");
    assert_eq!(inline_scripts(&doc), "a()\nb()");
    assert_eq!(inline_scripts(&document("<body></body>")), "");
}

#[test]
fn render_gives_nothing_for_a_hidden_root() {
    let doc = document("<body><p>t</p></body>");
    let hide = parse_stylesheet("body { display: none }").expect("a stylesheet");
    assert_eq!(render(&doc, &hide), None);
    let show = parse_stylesheet("p { display: block }").expect("a stylesheet");
    assert_eq!(render(&doc, &show), Some(titled("body", vec![titled("p", vec![group(vec![leaf("t")])])])));
}

#[test]
fn end_to_end_block_and_inline_paragraphs() {
    let doc = document("<body><p>hello</p><p class=\"inline\">world</p></body>");
    let sheet = parse_stylesheet("p { display: block } .inline { display: inline }").expect("a stylesheet");
    let styled = to_styled_node(&doc, &sheet).expect("the root is shown");
    assert_eq!(styled.children[0].display(), rendering_tree::style::Display::Block);
    assert_eq!(styled.children[1].display(), rendering_tree::style::Display::Inline);
    let layout = to_layout_box(styled);
    assert_eq!(layout.children.len(), 2);
    assert_eq!(kind(&layout.children[0]), "block");
    assert_eq!(text_of(&layout.children[0]), "hello");
    assert_eq!(kind(&layout.children[1]), "anonymous");
    assert_eq!(layout.children[1].children.len(), 1);
    assert_eq!(kind(&layout.children[1].children[0]), "inline");
    assert_eq!(text_of(&layout.children[1].children[0]), "world");
}

#[test]
fn present_uses_the_documents_own_styles() {
    let doc = document(
        "<body><p>hello</p><p class=\"inline\">world</p><div class=\"none\"><p>gone</p></div><style>.none { display: none; } .inline { display: inline; }</style></body>",
    );
    assert_eq!(
        present(&doc),
        Ok(titled(
            "body",
            vec![
                titled("p", vec![group(vec![leaf("hello")])]),
                group(vec![titled("p", vec![group(vec![leaf("world")])])]),
            ]
        ))
    );
}

#[test]
fn present_fails_on_a_malformed_stylesheet_and_on_a_hidden_root() {
    assert_eq!(present(&document("<body><style>p {</style></body>")), Err(RenderError::MalformedStylesheet));
    assert_eq!(
        present(&document("<body><style>body { display: none }</style></body>")),
        Err(RenderError::RootHidden)
    );
    assert_eq!(present(&document("<script>x</script>")), Err(RenderError::RootHidden));
}

#[test]
fn a_renderer_starts_ready() {
    let renderer = match Renderer::new(document("<div id=\"result\"><p>not loaded</p></div>")) {
        Ok(renderer) => renderer,
        Err(e) => panic!("{:?}", e),
    };
    assert!(!renderer.needs_rerender());
    assert_eq!(renderer.document(), &document("<div id=\"result\"><p>not loaded</p></div>"));
    assert_eq!(renderer.view(), &titled("div", vec![titled("p", vec![group(vec![leaf("not loaded")])])]));
    assert_eq!(renderer.stylesheet_source(), format!("{}\n", DEFAULT_STYLESHEET));
    assert!(matches!(Renderer::new(document("<style></style>")), Err(RenderError::RootHidden)));
    assert!(matches!(
        Renderer::new(document("<p><style>}</style></p>")),
        Err(RenderError::MalformedStylesheet)
    ));
}

#[test]
fn end_to_end_mutation() {
    let mut renderer = match Renderer::new(document(
        "<body><div id=\"result\"><p>not loaded</p></div><p id=\"other\">kept</p></body>",
    )) {
        Ok(renderer) => renderer,
        Err(e) => panic!("{:?}", e),
    };
    let handle = renderer.get_element_by_id("result").expect("the id is there");
    assert_eq!(renderer.tag_name(handle), Some("div".to_string()));
    assert_eq!(renderer.inner_html(handle), Some("<p>not loaded</p>".to_string()));
    let mut rerenders = 0;
    if renderer.set_inner_html(handle, "<p>loaded</p>") == Ok(true) {
        rerenders += 1;
    }
    assert_eq!(rerenders, 1);
    assert!(renderer.needs_rerender());
    assert_eq!(
        renderer.document(),
        &document("<body><div id=\"result\"><p>loaded</p></div><p id=\"other\">kept</p></body>")
    );
    let div = &renderer.document().children[0];
    assert_eq!(div.children.len(), 1);
    assert_eq!(div.children[0].to_string(), "<p>loaded</p>");
    assert_eq!(renderer.inner_html(handle), Some("<p>loaded</p>".to_string()));
    assert_eq!(
        renderer.view(),
        &titled(
            "body",
            vec![
                titled("div", vec![titled("p", vec![group(vec![leaf("not loaded")])])]),
                titled("p", vec![group(vec![leaf("kept")])]),
            ]
        )
    );
    assert_eq!(renderer.rerender(), Ok(()));
    assert!(!renderer.needs_rerender());
    assert_eq!(
        renderer.view(),
        &titled(
            "body",
            vec![
                titled("div", vec![titled("p", vec![group(vec![leaf("loaded")])])]),
                titled("p", vec![group(vec![leaf("kept")])]),
            ]
        )
    );
}

#[test]
fn a_miss_gives_no_handle_and_changes_nothing() {
    let mut renderer = match Renderer::new(document("<body><p id=\"a\">t</p></body>")) {
        Ok(renderer) => renderer,
        Err(e) => panic!("{:?}", e),
    };
    assert_eq!(renderer.get_element_by_id("b"), None);
    assert_eq!(renderer.get_element_by_id("a"), Some(0));
    assert_eq!(renderer.get_element_by_id("a"), Some(1));
    assert_eq!(renderer.tag_name(2), None);
    assert_eq!(renderer.inner_html(2), None);
    assert_eq!(renderer.set_inner_html(2, "<p></p>"), Ok(false));
    assert!(!renderer.needs_rerender());
    assert_eq!(renderer.document(), &document("<body><p id=\"a\">t</p></body>"));
}

#[test]
fn malformed_markup_changes_nothing() {
    let mut renderer = match Renderer::new(document("<body><p id=\"a\">t</p></body>")) {
        Ok(renderer) => renderer,
        Err(e) => panic!("{:?}", e),
    };
    let handle = renderer.get_element_by_id("a").expect("the id is there");
    assert_eq!(renderer.set_inner_html(handle, "<b>"), Err(ParseError::Markup));
    assert!(!renderer.needs_rerender());
    assert_eq!(renderer.document(), &document("<body><p id=\"a\">t</p></body>"));
}

#[test]
fn handles_of_replaced_nodes_are_released() {
    let mut renderer = match Renderer::new(document(
        "<body><div id=\"outer\"><p id=\"inner\">t</p></div><p id=\"side\">s</p></body>",
    )) {
        Ok(renderer) => renderer,
        Err(e) => panic!("{:?}", e),
    };
    let outer = renderer.get_element_by_id("outer").expect("the id is there");
    let inner = renderer.get_element_by_id("inner").expect("the id is there");
    let side = renderer.get_element_by_id("side").expect("the id is there");
    assert_eq!(renderer.set_inner_html(outer, "<i id=\"inner\">new</i>"), Ok(true));
    assert_eq!(renderer.tag_name(inner), None);
    assert_eq!(renderer.inner_html(inner), None);
    assert_eq!(renderer.set_inner_html(inner, "x"), Ok(false));
    assert_eq!(renderer.tag_name(outer), Some("div".to_string()));
    assert_eq!(renderer.tag_name(side), Some("p".to_string()));
    assert_eq!(renderer.inner_html(side), Some("s".to_string()));
    let again = renderer.get_element_by_id("inner").expect("the id is there");
    assert_eq!(renderer.tag_name(again), Some("i".to_string()));
}

#[test]
fn a_failed_rerender_keeps_what_was_shown() {
    let mut renderer = match Renderer::new(document("<body><p id=\"a\">t</p></body>")) {
        Ok(renderer) => renderer,
        Err(e) => panic!("{:?}", e),
    };
    let handle = renderer.get_element_by_id("a").expect("the id is there");
    assert_eq!(renderer.set_inner_html(handle, "<style>body { display: none }</style>"), Ok(true));
    assert_eq!(renderer.rerender(), Err(RenderError::RootHidden));
    assert!(renderer.needs_rerender());
    assert_eq!(renderer.view(), &titled("body", vec![titled("p", vec![group(vec![leaf("t")])])]));
    assert_eq!(renderer.set_inner_html(handle, "<style>{</style>"), Ok(true));
    assert_eq!(renderer.rerender(), Err(RenderError::MalformedStylesheet));
    assert_eq!(renderer.set_inner_html(handle, "fine"), Ok(true));
    assert_eq!(renderer.rerender(), Ok(()));
    assert_eq!(renderer.view(), &titled("body", vec![titled("p", vec![group(vec![leaf("fine")])])]));
}

#[test]
fn the_scripts_are_handed_out_once() {
    let mut renderer = match Renderer::new(document(
        "<body><script>a()</script><p id=\"p\">t</p><script>b()</script></body>",
    )) {
        Ok(renderer) => renderer,
        Err(e) => panic!("{:?}", e),
    };
    assert_eq!(renderer.take_inline_scripts(), Some("a()\nb()".to_string()));
    assert_eq!(renderer.take_inline_scripts(), None);
    let handle = renderer.get_element_by_id("p").expect("the id is there");
    assert_eq!(renderer.set_inner_html(handle, "<script>c()</script>"), Ok(true));
    assert_eq!(renderer.rerender(), Ok(()));
    assert_eq!(renderer.take_inline_scripts(), None);
    let mut plain = match Renderer::new(document("<body></body>")) {
        Ok(renderer) => renderer,
        Err(e) => panic!("{:?}", e),
    };
    assert_eq!(plain.take_inline_scripts(), Some(String::new()));
}

const PAGE: &str = r#"<body>
    <p>hello</p>
    <p class="inline">world</p>
    <p class="inline">:)</p>
    <div class="none"><p>this should not be shown</p></div>
    <style>
        .none {
            display: none;
        }
        .inline {
            display: inline;
        }
    </style>
</body>"#;

fn leaves(container: &ElementContainer, out: &mut Vec<String>) {
    match container {
        ElementContainer::Titled { children, .. } | ElementContainer::Group { children } => {
            for child in children {
                leaves(child, out);
            }
        }
        ElementContainer::Text { text } => out.push(text.clone()),
        ElementContainer::Empty => out.push(String::new()),
    }
}

#[test]
fn a_whole_page_is_shown_without_what_is_hidden() {
    let renderer = match Renderer::new(document(PAGE)) {
        Ok(renderer) => renderer,
        Err(e) => panic!("{:?}", e),
    };
    let mut texts = Vec::new();
    leaves(renderer.view(), &mut texts);
    assert_eq!(texts, vec!["", "hello", "", "world", "", ":)", "", "", ""]);
    match renderer.view() {
        ElementContainer::Titled { title, children } => {
            assert_eq!(title, "body");
            assert_eq!(
                children,
                &vec![
                    group(vec![ElementContainer::Empty]),
                    titled("p", vec![group(vec![leaf("hello")])]),
                    group(vec![
                        ElementContainer::Empty,
                        titled("p", vec![group(vec![leaf("world")])]),
                        ElementContainer::Empty,
                        titled("p", vec![group(vec![leaf(":)")])]),
                        ElementContainer::Empty,
                        ElementContainer::Empty,
                        ElementContainer::Empty,
                    ]),
                ]
            );
        }
        other => panic!("{:?}", other),
    }
}
